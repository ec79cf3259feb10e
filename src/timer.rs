//! Timer sequences and the decisions of a timer run.
//!
//! A run is driven from outside: the driver performs each [`Action`] the
//! timer asks for (play a sound, read the clock, sleep one tick) and hands
//! back what happened as an [`Event`]. [`Timer::play`] with index 0 starts a
//! run and [`Timer::step`] takes it on from there.
use vstd::prelude::*;
use crate::plan::ImportPair;
use crate::string_store::{
    all_distinct, intern_all, lemma_interning_uniqueness, StringStore, STORE_CAPACITY,
};

verus! {

/// Length, in milliseconds, of one sleep while waiting out a delay.
pub const TICK_MILLIS: u64 = 100;

/// One step of a timer: the handle of its sound, if it has one, and the
/// delay, in seconds, before the next step starts.
#[derive(Debug, Clone, Copy, PartialEq, Eq, Structural)]
pub struct TimerPair {
    pub sound_handle: Option<u16>,
    pub time_delay: u64,
}

impl TimerPair {
    pub fn new(sound_handle: Option<u16>, time_delay: u64) -> (r: Self)
        ensures
            r == (TimerPair { sound_handle, time_delay }),
    {
        TimerPair { sound_handle, time_delay }
    }
}

/// An ordered sequence of timer steps.
#[derive(Debug)]
pub struct Timer {
    plan: Vec<TimerPair>,
}

impl View for Timer {
    type V = Seq<TimerPair>;

    closed spec fn view(&self) -> Seq<TimerPair> {
        self.plan@
    }
}

/// Where a run stands.
#[derive(Debug, Clone, Copy, PartialEq, Eq, Structural)]
pub enum Phase {
    /// The sound of step `index` has been asked for.
    Playing { index: usize },
    /// Step `index` has started; its delay is being waited out.
    Waiting { index: usize },
    /// Every step has run.
    Done,
    /// Playback failed; the run is over.
    Aborted,
}

/// What the driver does next.
#[derive(Debug, Clone, Copy, PartialEq, Eq, Structural)]
pub enum Action {
    /// Start the clock of step `index`, play sound `handle` once, and report
    /// `Played` or `PlayFailed`.
    Play { index: usize, handle: u16 },
    /// Start the clock of step `index`, which has no sound, report that it
    /// has none, and report the time elapsed.
    Silent { index: usize },
    /// Report the time elapsed since the current step started.
    Check,
    /// Sleep one tick, then report the time elapsed.
    Sleep,
    /// The run has succeeded.
    Finish,
    /// The run has failed with the playback error.
    Abort,
}

/// What the driver reports.
#[derive(Debug, Clone, Copy, PartialEq, Eq, Structural)]
pub enum Event {
    /// The sound started playing.
    Played,
    /// The sound could not be played.
    PlayFailed,
    /// Milliseconds elapsed since the current step started.
    Elapsed { millis: u128 },
}

/// Starting step `i` of `plan`: play its sound if it has one; past the last
/// step the run is done.
pub open spec fn start_spec(plan: Seq<TimerPair>, i: int) -> (Phase, Action) {
    if i < 0 || i >= plan.len() {
        (Phase::Done, Action::Finish)
    } else {
        match plan[i].sound_handle {
            Some(h) => (Phase::Playing { index: i as usize }, Action::Play { index: i as usize, handle: h }),
            None => (Phase::Waiting { index: i as usize }, Action::Silent { index: i as usize }),
        }
    }
}

/// Whether `millis` milliseconds reach the delay of `pair`.
pub open spec fn delay_elapsed(pair: TimerPair, millis: u128) -> bool {
    millis >= pair.time_delay as int * 1000
}

/// One decision of a run in `phase` on `event`: the next phase and action.
/// A step is left only once its delay has elapsed; a failed playback ends
/// the run; an event that does not fit the phase aborts the run.
pub open spec fn step_spec(plan: Seq<TimerPair>, phase: Phase, event: Event) -> (Phase, Action) {
    match phase {
        Phase::Done => (Phase::Done, Action::Finish),
        Phase::Aborted => (Phase::Aborted, Action::Abort),
        Phase::Playing { index } => match event {
            Event::Played => (Phase::Waiting { index }, Action::Check),
            _ => (Phase::Aborted, Action::Abort),
        },
        Phase::Waiting { index } => match event {
            Event::Elapsed { millis } => if index >= plan.len() {
                (Phase::Aborted, Action::Abort)
            } else if delay_elapsed(plan[index as int], millis) {
                start_spec(plan, index + 1)
            } else {
                (Phase::Waiting { index }, Action::Sleep)
            },
            _ => (Phase::Aborted, Action::Abort),
        },
    }
}

/// The phase reached and the actions asked for when a run in `phase` is
/// handed `events` in turn.
pub open spec fn run_from(plan: Seq<TimerPair>, phase: Phase, events: Seq<Event>) -> (Phase, Seq<Action>)
    decreases events.len(),
{
    if events.len() == 0 {
        (phase, Seq::empty())
    } else {
        let (before, actions) = run_from(plan, phase, events.drop_last());
        let (after, a) = step_spec(plan, before, events.last());
        (after, actions.push(a))
    }
}

/// A whole run handed `events`: the phase reached and every action asked
/// for, beginning with the start of step 0.
pub open spec fn run_spec(plan: Seq<TimerPair>, events: Seq<Event>) -> (Phase, Seq<Action>) {
    let (p0, a0) = start_spec(plan, 0);
    let (p, actions) = run_from(plan, p0, events);
    (p, seq![a0] + actions)
}

/// The step index and sound of each `Play` among `actions`, in order.
pub open spec fn plays(actions: Seq<Action>) -> Seq<(usize, u16)>
    decreases actions.len(),
{
    if actions.len() == 0 {
        Seq::empty()
    } else {
        match actions.last() {
            Action::Play { index, handle } => plays(actions.drop_last()).push((index, handle)),
            _ => plays(actions.drop_last()),
        }
    }
}

/// The step index and sound of each of the first `k` steps that has a
/// sound, in order.
pub open spec fn sounds_before(plan: Seq<TimerPair>, k: int) -> Seq<(usize, u16)>
    decreases k,
{
    if k <= 0 || plan.len() < k {
        Seq::empty()
    } else {
        match plan[k - 1].sound_handle {
            Some(h) => sounds_before(plan, k - 1).push(((k - 1) as usize, h)),
            None => sounds_before(plan, k - 1),
        }
    }
}

/// What the sounds played so far are, in each phase.
pub open spec fn played_so_far(plan: Seq<TimerPair>, phase: Phase, played: Seq<(usize, u16)>) -> bool {
    match phase {
        Phase::Playing { index } => index < plan.len() && played == sounds_before(plan, index + 1),
        Phase::Waiting { index } => index < plan.len() && played == sounds_before(plan, index + 1),
        Phase::Done => played == sounds_before(plan, plan.len() as int),
        Phase::Aborted => exists|k: int| 0 <= k <= plan.len() && played == sounds_before(plan, k),
    }
}

proof fn lemma_start_keeps(plan: Seq<TimerPair>, i: int, played: Seq<(usize, u16)>)
    requires
        0 <= i <= plan.len(),
        played == sounds_before(plan, i),
        plan.len() <= usize::MAX,
    ensures
        ({
            let (p, a) = start_spec(plan, i);
            let more = match a {
                Action::Play { index, handle } => played.push((index, handle)),
                _ => played,
            };
            played_so_far(plan, p, more)
        }),
{
}

proof fn lemma_step_keeps(plan: Seq<TimerPair>, phase: Phase, event: Event, played: Seq<(usize, u16)>)
    requires
        played_so_far(plan, phase, played),
        plan.len() <= usize::MAX,
    ensures
        ({
            let (p, a) = step_spec(plan, phase, event);
            let more = match a {
                Action::Play { index, handle } => played.push((index, handle)),
                _ => played,
            };
            played_so_far(plan, p, more)
        }),
{
    match phase {
        Phase::Playing { index } => {
            assert(played_so_far(plan, Phase::Aborted, played));
        },
        Phase::Waiting { index } => {
            assert(played_so_far(plan, Phase::Aborted, played));
            match event {
                Event::Elapsed { millis } => {
                    if delay_elapsed(plan[index as int], millis) {
                        lemma_start_keeps(plan, index + 1, played);
                    }
                },
                _ => {},
            }
        },
        _ => {},
    }
}

proof fn lemma_run_from_keeps(plan: Seq<TimerPair>, phase: Phase, events: Seq<Event>, played: Seq<(usize, u16)>)
    requires
        played_so_far(plan, phase, played),
        plan.len() <= usize::MAX,
    ensures
        ({
            let (p, actions) = run_from(plan, phase, events);
            played_so_far(plan, p, played + plays(actions))
        }),
    decreases events.len(),
{
    if events.len() > 0 {
        lemma_run_from_keeps(plan, phase, events.drop_last(), played);
        let (before, actions) = run_from(plan, phase, events.drop_last());
        lemma_step_keeps(plan, before, events.last(), played + plays(actions));
        let (after, a) = step_spec(plan, before, events.last());
        assert(actions.push(a).drop_last() =~= actions);
        match a {
            Action::Play { index, handle } => {
                assert(played + plays(actions).push((index, handle)) =~= (played + plays(actions)).push((index, handle)));
            },
            _ => {},
        }
    } else {
        assert(played + plays(Seq::<Action>::empty()) =~= played);
    }
}

proof fn lemma_plays_prepend(a: Action, actions: Seq<Action>)
    ensures
        plays(seq![a] + actions) == plays(seq![a]) + plays(actions),
    decreases actions.len(),
{
    if actions.len() > 0 {
        lemma_plays_prepend(a, actions.drop_last());
        assert((seq![a] + actions).drop_last() =~= seq![a] + actions.drop_last());
        match actions.last() {
            Action::Play { index, handle } => {
                assert(plays(seq![a]) + plays(actions.drop_last()).push((index, handle))
                    =~= (plays(seq![a]) + plays(actions.drop_last())).push((index, handle)));
            },
            _ => {},
        }
    } else {
        assert(seq![a] + actions =~= seq![a]);
        assert(plays(seq![a]) + plays(actions) =~= plays(seq![a]));
    }
}

/// Sequential execution: whatever the driver reports, the sounds a run asks
/// to play are those of the steps that have one, in step order, each at most
/// once, and stop only at an abort; a run that is done has asked for every
/// one of them exactly once.
pub proof fn lemma_sequential_plays(plan: Seq<TimerPair>, events: Seq<Event>)
    requires
        plan.len() <= usize::MAX,
    ensures
        ({
            let (p, actions) = run_spec(plan, events);
            &&& exists|k: int| 0 <= k <= plan.len() && plays(actions) == sounds_before(plan, k)
            &&& !(p is Aborted) ==> plays(actions) == sounds_before(plan, match p {
                Phase::Playing { index } => index + 1,
                Phase::Waiting { index } => index + 1,
                _ => plan.len() as int,
            })
            &&& p is Done ==> plays(actions) == sounds_before(plan, plan.len() as int)
        }),
{
    let (p0, a0) = start_spec(plan, 0);
    let empty = Seq::<(usize, u16)>::empty();
    assert(sounds_before(plan, 0) == empty);
    lemma_start_keeps(plan, 0, empty);
    let first = plays(seq![a0]);
    assert(seq![a0].drop_last() =~= Seq::<Action>::empty());
    assert(seq![a0].last() == a0);
    assert(plays(Seq::<Action>::empty()) == empty);
    match a0 {
        Action::Play { index, handle } => {
            assert(first =~= empty.push((index, handle)));
        },
        _ => {
            assert(first =~= empty);
        },
    }
    lemma_run_from_keeps(plan, p0, events, first);
    let (p, actions) = run_from(plan, p0, events);
    lemma_plays_prepend(a0, actions);
    match p {
        Phase::Playing { index } => {
            assert(0 <= index + 1 <= plan.len());
        },
        Phase::Waiting { index } => {
            assert(0 <= index + 1 <= plan.len());
        },
        Phase::Done => {
            assert(0 <= plan.len() <= plan.len());
        },
        Phase::Aborted => {},
    }
}

/// Waiting out a delay: a step is left exactly when the time elapsed since
/// it started reaches its delay; before that the run sleeps one tick and
/// looks again.
pub proof fn lemma_waits_out_delay(plan: Seq<TimerPair>, index: usize, millis: u128)
    requires
        index < plan.len(),
    ensures
        step_spec(plan, Phase::Waiting { index }, Event::Elapsed { millis }) == if millis
            >= plan[index as int].time_delay as int * 1000 {
            start_spec(plan, index + 1)
        } else {
            (Phase::Waiting { index }, Action::Sleep)
        },
{
}

/// Tolerated missing sound: a step without a sound asks for no playback, yet
/// its delay is waited out in full before the next step starts.
pub proof fn lemma_missing_handle(plan: Seq<TimerPair>, index: usize, millis: u128)
    requires
        index < plan.len() <= usize::MAX,
        plan[index as int].sound_handle is None,
    ensures
        start_spec(plan, index as int) == (Phase::Waiting { index }, Action::Silent { index }),
        step_spec(plan, Phase::Waiting { index }, Event::Elapsed { millis }).0 != (Phase::Waiting {
            index,
        }) <==> millis >= plan[index as int].time_delay as int * 1000,
{
}

/// Fatal playback: a failed playback ends the run at once, and whatever is
/// reported afterwards, no later step is started and nothing is played.
pub proof fn lemma_fatal_playback(plan: Seq<TimerPair>, index: usize, events: Seq<Event>)
    ensures
        step_spec(plan, Phase::Playing { index }, Event::PlayFailed) == (Phase::Aborted, Action::Abort),
        run_from(plan, Phase::Aborted, events) == (Phase::Aborted, Seq::new(events.len(), |i: int| Action::Abort)),
    decreases events.len(),
{
    if events.len() > 0 {
        lemma_fatal_playback(plan, index, events.drop_last());
        assert(Seq::new((events.len() - 1) as nat, |i: int| Action::Abort).push(Action::Abort)
            =~= Seq::new(events.len(), |i: int| Action::Abort));
    } else {
        assert(Seq::new(events.len(), |i: int| Action::Abort) =~= Seq::<Action>::empty());
    }
}

impl Timer {
    /// Builds a timer from plan steps, in their order, interning each sound
    /// path in `store`.
    pub fn new(pairs: &[ImportPair], store: &mut StringStore) -> (r: Self)
        requires
            old(store).wf(),
        ensures
            final(store).wf(),
            ({
                let (after, handles) = intern_all(old(store)@, pairs@.map_values(|p: ImportPair| p@.0));
                &&& final(store)@ == after
                &&& r@.len() == pairs@.len()
                &&& forall|i: int| 0 <= i < pairs@.len() ==>
                        #[trigger] r@[i] == (TimerPair { sound_handle: handles[i], time_delay: pairs@[i]@.1 })
            }),
    {
        let ghost paths = pairs@.map_values(|p: ImportPair| p@.0);
        let ghost start = store@;
        assert(paths.take(0) =~= Seq::<Seq<char>>::empty());
        let mut plan: Vec<TimerPair> = Vec::with_capacity(5);
        let mut i: usize = 0;
        while i < pairs.len()
            invariant
                i <= pairs@.len(),
                paths == pairs@.map_values(|p: ImportPair| p@.0),
                store.wf(),
                all_distinct(start),
                start.len() <= STORE_CAPACITY,
                plan@.len() == i,
                store@ == intern_all(start, paths.take(i as int)).0,
                forall|j: int| 0 <= j < i ==>
                    #[trigger] plan@[j] == (TimerPair {
                        sound_handle: intern_all(start, paths.take(i as int)).1[j],
                        time_delay: pairs@[j]@.1,
                    }),
            decreases pairs@.len() - i,
        {
            let ghost prev = paths.take(i as int);
            let ghost next = paths.take(i as int + 1);
            assert(next.drop_last() =~= prev);
            proof {
                lemma_interning_uniqueness(start, prev);
            }
            let pair = &pairs[i];
            let handle = store.get_handle(pair.sound_path());
            let delay = pair.time_delay();
            assert(next.last() == paths[i as int]);
            assert(intern_all(start, next).1 == intern_all(start, prev).1.push(handle));
            plan.push(TimerPair { sound_handle: handle, time_delay: delay });
            i = i + 1;
        }
        assert(paths.take(i as int) =~= paths);
        proof {
            lemma_interning_uniqueness(start, paths);
        }
        Timer { plan }
    }

    /// A timer that runs `plan` as it stands.
    pub fn from_pairs(plan: Vec<TimerPair>) -> (r: Self)
        ensures
            r@ == plan@,
    {
        Timer { plan }
    }

    /// Number of steps.
    pub fn len(&self) -> (r: usize)
        ensures
            r == self@.len(),
    {
        self.plan.len()
    }

    /// Step `index`.
    pub fn entry(&self, index: usize) -> (r: TimerPair)
        requires
            index < self@.len(),
        ensures
            r == self@[index as int],
    {
        self.plan[index]
    }

    /// Starts step `index`: its sound is played if it has one, and otherwise
    /// its delay is waited out in silence. Starting step 0 starts a run.
    pub fn play(&self, index: usize) -> (r: (Phase, Action))
        ensures
            r == start_spec(self@, index as int),
    {
        if index >= self.plan.len() {
            return (Phase::Done, Action::Finish);
        }
        match self.plan[index].sound_handle {
            Some(h) => (Phase::Playing { index }, Action::Play { index, handle: h }),
            None => (Phase::Waiting { index }, Action::Silent { index }),
        }
    }

    /// Takes a run on from `phase` after `event`.
    pub fn step(&self, phase: Phase, event: Event) -> (r: (Phase, Action))
        ensures
            r == step_spec(self@, phase, event),
    {
        match phase {
            Phase::Done => (Phase::Done, Action::Finish),
            Phase::Aborted => (Phase::Aborted, Action::Abort),
            Phase::Playing { index } => match event {
                Event::Played => (Phase::Waiting { index }, Action::Check),
                _ => (Phase::Aborted, Action::Abort),
            },
            Phase::Waiting { index } => match event {
                Event::Elapsed { millis } => {
                    if index >= self.plan.len() {
                        (Phase::Aborted, Action::Abort)
                    } else if millis >= self.plan[index].time_delay as u128 * 1000 {
                        self.play(index + 1)
                    } else {
                        (Phase::Waiting { index }, Action::Sleep)
                    }
                },
                _ => (Phase::Aborted, Action::Abort),
            },
        }
    }
}

} // verus!
