use mtimer::{Action, Event, ImportPair, Phase, StringStore, Timer, TimerPair, TICK_MILLIS};

fn plan() -> (Timer, StringStore) {
    let mut store = StringStore::with_capacity(5);
    let pairs = vec![
        ImportPair::new("start.wav", 2),
        ImportPair::new("tick.wav", 1),
        ImportPair::new("start.wav", 0),
    ];
    let timer = Timer::new(&pairs, &mut store);
    (timer, store)
}

#[test]
fn timer_keeps_order_and_interns_paths() {
    let (timer, store) = plan();
    assert_eq!(timer.len(), 3);
    assert_eq!(timer.entry(0), TimerPair::new(Some(0), 2));
    assert_eq!(timer.entry(1), TimerPair::new(Some(1), 1));
    assert_eq!(timer.entry(2), TimerPair::new(Some(0), 0));
    assert_eq!(store.len(), 2);
}

#[test]
fn timer_pair_new_keeps_values() {
    let pair = TimerPair::new(None, 9);
    assert_eq!(pair.sound_handle, None);
    assert_eq!(pair.time_delay, 9);
}

#[test]
fn run_plays_in_order_and_waits_out_delays() {
    let (timer, _) = plan();
    let (p, a) = timer.play(0);
    assert_eq!(a, Action::Play { index: 0, handle: 0 });
    let (p, a) = timer.step(p, Event::Played);
    assert_eq!(a, Action::Check);
    let (p, a) = timer.step(p, Event::Elapsed { millis: 5 });
    assert_eq!(a, Action::Sleep);
    let (p, a) = timer.step(p, Event::Elapsed { millis: 1999 });
    assert_eq!(a, Action::Sleep);
    let (p, a) = timer.step(p, Event::Elapsed { millis: 2000 });
    assert_eq!(a, Action::Play { index: 1, handle: 1 });
    let (p, a) = timer.step(p, Event::Played);
    assert_eq!(a, Action::Check);
    let (p, a) = timer.step(p, Event::Elapsed { millis: 1000 + TICK_MILLIS as u128 });
    assert_eq!(a, Action::Play { index: 2, handle: 0 });
    let (p, a) = timer.step(p, Event::Played);
    assert_eq!(a, Action::Check);
    let (p, a) = timer.step(p, Event::Elapsed { millis: 0 });
    assert_eq!(a, Action::Finish);
    assert_eq!(p, Phase::Done);
    assert_eq!(timer.step(p, Event::Elapsed { millis: 0 }), (Phase::Done, Action::Finish));
}

#[test]
fn missing_handle_is_silent_but_waits() {
    let timer = Timer::from_pairs(vec![TimerPair::new(None, 1), TimerPair::new(Some(3), 0)]);
    let (p, a) = timer.play(0);
    assert_eq!((p, a), (Phase::Waiting { index: 0 }, Action::Silent { index: 0 }));
    let (p, a) = timer.step(p, Event::Elapsed { millis: 999 });
    assert_eq!((p, a), (Phase::Waiting { index: 0 }, Action::Sleep));
    let (p, a) = timer.step(p, Event::Elapsed { millis: 1000 });
    assert_eq!((p, a), (Phase::Playing { index: 1 }, Action::Play { index: 1, handle: 3 }));
}

#[test]
fn event_out_of_turn_aborts() {
    let timer = Timer::from_pairs(vec![TimerPair::new(Some(0), 1)]);
    let (p, _) = timer.play(0);
    assert_eq!(timer.step(p, Event::Elapsed { millis: 5000 }), (Phase::Aborted, Action::Abort));
    let waiting = Phase::Waiting { index: 0 };
    assert_eq!(timer.step(waiting, Event::Played), (Phase::Aborted, Action::Abort));
}

#[test]
fn playback_failure_ends_run() {
    let (timer, _) = plan();
    let (p, _) = timer.play(0);
    let (p, a) = timer.step(p, Event::PlayFailed);
    assert_eq!((p, a), (Phase::Aborted, Action::Abort));
    assert_eq!(timer.step(p, Event::Played), (Phase::Aborted, Action::Abort));
    assert_eq!(timer.step(p, Event::Elapsed { millis: 10_000 }), (Phase::Aborted, Action::Abort));
}

#[test]
fn past_the_end_is_done() {
    let (timer, _) = plan();
    assert_eq!(timer.play(3), (Phase::Done, Action::Finish));
    let mut store = StringStore::with_capacity(0);
    let empty = Timer::new(&[], &mut store);
    assert_eq!(empty.play(0), (Phase::Done, Action::Finish));
}
