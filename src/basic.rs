//! The built-in timer: a plain countdown of a given length, optionally
//! announced by cue sounds in its last seconds.
use vstd::prelude::*;
use crate::plan::{pairs_view, ImportPair};

verus! {

pub const DEFAULT_START: &'static str = "default/start.wav";
pub const DEFAULT_STOP: &'static str = "default/stop.wav";
pub const DEFAULT_END: &'static str = "default/go.wav";
pub const DEFAULT_1SEC: &'static str = "default/1_second.wav";
pub const DEFAULT_2SECS: &'static str = "default/2_seconds.wav";
pub const DEFAULT_3SECS: &'static str = "default/3_seconds.wav";
pub const DEFAULT_4SECS: &'static str = "default/4_seconds.wav";
pub const DEFAULT_5SECS: &'static str = "default/5_seconds.wav";
pub const DEFAULT_10SECS: &'static str = "default/10_seconds.wav";

/// Volume, from 0 to 100, when none is given.
pub fn default_volume() -> (r: u8)
    ensures
        r == 50,
{
    50
}

/// The final second-by-second cues from `from` seconds down, then the end
/// sound.
pub open spec fn last_seconds(from: int) -> Seq<(Seq<char>, u64)> {
    let tail = seq![
        (DEFAULT_3SECS@, 1u64),
        (DEFAULT_2SECS@, 1u64),
        (DEFAULT_1SEC@, 1u64),
        (DEFAULT_END@, 1u64),
    ];
    if from >= 5 {
        seq![(DEFAULT_5SECS@, 1u64), (DEFAULT_4SECS@, 1u64)] + tail
    } else {
        tail
    }
}

/// The steps of a timer of `length` seconds. Without a countdown: the start
/// sound, the whole length, then the end sound. With one, the start sound's
/// delay leaves room for cues at 10, 5 or 3 seconds before the end, the
/// largest that the length exceeds; a length of 3 or less gets none.
pub open spec fn basic_plan_spec(length: u64, countdown: bool) -> Seq<(Seq<char>, u64)> {
    if countdown && length > 10 {
        seq![(DEFAULT_START@, (length - 10) as u64), (DEFAULT_10SECS@, 5u64)] + last_seconds(5)
    } else if countdown && length > 5 {
        seq![(DEFAULT_START@, (length - 5) as u64)] + last_seconds(5)
    } else if countdown && length > 3 {
        seq![(DEFAULT_START@, (length - 3) as u64)] + last_seconds(3)
    } else {
        seq![(DEFAULT_START@, length), (DEFAULT_END@, 1u64)]
    }
}

fn push_pair(pairs: &mut Vec<ImportPair>, path: &str, delay: u64)
    ensures
        pairs_view(final(pairs)@) == pairs_view(old(pairs)@).push((path@, delay)),
{
    let ghost before = pairs@;
    pairs.push(ImportPair::new(path, delay));
    assert(pairs_view(pairs@) =~= pairs_view(before).push((path@, delay)));
}

/// Builds the steps of a timer of `length` seconds, with or without a
/// countdown.
pub fn basic_plan(length: u64, countdown: bool) -> (r: Vec<ImportPair>)
    ensures
        pairs_view(r@) == basic_plan_spec(length, countdown),
{
    let mut pairs: Vec<ImportPair> = Vec::with_capacity(8);
    assert(pairs_view(pairs@) =~= Seq::<(Seq<char>, u64)>::empty());
    if countdown && length > 3 {
        if length > 10 {
            push_pair(&mut pairs, DEFAULT_START, length - 10);
            push_pair(&mut pairs, DEFAULT_10SECS, 5);
        } else if length > 5 {
            push_pair(&mut pairs, DEFAULT_START, length - 5);
        } else {
            push_pair(&mut pairs, DEFAULT_START, length - 3);
        }
        if length > 5 {
            push_pair(&mut pairs, DEFAULT_5SECS, 1);
            push_pair(&mut pairs, DEFAULT_4SECS, 1);
        }
        push_pair(&mut pairs, DEFAULT_3SECS, 1);
        push_pair(&mut pairs, DEFAULT_2SECS, 1);
        push_pair(&mut pairs, DEFAULT_1SEC, 1);
        push_pair(&mut pairs, DEFAULT_END, 1);
    } else {
        push_pair(&mut pairs, DEFAULT_START, length);
        push_pair(&mut pairs, DEFAULT_END, 1);
    }
    assert(pairs_view(pairs@) =~= basic_plan_spec(length, countdown));
    pairs
}

} // verus!
