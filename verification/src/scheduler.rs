//! Chooses the next phase from the day's ordered history of completed
//! phases: work alternates with short breaks, and every fourth work phase
//! completed since the last long break earns a long break instead.
use vstd::prelude::*;
use crate::phase::Phase;

verus! {

/// How many work phases stand at the end of the history before the first
/// long break is met scanning backward; short breaks are skipped over
/// without ending the scan.
pub open spec fn works_since_long_break(h: Seq<Phase>) -> int
    decreases h.len(),
{
    if h.len() == 0 {
        0
    } else {
        match h.last() {
            Phase::Work => 1 + works_since_long_break(h.drop_last()),
            Phase::Break => works_since_long_break(h.drop_last()),
            Phase::LongBreak => 0,
        }
    }
}

/// The scheduling rule: an empty history or one ending in a break of either
/// kind calls for work; a history ending in work calls for a long break when
/// at least four work phases have been completed since the last long break,
/// and otherwise for a short break.
pub open spec fn spec_next_phase(h: Seq<Phase>) -> Phase {
    if h.len() == 0 {
        Phase::Work
    } else {
        match h.last() {
            Phase::Work => if works_since_long_break(h) >= 4 {
                Phase::LongBreak
            } else {
                Phase::Break
            },
            Phase::Break => Phase::Work,
            Phase::LongBreak => Phase::Work,
        }
    }
}

/// Decides which phase to run next given today's completed phases in
/// chronological order.
pub fn get_next_phase(progress: &Vec<Phase>) -> (r: Phase)
    ensures
        r == spec_next_phase(progress@),
{
    let n = progress.len();
    if n == 0 {
        return Phase::Work;
    }
    match progress[n - 1] {
        Phase::Break => Phase::Work,
        Phase::LongBreak => Phase::Work,
        Phase::Work => {
            let mut count: usize = 0;
            let mut i: usize = n;
            proof {
                assert(progress@.take(n as int) =~= progress@);
            }
            while i > 0
                invariant_except_break
                    i <= n,
                    n == progress@.len(),
                    count <= n - i,
                    works_since_long_break(progress@) == count + works_since_long_break(
                        progress@.take(i as int),
                    ),
                ensures
                    count == works_since_long_break(progress@),
                decreases i,
            {
                proof {
                    assert(progress@.take(i as int).last() == progress@[i - 1]);
                    assert(progress@.take(i as int).drop_last() =~= progress@.take(i - 1));
                }
                match progress[i - 1] {
                    Phase::Work => {
                        count = count + 1;
                    },
                    Phase::Break => {},
                    Phase::LongBreak => {
                        break;
                    },
                }
                i = i - 1;
            }
            if count >= 4 {
                Phase::LongBreak
            } else {
                Phase::Break
            }
        },
    }
}

} // verus!
