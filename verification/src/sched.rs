//! The path choices a session asks for.

use vstd::prelude::*;

use crate::path::PathState;

verus! {

#[derive(Clone, Copy, Debug, PartialEq, Eq, Structural)]
pub enum PickPref {
    /// Small frames: a path of the fastest class.
    Interactive,
    /// Whatever carries the frame.
    Any,
}

/// Why a stream should go back to a faster path.
#[derive(Clone, Copy, Debug, PartialEq, Eq, Structural)]
pub enum FailbackReason {
    /// A faster class is there again.
    Upgrade,
    /// Its own class has no path left.
    ClassEmpty,
}

/// A faster path, and why a stream should go there.
#[derive(Clone, Copy, Debug, PartialEq, Eq, Structural)]
pub struct FailbackTarget {
    pub to: u32,
    pub why: FailbackReason,
}

/// Which path a frame should take. Nothing is promised of an answer: a session
/// holds for every one, and its contracts say what was asked and what came of
/// the answer.
pub trait Scheduler {
    /// A path for a new frame.
    fn pick_pref(&self, paths: &Vec<PathState>, pref: PickPref) -> Option<u32>;

    /// A path for a frame that was already sent on each of `tried`.
    fn pick_retry(&self, paths: &Vec<PathState>, tried: &Vec<u32>) -> Option<u32>;

    /// The paths small frames may stay on.
    fn interactive_class(&self, paths: &Vec<PathState>) -> Vec<u32>;

    /// A path that takes bulk its home has no room for; `interactive` are the
    /// paths that carry small frames.
    fn bulk_overflow(
        &self,
        paths: &Vec<PathState>,
        home: u32,
        interactive: &Vec<u32>,
    ) -> Option<u32>;

    /// Some path has room for bulk.
    fn any_bulk_room(&self, paths: &Vec<PathState>) -> bool;

    /// A path for bulk that leaves `cur`, where no sibling of `cur` is free.
    fn bulk_fallback(
        &self,
        paths: &Vec<PathState>,
        cur: u32,
        interactive: &Vec<u32>,
    ) -> Option<u32>;

    /// A small stream on `cur` should move to `to`.
    fn should_rebalance(&self, cur: &PathState, to: &PathState) -> bool;

    /// The faster path a stream on `cur` should go back to.
    fn failback_target(&self, paths: &Vec<PathState>, cur: u32) -> Option<FailbackTarget>;

    /// The paths of the fastest class.
    fn fastest_class(&self, paths: &Vec<PathState>) -> Vec<u32>;

    /// `rtt` is only a backup beside `best`.
    fn is_backup(&self, rtt: u64, best: u64) -> bool;
}

/// `answer` is one that `sched` gives when asked for a path of `ps` for a new
/// frame.
pub open spec fn picked<S: Scheduler>(
    sched: &S,
    ps: Seq<PathState>,
    pref: PickPref,
    answer: Option<u32>,
) -> bool {
    exists|paths: Vec<PathState>|
        paths@ == ps && #[trigger] call_ensures(S::pick_pref, (sched, &paths, pref), answer)
}

/// `answer` is one that `sched` gives when asked for a path of `ps` for a
/// frame that was sent on each of `tried`.
pub open spec fn picked_again<S: Scheduler>(
    sched: &S,
    ps: Seq<PathState>,
    tried: Seq<u32>,
    answer: Option<u32>,
) -> bool {
    exists|paths: Vec<PathState>, ids: Vec<u32>|
        paths@ == ps && ids@ == tried && #[trigger] call_ensures(
            S::pick_retry,
            (sched, &paths, &ids),
            answer,
        )
}

/// `answer` is the class that `sched` gives for `ps`.
pub open spec fn classed<S: Scheduler>(sched: &S, ps: Seq<PathState>, answer: Vec<u32>) -> bool {
    exists|paths: Vec<PathState>|
        paths@ == ps && #[trigger] call_ensures(S::interactive_class, (sched, &paths), answer)
}

/// `answer` is one that `sched` gives for bulk that `home` has no room for,
/// where `small` carry small frames.
pub open spec fn spilled<S: Scheduler>(
    sched: &S,
    ps: Seq<PathState>,
    home: u32,
    small: Seq<u32>,
    answer: Option<u32>,
) -> bool {
    exists|paths: Vec<PathState>, ids: Vec<u32>|
        paths@ == ps && ids@ == small && #[trigger] call_ensures(
            S::bulk_overflow,
            (sched, &paths, home, &ids),
            answer,
        )
}

/// `answer` is what `sched` says of room for bulk on `ps`.
pub open spec fn found_room<S: Scheduler>(sched: &S, ps: Seq<PathState>, answer: bool) -> bool {
    exists|paths: Vec<PathState>|
        paths@ == ps && #[trigger] call_ensures(S::any_bulk_room, (sched, &paths), answer)
}

/// `answer` is one that `sched` gives for bulk that leaves `cur`, where
/// `small` carry small frames.
pub open spec fn fell_back<S: Scheduler>(
    sched: &S,
    ps: Seq<PathState>,
    cur: u32,
    small: Seq<u32>,
    answer: Option<u32>,
) -> bool {
    exists|paths: Vec<PathState>, ids: Vec<u32>|
        paths@ == ps && ids@ == small && #[trigger] call_ensures(
            S::bulk_fallback,
            (sched, &paths, cur, &ids),
            answer,
        )
}

/// `answer` is what `sched` says of a move from `cur` to `to`.
pub open spec fn rebalance_said<S: Scheduler>(
    sched: &S,
    cur: PathState,
    to: PathState,
    answer: bool,
) -> bool {
    call_ensures(S::should_rebalance, (sched, &cur, &to), answer)
}

/// `answer` is the faster path that `sched` names for a stream on `cur`.
pub open spec fn failback_said<S: Scheduler>(
    sched: &S,
    ps: Seq<PathState>,
    cur: u32,
    answer: Option<FailbackTarget>,
) -> bool {
    exists|paths: Vec<PathState>|
        paths@ == ps && #[trigger] call_ensures(
            S::failback_target,
            (sched, &paths, cur),
            answer,
        )
}

/// `answer` is the fastest class that `sched` gives for `ps`.
pub open spec fn fastest_said<S: Scheduler>(
    sched: &S,
    ps: Seq<PathState>,
    answer: Vec<u32>,
) -> bool {
    exists|paths: Vec<PathState>|
        paths@ == ps && #[trigger] call_ensures(S::fastest_class, (sched, &paths), answer)
}

/// `answer` is what `sched` says of `rtt` beside `best`.
pub open spec fn backup_said<S: Scheduler>(sched: &S, rtt: u64, best: u64, answer: bool) -> bool {
    call_ensures(S::is_backup, (sched, rtt, best), answer)
}

/// An answer that names another path than `from`; one that names `from` again
/// counts as none.
pub open spec fn elsewhere(named: Option<u32>, from: u32) -> Option<u32> {
    if named == Some(from) {
        None
    } else {
        named
    }
}

} // verus!
