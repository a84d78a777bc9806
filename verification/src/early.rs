//! STREAM_DATA that overtook its StreamOpen.

use std::collections::BTreeMap;
use vstd::prelude::*;

use crate::maps::{ids_of, lists_ids};
use crate::num::above;

verus! {

broadcast use vstd::laws_cmp::group_laws_cmp;

pub struct PendingEarly {
    pub at: u64,
    pub path_id: u32,
    pub offset: u64,
    pub data: Vec<u8>,
}

/// Early data by stream, in order of arrival.
pub struct EarlyData {
    pub entries: BTreeMap<u32, Vec<PendingEarly>>,
}

/// The pieces younger than `thresh`, order kept.
pub open spec fn young(s: Seq<PendingEarly>, thresh: u64, now: u64) -> Seq<PendingEarly>
    decreases s.len(),
{
    if s.len() == 0 {
        s
    } else if above(now as int, s.last().at as int) < thresh {
        young(s.drop_last(), thresh, now).push(s.last())
    } else {
        young(s.drop_last(), thresh, now)
    }
}

fn keep_young(v: Vec<PendingEarly>, thresh: u64, now: u64) -> (out: Vec<PendingEarly>)
    ensures
        out@ == young(v@, thresh, now),
{
    let mut rest: Vec<PendingEarly> = v;
    let mut back: Vec<PendingEarly> = Vec::new();
    let ghost all = rest@;
    // Pieces come off the end; `back` holds the kept ones, newest first.
    while rest.len() > 0
        invariant
            young(all, thresh, now) == young(rest@, thresh, now) + back@.reverse(),
        decreases rest.len(),
    {
        let ghost r0 = rest@;
        let ghost b0 = back@;
        match rest.pop() {
            Some(p) => {
                assert(rest@ =~= r0.drop_last());
                if now.saturating_sub(p.at) < thresh {
                    back.push(p);
                    proof {
                        assert(back@.reverse() =~= seq![r0.last()] + b0.reverse());
                        assert(young(r0, thresh, now) + b0.reverse() =~= young(rest@, thresh, now)
                            + back@.reverse());
                    }
                }
            },
            None => {},
        }
    }
    let mut out: Vec<PendingEarly> = Vec::new();
    let ghost kept = back@;
    assert(out@ + back@.reverse() =~= kept.reverse());
    while back.len() > 0
        invariant
            out@ + back@.reverse() == kept.reverse(),
        decreases back.len(),
    {
        let ghost b0 = back@;
        let ghost o0 = out@;
        match back.pop() {
            Some(p) => {
                out.push(p);
                proof {
                    assert(back@ =~= b0.drop_last());
                    assert(b0.reverse() =~= seq![b0.last()] + back@.reverse());
                    assert(out@ + back@.reverse() =~= o0 + b0.reverse());
                }
            },
            None => {},
        }
    }
    assert(out@ =~= kept.reverse());
    assert(young(all, thresh, now) =~= kept.reverse());
    out
}

impl EarlyData {
    /// Pieces waiting for stream `id`.
    pub open spec fn waiting(self, id: u32) -> Seq<PendingEarly> {
        if self.entries@.contains_key(id) {
            self.entries@[id]@
        } else {
            seq![]
        }
    }

    pub fn new() -> (e: Self)
        ensures
            e.entries@ == Map::<u32, Vec<PendingEarly>>::empty(),
    {
        EarlyData { entries: BTreeMap::new() }
    }

    /// Keep a piece until its stream opens.
    pub fn push_early_data(&mut self, id: u32, piece: PendingEarly)
        ensures
            final(self).waiting(id) == old(self).waiting(id).push(piece),
            forall|other: u32|
                other != id ==> #[trigger] final(self).waiting(other) == old(self).waiting(other),
    {
        let mut v: Vec<PendingEarly> = match self.entries.remove(&id) {
            Some(v) => v,
            None => Vec::new(),
        };
        assert(v@ =~= old(self).waiting(id));
        v.push(piece);
        let _ = self.entries.insert(id, v);
        assert forall|other: u32| other != id implies #[trigger] self.waiting(other) == old(
            self,
        ).waiting(other) by {}
    }

    /// Take what waits for a stream, in order of arrival.
    pub fn take_early_data(&mut self, id: u32) -> (out: Vec<PendingEarly>)
        ensures
            out@ == old(self).waiting(id),
            final(self).waiting(id) == Seq::<PendingEarly>::empty(),
            forall|other: u32|
                other != id ==> #[trigger] final(self).waiting(other) == old(self).waiting(other),
    {
        let out: Vec<PendingEarly> = match self.entries.remove(&id) {
            Some(v) => v,
            None => Vec::new(),
        };
        assert(out@ =~= old(self).waiting(id));
        assert forall|other: u32| other != id implies #[trigger] self.waiting(other) == old(
            self,
        ).waiting(other) by {}
        out
    }

    /// Drop pieces at least `thresh` old, and streams left with none.
    pub fn expire_early_data(&mut self, thresh: u64, now: u64)
        ensures
            forall|id: u32| #[trigger]
                final(self).waiting(id) == young(old(self).waiting(id), thresh, now),
            forall|id: u32| #[trigger]
                final(self).entries@.contains_key(id) ==> final(self).entries@[id]@.len() > 0,
    {
        let ids: Vec<u32> = ids_of(&self.entries);
        let ghost o = *self;
        let mut i: usize = 0;
        proof {
            assert forall|j: int| 0 <= j < ids@.len() implies o.entries@.contains_key(
                #[trigger] ids@[j],
            ) by {
                assert(ids@.contains(ids@[j]));
            }
        }
        while i < ids.len()
            invariant
                i <= ids@.len(),
                lists_ids(ids@, o.entries@),
                forall|id: u32|
                    #[trigger] self.entries@.contains_key(id) ==> o.entries@.contains_key(id),
                forall|j: int|
                    i <= j < ids@.len() ==> self.entries@.contains_key(#[trigger] ids@[j])
                        && self.entries@[ids@[j]] == o.entries@[ids@[j]],
                forall|j: int|
                    0 <= j < i ==> self.waiting(#[trigger] ids@[j]) == young(
                        o.waiting(ids@[j]),
                        thresh,
                        now,
                    ) && (self.entries@.contains_key(ids@[j]) ==> self.entries@[ids@[j]]@.len() > 0),
            decreases ids.len() - i,
        {
            let id: u32 = ids[i];
            let ghost before = *self;
            assert(self.entries@.contains_key(ids@[i as int]));
            match self.entries.remove(&id) {
                Some(v) => {
                    let kept: Vec<PendingEarly> = keep_young(v, thresh, now);
                    if kept.len() > 0 {
                        let _ = self.entries.insert(id, kept);
                    } else {
                        assert(kept@ =~= seq![]);
                    }
                },
                None => {},
            }
            proof {
                assert forall|j: int| 0 <= j < i implies self.waiting(#[trigger] ids@[j]) == young(
                    o.waiting(ids@[j]),
                    thresh,
                    now,
                ) && (self.entries@.contains_key(ids@[j]) ==> self.entries@[ids@[j]]@.len() > 0) by {
                    assert(ids@[j] < ids@[i as int]);
                    assert(before.waiting(ids@[j]) == self.waiting(ids@[j]));
                }
            }
            i += 1;
        }
        proof {
            assert forall|id: u32| #[trigger] self.waiting(id) == young(o.waiting(id), thresh, now) by {
                if o.entries@.contains_key(id) {
                    assert(ids@.contains(id));
                    let j = choose|j: int| 0 <= j < ids@.len() && ids@[j] == id;
                    assert(self.waiting(ids@[j]) == young(o.waiting(ids@[j]), thresh, now));
                } else {
                    assert(o.waiting(id) =~= seq![]);
                    assert(!self.entries@.contains_key(id));
                }
            }
            assert forall|id: u32| #[trigger] self.entries@.contains_key(id) implies self.entries@[id]@.len()
                > 0 by {
                assert(o.entries@.contains_key(id));
                assert(ids@.contains(id));
                let j = choose|j: int| 0 <= j < ids@.len() && ids@[j] == id;
                assert(self.entries@.contains_key(ids@[j]) ==> self.entries@[ids@[j]]@.len() > 0);
            }
        }
    }
}

/// Early pieces wait for less than their time: the ones that are older are
/// gone, the others stay, in order.
pub proof fn law_early_pieces_wait_their_time(s: Seq<PendingEarly>, thresh: u64, now: u64, x: PendingEarly)
    requires
        x.at <= now,
    ensures
        young(s, thresh, now).contains(x) <==> s.contains(x) && now - x.at < thresh,
        young(s, thresh, now).len() <= s.len(),
    decreases s.len(),
{
    if s.len() > 0 {
        law_early_pieces_wait_their_time(s.drop_last(), thresh, now, x);
        let before = young(s.drop_last(), thresh, now);
        let all = young(s, thresh, now);
        assert(s.contains(x) <==> s.drop_last().contains(x) || s.last() == x) by {
            if s.contains(x) {
                let k = choose|k: int| 0 <= k < s.len() && s[k] == x;
                if k < s.len() - 1 {
                    assert(s.drop_last()[k] == x);
                }
            }
            if s.drop_last().contains(x) {
                let k = choose|k: int| 0 <= k < s.len() - 1 && s.drop_last()[k] == x;
                assert(s[k] == x);
            }
            assert(s[s.len() - 1] == s.last());
        }
        if all.len() == before.len() + 1 {
            assert(all[before.len() as int] == s.last());
        }
        assert(all.contains(x) <==> before.contains(x) || (all.len() == before.len() + 1
            && s.last() == x)) by {
            if before.contains(x) {
                let k = choose|k: int| 0 <= k < before.len() && before[k] == x;
                assert(all[k] == x);
            }
            if all.contains(x) {
                let k = choose|k: int| 0 <= k < all.len() && all[k] == x;
                if k < before.len() {
                    assert(before[k] == x);
                }
            }
        }
    }
}

} // verus!
