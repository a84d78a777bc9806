//! The short memory of paths a frame has already been sent on.

use vstd::prelude::*;

verus! {

/// How many paths are remembered.
pub const TRIED_MAX: usize = 8;

/// `s` with every `id` taken out, order kept.
pub open spec fn without(s: Seq<u32>, id: u32) -> Seq<u32>
    decreases s.len(),
{
    if s.len() == 0 {
        s
    } else if s.last() == id {
        without(s.drop_last(), id)
    } else {
        without(s.drop_last(), id).push(s.last())
    }
}

/// The memory after a send on `id`: `id` stands last, once, and the oldest
/// entry makes room where the memory is full.
pub open spec fn after_try(tried: Seq<u32>, id: u32) -> Seq<u32> {
    if tried.len() > 0 && tried.last() == id {
        tried
    } else {
        let rest = without(tried, id);
        if rest.len() == TRIED_MAX {
            rest.subrange(1, rest.len() as int).push(id)
        } else {
            rest.push(id)
        }
    }
}

pub proof fn lemma_without(s: Seq<u32>, id: u32)
    ensures
        without(s, id).len() <= s.len(),
        !without(s, id).contains(id),
        forall|x: u32| #[trigger] without(s, id).contains(x) <==> x != id && s.contains(x),
        s.no_duplicates() ==> without(s, id).no_duplicates(),
        !s.contains(id) ==> without(s, id) == s,
    decreases s.len(),
{
    if s.len() > 0 {
        let front = s.drop_last();
        let r = without(front, id);
        lemma_without(front, id);
        assert(s == front.push(s.last()));
        assert forall|x: u32| #[trigger] without(s, id).contains(x) <==> x != id && s.contains(x) by {
            if s.contains(x) && x != id {
                let k = choose|k: int| 0 <= k < s.len() && s[k] == x;
                if k < s.len() - 1 {
                    assert(front[k] == x);
                    assert(r.contains(x));
                    let j = choose|j: int| 0 <= j < r.len() && r[j] == x;
                    assert(without(s, id)[j] == x);
                } else {
                    assert(without(s, id).last() == x);
                }
            }
            if without(s, id).contains(x) {
                let k = choose|k: int| 0 <= k < without(s, id).len() && without(s, id)[k] == x;
                if s.last() != id && k == r.len() {
                    assert(s[s.len() - 1] == x);
                } else {
                    assert(r[k] == x);
                    assert(r.contains(x));
                    assert(front.contains(x));
                    let j = choose|j: int| 0 <= j < front.len() && front[j] == x;
                    assert(s[j] == x);
                }
            }
        }
        if s.no_duplicates() {
            assert(front.no_duplicates());
            assert(!front.contains(s.last()));
            assert(!r.contains(s.last()));
        }
        if !s.contains(id) {
            assert(s.last() == s[s.len() - 1]);
            assert(!front.contains(id)) by {
                if front.contains(id) {
                    let j = choose|j: int| 0 <= j < front.len() && front[j] == id;
                    assert(s[j] == id);
                }
            }
        }
    }
}

/// A memory that holds no path twice and at most eight paths stays so, and
/// holds the newest path last.
pub proof fn law_tried_is_a_bounded_set(tried: Seq<u32>, id: u32)
    requires
        tried.no_duplicates(),
        tried.len() <= TRIED_MAX,
    ensures
        after_try(tried, id).no_duplicates(),
        after_try(tried, id).len() <= TRIED_MAX,
        after_try(tried, id).len() > 0,
        after_try(tried, id).last() == id,
{
    lemma_without(tried, id);
    let rest = without(tried, id);
    if !(tried.len() > 0 && tried.last() == id) {
        if rest.len() == TRIED_MAX {
            let tail = rest.subrange(1, rest.len() as int);
            assert(!tail.contains(id)) by {
                if tail.contains(id) {
                    let j = choose|j: int| 0 <= j < tail.len() && tail[j] == id;
                    assert(rest[j + 1] == id);
                }
            }
        }
    }
}

/// A send forgets no path but the oldest, and that one only from a full memory.
pub proof fn law_tried_forgets_only_the_oldest(tried: Seq<u32>, id: u32, other: u32)
    requires
        tried.no_duplicates(),
        tried.len() <= TRIED_MAX,
        tried.contains(other),
        tried.len() < TRIED_MAX || other != tried[0],
    ensures
        after_try(tried, id).contains(other),
{
    lemma_without(tried, id);
    let rest = without(tried, id);
    let out = after_try(tried, id);
    if !(tried.len() > 0 && tried.last() == id) {
        if other == id {
            assert(out.last() == other);
        } else {
            assert(rest.contains(other));
            let k = choose|k: int| 0 <= k < rest.len() && rest[k] == other;
            if rest.len() == TRIED_MAX {
                assert(!tried.contains(id)) by {
                    if tried.contains(id) {
                        lemma_without_shorter(tried, id);
                    }
                }
                assert(rest == tried);
                assert(out[k - 1] == other);
            } else {
                assert(out[k] == other);
            }
        }
    }
}

proof fn lemma_without_shorter(s: Seq<u32>, id: u32)
    requires
        s.contains(id),
    ensures
        without(s, id).len() < s.len(),
    decreases s.len(),
{
    let front = s.drop_last();
    lemma_without(front, id);
    if s.last() != id {
        let k = choose|k: int| 0 <= k < s.len() && s[k] == id;
        assert(front[k] == id);
        lemma_without_shorter(front, id);
    }
}

pub fn contains_id(s: &Vec<u32>, id: u32) -> (r: bool)
    ensures
        r == s@.contains(id),
{
    let mut i: usize = 0;
    while i < s.len()
        invariant
            i <= s.len(),
            forall|k: int| 0 <= k < i ==> s@[k] != id,
        decreases s.len() - i,
    {
        if s[i] == id {
            return true;
        }
        i += 1;
    }
    false
}

pub fn push_tried(tried: &mut Vec<u32>, id: u32)
    ensures
        final(tried)@ == after_try(old(tried)@, id),
{
    let n: usize = tried.len();
    if n > 0 && tried[n - 1] == id {
        return;
    }
    let mut rest: Vec<u32> = Vec::new();
    let mut i: usize = 0;
    while i < n
        invariant
            i <= n,
            n == tried@.len(),
            tried@ == old(tried)@,
            rest@ == without(tried@.take(i as int), id),
        decreases n - i,
    {
        assert(tried@.take(i + 1).drop_last() == tried@.take(i as int));
        if tried[i] != id {
            rest.push(tried[i]);
        }
        i += 1;
    }
    assert(tried@.take(n as int) == tried@);
    if rest.len() == TRIED_MAX {
        rest.remove(0);
        assert(rest@ == without(tried@, id).subrange(1, TRIED_MAX as int));
    }
    rest.push(id);
    *tried = rest;
}

/// A copy of the memory.
pub fn copy_ids(s: &Vec<u32>) -> (r: Vec<u32>)
    ensures
        r@ == s@,
{
    let mut r: Vec<u32> = Vec::new();
    let mut i: usize = 0;
    while i < s.len()
        invariant
            i <= s.len(),
            r@ == s@.take(i as int),
        decreases s.len() - i,
    {
        r.push(s[i]);
        i += 1;
    }
    assert(s@.take(s.len() as int) == s@);
    r
}

/// The choice of a scheduler, refused where the frame was already sent there.
pub fn pick_retry_untried(alt: Option<u32>, tried: &Vec<u32>) -> (r: Option<u32>)
    ensures
        r == untried(alt, tried@),
{
    match alt {
        Some(a) => if contains_id(tried, a) {
            None
        } else {
            Some(a)
        },
        None => None,
    }
}

/// `alt` where `tried` does not hold it.
pub open spec fn untried(alt: Option<u32>, tried: Seq<u32>) -> Option<u32> {
    match alt {
        Some(a) => if tried.contains(a) {
            None
        } else {
            Some(a)
        },
        None => None,
    }
}

/// A path counts as untried exactly where it is not in the list; and the path
/// tried last stands last.
pub proof fn law_tried_paths_are_not_named_again(tried: Seq<u32>, id: u32, a: u32)
    ensures
        tried.contains(a) ==> untried(Some(a), tried) is None,
        !tried.contains(a) ==> untried(Some(a), tried) == Some(a),
        untried(None, tried) is None,
        after_try(tried, id).len() > 0 && after_try(tried, id).last() == id,
{
}

} // verus!
