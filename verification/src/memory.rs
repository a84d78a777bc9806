//! What a session remembers of paths by their name.

use vstd::prelude::*;

use crate::cfg::SessionConfig;
use crate::text::{str_eq, text};

verus! {

/// One number per name; the newest one counts.
pub struct NameTable {
    pub rows: Vec<(String, u64)>,
}

/// Index of the row with this name.
pub open spec fn row_of(rows: Seq<(String, u64)>, name: Seq<char>) -> Option<int>
    decreases rows.len(),
{
    if rows.len() == 0 {
        None
    } else if rows.last().0@ == name {
        Some(rows.len() - 1)
    } else {
        row_of(rows.drop_last(), name)
    }
}

proof fn lemma_row_of(rows: Seq<(String, u64)>, name: Seq<char>)
    ensures
        match row_of(rows, name) {
            Some(i) => {
                &&& 0 <= i < rows.len()
                &&& rows[i].0@ == name
                &&& forall|j: int| i < j < rows.len() ==> (#[trigger] rows[j]).0@ != name
            },
            None => forall|j: int| 0 <= j < rows.len() ==> (#[trigger] rows[j]).0@ != name,
        },
    decreases rows.len(),
{
    if rows.len() > 0 && rows.last().0@ != name {
        let front = rows.drop_last();
        lemma_row_of(front, name);
        let lo = match row_of(rows, name) {
            Some(i) => i + 1,
            None => 0,
        };
        assert forall|j: int| lo <= j < rows.len() implies (#[trigger] rows[j]).0@ != name by {
            if j < front.len() {
                assert(front[j] == rows[j]);
            }
        }
    }
}

impl NameTable {
    /// The number remembered for a name.
    pub open spec fn known(self, name: Seq<char>) -> Option<u64> {
        match row_of(self.rows@, name) {
            Some(i) => Some(self.rows@[i].1),
            None => None,
        }
    }

    pub fn new() -> (t: Self)
        ensures
            forall|name: Seq<char>| #[trigger] t.known(name) is None,
    {
        NameTable { rows: Vec::new() }
    }

    pub fn get(&self, name: &str) -> (r: Option<u64>)
        ensures
            r == self.known(name@),
    {
        let mut n: usize = self.rows.len();
        proof {
            assert(self.rows@.take(n as int) =~= self.rows@);
        }
        while n > 0
            invariant
                n <= self.rows@.len(),
                row_of(self.rows@, name@) == row_of(self.rows@.take(n as int), name@),
            decreases n,
        {
            proof {
                assert(self.rows@.take(n as int).drop_last() =~= self.rows@.take(n - 1));
            }
            if str_eq(self.rows[n - 1].0.as_str(), name) {
                return Some(self.rows[n - 1].1);
            }
            n -= 1;
        }
        None
    }

    pub fn set(&mut self, name: &str, value: u64)
        ensures
            final(self).known(name@) == Some(value),
            forall|other: Seq<char>|
                other != name@ ==> #[trigger] final(self).known(other) == old(self).known(other),
    {
        let mut n: usize = self.rows.len();
        proof {
            assert(self.rows@.take(n as int) =~= self.rows@);
        }
        while n > 0
            invariant
                n <= self.rows@.len(),
                self.rows@ == old(self).rows@,
                row_of(self.rows@, name@) == row_of(self.rows@.take(n as int), name@),
            decreases n,
        {
            proof {
                assert(self.rows@.take(n as int).drop_last() =~= self.rows@.take(n - 1));
            }
            if str_eq(self.rows[n - 1].0.as_str(), name) {
                let row: &mut (String, u64) = &mut self.rows[n - 1];
                row.1 = value;
                proof {
                    let before = old(self).rows@;
                    lemma_same_names(before, self.rows@, name@);
                    assert forall|other: Seq<char>| other != name@ implies #[trigger] self.known(
                        other,
                    ) == old(self).known(other) by {
                        lemma_same_names(before, self.rows@, other);
                        lemma_row_of(before, other);
                    }
                }
                return;
            }
            n -= 1;
        }
        self.rows.push((text(name), value));
        proof {
            assert(self.rows@.drop_last() =~= old(self).rows@);
            assert forall|other: Seq<char>| other != name@ implies #[trigger] self.known(other) == old(
                self,
            ).known(other) by {
                lemma_row_of(old(self).rows@, other);
            }
        }
    }
}

proof fn lemma_same_names(a: Seq<(String, u64)>, b: Seq<(String, u64)>, name: Seq<char>)
    requires
        a.len() == b.len(),
        forall|i: int| 0 <= i < a.len() ==> (#[trigger] a[i]).0@ == b[i].0@,
    ensures
        row_of(a, name) == row_of(b, name),
    decreases a.len(),
{
    if a.len() > 0 {
        let n = a.len() - 1;
        assert(a[n].0@ == b[n].0@);
        assert forall|i: int| 0 <= i < n implies (#[trigger] a.drop_last()[i]).0@
            == b.drop_last()[i].0@ by {
            assert(a[i].0@ == b[i].0@);
        }
        lemma_same_names(a.drop_last(), b.drop_last(), name);
    }
}

/// RTTs and lifetimes of paths that went down, by name.
pub struct PathMemory {
    pub last_rtt: NameTable,
    pub last_lived: NameTable,
}

impl PathMemory {
    pub fn new() -> (m: Self)
        ensures
            forall|name: Seq<char>| #[trigger] m.last_rtt.known(name) is None,
            forall|name: Seq<char>| #[trigger] m.last_lived.known(name) is None,
    {
        PathMemory { last_rtt: NameTable::new(), last_lived: NameTable::new() }
    }

    pub fn last_known_rtt(&self, name: &str) -> (r: Option<u64>)
        ensures
            r == self.last_rtt.known(name@),
    {
        self.last_rtt.get(name)
    }

    pub fn last_path_lived(&self, name: &str) -> (r: Option<u64>)
        ensures
            r == self.last_lived.known(name@),
    {
        self.last_lived.get(name)
    }

    /// Handshake-ok then silent-down is a flap, not a recovery. Reconnect
    /// backoff resets only after the path has been up for a hold.
    pub fn path_lived_stable(&self, name: &str, cfg: &SessionConfig) -> (r: bool)
        ensures
            r == (match self.last_lived.known(name@) {
                Some(d) => d >= cfg.tuning.stable_up_hold,
                None => false,
            }),
    {
        match self.last_path_lived(name) {
            Some(d) => d >= cfg.tuning.stable_up_hold,
            None => false,
        }
    }
}

} // verus!
