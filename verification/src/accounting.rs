//! Connection accounting: how many in-flight sessions each backend serves.

use vstd::prelude::*;
use crate::addr::Addr;

verus! {

/// A mapping from backend address to its current in-flight connection count.
///
/// An address with no entry counts as zero; entries may outlive their backend
/// (stale counts are harmless). Counts never go below zero: decrements
/// saturate, so a decrement issued by a session that never incremented leaves
/// the count at zero.
pub struct ConnectionAccounting {
    pub counts: Vec<(Addr, usize)>,
}

impl ConnectionAccounting {
    /// No address occurs twice.
    pub open spec fn wf(self) -> bool {
        forall|i: int, j: int|
            0 <= i < j < self.counts@.len() ==> #[trigger] self.counts@[i].0
                != #[trigger] self.counts@[j].0
    }

    pub open spec fn has(self, a: Addr) -> bool {
        exists|i: int| 0 <= i < self.counts@.len() && #[trigger] self.counts@[i].0 == a
    }

    pub open spec fn index_of(self, a: Addr) -> int {
        choose|i: int| 0 <= i < self.counts@.len() && #[trigger] self.counts@[i].0 == a
    }

    /// The in-flight count of `a`; zero when `a` has no entry.
    pub open spec fn count_of(self, a: Addr) -> nat {
        if self.has(a) {
            self.counts@[self.index_of(a)].1 as nat
        } else {
            0
        }
    }

    /// What one increment leaves for the incremented address.
    pub open spec fn incremented(c: nat) -> nat {
        if c < usize::MAX {
            c + 1
        } else {
            c
        }
    }

    /// What one saturating decrement leaves for the decremented address.
    pub open spec fn decremented(c: nat) -> nat {
        if c > 0 {
            (c - 1) as nat
        } else {
            0
        }
    }

    /// An accounting with no entries: every count is zero.
    pub fn new() -> (r: ConnectionAccounting)
        ensures
            r.wf(),
            forall|a: Addr| #[trigger] r.count_of(a) == 0,
    {
        ConnectionAccounting { counts: Vec::new() }
    }

    /// On a well-formed accounting, the index of an address is the unique
    /// position that carries it.
    pub proof fn lemma_index_unique(self, k: int)
        requires
            self.wf(),
            0 <= k < self.counts@.len(),
        ensures
            self.index_of(self.counts@[k].0) == k,
    {
        let a = self.counts@[k].0;
        assert(self.has(a));
        let c = self.index_of(a);
        if c < k {
            assert(self.counts@[c].0 != self.counts@[k].0);
        } else if c > k {
            assert(self.counts@[k].0 != self.counts@[c].0);
        }
    }

    /// The position of `a`, if it has an entry.
    fn position(&self, a: Addr) -> (r: Option<usize>)
        requires
            self.wf(),
        ensures
            match r {
                Some(i) => i < self.counts@.len() && self.counts@[i as int].0 == a && i
                    == self.index_of(a),
                None => !self.has(a),
            },
    {
        let n = self.counts.len();
        let mut i: usize = 0;
        while i < n
            invariant
                self.wf(),
                n == self.counts@.len(),
                i <= n,
                forall|j: int| 0 <= j < i ==> #[trigger] self.counts@[j].0 != a,
            decreases n - i,
        {
            if self.counts[i].0 == a {
                proof {
                    self.lemma_index_unique(i as int);
                }
                return Some(i);
            }
            i = i + 1;
        }
        None
    }

    /// The current count of `a`.
    pub fn get(&self, a: Addr) -> (r: usize)
        requires
            self.wf(),
        ensures
            r == self.count_of(a),
    {
        match self.position(a) {
            Some(i) => self.counts[i].1,
            None => 0,
        }
    }

    /// Records one more in-flight connection to `a`, seeding the entry if
    /// needed; the count saturates at the machine limit.
    pub fn increment(&mut self, a: Addr)
        requires
            old(self).wf(),
        ensures
            final(self).wf(),
            final(self).count_of(a) == Self::incremented(old(self).count_of(a)),
            forall|b: Addr| b != a ==> #[trigger] final(self).count_of(b) == old(self).count_of(b),
    {
        match self.position(a) {
            Some(i) => {
                let c = self.counts[i].1;
                if c < usize::MAX {
                    self.counts[i] = (a, c + 1);
                }
                proof {
                    self.lemma_update_count(*old(self), i as int, a);
                }
            },
            None => {
                self.counts.push((a, 1));
                proof {
                    self.lemma_push_count(*old(self), a, 1);
                }
            },
        }
    }

    /// Records that one connection to `a` ended; saturates at zero.
    pub fn decrement(&mut self, a: Addr)
        requires
            old(self).wf(),
        ensures
            final(self).wf(),
            final(self).count_of(a) == Self::decremented(old(self).count_of(a)),
            forall|b: Addr| b != a ==> #[trigger] final(self).count_of(b) == old(self).count_of(b),
    {
        match self.position(a) {
            Some(i) => {
                let c = self.counts[i].1;
                if c > 0 {
                    self.counts[i] = (a, c - 1);
                }
                proof {
                    self.lemma_update_count(*old(self), i as int, a);
                }
            },
            None => {
            },
        }
    }

    /// After updating position `idx` (which carried `a`) to a new count, `a`
    /// reads the written count and every other address is unchanged.
    proof fn lemma_update_count(self, pre: ConnectionAccounting, idx: int, a: Addr)
        requires
            pre.wf(),
            0 <= idx < pre.counts@.len(),
            pre.counts@[idx].0 == a,
            self.counts@.len() == pre.counts@.len(),
            self.counts@[idx].0 == a,
            forall|j: int|
                0 <= j < pre.counts@.len() && j != idx ==> #[trigger] self.counts@[j]
                    == pre.counts@[j],
        ensures
            self.wf(),
            self.count_of(a) == self.counts@[idx].1 as nat,
            forall|b: Addr| b != a ==> #[trigger] self.count_of(b) == pre.count_of(b),
    {
        assert forall|i: int, j: int|
            0 <= i < j < self.counts@.len() implies #[trigger] self.counts@[i].0
            != #[trigger] self.counts@[j].0 by {
            assert(self.counts@[i].0 == pre.counts@[i].0);
            assert(self.counts@[j].0 == pre.counts@[j].0);
        }
        assert(self.has(a));
        self.lemma_index_unique(idx);
        pre.lemma_index_unique(idx);
        assert forall|b: Addr| b != a implies #[trigger] self.count_of(b) == pre.count_of(b) by {
            if self.has(b) {
                let k = self.index_of(b);
                self.lemma_index_unique(k);
                assert(k != idx);
                assert(pre.counts@[k].0 == b);
                pre.lemma_index_unique(k);
            } else {
                if pre.has(b) {
                    let k = pre.index_of(b);
                    assert(self.counts@[k].0 == b);
                }
            }
        }
    }

    /// After appending an entry for an absent address `a`, `a` reads the
    /// appended count and every other address is unchanged.
    proof fn lemma_push_count(self, pre: ConnectionAccounting, a: Addr, c: usize)
        requires
            pre.wf(),
            !pre.has(a),
            self.counts@ == pre.counts@.push((a, c)),
        ensures
            self.wf(),
            self.count_of(a) == c as nat,
            forall|b: Addr| b != a ==> #[trigger] self.count_of(b) == pre.count_of(b),
    {
        let n = pre.counts@.len() as int;
        assert forall|i: int, j: int|
            0 <= i < j < self.counts@.len() implies #[trigger] self.counts@[i].0
            != #[trigger] self.counts@[j].0 by {
            if j < n {
                assert(self.counts@[i] == pre.counts@[i]);
                assert(self.counts@[j] == pre.counts@[j]);
            } else {
                assert(self.counts@[j].0 == a);
                assert(self.counts@[i] == pre.counts@[i]);
                assert(pre.counts@[i].0 != a);
            }
        }
        assert(self.counts@[n].0 == a);
        assert(self.has(a));
        self.lemma_index_unique(n);
        assert forall|b: Addr| b != a implies #[trigger] self.count_of(b) == pre.count_of(b) by {
            if self.has(b) {
                let k = self.index_of(b);
                self.lemma_index_unique(k);
                assert(k != n);
                assert(self.counts@[k] == pre.counts@[k]);
                pre.lemma_index_unique(k);
            } else {
                if pre.has(b) {
                    let k = pre.index_of(b);
                    assert(self.counts@[k].0 == b);
                }
            }
        }
    }
}

/// One accounting step for a single address: `true` increments, `false`
/// decrements.
pub open spec fn apply_accounting_op(c: nat, increment: bool) -> nat {
    if increment {
        ConnectionAccounting::incremented(c)
    } else {
        ConnectionAccounting::decremented(c)
    }
}

/// The count after a whole sequence of increments and decrements.
pub open spec fn apply_accounting_ops(c: nat, ops: Seq<bool>) -> nat
    decreases ops.len(),
{
    if ops.len() == 0 {
        c
    } else {
        apply_accounting_ops(apply_accounting_op(c, ops[0]), ops.drop_first())
    }
}

/// Accounting non-negativity: from any starting count, any sequence of
/// increments and decrements — including decrements issued by a session that
/// never incremented — leaves the count at or above zero, because decrements
/// saturate at zero.
pub proof fn lemma_accounting_never_negative(c: nat, ops: Seq<bool>)
    ensures
        apply_accounting_ops(c, ops) >= 0,
        c == 0 && ops.len() > 0 && !ops[0] ==> apply_accounting_ops(c, ops) == apply_accounting_ops(
            0,
            ops.drop_first(),
        ),
    decreases ops.len(),
{
    if ops.len() > 0 {
        lemma_accounting_never_negative(apply_accounting_op(c, ops[0]), ops.drop_first());
    }
}

} // verus!
