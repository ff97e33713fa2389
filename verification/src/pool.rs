//! The connection-reuse pool: idle backend connections kept for future
//! sessions.
//!
//! A connection is represented by a numeric handle; the surrounding
//! application owns the socket behind each handle. The pool keeps one LIFO
//! stack of idle handles per backend address, so the most recently returned
//! connection is reused first.

use vstd::prelude::*;
use crate::addr::Addr;

verus! {

/// A mapping from backend address to the stack of its idle connections.
///
/// Well-formedness demands that no address occurs twice and that a handle
/// appears at most once in the whole pool: a connection is either idle here
/// or owned by exactly one active session, never both.
pub struct ConnectionPool {
    pub idle: Vec<(Addr, Vec<u64>)>,
}

/// What a release leaves behind: the handle is pushed onto the stack of its
/// address and every other stack is untouched.
pub open spec fn pool_release_step(pre: ConnectionPool, post: ConnectionPool, a: Addr, c: u64) -> bool {
    &&& post.idle_of(a) == pre.idle_of(a).push(c)
    &&& forall|b: Addr| b != a ==> #[trigger] post.idle_of(b) == pre.idle_of(b)
}

/// What an acquisition leaves behind: the top of the stack of `a` is popped
/// and returned if one is there, and nothing else changes; with no idle
/// connection the pool is untouched and the caller must establish a fresh
/// connection.
pub open spec fn pool_acquire_step(
    pre: ConnectionPool,
    post: ConnectionPool,
    a: Addr,
    r: Option<u64>,
) -> bool {
    if pre.idle_of(a).len() > 0 {
        &&& r == Some(pre.idle_of(a).last())
        &&& post.idle_of(a) == pre.idle_of(a).drop_last()
        &&& forall|b: Addr| b != a ==> #[trigger] post.idle_of(b) == pre.idle_of(b)
    } else {
        &&& r is None
        &&& forall|b: Addr| #[trigger] post.idle_of(b) == pre.idle_of(b)
    }
}

impl ConnectionPool {
    pub open spec fn addrs_unique(self) -> bool {
        forall|i: int, j: int|
            0 <= i < j < self.idle@.len() ==> #[trigger] self.idle@[i].0 != #[trigger] self.idle@[j].0
    }

    /// A handle appears at most once across all stacks.
    pub open spec fn conns_unique(self) -> bool {
        forall|i: int, k: int, j: int, l: int|
            0 <= i < self.idle@.len() && 0 <= k < self.idle@[i].1@.len() && 0 <= j
                < self.idle@.len() && 0 <= l < self.idle@[j].1@.len() && (i != j || k != l)
                ==> #[trigger] self.idle@[i].1@[k] != #[trigger] self.idle@[j].1@[l]
    }

    pub open spec fn wf(self) -> bool {
        self.addrs_unique() && self.conns_unique()
    }

    pub open spec fn has(self, a: Addr) -> bool {
        exists|i: int| 0 <= i < self.idle@.len() && #[trigger] self.idle@[i].0 == a
    }

    pub open spec fn index_of(self, a: Addr) -> int {
        choose|i: int| 0 <= i < self.idle@.len() && #[trigger] self.idle@[i].0 == a
    }

    /// The idle connections for `a`, oldest first; empty when `a` has no
    /// stack.
    pub open spec fn idle_of(self, a: Addr) -> Seq<u64> {
        if self.has(a) {
            self.idle@[self.index_of(a)].1@
        } else {
            Seq::<u64>::empty()
        }
    }

    /// Whether handle `c` is idle somewhere in the pool.
    pub open spec fn spec_contains_conn(self, c: u64) -> bool {
        exists|i: int, k: int|
            0 <= i < self.idle@.len() && 0 <= k < self.idle@[i].1@.len()
                && #[trigger] self.idle@[i].1@[k] == c
    }

    /// An empty pool.
    pub fn new() -> (r: ConnectionPool)
        ensures
            r.wf(),
            forall|a: Addr| #[trigger] r.idle_of(a) == Seq::<u64>::empty(),
    {
        ConnectionPool { idle: Vec::new() }
    }

    /// On a well-formed pool, the index of an address is the unique position
    /// that carries it.
    pub proof fn lemma_index_unique(self, k: int)
        requires
            self.addrs_unique(),
            0 <= k < self.idle@.len(),
        ensures
            self.index_of(self.idle@[k].0) == k,
    {
        let a = self.idle@[k].0;
        assert(self.has(a));
        let c = self.index_of(a);
        if c < k {
            assert(self.idle@[c].0 != self.idle@[k].0);
        } else if c > k {
            assert(self.idle@[k].0 != self.idle@[c].0);
        }
    }

    /// The position of the stack for `a`, if one exists.
    fn position(&self, a: Addr) -> (r: Option<usize>)
        requires
            self.addrs_unique(),
        ensures
            match r {
                Some(i) => i < self.idle@.len() && self.idle@[i as int].0 == a && i
                    == self.index_of(a),
                None => !self.has(a),
            },
    {
        let n = self.idle.len();
        let mut i: usize = 0;
        while i < n
            invariant
                self.addrs_unique(),
                n == self.idle@.len(),
                i <= n,
                forall|j: int| 0 <= j < i ==> #[trigger] self.idle@[j].0 != a,
            decreases n - i,
        {
            if self.idle[i].0 == a {
                proof {
                    self.lemma_index_unique(i as int);
                }
                return Some(i);
            }
            i = i + 1;
        }
        None
    }

    /// Whether handle `c` is idle somewhere in the pool.
    pub fn contains_conn(&self, c: u64) -> (r: bool)
        ensures
            r == self.spec_contains_conn(c),
    {
        let n = self.idle.len();
        let mut i: usize = 0;
        while i < n
            invariant
                n == self.idle@.len(),
                i <= n,
                forall|i2: int, k2: int|
                    0 <= i2 < i && 0 <= k2 < self.idle@[i2].1@.len() ==> #[trigger] self.idle@[i2].1@[k2]
                        != c,
            decreases n - i,
        {
            let m = self.idle[i].1.len();
            let mut k: usize = 0;
            while k < m
                invariant
                    n == self.idle@.len(),
                    i < n,
                    m == self.idle@[i as int].1@.len(),
                    k <= m,
                    forall|i2: int, k2: int|
                        0 <= i2 < i && 0 <= k2 < self.idle@[i2].1@.len() ==> #[trigger] self.idle@[i2].1@[k2]
                            != c,
                    forall|k2: int|
                        0 <= k2 < k ==> #[trigger] self.idle@[i as int].1@[k2] != c,
                decreases m - k,
            {
                if self.idle[i].1[k] == c {
                    return true;
                }
                k = k + 1;
            }
            i = i + 1;
        }
        false
    }

    /// Pops and returns the most recently released idle connection for `a`,
    /// if any; with none, the caller must establish a fresh connection.
    pub fn acquire(&mut self, a: Addr) -> (r: Option<u64>)
        requires
            old(self).wf(),
        ensures
            final(self).wf(),
            pool_acquire_step(*old(self), *final(self), a, r),
            r matches Some(c) ==> old(self).spec_contains_conn(c)
                && !(final(self).spec_contains_conn(c)),
    {
        let pos = self.position(a);
        match pos {
            Some(i) => {
                let (a0, mut stack) = self.idle.remove(i);
                let r = stack.pop();
                self.idle.insert(i, (a0, stack));
                proof {
                    assert(self.idle@ =~= old(self).idle@.update(
                        i as int,
                        (a0, self.idle@[i as int].1),
                    ));
                    self.lemma_stack_update(*old(self), i as int, a);
                    let idx = i as int;
                    let stack0 = old(self).idle@[idx].1@;
                    if stack0.len() > 0 {
                        let cc = stack0.last();
                        assert(old(self).idle@[idx].1@[stack0.len() - 1] == cc);
                        assert(old(self).spec_contains_conn(cc));
                        assert forall|i2: int, k2: int|
                            0 <= i2 < self.idle@.len() && 0 <= k2
                                < self.idle@[i2].1@.len() implies #[trigger] self.idle@[i2].1@[k2]
                            != cc by {
                            if i2 == idx {
                                assert(self.idle@[i2].1@[k2] == stack0[k2]);
                                assert(old(self).idle@[idx].1@[k2] == stack0[k2]);
                            } else {
                                assert(self.idle@[i2].1@[k2] == old(self).idle@[i2].1@[k2]);
                            }
                        }
                        assert(!self.spec_contains_conn(cc));
                    }
                }
                r
            },
            None => {
                proof {
                    assert(self.idle@ =~= old(self).idle@);
                    assert(old(self).idle_of(a).len() == 0);
                }
                None
            },
        }
    }

    /// Pushes `c` onto the idle stack for `a`. The caller must own `c`, so it
    /// cannot already be idle in the pool.
    pub fn release(&mut self, a: Addr, c: u64)
        requires
            old(self).wf(),
            !old(self).spec_contains_conn(c),
        ensures
            final(self).wf(),
            pool_release_step(*old(self), *final(self), a, c),
    {
        let pos = self.position(a);
        match pos {
            Some(i) => {
                let (a0, mut stack) = self.idle.remove(i);
                stack.push(c);
                self.idle.insert(i, (a0, stack));
                proof {
                    assert(self.idle@ =~= old(self).idle@.update(
                        i as int,
                        (a0, self.idle@[i as int].1),
                    ));
                    self.lemma_stack_update(*old(self), i as int, a);
                }
            },
            None => {
                let mut stack: Vec<u64> = Vec::new();
                stack.push(c);
                self.idle.push((a, stack));
                proof {
                    self.lemma_stack_push(*old(self), a, c);
                }
            },
        }
    }

    /// After replacing the stack at position `idx` (which carries `a`), `a`
    /// reads the new stack and every other address is unchanged; uniqueness
    /// of handles is preserved when the new stack only dropped or added
    /// handles absent elsewhere.
    proof fn lemma_stack_update(self, pre: ConnectionPool, idx: int, a: Addr)
        requires
            pre.wf(),
            0 <= idx < pre.idle@.len(),
            pre.idle@[idx].0 == a,
            self.idle@.len() == pre.idle@.len(),
            self.idle@[idx].0 == a,
            forall|j: int|
                0 <= j < pre.idle@.len() && j != idx ==> #[trigger] self.idle@[j] == pre.idle@[j],
            (pre.idle@[idx].1@.len() > 0 && self.idle@[idx].1@ == pre.idle@[idx].1@.drop_last())
                || self.idle@[idx].1@ == pre.idle@[idx].1@ || (self.idle@[idx].1@
                == pre.idle@[idx].1@.push(self.idle@[idx].1@.last()) && !pre.spec_contains_conn(
                self.idle@[idx].1@.last(),
            )),
        ensures
            self.wf(),
            self.idle_of(a) == self.idle@[idx].1@,
            forall|b: Addr| b != a ==> #[trigger] self.idle_of(b) == pre.idle_of(b),
    {
        assert forall|i: int, j: int|
            0 <= i < j < self.idle@.len() implies #[trigger] self.idle@[i].0
            != #[trigger] self.idle@[j].0 by {
            assert(self.idle@[i].0 == pre.idle@[i].0);
            assert(self.idle@[j].0 == pre.idle@[j].0);
        }
        let new_stack = self.idle@[idx].1@;
        let old_stack = pre.idle@[idx].1@;
        if new_stack.len() <= old_stack.len() {
            assert(forall|k2: int|
                0 <= k2 < new_stack.len() ==> #[trigger] new_stack[k2] == old_stack[k2]);
            assert forall|i: int, k: int, j: int, l: int|
                0 <= i < self.idle@.len() && 0 <= k < self.idle@[i].1@.len() && 0 <= j
                    < self.idle@.len() && 0 <= l < self.idle@[j].1@.len() && (i != j || k
                    != l) implies #[trigger] self.idle@[i].1@[k] != #[trigger] self.idle@[j].1@[l] by {
                assert(self.idle@[i].1@[k] == pre.idle@[i].1@[k]);
                assert(self.idle@[j].1@[l] == pre.idle@[j].1@[l]);
            }
        } else {
            let c = new_stack.last();
            assert(new_stack == old_stack.push(c));
            assert(forall|k2: int|
                0 <= k2 < old_stack.len() ==> #[trigger] new_stack[k2] == old_stack[k2]);
            assert forall|i: int, k: int, j: int, l: int|
                0 <= i < self.idle@.len() && 0 <= k < self.idle@[i].1@.len() && 0 <= j
                    < self.idle@.len() && 0 <= l < self.idle@[j].1@.len() && (i != j || k
                    != l) implies #[trigger] self.idle@[i].1@[k] != #[trigger] self.idle@[j].1@[l] by {
                if i == idx && k == new_stack.len() - 1 {
                    assert(self.idle@[i].1@[k] == c);
                    if j == idx {
                        assert(self.idle@[j].1@[l] == old_stack[l]);
                        assert(pre.idle@[idx].1@[l] == old_stack[l]);
                    } else {
                        assert(self.idle@[j].1@[l] == pre.idle@[j].1@[l]);
                    }
                } else if j == idx && l == new_stack.len() - 1 {
                    assert(self.idle@[j].1@[l] == c);
                    if i == idx {
                        assert(pre.idle@[idx].1@[k] == old_stack[k]);
                    } else {
                        assert(self.idle@[i].1@[k] == pre.idle@[i].1@[k]);
                    }
                } else {
                    if i == idx {
                        assert(pre.idle@[idx].1@[k] == old_stack[k]);
                        assert(self.idle@[i].1@[k] == old_stack[k]);
                    } else {
                        assert(self.idle@[i].1@[k] == pre.idle@[i].1@[k]);
                    }
                    if j == idx {
                        assert(pre.idle@[idx].1@[l] == old_stack[l]);
                        assert(self.idle@[j].1@[l] == old_stack[l]);
                    } else {
                        assert(self.idle@[j].1@[l] == pre.idle@[j].1@[l]);
                    }
                }
            }
        }
        assert(self.has(a));
        self.lemma_index_unique(idx);
        pre.lemma_index_unique(idx);
        assert forall|b: Addr| b != a implies #[trigger] self.idle_of(b) == pre.idle_of(b) by {
            if self.has(b) {
                let k = self.index_of(b);
                self.lemma_index_unique(k);
                assert(k != idx);
                assert(pre.idle@[k].0 == b);
                pre.lemma_index_unique(k);
            } else {
                if pre.has(b) {
                    let k = pre.index_of(b);
                    assert(self.idle@[k].0 == b);
                }
            }
        }
    }

    /// After appending a one-handle stack for an absent address `a`, `a`
    /// reads that stack and every other address is unchanged.
    proof fn lemma_stack_push(self, pre: ConnectionPool, a: Addr, c: u64)
        requires
            pre.wf(),
            !pre.has(a),
            !pre.spec_contains_conn(c),
            self.idle@.len() == pre.idle@.len() + 1,
            forall|j: int| 0 <= j < pre.idle@.len() ==> #[trigger] self.idle@[j] == pre.idle@[j],
            self.idle@[pre.idle@.len() as int].0 == a,
            self.idle@[pre.idle@.len() as int].1@ =~= Seq::<u64>::empty().push(c),
        ensures
            self.wf(),
            self.idle_of(a) =~= pre.idle_of(a).push(c),
            forall|b: Addr| b != a ==> #[trigger] self.idle_of(b) == pre.idle_of(b),
    {
        let n = pre.idle@.len() as int;
        assert forall|i: int, j: int|
            0 <= i < j < self.idle@.len() implies #[trigger] self.idle@[i].0
            != #[trigger] self.idle@[j].0 by {
            if j < n {
                assert(self.idle@[i] == pre.idle@[i]);
                assert(self.idle@[j] == pre.idle@[j]);
            } else {
                assert(self.idle@[i] == pre.idle@[i]);
                assert(pre.idle@[i].0 != a);
            }
        }
        assert forall|i: int, k: int, j: int, l: int|
            0 <= i < self.idle@.len() && 0 <= k < self.idle@[i].1@.len() && 0 <= j
                < self.idle@.len() && 0 <= l < self.idle@[j].1@.len() && (i != j || k != l) implies #[trigger] self.idle@[i].1@[k]
            != #[trigger] self.idle@[j].1@[l] by {
            if i == n {
                assert(k == 0 && self.idle@[i].1@[k] == c);
                assert(j < n);
                assert(self.idle@[j].1@[l] == pre.idle@[j].1@[l]);
            } else if j == n {
                assert(l == 0 && self.idle@[j].1@[l] == c);
                assert(i < n);
                assert(self.idle@[i].1@[k] == pre.idle@[i].1@[k]);
            } else {
                assert(self.idle@[i].1@[k] == pre.idle@[i].1@[k]);
                assert(self.idle@[j].1@[l] == pre.idle@[j].1@[l]);
            }
        }
        assert(self.idle@[n].0 == a);
        assert(self.has(a));
        self.lemma_index_unique(n);
        assert(pre.idle_of(a) =~= Seq::<u64>::empty());
        assert forall|b: Addr| b != a implies #[trigger] self.idle_of(b) == pre.idle_of(b) by {
            if self.has(b) {
                let k = self.index_of(b);
                self.lemma_index_unique(k);
                assert(k != n);
                assert(self.idle@[k] == pre.idle@[k]);
                assert(pre.idle@[k].0 == b);
                pre.lemma_index_unique(k);
            } else {
                if pre.has(b) {
                    let k = pre.index_of(b);
                    assert(self.idle@[k].0 == b);
                }
            }
        }
    }
}

/// Pool reuse: a connection released for an address is the very next one
/// acquired for that address — before any fresh connection is established —
/// and the acquisition restores the stack the release found.
pub proof fn lemma_pool_reuse(
    p0: ConnectionPool,
    p1: ConnectionPool,
    p2: ConnectionPool,
    a: Addr,
    c: u64,
    r: Option<u64>,
)
    requires
        pool_release_step(p0, p1, a, c),
        pool_acquire_step(p1, p2, a, r),
    ensures
        r == Some(c),
        p2.idle_of(a) == p0.idle_of(a),
        forall|b: Addr| b != a ==> #[trigger] p2.idle_of(b) == p0.idle_of(b),
{
    assert(p1.idle_of(a).len() > 0);
    assert(p1.idle_of(a).last() == c);
    assert(p2.idle_of(a) =~= p0.idle_of(a));
}

} // verus!
