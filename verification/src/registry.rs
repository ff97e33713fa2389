//! The server registry: the authoritative, mutable set of eligible backends.

use vstd::prelude::*;
use crate::addr::Addr;

verus! {

/// A mapping from server name to backend address, kept in insertion order so
/// that selection over a snapshot is deterministic for a given registry state.
///
/// Well-formedness ([`ServerRegistry::wf`]) demands that no name occurs twice.
pub struct ServerRegistry {
    pub entries: Vec<(String, Addr)>,
}

impl ServerRegistry {
    /// The backend addresses, in registry order.
    pub open spec fn addrs(self) -> Seq<Addr> {
        self.entries@.map(|i: int, e: (String, Addr)| e.1)
    }

    pub open spec fn spec_len(self) -> nat {
        self.entries@.len()
    }

    /// No server name occurs twice.
    pub open spec fn wf(self) -> bool {
        forall|i: int, j: int|
            0 <= i < j < self.entries@.len() ==> #[trigger] self.entries@[i].0@
                != #[trigger] self.entries@[j].0@
    }

    pub open spec fn contains_name(self, name: Seq<char>) -> bool {
        exists|i: int| 0 <= i < self.entries@.len() && #[trigger] self.entries@[i].0@ == name
    }

    pub open spec fn index_of_name(self, name: Seq<char>) -> int {
        choose|i: int| 0 <= i < self.entries@.len() && #[trigger] self.entries@[i].0@ == name
    }

    pub open spec fn contains_addr(self, a: Addr) -> bool {
        exists|i: int| 0 <= i < self.addrs().len() && self.addrs()[i] == a
    }

    /// The address registered under `name`; meaningful when
    /// `contains_name(name)` holds on a well-formed registry.
    pub open spec fn addr_of(self, name: Seq<char>) -> Addr {
        self.entries@[self.index_of_name(name)].1
    }

    /// On a well-formed registry, the index of a name is the unique position
    /// that carries it.
    pub proof fn lemma_index_of_name_unique(self, k: int)
        requires
            self.wf(),
            0 <= k < self.entries@.len(),
        ensures
            self.index_of_name(self.entries@[k].0@) == k,
    {
        let nm = self.entries@[k].0@;
        assert(self.contains_name(nm));
        let c = self.index_of_name(nm);
        if c < k {
            assert(self.entries@[c].0@ != self.entries@[k].0@);
        } else if c > k {
            assert(self.entries@[k].0@ != self.entries@[c].0@);
        }
    }

    /// An empty registry.
    pub fn new() -> (r: ServerRegistry)
        ensures
            r.entries@ == Seq::<(String, Addr)>::empty(),
            r.wf(),
    {
        ServerRegistry { entries: Vec::new() }
    }

    pub fn len(&self) -> (r: usize)
        ensures
            r == self.spec_len(),
    {
        self.entries.len()
    }

    /// The position of `name`, if it is registered.
    fn index_of(&self, name: &String) -> (r: Option<usize>)
        requires
            self.wf(),
        ensures
            match r {
                Some(i) => i < self.entries@.len() && self.entries@[i as int].0@ == name@
                    && i == self.index_of_name(name@),
                None => !self.contains_name(name@),
            },
    {
        let n = self.entries.len();
        let mut i: usize = 0;
        while i < n
            invariant
                self.wf(),
                n == self.entries@.len(),
                i <= n,
                forall|j: int| 0 <= j < i ==> #[trigger] self.entries@[j].0@ != name@,
            decreases n - i,
        {
            if self.entries[i].0 == *name {
                return Some(i);
            }
            i = i + 1;
        }
        None
    }

    /// Registers `name -> addr`: replaces the address of an existing entry in
    /// place, or appends a new entry at the end.
    pub fn insert(&mut self, name: String, addr: Addr)
        requires
            old(self).wf(),
        ensures
            final(self).wf(),
            if old(self).contains_name(name@) {
                final(self).entries@ == old(self).entries@.update(
                    old(self).index_of_name(name@),
                    (name, addr),
                )
            } else {
                final(self).entries@ == old(self).entries@.push((name, addr))
            },
    {
        match self.index_of(&name) {
            Some(i) => {
                self.entries[i] = (name, addr);
                proof {
                    assert forall|p: int, q: int|
                        0 <= p < q < self.entries@.len() implies #[trigger] self.entries@[p].0@
                        != #[trigger] self.entries@[q].0@ by {
                        assert(old(self).entries@[p].0@ != old(self).entries@[q].0@);
                    }
                }
            },
            None => {
                self.entries.push((name, addr));
                proof {
                    assert forall|p: int, q: int|
                        0 <= p < q < self.entries@.len() implies #[trigger] self.entries@[p].0@
                        != #[trigger] self.entries@[q].0@ by {
                        if q < self.entries@.len() - 1 {
                            assert(old(self).entries@[p].0@ != old(self).entries@[q].0@);
                        } else {
                            assert(self.entries@[q].0@ == name@);
                            assert(old(self).entries@[p].0@ != name@);
                        }
                    }
                }
            },
        }
    }

    /// Removes the entry named `name` if present; does nothing if absent.
    pub fn remove(&mut self, name: &String)
        requires
            old(self).wf(),
        ensures
            final(self).wf(),
            if old(self).contains_name(name@) {
                final(self).entries@ == old(self).entries@.remove(old(self).index_of_name(name@))
            } else {
                final(self).entries@ == old(self).entries@
            },
            forall|nm: Seq<char>|
                #[trigger] final(self).contains_name(nm) <==> old(self).contains_name(nm) && nm
                    != name@,
            forall|nm: Seq<char>|
                #[trigger] final(self).contains_name(nm) ==> final(self).addr_of(nm) == old(
                    self,
                ).addr_of(nm),
    {
        match self.index_of(name) {
            Some(i) => {
                self.entries.remove(i);
                proof {
                    let pre = old(self).entries@;
                    let idx = i as int;
                    assert forall|p: int, q: int|
                        0 <= p < q < self.entries@.len() implies #[trigger] self.entries@[p].0@
                        != #[trigger] self.entries@[q].0@ by {
                        let p0: int = if p < idx { p } else { p + 1 };
                        let q0: int = if q < idx { q } else { q + 1 };
                        assert(self.entries@[p] == pre[p0]);
                        assert(self.entries@[q] == pre[q0]);
                        assert(pre[p0].0@ != pre[q0].0@);
                    }
                    assert forall|nm: Seq<char>| #[trigger]
                        self.contains_name(nm) implies old(self).contains_name(nm) && nm
                        != name@ by {
                        let k = choose|k: int|
                            0 <= k < self.entries@.len() && #[trigger] self.entries@[k].0@ == nm;
                        let k0: int = if k < idx { k } else { k + 1 };
                        assert(self.entries@[k] == pre[k0]);
                        assert(pre[k0].0@ == nm);
                        if nm == name@ {
                            assert(pre[idx].0@ == name@);
                            assert(k0 != idx);
                        }
                    }
                    assert forall|nm: Seq<char>|
                        old(self).contains_name(nm) && nm != name@ implies #[trigger] self
                            .contains_name(nm) by {
                        let k0 = choose|k0: int| 0 <= k0 < pre.len() && #[trigger] pre[k0].0@ == nm;
                        assert(pre[idx].0@ == name@);
                        let k: int = if k0 < idx { k0 } else { k0 - 1 };
                        assert(self.entries@[k] == pre[k0]);
                    }
                    assert forall|nm: Seq<char>| #[trigger]
                        self.contains_name(nm) implies self.addr_of(nm) == old(self).addr_of(
                        nm,
                    ) by {
                        let k = choose|k: int|
                            0 <= k < self.entries@.len() && #[trigger] self.entries@[k].0@ == nm;
                        self.lemma_index_of_name_unique(k);
                        let k0: int = if k < idx { k } else { k + 1 };
                        assert(self.entries@[k] == pre[k0]);
                        old(self).lemma_index_of_name_unique(k0);
                    }
                }
            },
            None => {
            },
        }
    }

    /// A consistent point-in-time copy of the registry's entries, safe to
    /// iterate without further access to the registry.
    pub fn list(&self) -> (r: Vec<(String, Addr)>)
        ensures
            r@ == self.entries@,
    {
        let n = self.entries.len();
        let mut out: Vec<(String, Addr)> = Vec::new();
        let mut i: usize = 0;
        while i < n
            invariant
                n == self.entries@.len(),
                i <= n,
                out@ == self.entries@.take(i as int),
            decreases n - i,
        {
            let name = self.entries[i].0.clone();
            let addr = self.entries[i].1;
            out.push((name, addr));
            proof {
                assert(out@ == self.entries@.take(i + 1 as int));
            }
            i = i + 1;
        }
        proof {
            assert(self.entries@.take(n as int) == self.entries@);
        }
        out
    }

    /// The address at position `i` of the registry order.
    pub fn addr_at(&self, i: usize) -> (r: Addr)
        requires
            i < self.spec_len(),
        ensures
            r == self.addrs()[i as int],
    {
        self.entries[i].1
    }
}

} // verus!
