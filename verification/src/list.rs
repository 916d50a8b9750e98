//! The active set: an intrusive doubly linked list over a dense index range.
//!
//! Slot `n` is the sentinel of a circular list over the container indices
//! `0..n`.  Removal unlinks a slot but leaves its own links untouched, so the
//! exact inverse restoration can re-link it between its old neighbors in
//! constant time; the solver pairs the two in strict stack order.

use vstd::prelude::*;

verus! {

#[derive(Clone, Copy)]
pub struct Node {
    pub prev: u16,
    pub next: u16,
}

/// The slot indices reached from `cur` by `next` links, stopping at the
/// sentinel (the last slot) or after `fuel` steps, whichever comes first.
pub open spec fn chain(nodes: Seq<Node>, cur: int, fuel: nat) -> Seq<u16>
    decreases fuel,
{
    if fuel == 0 || cur < 0 || cur >= nodes.len() - 1 {
        Seq::empty()
    } else {
        seq![cur as u16] + chain(nodes, nodes[cur].next as int, (fuel - 1) as nat)
    }
}

pub struct List {
    pub nodes: Vec<Node>,
}

impl List {
    /// Index of the sentinel slot.
    pub open spec fn sentinel(self) -> int {
        self.nodes@.len() - 1
    }

    /// Every link points into the slot range.
    pub open spec fn wf(self) -> bool {
        &&& 2 <= self.nodes@.len() <= u16::MAX as nat + 1
        &&& forall|k: int|
            0 <= k < self.nodes@.len()
                ==> (#[trigger] self.nodes@[k]).prev < self.nodes@.len()
                    && self.nodes@[k].next < self.nodes@.len()
    }

    /// The members of the active set: the indices on the chain of `next`
    /// links from the sentinel back to the sentinel, in list order.
    pub open spec fn members(self) -> Seq<u16> {
        chain(
            self.nodes@,
            self.nodes@[self.sentinel()].next as int,
            (self.nodes@.len() - 1) as nat,
        )
    }

    /// The slot the list continues with after the indices already gathered.
    pub open spec fn after(self, v: Seq<usize>) -> int {
        if v.len() == 0 {
            self.nodes@[self.sentinel()].next as int
        } else {
            self.nodes@[v.last() as int].next as int
        }
    }

    /// A circular list over `0..n`: sentinel -> 0 -> 1 -> ... -> n-1 -> sentinel.
    pub fn new(n: usize) -> (l: List)
        requires
            1 <= n <= u16::MAX,
        ensures
            l.wf(),
            l.nodes@.len() == n + 1,
            forall|k: int|
                0 <= k <= n
                    ==> (#[trigger] l.nodes@[k]).prev == (if k == 0 {
                        n as u16
                    } else {
                        (k - 1) as u16
                    }) && l.nodes@[k].next == (if k == n {
                        0u16
                    } else {
                        (k + 1) as u16
                    }),
    {
        let mut nodes: Vec<Node> = Vec::new();
        let mut k: usize = 0;
        while k <= n
            invariant
                1 <= n <= u16::MAX,
                0 <= k <= n + 1,
                nodes@.len() == k,
                forall|t: int|
                    0 <= t < k
                        ==> (#[trigger] nodes@[t]).prev == (if t == 0 {
                            n as u16
                        } else {
                            (t - 1) as u16
                        }) && nodes@[t].next == (if t == n {
                            0u16
                        } else {
                            (t + 1) as u16
                        }),
            decreases n + 1 - k,
        {
            let p: u16 = if k == 0 {
                n as u16
            } else {
                (k - 1) as u16
            };
            let q: u16 = if k == n {
                0u16
            } else {
                (k + 1) as u16
            };
            nodes.push(Node { prev: p, next: q });
            k += 1;
        }
        List { nodes }
    }

    /// Unlink slot `index`: its neighbors bypass it; its own links stay.
    pub fn remove(&mut self, index: usize)
        requires
            old(self).wf(),
            index < old(self).nodes@.len() - 1,
        ensures
            final(self).wf(),
            final(self).nodes@.len() == old(self).nodes@.len(),
            ({
                let p = old(self).nodes@[index as int].prev as int;
                let q = old(self).nodes@[index as int].next as int;
                let m1 = old(self).nodes@.update(
                    p,
                    Node { prev: old(self).nodes@[p].prev, next: old(self).nodes@[index as int].next },
                );
                final(self).nodes@ == m1.update(
                    q,
                    Node { prev: old(self).nodes@[index as int].prev, next: m1[q].next },
                )
            }),
    {
        let p = self.nodes[index].prev;
        let q = self.nodes[index].next;
        let pn = self.nodes[p as usize];
        self.nodes.set(p as usize, Node { prev: pn.prev, next: q });
        let qn = self.nodes[q as usize];
        self.nodes.set(q as usize, Node { prev: p, next: qn.next });
    }

    /// Re-link slot `index` between the neighbors its own links still name.
    /// Valid only as the exact inverse of the most recent removal of `index`.
    pub fn restore(&mut self, index: usize)
        requires
            old(self).wf(),
            index < old(self).nodes@.len() - 1,
        ensures
            final(self).wf(),
            final(self).nodes@.len() == old(self).nodes@.len(),
            ({
                let p = old(self).nodes@[index as int].prev as int;
                let q = old(self).nodes@[index as int].next as int;
                let m1 = old(self).nodes@.update(
                    p,
                    Node { prev: old(self).nodes@[p].prev, next: index as u16 },
                );
                final(self).nodes@ == m1.update(
                    q,
                    Node { prev: index as u16, next: m1[q].next },
                )
            }),
    {
        let p = self.nodes[index].prev;
        let q = self.nodes[index].next;
        let pn = self.nodes[p as usize];
        self.nodes.set(p as usize, Node { prev: pn.prev, next: index as u16 });
        let qn = self.nodes[q as usize];
        self.nodes.set(q as usize, Node { prev: index as u16, next: qn.next });
    }

    /// The indices in current list order, starting after the sentinel: the
    /// members of the set, one slot per container at most.
    pub fn iter(&self) -> (v: Vec<usize>)
        requires
            self.wf(),
        ensures
            v@.len() == self.members().len(),
            forall|k: int|
                0 <= k < v@.len() ==> (#[trigger] v@[k]) == self.members()[k] as usize,
            v@.len() <= self.nodes@.len() - 1,
            forall|k: int| 0 <= k < v@.len() ==> (#[trigger] v@[k]) < self.nodes@.len() - 1,
            forall|k: int|
                1 <= k < v@.len()
                    ==> (#[trigger] v@[k]) == self.nodes@[v@[k - 1] as int].next as usize,
            v@.len() > 0 ==> v@[0] == self.nodes@[self.sentinel()].next as usize,
            v@.len() == self.nodes@.len() - 1 || self.after(v@) == self.sentinel(),
    {
        let n = self.nodes.len() - 1;
        let mut v: Vec<usize> = Vec::new();
        let mut cur: usize = self.nodes[n].next as usize;
        proof {
            assert(self.members().skip(0) =~= self.members());
        }
        while cur != n && v.len() < n
            invariant
                self.wf(),
                n == self.nodes@.len() - 1,
                cur < self.nodes@.len(),
                v@.len() <= n,
                v@.len() <= self.members().len(),
                self.members().skip(v@.len() as int) == chain(
                    self.nodes@,
                    cur as int,
                    (n - v@.len()) as nat,
                ),
                forall|k: int|
                    0 <= k < v@.len() ==> (#[trigger] v@[k]) == self.members()[k] as usize,
                forall|k: int| 0 <= k < v@.len() ==> (#[trigger] v@[k]) < n,
                forall|k: int|
                    1 <= k < v@.len()
                        ==> (#[trigger] v@[k]) == self.nodes@[v@[k - 1] as int].next as usize,
                v@.len() > 0 ==> v@[0] == self.nodes@[self.sentinel()].next as usize,
                cur as int == self.after(v@),
            decreases n - v@.len(),
        {
            proof {
                let l = v@.len() as int;
                let suffix = chain(self.nodes@, cur as int, (n - l) as nat);
                assert(suffix == seq![cur as u16] + chain(
                    self.nodes@,
                    self.nodes@[cur as int].next as int,
                    (n - l - 1) as nat,
                ));
                assert(self.members()[l] == suffix[0]);
                assert(self.members().skip(l + 1) =~= suffix.skip(1));
                assert(suffix.skip(1) =~= chain(
                    self.nodes@,
                    self.nodes@[cur as int].next as int,
                    (n - l - 1) as nat,
                ));
                assert(self.members().len() > l);
            }
            v.push(cur);
            cur = self.nodes[cur].next as usize;
        }
        proof {
            assert(chain(self.nodes@, cur as int, (n - v@.len()) as nat) =~= Seq::<
                u16,
            >::empty() || v@.len() == self.members().len());
            assert(self.members().skip(v@.len() as int).len() == 0);
            assert(self.members().len() == v@.len());
        }
        v
    }
}

} // verus!
