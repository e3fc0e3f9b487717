//! The intrusive circular doubly-linked list.
//!
//! Node storage is delegated to a [`Pool`]; the list itself only maintains the
//! `next`/`prev` topology. A permanent sentinel node, holding no value, closes
//! the ring: the sentinel's `next` is the head, its `prev` is the tail, and an
//! empty list is the sentinel linked to itself both ways.

use crate::pool::{Pool, PoolId, Ptr, Ref};
use vstd::assert_seqs_equal;
use vstd::prelude::*;

verus! {

/// One link of the ring: an optional value (the sentinel holds none) and the
/// handles of its two neighbours.
pub struct Node<T> {
    pub(crate) value: Option<T>,
    pub(crate) next: Ptr,
    pub(crate) prev: Ptr,
}

/// The mathematical image of a [`Node`]: its fields as plain values.
pub ghost struct NodeView<T> {
    pub value: Option<T>,
    pub next: Ptr,
    pub prev: Ptr,
}

impl<T> View for Node<T> {
    type V = NodeView<T>;

    closed spec fn view(&self) -> NodeView<T> {
        NodeView { value: self.value, next: self.next, prev: self.prev }
    }
}

impl<T> Node<T> {
    /// Whether this node is the sentinel, recognisable by holding no value.
    pub fn is_sentinel(&self) -> (r: bool)
        ensures
            r == (self@.value is None),
    {
        self.value.is_none()
    }

    /// The handle of the node after this one in the ring.
    pub fn next(&self) -> (r: Ptr)
        ensures
            r == self@.next,
    {
        self.next
    }

    /// The handle of the node before this one in the ring.
    pub fn prev(&self) -> (r: Ptr)
        ensures
            r == self@.prev,
    {
        self.prev
    }

    /// The value carried by this node. Asking the sentinel for a value is a
    /// caller bug and is ruled out up front.
    pub fn value(&self) -> (r: &T)
        requires
            self@.value is Some,
        ensures
            *r == self@.value->0,
    {
        self.value.as_ref().unwrap()
    }
}

/// The list: a pool that owns the nodes, and the handle of the sentinel.
pub struct List<T> {
    nodes: Pool<Node<T>>,
    sentinel: Ptr,
    ring: Ghost<Seq<usize>>,
}

impl<T> View for List<T> {
    type V = Seq<T>;

    /// The values held by the list, head first.
    open spec fn view(&self) -> Seq<T> {
        self.ring().map(|i: int, a: usize| self.node_at(a).value->0)
    }
}

impl<T> List<T> {
    /// The pool that owns this list's nodes.
    pub closed spec fn pool(self) -> Pool<Node<T>> {
        self.nodes
    }

    /// The handle of the sentinel, fixed at construction.
    pub closed spec fn sentinel_ptr(self) -> Ptr {
        self.sentinel
    }

    /// The addresses of the value nodes, in ring order starting at the head.
    pub closed spec fn ring(self) -> Seq<usize> {
        self.ring@
    }

    /// The identity of this list's pool.
    pub open spec fn id(self) -> PoolId {
        self.pool().id()
    }

    /// The handle this list would use for an address of its own pool.
    pub open spec fn ptr_at(self, addr: usize) -> Ptr {
        Ptr { addr, pool_id: self.id() }
    }

    /// The node stored at an address of this list's pool.
    pub open spec fn node_at(self, addr: usize) -> NodeView<T>
        recommends
            self.valid(self.ptr_at(addr)),
    {
        self.pool().contents()[addr as int]->0@
    }

    /// The addresses of the whole ring, sentinel first.
    pub open spec fn cycle(self) -> Seq<usize> {
        seq![self.sentinel_ptr().addr] + self.ring()
    }

    /// The address the next allocation in this list's pool will receive.
    pub open spec fn fresh_addr(self) -> usize {
        self.pool().contents().len() as usize
    }

    /// The cycle position after `i`, wrapping past the end.
    pub open spec fn cyc_next(self, i: int) -> int {
        if i + 1 == self.cycle().len() {
            0
        } else {
            i + 1
        }
    }

    /// The cycle position before `i`, wrapping past the start.
    pub open spec fn cyc_prev(self, i: int) -> int {
        if i == 0 {
            self.cycle().len() - 1
        } else {
            i - 1
        }
    }

    /// Whether a handle currently resolves to a node of this list: the
    /// sentinel or a live value node.
    pub open spec fn valid(self, p: Ptr) -> bool {
        self.pool().lives(p)
    }

    /// Whether a handle currently resolves to a live value node.
    pub open spec fn valid_value(self, p: Ptr) -> bool {
        self.valid(p) && self.node_at(p.addr).value is Some
    }

    /// The value carried by the live value node a handle denotes.
    pub open spec fn value_of(self, p: Ptr) -> T
        recommends
            self.valid_value(p),
    {
        self.node_at(p.addr).value->0
    }

    /// The position of a live value node's address within the ring.
    pub open spec fn pos_of(self, p: Ptr) -> int {
        self.ring().index_of(p.addr)
    }

    /// The ring position at which an insertion before `p` lands: before the
    /// sentinel means at the back.
    pub open spec fn insert_pos(self, p: Ptr) -> int {
        if p == self.sentinel_ptr() {
            self.ring().len() as int
        } else {
            self.pos_of(p)
        }
    }

    /// The address a caller reaches by asking for the head: the first value
    /// node, or the sentinel itself when the list is empty.
    pub open spec fn head_addr(self) -> usize {
        if self.ring().len() == 0 {
            self.sentinel_ptr().addr
        } else {
            self.ring()[0]
        }
    }

    /// The address a caller reaches by asking for the tail: the last value
    /// node, or the sentinel itself when the list is empty.
    pub open spec fn tail_addr(self) -> usize {
        if self.ring().len() == 0 {
            self.sentinel_ptr().addr
        } else {
            self.ring().last()
        }
    }

    /// The two links of the node at cycle position `i` point at its cyclic
    /// neighbours.
    pub open spec fn link_ok(self, i: int) -> bool {
        let c = self.cycle();
        &&& self.node_at(c[i]).next == self.ptr_at(c[self.cyc_next(i)])
        &&& self.node_at(c[i]).prev == self.ptr_at(c[self.cyc_prev(i)])
    }

    /// The ring invariant. The sentinel and every ring address are live in
    /// the pool; the sentinel holds no value while ring nodes hold one; no
    /// address appears twice; nothing else is live in the pool; and the
    /// `next`/`prev` links trace exactly the cycle, forwards and backwards.
    pub open spec fn wf(self) -> bool {
        let c = self.cycle();
        &&& self.id().raw() != 0
        &&& self.sentinel_ptr().pool_id == self.id()
        &&& self.valid(self.sentinel_ptr())
        &&& self.node_at(self.sentinel_ptr().addr).value is None
        &&& forall|i: int|
            0 <= i < self.ring().len() ==> #[trigger] self.valid_value(self.ptr_at(self.ring()[i]))
        &&& forall|i: int, j: int| 0 <= i < j < c.len() ==> c[i] != c[j]
        &&& forall|a: usize|
            a < self.pool().contents().len() && self.pool().contents()[a as int] is Some
                ==> #[trigger] c.contains(a)
        &&& forall|i: int| 0 <= i < c.len() ==> #[trigger] self.link_ok(i)
    }

    /// A fresh, empty list: a new pool holding only the sentinel, which is
    /// linked to itself in both directions.
    pub fn new() -> (s: Self)
        ensures
            s.wf(),
            s@ == Seq::<T>::empty(),
            s.ring() == Seq::<usize>::empty(),
            s.node_at(s.sentinel_ptr().addr).next == s.sentinel_ptr(),
            s.node_at(s.sentinel_ptr().addr).prev == s.sentinel_ptr(),
    {
        let mut nodes = Pool::<Node<T>>::new();
        let sp = nodes.allocate(Node { value: None, next: Ptr::dangling(), prev: Ptr::dangling() });
        let sn = nodes.get_mut(sp).unwrap();
        *sn = Node { value: None, next: sp, prev: sp };
        let s = List { nodes, sentinel: sp, ring: Ghost(Seq::empty()) };
        proof {
            assert(s.cycle() =~= seq![sp.addr]);
            assert(s.link_ok(0));
            assert(s@ =~= Seq::<T>::empty());
        }
        s
    }

    /// The handle of the sentinel: always valid, never holding a value.
    pub fn sentinel(&self) -> (r: Ptr)
        ensures
            r == self.sentinel_ptr(),
    {
        self.sentinel
    }

    /// A view of the first value node, or of the sentinel itself when the
    /// list is empty.
    pub fn head(&self) -> (r: Ref<'_, Node<T>>)
        requires
            self.wf(),
        ensures
            r.pool_id() == self.id(),
            r.addr() == self.head_addr(),
            r.value()@ == self.node_at(self.head_addr()),
            (r.value()@.value is None) <==> self@.len() == 0,
    {
        proof {
            assert(self.link_ok(0));
            if self.ring().len() > 0 {
                assert(self.valid_value(self.ptr_at(self.ring()[0])));
            }
        }
        let sref = self.nodes.get(self.sentinel).unwrap();
        let hptr = sref.get().next();
        self.nodes.get(hptr).unwrap()
    }

    /// A view of the last value node, or of the sentinel itself when the
    /// list is empty.
    pub fn tail(&self) -> (r: Ref<'_, Node<T>>)
        requires
            self.wf(),
        ensures
            r.pool_id() == self.id(),
            r.addr() == self.tail_addr(),
            r.value()@ == self.node_at(self.tail_addr()),
            (r.value()@.value is None) <==> self@.len() == 0,
    {
        proof {
            assert(self.link_ok(0));
            let n = self.ring().len() as int;
            if n > 0 {
                assert(self.cycle()[n] == self.ring()[n - 1]);
                assert(self.valid_value(self.ptr_at(self.ring()[n - 1])));
            }
        }
        let sref = self.nodes.get(self.sentinel).unwrap();
        let tptr = sref.get().prev();
        self.nodes.get(tptr).unwrap()
    }

    /// Whether the list holds no value, told by the head resolving to the
    /// sentinel.
    pub fn is_empty(&self) -> (r: bool)
        requires
            self.wf(),
        ensures
            r == (self@.len() == 0),
    {
        let h = self.head();
        h.get().is_sentinel()
    }

    /// Resolves a handle to a view of a live value node. The sentinel, a
    /// freed handle, and a handle of some other pool all yield nothing;
    /// state is never touched and no wrong node is ever surfaced.
    pub fn get<'a>(&'a self, p: Ptr) -> (r: Option<Ref<'a, Node<T>>>)
        ensures
            r is Some <==> self.valid_value(p),
            r matches Some(rf) ==> {
                &&& rf.addr() == p.addr
                &&& rf.pool_id() == p.pool_id
                &&& rf.value()@ == self.node_at(p.addr)
            },
    {
        match self.nodes.get(p) {
            Some(rf) => {
                if rf.get().is_sentinel() {
                    None
                } else {
                    Some(rf)
                }
            },
            None => None,
        }
    }

    /// Resolves a handle to a view of any live node of this list, the
    /// sentinel included.
    pub fn get_ref<'a>(&'a self, p: Ptr) -> (r: Option<Ref<'a, Node<T>>>)
        ensures
            r is Some <==> self.valid(p),
            r matches Some(rf) ==> {
                &&& rf.addr() == p.addr
                &&& rf.pool_id() == p.pool_id
                &&& rf.value()@ == self.node_at(p.addr)
            },
    {
        self.nodes.get(p)
    }
}

impl<T> List<T> {
    /// Every address on the cycle denotes a live node of this list's pool.
    proof fn lemma_cycle_live(self, i: int)
        requires
            self.wf(),
            0 <= i < self.cycle().len(),
        ensures
            self.valid(self.ptr_at(self.cycle()[i])),
            self.cycle()[i] < self.pool().contents().len(),
    {
        if i == 0 {
            assert(self.ptr_at(self.cycle()[0]) == self.sentinel_ptr());
        } else {
            assert(self.valid_value(self.ptr_at(self.ring()[i - 1])));
        }
    }

    /// On a well-formed cycle no address occurs twice, so looking an address
    /// up again yields the position it was read from.
    proof fn lemma_cycle_index(self, i: int)
        requires
            self.wf(),
            0 <= i < self.cycle().len(),
        ensures
            self.cycle().index_of(self.cycle()[i]) == i,
    {
        let c = self.cycle();
        assert(c.contains(c[i]));
        let j = c.index_of(c[i]);
        assert(0 <= j < c.len() && c[j] == c[i]);
        if j < i {
            assert(c[j] != c[i]);
        }
        if i < j {
            assert(c[i] != c[j]);
        }
    }

    /// Splices a new node holding `value` immediately before the node that
    /// `next_ptr` denotes: the standard four-pointer splice, in an order that
    /// never exposes an inconsistent ring.
    #[verifier::rlimit(100)]
    fn insert_before(&mut self, next_ptr: Ptr, value: T)
        requires
            old(self).wf(),
            old(self).valid(next_ptr),
        ensures
            final(self).wf(),
            final(self).sentinel_ptr() == old(self).sentinel_ptr(),
            final(self).id() == old(self).id(),
            final(self).ring() == old(self).ring().insert(
                old(self).insert_pos(next_ptr),
                old(self).fresh_addr(),
            ),
            final(self)@ == old(self)@.insert(old(self).insert_pos(next_ptr), value),
            final(self)@.len() == old(self)@.len() + 1,
            forall|q: Ptr| #[trigger] old(self).valid(q) ==> final(self).valid(q),
            forall|q: Ptr| #[trigger]
                old(self).valid_value(q) ==> final(self).valid_value(q) && final(self).value_of(q)
                    == old(self).value_of(q),
            final(self).valid_value(old(self).ptr_at(old(self).fresh_addr())),
            final(self).value_of(old(self).ptr_at(old(self).fresh_addr())) == value,
    {
        let ghost l0 = *self;
        let ghost c0 = l0.cycle();
        let ghost n = c0.len() as int;
        let ghost a = l0.fresh_addr();

        proof {
            assert(c0.contains(next_ptr.addr));
        }
        let ghost m = c0.index_of(next_ptr.addr);
        let ghost mm: int = if m == 0 { n } else { m };

        proof {
            assert(0 <= m < n && c0[m] == next_ptr.addr);
            assert(l0.link_ok(m));
            l0.lemma_cycle_live(l0.cyc_prev(m));
            // the cycle position of the old predecessor, uniformly mm - 1
            assert(l0.cyc_prev(m) == mm - 1);
            // where the fresh node's ring position comes from
            if next_ptr == l0.sentinel_ptr() {
                l0.lemma_cycle_index(0);
                assert(m == 0);
            } else {
                assert(next_ptr.pool_id == l0.id());
                assert(next_ptr.addr != l0.sentinel_ptr().addr);
                assert(m != 0);
                let j2 = l0.ring().index_of(next_ptr.addr);
                assert(l0.ring().contains(next_ptr.addr));
                assert(0 <= j2 < l0.ring().len() && l0.ring()[j2] == next_ptr.addr);
                assert(c0[j2 + 1] == next_ptr.addr);
                l0.lemma_cycle_index(m);
                if j2 + 1 != m {
                    assert(c0[j2 + 1] != c0[m]);
                }
                assert(l0.insert_pos(next_ptr) == m - 1);
            }
            assert(l0.insert_pos(next_ptr) == mm - 1);
        }

        let nref = self.nodes.get(next_ptr).unwrap();
        let prev_ptr = nref.get().prev();
        proof {
            assert(prev_ptr == l0.ptr_at(c0[mm - 1]));
            assert(l0.valid(prev_ptr));
        }
        let node_ptr = self.nodes.allocate(
            Node { value: Some(value), next: next_ptr, prev: prev_ptr },
        );
        let nn = self.nodes.get_mut(next_ptr).unwrap();
        nn.prev = node_ptr;
        let pn = self.nodes.get_mut(prev_ptr).unwrap();
        pn.next = node_ptr;
        self.ring = Ghost(l0.ring().insert(mm - 1, a));

        proof {
            let l1 = *self;
            let c1 = l1.cycle();
            let na = next_ptr.addr;
            let pa = prev_ptr.addr;

            // basic facts about the new pool contents
            let cc0 = l0.pool().contents();
            let cc1 = l1.pool().contents();
            assert(l1.id() == l0.id());
            assert(node_ptr == l0.ptr_at(a));
            assert(na < cc0.len() && pa < cc0.len());
            assert(cc1.len() == cc0.len() + 1);
            assert(forall|x: int|
                0 <= x < cc0.len() && x != na && x != pa ==> cc1[x] == #[trigger] cc0[x]);
            assert(l1.node_at(a) == NodeView { value: Some(value), next: next_ptr, prev: prev_ptr });
            if na == pa {
                assert(l1.node_at(na) == NodeView {
                    value: l0.node_at(na).value,
                    next: node_ptr,
                    prev: node_ptr,
                });
            } else {
                assert(l1.node_at(na) == NodeView {
                    value: l0.node_at(na).value,
                    next: l0.node_at(na).next,
                    prev: node_ptr,
                });
                assert(l1.node_at(pa) == NodeView {
                    value: l0.node_at(pa).value,
                    next: node_ptr,
                    prev: l0.node_at(pa).prev,
                });
            }
            // Some-ness is preserved everywhere and created at `a`
            assert(forall|x: int|
                0 <= x < cc0.len() ==> ((#[trigger] cc1[x] is Some) <==> cc0[x] is Some));
            assert(cc1[a as int] is Some);

            // the new cycle is the old one with `a` spliced in at position mm
            c0.insert_ensures(mm, a);
            l0.ring().insert_ensures(mm - 1, a);
            assert_seqs_equal!(c1 == c0.insert(mm, a), i => {
                if i <= mm - 1 {
                } else if i == mm {
                } else {
                }
            });
            assert(c1.len() == n + 1);

            // every old cycle address is below the fresh one
            assert forall|i: int| 0 <= i < n implies c0[i] < a by {
                l0.lemma_cycle_live(i);
            };

            // index map between the cycles
            assert(forall|i: int| 0 <= i < mm ==> #[trigger] c1[i] == c0[i]);
            assert(c1[mm] == a);
            assert(forall|i: int| mm < i <= n ==> #[trigger] c1[i] == c0[i - 1]);

            // distinctness of the new cycle
            assert forall|i: int, j: int| 0 <= i < j < c1.len() implies c1[i] != c1[j] by {
                if j == mm {
                    assert(c1[i] < a);
                } else if i == mm {
                    assert(c1[j] < a);
                }
            };

            // sentinel unchanged, still first, still valueless
            assert(l1.sentinel_ptr() == l0.sentinel_ptr());
            assert(l1.node_at(l1.sentinel_ptr().addr).value is None);
            assert(l1.valid(l1.sentinel_ptr()));

            // ring members are live value nodes
            assert forall|i: int| 0 <= i < l1.ring().len() implies #[trigger] l1.valid_value(
                l1.ptr_at(l1.ring()[i]),
            ) by {
                let x = l1.ring()[i];
                assert(x == c1[i + 1]);
                if i + 1 == mm {
                    assert(x == a);
                } else {
                    let i0 = if i + 1 < mm { i + 1 } else { i };
                    assert(x == c0[i0]);
                    l0.lemma_cycle_live(i0);
                    if i0 == 0 {
                        assert(false);
                    }
                    assert(l0.valid_value(l0.ptr_at(l0.ring()[i0 - 1])));
                }
            };

            // nothing else is live in the pool
            assert forall|x: usize|
                x < cc1.len() && cc1[x as int] is Some implies #[trigger] c1.contains(x) by {
                if x as int == a as int {
                    assert(c1[mm] == x);
                } else {
                    assert(cc0[x as int] is Some);
                    assert(c0.contains(x));
                    let i = c0.index_of(x);
                    if i < mm {
                        assert(c1[i] == x);
                    } else {
                        assert(c1[i + 1] == x);
                    }
                }
            };

            // the links trace the new cycle
            assert forall|i: int| 0 <= i < c1.len() implies #[trigger] l1.link_ok(i) by {
                let x = c1[i];
                if i == mm {
                    // the fresh node: next is the old node, prev the old predecessor
                    assert(x == a);
                    assert(c1[l1.cyc_next(mm)] == na);
                    assert(c1[l1.cyc_prev(mm)] == pa);
                } else {
                    let i0 = if i < mm { i } else { i - 1 };
                    assert(x == c0[i0]);
                    assert(l0.link_ok(i0));
                    // next link: patched only at the old predecessor, cycle spot mm - 1
                    if i == mm - 1 {
                        assert(x == pa);
                        assert(l1.node_at(x).next == node_ptr);
                        assert(c1[l1.cyc_next(i)] == a);
                    } else {
                        assert(l1.node_at(x).next == l0.node_at(x).next);
                        assert(l0.node_at(x).next == l0.ptr_at(c0[l0.cyc_next(i0)]));
                        assert(c1[l1.cyc_next(i)] == c0[l0.cyc_next(i0)]);
                    }
                    // prev link: patched only at the spliced-before node, old cycle spot m
                    if i0 == m {
                        assert(x == na);
                        assert(l1.node_at(x).prev == node_ptr);
                        assert(c1[l1.cyc_prev(i)] == a);
                    } else {
                        assert(l1.node_at(x).prev == l0.node_at(x).prev);
                        assert(l0.node_at(x).prev == l0.ptr_at(c0[l0.cyc_prev(i0)]));
                        assert(c1[l1.cyc_prev(i)] == c0[l0.cyc_prev(i0)]);
                    }
                }
            };

            assert(l1.wf());

            // no node's value moved: the two patches touched links only
            assert forall|x: usize| x < cc0.len() implies l1.node_at(x).value == l0.node_at(
                x,
            ).value by {};

            // the abstract value sequence got `value` at the insertion spot
            l0@.insert_ensures(mm - 1, value);
            assert_seqs_equal!(l1@ == l0@.insert(mm - 1, value), i => {
                if i < mm - 1 {
                    assert(l1.ring()[i] == l0.ring()[i]);
                    assert(l0.valid_value(l0.ptr_at(l0.ring()[i])));
                } else if i == mm - 1 {
                    assert(l1.ring()[i] == a);
                } else {
                    assert(l1.ring()[i] == l0.ring()[i - 1]);
                    assert(l0.valid_value(l0.ptr_at(l0.ring()[i - 1])));
                }
            });
        }
    }

    /// Inserts a new value node immediately before the node `pos` denotes;
    /// inserting before the sentinel appends at the back. Fails with `false`,
    /// mutating nothing, when `pos` does not currently resolve in this list's
    /// pool: a freed or foreign handle never mutates state.
    pub fn insert(&mut self, pos: Ptr, value: T) -> (r: bool)
        requires
            old(self).wf(),
        ensures
            final(self).wf(),
            r == old(self).valid(pos),
            !r ==> *final(self) == *old(self),
            final(self).sentinel_ptr() == old(self).sentinel_ptr(),
            final(self).id() == old(self).id(),
            r ==> final(self).ring() == old(self).ring().insert(
                old(self).insert_pos(pos),
                old(self).fresh_addr(),
            ),
            r ==> final(self)@ == old(self)@.insert(old(self).insert_pos(pos), value),
            r ==> final(self)@.len() == old(self)@.len() + 1,
            forall|q: Ptr| #[trigger] old(self).valid(q) ==> final(self).valid(q),
            forall|q: Ptr| #[trigger]
                old(self).valid_value(q) ==> final(self).valid_value(q) && final(self).value_of(q)
                    == old(self).value_of(q),
            r ==> final(self).valid_value(old(self).ptr_at(old(self).fresh_addr()))
                && final(self).value_of(old(self).ptr_at(old(self).fresh_addr())) == value,
    {
        if self.nodes.get(pos).is_some() {
            self.insert_before(pos, value);
            true
        } else {
            false
        }
    }

    /// Appends a value at the back: an insertion immediately before the
    /// sentinel. The list is never empty afterwards.
    pub fn push_back(&mut self, value: T)
        requires
            old(self).wf(),
        ensures
            final(self).wf(),
            final(self)@ == old(self)@.push(value),
            final(self)@.len() == old(self)@.len() + 1,
            final(self).sentinel_ptr() == old(self).sentinel_ptr(),
            final(self).id() == old(self).id(),
            final(self).ring() == old(self).ring().push(old(self).fresh_addr()),
            forall|q: Ptr| #[trigger] old(self).valid(q) ==> final(self).valid(q),
            forall|q: Ptr| #[trigger]
                old(self).valid_value(q) ==> final(self).valid_value(q) && final(self).value_of(q)
                    == old(self).value_of(q),
            final(self).valid_value(old(self).ptr_at(old(self).fresh_addr())),
            final(self).value_of(old(self).ptr_at(old(self).fresh_addr())) == value,
    {
        let ghost l0 = *self;
        let sp = self.sentinel;
        self.insert_before(sp, value);
        proof {
            assert_seqs_equal!(self.ring() == l0.ring().push(l0.fresh_addr()));
            assert_seqs_equal!(self@ == l0@.push(value));
        }
    }

    /// Prepends a value at the front: an insertion immediately after the
    /// sentinel, that is, before the old head. The list is never empty
    /// afterwards.
    pub fn push_front(&mut self, value: T)
        requires
            old(self).wf(),
        ensures
            final(self).wf(),
            final(self)@ == old(self)@.insert(0, value),
            final(self)@.len() == old(self)@.len() + 1,
            final(self).sentinel_ptr() == old(self).sentinel_ptr(),
            final(self).id() == old(self).id(),
            final(self).ring() == old(self).ring().insert(0, old(self).fresh_addr()),
            forall|q: Ptr| #[trigger] old(self).valid(q) ==> final(self).valid(q),
            forall|q: Ptr| #[trigger]
                old(self).valid_value(q) ==> final(self).valid_value(q) && final(self).value_of(q)
                    == old(self).value_of(q),
            final(self).valid_value(old(self).ptr_at(old(self).fresh_addr())),
            final(self).value_of(old(self).ptr_at(old(self).fresh_addr())) == value,
    {
        let ghost l0 = *self;
        let sref = self.nodes.get(self.sentinel).unwrap();
        let hptr = sref.get().next();
        proof {
            assert(l0.link_ok(0));
            l0.lemma_cycle_live(l0.cyc_next(0));
            if l0.ring().len() == 0 {
                assert(hptr == l0.ptr_at(l0.sentinel_ptr().addr));
                assert(hptr == l0.sentinel_ptr());
                assert(l0.insert_pos(hptr) == 0);
            } else {
                assert(hptr == l0.ptr_at(l0.ring()[0]));
                assert(l0.cycle()[1] != l0.cycle()[0]);
                assert(hptr != l0.sentinel_ptr());
                let j = l0.ring().index_of(hptr.addr);
                assert(l0.ring().contains(hptr.addr));
                assert(0 <= j < l0.ring().len() && l0.ring()[j] == hptr.addr);
                if j != 0 {
                    assert(l0.cycle()[j + 1] == l0.cycle()[1]);
                    l0.lemma_cycle_index(1);
                    l0.lemma_cycle_index(j + 1);
                }
                assert(l0.insert_pos(hptr) == 0);
            }
        }
        self.insert_before(hptr, value);
    }

    /// Removes the live value node `pos` denotes and returns a view of the
    /// node that now sits at that ring position: the removed node's old
    /// successor, so a traversal can continue without re-deriving the head.
    /// The sentinel, a freed handle, and a handle of some other pool all
    /// yield nothing, and nothing is mutated for them.
    #[verifier::rlimit(100)]
    pub fn remove(&mut self, pos: Ptr) -> (r: Option<Ref<'_, Node<T>>>)
        requires
            old(self).wf(),
        ensures
            final(self).wf(),
            r is Some <==> old(self).valid_value(pos),
            r is None ==> *final(self) == *old(self),
            final(self).sentinel_ptr() == old(self).sentinel_ptr(),
            final(self).id() == old(self).id(),
            r is Some ==> {
                &&& final(self).ring() == old(self).ring().remove(old(self).pos_of(pos))
                &&& final(self)@ == old(self)@.remove(old(self).pos_of(pos))
                &&& final(self)@.len() == old(self)@.len() - 1
                &&& !final(self).valid(pos)
            },
            forall|q: Ptr| q != pos && #[trigger] old(self).valid(q) ==> final(self).valid(q),
            forall|q: Ptr| q != pos && #[trigger]
                old(self).valid_value(q) ==> final(self).valid_value(q) && final(self).value_of(q)
                    == old(self).value_of(q),
            r matches Some(rf) ==> {
                &&& rf.pool_id() == old(self).id()
                &&& rf.addr() == old(self).node_at(pos.addr).next.addr
                &&& rf.addr() == if old(self).pos_of(pos) < final(self).ring().len() {
                    final(self).ring()[old(self).pos_of(pos)]
                } else {
                    final(self).sentinel_ptr().addr
                }
                &&& rf.value()@ == final(self).node_at(rf.addr())
            },
    {
        let ghost l0 = *self;
        let ghost c0 = l0.cycle();
        let ghost n = c0.len() as int;

        // resolve and validate: only a live value node may leave the ring
        let mut next_ptr = Ptr::dangling();
        let mut prev_ptr = Ptr::dangling();
        let mut is_val = false;
        match self.nodes.get(pos) {
            Some(rf) => {
                let node = rf.get();
                if !node.is_sentinel() {
                    next_ptr = node.next();
                    prev_ptr = node.prev();
                    is_val = true;
                }
            },
            None => {},
        }
        if !is_val {
            return None;
        }

        proof {
            assert(c0.contains(pos.addr));
        }
        let ghost m = c0.index_of(pos.addr);
        let ghost k = m - 1;

        proof {
            assert(0 <= m < n && c0[m] == pos.addr);
            if m == 0 {
                assert(pos == l0.ptr_at(l0.sentinel_ptr().addr));
                assert(l0.node_at(pos.addr).value is None);
            }
            assert(m >= 1);
            assert(l0.link_ok(m));
            l0.lemma_cycle_live(l0.cyc_next(m));
            l0.lemma_cycle_live(l0.cyc_prev(m));
            assert(next_ptr == l0.ptr_at(c0[l0.cyc_next(m)]));
            assert(prev_ptr == l0.ptr_at(c0[l0.cyc_prev(m)]));
            // the ring position of the leaving node
            let j = l0.ring().index_of(pos.addr);
            assert(l0.ring().contains(pos.addr));
            assert(0 <= j < l0.ring().len() && l0.ring()[j] == pos.addr);
            if j != k {
                assert(c0[j + 1] == c0[m]);
                l0.lemma_cycle_index(m);
                l0.lemma_cycle_index(j + 1);
            }
            assert(l0.pos_of(pos) == k);
            // the neighbours stay live: they sit at other cycle positions
            assert(l0.cyc_next(m) != m && l0.cyc_prev(m) != m);
            assert(next_ptr.addr != pos.addr && prev_ptr.addr != pos.addr);
        }

        let freed = self.nodes.free(pos);
        proof {
            assert(freed);
        }
        let nn = self.nodes.get_mut(next_ptr).unwrap();
        nn.prev = prev_ptr;
        let pn = self.nodes.get_mut(prev_ptr).unwrap();
        pn.next = next_ptr;
        self.ring = Ghost(l0.ring().remove(k));

        proof {
            let l1 = *self;
            let c1 = l1.cycle();
            let na = next_ptr.addr;
            let pa = prev_ptr.addr;
            let cc0 = l0.pool().contents();
            let cc1 = l1.pool().contents();

            assert(l1.id() == l0.id());
            assert(na < cc0.len() && pa < cc0.len());
            assert(cc1.len() == cc0.len());
            assert(forall|x: int|
                0 <= x < cc0.len() && x != na && x != pa && x != pos.addr
                    ==> cc1[x] == #[trigger] cc0[x]);
            if na == pa {
                assert(l1.node_at(na) == NodeView {
                    value: l0.node_at(na).value,
                    next: next_ptr,
                    prev: prev_ptr,
                });
            } else {
                assert(l1.node_at(na) == NodeView {
                    value: l0.node_at(na).value,
                    next: l0.node_at(na).next,
                    prev: prev_ptr,
                });
                assert(l1.node_at(pa) == NodeView {
                    value: l0.node_at(pa).value,
                    next: next_ptr,
                    prev: l0.node_at(pa).prev,
                });
            }
            // exactly one address died
            assert(forall|x: int|
                0 <= x < cc0.len() && x != pos.addr ==> ((#[trigger] cc1[x] is Some) <==> cc0[x]
                    is Some));
            assert(cc1[pos.addr as int] is None);

            // every cycle address denotes a slot of the pool
            assert forall|i: int| 0 <= i < n implies c0[i] < cc0.len() by {
                l0.lemma_cycle_live(i);
            };

            // the new cycle is the old one without position m
            c0.remove_ensures(m);
            l0.ring().remove_ensures(k);
            assert_seqs_equal!(c1 == c0.remove(m), i => {
                if i < m {
                } else {
                }
            });
            assert(c1.len() == n - 1);
            assert(forall|i: int| 0 <= i < m ==> #[trigger] c1[i] == c0[i]);
            assert(forall|i: int| m <= i < n - 1 ==> #[trigger] c1[i] == c0[i + 1]);

            // distinctness survives taking an element out
            assert forall|i: int, j: int| 0 <= i < j < c1.len() implies c1[i] != c1[j] by {
                let i0 = if i < m { i } else { i + 1 };
                let j0 = if j < m { j } else { j + 1 };
                assert(c1[i] == c0[i0] && c1[j] == c0[j0]);
            };

            // sentinel untouched and still valueless
            assert(l1.sentinel_ptr() == l0.sentinel_ptr());
            assert(l1.sentinel_ptr().addr == c0[0]);
            assert(l1.sentinel_ptr().addr != pos.addr);
            assert(l1.node_at(l1.sentinel_ptr().addr).value is None);
            assert(l1.valid(l1.sentinel_ptr()));

            // ring members are still live value nodes
            assert forall|i: int| 0 <= i < l1.ring().len() implies #[trigger] l1.valid_value(
                l1.ptr_at(l1.ring()[i]),
            ) by {
                let i0 = if i + 1 < m { i + 1 } else { i + 2 };
                assert(l1.ring()[i] == c1[i + 1]);
                assert(c1[i + 1] == c0[i0]);
                assert(l0.valid_value(l0.ptr_at(l0.ring()[i0 - 1])));
                assert(c0[i0] != pos.addr);
            };

            // nothing else is live in the pool
            assert forall|x: usize|
                x < cc1.len() && cc1[x as int] is Some implies #[trigger] c1.contains(x) by {
                assert(x as int != pos.addr as int);
                assert(cc0[x as int] is Some);
                assert(c0.contains(x));
                let i = c0.index_of(x);
                l0.lemma_cycle_index(m);
                if i < m {
                    assert(c1[i] == x);
                } else {
                    assert(c1[i - 1] == x);
                }
            };

            // the links trace the shortened cycle
            assert forall|i: int| 0 <= i < c1.len() implies #[trigger] l1.link_ok(i) by {
                let x = c1[i];
                let i0 = if i < m { i } else { i + 1 };
                assert(x == c0[i0]);
                assert(l0.link_ok(i0));
                // x survives, so it is not the freed address
                if i0 < m {
                    assert(c0[i0] != c0[m]);
                } else {
                    assert(c0[m] != c0[i0]);
                }
                assert(x != pos.addr);
                // away from the splice point, x is neither patched neighbour
                let mn = l0.cyc_next(m);
                if i0 < m - 1 {
                    assert(c0[i0] != c0[m - 1]);
                } else if i0 > m - 1 {
                    assert(c0[m - 1] != c0[i0]);
                }
                if i0 < mn {
                    assert(c0[i0] != c0[mn]);
                } else if i0 > mn {
                    assert(c0[mn] != c0[i0]);
                }
                assert(i != m - 1 ==> x != pa);
                assert(i0 != mn ==> x != na);
                // next link: patched only at the old predecessor, spot m - 1
                if i == m - 1 {
                    assert(x == pa);
                    assert(l1.node_at(x).next == next_ptr);
                    assert(c1[l1.cyc_next(i)] == na);
                } else {
                    assert(l1.node_at(x).next == l0.node_at(x).next);
                    assert(l0.node_at(x).next == l0.ptr_at(c0[l0.cyc_next(i0)]));
                    assert(c1[l1.cyc_next(i)] == c0[l0.cyc_next(i0)]);
                }
                // prev link: patched only at the old successor
                if i0 == l0.cyc_next(m) {
                    assert(x == na);
                    assert(l1.node_at(x).prev == prev_ptr);
                    assert(c1[l1.cyc_prev(i)] == pa);
                } else {
                    assert(l1.node_at(x).prev == l0.node_at(x).prev);
                    assert(l0.node_at(x).prev == l0.ptr_at(c0[l0.cyc_prev(i0)]));
                    assert(c1[l1.cyc_prev(i)] == c0[l0.cyc_prev(i0)]);
                }
            };

            assert(l1.wf());

            // no surviving node's value moved
            assert forall|x: usize|
                x < cc0.len() && x != pos.addr implies l1.node_at(x).value == l0.node_at(
                x,
            ).value by {};

            // the abstract value sequence lost the entry at the removed spot
            l0@.remove_ensures(k);
            assert_seqs_equal!(l1@ == l0@.remove(k), i => {
                if i < k {
                    assert(l1.ring()[i] == l0.ring()[i]);
                    assert(l0.valid_value(l0.ptr_at(l0.ring()[i])));
                    assert(c0[i + 1] != c0[m]);
                    assert(l1.ring()[i] != pos.addr);
                } else {
                    assert(l1.ring()[i] == l0.ring()[i + 1]);
                    assert(l0.valid_value(l0.ptr_at(l0.ring()[i + 1])));
                    assert(c0[m] != c0[i + 2]);
                    assert(l1.ring()[i] != pos.addr);
                }
            });
        }

        let out = self.nodes.get(next_ptr).unwrap();
        proof {
            // where the successor now sits in the ring
            let l1 = *self;
            if k < l1.ring().len() {
                assert(l1.ring()[k] == l1.cycle()[k + 1]);
                assert(l1.cycle()[k + 1] == c0[m + 1]);
                assert(next_ptr.addr == c0[l0.cyc_next(m)]);
            } else {
                assert(m == n - 1);
                assert(l0.cyc_next(m) == 0);
            }
        }
        Some(out)
    }

    /// Resolves a handle to an exclusive, value-only view of a live value
    /// node: the ring's topology cannot be reached through it, so the ring
    /// invariant survives any mutation of the value. The sentinel, a freed
    /// handle, and a handle of some other pool all yield nothing.
    #[verifier::rlimit(100)]
    pub fn get_mut(&mut self, p: Ptr) -> (r: Option<&'_ mut T>)
        requires
            old(self).wf(),
        ensures
            final(self).wf(),
            r is Some <==> old(self).valid_value(p),
            r is None ==> *final(self) == *old(self),
            final(self).sentinel_ptr() == old(self).sentinel_ptr(),
            final(self).id() == old(self).id(),
            final(self).ring() == old(self).ring(),
            r is Some ==> *r.unwrap() == old(self).value_of(p),
            r is Some ==> final(self)@ == old(self)@.update(
                old(self).pos_of(p),
                final(self).value_of(p),
            ),
            r is Some ==> final(self).valid_value(p),
            r is Some ==> final(self).value_of(p) == *final(r.unwrap()),
            forall|q: Ptr| #[trigger] old(self).valid(q) ==> final(self).valid(q),
            forall|q: Ptr| q != p && #[trigger]
                old(self).valid_value(q) ==> final(self).valid_value(q) && final(self).value_of(q)
                    == old(self).value_of(q),
    {
        let mut live = false;
        match self.nodes.get(p) {
            Some(rf) => {
                if !rf.get().is_sentinel() {
                    live = true;
                }
            },
            None => {},
        }
        if !live {
            return None;
        }
        let ghost l0 = *self;
        let ghost c0 = l0.cycle();

        proof {
            // locate p on the ring
            assert(c0.contains(p.addr));
            let m = c0.index_of(p.addr);
            assert(0 <= m < c0.len() && c0[m] == p.addr);
            if m == 0 {
                assert(p == l0.ptr_at(l0.sentinel_ptr().addr));
                assert(l0.node_at(p.addr).value is None);
            }
            assert(m >= 1);
            let j = l0.ring().index_of(p.addr);
            assert(l0.ring().contains(p.addr));
            assert(0 <= j < l0.ring().len() && l0.ring()[j] == p.addr);
            if j != m - 1 {
                assert(c0[j + 1] == c0[m]);
                l0.lemma_cycle_index(m);
                l0.lemma_cycle_index(j + 1);
            }
            assert(l0.pos_of(p) == m - 1);
            assert forall|i: int| 0 <= i < c0.len() implies c0[i]
                < l0.pool().contents().len() by {
                l0.lemma_cycle_live(i);
            };

            // rewriting the stored value, and nothing else, keeps the ring
            // invariant, whatever the new value turns out to be
            assert forall|l1: List<T>|
                ({
                    &&& l1.id() == l0.id()
                    &&& l1.sentinel_ptr() == l0.sentinel_ptr()
                    &&& l1.ring() == l0.ring()
                    &&& l1.pool().contents().len() == l0.pool().contents().len()
                    &&& forall|x: usize|
                        x < l0.pool().contents().len() && x != p.addr
                            ==> #[trigger] l1.node_at(x) == l0.node_at(x)
                    &&& forall|x: int|
                        0 <= x < l0.pool().contents().len() && x != p.addr ==> ((
                        #[trigger] l1.pool().contents()[x] is Some) <==> l0.pool().contents()[x]
                            is Some)
                    &&& l1.pool().contents()[p.addr as int] is Some
                    &&& l1.node_at(p.addr).next == l0.node_at(p.addr).next
                    &&& l1.node_at(p.addr).prev == l0.node_at(p.addr).prev
                    &&& l1.node_at(p.addr).value is Some
                }) implies #[trigger] l1.wf() && l1@ == l0@.update(
                m - 1,
                l1.node_at(p.addr).value->0,
            ) by {
                assert(l1.cycle() == c0);
                assert(c0[0] != c0[m]);
                assert(l1.node_at(l1.sentinel_ptr().addr).value is None);
                assert(l1.valid(l1.sentinel_ptr()));
                assert forall|i: int| 0 <= i < l1.ring().len() implies #[trigger] l1.valid_value(
                    l1.ptr_at(l1.ring()[i]),
                ) by {
                    assert(l0.valid_value(l0.ptr_at(l0.ring()[i])));
                };
                assert forall|x: usize|
                    x < l1.pool().contents().len() && l1.pool().contents()[x as int]
                        is Some implies #[trigger] c0.contains(x) by {
                    assert(l0.pool().contents()[x as int] is Some);
                };
                assert forall|i: int| 0 <= i < c0.len() implies #[trigger] l1.link_ok(i) by {
                    assert(l0.link_ok(i));
                };
                assert(l1.wf());
                assert_seqs_equal!(l1@ == l0@.update(m - 1, l1.node_at(p.addr).value->0), i => {
                    assert(l1.ring()[i] == c0[i + 1]);
                    assert(l0.valid_value(l0.ptr_at(l0.ring()[i])));
                    if i != m - 1 {
                        if i + 1 < m {
                            assert(c0[i + 1] != c0[m]);
                        } else {
                            assert(c0[m] != c0[i + 1]);
                        }
                    }
                });
            };
        }
        let node = self.nodes.get_mut(p).unwrap();
        match &mut node.value {
            Some(v) => Some(v),
            None => None,
        }
    }

    /// The deliberately unchecked escape hatch: an exclusive view of a whole
    /// node, topology fields included. Nothing ties what is written through
    /// it to the ring invariant — in particular, swapping the nodes of two
    /// different lists in one step leaves both rings pointing into the wrong
    /// pool — so, unlike every other operation here, this one promises no
    /// well-formedness afterwards. The caller carries that obligation alone.
    pub fn get_mut_unchecked(&mut self, p: Ptr) -> (r: Option<&'_ mut Node<T>>)
        ensures
            r is Some <==> old(self).valid(p),
            r is None ==> *final(self) == *old(self),
            final(self).sentinel_ptr() == old(self).sentinel_ptr(),
            final(self).id() == old(self).id(),
            final(self).ring() == old(self).ring(),
            r is Some ==> {
                &&& (*r.unwrap())@ == old(self).node_at(p.addr)
                &&& final(self).pool().contents() == old(self).pool().contents().update(
                    p.addr as int,
                    Some(*final(r.unwrap())),
                )
            },
    {
        let live = self.nodes.get(p).is_some();
        if live {
            self.nodes.get_mut(p)
        } else {
            None
        }
    }
}

impl<T> List<T> {
    /// The handle reached from `p` by following `next` exactly `steps` times.
    pub open spec fn next_walk(self, p: Ptr, steps: nat) -> Ptr
        decreases steps,
    {
        if steps == 0 {
            p
        } else {
            self.next_walk(self.node_at(p.addr).next, (steps - 1) as nat)
        }
    }

    /// The handle reached from `p` by following `prev` exactly `steps` times.
    pub open spec fn prev_walk(self, p: Ptr, steps: nat) -> Ptr
        decreases steps,
    {
        if steps == 0 {
            p
        } else {
            self.prev_walk(self.node_at(p.addr).prev, (steps - 1) as nat)
        }
    }

    /// Walking `next` moves forward along the cycle, one position per step,
    /// wrapping back to the front after the last position.
    proof fn lemma_next_walk_from(self, i: int, j: nat)
        requires
            self.wf(),
            0 <= i < self.cycle().len(),
            i + j <= self.cycle().len(),
        ensures
            self.next_walk(self.ptr_at(self.cycle()[i]), j) == if i + j < self.cycle().len() {
                self.ptr_at(self.cycle()[i + j])
            } else {
                self.ptr_at(self.cycle()[0])
            },
        decreases j,
    {
        if j > 0 {
            assert(self.link_ok(i));
            if i + 1 < self.cycle().len() {
                self.lemma_next_walk_from(i + 1, (j - 1) as nat);
            } else {
                self.lemma_next_walk_from(0, (j - 1) as nat);
            }
        }
    }

    /// Walking `prev` moves backward along the cycle, one position per step,
    /// while there is room before the front.
    proof fn lemma_prev_walk_from(self, i: int, j: nat)
        requires
            self.wf(),
            0 <= i < self.cycle().len(),
            j <= i,
        ensures
            self.prev_walk(self.ptr_at(self.cycle()[i]), j) == self.ptr_at(self.cycle()[i - j]),
        decreases j,
    {
        if j > 0 {
            assert(self.link_ok(i));
            self.lemma_prev_walk_from(i - 1, (j - 1) as nat);
        }
    }

    /// The ring closes. With k live value nodes, following `next` from the
    /// sentinel visits exactly the value nodes in list order and returns to
    /// the sentinel on step k + 1; following `prev` visits them in the exact
    /// reverse order and also returns to the sentinel on step k + 1. Forward
    /// and backward traversal thus agree on membership and on order,
    /// reversed.
    pub proof fn lemma_ring_round_trip(self)
        requires
            self.wf(),
        ensures
            self.next_walk(self.sentinel_ptr(), (self@.len() + 1) as nat) == self.sentinel_ptr(),
            self.prev_walk(self.sentinel_ptr(), (self@.len() + 1) as nat) == self.sentinel_ptr(),
            forall|i: int|
                0 <= i < self@.len() ==> #[trigger] self.next_walk(
                    self.sentinel_ptr(),
                    (i + 1) as nat,
                ) == self.ptr_at(self.ring()[i]),
            forall|i: int|
                0 <= i < self@.len() ==> #[trigger] self.prev_walk(
                    self.sentinel_ptr(),
                    (i + 1) as nat,
                ) == self.ptr_at(self.ring()[self@.len() - 1 - i]),
    {
        let n = self.cycle().len() as int;
        let s = self.sentinel_ptr();
        assert(self.ptr_at(self.cycle()[0]) == s);
        self.lemma_next_walk_from(0, n as nat);
        assert forall|i: int| 0 <= i < self@.len() implies #[trigger] self.next_walk(
            s,
            (i + 1) as nat,
        ) == self.ptr_at(self.ring()[i]) by {
            self.lemma_next_walk_from(0, (i + 1) as nat);
        };
        // one step back from the sentinel lands on the cycle's last position
        assert(self.link_ok(0));
        if n == 1 {
            assert(self.prev_walk(s, 1) == self.prev_walk(self.node_at(s.addr).prev, 0));
            assert(self.node_at(s.addr).prev == self.ptr_at(self.cycle()[0]));
        } else {
            assert forall|i: int| 0 <= i < self@.len() implies #[trigger] self.prev_walk(
                s,
                (i + 1) as nat,
            ) == self.ptr_at(self.ring()[self@.len() - 1 - i]) by {
                assert(self.prev_walk(s, (i + 1) as nat) == self.prev_walk(
                    self.ptr_at(self.cycle()[n - 1]),
                    i as nat,
                ));
                self.lemma_prev_walk_from(n - 1, i as nat);
            };
            assert(self.prev_walk(s, (self@.len() + 1) as nat) == self.prev_walk(
                self.ptr_at(self.cycle()[n - 1]),
                self@.len() as nat,
            ));
            self.lemma_prev_walk_from(n - 1, (n - 1) as nat);
        }
    }

    /// A handle whose provenance tag is not this list's — one from another
    /// list's pool, or the dangling handle — resolves to nothing here, so by
    /// the contracts of `get`, `get_ref`, `get_mut`, `insert` and `remove`
    /// it is rejected outright: an absent or false result, no mutation, and
    /// never another node's data.
    pub proof fn lemma_foreign_handle_invalid(self, p: Ptr)
        requires
            p.pool_id != self.id(),
        ensures
            !self.valid(p),
            !self.valid_value(p),
    {
    }

    /// An emptied list is observably a freshly built one: once no value node
    /// is left — however many were pushed and removed, in whatever order —
    /// the sentinel links to itself in both directions, and head and tail
    /// both resolve to the sentinel, exactly as at construction.
    pub proof fn lemma_empty_ring(self)
        requires
            self.wf(),
            self@.len() == 0,
        ensures
            self.node_at(self.sentinel_ptr().addr).next == self.sentinel_ptr(),
            self.node_at(self.sentinel_ptr().addr).prev == self.sentinel_ptr(),
            self.head_addr() == self.sentinel_ptr().addr,
            self.tail_addr() == self.sentinel_ptr().addr,
    {
        assert(self.link_ok(0));
    }
}

} // verus!
