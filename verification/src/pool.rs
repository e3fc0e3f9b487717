//! The pool: an allocator that owns a collection of values and hands out
//! copyable handles with stable addresses and a provenance tag.
//!
//! A freed address is never reused for a later allocation, so a stale handle
//! can never come to denote a fresh object.

use vstd::prelude::*;

verus! {

/// Identity token of a pool instance, used for runtime provenance checks.
/// The reserved zero value is never issued to a real pool.
#[derive(Clone, Copy, PartialEq, Eq, Structural, Debug, Hash)]
pub struct PoolId {
    raw: u64,
}

/// Relies on rand 0.8's `rand::random` to draw a value; nothing is assumed
/// about which value comes back.
pub assume_specification<T>[ rand::random::<T> ]() -> (r: T)
    where
        rand::distributions::Standard: rand::distributions::Distribution<T>,
;

impl PoolId {
    pub closed spec fn raw(self) -> u64 {
        self.raw
    }

    /// A fresh identity for a new pool: drawn at random, never the reserved
    /// zero value.
    pub(crate) fn gen() -> (r: PoolId)
        ensures
            r.raw() != 0,
    {
        let raw: u64 = rand::random();
        if raw == 0 {
            PoolId { raw: 1 }
        } else {
            PoolId { raw }
        }
    }
}

/// A copyable, comparable handle to a pool-resident object: a stable address
/// plus the identity of the pool that issued it. A handle carries no borrow;
/// it is plain bookkeeping, safe to store inside other pooled objects.
#[derive(Clone, Copy, PartialEq, Eq, Structural, Debug, Hash)]
pub struct Ptr {
    pub addr: usize,
    pub pool_id: PoolId,
}

impl Ptr {
    /// A handle that no pool ever issued: it carries the reserved identity,
    /// so it resolves in no pool.
    pub fn dangling() -> (r: Ptr)
        ensures
            r.addr == 0,
            r.pool_id.raw() == 0,
    {
        Ptr { addr: 0, pool_id: PoolId { raw: 0 } }
    }
}

/// A read-only view of a pool-resident value, bound to a borrow of the pool
/// that produced it. It remembers the value's address and the pool's identity,
/// so it can be turned back into a [`Ptr`] without losing identity.
#[derive(Clone, Copy)]
pub struct Ref<'a, T> {
    pub(crate) value: &'a T,
    pub(crate) addr: usize,
    pub(crate) pool_id: PoolId,
}

impl<'a, T> Ref<'a, T> {
    /// The value this view denotes.
    pub closed spec fn value(self) -> T {
        *self.value
    }

    /// The stable address the view was resolved at.
    pub closed spec fn addr(self) -> usize {
        self.addr
    }

    /// The identity of the pool the view came from.
    pub closed spec fn pool_id(self) -> PoolId {
        self.pool_id
    }

    /// The borrowed value, for the full lifetime of the pool borrow.
    pub fn get(&self) -> (r: &'a T)
        ensures
            *r == self.value(),
    {
        self.value
    }
}

impl<'a, T> From<Ref<'a, T>> for Ptr {
    /// Recovers the handle that this view was resolved from.
    fn from(src: Ref<'a, T>) -> (r: Ptr)
        ensures
            r.addr == src.addr() && r.pool_id == src.pool_id(),
    {
        Ptr { addr: src.addr, pool_id: src.pool_id }
    }
}

impl<'a, T> vstd::std_specs::convert::FromSpecImpl<Ref<'a, T>> for Ptr {
    open spec fn obeys_from_spec() -> bool {
        true
    }

    open spec fn from_spec(src: Ref<'a, T>) -> Ptr {
        Ptr { addr: src.addr(), pool_id: src.pool_id() }
    }
}

/// An allocator owning values of one type. Live values keep their address for
/// their whole lifetime; a removed value's address is retired, never reissued.
pub struct Pool<T> {
    slots: Vec<Option<T>>,
    id: PoolId,
}

impl<T> Pool<T> {
    /// Every address this pool has ever issued, in order; a freed address
    /// holds `None`.
    pub closed spec fn contents(self) -> Seq<Option<T>> {
        self.slots@
    }

    /// The identity this pool stamps on every handle it issues.
    pub closed spec fn id(self) -> PoolId {
        self.id
    }

    /// Whether a handle currently resolves in this pool: right provenance,
    /// issued address, not freed.
    pub open spec fn lives(self, p: Ptr) -> bool {
        &&& p.pool_id == self.id()
        &&& p.addr < self.contents().len()
        &&& self.contents()[p.addr as int] is Some
    }

    /// The value a live handle denotes.
    pub open spec fn value_at(self, p: Ptr) -> T
        recommends
            self.lives(p),
    {
        self.contents()[p.addr as int]->0
    }

    /// A fresh, empty pool under a newly drawn identity.
    pub fn new() -> (s: Self)
        ensures
            s.contents() == Seq::<Option<T>>::empty(),
            s.id().raw() != 0,
    {
        Pool { slots: Vec::new(), id: PoolId::gen() }
    }

    /// Stores `value` at a fresh stable address and returns a handle to it.
    /// No existing handle is disturbed.
    pub fn allocate(&mut self, value: T) -> (p: Ptr)
        ensures
            p.pool_id == old(self).id(),
            p.addr == old(self).contents().len(),
            final(self).id() == old(self).id(),
            final(self).contents() == old(self).contents().push(Some(value)),
            final(self).lives(p),
            final(self).value_at(p) == value,
            forall|q: Ptr| #[trigger]
                old(self).lives(q) ==> final(self).lives(q) && final(self).value_at(q) == old(
                    self,
                ).value_at(q),
    {
        let addr = self.slots.len();
        self.slots.push(Some(value));
        Ptr { addr, pool_id: self.id }
    }

    /// Removes the value `p` denotes, if `p` currently resolves in this pool;
    /// reports whether a removal happened. The address is retired: no later
    /// allocation reuses it, and no other handle is affected.
    pub fn free(&mut self, p: Ptr) -> (b: bool)
        ensures
            b == old(self).lives(p),
            final(self).id() == old(self).id(),
            b ==> final(self).contents() == old(self).contents().update(p.addr as int, None),
            b ==> !final(self).lives(p),
            b ==> forall|q: Ptr| q != p && #[trigger]
                old(self).lives(q) ==> final(self).lives(q) && final(self).value_at(q) == old(
                    self,
                ).value_at(q),
            !b ==> *final(self) == *old(self),
    {
        if p.pool_id == self.id && p.addr < self.slots.len() && self.slots[p.addr].is_some() {
            let slot = &mut self.slots[p.addr];
            *slot = None;
            true
        } else {
            false
        }
    }

    /// Resolves a handle to a shared view. A handle from another pool, or one
    /// already freed, yields nothing; state is never touched.
    pub fn get<'a>(&'a self, p: Ptr) -> (r: Option<Ref<'a, T>>)
        ensures
            r is Some <==> self.lives(p),
            r matches Some(rf) ==> {
                &&& rf.addr() == p.addr
                &&& rf.pool_id() == p.pool_id
                &&& rf.value() == self.value_at(p)
            },
    {
        if p.pool_id == self.id && p.addr < self.slots.len() {
            match &self.slots[p.addr] {
                Some(v) => Some(Ref { value: v, addr: p.addr, pool_id: p.pool_id }),
                None => None,
            }
        } else {
            None
        }
    }

    /// Resolves a handle to an exclusive view of the value. Using a handle of
    /// another pool here is a provenance violation, a caller bug: it is ruled
    /// out up front rather than tolerated. A freed handle yields nothing.
    pub fn get_mut(&mut self, p: Ptr) -> (r: Option<&'_ mut T>)
        requires
            p.pool_id == old(self).id(),
        ensures
            final(self).id() == old(self).id(),
            r is Some <==> old(self).lives(p),
            r is Some ==> {
                &&& *r.unwrap() == old(self).value_at(p)
                &&& final(self).contents() == old(self).contents().update(
                    p.addr as int,
                    Some(*final(r.unwrap())),
                )
            },
            r is None ==> *final(self) == *old(self),
    {
        if p.addr < self.slots.len() && self.slots[p.addr].is_some() {
            let slot = &mut self.slots[p.addr];
            match slot {
                Some(v) => Some(v),
                None => None,
            }
        } else {
            None
        }
    }
}

} // verus!
