//! A stable-identity object pool with provenance-tagged handles, together with
//! an intrusive circular doubly-linked list whose nodes live in such a pool.
//!
//! The pool hands out copyable [`pool::Ptr`] handles whose addresses stay valid
//! for as long as the object is live; every handle carries the identity of the
//! pool that issued it, so a handle can never silently resolve against a
//! different pool. The list closes its ring with a permanent sentinel node, so
//! traversal needs no null or empty special cases.

pub mod list;
pub mod pool;
