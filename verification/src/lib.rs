//! An OpenMP-style parallel-for runtime for host code: a process-wide pool of
//! worker threads run loop bodies over block-cyclically split iteration
//! ranges, with shared-mutable state behind reader/writer-locked cells and
//! commutative reductions merged back into the caller's scalars.

#![allow(unused_imports)]

pub mod parfor;
pub mod reduction;
pub mod sysinfo;
pub mod threadpool;

use std::sync::Arc;
use vstd::prelude::*;
use vstd::rwlock::{ReadHandle, RwLock, WriteHandle};

verus! {

/// The smaller of `x` and `y`.
pub fn min(x: i32, y: &i32) -> (r: i32)
    ensures
        r == if x < *y {
            x
        } else {
            *y
        },
{
    if x < *y {
        x
    } else {
        *y
    }
}

/// Ownership-shared, reader/writer-locked holder of a `T`.
///
/// A capture is how shared-mutable state enters a parallel region: the
/// orchestrator wraps the caller's value, every worker receives a handle via
/// [`Capture::clone`], workers lock the cell to read or write, and after the
/// region the sole remaining handle is consumed by [`Capture::unwrap`] to
/// give the value back to the caller.
#[verifier::reject_recursive_types(T)]
pub struct Capture<T> {
    value: Arc<RwLock<T, spec_fn(T) -> bool>>,
}

impl<T> Capture<T> {
    /// The verified lock that all handles of this capture share.
    pub closed spec fn lock(&self) -> RwLock<T, spec_fn(T) -> bool> {
        *self.value
    }

    /// The lock places no restriction on the values stored in it: any `T`
    /// may be written. Established by `new` and preserved by `clone`.
    pub open spec fn wf(&self) -> bool {
        forall|v: T| self.lock().inv(v)
    }

    /// Wraps `inner` by ownership transfer into a fresh cell with one handle.
    pub fn new(inner: T) -> (c: Capture<T>)
        ensures
            c.wf(),
    {
        let pred = Ghost(|v: T| true);
        Capture { value: Arc::new(RwLock::new(inner, pred)) }
    }

    /// Another handle to the same cell; the inner value is not copied.
    pub fn clone(&self) -> (c: Capture<T>)
        ensures
            c == *self,
    {
        Capture { value: arc_clone(&self.value) }
    }

    /// Acquires a shared read lock: blocks while a writer holds the cell,
    /// admits any number of concurrent readers. Release the handle with
    /// `release_read` when done with the borrowed value.
    pub fn read(&self) -> (handle: ReadHandle<'_, T, spec_fn(T) -> bool>)
        ensures
            handle.rwlock() == self.lock(),
    {
        arc_ref(&self.value).acquire_read()
    }

    /// Acquires the exclusive write lock, handing out the current value;
    /// blocks while any reader or writer holds the cell. Store the updated
    /// value with `release_write` on the returned handle, which accepts any
    /// replacement value.
    pub fn write(&self) -> (ret: (T, WriteHandle<'_, T, spec_fn(T) -> bool>))
        requires
            self.wf(),
        ensures
            ret.1.rwlock() == self.lock(),
            forall|v: T| ret.1.rwlock().inv(v),
    {
        let ret = arc_ref(&self.value).acquire_write();
        proof {
            assert forall|v: T| ret.1.rwlock().inv(v) by {
                assert(self.lock().inv(v));
            }
        }
        ret
    }

    /// Reclaims the inner value. Succeeds exactly when this is the last
    /// outstanding handle and no guard is live; `None` means a handle was
    /// leaked past the parallel region, the contract violation on which the
    /// orchestrator must fail loudly rather than lose the caller's value.
    ///
    /// Which of the two happens depends on how many handles exist at the
    /// call, a fact of the heap that is outside this cell's own state, so no
    /// clause here can pin it down, and the refusal cannot be a panic: the
    /// library's functions promise not to. A caller reclaiming state after
    /// a region must therefore treat `None` as fatal itself — abort loudly,
    /// never continue without the value.
    pub fn unwrap(self) -> (r: Option<T>)
        ensures
            r matches Some(v) ==> self.lock().inv(v),
    {
        match arc_try_unwrap(self.value) {
            Ok(lock) => Some(lock.into_inner()),
            Err(_) => None,
        }
    }
}

/// Relies on std's `Arc::clone`: the result is another handle to the same
/// allocation, not a copy of the value.
#[verifier::external_body]
fn arc_clone<T>(v: &Arc<T>) -> (r: Arc<T>)
    ensures
        r == *v,
{
    Arc::clone(v)
}

/// Relies on std's `Arc::as_ref`: a borrow of the value the handles share.
#[verifier::external_body]
fn arc_ref<T>(v: &Arc<T>) -> (r: &T)
    ensures
        *r == **v,
{
    v.as_ref()
}

/// Relies on std's `Arc::try_unwrap`: `Ok` with the inner value when the
/// argument was the sole handle to it, `Err` handing the argument back
/// otherwise.
#[verifier::external_body]
fn arc_try_unwrap<T>(v: Arc<T>) -> (r: Result<T, Arc<T>>)
    ensures
        match r {
            Ok(t) => t == v,
            Err(e) => e == v,
        },
{
    Arc::try_unwrap(v)
}

} // verus!
