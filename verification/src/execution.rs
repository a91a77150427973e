//! Cooperative cancellation and reservations for explicitly accounted working buffers.
use crate::error::Error;
use std::sync::atomic::AtomicBool;
use std::sync::atomic::AtomicUsize;
use std::sync::atomic::Ordering;
use std::sync::Arc;
use vstd::prelude::*;

verus! {

/// Checked byte-size calculation for fixed-width buffers.
pub fn bytes_for(count: usize, width: usize) -> (r: Result<usize, Error>)
    ensures
        r matches Ok(b) ==> b == count * width,
        r is Err <==> count * width > usize::MAX,
        r is Err ==> r == Err::<usize, Error>(Error::Overflow),
{
    match count.checked_mul(width) {
        Some(b) => Ok(b),
        None => Err(Error::Overflow),
    }
}

/// The bytes that remain available when `used` bytes of a `limit` are reserved.
pub open spec fn available_bytes(limit: usize, used: usize) -> int {
    if used <= limit { limit - used } else { 0 }
}

/// The reserved total after admitting `bytes` more, or `None` when the request is refused.
pub open spec fn admitted(limit: usize, used: usize, bytes: usize) -> Option<usize> {
    if bytes > available_bytes(limit, used) || used + bytes > usize::MAX {
        None
    } else {
        Some((used + bytes) as usize)
    }
}

/// Decide whether `bytes` more fit under `limit` when `used` bytes are already reserved.
pub fn accept_request(limit: usize, used: usize, bytes: usize) -> (r: Option<usize>)
    ensures
        r == admitted(limit, used, bytes),
{
    let available = limit.saturating_sub(used);
    if bytes > available {
        None
    } else {
        used.checked_add(bytes)
    }
}

/// The error for a request that `accept_request` refused while `used` bytes were reserved.
pub fn refusal(limit: usize, used: usize, bytes: usize) -> (e: Error)
    ensures
        bytes > available_bytes(limit, used) ==> e == (Error::MemoryLimit {
            requested: bytes,
            available: available_bytes(limit, used) as usize,
        }),
        bytes <= available_bytes(limit, used) ==> e == Error::Overflow,
{
    let available = limit.saturating_sub(used);
    if bytes > available {
        Error::MemoryLimit { requested: bytes, available }
    } else {
        Error::Overflow
    }
}

/// What a cancellation check reports when the shared flag holds `cancelled`.
pub fn cancellation_outcome(cancelled: bool) -> (r: Result<(), Error>)
    ensures
        cancelled ==> r == Err::<(), Error>(Error::Cancelled),
        !cancelled ==> r is Ok,
{
    if cancelled {
        Err(Error::Cancelled)
    } else {
        Ok(())
    }
}

#[derive(Debug)]
struct State {
    limit: usize,
    used: AtomicUsize,
    peak: AtomicUsize,
    cancelled: AtomicBool,
}

/// Shared resource budget. Imported buffers and allocator overhead are not charged.
#[derive(Debug)]
pub struct ExecutionContext(Arc<State>);

/// Atomically add `bytes` to `used` if `accept_request` accepts the value it finds there
/// (`AtomicUsize::fetch_update`). Returns the value found, in `Ok` when the
/// update was stored and in `Err` when `accept_request` refused it.
#[verifier::external_body]
fn update_reserved(used: &AtomicUsize, limit: usize, bytes: usize) -> (r: Result<usize, usize>)
    ensures
        r matches Ok(prev) ==> admitted(limit, prev, bytes) is Some,
        r matches Err(prev) ==> admitted(limit, prev, bytes) is None,
{
    used.fetch_update(Ordering::Relaxed, Ordering::Relaxed, |u| accept_request(limit, u, bytes))
}

/// Another handle to the same shared value (`Arc::clone`); both handles see the same value.
#[verifier::external_body]
pub(crate) fn share<T>(a: &Arc<T>) -> (r: Arc<T>)
    ensures
        *r == **a,
{
    Arc::clone(a)
}

impl ExecutionContext {
    /// The byte limit for tracked scratch and index allocations.
    pub closed spec fn limit(&self) -> usize {
        self.0.limit
    }

    /// Create a context with a byte limit for tracked scratch/index allocations.
    pub fn new(limit: usize) -> (r: Self)
        ensures
            r.limit() == limit,
    {
        ExecutionContext(
            Arc::new(
                State {
                    limit,
                    used: AtomicUsize::new(0),
                    peak: AtomicUsize::new(0),
                    cancelled: AtomicBool::new(false),
                },
            ),
        )
    }

    /// Cancel all operations using this context; cancellation is permanent.
    pub fn cancel(&self) {
        self.0.cancelled.store(true, Ordering::Relaxed);
    }

    /// Check cancellation at an operation or traversal boundary.
    pub fn check(&self) -> (r: Result<(), Error>)
        ensures
            r is Err ==> r == Err::<(), Error>(Error::Cancelled),
    {
        let cancelled = self.0.cancelled.load(Ordering::Relaxed);
        cancellation_outcome(cancelled)
    }

    /// Current explicitly reserved bytes.
    pub fn reserved_bytes(&self) -> usize {
        self.0.used.load(Ordering::Relaxed)
    }

    /// Peak explicitly reserved bytes since context creation.
    pub fn peak_bytes(&self) -> usize {
        self.0.peak.load(Ordering::Relaxed)
    }

    /// Atomically reserve bytes before allocating a working buffer.
    pub fn reserve(&self, bytes: usize) -> (r: Result<Reservation, Error>)
        ensures
            r matches Ok(res) ==> res.bytes() == bytes && res.context() == *self && bytes <= self.limit(),
            r matches Err(e) ==> e == Error::Cancelled || e == Error::Overflow || (e matches Error::MemoryLimit { requested, available } && requested == bytes && available < bytes && available <= self.limit()),
    {
        self.check()?;
        match update_reserved(&self.0.used, self.0.limit, bytes) {
            Ok(prev) => {
                let next = accept_request(self.0.limit, prev, bytes);
                if let Some(next) = next {
                    self.0.peak.fetch_max(next, Ordering::Relaxed);
                }
                Ok(Reservation { context: self.clone(), bytes })
            },
            Err(prev) => Err(refusal(self.0.limit, prev, bytes)),
        }
    }
}

impl Clone for ExecutionContext {
    fn clone(&self) -> (r: Self)
        ensures
            r == *self,
    {
        ExecutionContext(share(&self.0))
    }
}

impl Default for ExecutionContext {
    fn default() -> (r: Self)
        ensures
            r.limit() == usize::MAX,
    {
        Self::new(usize::MAX)
    }
}

/// A reservation follows the allocation's lifetime and releases on error or drop.
#[derive(Debug)]
pub struct Reservation {
    context: ExecutionContext,
    bytes: usize,
}

impl Reservation {
    /// The number of reserved bytes.
    pub closed spec fn bytes(&self) -> usize {
        self.bytes
    }

    /// The context that is charged.
    pub closed spec fn context(&self) -> ExecutionContext {
        self.context
    }
}

/// Give `bytes` back to the shared counter (`AtomicUsize::fetch_sub`).
#[verifier::external_body]
fn release(used: &AtomicUsize, bytes: usize)
    opens_invariants none
    no_unwind
{
    used.fetch_sub(bytes, Ordering::Relaxed);
}

impl Drop for Reservation {
    fn drop(&mut self)
        opens_invariants none
        no_unwind
    {
        release(&self.context.0.used, self.bytes);
    }
}

} // verus!
