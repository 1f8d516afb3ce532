//! The decode-to-build bridge: a queue of pending work items, each a
//! decoded result bound to the handle its built value is for. Producers
//! append items as decodes complete; the consumer owning the build
//! context drains the queue and builds each item, in arrival order.
//!
//! Queues for different build-context types are told apart statically:
//! `AnyProcesses` carries the context type as a parameter, so a slot
//! allocated on one registry cannot feed a queue of another.

use vstd::prelude::*;
use core::marker::PhantomData;

verus! {

/// A handle to the slot a build result is written into.
#[derive(Clone, Copy, Debug, PartialEq, Eq, Structural)]
pub struct Handle {
    pub id: usize,
}

/// One pending work item: the decoded result for a handle. A failed
/// decode carries its message.
pub struct Process<R> {
    pub handle: Handle,
    pub result: Result<R, Vec<u8>>,
}

/// The queue of pending work items for one build-context type.
pub struct Processes<R> {
    pub pending: Vec<Process<R>>,
    pub next_handle: usize,
}

impl<R> Processes<R> {
    /// A fresh, empty queue.
    pub fn new() -> (r: Processes<R>)
        ensures
            r.pending@ == Seq::<Process<R>>::empty(),
            r.next_handle == 0,
    {
        Processes { pending: Vec::new(), next_handle: 0 }
    }

    /// Append a completed decode for later building.
    pub fn push(&mut self, p: Process<R>)
        ensures
            final(self).pending@ == old(self).pending@.push(p),
            final(self).next_handle == old(self).next_handle,
    {
        self.pending.push(p);
    }

    /// Drain the queue: every pending item is handed out, in arrival
    /// order, and the queue is left empty.
    pub fn run(&mut self) -> (r: Vec<Process<R>>)
        ensures
            r@ == old(self).pending@,
            final(self).pending@ == Seq::<Process<R>>::empty(),
            final(self).next_handle == old(self).next_handle,
    {
        let mut received: Vec<Process<R>> = Vec::new();
        core::mem::swap(&mut received, &mut self.pending);
        received
    }
}

/// A producer-side slot bound to one handle: completing it yields the
/// work item to queue.
pub struct ProcessSlot<R> {
    pub handle: Handle,
    pub marker: PhantomData<R>,
}

impl<R> ProcessSlot<R> {
    /// Complete the decode for this slot's handle, yielding the work
    /// item that carries the result to the build stage.
    pub fn set(self, result: Result<R, Vec<u8>>) -> (p: Process<R>)
        ensures
            p.handle == self.handle,
            p.result == result,
    {
        Process { handle: self.handle, result }
    }
}

/// The queue for one build-context type within a registry of queues.
/// The phantom key `K` separates registries whose context types
/// coincide; a mismatched context is a type error rather than a runtime
/// downcast failure.
pub struct AnyProcesses<K, R> {
    pub inner: Processes<R>,
    pub marker: PhantomData<K>,
}

impl<K, R> AnyProcesses<K, R> {
    /// A fresh registry queue for the context type.
    pub fn new() -> (r: AnyProcesses<K, R>)
        ensures
            r.inner.pending@ == Seq::<Process<R>>::empty(),
            r.inner.next_handle == 0,
    {
        AnyProcesses { inner: Processes::new(), marker: PhantomData }
    }

    /// Allocate a result handle and the producer-side slot bound to it;
    /// every allocation hands out a handle no earlier allocation gave.
    pub fn alloc_slot(&mut self) -> (r: (Handle, ProcessSlot<R>))
        requires
            old(self).inner.next_handle < usize::MAX,
        ensures
            r.0.id == old(self).inner.next_handle,
            r.1.handle == r.0,
            final(self).inner.next_handle == old(self).inner.next_handle + 1,
            final(self).inner.pending@ == old(self).inner.pending@,
    {
        let handle = Handle { id: self.inner.next_handle };
        self.inner.next_handle = self.inner.next_handle + 1;
        (handle, ProcessSlot { handle, marker: PhantomData })
    }

    /// Append a completed decode for later building.
    pub fn push(&mut self, p: Process<R>)
        ensures
            final(self).inner.pending@ == old(self).inner.pending@.push(p),
            final(self).inner.next_handle == old(self).inner.next_handle,
    {
        self.inner.push(p);
    }

    /// Drain the pending items for execution under the owned context.
    pub fn run(&mut self) -> (r: Vec<Process<R>>)
        ensures
            r@ == old(self).inner.pending@,
            final(self).inner.pending@ == Seq::<Process<R>>::empty(),
            final(self).inner.next_handle == old(self).inner.next_handle,
    {
        self.inner.run()
    }
}

} // verus!
