//! The interface between stores and the mechanism that interrupts them.

use vstd::prelude::*;

verus! {

/// A store's claim on an interrupt page.
pub trait PageHandle: Send + Sync {
    /// The address of the page.
    spec fn ptr(&self) -> usize;

    /// Returns the interrupt page pointer: the memory address to attempt to
    /// load at checkpoints. It is never null.
    fn page_ptr(&self) -> (ptr: usize)
        ensures
            ptr == self.ptr(),
            ptr != 0,
    ;
}

/// Hands out interrupt pages to stores and decides when they are protected
/// (rendered unreadable), which is when those stores are due to be
/// interrupted.
pub trait MmuInterrupter: Send + Sync + Sized {
    /// What a store gets for a page that it acquires.
    type Handle: PageHandle;

    /// What holds of the interrupter at all times.
    spec fn wf(&self) -> bool;

    /// Whether one more store can be given a page.
    spec fn has_room(&self) -> bool;

    /// Whether a page has to be mapped before one can be handed out.
    spec fn needs_page(&self) -> bool;

    /// Whether a store has this page and has not released it.
    spec fn is_held(&self, page: &Self::Handle) -> bool;

    /// Whether this page is unprotected.
    spec fn is_readable(&self, page: &Self::Handle) -> bool;

    /// Whether the interrupter counts on a page being mapped at this address.
    spec fn is_mapped(&self, ptr: usize) -> bool;

    /// Fetches an unprotected interrupt page. Returns `None` if one has to be
    /// mapped first; `acquire_new_page` takes that one.
    fn acquire_page(&mut self) -> (page: Option<Self::Handle>)
        requires
            old(self).wf(),
            old(self).has_room(),
        ensures
            final(self).wf(),
            page is None <==> old(self).needs_page(),
            page is None ==> *final(self) == *old(self),
            page matches Some(handle) ==> {
                &&& final(self).is_held(&handle)
                &&& final(self).is_readable(&handle)
                &&& old(self).is_mapped(handle.ptr())
            },
            forall|p: usize| #[trigger] final(self).is_mapped(p) <==> old(self).is_mapped(p),
            forall|h: Self::Handle| old(self).is_held(&h) ==> #[trigger] final(self).is_held(&h),
    ;

    /// Fetches the interrupt page that was just mapped, readable, at `ptr`.
    fn acquire_new_page(&mut self, ptr: usize) -> (page: Self::Handle)
        requires
            old(self).wf(),
            old(self).needs_page(),
            ptr != 0,
        ensures
            final(self).wf(),
            page.ptr() == ptr,
            final(self).is_held(&page),
            final(self).is_readable(&page),
            forall|p: usize| #[trigger]
                final(self).is_mapped(p) <==> p == ptr || old(self).is_mapped(p),
            forall|h: Self::Handle| old(self).is_held(&h) ==> #[trigger] final(self).is_held(&h),
    ;

    /// Renounces a store's claim on an interrupt page, declaring that the store
    /// no longer interrupts if the page becomes unreadable. It is a logic error
    /// to release a page and not immediately acquire a new one when the
    /// corresponding store is executing.
    ///
    /// The page stays mapped: compiled code may load from a stale pointer to
    /// it, and only an access fault is caught as an interruption.
    fn release_page(&mut self, page: Self::Handle)
        requires
            old(self).wf(),
            old(self).is_held(&page),
        ensures
            final(self).wf(),
            forall|p: usize| #[trigger] final(self).is_mapped(p) <==> old(self).is_mapped(p),
            forall|h: Self::Handle|
                old(self).is_held(&h) && h.ptr() != page.ptr() ==> #[trigger] final(self).is_held(
                    &h,
                ),
    ;
}

} // verus!
