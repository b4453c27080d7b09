//! The system calls that interrupt pages take.
//!
//! Each is described by plain values, for pages of the size that the embedder
//! finds on the machine. Making the call is up to the embedder.

use crate::wheel::TickAction;
use vstd::prelude::*;

verus! {

/// What may be done with a page.
pub enum Access {
    /// Nothing: a checkpoint that loads from the page faults.
    Inaccessible,
    /// It may be read: a checkpoint passes.
    Readable,
}

/// Map a private anonymous page, anywhere.
pub struct Mmap {
    pub len: usize,
    pub access: Access,
}

/// Change what may be done with a page.
pub struct Mprotect {
    pub ptr: usize,
    pub len: usize,
    pub access: Access,
}

/// Unmap a page.
pub struct Munmap {
    pub ptr: usize,
    pub len: usize,
}

impl Mmap {
    /// A new interrupt page is one page long and readable.
    pub open spec fn spec_page(page_size: usize) -> Mmap {
        Mmap { len: page_size, access: Access::Readable }
    }

    /// The call that maps an interrupt page where pages have this size.
    pub fn page_of_size(page_size: usize) -> (call: Mmap)
        ensures
            call == Mmap::spec_page(page_size),
            call.len == page_size,
            call.access is Readable,
    {
        Mmap { len: page_size, access: Access::Readable }
    }
}

impl Munmap {
    /// The call that unmaps the page at `ptr` where pages have this size.
    pub fn page_of_size(ptr: usize, page_size: usize) -> (call: Munmap)
        ensures
            call == (Munmap { ptr, len: page_size }),
    {
        Munmap { ptr, len: page_size }
    }
}

impl TickAction {
    /// The call that the action stands for, where pages have this size: to
    /// protect a page is to forbid all access, to unprotect it is to permit
    /// reading.
    pub open spec fn spec_call(self, page_size: usize) -> Option<Mprotect> {
        match self {
            TickAction::Done => None,
            TickAction::Protect(ptr) => Some(
                Mprotect { ptr, len: page_size, access: Access::Inaccessible },
            ),
            TickAction::Unprotect(ptr) => Some(
                Mprotect { ptr, len: page_size, access: Access::Readable },
            ),
        }
    }

    /// The call that the action stands for where pages have this size, if any.
    pub fn call_of_size(&self, page_size: usize) -> (call: Option<Mprotect>)
        ensures
            call == self.spec_call(page_size),
            call is None <==> self is Done,
            call matches Some(mprotect) ==> mprotect.len == page_size,
            self matches TickAction::Protect(ptr) ==> call->0.ptr == ptr
                && call->0.access is Inaccessible,
            self matches TickAction::Unprotect(ptr) ==> call->0.ptr == ptr
                && call->0.access is Readable,
    {
        match self {
            TickAction::Done => None,
            TickAction::Protect(ptr) => Some(
                Mprotect { ptr: *ptr, len: page_size, access: Access::Inaccessible },
            ),
            TickAction::Unprotect(ptr) => Some(
                Mprotect { ptr: *ptr, len: page_size, access: Access::Readable },
            ),
        }
    }
}

} // verus!
