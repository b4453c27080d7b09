//! The wheel together with the memory that it governs.
//!
//! A run of the system interleaves ticks with the acquisitions and releases
//! of any number of stores, in whatever order their steps happen to come.

use crate::calls::{Mmap, Mprotect};
use crate::model::{TickPhase, Wheel};
use vstd::prelude::*;

verus! {

/// The size of a page of memory on the machine. Nothing is known of it.
pub open spec fn page_size() -> usize {
    arbitrary()
}

/// The protected addresses after this call, if there is one. Only a call that
/// spans just the page has the effect that it is made for.
pub open spec fn after_mprotect(protected: Set<usize>, call: Option<Mprotect>) -> Set<usize> {
    match call {
        None => protected,
        Some(mprotect) => if mprotect.len != page_size() {
            protected
        } else if mprotect.access is Inaccessible {
            protected.insert(mprotect.ptr)
        } else {
            protected.remove(mprotect.ptr)
        },
    }
}

/// The protected addresses after a page has been mapped at `ptr` by this call.
/// It can be read only if the call maps all of it for reading.
pub open spec fn after_mmap(protected: Set<usize>, ptr: usize, call: Mmap) -> Set<usize> {
    if call.len == page_size() && call.access is Readable {
        protected.remove(ptr)
    } else {
        protected.insert(ptr)
    }
}

/// What can happen next.
pub enum Step {
    /// A tick starts.
    Tick,
    /// The system call that the tick under way asked for takes effect.
    Perform,
    /// The tick under way goes on.
    Resume,
    /// A store acquires a page that is at hand.
    Acquire,
    /// A store acquires a page that was just mapped at this address.
    AcquireNew(usize),
    /// A store releases this page.
    Release(usize),
}

/// The wheel and the memory protection that is in effect.
pub struct System {
    /// The wheel.
    pub wheel: Wheel,
    /// The addresses of the pages that cannot be read.
    pub protected: Set<usize>,
    /// Whether what the tick under way asked for has taken effect already.
    pub performed: bool,
}

impl System {
    /// A new wheel with this many slots, and nothing protected.
    pub open spec fn initial(slots: nat) -> System {
        System { wheel: Wheel::initial(slots), protected: Set::empty(), performed: false }
    }

    /// The address of the page.
    pub open spec fn ptr(self, page: usize) -> usize {
        self.wheel.pages[page as int].ptr
    }

    /// Whether a checkpoint that loads from the page faults.
    pub open spec fn faults(self, page: usize) -> bool {
        self.protected.contains(self.ptr(page))
    }

    /// Whether the step can happen now. Ticks do not overlap, and a tick goes
    /// on only after what it asked for has taken effect. A page is never mapped
    /// on top of another.
    pub open spec fn enabled(self, step: Step) -> bool {
        match step {
            Step::Tick => self.wheel.phase is Idle,
            Step::Perform => !(self.wheel.phase is Idle) && !self.performed,
            Step::Resume => !(self.wheel.phase is Idle) && self.performed,
            Step::Acquire => self.wheel.has_room() && !self.wheel.needs_page(),
            Step::AcquireNew(ptr) => self.wheel.needs_page() && ptr != 0 && !self.wheel.is_mapped(
                ptr,
            ) && self.wheel.pages.len() < usize::MAX,
            Step::Release(page) => self.wheel.holds(page),
        }
    }

    /// The system after the step.
    pub open spec fn next(self, step: Step) -> System {
        match step {
            Step::Tick => System { wheel: self.wheel.start_tick(), performed: false, ..self },
            Step::Perform => System {
                protected: after_mprotect(
                    self.protected,
                    self.wheel.action().spec_call(page_size()),
                ),
                performed: true,
                ..self
            },
            Step::Resume => System { wheel: self.wheel.resume_tick(), performed: false, ..self },
            Step::Acquire => System { wheel: self.wheel.acquire(), ..self },
            Step::AcquireNew(ptr) => System {
                wheel: self.wheel.acquire_new(ptr),
                protected: after_mmap(self.protected, ptr, Mmap::spec_page(page_size())),
                ..self
            },
            Step::Release(page) => System { wheel: self.wheel.release(page), ..self },
        }
    }

    /// The system after all these steps.
    pub open spec fn run(self, steps: Seq<Step>) -> System
        decreases steps.len(),
    {
        if steps.len() == 0 {
            self
        } else {
            self.run(steps.drop_last()).next(steps.last())
        }
    }

    /// Whether each of these steps can happen when its turn comes.
    pub open spec fn can_run(self, steps: Seq<Step>) -> bool
        decreases steps.len(),
    {
        steps.len() > 0 ==> self.can_run(steps.drop_last()) && self.run(
            steps.drop_last(),
        ).enabled(steps.last())
    }

    /// Whether some store holds the page from beginning to end of the run.
    pub open spec fn held_throughout(self, steps: Seq<Step>, page: usize) -> bool
        decreases steps.len(),
    {
        &&& self.run(steps).wheel.holds(page)
        &&& steps.len() > 0 ==> self.held_throughout(steps.drop_last(), page)
    }

    /// Whether the page cannot be read, as far as the wheel is concerned: it
    /// was reached, and is neither still to be protected nor unprotected
    /// already by the tick that is under way.
    pub open spec fn is_unreadable(self, page: usize) -> bool {
        &&& self.wheel.is_page(page)
        &&& self.wheel.pages[page as int].reached
        &&& match self.wheel.phase {
            TickPhase::Idle => true,
            TickPhase::Protecting(p) => page != p || self.performed,
            TickPhase::Unprotecting(pages) => page != pages[0] || !self.performed,
        }
    }

    /// What holds of the system at all times: the wheel keeps its pages in
    /// order, no two of them are at the same address, and memory is protected
    /// just where the wheel takes it to be.
    pub open spec fn inv(self) -> bool {
        &&& self.wheel.inv()
        &&& self.wheel.phase is Idle ==> !self.performed
        &&& forall|p: int, q: int|
            0 <= p < q < self.wheel.pages.len() ==> (#[trigger] self.wheel.pages[p]).ptr != (
            #[trigger] self.wheel.pages[q]).ptr
        &&& forall|ptr: usize| #[trigger]
            self.protected.contains(ptr) ==> self.wheel.is_mapped(ptr)
        &&& forall|page: usize|
            self.wheel.is_page(page) ==> (#[trigger] self.faults(page) <==> self.is_unreadable(
                page,
            ))
    }

    /// The page that a store gets by this step.
    pub open spec fn acquired(self, step: Step) -> Option<usize> {
        match step {
            Step::Acquire => Some(self.wheel.next_page()),
            Step::AcquireNew(_) => Some(self.wheel.pages.len() as usize),
            _ => None,
        }
    }

    /// Whether no store acquires the page in this run.
    pub open spec fn never_acquired(self, steps: Seq<Step>, page: usize) -> bool
        decreases steps.len(),
    {
        steps.len() > 0 ==> {
            &&& self.never_acquired(steps.drop_last(), page)
            &&& self.run(steps.drop_last()).acquired(steps.last()) != Some(page)
        }
    }

    /// The number of stores that acquired the page in this run, less those
    /// that released it.
    pub open spec fn claims(self, steps: Seq<Step>, page: usize) -> int
        decreases steps.len(),
    {
        if steps.len() == 0 {
            0
        } else {
            let before = self.claims(steps.drop_last(), page);
            if self.run(steps.drop_last()).acquired(steps.last()) == Some(page) {
                before + 1
            } else if steps.last() == Step::Release(page) {
                before - 1
            } else {
                before
            }
        }
    }
}

/// The number of ticks that start among these steps.
pub open spec fn ticks(steps: Seq<Step>) -> nat
    decreases steps.len(),
{
    if steps.len() == 0 {
        0
    } else if steps.last() is Tick {
        ticks(steps.drop_last()) + 1
    } else {
        ticks(steps.drop_last())
    }
}

} // verus!
