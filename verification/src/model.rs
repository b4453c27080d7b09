//! The timing wheel as a mathematical state, and its steps.
//!
//! A step is what happens to the wheel without interruption. A tick consists
//! of several of them, because system calls lie in between, and stores may
//! acquire and release pages while such a call is under way.

use crate::page::{PageModel, REFCOUNT_MASK};
use crate::wheel::TickAction;
use vstd::prelude::*;

verus! {

/// The slot that the hand points to when it has this value, on a wheel of this
/// many slots.
pub open spec fn slot_of(hand: int, slots: int) -> int {
    hand % slots
}

/// The number of values that the hand goes through before it starts over, on a
/// wheel of this many slots: as many as a `u64` offers, less those that do not
/// make up a whole turn.
pub open spec fn hand_period(slots: int) -> int {
    let values: int = u64::MAX + 1;
    values - values % slots
}

/// How far the tick that is under way has come. Pages are named by number.
#[verifier::ext_equal]
pub enum TickPhase {
    /// No tick is under way.
    Idle,
    /// The page was reached and is being protected.
    Protecting(usize),
    /// These pages were taken off the queue, and the first of them is being
    /// unprotected.
    Unprotecting(Seq<usize>),
}

/// A timing wheel.
#[verifier::ext_equal]
pub struct Wheel {
    /// The number of ticks so far, up to starting over.
    pub hand: u64,
    /// For each slot, the page that is doled out there.
    pub slots: Seq<Option<usize>>,
    /// All pages, by number.
    pub pages: Seq<PageModel>,
    /// Reached pages which their last holder has let go.
    pub to_unprotect: Seq<usize>,
    /// Readable pages that nobody holds and that no slot has.
    pub unprotected: Seq<usize>,
    /// The tick that is under way.
    pub phase: TickPhase,
}

/// The pages that are still to be unprotected in a phase.
pub open spec fn drained(phase: TickPhase) -> Seq<usize> {
    match phase {
        TickPhase::Unprotecting(pages) => pages,
        _ => Seq::empty(),
    }
}

/// The phase in which these pages are still to be unprotected.
pub open spec fn unprotecting(pages: Seq<usize>) -> TickPhase {
    if pages.len() == 0 {
        TickPhase::Idle
    } else {
        TickPhase::Unprotecting(pages)
    }
}

impl Wheel {
    /// A wheel with this many slots and no pages.
    pub open spec fn initial(slots: nat) -> Wheel {
        Wheel {
            hand: 0,
            slots: Seq::new(slots, |i: int| None),
            pages: Seq::empty(),
            to_unprotect: Seq::empty(),
            unprotected: Seq::empty(),
            phase: TickPhase::Idle,
        }
    }

    /// Whether `page` is the number of a page.
    pub open spec fn is_page(self, page: usize) -> bool {
        page < self.pages.len()
    }

    /// The slot that the hand points to. The hand leaves it at the next tick,
    /// so of all slots it is the one to be reached furthest in the future.
    pub open spec fn current(self) -> int {
        slot_of(self.hand as int, self.slots.len() as int)
    }

    /// Whether some page is at this address.
    pub open spec fn is_mapped(self, ptr: usize) -> bool {
        exists|p: int| 0 <= p < self.pages.len() && (#[trigger] self.pages[p]).ptr == ptr
    }

    /// Whether the page is certain to be unprotected: the hand has not reached
    /// it while stores were watching it.
    pub open spec fn is_readable(self, page: usize) -> bool {
        self.is_page(page) && !self.pages[page as int].reached
    }

    /// Whether some slot has the page.
    pub open spec fn in_slot(self, page: usize) -> bool {
        self.slots.contains(Some(page))
    }

    /// Whether the page is waiting to be unprotected.
    pub open spec fn awaits_unprotect(self, page: usize) -> bool {
        self.to_unprotect.contains(page) || drained(self.phase).contains(page)
    }

    /// Whether the page is in a place where it can be found again.
    pub open spec fn is_placed(self, p: int) -> bool {
        let page = self.pages[p];
        &&& page.ptr != 0
        &&& page.holders <= REFCOUNT_MASK
        &&& !page.reached ==> self.in_slot(p as usize) || self.unprotected.contains(p as usize)
        &&& page.reached && page.holders == 0 ==> self.awaits_unprotect(p as usize)
    }

    /// What holds of the wheel at all times: every page is in exactly one
    /// place. A page that was not reached is in one slot, or is among the
    /// spare pages if nobody holds it. A page that was reached is nowhere but
    /// with its holders; when there are none left it awaits unprotecting.
    pub open spec fn inv(self) -> bool {
        &&& self.slots.len() >= 1
        &&& self.slots.len() <= usize::MAX
        &&& self.hand < hand_period(self.slots.len() as int)
        &&& self.pages.len() <= usize::MAX
        &&& self.to_unprotect.no_duplicates()
        &&& self.unprotected.no_duplicates()
        &&& drained(self.phase).no_duplicates()
        &&& self.phase matches TickPhase::Unprotecting(pages) ==> pages.len() > 0
        &&& self.phase matches TickPhase::Protecting(page) ==> self.is_page(page)
            && self.pages[page as int].reached
        &&& forall|i: int|
            0 <= i < self.slots.len() && (#[trigger] self.slots[i]) is Some ==> self.is_page(
                self.slots[i]->0,
            ) && !self.pages[self.slots[i]->0 as int].reached && !self.unprotected.contains(
                self.slots[i]->0,
            )
        &&& forall|i: int, j: int|
            0 <= i < j < self.slots.len() && (#[trigger] self.slots[i]) is Some ==> self.slots[i]
                != #[trigger] self.slots[j]
        &&& forall|page: usize| #[trigger]
            self.unprotected.contains(page) ==> self.is_page(page)
                && !self.pages[page as int].reached && self.pages[page as int].holders == 0
        &&& forall|page: usize| #[trigger]
            self.to_unprotect.contains(page) ==> self.is_page(page)
                && self.pages[page as int].reached && self.pages[page as int].holders == 0
                && !drained(self.phase).contains(page)
        &&& forall|page: usize| #[trigger]
            drained(self.phase).contains(page) ==> self.is_page(page)
                && self.pages[page as int].reached && self.pages[page as int].holders == 0
        &&& forall|p: int|
            #![trigger self.pages[p]]
            0 <= p < self.pages.len() ==> self.is_placed(p)
    }

    // Ticking

    /// The tick that is under way starts to unprotect the queued pages.
    pub open spec fn drain(self) -> Wheel {
        Wheel {
            to_unprotect: Seq::empty(),
            phase: unprotecting(self.to_unprotect),
            ..self
        }
    }

    /// The value of the hand after one more tick. It starts over only after a
    /// whole turn, so that it never skips a slot or points to one too soon.
    pub open spec fn next_hand(self) -> u64 {
        if self.hand + 1 < hand_period(self.slots.len() as int) {
            (self.hand + 1) as u64
        } else {
            0
        }
    }

    /// The page that a tick which starts now has to protect: the one in the
    /// next slot, if stores are watching it.
    pub open spec fn due_page(self) -> Option<usize> {
        let slot = self.slots[slot_of(self.next_hand() as int, self.slots.len() as int)];
        if slot is Some && self.pages[slot->0 as int].holders > 0 {
            slot
        } else {
            None
        }
    }

    /// A tick starts: the hand advances, and if stores are watching the page
    /// in the slot that it now points to, the page is burned. It leaves the
    /// slot and is to be protected.
    pub open spec fn start_tick(self) -> Wheel {
        let advanced = Wheel { hand: self.next_hand(), ..self };
        match self.due_page() {
            Some(page) => Wheel {
                slots: self.slots.update(advanced.current(), None),
                pages: self.pages.update(
                    page as int,
                    PageModel { reached: true, ..self.pages[page as int] },
                ),
                phase: TickPhase::Protecting(page),
                ..advanced
            },
            None => advanced.drain(),
        }
    }

    /// The tick that is under way goes on, now that its action is done. A page
    /// that was unprotected is clean and spare.
    pub open spec fn resume_tick(self) -> Wheel {
        match self.phase {
            TickPhase::Idle => self,
            TickPhase::Protecting(_) => self.drain(),
            TickPhase::Unprotecting(pages) => Wheel {
                pages: self.pages.update(
                    pages[0] as int,
                    PageModel::clean(self.pages[pages[0] as int].ptr),
                ),
                unprotected: self.unprotected.push(pages[0]),
                phase: unprotecting(pages.skip(1)),
                ..self
            },
        }
    }

    /// What has to be done for the tick that is under way.
    pub open spec fn action(self) -> TickAction {
        match self.phase {
            TickPhase::Idle => TickAction::Done,
            TickPhase::Protecting(page) => TickAction::Protect(self.pages[page as int].ptr),
            TickPhase::Unprotecting(pages) => TickAction::Unprotect(
                self.pages[pages[0] as int].ptr,
            ),
        }
    }

    // Acquiring and releasing

    /// Whether a page has to be mapped before one can be handed out: the
    /// current slot has none, and none is spare.
    pub open spec fn needs_page(self) -> bool {
        self.slots[self.current()] is None && self.unprotected.len() == 0
    }

    /// Whether the page in the current slot can take one more holder.
    pub open spec fn has_room(self) -> bool {
        self.slots[self.current()] matches Some(page) ==> self.pages[page as int].holders
            < REFCOUNT_MASK
    }

    /// The page that is handed out next: the one in the current slot, or else
    /// the one that became spare last.
    pub open spec fn next_page(self) -> usize {
        match self.slots[self.current()] {
            Some(page) => page,
            None => self.unprotected.last(),
        }
    }

    /// A store acquires that page.
    pub open spec fn acquire(self) -> Wheel {
        let page = self.next_page();
        Wheel {
            slots: self.slots.update(self.current(), Some(page)),
            pages: self.pages.update(page as int, self.pages[page as int].held()),
            unprotected: if self.slots[self.current()] is Some {
                self.unprotected
            } else {
                self.unprotected.drop_last()
            },
            ..self
        }
    }

    /// A store acquires a page that was just mapped at `ptr`.
    pub open spec fn acquire_new(self, ptr: usize) -> Wheel {
        Wheel {
            slots: self.slots.update(self.current(), Some(self.pages.len() as usize)),
            pages: self.pages.push(PageModel::clean(ptr).held()),
            ..self
        }
    }

    /// Whether some store holds the page.
    pub open spec fn holds(self, page: usize) -> bool {
        self.is_page(page) && self.pages[page as int].holders > 0
    }

    /// A store lets go of the page. The last holder of a page that was reached
    /// queues it for unprotecting.
    pub open spec fn release(self, page: usize) -> Wheel {
        let before = self.pages[page as int];
        Wheel {
            pages: self.pages.update(page as int, before.let_go()),
            to_unprotect: if before.reached && before.holders == 1 {
                self.to_unprotect.push(page)
            } else {
                self.to_unprotect
            },
            ..self
        }
    }
}

} // verus!
