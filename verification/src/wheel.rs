//! An [`MmuInterrupter`] implemented as a timing wheel.

use crate::interrupter::{MmuInterrupter, PageHandle as _};
use crate::model;
use crate::model::{TickPhase, Wheel};
use crate::page::{Page, REFCOUNT_MASK};
use crate::schedule;
use crate::upkeep;
use vstd::prelude::*;

verus! {

/// What the wheel wants done before the tick that is under way can go on.
pub enum TickAction {
    /// Nothing: no tick is under way.
    Done,
    /// Render the page at this address unreadable.
    Protect(usize),
    /// Render the page at this address readable again.
    Unprotect(usize),
}

/// A store's claim on a page of the wheel.
pub struct PageHandle {
    page: usize,
    ptr: usize,
}

impl PageHandle {
    /// A pointer that checkpoints load from is never null.
    #[verifier::type_invariant]
    spec fn non_null(self) -> bool {
        self.ptr != 0
    }

    /// The number of the page.
    pub closed spec fn page(&self) -> usize {
        self.page
    }
}

impl crate::interrupter::PageHandle for PageHandle {
    closed spec fn ptr(&self) -> usize {
        self.ptr
    }

    fn page_ptr(&self) -> (ptr: usize) {
        proof {
            use_type_invariant(self);
        }
        self.ptr
    }
}

/// A timing wheel that functions as an [`MmuInterrupter`].
///
/// It is driven by the embedder calling [`TimingWheelInterrupter::tick`]. Thus,
/// any relationship with wall-clock time is established by the embedder.
///
/// Stores that start running between the same two ticks share an interrupt
/// page, so protecting that one page interrupts all of them.
pub struct TimingWheelInterrupter {
    /// Number of ticks so far. Wraps in the extreme case, after a whole number
    /// of turns. `tick()` advances it before doing anything.
    hand: u64,
    /// "Hours" on the timing wheel. Each slot contains one page, which gets
    /// protected when the hand reaches the slot. Until then, the page,
    /// unprotected, is doled out to stores which ask to have an interrupt
    /// scheduled at that slot. If there is no page there, one is reclaimed
    /// from `unprotected` or, failing that, newly mapped.
    slots: Vec<Option<usize>>,
    /// All pages. Slots, queues and handles name a page by its index here.
    pages: Vec<Page>,
    /// Pages which the hand has reached and whose last holding store has let
    /// go. These are ready to get unprotected (lazily) and then moved to
    /// `unprotected`.
    to_unprotect: Vec<usize>,
    /// Unprotected pages with no holders, ready to be used in `slots` as
    /// necessary.
    unprotected: Vec<usize>,
    /// The page that the tick under way is protecting.
    protecting: Option<usize>,
    /// The pages that the tick under way took off `to_unprotect`.
    drained: Vec<usize>,
    /// How many of `drained` have been unprotected.
    recycled: usize,
}

impl View for TimingWheelInterrupter {
    type V = Wheel;

    closed spec fn view(&self) -> Wheel {
        Wheel {
            hand: self.hand,
            slots: self.slots@,
            pages: Seq::new(self.pages@.len(), |i: int| self.pages@[i]@),
            to_unprotect: self.to_unprotect@,
            unprotected: self.unprotected@,
            phase: match self.protecting {
                Some(page) => TickPhase::Protecting(page),
                None => model::unprotecting(self.drained@.skip(self.recycled as int)),
            },
        }
    }
}

impl TimingWheelInterrupter {
    /// The part of the tick's progress that the view does not show.
    pub closed spec fn progress_ok(&self) -> bool {
        self.recycled <= self.drained@.len()
    }

    /// Returns an interrupter that gives each store at least
    /// `ticks_per_interrupt` full tick intervals before interrupting it.
    pub fn new(ticks_per_interrupt: u32) -> (wheel: Self)
        requires
            ticks_per_interrupt < usize::MAX,
        ensures
            wheel.wf(),
            wheel@ == Wheel::initial((ticks_per_interrupt + 1) as nat),
            wheel@.slots.len() == ticks_per_interrupt + 1,
    {
        // The +1 makes this "at least N ticks". (Without, it would mean "at
        // most N ticks".) The +1 compensates for the fraction of the current
        // tick that passed before a store acquired its page.
        let count: usize = ticks_per_interrupt as usize + 1;
        let mut slots: Vec<Option<usize>> = Vec::new();
        while slots.len() < count
            invariant
                slots.len() <= count,
                forall|i: int| 0 <= i < slots.len() ==> slots@[i] is None,
            decreases count - slots.len(),
        {
            slots.push(None);
        }
        let wheel = TimingWheelInterrupter {
            hand: 0,
            slots,
            pages: Vec::new(),
            to_unprotect: Vec::new(),
            unprotected: Vec::new(),
            protecting: None,
            drained: Vec::new(),
            recycled: 0,
        };
        proof {
            assert(wheel@ =~= Wheel::initial(count as nat));
            upkeep::initial_has_inv(count as nat);
        }
        wheel
    }

    /// The index of the slot that the hand points to when it has this value.
    pub fn slot(&self, hand: u64) -> (slot: usize)
        requires
            self.wf(),
        ensures
            slot == model::slot_of(hand as int, self@.slots.len() as int),
            slot == hand as int % self@.slots.len() as int,
            slot < self@.slots.len(),
    {
        let len: u64 = self.slots.len() as u64;
        (hand % len) as usize
    }

    /// The value of the hand after one more tick. The hand starts over at a
    /// multiple of the number of slots, so the slots keep their order.
    fn next_hand(&self) -> (hand: u64)
        requires
            self.wf(),
        ensures
            hand == self@.next_hand(),
    {
        let len: u64 = self.slots.len() as u64;
        let last: u64 = u64::MAX - (u64::MAX % len + 1) % len;
        proof {
            schedule::last_hand(len as int);
        }
        if self.hand >= last {
            0
        } else {
            self.hand + 1
        }
    }

    /// Advances the wheel, interrupting stores watching a page at the next
    /// slot.
    ///
    /// Until this is first called, nothing is interrupted.
    ///
    /// The hand advances and reaches the slot in one step, so no store is given
    /// a page that is just being reached. The tick is complete when `Done` is
    /// returned, here or by [`resume`](Self::resume). Until then, do what is
    /// asked for and resume. Pages may be acquired and released meanwhile, but
    /// no other tick starts, so no page is unprotected before it is protected.
    pub fn tick(&mut self) -> (action: TickAction)
        requires
            old(self).wf(),
            old(self)@.phase is Idle,
        ensures
            final(self).wf(),
            final(self)@ == old(self)@.start_tick(),
            action == final(self)@.action(),
    {
        proof {
            upkeep::start_tick_keeps_inv(self@);
        }
        self.hand = self.next_hand();
        let slot: usize = self.slot(self.hand);
        if let Some(page) = self.slots[slot] {
            if self.pages[page].reach() {
                // This page is burned now; it has stores watching it, and it
                // is about to be protected. Don't hand it out to any new
                // stores, at least not until it's been renounced by all of
                // them and recycled.
                self.slots.set(slot, None);
                self.protecting = Some(page);
                assert(self@ =~= old(self)@.start_tick());
                return self.action();
            }
        }
        proof {
            let advanced = Wheel { hand: old(self)@.next_hand(), ..old(self)@ };
            assert(self@.pages =~= advanced.pages);
            assert(self@ =~= advanced);
        }
        self.drain();
        self.action()
    }

    /// Goes on with the tick that is under way, after what it asked for last
    /// has been done.
    pub fn resume(&mut self) -> (action: TickAction)
        requires
            old(self).wf(),
        ensures
            final(self).wf(),
            final(self)@ == old(self)@.resume_tick(),
            action == final(self)@.action(),
    {
        proof {
            upkeep::resume_tick_keeps_inv(self@);
        }
        if self.protecting.is_some() {
            self.drain();
        } else if self.recycled < self.drained.len() {
            let page: usize = self.drained[self.recycled];
            assert(model::drained(self@.phase)[0] == page);
            assert(model::drained(self@.phase).contains(page));
            self.pages[page].recycle();
            self.unprotected.push(page);
            self.recycled = self.recycled + 1;
            proof {
                let drained = old(self).drained@;
                let recycled = old(self).recycled as int;
                assert(drained.skip(recycled).skip(1) =~= drained.skip(recycled + 1));
                assert(self@.pages =~= old(self)@.resume_tick().pages);
                assert(self@ =~= old(self)@.resume_tick());
            }
        }
        self.action()
    }

    /// Takes all pages off the queue, to unprotect them one by one.
    fn drain(&mut self)
        ensures
            final(self)@ == old(self)@.drain(),
            final(self).progress_ok(),
    {
        let mut queue: Vec<usize> = Vec::new();
        std::mem::swap(&mut queue, &mut self.to_unprotect);
        self.drained = queue;
        self.recycled = 0;
        self.protecting = None;
        proof {
            assert(self.drained@.skip(0) =~= old(self)@.to_unprotect);
            assert(self@.pages =~= old(self)@.pages);
        }
    }

    /// What has to be done for the tick that is under way.
    fn action(&self) -> (action: TickAction)
        requires
            self.wf(),
        ensures
            action == self@.action(),
    {
        if let Some(page) = self.protecting {
            TickAction::Protect(self.pages[page].ptr())
        } else if self.recycled < self.drained.len() {
            let page: usize = self.drained[self.recycled];
            assert(model::drained(self@.phase)[0] == page);
            assert(model::drained(self@.phase).contains(page));
            TickAction::Unprotect(self.pages[page].ptr())
        } else {
            TickAction::Done
        }
    }

    /// Whether one more store can share the page that is handed out next.
    pub fn can_acquire(&self) -> (room: bool)
        requires
            self.wf(),
        ensures
            room == self.has_room(),
            !room <==> {
                let slot = self@.slots[self@.hand as int % self@.slots.len() as int];
                slot is Some && self@.pages[slot->0 as int].holders == REFCOUNT_MASK
            },
    {
        match self.slots[self.slot(self.hand)] {
            Some(page) => self.pages[page].refcount() < REFCOUNT_MASK,
            None => true,
        }
    }
}

impl MmuInterrupter for TimingWheelInterrupter {
    type Handle = PageHandle;

    open spec fn wf(&self) -> bool {
        self@.inv() && self.progress_ok()
    }

    open spec fn has_room(&self) -> bool {
        self@.has_room()
    }

    open spec fn needs_page(&self) -> bool {
        self@.needs_page()
    }

    open spec fn is_held(&self, page: &PageHandle) -> bool {
        self@.holds(page.page()) && self@.pages[page.page() as int].ptr == page.ptr()
    }

    open spec fn is_readable(&self, page: &PageHandle) -> bool {
        self@.is_readable(page.page())
    }

    open spec fn is_mapped(&self, ptr: usize) -> bool {
        self@.is_mapped(ptr)
    }

    /// Hands out a page from the furthest-in-the-future slot.
    fn acquire_page(&mut self) -> (page: Option<PageHandle>)
        ensures
            page is None <==> old(self)@.slots[old(self)@.hand as int
                % old(self)@.slots.len() as int] is None && old(self)@.unprotected.len() == 0,
            page matches Some(handle) ==> {
                &&& handle.page() == old(self)@.next_page()
                &&& handle.ptr() == old(self)@.pages[handle.page() as int].ptr
                &&& final(self)@ == old(self)@.acquire()
            },
    {
        let slot: usize = self.slot(self.hand);
        let page: usize = match self.slots[slot] {
            Some(page) => page,
            None => {
                if self.unprotected.is_empty() {
                    return None;
                }
                assert(self.unprotected@.contains(self.unprotected@.last()));
                let page: usize = self.unprotected.pop().unwrap();
                self.slots.set(slot, Some(page));
                page
            },
        };
        proof {
            upkeep::acquire_keeps_inv(old(self)@);
        }
        self.pages[page].acquire();
        let ptr: usize = self.pages[page].ptr();
        proof {
            assert(self@.pages =~= old(self)@.acquire().pages);
            assert(self@ =~= old(self)@.acquire());
            upkeep::same_addresses_are_mapped(old(self)@, self@);
        }
        Some(PageHandle { page, ptr })
    }

    fn acquire_new_page(&mut self, ptr: usize) -> (page: PageHandle)
        ensures
            page.page() == old(self)@.pages.len(),
            final(self)@ == old(self)@.acquire_new(ptr),
    {
        let slot: usize = self.slot(self.hand);
        let page: usize = self.pages.len();
        let mut new_page: Page = Page::new(ptr);
        new_page.acquire();
        self.pages.push(new_page);
        self.slots.set(slot, Some(page));
        proof {
            assert(self.pages.len() == old(self)@.pages.len() + 1);
            upkeep::acquire_new_keeps_inv(old(self)@, ptr);
            assert(self@.pages =~= old(self)@.acquire_new(ptr).pages);
            assert(self@ =~= old(self)@.acquire_new(ptr));
            upkeep::new_address_is_mapped(old(self)@, ptr);
        }
        PageHandle { page, ptr }
    }

    /// The last store to let go of a page that the hand has reached queues the
    /// page for recycling.
    fn release_page(&mut self, page: PageHandle)
        ensures
            final(self)@ == old(self)@.release(page.page()),
    {
        proof {
            upkeep::release_keeps_inv(self@, page.page());
        }
        if self.pages[page.page].release() {
            self.to_unprotect.push(page.page);
        }
        proof {
            assert(self@.pages =~= old(self)@.release(page.page()).pages);
            assert(self@ =~= old(self)@.release(page.page()));
            upkeep::same_addresses_are_mapped(old(self)@, self@);
        }
    }
}

} // verus!
