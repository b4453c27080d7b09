//! Interrupt pages and how many stores hold each of them.

use vstd::prelude::*;

verus! {

/// The bit of a page's word that marks the page as having been reached by the
/// hand of the timing wheel and severed from the wheel. It tells the last
/// store to let go of the page that the page is to be queued for recycling.
pub const REACHED: u32 = 0x8000_0000;

/// Masks the number of stores that hold a page out of the page's word.
pub const REFCOUNT_MASK: u32 = 0x7fff_ffff;

/// What a page's word stands for, beside the address of the page.
pub struct PageModel {
    /// The address that checkpoints load from.
    pub ptr: usize,
    /// Whether the hand has reached the page while stores were watching it.
    pub reached: bool,
    /// The number of stores that hold the page.
    pub holders: nat,
}

impl PageModel {
    /// A page that nobody holds and that the hand has not reached.
    pub open spec fn clean(ptr: usize) -> PageModel {
        PageModel { ptr, reached: false, holders: 0 }
    }

    /// The page with one more holder.
    pub open spec fn held(self) -> PageModel {
        PageModel { holders: self.holders + 1, ..self }
    }

    /// The page with one holder fewer.
    pub open spec fn let_go(self) -> PageModel {
        PageModel { holders: (self.holders - 1) as nat, ..self }
    }
}

/// One interrupt page.
pub struct Page {
    ptr: usize,
    /// `REACHED` plus the number of stores that hold this page. They share one
    /// word so that marking the page reached and reading its refcount is a
    /// single step.
    reached_and_refcount: u32,
}

impl View for Page {
    type V = PageModel;

    closed spec fn view(&self) -> PageModel {
        PageModel {
            ptr: self.ptr,
            reached: self.reached_and_refcount >= REACHED,
            holders: (self.reached_and_refcount as int % REACHED as int) as nat,
        }
    }
}

/// The mask keeps the refcount, and setting the bit leaves the refcount alone.
proof fn lemma_word(word: u32)
    ensures
        word & REFCOUNT_MASK == word as int % REACHED as int,
        word | REACHED == REACHED + word as int % REACHED as int,
{
    assert(word & 0x7fff_ffff == word % 0x8000_0000) by (bit_vector);
    assert(word | 0x8000_0000 == 0x8000_0000 + word % 0x8000_0000) by (bit_vector);
}

impl Page {
    /// A page that was just mapped, readable, at `ptr`.
    pub fn new(ptr: usize) -> (page: Page)
        requires
            ptr != 0,
        ensures
            page@ == PageModel::clean(ptr),
            page@ == (PageModel { ptr, reached: false, holders: 0 }),
    {
        Page { ptr, reached_and_refcount: 0 }
    }

    /// The address that checkpoints load from.
    pub fn ptr(&self) -> (ptr: usize)
        ensures
            ptr == self@.ptr,
    {
        self.ptr
    }

    /// The number of stores that hold the page.
    pub fn refcount(&self) -> (count: u32)
        ensures
            count == self@.holders,
            count <= REFCOUNT_MASK,
    {
        proof {
            lemma_word(self.reached_and_refcount);
        }
        self.reached_and_refcount & REFCOUNT_MASK
    }

    /// Lets the hand reach the page. Returns whether any store was watching
    /// it. If none was, the mark is walked back, as there is no sense in
    /// protecting the page.
    pub fn reach(&mut self) -> (watched: bool)
        ensures
            watched == (old(self)@.holders > 0),
            final(self)@ == (PageModel { reached: watched, ..old(self)@ }),
    {
        proof {
            lemma_word(self.reached_and_refcount);
        }
        let prev: u32 = self.reached_and_refcount;
        self.reached_and_refcount = prev | REACHED;
        if prev & REFCOUNT_MASK == 0 {
            self.reached_and_refcount = 0;
            false
        } else {
            true
        }
    }

    /// Counts one more store as holding the page.
    pub fn acquire(&mut self)
        requires
            old(self)@.holders < REFCOUNT_MASK,
        ensures
            final(self)@ == old(self)@.held(),
            final(self)@ == (PageModel { holders: old(self)@.holders + 1, ..old(self)@ }),
    {
        self.reached_and_refcount = self.reached_and_refcount + 1;
    }

    /// Counts one store fewer as holding the page. Returns whether that was
    /// the last holder of a page that the hand has reached.
    pub fn release(&mut self) -> (last_of_reached: bool)
        requires
            old(self)@.holders > 0,
        ensures
            final(self)@ == old(self)@.let_go(),
            final(self)@ == (PageModel {
                holders: (old(self)@.holders - 1) as nat,
                ..old(self)@
            }),
            last_of_reached == (old(self)@.reached && old(self)@.holders == 1),
    {
        let prev: u32 = self.reached_and_refcount;
        self.reached_and_refcount = prev - 1;
        prev == REACHED + 1
    }

    /// Makes the page fit for use in a slot again.
    pub fn recycle(&mut self)
        ensures
            final(self)@ == PageModel::clean(old(self)@.ptr),
            final(self)@ == (PageModel { reached: false, holders: 0, ..old(self)@ }),
    {
        self.reached_and_refcount = 0;
    }
}

} // verus!
