use mmu_interruption::wheel::{PageHandle as WheelPage, TickAction};
use mmu_interruption::{MmuInterrupter, PageHandle, TimingWheelInterrupter};

/// Memory as the embedder sees it: pages are mapped at successive addresses.
struct Memory {
    mapped: usize,
    protected: Vec<usize>,
    calls: usize,
}

impl Memory {
    fn new() -> Memory {
        Memory {
            mapped: 0,
            protected: Vec::new(),
            calls: 0,
        }
    }

    fn map(&mut self) -> usize {
        self.mapped += 1;
        self.mapped * 0x1000
    }

    fn is_protected(&self, ptr: usize) -> bool {
        self.protected.contains(&ptr)
    }

    /// Makes the call that the wheel asked for. Returns whether there was one.
    fn perform(&mut self, action: &TickAction) -> bool {
        match action {
            TickAction::Done => return false,
            TickAction::Protect(ptr) => {
                assert!(!self.is_protected(*ptr));
                self.protected.push(*ptr);
            }
            TickAction::Unprotect(ptr) => {
                assert!(self.is_protected(*ptr));
                self.protected.retain(|p| p != ptr);
            }
        }
        self.calls += 1;
        true
    }
}

fn acquire(wheel: &mut TimingWheelInterrupter, memory: &mut Memory) -> WheelPage {
    assert!(wheel.can_acquire());
    match wheel.acquire_page() {
        Some(page) => page,
        None => wheel.acquire_new_page(memory.map()),
    }
}

fn tick(wheel: &mut TimingWheelInterrupter, memory: &mut Memory) {
    let mut action = wheel.tick();
    while memory.perform(&action) {
        action = wheel.resume();
    }
}

fn protect(action: TickAction) -> usize {
    match action {
        TickAction::Protect(ptr) => ptr,
        _ => panic!("a page should be protected"),
    }
}

fn unprotect(action: TickAction) -> usize {
    match action {
        TickAction::Unprotect(ptr) => ptr,
        _ => panic!("a page should be unprotected"),
    }
}

// Shows that a ticked wheel interrupts a busy loop but only after it has run
// for at least the timeslice.
#[test]
fn timing_wheel_interrupts_after_timeslice() {
    const TIMESLICE: u32 = 3;
    const TOTAL_TICKS: u32 = 20;

    let mut wheel = TimingWheelInterrupter::new(TIMESLICE);
    let mut memory = Memory::new();
    let mut held: Vec<u32> = Vec::new();
    let mut acquired_at = 0;
    let mut page = acquire(&mut wheel, &mut memory);
    for count in 1..=TOTAL_TICKS {
        tick(&mut wheel, &mut memory);
        if memory.is_protected(page.page_ptr()) {
            held.push(count - acquired_at);
            wheel.release_page(page);
            acquired_at = count;
            page = acquire(&mut wheel, &mut memory);
            assert!(!memory.is_protected(page.page_ptr()));
        }
    }
    wheel.release_page(page);
    held.push(TOTAL_TICKS - acquired_at);

    assert!(held.len() > 1, "the loop should have been interrupted");
    // The last release is the loop finishing, not an interruption.
    for interrupted in &held[..held.len() - 1] {
        assert_eq!(*interrupted, TIMESLICE + 1);
    }
    assert_eq!(held.len(), 6);
}

#[test]
fn no_timeslice_means_interruption_at_next_tick() {
    let mut wheel = TimingWheelInterrupter::new(0);
    let mut memory = Memory::new();
    let page = acquire(&mut wheel, &mut memory);
    assert!(!memory.is_protected(page.page_ptr()));
    tick(&mut wheel, &mut memory);
    assert!(memory.is_protected(page.page_ptr()));
}

#[test]
fn unticked_wheel_interrupts_nobody() {
    let mut wheel = TimingWheelInterrupter::new(0);
    let mut memory = Memory::new();
    for _ in 0..100 {
        let page = acquire(&mut wheel, &mut memory);
        assert!(!memory.is_protected(page.page_ptr()));
        wheel.release_page(page);
    }
    assert_eq!(memory.calls, 0);
    assert_eq!(memory.mapped, 1);
}

#[test]
fn stores_between_ticks_share_a_page() {
    let mut wheel = TimingWheelInterrupter::new(1);
    let mut memory = Memory::new();
    let a = acquire(&mut wheel, &mut memory);
    let b = acquire(&mut wheel, &mut memory);
    assert_eq!(a.page_ptr(), b.page_ptr());
    wheel.release_page(a);
    let c = acquire(&mut wheel, &mut memory);
    assert_eq!(c.page_ptr(), b.page_ptr());
    tick(&mut wheel, &mut memory);
    let d = acquire(&mut wheel, &mut memory);
    assert_ne!(d.page_ptr(), b.page_ptr());
    // One call interrupts all stores that share the page.
    tick(&mut wheel, &mut memory);
    assert_eq!(memory.calls, 1);
    assert!(memory.is_protected(b.page_ptr()));
    assert!(memory.is_protected(c.page_ptr()));
    assert!(!memory.is_protected(d.page_ptr()));
}

#[test]
fn unwatched_page_is_left_alone() {
    let mut wheel = TimingWheelInterrupter::new(1);
    let mut memory = Memory::new();
    let page = acquire(&mut wheel, &mut memory);
    let ptr = page.page_ptr();
    wheel.release_page(page);
    tick(&mut wheel, &mut memory);
    tick(&mut wheel, &mut memory);
    assert_eq!(memory.calls, 0);
    // The page is still in its slot.
    let again = acquire(&mut wheel, &mut memory);
    assert_eq!(again.page_ptr(), ptr);
    assert_eq!(memory.mapped, 1);
}

#[test]
fn protected_page_stays_protected_until_last_release() {
    let mut wheel = TimingWheelInterrupter::new(0);
    let mut memory = Memory::new();
    let a = acquire(&mut wheel, &mut memory);
    let b = acquire(&mut wheel, &mut memory);
    let ptr = a.page_ptr();
    tick(&mut wheel, &mut memory);
    assert!(memory.is_protected(ptr));
    wheel.release_page(a);
    tick(&mut wheel, &mut memory);
    assert!(memory.is_protected(ptr));
    wheel.release_page(b);
    assert!(memory.is_protected(ptr));
    tick(&mut wheel, &mut memory);
    assert!(!memory.is_protected(ptr));
    assert_eq!(memory.calls, 2);
}

#[test]
fn burned_page_is_not_handed_out() {
    let mut wheel = TimingWheelInterrupter::new(0);
    let mut memory = Memory::new();
    let a = acquire(&mut wheel, &mut memory);
    tick(&mut wheel, &mut memory);
    let b = acquire(&mut wheel, &mut memory);
    assert_ne!(a.page_ptr(), b.page_ptr());
    assert_eq!(memory.mapped, 2);
}

#[test]
fn spare_page_that_was_recycled_last_is_reused_first() {
    let mut wheel = TimingWheelInterrupter::new(0);
    let mut memory = Memory::new();
    let a = acquire(&mut wheel, &mut memory);
    tick(&mut wheel, &mut memory);
    let b = acquire(&mut wheel, &mut memory);
    tick(&mut wheel, &mut memory);
    let (first, second) = (a.page_ptr(), b.page_ptr());
    wheel.release_page(a);
    wheel.release_page(b);
    let action = wheel.tick();
    assert!(memory.perform(&action));
    assert_eq!(unprotect(action), first);
    let action = wheel.resume();
    assert!(memory.perform(&action));
    assert_eq!(unprotect(action), second);
    assert!(matches!(wheel.resume(), TickAction::Done));
    let c = acquire(&mut wheel, &mut memory);
    assert_eq!(c.page_ptr(), second);
    tick(&mut wheel, &mut memory);
    let d = acquire(&mut wheel, &mut memory);
    assert_eq!(d.page_ptr(), first);
    assert_eq!(memory.mapped, 2);
}

#[test]
fn release_during_protection_is_protected_before_unprotected() {
    let mut wheel = TimingWheelInterrupter::new(0);
    let mut memory = Memory::new();
    let page = acquire(&mut wheel, &mut memory);
    let ptr = page.page_ptr();
    let action = wheel.tick();
    // The store lets go while the page is being protected.
    wheel.release_page(page);
    assert!(memory.perform(&action));
    assert_eq!(protect(action), ptr);
    let action = wheel.resume();
    assert!(memory.perform(&action));
    assert_eq!(unprotect(action), ptr);
    assert!(matches!(wheel.resume(), TickAction::Done));
    assert!(!memory.is_protected(ptr));
    assert_eq!(acquire(&mut wheel, &mut memory).page_ptr(), ptr);
}

#[test]
fn acquisition_during_tick_gets_readable_page() {
    let mut wheel = TimingWheelInterrupter::new(0);
    let mut memory = Memory::new();
    let a = acquire(&mut wheel, &mut memory);
    let action = wheel.tick();
    let b = acquire(&mut wheel, &mut memory);
    assert_ne!(a.page_ptr(), b.page_ptr());
    assert!(memory.perform(&action));
    assert!(!memory.is_protected(b.page_ptr()));
    assert!(matches!(wheel.resume(), TickAction::Done));
    // The store that came after the hand had moved on is interrupted by the
    // next tick.
    tick(&mut wheel, &mut memory);
    assert!(memory.is_protected(b.page_ptr()));
}

#[test]
fn page_queued_during_recycling_waits_for_next_tick() {
    let mut wheel = TimingWheelInterrupter::new(0);
    let mut memory = Memory::new();
    let a = acquire(&mut wheel, &mut memory);
    tick(&mut wheel, &mut memory);
    let b = acquire(&mut wheel, &mut memory);
    tick(&mut wheel, &mut memory);
    let (first, second) = (a.page_ptr(), b.page_ptr());
    wheel.release_page(a);
    let action = wheel.tick();
    wheel.release_page(b);
    assert!(memory.perform(&action));
    assert_eq!(unprotect(action), first);
    assert!(matches!(wheel.resume(), TickAction::Done));
    assert!(memory.is_protected(second));
    tick(&mut wheel, &mut memory);
    assert!(!memory.is_protected(second));
}

#[test]
fn resuming_without_tick_does_nothing() {
    let mut wheel = TimingWheelInterrupter::new(2);
    assert!(matches!(wheel.resume(), TickAction::Done));
    assert!(wheel.acquire_page().is_none());
}

#[test]
fn pages_are_mapped_only_when_needed() {
    const TIMESLICE: u32 = 4;
    let mut wheel = TimingWheelInterrupter::new(TIMESLICE);
    let mut memory = Memory::new();
    for _ in 0..200 {
        let page = acquire(&mut wheel, &mut memory);
        tick(&mut wheel, &mut memory);
        wheel.release_page(page);
    }
    assert_eq!(memory.mapped, TIMESLICE as usize + 1);
    assert_eq!(memory.calls, 0);
}

// Stores come in at every position of the hand, and each runs for its timeslice
// and no longer.
#[test]
fn every_store_gets_its_timeslice() {
    const TIMESLICE: usize = 2;
    let mut wheel = TimingWheelInterrupter::new(TIMESLICE as u32);
    let mut memory = Memory::new();
    let mut running: Vec<(usize, WheelPage)> = Vec::new();
    let mut interrupted = 0;
    for count in 0..50 {
        running.push((count, acquire(&mut wheel, &mut memory)));
        running.push((count, acquire(&mut wheel, &mut memory)));
        tick(&mut wheel, &mut memory);
        let mut still_running = Vec::new();
        for (since, page) in running {
            let ticks = count + 1 - since;
            assert_eq!(
                memory.is_protected(page.page_ptr()),
                ticks == TIMESLICE + 1
            );
            if ticks == TIMESLICE + 1 {
                wheel.release_page(page);
                interrupted += 1;
            } else {
                still_running.push((since, page));
            }
        }
        running = still_running;
    }
    assert_eq!(interrupted, 2 * (50 - TIMESLICE));
    // One page for each slot, and one that waits to be recycled.
    assert_eq!(memory.mapped, TIMESLICE + 2);
}

#[test]
fn release_undoes_acquire() {
    let mut wheel = TimingWheelInterrupter::new(0);
    let mut memory = Memory::new();
    let a = acquire(&mut wheel, &mut memory);
    let ptr = a.page_ptr();
    wheel.release_page(a);
    let b = acquire(&mut wheel, &mut memory);
    wheel.release_page(b);
    // Nobody watches the page, so the tick leaves it alone.
    tick(&mut wheel, &mut memory);
    assert_eq!(memory.calls, 0);
    assert_eq!(acquire(&mut wheel, &mut memory).page_ptr(), ptr);
}

#[test]
fn turn_visits_each_slot_once() {
    const TIMESLICE: usize = 4;
    let mut wheel = TimingWheelInterrupter::new(TIMESLICE as u32);
    let mut memory = Memory::new();
    let mut pages: Vec<WheelPage> = Vec::new();
    for _ in 0..TIMESLICE {
        pages.push(acquire(&mut wheel, &mut memory));
        tick(&mut wheel, &mut memory);
    }
    pages.push(acquire(&mut wheel, &mut memory));
    assert_eq!(memory.mapped, TIMESLICE + 1);
    assert_eq!(memory.calls, 0);
    // The slots come round in the order in which the hand left them.
    for page in &pages {
        let action = wheel.tick();
        assert!(memory.perform(&action));
        assert_eq!(protect(action), page.page_ptr());
        assert!(matches!(wheel.resume(), TickAction::Done));
    }
}

#[test]
fn tick_in_progress_spares_new_store() {
    let mut wheel = TimingWheelInterrupter::new(1);
    let mut memory = Memory::new();
    let a = acquire(&mut wheel, &mut memory);
    tick(&mut wheel, &mut memory);
    let action = wheel.tick();
    let b = acquire(&mut wheel, &mut memory);
    assert!(memory.perform(&action));
    assert_eq!(protect(action), a.page_ptr());
    assert!(matches!(wheel.resume(), TickAction::Done));
    assert!(!memory.is_protected(b.page_ptr()));
    tick(&mut wheel, &mut memory);
    assert!(!memory.is_protected(b.page_ptr()));
    tick(&mut wheel, &mut memory);
    assert!(memory.is_protected(b.page_ptr()));
}

#[test]
fn slots_follow_the_hand() {
    let wheel = TimingWheelInterrupter::new(2);
    let slots: Vec<usize> = (5..9).map(|hand| wheel.slot(hand)).collect();
    assert_eq!(slots, vec![2, 0, 1, 2]);
}

// The tick that comes after as many others as the timeslice has protects the
// page, and no other tick does.
#[test]
fn tick_protects_kept_page_exactly_when_due() {
    const TIMESLICE: usize = 3;
    let mut wheel = TimingWheelInterrupter::new(TIMESLICE as u32);
    let mut memory = Memory::new();
    let page = acquire(&mut wheel, &mut memory);
    for ticks in 0..12 {
        let action = wheel.tick();
        assert_eq!(
            matches!(action, TickAction::Protect(ptr) if ptr == page.page_ptr()),
            ticks == TIMESLICE
        );
        if memory.perform(&action) {
            assert!(matches!(wheel.resume(), TickAction::Done));
        }
    }
}

#[test]
fn claims_of_different_intervals_are_on_different_pages() {
    let mut wheel = TimingWheelInterrupter::new(1);
    let mut memory = Memory::new();
    let mut ptrs: Vec<usize> = Vec::new();
    for _ in 0..6 {
        let page = acquire(&mut wheel, &mut memory);
        assert!(!ptrs.contains(&page.page_ptr()));
        ptrs.push(page.page_ptr());
        tick(&mut wheel, &mut memory);
    }
}

// The last holder lets go before the tick reaches the page, while the page is
// being protected, and after the queue has been drained.
#[test]
fn last_release_overlapping_tick_leaves_page_in_one_place() {
    for moment in 0..3 {
        let mut wheel = TimingWheelInterrupter::new(0);
        let mut memory = Memory::new();
        let other = acquire(&mut wheel, &mut memory);
        tick(&mut wheel, &mut memory);
        let page = acquire(&mut wheel, &mut memory);
        let ptr = page.page_ptr();
        wheel.release_page(other);
        let mut held = Some(page);
        if moment == 0 {
            wheel.release_page(held.take().unwrap());
        }
        let mut action = wheel.tick();
        if moment == 1 {
            wheel.release_page(held.take().unwrap());
        }
        while memory.perform(&action) {
            action = wheel.resume();
            if moment == 2 && held.is_some() {
                wheel.release_page(held.take().unwrap());
            }
        }
        // Only a page that was released too late is left to the next tick.
        assert_eq!(memory.is_protected(ptr), moment == 2);
        tick(&mut wheel, &mut memory);
        assert!(!memory.is_protected(ptr));
    }
}
