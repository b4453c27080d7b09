use mmu_interruption::calls::{Access, Mmap, Munmap};
use mmu_interruption::page::{Page, REACHED, REFCOUNT_MASK};
use mmu_interruption::wheel::TickAction;

#[test]
fn reached_bit_and_refcount_fill_the_word() {
    assert_eq!(REACHED, 1 << 31);
    assert_eq!(REFCOUNT_MASK, REACHED - 1);
}

#[test]
fn refcount_counts_holders() {
    let mut page = Page::new(0x1000);
    assert_eq!(page.ptr(), 0x1000);
    assert_eq!(page.refcount(), 0);
    page.acquire();
    page.acquire();
    assert_eq!(page.refcount(), 2);
    assert!(!page.release());
    assert_eq!(page.refcount(), 1);
    assert!(!page.release());
    assert_eq!(page.refcount(), 0);
}

#[test]
fn last_holder_of_reached_page_is_told() {
    let mut page = Page::new(0x1000);
    page.acquire();
    page.acquire();
    assert!(page.reach());
    assert_eq!(page.refcount(), 2);
    assert!(!page.release());
    assert!(page.release());
    page.recycle();
    page.acquire();
    assert!(!page.release());
}

#[test]
fn reaching_an_unwatched_page_is_walked_back() {
    let mut page = Page::new(0x1000);
    assert!(!page.reach());
    page.acquire();
    assert!(!page.release());
}

#[test]
fn interrupt_pages_are_one_readable_page() {
    let call = Mmap::page_of_size(4096);
    assert_eq!(call.len, 4096);
    assert!(matches!(call.access, Access::Readable));
    let call = Munmap::page_of_size(0x2000, 4096);
    assert_eq!((call.ptr, call.len), (0x2000, 4096));
}

#[test]
fn actions_stand_for_calls() {
    assert!(TickAction::Done.call_of_size(4096).is_none());
    let call = TickAction::Protect(0x2000).call_of_size(4096).unwrap();
    assert_eq!((call.ptr, call.len), (0x2000, 4096));
    assert!(matches!(call.access, Access::Inaccessible));
    let call = TickAction::Unprotect(0x3000).call_of_size(4096).unwrap();
    assert_eq!((call.ptr, call.len), (0x3000, 4096));
    assert!(matches!(call.access, Access::Readable));
}

#[test]
fn calls_span_a_page_of_this_machine() {
    let page_size = rustix::param::page_size();
    assert!(page_size.is_power_of_two());
    assert_eq!(Mmap::page_of_size(page_size).len, page_size);
    let call = Munmap::page_of_size(0x2000, page_size);
    assert_eq!((call.ptr, call.len), (0x2000, page_size));
    assert!(TickAction::Done.call_of_size(page_size).is_none());
    let call = TickAction::Protect(0x2000).call_of_size(page_size).unwrap();
    assert_eq!((call.ptr, call.len), (0x2000, page_size));
    let call = TickAction::Unprotect(0x2000)
        .call_of_size(page_size)
        .unwrap();
    assert_eq!((call.ptr, call.len), (0x2000, page_size));
}
