//! What each operation is for, in terms of pages, slots and addresses.

use crate::calls::Mmap;
use crate::laws;
use crate::model;
use crate::model::{TickPhase, Wheel};
use crate::page::{PageModel, REACHED, REFCOUNT_MASK};
use crate::schedule;
use crate::system;
use crate::system::{Step, System};
use crate::upkeep;
use crate::wheel::TickAction;
use vstd::prelude::*;

verus! {

// Calls

/// To protect a page is to forbid all access to the whole of it.
pub proof fn protecting_forbids_all_access(ptr: usize, page_size: usize)
    ensures
        ({
            let call = TickAction::Protect(ptr).spec_call(page_size);
            &&& call is Some
            &&& call->0.ptr == ptr
            &&& call->0.len == page_size
            &&& call->0.access is Inaccessible
        }),
{
}

/// To unprotect a page is to permit reading the whole of it.
pub proof fn unprotecting_permits_reading(ptr: usize, page_size: usize)
    ensures
        ({
            let call = TickAction::Unprotect(ptr).spec_call(page_size);
            &&& call is Some
            &&& call->0.ptr == ptr
            &&& call->0.len == page_size
            &&& call->0.access is Readable
        }),
{
}

/// A tick that is complete takes no call.
pub proof fn complete_tick_takes_no_call(page_size: usize)
    ensures
        TickAction::Done.spec_call(page_size) is None,
{
}

/// A new interrupt page is one page long and can be read.
pub proof fn new_page_can_be_read(page_size: usize)
    ensures
        Mmap::spec_page(page_size).len == page_size,
        Mmap::spec_page(page_size).access is Readable,
{
}

// Pages

/// A page that was just mapped or recycled keeps its address, was not reached,
/// and is held by nobody.
pub proof fn clean_page_is_free(ptr: usize)
    ensures
        PageModel::clean(ptr).ptr == ptr,
        !PageModel::clean(ptr).reached,
        PageModel::clean(ptr).holders == 0,
{
}

/// One more holder changes nothing else of a page, and letting go undoes it.
pub proof fn holding_only_counts(page: PageModel)
    ensures
        page.held().holders == page.holders + 1,
        page.held().ptr == page.ptr,
        page.held().reached == page.reached,
        page.held().let_go() == page,
        page.holders > 0 ==> page.let_go().held() == page,
{
}

/// The reached bit is the highest of a word, and the count of holders has all
/// the others.
pub proof fn word_is_one_bit_and_a_count()
    ensures
        REACHED == 0x8000_0000u32,
        REFCOUNT_MASK == REACHED - 1,
        REACHED + REFCOUNT_MASK == u32::MAX,
{
}

/// A page that is certain to be unprotected does not fault, and when no tick is
/// under way every other page does.
pub proof fn readable_page_does_not_fault(sys: System, page: usize)
    requires
        sys.inv(),
        page < sys.wheel.pages.len(),
    ensures
        sys.wheel.is_readable(page) ==> !sys.faults(page),
        sys.wheel.phase is Idle ==> (sys.wheel.is_readable(page) <==> !sys.faults(page)),
{
}

// The hand

/// A new wheel has as many slots as it was made with, all of them empty, and no
/// page. Its hand is at zero, and no tick is under way.
pub proof fn new_wheel_is_empty(slots: nat)
    ensures
        Wheel::initial(slots).slots.len() == slots,
        forall|i: int| 0 <= i < slots ==> (#[trigger] Wheel::initial(slots).slots[i]) is None,
        Wheel::initial(slots).pages.len() == 0,
        Wheel::initial(slots).to_unprotect.len() == 0,
        Wheel::initial(slots).unprotected.len() == 0,
        Wheel::initial(slots).hand == 0,
        Wheel::initial(slots).phase is Idle,
{
}

/// The slot of a hand is what is left of the hand after whole turns.
pub proof fn slot_is_rest_of_hand(hand: int, slots: int)
    requires
        0 <= hand,
        1 <= slots,
    ensures
        0 <= model::slot_of(hand, slots) < slots,
        (hand - model::slot_of(hand, slots)) % slots == 0,
{
    vstd::arithmetic::div_mod::lemma_sub_mod_noop_right(hand, hand, slots);
    assert(0int % slots == 0);
}

/// The hand is the number of ticks so far, as long as a `u64` leaves room for
/// one more turn.
pub proof fn hand_counts_ticks(slots: nat, steps: Seq<Step>)
    requires
        1 <= slots <= usize::MAX,
        System::initial(slots).can_run(steps),
        system::ticks(steps) + slots <= u64::MAX,
    ensures
        System::initial(slots).run(steps).wheel.hand == system::ticks(steps),
    decreases steps.len(),
{
    let initial = System::initial(slots);
    if steps.len() > 0 {
        hand_counts_ticks(slots, steps.drop_last());
        laws::new_system_is_in_order(slots);
        laws::hand_moves_by_one_slot_per_tick(initial, steps.drop_last());
        let all: int = u64::MAX + 1;
        assert(0 <= all % (slots as int) < slots);
    }
}

// Ticking

/// A tick that starts looks at one slot, the next one. If the page there has
/// holders, the tick asks to protect that page and takes it out of the slot.
/// Else it protects nothing, and all slots and pages stay as they are.
pub proof fn tick_interrupts_watched_page_of_next_slot(w: Wheel)
    requires
        w.inv(),
        w.phase is Idle,
    ensures
        ({
            let next = (w.hand + 1) % w.slots.len() as int;
            let after = w.start_tick();
            if w.slots[next] is Some && w.pages[w.slots[next]->0 as int].holders > 0 {
                let page = w.slots[next]->0;
                &&& after.action() == TickAction::Protect(w.pages[page as int].ptr)
                &&& after.phase == TickPhase::Protecting(page)
                &&& after.slots[next] is None
                &&& after.pages[page as int].reached
                &&& after.to_unprotect == w.to_unprotect
            } else {
                &&& !(after.action() is Protect)
                &&& after.slots == w.slots
                &&& after.pages == w.pages
                &&& after.to_unprotect.len() == 0
                &&& model::drained(after.phase) == w.to_unprotect
            }
        }),
{
    schedule::tick_moves_hand_by_one_slot(w);
}

/// A tick that starts moves no page into or out of any slot but the next one,
/// takes no page from the spare ones, and changes no page's address or holders.
pub proof fn tick_start_touches_one_slot(w: Wheel)
    requires
        w.inv(),
        w.phase is Idle,
    ensures
        ({
            let next = (w.hand + 1) % w.slots.len() as int;
            let after = w.start_tick();
            &&& after.slots.len() == w.slots.len()
            &&& after.pages.len() == w.pages.len()
            &&& after.unprotected == w.unprotected
            &&& forall|i: int|
                0 <= i < w.slots.len() && i != next ==> #[trigger] after.slots[i] == w.slots[i]
            &&& forall|p: int|
                0 <= p < w.pages.len() ==> {
                    &&& (#[trigger] after.pages[p]).ptr == w.pages[p].ptr
                    &&& after.pages[p].holders == w.pages[p].holders
                    &&& w.slots[next] != Some(p as usize) ==> after.pages[p] == w.pages[p]
                }
        }),
{
    schedule::tick_moves_hand_by_one_slot(w);
}

/// A tick is complete exactly when nothing is asked for.
pub proof fn done_means_complete(w: Wheel)
    ensures
        w.action() is Done <==> w.phase is Idle,
{
}

/// There is nothing to go on with once a tick is complete.
pub proof fn resuming_complete_tick_does_nothing(w: Wheel)
    requires
        w.phase is Idle,
    ensures
        w.resume_tick() == w,
{
}

/// While a page is being protected, the action names that very page, which the
/// hand has reached. Going on with the tick then moves no page, and takes up all
/// queued pages in order.
pub proof fn protected_page_is_the_reached_one(w: Wheel)
    requires
        w.inv(),
        w.action() is Protect,
    ensures
        exists|page: usize|
            w.phase == TickPhase::Protecting(page) && #[trigger] w.is_page(page)
                && w.pages[page as int].reached && w.action() == TickAction::Protect(
                w.pages[page as int].ptr,
            ),
        ({
            let after = w.resume_tick();
            &&& after.slots == w.slots
            &&& after.pages == w.pages
            &&& after.hand == w.hand
            &&& after.unprotected == w.unprotected
            &&& after.to_unprotect.len() == 0
            &&& model::drained(after.phase) == w.to_unprotect
            &&& !(after.action() is Protect)
        }),
{
    if let TickPhase::Protecting(page) = w.phase {
        assert(w.is_page(page));
    }
}

/// When a tick asks to unprotect an address, it is that of a page which was
/// reached and which nobody holds, and going on with the tick makes that very
/// page spare and clean, as the last of the spare pages. Nothing else changes.
pub proof fn unprotected_page_is_the_one_that_becomes_spare(w: Wheel)
    requires
        w.inv(),
        w.action() is Unprotect,
    ensures
        ({
            let after = w.resume_tick();
            let page = after.unprotected.last();
            &&& after.unprotected == w.unprotected.push(page)
            &&& w.is_page(page)
            &&& w.action() == TickAction::Unprotect(w.pages[page as int].ptr)
            &&& w.pages[page as int].reached
            &&& w.pages[page as int].holders == 0
            &&& !after.pages[page as int].reached
            &&& after.pages[page as int].holders == 0
            &&& after.pages[page as int].ptr == w.pages[page as int].ptr
            &&& after.pages.len() == w.pages.len()
            &&& forall|p: int|
                0 <= p < w.pages.len() && p != page ==> #[trigger] after.pages[p] == w.pages[p]
            &&& after.slots == w.slots
            &&& after.hand == w.hand
            &&& after.to_unprotect == w.to_unprotect
            &&& model::drained(w.phase) == seq![page] + model::drained(after.phase)
        }),
{
    if let TickPhase::Unprotecting(pages) = w.phase {
        assert(model::drained(w.phase).contains(pages[0]));
        assert(pages =~= seq![pages[0]] + pages.skip(1));
        assert(model::drained(w.resume_tick().phase) =~= pages.skip(1));
    }
}

/// What a tick that starts now asks for after going on this many times, not
/// counting the protection of a page, if nothing else happens.
pub open spec fn asked_after(w: Wheel, resumes: nat) -> TickAction {
    if w.start_tick().action() is Protect {
        laws::resumed(w.start_tick(), resumes + 1).action()
    } else {
        laws::resumed(w.start_tick(), resumes).action()
    }
}

/// Over a whole tick, each queued page is unprotected by exactly one call, in
/// the order in which the pages were queued, after the call that protects a page
/// if there is one. All of them are then clean and spare, in that order, and no
/// other page but the protected one has changed.
pub proof fn tick_unprotects_each_queued_page_once(w: Wheel)
    requires
        w.inv(),
        w.phase is Idle,
    ensures
        ({
            let queue = w.to_unprotect;
            let started = w.start_tick();
            let calls = if started.action() is Protect {
                queue.len() + 1
            } else {
                queue.len()
            };
            let end = laws::resumed(started, calls);
            &&& forall|i: nat|
                i < queue.len() ==> #[trigger] asked_after(w, i) == TickAction::Unprotect(
                    w.pages[queue[i as int] as int].ptr,
                )
            &&& end.action() is Done
            &&& end.unprotected == w.unprotected + queue
            &&& end.to_unprotect.len() == 0
            &&& end.slots == started.slots
            &&& end.hand == started.hand
            &&& end.pages.len() == w.pages.len()
            &&& forall|p: int|
                0 <= p < w.pages.len() ==> {
                    &&& (#[trigger] end.pages[p]).ptr == w.pages[p].ptr
                    &&& end.pages[p].holders == w.pages[p].holders
                    &&& queue.contains(p as usize) ==> !end.pages[p].reached
                    &&& !queue.contains(p as usize) ==> end.pages[p] == started.pages[p]
                }
        }),
{
    let queue = w.to_unprotect;
    let started = w.start_tick();
    let draining = if started.action() is Protect {
        started.resume_tick()
    } else {
        started
    };
    upkeep::start_tick_keeps_inv(w);
    upkeep::resume_tick_keeps_inv(started);
    assert(draining.phase == model::unprotecting(queue));
    assert forall|i: int| 0 <= i < queue.len() implies draining.is_page(#[trigger] queue[i]) by {
        assert(queue.contains(queue[i]));
    }
    assert forall|i: nat| i < queue.len() implies #[trigger] asked_after(w, i)
        == TickAction::Unprotect(w.pages[queue[i as int] as int].ptr) by {
        laws::lemma_resumed_first(started, i);
        laws::lemma_recycled(draining, queue, i);
        assert(queue.skip(i as int)[0] == queue[i as int]);
        assert(queue.contains(queue[i as int]));
    }
    laws::lemma_resumed_first(started, queue.len());
    laws::lemma_recycled(draining, queue, queue.len());
    assert(queue.take(queue.len() as int) =~= queue);
    assert(queue.skip(queue.len() as int).len() == 0);
}

/// No address is unprotected twice in a tick: the queued pages are at different
/// addresses.
pub proof fn tick_unprotects_no_address_twice(sys: System, i: nat, j: nat)
    requires
        sys.inv(),
        sys.wheel.phase is Idle,
        i < j < sys.wheel.to_unprotect.len(),
    ensures
        asked_after(sys.wheel, i) != asked_after(sys.wheel, j),
{
    let queue = sys.wheel.to_unprotect;
    tick_unprotects_each_queued_page_once(sys.wheel);
    assert(queue.contains(queue[i as int]) && queue.contains(queue[j as int]));
    assert(sys.wheel.pages[queue[i as int] as int].ptr
        != sys.wheel.pages[queue[j as int] as int].ptr);
}

/// A tick that is under way comes to its end: each time it goes on after
/// unprotecting a page there is one page less to unprotect, and acquisitions,
/// releases and calls add none.
pub proof fn tick_comes_to_its_end(sys: System, step: Step)
    requires
        sys.inv(),
        sys.enabled(step),
        !(sys.wheel.phase is Idle),
    ensures
        !(step is Resume) ==> sys.next(step).wheel.phase == sys.wheel.phase,
        step is Resume ==> !(sys.next(step).wheel.phase is Protecting),
        step is Resume && sys.wheel.phase is Unprotecting ==> model::drained(
            sys.next(step).wheel.phase,
        ).len() == model::drained(sys.wheel.phase).len() - 1,
{
    if let TickPhase::Unprotecting(pages) = sys.wheel.phase {
        assert(pages.skip(1).len() == pages.len() - 1);
    }
}

// Acquiring

/// A store is refused a page if and only if the slot that the hand points to has
/// a page which can take no more holders.
pub proof fn refusal_means_page_is_full(w: Wheel)
    requires
        w.inv(),
    ensures
        !w.has_room() <==> {
            let slot = w.slots[w.hand as int % w.slots.len() as int];
            slot is Some && w.pages[slot->0 as int].holders == REFCOUNT_MASK
        },
{
}

/// As long as each page is claimed by fewer stores than it can take, some
/// acquisition is possible in every state: of a page that is at hand, or of one
/// that is mapped at any free address.
pub proof fn acquisition_is_possible(slots: nat, steps: Seq<Step>, ptr: usize)
    requires
        1 <= slots <= usize::MAX,
        System::initial(slots).can_run(steps),
        forall|page: usize| #[trigger]
            System::initial(slots).claims(steps, page) < REFCOUNT_MASK,
        ptr != 0,
        forall|p: int|
            0 <= p < System::initial(slots).run(steps).wheel.pages.len()
                ==> (#[trigger] System::initial(slots).run(steps).wheel.pages[p]).ptr != ptr,
        System::initial(slots).run(steps).wheel.pages.len() < usize::MAX,
    ensures
        ({
            let sys = System::initial(slots).run(steps);
            sys.enabled(Step::Acquire) || sys.enabled(Step::AcquireNew(ptr))
        }),
{
    let initial = System::initial(slots);
    let sys = initial.run(steps);
    laws::new_system_is_in_order(slots);
    laws::run_keeps_order(initial, steps);
    refusal_means_page_is_full(sys.wheel);
    if let Some(page) = sys.wheel.slots[sys.wheel.hand as int % sys.wheel.slots.len() as int] {
        laws::refcount_counts_holders(slots, steps, page);
        assert(initial.claims(steps, page) < REFCOUNT_MASK);
    }
}

/// Whether the page is free for use: it can be read, nobody holds it, and it is
/// in no slot.
pub open spec fn is_free(w: Wheel, page: usize) -> bool {
    &&& page < w.pages.len()
    &&& !w.pages[page as int].reached
    &&& w.pages[page as int].holders == 0
    &&& forall|i: int| 0 <= i < w.slots.len() ==> #[trigger] w.slots[i] != Some(page)
}

/// A new page has to be mapped if and only if the slot that the hand points to
/// is empty and no page is free for use.
pub proof fn page_is_mapped_only_if_none_is_free(w: Wheel)
    requires
        w.inv(),
    ensures
        w.needs_page() <==> {
            &&& w.slots[w.hand as int % w.slots.len() as int] is None
            &&& forall|page: usize| !#[trigger] is_free(w, page)
        },
{
    let slot = w.slots[w.hand as int % w.slots.len() as int];
    if w.unprotected.len() > 0 {
        let page = w.unprotected.last();
        assert(w.unprotected.contains(page));
        assert forall|i: int| 0 <= i < w.slots.len() implies #[trigger] w.slots[i] != Some(
            page,
        ) by {}
        assert(is_free(w, page));
    } else {
        assert forall|page: usize| !#[trigger] is_free(w, page) by {
            if is_free(w, page) {
                assert(w.is_placed(page as int));
                assert(w.in_slot(page));
            }
        }
    }
}

/// Acquiring a page that is at hand maps none. The store gets the page in the
/// slot that the hand points to; if there is none, a free page is put there.
/// Either way the page gets one more holder, and nothing else changes.
pub proof fn acquisition_uses_slot_or_free_page(w: Wheel)
    requires
        w.inv(),
        w.has_room(),
        !w.needs_page(),
    ensures
        ({
            let current = w.hand as int % w.slots.len() as int;
            let after = w.acquire();
            let page = w.next_page();
            &&& w.is_page(page)
            &&& w.slots[current] is Some ==> w.slots[current] == Some(page) && after.unprotected
                == w.unprotected
            &&& w.slots[current] is None ==> is_free(w, page) && w.unprotected
                == after.unprotected.push(page)
            &&& after.slots.len() == w.slots.len()
            &&& after.slots[current] == Some(page)
            &&& forall|i: int|
                0 <= i < w.slots.len() && i != current ==> #[trigger] after.slots[i] == w.slots[i]
            &&& after.pages.len() == w.pages.len()
            &&& after.pages[page as int].ptr == w.pages[page as int].ptr
            &&& after.pages[page as int].reached == w.pages[page as int].reached
            &&& after.pages[page as int].holders == w.pages[page as int].holders + 1
            &&& forall|p: int|
                0 <= p < w.pages.len() && p != page ==> #[trigger] after.pages[p] == w.pages[p]
            &&& after.hand == w.hand
            &&& after.to_unprotect == w.to_unprotect
            &&& after.phase == w.phase
        }),
{
    let page = w.next_page();
    if w.slots[w.hand as int % w.slots.len() as int] is None {
        assert(w.unprotected.contains(page));
        assert forall|i: int| 0 <= i < w.slots.len() implies #[trigger] w.slots[i] != Some(
            page,
        ) by {}
        assert(w.unprotected =~= w.unprotected.drop_last().push(page));
    }
}

/// Acquiring a page that was just mapped adds it, held by one store, to the slot
/// that the hand points to. Nothing else changes.
pub proof fn acquisition_adds_mapped_page(w: Wheel, ptr: usize)
    requires
        w.inv(),
        w.needs_page(),
        w.pages.len() < usize::MAX,
    ensures
        ({
            let current = w.hand as int % w.slots.len() as int;
            let after = w.acquire_new(ptr);
            let page = w.pages.len() as usize;
            &&& after.slots.len() == w.slots.len()
            &&& after.slots[current] == Some(page)
            &&& forall|i: int|
                0 <= i < w.slots.len() && i != current ==> #[trigger] after.slots[i] == w.slots[i]
            &&& after.pages.len() == w.pages.len() + 1
            &&& after.pages[page as int].ptr == ptr
            &&& !after.pages[page as int].reached
            &&& after.pages[page as int].holders == 1
            &&& forall|p: int|
                0 <= p < w.pages.len() ==> #[trigger] after.pages[p] == w.pages[p]
            &&& after.hand == w.hand
            &&& after.to_unprotect == w.to_unprotect
            &&& after.unprotected == w.unprotected
            &&& after.phase == w.phase
        }),
{
}

/// The page that was recycled last is the first to be used again: if the slot
/// that the hand points to is empty, an acquisition right after a page became
/// spare takes that page, and the other spare pages stay.
pub proof fn page_recycled_last_is_used_first(w: Wheel)
    requires
        w.inv(),
        w.action() is Unprotect,
        w.slots[w.hand as int % w.slots.len() as int] is None,
    ensures
        ({
            let recycled = w.resume_tick();
            let after = recycled.acquire();
            &&& recycled.has_room()
            &&& !recycled.needs_page()
            &&& w.action() == TickAction::Unprotect(
                w.pages[recycled.next_page() as int].ptr,
            )
            &&& after.slots[w.hand as int % w.slots.len() as int] == Some(recycled.next_page())
            &&& after.unprotected == w.unprotected
        }),
{
    unprotected_page_is_the_one_that_becomes_spare(w);
    upkeep::resume_tick_keeps_inv(w);
    acquisition_uses_slot_or_free_page(w.resume_tick());
    assert(w.resume_tick().acquire().unprotected =~= w.unprotected);
}

// Releasing

/// Releasing a page takes one holder from it. It moves no page into or out of a
/// slot or the spare pages, also if nobody holds the page any more. It queues
/// the page exactly if the hand has reached it and it was held by one store.
pub proof fn release_takes_one_holder(w: Wheel, page: usize)
    requires
        w.inv(),
        w.holds(page),
    ensures
        ({
            let after = w.release(page);
            &&& after.pages.len() == w.pages.len()
            &&& after.pages[page as int].holders == w.pages[page as int].holders - 1
            &&& after.pages[page as int].ptr == w.pages[page as int].ptr
            &&& after.pages[page as int].reached == w.pages[page as int].reached
            &&& forall|p: int|
                0 <= p < w.pages.len() && p != page ==> #[trigger] after.pages[p] == w.pages[p]
            &&& after.slots == w.slots
            &&& after.unprotected == w.unprotected
            &&& after.hand == w.hand
            &&& after.phase == w.phase
            &&& if w.pages[page as int].reached && w.pages[page as int].holders == 1 {
                after.to_unprotect == w.to_unprotect.push(page)
            } else {
                after.to_unprotect == w.to_unprotect
            }
        }),
{
}

/// Pages are unprotected in the order in which they were let go: of two reached
/// pages whose last holders release them one after the other, the next tick
/// unprotects first the one that was released first.
pub proof fn pages_are_recycled_in_order_of_release(w: Wheel, one: usize, other: usize)
    requires
        w.inv(),
        w.phase is Idle,
        one != other,
        w.holds(one),
        w.holds(other),
        w.pages[one as int].reached,
        w.pages[one as int].holders == 1,
        w.pages[other as int].reached,
        w.pages[other as int].holders == 1,
    ensures
        ({
            let before = w.release(one).release(other);
            let queued = w.to_unprotect.len();
            &&& asked_after(before, queued) == TickAction::Unprotect(w.pages[one as int].ptr)
            &&& asked_after(before, queued + 1) == TickAction::Unprotect(
                w.pages[other as int].ptr,
            )
        }),
{
    upkeep::release_keeps_inv(w, one);
    upkeep::release_keeps_inv(w.release(one), other);
    let before = w.release(one).release(other);
    let queued = w.to_unprotect.len();
    assert(before.to_unprotect[queued as int] == one);
    assert(before.to_unprotect[queued as int + 1] == other);
    tick_unprotects_each_queued_page_once(before);
}

} // verus!
