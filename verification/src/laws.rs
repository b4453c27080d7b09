//! What holds of every run of the system.

use crate::model;
use crate::model::{TickPhase, Wheel};
use crate::page::PageModel;
use crate::schedule;
use crate::system;
use crate::system::{Step, System};
use crate::upkeep;
use crate::wheel::TickAction;
use vstd::prelude::*;

verus! {

/// A new system is in order.
pub proof fn new_system_is_in_order(slots: nat)
    requires
        1 <= slots <= usize::MAX,
    ensures
        System::initial(slots).inv(),
{
    upkeep::initial_has_inv(slots);
}

/// Every step leaves the system in order: each page is in exactly one place,
/// and memory is protected just where the wheel takes it to be.
pub proof fn step_keeps_order(sys: System, step: Step)
    requires
        sys.inv(),
        sys.enabled(step),
    ensures
        sys.next(step).inv(),
{
    let w = sys.wheel;
    let next = sys.next(step);
    lemma_ends(w);
    match step {
        Step::Tick => {
            upkeep::start_tick_keeps_inv(w);
        },
        Step::Perform => {},
        Step::Resume => {
            upkeep::resume_tick_keeps_inv(w);
            if let TickPhase::Unprotecting(pages) = w.phase {
                assert(pages.skip(1).len() > 0 ==> pages.skip(1)[0] == pages[1]);
            }
        },
        Step::Acquire => {
            upkeep::acquire_keeps_inv(w);
        },
        Step::AcquireNew(ptr) => {
            upkeep::acquire_new_keeps_inv(w, ptr);
            upkeep::new_address_is_mapped(w, ptr);
        },
        Step::Release(page) => {
            upkeep::release_keeps_inv(w, page);
        },
    }
    if !(step is AcquireNew) {
        upkeep::same_addresses_are_mapped(w, next.wheel);
    }
    assert forall|page: usize| next.wheel.is_page(page) implies (#[trigger] next.faults(page)
        <==> next.is_unreadable(page)) by {
        if w.is_page(page) {
            assert(sys.faults(page) <==> sys.is_unreadable(page));
        }
    }
}

/// Every run leaves the system in order.
pub proof fn run_keeps_order(sys: System, steps: Seq<Step>)
    requires
        sys.inv(),
        sys.can_run(steps),
    ensures
        sys.run(steps).inv(),
    decreases steps.len(),
{
    if steps.len() > 0 {
        run_keeps_order(sys, steps.drop_last());
        step_keeps_order(sys.run(steps.drop_last()), steps.last());
    }
}

/// The page that became spare last, and the page that is being unprotected, are
/// where the invariant has them.
proof fn lemma_ends(w: Wheel)
    requires
        w.inv(),
    ensures
        w.unprotected.len() > 0 ==> w.unprotected.contains(w.unprotected.last()),
        w.phase matches TickPhase::Unprotecting(pages) ==> model::drained(w.phase).contains(
            pages[0],
        ),
{
}

/// What a store acquires is a page in the slot that the hand points to. The
/// store holds it, and it is readable.
pub proof fn acquired_page_is_readable(sys: System, step: Step)
    requires
        sys.inv(),
        sys.enabled(step),
        sys.acquired(step) is Some,
    ensures
        ({
            let page = sys.acquired(step)->0;
            let next = sys.next(step);
            &&& next.wheel.slots[next.wheel.current()] == Some(page)
            &&& next.wheel.holds(page)
            &&& next.wheel.is_readable(page)
            &&& !next.faults(page)
        }),
{
    step_keeps_order(sys, step);
    lemma_ends(sys.wheel);
}

/// No step changes the number of slots.
proof fn lemma_slots_stay(sys: System, steps: Seq<Step>)
    requires
        sys.inv(),
        sys.can_run(steps),
    ensures
        sys.run(steps).wheel.slots.len() == sys.wheel.slots.len(),
    decreases steps.len(),
{
    if steps.len() > 0 {
        lemma_slots_stay(sys, steps.drop_last());
        run_keeps_order(sys, steps.drop_last());
    }
}

/// Each tick of a run moves the hand by one slot, and no other step moves it.
pub proof fn hand_moves_by_one_slot_per_tick(sys: System, steps: Seq<Step>)
    requires
        sys.inv(),
        sys.can_run(steps),
    ensures
        sys.run(steps).wheel.slots.len() == sys.wheel.slots.len(),
        sys.run(steps).wheel.current() == schedule::slot_after(
            sys.wheel.hand as int,
            system::ticks(steps) as int,
            sys.wheel.slots.len() as int,
        ),
    decreases steps.len(),
{
    lemma_slots_stay(sys, steps);
    if steps.len() > 0 {
        let before = sys.run(steps.drop_last());
        hand_moves_by_one_slot_per_tick(sys, steps.drop_last());
        if steps.last() is Tick {
            run_keeps_order(sys, steps.drop_last());
            schedule::tick_moves_hand_by_one_slot(before.wheel);
            schedule::lemma_step(
                before.wheel.hand as int,
                sys.wheel.hand + system::ticks(steps.drop_last()),
                sys.wheel.slots.len() as int,
            );
        }
    }
}

/// What a run of the system does to a page that is in the slot which the hand
/// points to at the beginning, while stores hold it: it stays there until the
/// hand comes back, and is burned then.
proof fn lemma_turn(sys: System, steps: Seq<Step>, page: usize)
    requires
        sys.inv(),
        sys.can_run(steps),
        sys.wheel.slots[sys.wheel.current()] == Some(page),
        sys.held_throughout(steps, page),
    ensures
        sys.run(steps).inv(),
        sys.run(steps).wheel.slots.len() == sys.wheel.slots.len(),
        sys.run(steps).wheel.is_page(page),
        ({
            let end = sys.run(steps).wheel;
            if system::ticks(steps) < sys.wheel.slots.len() {
                end.slots[sys.wheel.current()] == Some(page)
            } else {
                end.pages[page as int].reached
            }
        }),
    decreases steps.len(),
{
    let hand = sys.wheel.hand as int;
    let slots = sys.wheel.slots.len() as int;
    if steps.len() > 0 {
        let prior = steps.drop_last();
        let step = steps.last();
        lemma_turn(sys, prior, page);
        let before = sys.run(prior);
        let w = before.wheel;
        step_keeps_order(before, step);
        reveal_with_fuel(System::held_throughout, 2);
        lemma_ends(w);
        let k = system::ticks(prior) as int;
        if step is Tick && k < slots {
            hand_moves_by_one_slot_per_tick(sys, prior);
            schedule::tick_moves_hand_by_one_slot(w);
            schedule::lemma_step(w.hand as int, hand + k, slots);
            if k + 1 < slots {
                schedule::part_of_turn_leads_elsewhere(hand, k + 1, slots);
            } else {
                schedule::whole_turn_leads_back(hand, slots);
            }
        }
    }
}

/// A store that acquires a page is not interrupted before the hand has come
/// back to the slot, however its steps interleave with those of others, and it
/// is interrupted then: the tick that brings the hand back protects the page,
/// and once that tick is complete the page is unreadable.
pub proof fn store_runs_for_one_turn(sys: System, acquisition: Step, steps: Seq<Step>)
    requires
        sys.inv(),
        sys.enabled(acquisition),
        sys.acquired(acquisition) is Some,
        sys.next(acquisition).can_run(steps),
        sys.next(acquisition).held_throughout(steps, sys.acquired(acquisition)->0),
    ensures
        ({
            let page = sys.acquired(acquisition)->0;
            let end = sys.next(acquisition).run(steps);
            let turn = sys.wheel.slots.len();
            &&& system::ticks(steps) < turn ==> !end.faults(page)
            &&& system::ticks(steps) >= turn && end.wheel.phase is Idle ==> end.faults(page)
        }),
{
    step_keeps_order(sys, acquisition);
    acquired_page_is_readable(sys, acquisition);
    lemma_turn(sys.next(acquisition), steps, sys.acquired(acquisition)->0);
}

/// A wheel made for `n` ticks per interrupt gives each store at least `n` full
/// tick intervals before interrupting it: whatever happened before and happens
/// meanwhile, a page that a store acquires and keeps stays readable for `n`
/// ticks.
pub proof fn store_gets_its_timeslice(
    n: u32,
    before: Seq<Step>,
    acquisition: Step,
    steps: Seq<Step>,
)
    requires
        n < usize::MAX,
        System::initial((n + 1) as nat).can_run(before),
        ({
            let sys = System::initial((n + 1) as nat).run(before);
            &&& sys.enabled(acquisition)
            &&& sys.acquired(acquisition) is Some
            &&& sys.next(acquisition).can_run(steps)
            &&& sys.next(acquisition).held_throughout(steps, sys.acquired(acquisition)->0)
        }),
        system::ticks(steps) <= n,
    ensures
        ({
            let sys = System::initial((n + 1) as nat).run(before);
            !sys.next(acquisition).run(steps).faults(sys.acquired(acquisition)->0)
        }),
{
    let initial = System::initial((n + 1) as nat);
    let sys = initial.run(before);
    new_system_is_in_order((n + 1) as nat);
    run_keeps_order(initial, before);
    lemma_slots_stay(initial, before);
    store_runs_for_one_turn(sys, acquisition, steps);
}

/// A wheel made for `n` ticks per interrupt interrupts each store at the tick
/// after its `n` full intervals: once that many ticks are complete, a page that
/// a store acquired and kept is unreadable.
pub proof fn store_is_interrupted_on_time(
    n: u32,
    before: Seq<Step>,
    acquisition: Step,
    steps: Seq<Step>,
)
    requires
        n < usize::MAX,
        System::initial((n + 1) as nat).can_run(before),
        ({
            let sys = System::initial((n + 1) as nat).run(before);
            &&& sys.enabled(acquisition)
            &&& sys.acquired(acquisition) is Some
            &&& sys.next(acquisition).can_run(steps)
            &&& sys.next(acquisition).held_throughout(steps, sys.acquired(acquisition)->0)
            &&& sys.next(acquisition).run(steps).wheel.phase is Idle
        }),
        system::ticks(steps) >= n + 1,
    ensures
        ({
            let sys = System::initial((n + 1) as nat).run(before);
            sys.next(acquisition).run(steps).faults(sys.acquired(acquisition)->0)
        }),
{
    let initial = System::initial((n + 1) as nat);
    let sys = initial.run(before);
    new_system_is_in_order((n + 1) as nat);
    run_keeps_order(initial, before);
    lemma_slots_stay(initial, before);
    store_runs_for_one_turn(sys, acquisition, steps);
}

/// A tick that is in progress while a store acquires its page does not interrupt
/// the store, on a wheel made for at least one tick per interrupt. The tick may
/// have taken its first step before the acquisition, or take it afterwards.
pub proof fn tick_in_progress_spares_new_store(
    n: u32,
    before: Seq<Step>,
    acquisition: Step,
    steps: Seq<Step>,
)
    requires
        1 <= n < usize::MAX,
        System::initial((n + 1) as nat).can_run(before),
        ({
            let sys = System::initial((n + 1) as nat).run(before);
            &&& sys.enabled(acquisition)
            &&& sys.acquired(acquisition) is Some
            &&& sys.next(acquisition).can_run(steps)
            &&& sys.next(acquisition).held_throughout(steps, sys.acquired(acquisition)->0)
            &&& if sys.wheel.phase is Idle {
                system::ticks(steps) <= 1
            } else {
                system::ticks(steps) == 0
            }
        }),
    ensures
        ({
            let sys = System::initial((n + 1) as nat).run(before);
            !sys.next(acquisition).run(steps).faults(sys.acquired(acquisition)->0)
        }),
{
    store_gets_its_timeslice(n, before, acquisition, steps);
}

/// Stores that acquire a page between the same two ticks share it.
pub proof fn stores_between_ticks_share_a_page(
    sys: System,
    first: Step,
    steps: Seq<Step>,
    second: Step,
)
    requires
        sys.inv(),
        sys.enabled(first),
        sys.acquired(first) is Some,
        sys.next(first).can_run(steps),
        system::ticks(steps) == 0,
        sys.next(first).run(steps).enabled(second),
        sys.next(first).run(steps).acquired(second) is Some,
    ensures
        sys.next(first).run(steps).acquired(second) == sys.acquired(first),
{
    step_keeps_order(sys, first);
    acquired_page_is_readable(sys, first);
    lemma_slot_keeps_page_between_ticks(
        sys.next(first),
        steps,
        sys.next(first).wheel.current(),
    );
}

/// Between two ticks each slot keeps its page.
proof fn lemma_slot_keeps_page_between_ticks(sys: System, steps: Seq<Step>, slot: int)
    requires
        0 <= slot < sys.wheel.slots.len(),
        sys.wheel.slots[slot] is Some,
        sys.can_run(steps),
        system::ticks(steps) == 0,
    ensures
        sys.run(steps).wheel.slots.len() == sys.wheel.slots.len(),
        sys.run(steps).wheel.hand == sys.wheel.hand,
        sys.run(steps).wheel.slots[slot] == sys.wheel.slots[slot],
    decreases steps.len(),
{
    if steps.len() > 0 {
        lemma_slot_keeps_page_between_ticks(sys, steps.drop_last(), slot);
    }
}

/// Stores that acquire a page in different tick intervals, and hold it at the
/// same time, are on different pages.
pub proof fn stores_of_different_intervals_have_different_pages(
    sys: System,
    first: Step,
    steps: Seq<Step>,
    second: Step,
)
    requires
        sys.inv(),
        sys.enabled(first),
        sys.acquired(first) is Some,
        sys.next(first).can_run(steps),
        sys.next(first).held_throughout(steps, sys.acquired(first)->0),
        system::ticks(steps) >= 1,
        sys.next(first).run(steps).enabled(second),
        sys.next(first).run(steps).acquired(second) is Some,
    ensures
        ({
            let end = sys.next(first).run(steps);
            let one = sys.acquired(first)->0;
            let other = end.acquired(second)->0;
            one != other && end.next(second).ptr(one) != end.next(second).ptr(other)
        }),
{
    let start = sys.next(first);
    let end = start.run(steps);
    let page = sys.acquired(first)->0;
    let slots = start.wheel.slots.len() as int;
    let k = system::ticks(steps) as int;
    step_keeps_order(sys, first);
    acquired_page_is_readable(sys, first);
    lemma_turn(start, steps, page);
    hand_moves_by_one_slot_per_tick(start, steps);
    if k < slots {
        schedule::part_of_turn_leads_elsewhere(start.wheel.hand as int, k, slots);
    }
    lemma_ends(end.wheel);
    step_keeps_order(end, second);
    acquired_page_is_readable(end, second);
}

/// On a wheel made for `n` ticks per interrupt, a tick protects the page of a
/// store that kept it if and only if `n` ticks came between the acquisition and
/// this tick.
pub proof fn tick_protects_kept_page_exactly_when_due(
    n: u32,
    before: Seq<Step>,
    acquisition: Step,
    steps: Seq<Step>,
)
    requires
        n < usize::MAX,
        System::initial((n + 1) as nat).can_run(before),
        ({
            let sys = System::initial((n + 1) as nat).run(before);
            &&& sys.enabled(acquisition)
            &&& sys.acquired(acquisition) is Some
            &&& sys.next(acquisition).can_run(steps)
            &&& sys.next(acquisition).held_throughout(steps, sys.acquired(acquisition)->0)
            &&& sys.next(acquisition).run(steps).enabled(Step::Tick)
        }),
    ensures
        ({
            let sys = System::initial((n + 1) as nat).run(before);
            let page = sys.acquired(acquisition)->0;
            let end = sys.next(acquisition).run(steps);
            end.next(Step::Tick).wheel.action() == TickAction::Protect(end.ptr(page))
                <==> system::ticks(steps) == n
        }),
{
    let initial = System::initial((n + 1) as nat);
    let sys = initial.run(before);
    new_system_is_in_order((n + 1) as nat);
    run_keeps_order(initial, before);
    lemma_slots_stay(initial, before);
    let start = sys.next(acquisition);
    let page = sys.acquired(acquisition)->0;
    let end = start.run(steps);
    let hand = start.wheel.hand as int;
    let slots = start.wheel.slots.len() as int;
    let k = system::ticks(steps) as int;
    step_keeps_order(sys, acquisition);
    acquired_page_is_readable(sys, acquisition);
    lemma_turn(start, steps, page);
    hand_moves_by_one_slot_per_tick(start, steps);
    schedule::tick_moves_hand_by_one_slot(end.wheel);
    schedule::lemma_step(end.wheel.hand as int, hand + k, slots);
    let due = model::slot_of(end.wheel.next_hand() as int, slots);
    assert(due == schedule::slot_after(hand, k + 1, slots));
    if k + 1 < slots {
        schedule::part_of_turn_leads_elsewhere(hand, k + 1, slots);
    } else if k + 1 == slots {
        schedule::whole_turn_leads_back(hand, slots);
    }
    assert(end.wheel.holds(page));
    step_keeps_order(end, Step::Tick);
    assert(end.wheel.due_page() == Some(page) <==> k == n);
}

/// When the last release of a page overlaps the tick that reaches the page, the
/// page is in exactly one place once the tick is complete. If nobody held it any
/// more when the hand reached it, it is clean in its slot. Else it is out of the
/// slot, and either spare already or queued for the next tick.
pub proof fn last_release_overlapping_tick(
    sys: System,
    first: Seq<Step>,
    rest: Seq<Step>,
    page: usize,
)
    requires
        sys.inv(),
        sys.wheel.due_page() == Some(page),
        sys.can_run(first),
        system::ticks(first) == 0,
        sys.run(first).enabled(Step::Tick),
        sys.run(first).next(Step::Tick).can_run(rest),
        system::ticks(rest) == 0,
        sys.run(first).next(Step::Tick).never_acquired(rest, page),
        sys.run(first).next(Step::Tick).run(rest).wheel.phase is Idle,
        !sys.run(first).next(Step::Tick).run(rest).wheel.holds(page),
    ensures
        ({
            let slot = model::slot_of(sys.wheel.next_hand() as int, sys.wheel.slots.len() as int);
            let end = sys.run(first).next(Step::Tick).run(rest).wheel;
            if sys.run(first).wheel.holds(page) {
                &&& !end.in_slot(page)
                &&& end.unprotected.contains(page) <==> !end.to_unprotect.contains(page)
                &&& end.unprotected.contains(page) ==> end.pages[page as int] == PageModel::clean(
                    sys.ptr(page),
                )
            } else {
                &&& end.slots[slot] == Some(page)
                &&& end.pages[page as int] == PageModel::clean(sys.ptr(page))
                &&& !end.unprotected.contains(page)
                &&& !end.to_unprotect.contains(page)
            }
        }),
{
    let slot = model::slot_of(sys.wheel.next_hand() as int, sys.wheel.slots.len() as int);
    let reached = sys.run(first);
    let ticking = reached.next(Step::Tick);
    let end = ticking.run(rest);
    run_keeps_order(sys, first);
    step_keeps_order(reached, Step::Tick);
    run_keeps_order(ticking, rest);
    pages_stay(sys, first, page);
    pages_stay(ticking, rest, page);
    lemma_slot_keeps_page_between_ticks(sys, first, slot);
    assert(reached.wheel.next_hand() == sys.wheel.next_hand());
    if reached.wheel.holds(page) {
        lemma_stays_out_of_slots(ticking, rest, page);
        assert(end.wheel.is_placed(page as int));
    } else {
        lemma_slot_keeps_page_between_ticks(ticking, rest, slot);
    }
}

/// A page that is in no slot and that no store acquires gets into none.
proof fn lemma_stays_out_of_slots(sys: System, steps: Seq<Step>, page: usize)
    requires
        sys.inv(),
        sys.can_run(steps),
        sys.wheel.is_page(page),
        !sys.wheel.in_slot(page),
        sys.never_acquired(steps, page),
    ensures
        !sys.run(steps).wheel.in_slot(page),
    decreases steps.len(),
{
    if steps.len() > 0 {
        let before = sys.run(steps.drop_last());
        lemma_stays_out_of_slots(sys, steps.drop_last(), page);
        run_keeps_order(sys, steps.drop_last());
        let w = before.wheel;
        let next = sys.run(steps).wheel;
        assert forall|i: int| 0 <= i < next.slots.len() implies next.slots[i] != Some(page) by {
            assert(w.slots[i] != Some(page));
        }
    }
}

/// Until the first tick, nothing is interrupted: no page is protected, and
/// nothing is asked for.
pub proof fn unticked_wheel_interrupts_nobody(slots: nat, steps: Seq<Step>)
    requires
        1 <= slots <= usize::MAX,
        System::initial(slots).can_run(steps),
        system::ticks(steps) == 0,
    ensures
        System::initial(slots).run(steps).protected == Set::<usize>::empty(),
        System::initial(slots).run(steps).wheel.action() is Done,
    decreases steps.len(),
{
    if steps.len() > 0 {
        unticked_wheel_interrupts_nobody(slots, steps.drop_last());
        lemma_idle_until_ticked(System::initial(slots), steps.drop_last());
        lemma_idle_until_ticked(System::initial(slots), steps);
    }
}

/// No tick is under way before one has started.
proof fn lemma_idle_until_ticked(sys: System, steps: Seq<Step>)
    requires
        sys.wheel.phase is Idle,
        sys.can_run(steps),
        system::ticks(steps) == 0,
    ensures
        sys.run(steps).wheel.phase is Idle,
    decreases steps.len(),
{
    if steps.len() > 0 {
        lemma_idle_until_ticked(sys, steps.drop_last());
    }
}

/// No page is unprotected before it is protected: what the wheel asks to have
/// protected is readable until that is done, and what it asks to have
/// unprotected is unreadable until that is done, and held by nobody.
pub proof fn pages_are_protected_before_unprotected(sys: System)
    requires
        sys.inv(),
        !sys.performed,
    ensures
        sys.wheel.phase matches TickPhase::Protecting(page) ==> !sys.faults(page),
        sys.wheel.phase matches TickPhase::Unprotecting(pages) ==> {
            &&& sys.faults(pages[0])
            &&& !sys.wheel.holds(pages[0])
        },
{
    lemma_ends(sys.wheel);
}

/// A page that was protected stays protected as long as some store holds it.
pub proof fn held_page_stays_protected(sys: System, steps: Seq<Step>, page: usize)
    requires
        sys.inv(),
        sys.wheel.is_page(page),
        sys.faults(page),
        sys.can_run(steps),
        sys.held_throughout(steps, page),
    ensures
        sys.run(steps).faults(page),
    decreases steps.len(),
{
    if steps.len() > 0 {
        let before = sys.run(steps.drop_last());
        held_page_stays_protected(sys, steps.drop_last(), page);
        run_keeps_order(sys, steps.drop_last());
        lemma_ends(before.wheel);
        reveal_with_fuel(System::held_throughout, 2);
    }
}

/// A page whose last holder lets it go after it was reached is readable again
/// once the next tick is complete, whatever happens meanwhile.
pub proof fn queued_page_is_recycled_by_next_tick(sys: System, steps: Seq<Step>, page: usize)
    requires
        sys.inv(),
        sys.wheel.phase is Idle,
        sys.wheel.to_unprotect.contains(page),
        sys.can_run(steps),
        system::ticks(steps) == 1,
        sys.run(steps).wheel.phase is Idle,
    ensures
        sys.run(steps).wheel.is_readable(page),
        !sys.run(steps).faults(page),
{
    lemma_recycling(sys, steps, page);
    run_keeps_order(sys, steps);
}

/// How far a queued page has come.
proof fn lemma_recycling(sys: System, steps: Seq<Step>, page: usize)
    requires
        sys.inv(),
        sys.wheel.phase is Idle,
        sys.wheel.to_unprotect.contains(page),
        sys.can_run(steps),
        system::ticks(steps) <= 1,
    ensures
        sys.run(steps).wheel.is_page(page),
        ({
            let end = sys.run(steps).wheel;
            if system::ticks(steps) == 0 {
                end.phase is Idle && end.to_unprotect.contains(page)
            } else {
                match end.phase {
                    TickPhase::Idle => !end.pages[page as int].reached,
                    TickPhase::Protecting(_) => end.to_unprotect.contains(page),
                    TickPhase::Unprotecting(pages) => pages.contains(page)
                        || !end.pages[page as int].reached,
                }
            }
        }),
    decreases steps.len(),
{
    if steps.len() > 0 {
        let prior = steps.drop_last();
        let before = sys.run(prior);
        lemma_recycling(sys, prior, page);
        run_keeps_order(sys, prior);
        lemma_ends(before.wheel);
        match steps.last() {
            Step::Release(p) => {
                upkeep::lemma_push_keeps(before.wheel.to_unprotect, p);
            },
            Step::Resume => {
                if let TickPhase::Unprotecting(pages) = before.wheel.phase {
                    upkeep::lemma_skip_first(pages);
                }
            },
            _ => {},
        }
    }
}

/// Pages stay: no step takes a page out of the wheel's care or moves it, so
/// that it can be kept mapped while code may still load from it.
pub proof fn pages_stay(sys: System, steps: Seq<Step>, page: usize)
    requires
        sys.inv(),
        sys.can_run(steps),
        sys.wheel.is_page(page),
    ensures
        sys.run(steps).wheel.is_page(page),
        sys.run(steps).wheel.pages[page as int].ptr == sys.wheel.pages[page as int].ptr,
    decreases steps.len(),
{
    if steps.len() > 0 {
        pages_stay(sys, steps.drop_last(), page);
        run_keeps_order(sys, steps.drop_last());
        lemma_ends(sys.run(steps.drop_last()).wheel);
    }
}

/// One if the condition holds, else zero.
pub open spec fn one_if(b: bool) -> int {
    if b {
        1
    } else {
        0
    }
}

/// Each page is in exactly one place: in one slot, among the spare pages, on
/// the queue, in the hands of the tick under way, or, if it was reached, with
/// the stores that hold it.
pub proof fn page_is_in_one_place(w: Wheel, page: usize)
    requires
        w.inv(),
        w.is_page(page),
    ensures
        one_if(w.in_slot(page)) + one_if(w.unprotected.contains(page)) + one_if(
            w.to_unprotect.contains(page),
        ) + one_if(model::drained(w.phase).contains(page)) + one_if(
            w.pages[page as int].reached && w.pages[page as int].holders > 0,
        ) == 1,
        forall|i: int, j: int|
            0 <= i < w.slots.len() && 0 <= j < w.slots.len() && #[trigger] w.slots[i] == Some(page)
                && #[trigger] w.slots[j] == Some(page) ==> i == j,
{
    assert(w.is_placed(page as int));
}

/// The refcount of a page is the number of stores that acquired it and have not
/// released it.
pub proof fn refcount_counts_holders(slots: nat, steps: Seq<Step>, page: usize)
    requires
        1 <= slots <= usize::MAX,
        System::initial(slots).can_run(steps),
    ensures
        ({
            let w = System::initial(slots).run(steps).wheel;
            System::initial(slots).claims(steps, page) == if w.is_page(page) {
                w.pages[page as int].holders as int
            } else {
                0
            }
        }),
    decreases steps.len(),
{
    let initial = System::initial(slots);
    if steps.len() > 0 {
        let before = initial.run(steps.drop_last());
        refcount_counts_holders(slots, steps.drop_last(), page);
        new_system_is_in_order(slots);
        run_keeps_order(initial, steps.drop_last());
        lemma_ends(before.wheel);
    }
}

/// Releasing a page right after acquiring it undoes the acquisition, if the
/// page was in its slot before.
pub proof fn release_undoes_acquire(w: Wheel)
    requires
        w.inv(),
        w.slots[w.current()] is Some,
    ensures
        w.acquire().release(w.next_page()) == w,
{
    let page = w.next_page();
    assert(w.acquire().release(page).pages =~= w.pages);
    assert(w.acquire().release(page) =~= w);
}

/// A tick that finds no store watching the page in the next slot protects
/// nothing and leaves the page in the slot.
pub proof fn unwatched_page_keeps_its_slot(w: Wheel)
    requires
        w.inv(),
        w.phase is Idle,
        w.due_page() is None,
    ensures
        !(w.start_tick().action() is Protect),
        w.start_tick().slots == w.slots,
        w.start_tick().pages == w.pages,
{
}

/// The wheel after it has resumed its tick `n` times.
pub open spec fn resumed(w: Wheel, n: nat) -> Wheel
    decreases n,
{
    if n == 0 {
        w
    } else {
        resumed(w, (n - 1) as nat).resume_tick()
    }
}

/// The wheel after a whole tick during which nothing else happens.
pub open spec fn ticked(w: Wheel) -> Wheel {
    Wheel {
        hand: w.next_hand(),
        slots: if w.due_page() is Some {
            w.slots.update(model::slot_of(w.next_hand() as int, w.slots.len() as int), None)
        } else {
            w.slots
        },
        pages: Seq::new(
            w.pages.len(),
            |p: int|
                {
                    if w.due_page() == Some(p as usize) {
                        PageModel { reached: true, ..w.pages[p] }
                    } else if w.to_unprotect.contains(p as usize) {
                        PageModel::clean(w.pages[p].ptr)
                    } else {
                        w.pages[p]
                    }
                },
        ),
        to_unprotect: Seq::empty(),
        unprotected: w.unprotected + w.to_unprotect,
        phase: TickPhase::Idle,
    }
}

/// The number of system calls that a whole tick makes.
pub open spec fn calls_of_tick(w: Wheel) -> nat {
    one_if(w.due_page() is Some) as nat + w.to_unprotect.len()
}

/// Resuming once and then `n` times is resuming `n + 1` times.
pub proof fn lemma_resumed_first(w: Wheel, n: nat)
    ensures
        resumed(w.resume_tick(), n) == resumed(w, n + 1),
    decreases n,
{
    if n > 0 {
        lemma_resumed_first(w, (n - 1) as nat);
    } else {
        reveal_with_fuel(resumed, 2);
    }
}

/// The wheel after the first `n` of the pages taken off the queue have been
/// unprotected.
pub open spec fn recycled(w: Wheel, queue: Seq<usize>, n: nat) -> Wheel {
    Wheel {
        pages: Seq::new(
            w.pages.len(),
            |p: int|
                if queue.take(n as int).contains(p as usize) {
                    PageModel::clean(w.pages[p].ptr)
                } else {
                    w.pages[p]
                },
        ),
        unprotected: w.unprotected + queue.take(n as int),
        phase: model::unprotecting(queue.skip(n as int)),
        ..w
    }
}

/// Resuming unprotects the pages one by one.
pub proof fn lemma_recycled(w: Wheel, queue: Seq<usize>, n: nat)
    requires
        w.phase == model::unprotecting(queue),
        w.pages.len() <= usize::MAX,
        n <= queue.len(),
        forall|i: int| 0 <= i < queue.len() ==> w.is_page(#[trigger] queue[i]),
    ensures
        resumed(w, n) == recycled(w, queue, n),
    decreases n,
{
    if n == 0 {
        assert(queue.skip(0) =~= queue);
        assert(recycled(w, queue, 0).pages =~= w.pages);
        assert(recycled(w, queue, 0) =~= w);
    } else {
        let m = (n - 1) as nat;
        lemma_recycled(w, queue, m);
        let before = recycled(w, queue, m);
        let page = queue[m as int];
        let after = recycled(w, queue, n);
        assert(queue.skip(m as int)[0] == page);
        assert(queue.skip(m as int).skip(1) =~= queue.skip(n as int));
        assert(queue.take(n as int) =~= queue.take(m as int).push(page));
        upkeep::lemma_push_keeps(queue.take(m as int), page);
        assert(queue.take(m as int).push(page)[m as int] == page);
        assert forall|p: int| 0 <= p < w.pages.len() implies before.resume_tick().pages[p]
            == after.pages[p] by {
            if queue.take(n as int).contains(p as usize) && p as usize != page {
                let k = choose|k: int|
                    0 <= k < n && queue.take(n as int)[k] == p as usize;
                assert(queue.take(m as int)[k] == p as usize);
            }
        }
        assert(before.resume_tick().pages =~= after.pages);
        assert(before.resume_tick().unprotected =~= after.unprotected);
        assert(before.resume_tick() =~= after);
    }
}

/// A tick during which nothing else happens protects the page in the next slot
/// if stores are watching it, and makes every queued page clean and spare. It
/// is complete after as many system calls as that takes, and no sooner.
pub proof fn uninterrupted_tick(w: Wheel)
    requires
        w.inv(),
        w.phase is Idle,
    ensures
        resumed(w.start_tick(), calls_of_tick(w)) == ticked(w),
        forall|n: nat|
            n < calls_of_tick(w) ==> !((#[trigger] resumed(w.start_tick(), n)).phase is Idle),
{
    let queue = w.to_unprotect;
    let started = w.start_tick();
    let draining = if w.due_page() is Some {
        started.resume_tick()
    } else {
        started
    };
    let calls = queue.len();
    assert forall|i: int| 0 <= i < queue.len() implies draining.is_page(#[trigger] queue[i]) by {
        assert(queue.contains(queue[i]));
    }
    upkeep::start_tick_keeps_inv(w);
    lemma_recycled(draining, queue, calls);
    if w.due_page() is Some {
        lemma_resumed_first(started, calls);
    }
    assert forall|n: nat| n < calls_of_tick(w) implies !((#[trigger] resumed(
        started,
        n,
    )).phase is Idle) by {
        if w.due_page() is None {
            lemma_recycled(draining, queue, n);
        } else if n > 0 {
            lemma_recycled(draining, queue, (n - 1) as nat);
            lemma_resumed_first(started, (n - 1) as nat);
        }
    }
    assert(queue.take(calls as int) =~= queue);
    assert(queue.skip(calls as int) =~= Seq::empty());
    let end = recycled(draining, queue, calls);
    assert forall|p: int| 0 <= p < w.pages.len() implies end.pages[p] == ticked(w).pages[p] by {
        if w.due_page() == Some(p as usize) {
            assert(!queue.contains(p as usize));
        }
    }
    assert(end.pages =~= ticked(w).pages);
    assert(end =~= ticked(w));
}

} // verus!
