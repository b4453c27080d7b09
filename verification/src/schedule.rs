//! Which slot the hand points to, and when.

use crate::model;
use crate::model::Wheel;
use vstd::arithmetic::div_mod;
use vstd::prelude::*;

verus! {

/// The slot that the hand points to `ticks` ticks after it had this value.
pub open spec fn slot_after(hand: int, ticks: int, slots: int) -> int {
    model::slot_of(hand + ticks, slots)
}

/// Whether the hand points to the slot now or before one turn is over.
pub open spec fn is_visited(hand: int, slot: int, slots: int) -> bool {
    exists|ticks: int| 0 <= ticks < slots && #[trigger] slot_after(hand, ticks, slots) == slot
}

/// The hand goes through whole turns before it starts over, and through at
/// least one.
pub proof fn period_is_whole_turns(slots: int)
    requires
        1 <= slots <= u64::MAX,
    ensures
        slots <= model::hand_period(slots) <= u64::MAX + 1,
        model::hand_period(slots) % slots == 0,
{
    let all: int = u64::MAX + 1;
    let turns = all / slots;
    div_mod::lemma_fundamental_div_mod(all, slots);
    assert(model::hand_period(slots) == turns * slots + 0) by (nonlinear_arith)
        requires
            all == slots * turns + all % slots,
            model::hand_period(slots) == all - all % slots,
    ;
    assert(0 <= all % slots < slots);
    assert(turns >= 1) by (nonlinear_arith)
        requires
            all == slots * turns + all % slots,
            all % slots < slots,
            1 <= slots < all,
    ;
    assert(turns * slots >= slots) by (nonlinear_arith)
        requires
            turns >= 1,
            slots >= 1,
    ;
    div_mod::lemma_fundamental_div_mod_converse(model::hand_period(slots), slots, turns, 0);
}

/// The last value of the hand before it starts over, as it is computed without
/// leaving `u64`.
pub proof fn last_hand(slots: int)
    requires
        1 <= slots <= u64::MAX,
    ensures
        u64::MAX - (u64::MAX as int % slots + 1) % slots == model::hand_period(slots) - 1,
{
    div_mod::lemma_add_mod_noop_right(1, u64::MAX as int, slots);
}

/// The slot after the next step depends on the present slot alone.
pub proof fn lemma_step(a: int, b: int, slots: int)
    requires
        1 <= slots,
        model::slot_of(a, slots) == model::slot_of(b, slots),
    ensures
        model::slot_of(a + 1, slots) == model::slot_of(b + 1, slots),
{
    div_mod::lemma_add_mod_noop_right(1, a, slots);
    div_mod::lemma_add_mod_noop_right(1, b, slots);
}

/// Each tick moves the hand by one slot, also where the hand starts over.
pub proof fn tick_moves_hand_by_one_slot(w: Wheel)
    requires
        w.inv(),
    ensures
        model::slot_of(w.next_hand() as int, w.slots.len() as int) == model::slot_of(
            w.hand + 1,
            w.slots.len() as int,
        ),
{
    let slots = w.slots.len() as int;
    period_is_whole_turns(slots);
    assert(0int % slots == 0);
}

/// Fewer ticks than there are slots lead from a slot to another one.
pub proof fn part_of_turn_leads_elsewhere(hand: int, ticks: int, slots: int)
    requires
        1 <= ticks < slots,
    ensures
        slot_after(hand, ticks, slots) != model::slot_of(hand, slots),
{
    let q = hand / slots;
    let a = hand % slots;
    div_mod::lemma_fundamental_div_mod(hand, slots);
    assert(hand == q * slots + a) by (nonlinear_arith)
        requires
            hand == slots * q + a,
    ;
    assert(0 <= a < slots);
    if a + ticks < slots {
        div_mod::lemma_fundamental_div_mod_converse(hand + ticks, slots, q, a + ticks);
    } else {
        assert((q + 1) * slots == q * slots + slots) by (nonlinear_arith);
        div_mod::lemma_fundamental_div_mod_converse(
            hand + ticks,
            slots,
            q + 1,
            a + ticks - slots,
        );
    }
}

/// A whole turn leads back to the slot.
pub proof fn whole_turn_leads_back(hand: int, slots: int)
    requires
        1 <= slots,
    ensures
        slot_after(hand, slots, slots) == model::slot_of(hand, slots),
{
    div_mod::lemma_mod_add_multiples_vanish(hand, slots);
}

/// In one turn the hand points to different slots, which together are all slots,
/// and after the turn it points to the first of them again.
pub proof fn turn_visits_each_slot_once(hand: int, slots: int)
    requires
        1 <= slots,
    ensures
        forall|i: int, j: int|
            0 <= i < j < slots ==> #[trigger] slot_after(hand, i, slots) != #[trigger] slot_after(
                hand,
                j,
                slots,
            ),
        forall|slot: int| 0 <= slot < slots ==> #[trigger] is_visited(hand, slot, slots),
        slot_after(hand, slots, slots) == slot_after(hand, 0, slots),
{
    assert forall|i: int, j: int| 0 <= i < j < slots implies #[trigger] slot_after(hand, i, slots)
        != #[trigger] slot_after(hand, j, slots) by {
        part_of_turn_leads_elsewhere(hand + i, j - i, slots);
    }
    assert forall|slot: int| 0 <= slot < slots implies #[trigger] is_visited(
        hand,
        slot,
        slots,
    ) by {
        let ticks = (slot - hand) % slots;
        div_mod::lemma_add_mod_noop_right(hand, slot - hand, slots);
        div_mod::lemma_small_mod(slot as nat, slots as nat);
        assert(slot_after(hand, ticks, slots) == slot);
    }
    whole_turn_leads_back(hand, slots);
}

/// Of all slots, the one that the hand points to is reached furthest in the
/// future: each other slot is reached by exactly one of the ticks that come
/// before the hand is back.
pub proof fn current_slot_is_reached_last(w: Wheel, slot: int)
    requires
        w.inv(),
        0 <= slot < w.slots.len(),
        slot != w.current(),
    ensures
        exists|ticks: int|
            1 <= ticks < w.slots.len() && #[trigger] slot_after(
                w.hand as int,
                ticks,
                w.slots.len() as int,
            ) == slot,
        forall|i: int, j: int|
            1 <= i < j < w.slots.len() ==> #[trigger] slot_after(
                w.hand as int,
                i,
                w.slots.len() as int,
            ) != #[trigger] slot_after(w.hand as int, j, w.slots.len() as int),
        slot_after(w.hand as int, w.slots.len() as int, w.slots.len() as int) == w.current(),
{
    let hand = w.hand as int;
    let slots = w.slots.len() as int;
    turn_visits_each_slot_once(hand, slots);
    assert(is_visited(hand, slot, slots));
    let ticks = choose|ticks: int|
        0 <= ticks < slots && #[trigger] slot_after(hand, ticks, slots) == slot;
    assert(slot_after(hand, 0, slots) == w.current());
    assert(ticks != 0);
}

} // verus!
