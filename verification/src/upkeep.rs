//! Every step of the wheel keeps each page in exactly one place.

use crate::model::{drained, TickPhase, Wheel};
use crate::schedule;
use vstd::prelude::*;

verus! {

/// What a sequence holds after a push.
proof fn lemma_push<A>(s: Seq<A>, x: A)
    requires
        s.no_duplicates(),
        !s.contains(x),
    ensures
        s.push(x).no_duplicates(),
        forall|y: A| #[trigger] s.push(x).contains(y) <==> y == x || s.contains(y),
{
    assert(s.push(x)[s.len() as int] == x);
    lemma_push_keeps(s, x);
}

/// A push takes nothing away.
pub proof fn lemma_push_keeps<A>(s: Seq<A>, x: A)
    ensures
        forall|y: A| s.contains(y) ==> #[trigger] s.push(x).contains(y),
{
    assert forall|y: A| s.contains(y) implies #[trigger] s.push(x).contains(y) by {
        let k = choose|k: int| 0 <= k < s.len() && s[k] == y;
        assert(s.push(x)[k] == y);
    }
}

/// What a sequence holds without its first element.
pub proof fn lemma_skip_first<A>(s: Seq<A>)
    requires
        s.no_duplicates(),
        s.len() > 0,
    ensures
        s.contains(s[0]),
        s.skip(1).no_duplicates(),
        forall|y: A| #[trigger] s.skip(1).contains(y) <==> y != s[0] && s.contains(y),
{
    assert forall|y: A| y != s[0] && s.contains(y) implies #[trigger] s.skip(1).contains(y) by {
        let k = choose|k: int| 0 <= k < s.len() && s[k] == y;
        assert(s.skip(1)[k - 1] == y);
    }
}

/// What a sequence holds without its last element.
proof fn lemma_drop_last<A>(s: Seq<A>)
    requires
        s.no_duplicates(),
        s.len() > 0,
    ensures
        s.contains(s.last()),
        s.drop_last().no_duplicates(),
        forall|y: A| #[trigger] s.drop_last().contains(y) <==> y != s.last() && s.contains(y),
{
    assert forall|y: A| y != s.last() && s.contains(y) implies #[trigger] s.drop_last().contains(
        y,
    ) by {
        let k = choose|k: int| 0 <= k < s.len() && s[k] == y;
        assert(s.drop_last()[k] == y);
    }
}

/// Putting a page into an empty slot takes no other page out of its slot.
proof fn lemma_fill_slot(slots: Seq<Option<usize>>, i: int, page: usize)
    requires
        0 <= i < slots.len(),
        slots[i] is None,
    ensures
        forall|q: usize| #[trigger]
            slots.update(i, Some(page)).contains(Some(q)) <==> q == page || slots.contains(Some(q)),
{
    let filled = slots.update(i, Some(page));
    assert(filled[i] == Some(page));
    assert forall|q: usize| slots.contains(Some(q)) implies #[trigger] filled.contains(Some(q)) by {
        let k = choose|k: int| 0 <= k < slots.len() && slots[k] == Some(q);
        assert(filled[k] == Some(q));
    }
}

/// A new wheel has no page to misplace.
pub proof fn initial_has_inv(slots: nat)
    requires
        1 <= slots <= usize::MAX,
    ensures
        Wheel::initial(slots).inv(),
{
    schedule::period_is_whole_turns(slots as int);
}

/// Starting a tick keeps the invariant.
pub proof fn start_tick_keeps_inv(w: Wheel)
    requires
        w.inv(),
        w.phase is Idle,
    ensures
        w.start_tick().inv(),
{
    let next = w.start_tick();
    schedule::period_is_whole_turns(w.slots.len() as int);
    assert forall|p: int| 0 <= p < next.pages.len() && !(#[trigger] next.pages[p]).reached implies
        next.in_slot(p as usize) || next.unprotected.contains(p as usize) by {
        assert(!w.pages[p].reached);
        if w.in_slot(p as usize) {
            let j = choose|j: int| 0 <= j < w.slots.len() && w.slots[j] == Some(p as usize);
            assert(next.slots[j] == w.slots[j]);
        }
    }
    assert forall|p: int|
        0 <= p < next.pages.len() && (#[trigger] next.pages[p]).reached && next.pages[p].holders
            == 0 implies next.awaits_unprotect(p as usize) by {
        assert(w.pages[p].reached);
        assert(w.awaits_unprotect(p as usize));
    }
}

/// Going on with a tick keeps the invariant.
pub proof fn resume_tick_keeps_inv(w: Wheel)
    requires
        w.inv(),
    ensures
        w.resume_tick().inv(),
{
    if let TickPhase::Unprotecting(pages) = w.phase {
        let next = w.resume_tick();
        let page = pages[0];
        lemma_skip_first(pages);
        assert(drained(w.phase).contains(page));
        assert(!w.unprotected.contains(page));
        lemma_push(w.unprotected, page);
        assert(drained(next.phase) == pages.skip(1));
        assert forall|p: int|
            #![trigger next.pages[p]]
            0 <= p < next.pages.len() implies next.is_placed(p) by {
            let before = w.pages[p];
            if !before.reached {
                assert(w.in_slot(p as usize) || w.unprotected.contains(p as usize));
                assert(next.in_slot(p as usize) == w.in_slot(p as usize));
            }
        }
    }
}

/// Acquiring a page that is at hand keeps the invariant.
pub proof fn acquire_keeps_inv(w: Wheel)
    requires
        w.inv(),
        w.has_room(),
        !w.needs_page(),
    ensures
        w.acquire().inv(),
{
    let i = w.current();
    let page = w.next_page();
    let next = w.acquire();
    if w.slots[i] is Some {
        assert(next.slots == w.slots);
    } else {
        lemma_drop_last(w.unprotected);
        lemma_fill_slot(w.slots, i, page);
    }
    assert(w.is_page(page) && !w.pages[page as int].reached);
    assert forall|p: int|
        #![trigger next.pages[p]]
        0 <= p < next.pages.len() implies next.is_placed(p) by {
        let before = w.pages[p];
        if !before.reached {
            assert(w.in_slot(p as usize) || w.unprotected.contains(p as usize));
        }
    }
}

/// Acquiring a page that was just mapped keeps the invariant.
pub proof fn acquire_new_keeps_inv(w: Wheel, ptr: usize)
    requires
        w.inv(),
        w.needs_page(),
        w.pages.len() < usize::MAX,
        ptr != 0,
    ensures
        w.acquire_new(ptr).inv(),
{
    let page = w.pages.len() as usize;
    let next = w.acquire_new(ptr);
    lemma_fill_slot(w.slots, w.current(), page);
    assert forall|p: int|
        #![trigger next.pages[p]]
        0 <= p < next.pages.len() implies next.is_placed(p) by {
        if p < page {
            let before = w.pages[p];
            if !before.reached {
                assert(w.in_slot(p as usize) || w.unprotected.contains(p as usize));
            }
        }
    }
}

/// Releasing a page keeps the invariant.
pub proof fn release_keeps_inv(w: Wheel, page: usize)
    requires
        w.inv(),
        w.holds(page),
    ensures
        w.release(page).inv(),
{
    let next = w.release(page);
    let before = w.pages[page as int];
    assert(!w.to_unprotect.contains(page));
    assert(!drained(w.phase).contains(page));
    if before.reached && before.holders == 1 {
        lemma_push(w.to_unprotect, page);
    }
    assert forall|p: int|
        #![trigger next.pages[p]]
        0 <= p < next.pages.len() implies next.is_placed(p) by {
        let prior = w.pages[p];
        if !prior.reached {
            assert(w.in_slot(p as usize) || w.unprotected.contains(p as usize));
        } else if prior.holders == 0 {
            assert(w.awaits_unprotect(p as usize));
        }
    }
}

/// Pages at the same addresses make the same addresses mapped.
pub proof fn same_addresses_are_mapped(a: Wheel, b: Wheel)
    requires
        a.pages.len() == b.pages.len(),
        forall|p: int| 0 <= p < a.pages.len() ==> #[trigger] a.pages[p].ptr == b.pages[p].ptr,
    ensures
        forall|ptr: usize| #[trigger] b.is_mapped(ptr) <==> a.is_mapped(ptr),
{
    assert forall|ptr: usize| #[trigger] b.is_mapped(ptr) <==> a.is_mapped(ptr) by {
        if a.is_mapped(ptr) {
            let p = choose|p: int| 0 <= p < a.pages.len() && (#[trigger] a.pages[p]).ptr == ptr;
            assert(b.pages[p].ptr == ptr);
        }
        if b.is_mapped(ptr) {
            let p = choose|p: int| 0 <= p < b.pages.len() && (#[trigger] b.pages[p]).ptr == ptr;
            assert(a.pages[p].ptr == ptr);
        }
    }
}

/// Acquiring a page that was just mapped adds its address to the mapped ones.
pub proof fn new_address_is_mapped(w: Wheel, new: usize)
    ensures
        forall|ptr: usize| #[trigger]
            w.acquire_new(new).is_mapped(ptr) <==> ptr == new || w.is_mapped(ptr),
{
    let next = w.acquire_new(new);
    assert forall|ptr: usize| #[trigger] next.is_mapped(ptr) <==> ptr == new || w.is_mapped(
        ptr,
    ) by {
        assert(next.pages[w.pages.len() as int].ptr == new);
        if w.is_mapped(ptr) {
            let p = choose|p: int| 0 <= p < w.pages.len() && (#[trigger] w.pages[p]).ptr == ptr;
            assert(next.pages[p].ptr == ptr);
        }
    }
}

} // verus!
