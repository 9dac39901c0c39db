//! The plugin's tables: screens under indices that stay valid for the
//! whole run, the order in which screens get their tick, and the placement
//! previews found again by their anchor object.

use vstd::prelude::*;

verus! {

/// Screens under stable indices: a destroyed screen leaves an empty slot,
/// so the index of every other screen, which scripts hold on to, keeps
/// naming the same screen.
pub struct ScreenSlots<S> {
    slots: Vec<Option<S>>,
}

impl<S> ScreenSlots<S> {
    pub closed spec fn slots(&self) -> Seq<Option<S>> {
        self.slots@
    }

    pub fn new() -> (table: Self)
        ensures
            table.slots() == Seq::<Option<S>>::empty(),
    {
        ScreenSlots { slots: Vec::new() }
    }

    pub fn len(&self) -> (count: usize)
        ensures
            count == self.slots().len(),
    {
        self.slots.len()
    }

    /// Adds `screen` in a new slot after all others and returns its index.
    pub fn add(&mut self, screen: S) -> (index: usize)
        ensures
            index == old(self).slots().len(),
            final(self).slots() == old(self).slots().push(Some(screen)),
    {
        self.slots.push(Some(screen));
        self.slots.len() - 1
    }

    /// The screen in slot `index`, if the slot exists and holds one.
    pub fn get_mut(&mut self, index: usize) -> (screen: Option<&mut S>)
        ensures
            index < old(self).slots().len() && old(self).slots()[index as int] is Some <==> screen is Some,
            screen matches Some(s) ==> *s == old(self).slots()[index as int]->0,
            screen matches Some(s) ==> final(self).slots() == old(self).slots().update(index as int, Some(*final(s))),
            screen is None ==> final(self).slots() == old(self).slots(),
    {
        if index < self.slots.len() {
            let slot = &mut self.slots[index];
            slot.as_mut()
        } else {
            None
        }
    }

    /// Empties slot `index` and hands out the screen it held; a negative or
    /// unknown index, or an empty slot, gives `None` and changes nothing.
    /// No other slot changes.
    pub fn take(&mut self, index: i32) -> (screen: Option<S>)
        ensures
            screen is Some <==> (0 <= index < old(self).slots().len() && old(self).slots()[index as int] is Some),
            screen is Some ==> screen == old(self).slots()[index as int] && final(self).slots() == old(self).slots().update(
                index as int,
                None,
            ),
            screen is None ==> final(self).slots() == old(self).slots(),
    {
        if index < 0 {
            return None;
        }
        let i = index as usize;
        if i >= self.slots.len() {
            return None;
        }
        let ghost before = self.slots@;
        let mut emptied: Option<S> = None;
        std::mem::swap(&mut emptied, &mut self.slots[i]);
        if emptied.is_none() {
            assert(self.slots@ =~= before);
        }
        emptied
    }
}

/// The index ticked `k`-th (from 0) when ticks start at `start` in a table
/// of `count` slots.
pub open spec fn tick_index(start: int, k: int, count: int) -> int {
    (start + k) % count
}

/// The order in which the `screen_count` slots get their tick this round:
/// from the slot at `tick_priority_offset` (taken round the table) to the
/// end, then from the start; and the offset for the next round, one
/// further, so no screen is always served first. An empty table gets no
/// tick and keeps its offset.
pub fn tick_order(screen_count: usize, tick_priority_offset: usize) -> (order: (Vec<usize>, usize))
    ensures
        order.0@.len() == screen_count,
        forall|k: int|
            0 <= k < screen_count ==> #[trigger] order.0@[k] == tick_index(
                (tick_priority_offset % screen_count) as int,
                k,
                screen_count as int,
            ),
        order.1 == if screen_count == 0 {
            tick_priority_offset as int
        } else {
            tick_priority_offset % screen_count + 1
        },
{
    if screen_count == 0 {
        return (Vec::new(), tick_priority_offset);
    }
    let start = tick_priority_offset % screen_count;
    let mut order: Vec<usize> = Vec::new();
    let mut offset: usize = 0;
    while offset < screen_count
        invariant
            start < screen_count,
            start == tick_priority_offset % screen_count,
            offset <= screen_count,
            order@.len() == offset,
            forall|k: int| 0 <= k < offset ==> #[trigger] order@[k] == tick_index(start as int, k, screen_count as int),
        decreases screen_count - offset,
    {
        let index = if offset < screen_count - start {
            proof {
                vstd::arithmetic::div_mod::lemma_small_mod((start + offset) as nat, screen_count as nat);
            }
            start + offset
        } else {
            proof {
                vstd::arithmetic::div_mod::lemma_small_mod((offset - (screen_count - start)) as nat, screen_count as nat);
                vstd::arithmetic::div_mod::lemma_mod_add_multiples_vanish(
                    (offset - (screen_count - start)) as int,
                    screen_count as int,
                );
            }
            offset - (screen_count - start)
        };
        order.push(index);
        offset = offset + 1;
    }
    (order, start + 1)
}

/// Every slot gets exactly one tick per round.
pub proof fn lemma_tick_order_visits_each_once(start: int, count: int, i: int)
    requires
        count > 0,
        0 <= start < count,
        0 <= i < count,
    ensures
        exists|k: int| 0 <= k < count && #[trigger] tick_index(start, k, count) == i,
        forall|k1: int, k2: int|
            0 <= k1 < count && 0 <= k2 < count && #[trigger] tick_index(start, k1, count) == i && #[trigger] tick_index(
                start,
                k2,
                count,
            ) == i ==> k1 == k2,
{
    let k = if i >= start { i - start } else { i + count - start };
    if i >= start {
        vstd::arithmetic::div_mod::lemma_small_mod(i as nat, count as nat);
    } else {
        vstd::arithmetic::div_mod::lemma_mod_add_multiples_vanish(i, count);
        vstd::arithmetic::div_mod::lemma_small_mod(i as nat, count as nat);
    }
    assert(tick_index(start, k, count) == i);
    assert forall|k1: int, k2: int|
        0 <= k1 < count && 0 <= k2 < count && #[trigger] tick_index(start, k1, count) == i && #[trigger] tick_index(
            start,
            k2,
            count,
        ) == i implies k1 == k2 by {
        lemma_tick_index_shape(start, k1, count);
        lemma_tick_index_shape(start, k2, count);
    }
}

/// `tick_index` without the remainder.
proof fn lemma_tick_index_shape(start: int, k: int, count: int)
    requires
        count > 0,
        0 <= start < count,
        0 <= k < count,
    ensures
        tick_index(start, k, count) == if start + k < count { start + k } else { start + k - count },
{
    if start + k < count {
        vstd::arithmetic::div_mod::lemma_small_mod((start + k) as nat, count as nat);
    } else {
        vstd::arithmetic::div_mod::lemma_small_mod((start + k - count) as nat, count as nat);
        vstd::arithmetic::div_mod::lemma_mod_add_multiples_vanish(start + k - count, count);
    }
}

/// The object ids of each placement preview still shown, the first of each
/// being the anchor the script names it by.
pub struct PreviewList {
    previews: Vec<Vec<i32>>,
}

/// Index of the first preview anchored at `anchor`, if any.
pub open spec fn first_anchored(previews: Seq<Seq<i32>>, anchor: i32) -> Option<int> {
    if exists|i: int| 0 <= i < previews.len() && previews[i].len() > 0 && previews[i][0] == anchor {
        Some(
            choose|i: int|
                0 <= i < previews.len() && previews[i].len() > 0 && previews[i][0] == anchor && forall|j: int|
                    0 <= j < i ==> !(previews[j].len() > 0 && previews[j][0] == anchor),
        )
    } else {
        None
    }
}

impl PreviewList {
    pub closed spec fn previews(&self) -> Seq<Seq<i32>> {
        self.previews@.map_values(|p: Vec<i32>| p@)
    }

    pub fn new() -> (list: Self)
        ensures
            list.previews() == Seq::<Seq<i32>>::empty(),
    {
        let list = PreviewList { previews: Vec::new() };
        assert(list.previews() =~= Seq::<Seq<i32>>::empty());
        list
    }

    /// Keeps the objects of a new preview and returns its anchor, the
    /// first of them.
    pub fn add(&mut self, object_ids: Vec<i32>) -> (anchor: i32)
        requires
            object_ids@.len() > 0,
        ensures
            anchor == object_ids@[0],
            final(self).previews() == old(self).previews().push(object_ids@),
    {
        let anchor = object_ids[0];
        let ghost ids = object_ids@;
        self.previews.push(object_ids);
        assert(self.previews() =~= old(self).previews().push(ids));
        anchor
    }

    /// Forgets the first preview anchored at `anchor` and hands out its
    /// objects; `None` when no preview is.
    pub fn remove_by_anchor(&mut self, anchor: i32) -> (removed: Option<Vec<i32>>)
        ensures
            match first_anchored(old(self).previews(), anchor) {
                Some(i) => removed matches Some(ids) && ids@ == old(self).previews()[i] && final(self).previews()
                    == old(self).previews().remove(i),
                None => removed is None && final(self).previews() == old(self).previews(),
            },
    {
        let mut i: usize = 0;
        while i < self.previews.len()
            invariant
                i <= self.previews@.len(),
                self.previews() == old(self).previews(),
                self.previews@.len() == old(self).previews().len(),
                forall|j: int| 0 <= j < i ==> !(#[trigger] self.previews()[j].len() > 0 && self.previews()[j][0] == anchor),
            decreases self.previews@.len() - i,
        {
            if self.previews[i].len() > 0 && self.previews[i][0] == anchor {
                let ghost p = self.previews();
                proof {
                    assert(p[i as int] == self.previews@[i as int]@);
                    let w = choose|k: int|
                        0 <= k < p.len() && p[k].len() > 0 && p[k][0] == anchor && forall|j: int|
                            0 <= j < k ==> !(p[j].len() > 0 && p[j][0] == anchor);
                    assert(0 <= i < p.len() && p[i as int].len() > 0 && p[i as int][0] == anchor && forall|j: int|
                        0 <= j < i ==> !(p[j].len() > 0 && p[j][0] == anchor));
                    if w < i {
                        assert(!(p[w].len() > 0 && p[w][0] == anchor));
                    } else if w > i {
                        assert(!(p[i as int].len() > 0 && p[i as int][0] == anchor));
                    }
                }
                let ids = self.previews.remove(i);
                assert(self.previews() =~= p.remove(i as int));
                return Some(ids);
            }
            assert(self.previews()[i as int] == self.previews@[i as int]@);
            i = i + 1;
        }
        None
    }
}


/// The offset `tick_order` hands on after `rounds` rounds that start from
/// `offset` in a table of `count` slots.
pub open spec fn round_offset(offset: int, count: int, rounds: nat) -> int
    decreases rounds,
{
    if rounds == 0 || count == 0 {
        offset
    } else {
        round_offset(offset, count, (rounds - 1) as nat) % count + 1
    }
}

proof fn lemma_mod_succ(x: int, c: int)
    requires
        c > 0,
    ensures
        (x % c + 1) % c == (x + 1) % c,
{
    vstd::arithmetic::div_mod::lemma_add_mod_noop(x, 1, c);
    vstd::arithmetic::div_mod::lemma_add_mod_noop(x % c, 1, c);
    vstd::arithmetic::div_mod::lemma_mod_mod(x, c, 1);
    vstd::arithmetic::div_mod::lemma_mod_bound(x, c);
    vstd::arithmetic::div_mod::lemma_small_mod((x % c) as nat, c as nat);
}

/// Round by round the first screen ticked moves on by one: after `rounds`
/// rounds from `offset`, ticks start at slot `(offset + rounds) % count`.
pub proof fn lemma_rounds_rotate(offset: int, count: int, rounds: nat)
    requires
        count > 0,
    ensures
        round_offset(offset, count, rounds) % count == (offset + rounds) % count,
    decreases rounds,
{
    if rounds > 0 {
        let prev = round_offset(offset, count, (rounds - 1) as nat);
        lemma_rounds_rotate(offset, count, (rounds - 1) as nat);
        lemma_mod_succ(prev, count);
        lemma_mod_succ(offset + rounds - 1, count);
        vstd::arithmetic::div_mod::lemma_add_mod_noop(prev, 1, count);
        vstd::arithmetic::div_mod::lemma_add_mod_noop(offset + rounds - 1, 1, count);
    }
}

/// Over any `count` consecutive rounds every slot is ticked first exactly
/// once, so no screen is always served first.
pub proof fn lemma_each_slot_first_once(offset: int, count: int, i: int)
    requires
        count > 0,
        0 <= i < count,
    ensures
        exists|r: nat| r < count && #[trigger] round_offset(offset, count, r) % count == i,
        forall|r1: nat, r2: nat|
            r1 < count && r2 < count && #[trigger] round_offset(offset, count, r1) % count == i
                && #[trigger] round_offset(offset, count, r2) % count == i ==> r1 == r2,
{
    let start = offset % count;
    vstd::arithmetic::div_mod::lemma_mod_bound(offset, count);
    lemma_tick_order_visits_each_once(start, count, i);
    assert forall|r: nat| r < count implies #[trigger] round_offset(offset, count, r) % count == tick_index(start, r as int, count) by {
        lemma_rounds_rotate(offset, count, r);
        vstd::arithmetic::div_mod::lemma_add_mod_noop(offset, r as int, count);
        vstd::arithmetic::div_mod::lemma_small_mod(r, count as nat);
        vstd::arithmetic::div_mod::lemma_mod_mod(offset, count, 1);
        vstd::arithmetic::div_mod::lemma_add_mod_noop(start, r as int, count);
    }
    let k = choose|k: int| 0 <= k < count && #[trigger] tick_index(start, k, count) == i;
    assert(round_offset(offset, count, k as nat) % count == i);
}

/// Adding a preview under an anchor no other preview has, then removing by
/// that anchor, hands the same objects back and leaves the list as it was.
pub proof fn lemma_preview_round_trip(previews: Seq<Seq<i32>>, ids: Seq<i32>)
    requires
        ids.len() > 0,
        first_anchored(previews, ids[0]) is None,
    ensures
        first_anchored(previews.push(ids), ids[0]) == Some(previews.len() as int),
        previews.push(ids)[previews.len() as int] == ids,
        previews.push(ids).remove(previews.len() as int) == previews,
{
    let pushed = previews.push(ids);
    let a = ids[0];
    let last = previews.len() as int;
    assert(!exists|i: int| 0 <= i < previews.len() && previews[i].len() > 0 && previews[i][0] == a);
    assert(pushed[last] == ids);
    assert forall|j: int| 0 <= j < last implies !(pushed[j].len() > 0 && pushed[j][0] == a) by {
        assert(pushed[j] == previews[j]);
    }
    assert(0 <= last < pushed.len() && pushed[last].len() > 0 && pushed[last][0] == a);
    let w = choose|i: int|
        0 <= i < pushed.len() && pushed[i].len() > 0 && pushed[i][0] == a && forall|j: int|
            0 <= j < i ==> !(pushed[j].len() > 0 && pushed[j][0] == a);
    if w < last {
        assert(pushed[w] == previews[w]);
    }
    if w > last {
        assert(!(pushed[last].len() > 0 && pushed[last][0] == a));
    }
    assert(pushed.remove(last) =~= previews);
}


/// No two previews share an anchor.
pub open spec fn anchors_distinct(previews: Seq<Seq<i32>>) -> bool {
    forall|i: int, j: int|
        0 <= i < j < previews.len() && #[trigger] previews[i].len() > 0 && #[trigger] previews[j].len() > 0
            ==> previews[i][0] != previews[j][0]
}

/// With anchors that name one preview each, removing by an anchor removes
/// its only preview: a second removal by the same anchor finds nothing, and
/// the anchors left still name one preview each.
pub proof fn lemma_remove_by_anchor_once(previews: Seq<Seq<i32>>, anchor: i32)
    requires
        anchors_distinct(previews),
        first_anchored(previews, anchor) is Some,
    ensures
        first_anchored(previews.remove(first_anchored(previews, anchor)->0), anchor) is None,
        anchors_distinct(previews.remove(first_anchored(previews, anchor)->0)),
{
    let i = first_anchored(previews, anchor)->0;
    let rest = previews.remove(i);
    assert(0 <= i < previews.len() && previews[i].len() > 0 && previews[i][0] == anchor);
    assert forall|k: int| 0 <= k < rest.len() implies !(#[trigger] rest[k].len() > 0 && rest[k][0] == anchor) by {
        if k < i {
            assert(rest[k] == previews[k]);
        } else {
            assert(rest[k] == previews[k + 1]);
        }
    }
    assert forall|a: int, b: int|
        0 <= a < b < rest.len() && #[trigger] rest[a].len() > 0 && #[trigger] rest[b].len() > 0 implies rest[a][0]
            != rest[b][0] by {
        let a2 = if a < i { a } else { a + 1 };
        let b2 = if b < i { b } else { b + 1 };
        assert(rest[a] == previews[a2]);
        assert(rest[b] == previews[b2]);
        assert(previews[a2].len() > 0 && previews[b2].len() > 0);
    }
}

} // verus!
