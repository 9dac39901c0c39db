//! Who hears an area screen's audio: the players inside its audio area.
//! These functions decide whose stream starts and stops; playing and
//! stopping it is the caller's part.

use vstd::prelude::*;
use crate::blacklist::PlayerList;

verus! {

/// Index of the first occurrence of `id` in `s`, if any.
pub open spec fn first_index(s: Seq<i32>, id: i32) -> Option<int> {
    if s.contains(id) {
        Some(choose|i: int| 0 <= i < s.len() && s[i] == id && forall|j: int| 0 <= j < i ==> s[j] != id)
    } else {
        None
    }
}

/// Whether `id` is in `ids`.
pub fn contains_id(ids: &Vec<i32>, id: i32) -> (found: bool)
    ensures
        found == ids@.contains(id),
{
    let mut i: usize = 0;
    while i < ids.len()
        invariant
            i <= ids@.len(),
            forall|k: int| 0 <= k < i ==> ids@[k] != id,
        decreases ids@.len() - i,
    {
        if ids[i] == id {
            assert(ids@[i as int] == id);
            return true;
        }
        i = i + 1;
    }
    false
}

/// Adds `player_id` to the listeners unless already there or on the audio
/// blacklist `blocked`; says whether it was added, that is whether their
/// stream has to start.
pub fn add_listener(listeners: &mut Vec<i32>, player_id: i32, blocked: &PlayerList) -> (added: bool)
    ensures
        added == (!old(listeners)@.contains(player_id) && !blocked@.contains(player_id)),
        final(listeners)@ == if added { old(listeners)@.push(player_id) } else { old(listeners)@ },
{
    if blocked.contains(player_id) {
        return false;
    }
    if contains_id(listeners, player_id) {
        false
    } else {
        listeners.push(player_id);
        true
    }
}

/// Removes the first occurrence of `player_id` from the listeners; says
/// whether there was one, that is whether their stream has to stop.
pub fn remove_listener(listeners: &mut Vec<i32>, player_id: i32) -> (removed: bool)
    ensures
        removed == old(listeners)@.contains(player_id),
        match first_index(old(listeners)@, player_id) {
            Some(i) => final(listeners)@ == old(listeners)@.remove(i),
            None => final(listeners)@ == old(listeners)@,
        },
{
    let mut i: usize = 0;
    while i < listeners.len()
        invariant
            i <= listeners@.len(),
            listeners@ == old(listeners)@,
            forall|k: int| 0 <= k < i ==> listeners@[k] != player_id,
        decreases listeners@.len() - i,
    {
        if listeners[i] == player_id {
            proof {
                let s = old(listeners)@;
                assert(s[i as int] == player_id);
                let w = choose|k: int| 0 <= k < s.len() && s[k] == player_id && forall|j: int| 0 <= j < k ==> s[j] != player_id;
                assert(0 <= i < s.len() && s[i as int] == player_id && forall|j: int| 0 <= j < i ==> s[j] != player_id);
                if w < i {
                    assert(s[w] != player_id);
                } else if w > i {
                    assert(s[i as int] != player_id);
                }
            }
            listeners.remove(i);
            return true;
        }
        i = i + 1;
    }
    false
}

/// The listeners once every player of `inside` who is not one yet has
/// been added, in the order of `inside`.
pub open spec fn joined(listeners: Seq<i32>, inside: Seq<i32>) -> Seq<i32>
    decreases inside.len(),
{
    if inside.len() == 0 {
        listeners
    } else {
        let before = joined(listeners, inside.drop_last());
        if before.contains(inside.last()) {
            before
        } else {
            before.push(inside.last())
        }
    }
}

/// Whether `id` is one of `inside`.
pub open spec fn is_inside(inside: Seq<i32>) -> spec_fn(i32) -> bool {
    |id: i32| inside.contains(id)
}

/// Whether `id` is not one of `inside`.
pub open spec fn is_outside(inside: Seq<i32>) -> spec_fn(i32) -> bool {
    |id: i32| !inside.contains(id)
}

proof fn lemma_joined_extends(listeners: Seq<i32>, inside: Seq<i32>)
    ensures
        joined(listeners, inside).len() >= listeners.len(),
        joined(listeners, inside).take(listeners.len() as int) == listeners,
        forall|id: i32| #[trigger] joined(listeners, inside).contains(id) <==> listeners.contains(id) || inside.contains(id),
    decreases inside.len(),
{
    if inside.len() > 0 {
        let before = joined(listeners, inside.drop_last());
        lemma_joined_extends(listeners, inside.drop_last());
        assert forall|id: i32| #[trigger] joined(listeners, inside).contains(id) <==> listeners.contains(id) || inside.contains(id) by {
            assert(inside =~= inside.drop_last().push(inside.last()));
            if inside.contains(id) && !inside.drop_last().contains(id) {
                let k = choose|k: int| 0 <= k < inside.len() && inside[k] == id;
                if k < inside.len() - 1 {
                    assert(inside.drop_last()[k] == id);
                }
            }
            if inside.drop_last().contains(id) {
                let k = choose|k: int| 0 <= k < inside.drop_last().len() && inside.drop_last()[k] == id;
                assert(inside[k] == id);
            }
            if !before.contains(inside.last()) {
                assert(before.push(inside.last()).contains(id) <==> before.contains(id) || id == inside.last()) by {
                    if before.push(inside.last()).contains(id) && id != inside.last() {
                        let k = choose|k: int| 0 <= k < before.push(inside.last()).len() && before.push(inside.last())[k] == id;
                        assert(before[k] == id);
                    }
                    if before.contains(id) {
                        let k = choose|k: int| 0 <= k < before.len() && before[k] == id;
                        assert(before.push(inside.last())[k] == id);
                    }
                    if id == inside.last() {
                        assert(before.push(inside.last())[before.len() as int] == id);
                    }
                }
            }
        }
        if !before.contains(inside.last()) {
            assert(before.push(inside.last()).take(listeners.len() as int) =~= before.take(listeners.len() as int));
        }
    }
}

/// Brings the listeners in line with `inside`: those in it who were not
/// listening join, in its order, and those not in it leave. Returns who
/// joined and who left.
fn sync_with(listeners: &mut Vec<i32>, inside: &Vec<i32>) -> (changes: (Vec<i32>, Vec<i32>))
    ensures
        changes.0@ == joined(old(listeners)@, inside@).skip(old(listeners)@.len() as int),
        changes.1@ == joined(old(listeners)@, inside@).filter(is_outside(inside@)),
        final(listeners)@ == joined(old(listeners)@, inside@).filter(is_inside(inside@)),
        forall|id: i32| #[trigger] final(listeners)@.contains(id) <==> inside@.contains(id),
{
    let ghost start = listeners@;
    let mut entered: Vec<i32> = Vec::new();
    let mut k: usize = 0;
    assert(inside@.take(0) =~= Seq::<i32>::empty());
    assert(start.skip(start.len() as int) =~= Seq::<i32>::empty());
    while k < inside.len()
        invariant
            k <= inside@.len(),
            listeners@ == joined(start, inside@.take(k as int)),
            entered@ == joined(start, inside@.take(k as int)).skip(start.len() as int),
            joined(start, inside@.take(k as int)).len() >= start.len(),
        decreases inside@.len() - k,
    {
        let id = inside[k];
        let ghost before = listeners@;
        assert(inside@.take(k + 1).drop_last() =~= inside@.take(k as int));
        assert(inside@.take(k + 1).last() == id);
        if !contains_id(listeners, id) {
            listeners.push(id);
            entered.push(id);
            assert(listeners@.skip(start.len() as int) =~= before.skip(start.len() as int).push(id));
        }
        k = k + 1;
    }
    assert(inside@.take(inside@.len() as int) =~= inside@);
    let ghost all = listeners@;
    let mut left: Vec<i32> = Vec::new();
    let mut index: usize = 0;
    let ghost mut consumed: int = 0;
    assert(all.take(0).filter(is_inside(inside@)) =~= Seq::<i32>::empty());
    assert(all.take(0).filter(is_outside(inside@)) =~= Seq::<i32>::empty());
    while index < listeners.len()
        invariant
            0 <= consumed <= all.len(),
            index <= listeners@.len(),
            listeners@.take(index as int) == all.take(consumed).filter(is_inside(inside@)),
            listeners@.skip(index as int) == all.skip(consumed),
            left@ == all.take(consumed).filter(is_outside(inside@)),
        decreases listeners@.len() - index,
    {
        let ghost before = listeners@;
        assert(before.skip(index as int).len() == all.skip(consumed).len());
        assert(before.skip(index as int)[0] == all[consumed]);
        assert(all.take(consumed + 1) =~= all.take(consumed).push(all[consumed]));
        proof {
            all.take(consumed).lemma_filter_push(all[consumed], is_inside(inside@));
            all.take(consumed).lemma_filter_push(all[consumed], is_outside(inside@));
        }
        if contains_id(inside, listeners[index]) {
            proof {
                assert(listeners@.take(index + 1) =~= before.take(index as int).push(all[consumed]));
                assert(listeners@.skip(index + 1) =~= before.skip(index as int).skip(1));
                assert(all.skip(consumed + 1) =~= all.skip(consumed).skip(1));
                consumed = consumed + 1;
            }
            index = index + 1;
        } else {
            let id = listeners.remove(index);
            left.push(id);
            proof {
                assert(listeners@ =~= before.remove(index as int));
                assert(listeners@.take(index as int) =~= before.take(index as int));
                assert(listeners@.skip(index as int) =~= before.skip(index as int).skip(1));
                assert(all.skip(consumed + 1) =~= all.skip(consumed).skip(1));
                consumed = consumed + 1;
            }
        }
    }
    proof {
        assert(all.skip(consumed).len() == 0);
        assert(all.take(consumed) =~= all);
        assert(listeners@ =~= listeners@.take(index as int));
        lemma_joined_extends(start, inside@);
        let f = all.filter(is_inside(inside@));
        all.filter_lemma(is_inside(inside@));
        assert forall|id: i32| #[trigger] f.contains(id) <==> inside@.contains(id) by {
            if f.contains(id) {
                let j = choose|j: int| 0 <= j < f.len() && f[j] == id;
                assert(is_inside(inside@)(f[j]));
            }
            if inside@.contains(id) {
                assert(all.contains(id));
                let j = choose|j: int| 0 <= j < all.len() && all[j] == id;
                all.lemma_filter_contains(is_inside(inside@), j);
            }
        }
    }
    (entered, left)
}


/// The players of `inside` who may hear the area's audio: those not on the
/// audio blacklist `blocked`, in the order of `inside`.
pub open spec fn hearing(inside: Seq<i32>, blocked: Seq<i32>) -> Seq<i32> {
    inside.filter(|id: i32| !blocked.contains(id))
}

/// The players of `inside` not on the blacklist, in order.
pub fn audible(inside: &Vec<i32>, blocked: &PlayerList) -> (allowed: Vec<i32>)
    ensures
        allowed@ == hearing(inside@, blocked@),
{
    let mut allowed: Vec<i32> = Vec::new();
    let mut k: usize = 0;
    assert(inside@.take(0).filter(|id: i32| !blocked@.contains(id)) =~= Seq::<i32>::empty());
    while k < inside.len()
        invariant
            k <= inside@.len(),
            allowed@ == inside@.take(k as int).filter(|id: i32| !blocked@.contains(id)),
        decreases inside@.len() - k,
    {
        let id = inside[k];
        assert(inside@.take(k + 1) =~= inside@.take(k as int).push(id));
        proof {
            inside@.take(k as int).lemma_filter_push(id, |id: i32| !blocked@.contains(id));
        }
        if !blocked.contains(id) {
            allowed.push(id);
        }
        k = k + 1;
    }
    assert(inside@.take(inside@.len() as int) =~= inside@);
    allowed
}

/// Every player that joins past the first `listeners.len()` comes from
/// `inside`.
proof fn lemma_joined_tail_from_inside(listeners: Seq<i32>, inside: Seq<i32>, k: int)
    requires
        listeners.len() <= k < joined(listeners, inside).len(),
    ensures
        inside.contains(joined(listeners, inside)[k]),
    decreases inside.len(),
{
    if inside.len() > 0 {
        let before = joined(listeners, inside.drop_last());
        lemma_joined_extends(listeners, inside.drop_last());
        if before.contains(inside.last()) || k < before.len() {
            if k >= before.len() {
                assert(joined(listeners, inside) == before);
            }
            lemma_joined_tail_from_inside(listeners, inside.drop_last(), k);
            let x = joined(listeners, inside)[k];
            assert(x == before[k]);
            let j = choose|j: int| 0 <= j < inside.drop_last().len() && inside.drop_last()[j] == x;
            assert(inside[j] == x);
        } else {
            assert(joined(listeners, inside)[k] == inside[inside.len() - 1]);
        }
    }
}

/// Brings the listeners in line with the players now `inside` the area who
/// are not on the audio blacklist `blocked`: those of them who were not
/// listening join, in the order of `inside`, and every other listener
/// leaves. Returns who joined and who left, in that order, for their
/// streams to be started and stopped; no blacklisted player ever joins.
pub fn sync_listeners(listeners: &mut Vec<i32>, inside: &Vec<i32>, blocked: &PlayerList) -> (changes: (Vec<i32>, Vec<i32>))
    ensures
        ({
            let h = hearing(inside@, blocked@);
            &&& changes.0@ == joined(old(listeners)@, h).skip(old(listeners)@.len() as int)
            &&& changes.1@ == joined(old(listeners)@, h).filter(is_outside(h))
            &&& final(listeners)@ == joined(old(listeners)@, h).filter(is_inside(h))
        }),
        forall|id: i32| #[trigger] final(listeners)@.contains(id) <==> inside@.contains(id) && !blocked@.contains(id),
        forall|k: int| 0 <= k < changes.0@.len() ==> !blocked@.contains(#[trigger] changes.0@[k]),
{
    let ghost start = listeners@;
    let allowed = audible(inside, blocked);
    let ghost h = allowed@;
    let changes = sync_with(listeners, &allowed);
    proof {
        let pred = |id: i32| !blocked@.contains(id);
        inside@.filter_lemma(pred);
        assert forall|id: i32| #[trigger] h.contains(id) <==> inside@.contains(id) && !blocked@.contains(id) by {
            if h.contains(id) {
                inside@.lemma_filter_contains_rev(pred, id);
                let j = choose|j: int| 0 <= j < h.len() && h[j] == id;
                assert(pred(h[j]));
            }
            if inside@.contains(id) && !blocked@.contains(id) {
                let j = choose|j: int| 0 <= j < inside@.len() && inside@[j] == id;
                inside@.lemma_filter_contains(pred, j);
            }
        }
        lemma_joined_extends(start, h);
        assert forall|k: int| 0 <= k < changes.0@.len() implies !blocked@.contains(#[trigger] changes.0@[k]) by {
            let all = joined(start, h);
            assert(changes.0@[k] == all[start.len() + k]);
            lemma_joined_tail_from_inside(start, h, start.len() + k);
        }
    }
    changes
}


/// Starting a single player's audio: it plays when the player is not yet
/// listening and not on the audio blacklist `blocked`, and from then on they
/// count as listening. Says whether the stream has to start.
pub fn start_player_audio(listening: &mut bool, player_id: i32, blocked: &PlayerList) -> (play: bool)
    ensures
        play == (!*old(listening) && !blocked@.contains(player_id)),
        *final(listening) == (*old(listening) || play),
{
    if *listening || blocked.contains(player_id) {
        return false;
    }
    *listening = true;
    true
}

/// Starting an area's audio: listeners put on the audio blacklist `blocked`
/// since they joined are dropped, and the stream starts for every remaining
/// listener, in order. Returns whom to play it for.
pub fn start_area_audio(listeners: &mut Vec<i32>, blocked: &PlayerList) -> (play_for: Vec<i32>)
    ensures
        final(listeners)@ == hearing(old(listeners)@, blocked@),
        play_for@ == final(listeners)@,
        forall|k: int| 0 <= k < play_for@.len() ==> !blocked@.contains(#[trigger] play_for@[k]),
{
    let kept = audible(listeners, blocked);
    proof {
        let pred = |id: i32| !blocked@.contains(id);
        listeners@.filter_lemma(pred);
        assert forall|k: int| 0 <= k < kept@.len() implies !blocked@.contains(#[trigger] kept@[k]) by {
            assert(pred(kept@[k]));
        }
    }
    *listeners = kept.clone();
    kept
}

} // verus!
