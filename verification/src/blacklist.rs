//! Per-feature lists of players who opted out of seeing (or hearing) the
//! plugin's screens.

use vstd::prelude::*;

verus! {

/// Player ids in the order they were added, each at most once.
pub struct PlayerList {
    ids: Vec<i32>,
}

impl View for PlayerList {
    type V = Seq<i32>;

    closed spec fn view(&self) -> Seq<i32> {
        self.ids@
    }
}

impl PlayerList {
    /// No player is listed twice.
    pub closed spec fn wf(&self) -> bool {
        self.ids@.no_duplicates()
    }

    pub fn new() -> (list: Self)
        ensures
            list.wf(),
            list@ == Seq::<i32>::empty(),
    {
        PlayerList { ids: Vec::new() }
    }

    pub fn contains(&self, player_id: i32) -> (listed: bool)
        ensures
            listed == self@.contains(player_id),
    {
        let mut i: usize = 0;
        while i < self.ids.len()
            invariant
                i <= self.ids@.len(),
                forall|k: int| 0 <= k < i ==> self.ids@[k] != player_id,
            decreases self.ids@.len() - i,
        {
            if self.ids[i] == player_id {
                assert(self.ids@[i as int] == player_id);
                return true;
            }
            i = i + 1;
        }
        false
    }

    /// Lists `player_id` unless it is listed already; says whether it was
    /// added.
    pub fn add(&mut self, player_id: i32) -> (added: bool)
        requires
            old(self).wf(),
        ensures
            final(self).wf(),
            added == !old(self)@.contains(player_id),
            final(self)@ == if added { old(self)@.push(player_id) } else { old(self)@ },
            final(self)@.contains(player_id),
    {
        if self.contains(player_id) {
            false
        } else {
            self.ids.push(player_id);
            proof {
                assert(self.ids@.last() == player_id);
                assert forall|a: int, b: int| 0 <= a < b < self.ids@.len() implies self.ids@[a] != self.ids@[b] by {
                    if b == self.ids@.len() - 1 {
                        assert(self.ids@[a] == old(self)@[a]);
                    } else {
                        assert(self.ids@[a] == old(self)@[a] && self.ids@[b] == old(self)@[b]);
                    }
                }
            }
            true
        }
    }

    /// Unlists `player_id`; says whether it was listed.
    pub fn remove(&mut self, player_id: i32) -> (removed: bool)
        requires
            old(self).wf(),
        ensures
            final(self).wf(),
            removed == old(self)@.contains(player_id),
            final(self)@ == old(self)@.filter(|id: i32| id != player_id),
            !final(self)@.contains(player_id),
    {
        let before = self.ids.len();
        let ghost orig = self.ids@;
        let mut kept: Vec<i32> = Vec::new();
        let mut i: usize = 0;
        assert(orig.take(0).filter(|id: i32| id != player_id) =~= Seq::<i32>::empty());
        while i < self.ids.len()
            invariant
                self.ids@ == orig,
                i <= orig.len(),
                kept@ == orig.take(i as int).filter(|id: i32| id != player_id),
            decreases orig.len() - i,
        {
            assert(orig.take(i + 1) =~= orig.take(i as int).push(orig[i as int]));
            proof {
                orig.take(i as int).lemma_filter_push(orig[i as int], |id: i32| id != player_id);
            }
            if self.ids[i] != player_id {
                kept.push(self.ids[i]);
            }
            i = i + 1;
        }
        assert(orig.take(orig.len() as int) =~= orig);
        self.ids = kept;
        proof {
            let f = orig.filter(|id: i32| id != player_id);
            orig.filter_lemma(|id: i32| id != player_id);
            assert(!f.contains(player_id));
            if orig.contains(player_id) {
                let k = choose|k: int| 0 <= k < orig.len() && orig[k] == player_id;
                orig.lemma_filter_len(|id: i32| id != player_id);
                lemma_filter_drops_listed(orig, player_id, k);
            } else {
                lemma_filter_keeps_all(orig, player_id);
            }
            lemma_filter_no_duplicates(orig, player_id);
        }
        self.ids.len() != before
    }

    /// A copy of the list.
    pub fn snapshot(&self) -> (copy: Vec<i32>)
        ensures
            copy@ == self@,
    {
        self.ids.clone()
    }
}

/// Filtering out an id that occurs drops at least one entry.
proof fn lemma_filter_drops_listed(s: Seq<i32>, player_id: i32, k: int)
    requires
        0 <= k < s.len(),
        s[k] == player_id,
    ensures
        s.filter(|id: i32| id != player_id).len() < s.len(),
    decreases s.len(),
{
    let pred = |id: i32| id != player_id;
    s.drop_last().lemma_filter_len(pred);
    assert(s =~= s.drop_last().push(s.last()));
    s.drop_last().lemma_filter_push(s.last(), pred);
    if k < s.len() - 1 {
        lemma_filter_drops_listed(s.drop_last(), player_id, k);
    }
}

/// Filtering out an id that does not occur keeps everything.
proof fn lemma_filter_keeps_all(s: Seq<i32>, player_id: i32)
    requires
        !s.contains(player_id),
    ensures
        s.filter(|id: i32| id != player_id) == s,
    decreases s.len(),
{
    let pred = |id: i32| id != player_id;
    if s.len() == 0 {
        assert(s.filter(pred) =~= s);
    } else {
        assert(s =~= s.drop_last().push(s.last()));
        assert(!s.drop_last().contains(player_id)) by {
            if s.drop_last().contains(player_id) {
                let k = choose|k: int| 0 <= k < s.drop_last().len() && s.drop_last()[k] == player_id;
                assert(s[k] == player_id);
            }
        }
        lemma_filter_keeps_all(s.drop_last(), player_id);
        s.drop_last().lemma_filter_push(s.last(), pred);
    }
}

/// Filtering keeps a list free of duplicates.
proof fn lemma_filter_no_duplicates(s: Seq<i32>, player_id: i32)
    requires
        s.no_duplicates(),
    ensures
        s.filter(|id: i32| id != player_id).no_duplicates(),
    decreases s.len(),
{
    let pred = |id: i32| id != player_id;
    if s.len() > 0 {
        let init = s.drop_last();
        assert(s =~= init.push(s.last()));
        assert(init.no_duplicates()) by {
            assert forall|a: int, b: int| 0 <= a < b < init.len() implies init[a] != init[b] by {
                assert(init[a] == s[a] && init[b] == s[b]);
            }
        }
        lemma_filter_no_duplicates(init, player_id);
        init.lemma_filter_push(s.last(), pred);
        if pred(s.last()) {
            let f = init.filter(pred);
            init.filter_lemma(pred);
            assert(!f.contains(s.last())) by {
                if f.contains(s.last()) {
                    let k = choose|k: int| 0 <= k < f.len() && f[k] == s.last();
                    init.lemma_filter_contains_rev(pred, f[k]);
                    assert(init.contains(f[k]));
                    let m = choose|m: int| 0 <= m < init.len() && init[m] == f[k];
                    assert(s[m] == s[s.len() - 1]);
                }
            }
            let g = f.push(s.last());
            assert forall|a: int, b: int| 0 <= a < b < g.len() implies g[a] != g[b] by {
                if b == g.len() - 1 {
                    assert(f.contains(g[a]));
                }
            }
        }
    }
}

/// The players who opted out, one list per feature.
pub struct Blacklists {
    pub screen_3d: PlayerList,
    pub screen_dialog: PlayerList,
    pub screen_textdraw: PlayerList,
    pub audio: PlayerList,
}

impl Blacklists {
    pub open spec fn wf(&self) -> bool {
        &&& self.screen_3d.wf()
        &&& self.screen_dialog.wf()
        &&& self.screen_textdraw.wf()
        &&& self.audio.wf()
    }

    pub fn new() -> (lists: Self)
        ensures
            lists.wf(),
            lists.screen_3d@ == Seq::<i32>::empty(),
            lists.screen_dialog@ == Seq::<i32>::empty(),
            lists.screen_textdraw@ == Seq::<i32>::empty(),
            lists.audio@ == Seq::<i32>::empty(),
    {
        Blacklists {
            screen_3d: PlayerList::new(),
            screen_dialog: PlayerList::new(),
            screen_textdraw: PlayerList::new(),
            audio: PlayerList::new(),
        }
    }

    pub fn is_screen_3d_blacklisted(&self, player_id: i32) -> (listed: bool)
        ensures
            listed == self.screen_3d@.contains(player_id),
    {
        self.screen_3d.contains(player_id)
    }

    pub fn is_screen_dialog_blacklisted(&self, player_id: i32) -> (listed: bool)
        ensures
            listed == self.screen_dialog@.contains(player_id),
    {
        self.screen_dialog.contains(player_id)
    }

    pub fn is_screen_textdraw_blacklisted(&self, player_id: i32) -> (listed: bool)
        ensures
            listed == self.screen_textdraw@.contains(player_id),
    {
        self.screen_textdraw.contains(player_id)
    }

    pub fn is_audio_blacklisted(&self, player_id: i32) -> (listed: bool)
        ensures
            listed == self.audio@.contains(player_id),
    {
        self.audio.contains(player_id)
    }
}


/// Listing a player who was not listed and then unlisting them gives back
/// the list as it was.
pub proof fn lemma_add_then_remove_restores(list: Seq<i32>, player_id: i32)
    requires
        !list.contains(player_id),
    ensures
        list.push(player_id).filter(|id: i32| id != player_id) == list,
{
    list.lemma_filter_push(player_id, |id: i32| id != player_id);
    lemma_filter_keeps_all(list, player_id);
}

} // verus!
