//! Bookkeeping of the audio relay: which request paths are served from a
//! live source, how a request path is matched against a registered one,
//! which cached files may be served and with which content type.

use vstd::prelude::*;
use crate::text::chars_of;

verus! {

/// `s` without its trailing `/` characters.
pub open spec fn trim_trailing_slashes(s: Seq<char>) -> Seq<char>
    decreases s.len(),
{
    if s.len() > 0 && s.last() == '/' {
        trim_trailing_slashes(s.drop_last())
    } else {
        s
    }
}

/// `s` ends with `suffix` (every text ends with the empty one).
pub open spec fn ends_with(s: Seq<char>, suffix: Seq<char>) -> bool {
    suffix.len() <= s.len() && s.subrange(s.len() - suffix.len(), s.len() as int) == suffix
}

/// A requested path refers to a registered one when it is that path, or
/// when, stripped of trailing slashes, it ends with it.
pub open spec fn path_matches(requested: Seq<char>, registered: Seq<char>) -> bool {
    requested == registered || ends_with(trim_trailing_slashes(requested), registered)
}

/// `a` and `b` hold the same characters.
pub fn same_chars(a: &Vec<char>, b: &Vec<char>) -> (same: bool)
    ensures
        same == (a@ == b@),
{
    if a.len() != b.len() {
        return false;
    }
    let mut i: usize = 0;
    while i < a.len()
        invariant
            a@.len() == b@.len(),
            i <= a@.len(),
            forall|k: int| 0 <= k < i ==> a@[k] == b@[k],
        decreases a@.len() - i,
    {
        if a[i] != b[i] {
            return false;
        }
        i = i + 1;
    }
    assert(a@ =~= b@);
    true
}

/// `a` and `b` are the same text.
pub fn same_text(a: &str, b: &str) -> (same: bool)
    ensures
        same == (a@ == b@),
{
    let a_chars = chars_of(a);
    let b_chars = chars_of(b);
    same_chars(&a_chars, &b_chars)
}

/// Length of `chars` once its trailing slashes are dropped.
fn trimmed_len(chars: &Vec<char>) -> (n: usize)
    ensures
        n <= chars@.len(),
        chars@.take(n as int) == trim_trailing_slashes(chars@),
{
    let mut n = chars.len();
    assert(chars@.take(n as int) =~= chars@);
    while n > 0 && chars[n - 1] == '/'
        invariant
            n <= chars@.len(),
            trim_trailing_slashes(chars@.take(n as int)) == trim_trailing_slashes(chars@),
        decreases n,
    {
        assert(chars@.take(n as int).drop_last() =~= chars@.take(n - 1));
        n = n - 1;
    }
    n
}

/// Whether a request for `requested` is served by the entry registered
/// under `registered`.
pub fn relay_path_matches(requested: &str, registered: &str) -> (refers: bool)
    ensures
        refers == path_matches(requested@, registered@),
{
    let req = chars_of(requested);
    let reg = chars_of(registered);
    if same_chars(&req, &reg) {
        return true;
    }
    let n = trimmed_len(&req);
    let ghost trimmed = req@.take(n as int);
    assert(trimmed.len() == n);
    if reg.len() > n {
        return false;
    }
    let start = n - reg.len();
    let mut k: usize = 0;
    while k < reg.len()
        invariant
            start + reg@.len() == n,
            n <= req@.len(),
            k <= reg@.len(),
            trimmed == req@.take(n as int),
            trimmed == trim_trailing_slashes(requested@),
            req@ == requested@,
            reg@ == registered@,
            requested@ != registered@,
            forall|j: int| 0 <= j < k ==> req@[start + j] == reg@[j],
        decreases reg@.len() - k,
    {
        if req[start + k] != reg[k] {
            assert(trimmed.subrange(start as int, n as int)[k as int] != reg@[k as int]);
            return false;
        }
        k = k + 1;
    }
    assert(trimmed.subrange(start as int, n as int) =~= reg@);
    true
}

/// Entries kept by a removal of `path`.
pub open spec fn kept_by<R>(path: Seq<char>) -> spec_fn((Seq<char>, R)) -> bool {
    |e: (Seq<char>, R)| !path_matches(path, e.0)
}

/// Entries dropped by a removal of `path`.
pub open spec fn dropped_by<R>(path: Seq<char>) -> spec_fn((Seq<char>, R)) -> bool {
    |e: (Seq<char>, R)| path_matches(path, e.0)
}

/// Index of the first entry registered exactly under `path`, if any.
pub open spec fn first_exact<R>(entries: Seq<(Seq<char>, R)>, path: Seq<char>) -> Option<int> {
    if exists|i: int| 0 <= i < entries.len() && entries[i].0 == path {
        Some(choose|i: int| 0 <= i < entries.len() && entries[i].0 == path && forall|j: int| 0 <= j < i ==> entries[j].0 != path)
    } else {
        None
    }
}

/// Items registered under request paths, in registration order.
pub struct PathTable<R> {
    entries: Vec<(String, R)>,
}

impl<R> PathTable<R> {
    /// The entries as (path, item) pairs, oldest first.
    pub closed spec fn entries(&self) -> Seq<(Seq<char>, R)> {
        self.entries@.map_values(|e: (String, R)| (e.0@, e.1))
    }

    pub fn new() -> (table: Self)
        ensures
            table.entries() == Seq::<(Seq<char>, R)>::empty(),
    {
        let table = PathTable { entries: Vec::new() };
        assert(table.entries() =~= Seq::<(Seq<char>, R)>::empty());
        table
    }

    /// Adds `item` under `path`, after every existing entry.
    pub fn register(&mut self, path: String, item: R)
        ensures
            final(self).entries() == old(self).entries().push((path@, item)),
    {
        self.entries.push((path, item));
        assert(self.entries() =~= old(self).entries().push((path@, item)));
    }

    /// The item of the first entry registered exactly under `path`.
    pub fn find(&self, path: &str) -> (found: Option<&R>)
        ensures
            match first_exact(self.entries(), path@) {
                Some(i) => found == Some(&self.entries()[i].1),
                None => found is None,
            },
    {
        let mut i: usize = 0;
        while i < self.entries.len()
            invariant
                i <= self.entries@.len(),
                forall|j: int| 0 <= j < i ==> self.entries()[j].0 != path@,
            decreases self.entries@.len() - i,
        {
            if same_text(self.entries[i].0.as_str(), path) {
                let ghost found_at = i as int;
                proof {
                    assert(self.entries()[found_at].0 == path@);
                    let w = choose|k: int| 0 <= k < self.entries().len() && self.entries()[k].0 == path@ && forall|j: int| 0 <= j < k ==> self.entries()[j].0 != path@;
                    assert(0 <= found_at < self.entries().len() && self.entries()[found_at].0 == path@ && forall|j: int| 0 <= j < found_at ==> self.entries()[j].0 != path@);
                    if w < found_at {
                        assert(self.entries()[w].0 != path@);
                    } else if w > found_at {
                        assert(self.entries()[found_at].0 != path@);
                    }
                }
                return Some(&self.entries[i].1);
            }
            i = i + 1;
        }
        None
    }

    /// Removes every entry that a request for `path` refers to and hands
    /// their items back, oldest first; the others stay in order.
    pub fn remove_matching(&mut self, path: &str) -> (removed: Vec<R>)
        ensures
            final(self).entries() == old(self).entries().filter(kept_by::<R>(path@)),
            removed@ == old(self).entries().filter(dropped_by::<R>(path@)).map_values(|e: (Seq<char>, R)| e.1),
    {
        let ghost orig = self.entries();
        let ghost mut consumed: int = 0;
        let mut removed: Vec<R> = Vec::new();
        let mut index: usize = 0;
        assert(orig.take(0).filter(kept_by::<R>(path@)) =~= Seq::<(Seq<char>, R)>::empty());
        assert(orig.take(0).filter(dropped_by::<R>(path@)) =~= Seq::<(Seq<char>, R)>::empty());
        while index < self.entries.len()
            invariant
                0 <= consumed <= orig.len(),
                index <= self.entries@.len(),
                self.entries().take(index as int) == orig.take(consumed).filter(kept_by::<R>(path@)),
                self.entries().skip(index as int) == orig.skip(consumed),
                removed@ == orig.take(consumed).filter(dropped_by::<R>(path@)).map_values(|e: (Seq<char>, R)| e.1),
            decreases self.entries@.len() - index,
        {
            let ghost before = self.entries();
            assert(before.len() == self.entries@.len());
            assert(before.skip(index as int).len() == orig.skip(consumed).len());
            assert(before.skip(index as int)[0] == orig[consumed]);
            assert(before[index as int] == orig[consumed]);
            assert(orig.take(consumed + 1) =~= orig.take(consumed).push(orig[consumed]));
            proof {
                orig.take(consumed).lemma_filter_push(orig[consumed], kept_by::<R>(path@));
                orig.take(consumed).lemma_filter_push(orig[consumed], dropped_by::<R>(path@));
            }
            if relay_path_matches(path, self.entries[index].0.as_str()) {
                let (_, item) = self.entries.remove(index);
                removed.push(item);
                proof {
                    assert(self.entries() =~= before.remove(index as int));
                    assert(self.entries().take(index as int) =~= before.take(index as int));
                    assert(self.entries().skip(index as int) =~= before.skip(index as int).skip(1));
                    assert(orig.skip(consumed + 1) =~= orig.skip(consumed).skip(1));
                    assert(orig.take(consumed).filter(dropped_by::<R>(path@)).push(orig[consumed]).map_values(
                        |e: (Seq<char>, R)| e.1,
                    ) =~= orig.take(consumed).filter(dropped_by::<R>(path@)).map_values(|e: (Seq<char>, R)| e.1).push(item));
                    consumed = consumed + 1;
                }
            } else {
                proof {
                    assert(self.entries().take(index + 1) =~= before.take(index as int).push(orig[consumed]));
                    assert(self.entries().skip(index + 1) =~= before.skip(index as int).skip(1));
                    assert(orig.skip(consumed + 1) =~= orig.skip(consumed).skip(1));
                    consumed = consumed + 1;
                }
                index = index + 1;
            }
        }
        proof {
            assert(orig.skip(consumed).len() == 0);
            assert(orig.take(consumed) =~= orig);
            assert(self.entries() =~= self.entries().take(index as int));
        }
        removed
    }
}


/// An audio source played live: where it is fetched from, and whether it
/// starts over when it ends.
pub struct AudioSource {
    pub url: String,
    pub loops: bool,
}

impl AudioSource {
    pub fn duplicate(&self) -> (copy: Self)
        ensures
            copy.url@ == self.url@,
            copy.loops == self.loops,
    {
        AudioSource { url: self.url.clone(), loops: self.loops }
    }
}

/// No entry of `entries` is registered exactly under `path`.
pub proof fn lemma_kept_entries_exclude_path<R>(entries: Seq<(Seq<char>, R)>, path: Seq<char>)
    ensures
        forall|j: int|
            0 <= j < entries.filter(kept_by::<R>(path)).len() ==> #[trigger] entries.filter(kept_by::<R>(path))[j].0 != path,
{
    entries.filter_lemma(kept_by::<R>(path));
    assert forall|j: int| 0 <= j < entries.filter(kept_by::<R>(path)).len() implies #[trigger] entries.filter(
        kept_by::<R>(path),
    )[j].0 != path by {
        assert(kept_by::<R>(path)(entries.filter(kept_by::<R>(path))[j]));
    }
}

/// Appending an entry under `path` to entries none of which is registered
/// under `path` makes it the first exact match.
proof fn lemma_first_exact_after_push<R>(entries: Seq<(Seq<char>, R)>, path: Seq<char>, item: R)
    requires
        forall|j: int| 0 <= j < entries.len() ==> #[trigger] entries[j].0 != path,
    ensures
        first_exact(entries.push((path, item)), path) == Some(entries.len() as int),
        first_exact(entries, path) is None,
{
    let pushed = entries.push((path, item));
    let last = entries.len() as int;
    assert(pushed[last].0 == path);
    assert(0 <= last < pushed.len() && pushed[last].0 == path && forall|j: int| 0 <= j < last ==> pushed[j].0 != path) by {
        assert forall|j: int| 0 <= j < last implies pushed[j].0 != path by {
            assert(pushed[j] == entries[j]);
        }
    }
    let w = choose|i: int| 0 <= i < pushed.len() && pushed[i].0 == path && forall|j: int| 0 <= j < i ==> pushed[j].0 != path;
    if w < last {
        assert(pushed[w] == entries[w]);
    }
    if w > last {
        assert(pushed[last].0 != path);
    }
}

/// The live sources served by the relay, with the running relays that
/// stream them (`R` is the handle of one running relay).
pub struct LiveAudio<R> {
    sources: PathTable<AudioSource>,
    relays: PathTable<R>,
}

impl<R> LiveAudio<R> {
    /// Registered sources, oldest first.
    pub closed spec fn sources(&self) -> Seq<(Seq<char>, AudioSource)> {
        self.sources.entries()
    }

    /// Running relays, oldest first.
    pub closed spec fn relays(&self) -> Seq<(Seq<char>, R)> {
        self.relays.entries()
    }

    pub fn new() -> (live: Self)
        ensures
            live.sources() == Seq::<(Seq<char>, AudioSource)>::empty(),
            live.relays() == Seq::<(Seq<char>, R)>::empty(),
    {
        LiveAudio { sources: PathTable::new(), relays: PathTable::new() }
    }

    /// Forgets every source and relay that a request for `path` refers to,
    /// so that later requests for it are not served live, and hands back
    /// the relays to shut down, oldest first.
    pub fn stop_live_source(&mut self, path: &str) -> (stopped: Vec<R>)
        ensures
            final(self).sources() == old(self).sources().filter(kept_by::<AudioSource>(path@)),
            final(self).relays() == old(self).relays().filter(kept_by::<R>(path@)),
            stopped@ == old(self).relays().filter(dropped_by::<R>(path@)).map_values(|e: (Seq<char>, R)| e.1),
            first_exact(final(self).sources(), path@) is None,
            first_exact(final(self).relays(), path@) is None,
    {
        let _ = self.sources.remove_matching(path);
        let stopped = self.relays.remove_matching(path);
        proof {
            lemma_kept_entries_exclude_path(old(self).sources(), path@);
            lemma_kept_entries_exclude_path(old(self).relays(), path@);
            let s = self.sources();
            let r = self.relays();
            assert(s.len() == old(self).sources().filter(kept_by::<AudioSource>(path@)).len());
            assert forall|j: int| 0 <= j < s.len() implies #[trigger] s[j].0 != path@ by {
                assert(s[j] == old(self).sources().filter(kept_by::<AudioSource>(path@))[j]);
            }
            assert forall|j: int| 0 <= j < r.len() implies #[trigger] r[j].0 != path@ by {
                assert(r[j] == old(self).relays().filter(kept_by::<R>(path@))[j]);
            }
            if exists|i: int| 0 <= i < s.len() && s[i].0 == path@ {
                let i = choose|i: int| 0 <= i < s.len() && s[i].0 == path@;
                assert(s[i].0 != path@);
            }
            if exists|i: int| 0 <= i < r.len() && r[i].0 == path@ {
                let i = choose|i: int| 0 <= i < r.len() && r[i].0 == path@;
                assert(r[i].0 != path@);
            }
        }
        stopped
    }

    /// Replaces whatever is served under `file_path` by the source at
    /// `source_url`: the old sources and relays that a request for it
    /// refers to are forgotten (their relays are handed back to shut down),
    /// and, when a relay was started for the new source, the relay and the
    /// source are registered under `file_path`. Without a relay nothing new
    /// is registered.
    pub fn register_live_source(&mut self, file_path: String, source_url: String, loops: bool, relay: Option<R>) -> (stopped: Vec<R>)
        ensures
            stopped@ == old(self).relays().filter(dropped_by::<R>(file_path@)).map_values(|e: (Seq<char>, R)| e.1),
            match relay {
                Some(r) => {
                    &&& final(self).relays() == old(self).relays().filter(kept_by::<R>(file_path@)).push((file_path@, r))
                    &&& final(self).sources().drop_last() == old(self).sources().filter(kept_by::<AudioSource>(file_path@))
                    &&& final(self).sources().len() == old(self).sources().filter(kept_by::<AudioSource>(file_path@)).len() + 1
                    &&& final(self).sources().last().0 == file_path@
                    &&& final(self).sources().last().1.url@ == source_url@
                    &&& final(self).sources().last().1.loops == loops
                    &&& first_exact(final(self).sources(), file_path@) == Some(final(self).sources().len() - 1)
                    &&& first_exact(final(self).relays(), file_path@) == Some(final(self).relays().len() - 1)
                },
                None => {
                    &&& final(self).relays() == old(self).relays().filter(kept_by::<R>(file_path@))
                    &&& final(self).sources() == old(self).sources().filter(kept_by::<AudioSource>(file_path@))
                    &&& first_exact(final(self).sources(), file_path@) is None
                },
            },
    {
        let stopped = self.stop_live_source(file_path.as_str());
        match relay {
            Some(r) => {
                let ghost kept_sources = self.sources();
                let ghost kept_relays = self.relays();
                let relay_path = file_path.clone();
                self.relays.register(relay_path, r);
                self.sources.register(file_path, AudioSource { url: source_url, loops });
                proof {
                    lemma_kept_entries_exclude_path(old(self).sources(), file_path@);
                    lemma_kept_entries_exclude_path(old(self).relays(), file_path@);
                    assert forall|j: int| 0 <= j < kept_sources.len() implies #[trigger] kept_sources[j].0 != file_path@ by {
                        assert(kept_sources[j] == old(self).sources().filter(kept_by::<AudioSource>(file_path@))[j]);
                    }
                    assert forall|j: int| 0 <= j < kept_relays.len() implies #[trigger] kept_relays[j].0 != file_path@ by {
                        assert(kept_relays[j] == old(self).relays().filter(kept_by::<R>(file_path@))[j]);
                    }
                    lemma_first_exact_after_push(kept_sources, file_path@, self.sources().last().1);
                    lemma_first_exact_after_push(kept_relays, file_path@, r);
                    assert(self.sources().drop_last() =~= kept_sources);
                    assert(self.sources() == kept_sources.push((file_path@, self.sources().last().1)));
                }
            },
            None => {},
        }
        stopped
    }

    /// The source registered exactly under `path`, if any.
    pub fn live_source_for(&self, path: &str) -> (found: Option<AudioSource>)
        ensures
            match first_exact(self.sources(), path@) {
                Some(i) => found is Some && found->0.url@ == self.sources()[i].1.url@ && found->0.loops == self.sources()[i].1.loops,
                None => found is None,
            },
    {
        match self.sources.find(path) {
            Some(source) => Some(source.duplicate()),
            None => None,
        }
    }

    /// The running relay registered exactly under `path`, if any.
    pub fn relay_for(&self, path: &str) -> (found: Option<&R>)
        ensures
            match first_exact(self.relays(), path@) {
                Some(i) => found == Some(&self.relays()[i].1),
                None => found is None,
            },
    {
        self.relays.find(path)
    }
}


/// `s` holds two dots in a row, a step to a parent directory.
pub open spec fn has_parent_step(s: Seq<char>) -> bool {
    exists|i: int| 0 <= i && i + 1 < s.len() && #[trigger] s[i] == '.' && s[i + 1] == '.'
}

/// A requested file may be served from the cache when its path is not
/// empty and never steps up a directory.
pub open spec fn servable(requested: Seq<char>) -> bool {
    requested.len() > 0 && !has_parent_step(requested)
}

/// Whether `requested` may be looked up in the cache directory.
pub fn is_servable(requested: &str) -> (ok: bool)
    ensures
        ok == servable(requested@),
{
    let chars = chars_of(requested);
    if chars.len() == 0 {
        return false;
    }
    let mut i: usize = 0;
    while i < chars.len() - 1
        invariant
            chars@.len() > 0,
            chars@ == requested@,
            i + 1 <= chars@.len(),
            forall|j: int| 0 <= j < i ==> !(#[trigger] chars@[j] == '.' && chars@[j + 1] == '.'),
        decreases chars@.len() - i,
    {
        if chars[i] == '.' && chars[i + 1] == '.' {
            return false;
        }
        i = i + 1;
    }
    assert(!has_parent_step(requested@)) by {
        if has_parent_step(requested@) {
            let j = choose|j: int| 0 <= j && j + 1 < requested@.len() && #[trigger] requested@[j] == '.' && requested@[j + 1] == '.';
            assert(j < i);
        }
    }
    true
}

/// Holds when `joined` is the text of the path that `Path::join` forms on
/// this machine from the directory `dir` and the path `requested`. How the
/// two are put together (the separator, an absolute `requested`) depends on
/// the platform, so it is a relation and not a function of its arguments.
pub uninterp spec fn path_joined(joined: Seq<char>, dir: Seq<char>, requested: Seq<char>) -> bool;

/// Holds when `extension` is what `Path::extension` reports, on this
/// machine, for the path with text `path` (`None` also when it is not valid
/// Unicode). What counts as the file name depends on how the platform splits
/// paths, so it is a relation and not a function of the path.
pub uninterp spec fn extension_of(path: Seq<char>, extension: Option<Seq<char>>) -> bool;

/// `requested` under the directory `dir`, as text.
///
/// Trusted: calls `Path::join` from std on `dir` taken as a path and turns
/// the result back into text (lossless here: both inputs are Unicode). The
/// contract claims only that the result is what that call forms from these
/// two arguments; how is left to the platform.
#[verifier::external_body]
fn join_path(dir: &str, requested: &str) -> (joined: String)
    ensures
        path_joined(joined@, dir@, requested@),
{
    std::path::Path::new(dir).join(requested).to_string_lossy().into_owned()
}

/// Where the cached file for `requested` lies under `output_dir`, or
/// `None` for a path that may not be served.
pub fn resolve_path(output_dir: &str, requested: &str) -> (resolved: Option<String>)
    ensures
        resolved is Some == servable(requested@),
        resolved matches Some(path) ==> path_joined(path@, output_dir@, requested@),
{
    if !is_servable(requested) {
        return None;
    }
    Some(join_path(output_dir, requested))
}

/// The extension of the file name in the path with text `path`, if it has
/// one that is valid Unicode.
///
/// Trusted: calls `Path::extension` from std and converts the result to a
/// `String`. The contract claims only that the result is what that call
/// reports for this path; which part that is is left to the platform.
#[verifier::external_body]
fn path_extension(path: &str) -> (extension: Option<String>)
    ensures
        extension_of(
            path@,
            match extension {
                Some(e) => Some(e@),
                None => None,
            },
        ),
{
    match std::path::Path::new(path).extension() {
        Some(ext) => match ext.to_str() {
            Some(text) => Some(text.to_string()),
            None => None,
        },
        None => None,
    }
}

pub open spec fn mp3_extension() -> Seq<char> {
    seq!['m', 'p', '3']
}

pub open spec fn ogg_extension() -> Seq<char> {
    seq!['o', 'g', 'g']
}

/// The content type served for a file with extension `ext`.
pub open spec fn content_type_spec(ext: Option<Seq<char>>) -> Option<Seq<char>> {
    match ext {
        Some(e) => if e == mp3_extension() {
            Some("audio/mpeg"@)
        } else if e == ogg_extension() {
            Some("audio/ogg"@)
        } else {
            None
        },
        None => None,
    }
}

/// The content type served for a file with extension `ext`: MP3 and Ogg
/// audio are named, anything else is sent without one.
pub fn content_type_for_extension(ext: Option<&str>) -> (content_type: Option<&'static str>)
    ensures
        match ext {
            Some(e) => match content_type_spec(Some(e@)) {
                Some(t) => content_type is Some && content_type->0@ == t,
                None => content_type is None,
            },
            None => content_type is None,
        },
{
    match ext {
        Some(e) => {
            let chars = chars_of(e);
            let mp3: Vec<char> = vec!['m', 'p', '3'];
            let ogg: Vec<char> = vec!['o', 'g', 'g'];
            assert(mp3@ =~= mp3_extension());
            assert(ogg@ =~= ogg_extension());
            if same_chars(&chars, &mp3) {
                Some("audio/mpeg")
            } else if same_chars(&chars, &ogg) {
                Some("audio/ogg")
            } else {
                None
            }
        },
        None => None,
    }
}

/// The content type served for the cached file at `path`: the one
/// `content_type_for_extension` gives for the extension std reports for it.
pub fn content_type_for(path: &str) -> (content_type: Option<&'static str>)
    ensures
        exists|ext: Option<Seq<char>>|
            #[trigger] extension_of(path@, ext) && match content_type_spec(ext) {
                Some(t) => content_type is Some && content_type->0@ == t,
                None => content_type is None,
            },
{
    let ext = path_extension(path);
    match ext {
        Some(e) => {
            let found = content_type_for_extension(Some(e.as_str()));
            assert(extension_of(path@, Some(e@)));
            found
        },
        None => {
            let found = content_type_for_extension(None);
            assert(extension_of(path@, None::<Seq<char>>));
            found
        },
    }
}


/// The reading end of one listener of a relay: the chunk of audio being
/// read and how far into it the reader is. `Rx` is where further chunks
/// come from.
pub struct ChannelReader<Rx> {
    pub receiver: Rx,
    chunk: Vec<u8>,
    offset: usize,
}

impl<Rx> ChannelReader<Rx> {
    /// Where further chunks come from.
    pub closed spec fn source(&self) -> Rx {
        self.receiver
    }

    /// The bytes of the current chunk not read yet.
    pub closed spec fn unread(&self) -> Seq<u8> {
        self.chunk@.skip(self.offset as int)
    }

    pub closed spec fn wf(&self) -> bool {
        self.offset <= self.chunk@.len()
    }

    pub fn new(receiver: Rx) -> (reader: Self)
        ensures
            reader.wf(),
            reader.source() == receiver,
            reader.unread() == Seq::<u8>::empty(),
    {
        let reader = ChannelReader { receiver, chunk: Vec::new(), offset: 0 };
        assert(reader.unread() =~= Seq::<u8>::empty());
        reader
    }

    /// Whether every byte of the current chunk has been read, so that the
    /// next read has to wait for another chunk.
    pub fn needs_chunk(&self) -> (needs: bool)
        requires
            self.wf(),
        ensures
            needs == (self.unread().len() == 0),
    {
        self.offset >= self.chunk.len()
    }

    /// Starts reading `chunk`.
    pub fn refill(&mut self, chunk: Vec<u8>)
        ensures
            final(self).wf(),
            final(self).unread() == chunk@,
            final(self).source() == old(self).source(),
    {
        self.chunk = chunk;
        self.offset = 0;
        assert(self.chunk@.skip(0) =~= self.chunk@);
    }

    /// Reads as many unread bytes as are there, up to `max`.
    pub fn take_bytes(&mut self, max: usize) -> (bytes: Vec<u8>)
        requires
            old(self).wf(),
        ensures
            final(self).wf(),
            bytes@.len() == if max < old(self).unread().len() { max as int } else { old(self).unread().len() as int },
            bytes@ == old(self).unread().take(bytes@.len() as int),
            final(self).unread() == old(self).unread().skip(bytes@.len() as int),
            final(self).source() == old(self).source(),
    {
        let available = self.chunk.len() - self.offset;
        let count = if available < max { available } else { max };
        let mut bytes: Vec<u8> = Vec::new();
        let mut k: usize = 0;
        while k < count
            invariant
                self.wf(),
                self.offset + count <= self.chunk@.len(),
                self.chunk@.len() <= usize::MAX,
                self.chunk == old(self).chunk,
                self.offset == old(self).offset,
                k <= count,
                bytes@ == self.chunk@.subrange(self.offset as int, self.offset + k),
            decreases count - k,
        {
            bytes.push(self.chunk[self.offset + k]);
            assert(bytes@ =~= self.chunk@.subrange(self.offset as int, self.offset + k + 1));
            k = k + 1;
        }
        assert(bytes@ =~= old(self).unread().take(count as int));
        self.offset = self.offset + count;
        assert(self.unread() =~= old(self).unread().skip(count as int));
        bytes
    }
}

} // verus!
