//! Decisions taken when a screen is asked to play a URL: whether it is a
//! live stream, and the names under which its audio is relayed.

use vstd::prelude::*;
use crate::text::{chars_of, push_char, push_str};

verus! {

/// `pattern` occurs somewhere in `s`.
pub open spec fn contains_text(s: Seq<char>, pattern: Seq<char>) -> bool {
    exists|i: int| 0 <= i && i + pattern.len() <= s.len() && #[trigger] s.subrange(i, i + pattern.len()) == pattern
}

/// Whether `pattern` occurs in `s`.
pub fn text_contains(s: &str, pattern: &str) -> (found: bool)
    ensures
        found == contains_text(s@, pattern@),
{
    let text = chars_of(s);
    let pat = chars_of(pattern);
    if pat.len() > text.len() {
        assert(!contains_text(s@, pattern@));
        return false;
    }
    let last_start = text.len() - pat.len();
    let mut i: usize = 0;
    while i <= last_start
        invariant_except_break
            i <= last_start,
        invariant
            text@ == s@,
            pat@ == pattern@,
            last_start + pat@.len() == text@.len(),
            text@.len() <= usize::MAX,
            forall|j: int| 0 <= j < i ==> #[trigger] text@.subrange(j, j + pat@.len()) != pat@,
        ensures
            forall|j: int| 0 <= j <= last_start ==> #[trigger] text@.subrange(j, j + pat@.len()) != pat@,
        decreases last_start + 1 - i,
    {
        let mut k: usize = 0;
        let mut same = true;
        while k < pat.len()
            invariant
                i <= last_start,
                last_start + pat@.len() == text@.len(),
                text@.len() <= usize::MAX,
                k <= pat@.len(),
                same == forall|m: int| 0 <= m < k ==> text@[i + m] == pat@[m],
            decreases pat@.len() - k,
        {
            if text[i + k] != pat[k] {
                same = false;
            }
            k = k + 1;
        }
        if same {
            assert(text@.subrange(i as int, i + pat@.len()) =~= pat@);
            return true;
        }
        proof {
            let m = choose|m: int| 0 <= m < pat@.len() && text@[i + m] != pat@[m];
            assert(text@.subrange(i as int, i + pat@.len())[m] != pat@[m]);
        }
        if i == last_start {
            assert(forall|j: int| 0 <= j <= last_start ==> #[trigger] text@.subrange(j, j + pat@.len()) != pat@);
            break;
        }
        i = i + 1;
    }
    assert(!contains_text(s@, pattern@)) by {
        if contains_text(s@, pattern@) {
            let j = choose|j: int| 0 <= j && j + pattern@.len() <= s@.len() && #[trigger] s@.subrange(j, j + pattern@.len()) == pattern@;
            assert(j <= last_start);
            assert(text@.subrange(j, j + pat@.len()) != pat@);
        }
    }
    false
}

/// A YouTube link, played as a live stream from the address it resolves
/// to.
pub fn is_youtube_url(url: &str) -> (youtube: bool)
    ensures
        youtube == (contains_text(url@, "youtube.com"@) || contains_text(url@, "youtu.be"@)),
{
    text_contains(url, "youtube.com") || text_contains(url, "youtu.be")
}

/// The decimal digit for a value below 10.
pub open spec fn digit_char(d: nat) -> char {
    (48 + d) as char
}

/// `n` written in decimal, as `{}` writes it.
pub open spec fn decimal(n: nat) -> Seq<char>
    decreases n,
{
    if n < 10 {
        seq![digit_char(n)]
    } else {
        decimal(n / 10).push(digit_char(n % 10))
    }
}

/// Appends `n` in decimal.
pub fn push_decimal(text: &mut String, n: usize)
    ensures
        final(text)@ == old(text)@ + decimal(n as nat),
    decreases n,
{
    if n >= 10 {
        push_decimal(text, n / 10);
    }
    let d = (n % 10) as u8;
    push_char(text, (48 + d) as char);
    proof {
        if n >= 10 {
            assert(decimal(n as nat) == decimal((n / 10) as nat).push(digit_char((n % 10) as nat)));
        }
    }
}

/// The relay path of the `audio_id`-th audio clip: `clip_<id>.mp3`.
pub fn clip_relay_path(audio_id: usize) -> (path: String)
    ensures
        path@ == "clip_"@ + decimal(audio_id as nat) + ".mp3"@,
{
    let mut path = String::new();
    push_str(&mut path, "clip_");
    push_decimal(&mut path, audio_id);
    push_str(&mut path, ".mp3");
    path
}

/// The address players fetch a relayed clip from: the relay's base URL,
/// a slash, then the clip's relay path.
pub fn clip_audio_url(base_url: &str, relay_path: &str) -> (url: String)
    ensures
        url@ == base_url@ + seq!['/'] + relay_path@,
{
    let mut url = String::new();
    push_str(&mut url, base_url);
    push_char(&mut url, '/');
    push_str(&mut url, relay_path);
    url
}

} // verus!
