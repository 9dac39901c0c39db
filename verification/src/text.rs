//! Building blocks for the text payloads: appending characters and
//! six-digit upper-case hex colour codes.

use vstd::prelude::*;

verus! {

/// Appends one character to a string.
///
/// Trusted: calls `String::push` from std, whose documentation says it
/// appends the given `char` to the end of the string; that is all this
/// contract claims.
#[verifier::external_body]
pub(crate) fn push_char(text: &mut String, c: char)
    ensures
        final(text)@ == old(text)@.push(c),
{
    text.push(c);
}

/// Upper-case hex digit for a value below 16.
pub open spec fn hex_digit(d: u32) -> char {
    if d < 10 {
        (48 + d) as char
    } else {
        (55 + d) as char
    }
}

/// The `i`-th (from the left) of the six hex digits of `rgb`.
pub open spec fn hex_nibble(rgb: u32, i: u32) -> u32 {
    (rgb >> (20 - 4 * i) as u32) & 0xF
}

/// `rgb` written as exactly six upper-case hex digits, as `{:06X}` writes
/// any value below `0x100_0000`.
pub open spec fn hex6(rgb: u32) -> Seq<char> {
    seq![
        hex_digit(hex_nibble(rgb, 0)),
        hex_digit(hex_nibble(rgb, 1)),
        hex_digit(hex_nibble(rgb, 2)),
        hex_digit(hex_nibble(rgb, 3)),
        hex_digit(hex_nibble(rgb, 4)),
        hex_digit(hex_nibble(rgb, 5)),
    ]
}

/// A colour tag `{RRGGBB}`.
pub open spec fn color_tag(rgb: u32) -> Seq<char> {
    seq!['{'] + hex6(rgb) + seq!['}']
}

fn hex_digit_char(d: u32) -> (c: char)
    requires
        d < 16,
    ensures
        c == hex_digit(d),
{
    if d < 10 {
        ((48 + d) as u8) as char
    } else {
        ((55 + d) as u8) as char
    }
}

/// Appends `{RRGGBB}` for `rgb`.
pub fn push_color_tag(text: &mut String, rgb: u32)
    ensures
        final(text)@ == old(text)@ + color_tag(rgb),
{
    push_char(text, '{');
    let mut i: u32 = 0;
    while i < 6
        invariant
            i <= 6,
            text@ == old(text)@ + seq!['{'] + hex6(rgb).take(i as int),
        decreases 6 - i,
    {
        let shift: u32 = 20 - 4 * i;
        let d = (rgb >> shift) & 0xF;
        assert(d < 16) by (bit_vector)
            requires d == (rgb >> shift) & 0xF;
        let c = hex_digit_char(d);
        push_char(text, c);
        assert(hex6(rgb).take(i + 1) =~= hex6(rgb).take(i as int).push(c));
        i = i + 1;
    }
    push_char(text, '}');
    assert(hex6(rgb).take(6) =~= hex6(rgb));
}


/// The characters of `s`, in order.
pub fn chars_of(s: &str) -> (chars: Vec<char>)
    ensures
        chars@ == s@,
{
    let mut chars: Vec<char> = Vec::new();
    for c in it: s.chars()
        invariant
            it.seq() == s@,
            chars@ == it.seq().take(it.index() as int),
    {
        chars.push(c);
    }
    chars
}

/// Appends every character of `s`.
pub fn push_str(text: &mut String, s: &str)
    ensures
        final(text)@ == old(text)@ + s@,
{
    let chars = chars_of(s);
    let mut i: usize = 0;
    while i < chars.len()
        invariant
            i <= chars@.len(),
            chars@ == s@,
            text@ == old(text)@ + s@.take(i as int),
        decreases chars@.len() - i,
    {
        push_char(text, chars[i]);
        assert(s@.take(i + 1) =~= s@.take(i as int).push(chars@[i as int]));
        i = i + 1;
    }
    assert(s@.take(s@.len() as int) =~= s@);
}

} // verus!
