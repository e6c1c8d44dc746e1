//! Case folding and word characters.

use vstd::prelude::*;
use vstd::utf8::is_ascii_chars;
use crate::text::{chars_of, is_white};

verus! {

/// The lower-case mapping of a character, which may be more than one character.
pub uninterp spec fn char_lower(c: char) -> Seq<char>;

/// The lower-case form of a text.
pub uninterp spec fn text_lower(s: Seq<char>) -> Seq<char>;

/// Whether a character is alphabetic or numeric in the sense of Unicode.
pub uninterp spec fn char_alphanumeric(c: char) -> bool;

/// The lower case of an ASCII character.
pub open spec fn ascii_lower(c: char) -> char {
    if 'A' <= c <= 'Z' {
        (c as u32 + 32) as char
    } else {
        c
    }
}

/// [`char::to_lowercase`], its characters collected: the Unicode mapping, under the name
/// [`char_lower`]. Of an ASCII character it is the ASCII lower case. White space has no lower-case
/// mapping in the Unicode data, and a character without one is mapped to itself.
#[verifier::external_body]
pub(crate) fn lower_char(c: char) -> (r: Vec<char>)
    ensures
        r@ == char_lower(c),
        c <= '\u{7f}' ==> r@ == seq![ascii_lower(c)],
        is_white(c) ==> r@ == seq![c],
{
    c.to_lowercase().collect()
}

/// [`str::to_lowercase`], under the name [`text_lower`]. Of an ASCII text it is the ASCII
/// lower case, character by character.
#[verifier::external_body]
pub(crate) fn lower_text(s: &str) -> (r: String)
    ensures
        r@ == text_lower(s@),
        is_ascii_chars(s@) ==> r@ == Seq::new(s@.len(), |i: int| ascii_lower(s@[i])),
{
    s.to_lowercase()
}

/// [`char::is_alphanumeric`], under the name [`char_alphanumeric`]. Of the ASCII characters
/// it holds for the letters and the digits. White space is neither alphabetic nor of a general
/// category of numbers.
#[verifier::external_body]
pub(crate) fn is_alphanumeric(c: char) -> (r: bool)
    ensures
        r == char_alphanumeric(c),
        c <= '\u{7f}' ==> r == ('a' <= c <= 'z' || 'A' <= c <= 'Z' || '0' <= c <= '9'),
        is_white(c) ==> !r,
{
    c.is_alphanumeric()
}

/// Each character of `s` in lower case.
pub open spec fn folded(s: Seq<char>) -> Seq<char>
    decreases s.len(),
{
    if s.len() == 0 {
        Seq::empty()
    } else {
        folded(s.drop_last()) + char_lower(s.last())
    }
}

/// Each ASCII character of `s` in lower case.
pub open spec fn ascii_folded(s: Seq<char>) -> Seq<char> {
    Seq::new(s.len(), |i: int| ascii_lower(s[i]))
}

/// Each character of `s` in lower case.
pub fn fold(s: &str) -> (r: Vec<char>)
    ensures
        r@ == folded(s@),
        is_ascii_chars(s@) ==> folded(s@) == ascii_folded(s@),
        forall|i: int| 0 <= i < s@.len() && is_white(#[trigger] s@[i]) ==> char_lower(s@[i]) == seq![s@[i]],
{
    let cs = chars_of(s);
    let mut out: Vec<char> = Vec::new();
    for i in 0..cs.len()
        invariant
            out@ == folded(cs@.take(i as int)),
            is_ascii_chars(cs@) ==> out@ == ascii_folded(cs@).take(i as int),
            forall|k: int| 0 <= k < i && is_white(#[trigger] cs@[k]) ==> char_lower(cs@[k]) == seq![cs@[k]],
    {
        assert(cs@.take(i + 1).drop_last() =~= cs@.take(i as int));
        let mut low = lower_char(cs[i]);
        out.append(&mut low);
        proof {
            if is_ascii_chars(cs@) {
                assert(cs@[i as int] <= '\u{7f}');
                assert(out@ =~= ascii_folded(cs@).take(i + 1));
            }
        }
    }
    assert(cs@.take(cs@.len() as int) =~= cs@);
    assert(ascii_folded(cs@).take(cs@.len() as int) =~= ascii_folded(cs@));
    out
}

/// A capital letter of ASCII becomes the small letter at its place in the alphabet, and nothing else
/// changes.
pub proof fn capitals_become_small(i: int, c: char)
    requires
        0 <= i < 26,
    ensures
        ascii_lower(('A' as int + i) as char) == ('a' as int + i) as char,
        !('A' <= c <= 'Z') ==> ascii_lower(c) == c,
        ascii_lower(ascii_lower(c)) == ascii_lower(c),
{
}

} // verus!
