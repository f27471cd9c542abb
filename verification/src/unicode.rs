//! Character-level groundwork: UTF-8 byte widths of characters and the
//! Unicode classifications and conversions that the transformations rely on.

use unicode_categories::UnicodeCategories;
use unicode_normalization::UnicodeNormalization;
use vstd::prelude::*;
use vstd::string::StrSliceExecFns;
use vstd::utf8::char_is_scalar;
use vstd::utf8::encode_scalar;
use vstd::utf8::encode_utf8;

verus! {

/// Byte width of one character in its UTF-8 encoding.
pub open spec fn char_bytes(c: char) -> int {
    encode_scalar(c as u32).len() as int
}

/// Byte length of a character sequence in its UTF-8 encoding.
pub open spec fn byte_len(s: Seq<char>) -> int
    decreases s.len(),
{
    if s.len() == 0 {
        0
    } else {
        char_bytes(s[0]) + byte_len(s.drop_first())
    }
}

pub proof fn lemma_char_bytes_range(c: char)
    ensures
        1 <= char_bytes(c) <= 4,
{
    char_is_scalar(c);
}

/// `byte_len` agrees with the length of the full UTF-8 encoding.
pub proof fn lemma_byte_len_is_encoding_len(s: Seq<char>)
    ensures
        byte_len(s) == encode_utf8(s).len(),
    decreases s.len(),
{
    if s.len() > 0 {
        lemma_byte_len_is_encoding_len(s.drop_first());
    }
}

pub proof fn lemma_byte_len_push(s: Seq<char>, c: char)
    ensures
        byte_len(s.push(c)) == byte_len(s) + char_bytes(c),
    decreases s.len(),
{
    if s.len() == 0 {
        assert(s.push(c)[0] == c);
        assert(s.push(c).drop_first() =~= Seq::<char>::empty());
        assert(byte_len(s.push(c)) == char_bytes(c) + byte_len(Seq::<char>::empty()));
        assert(byte_len(Seq::<char>::empty()) == 0);
        assert(byte_len(s) == 0);
    } else {
        assert(s.push(c)[0] == s[0]);
        assert(s.push(c).drop_first() =~= s.drop_first().push(c));
        lemma_byte_len_push(s.drop_first(), c);
        assert(byte_len(s.push(c)) == char_bytes(s[0]) + byte_len(s.drop_first().push(c)));
        assert(byte_len(s) == char_bytes(s[0]) + byte_len(s.drop_first()));
    }
}

pub proof fn lemma_byte_len_bounds(s: Seq<char>)
    ensures
        s.len() <= byte_len(s) <= 4 * s.len(),
    decreases s.len(),
{
    if s.len() > 0 {
        lemma_char_bytes_range(s[0]);
        lemma_byte_len_bounds(s.drop_first());
    }
}

pub proof fn lemma_byte_len_take_succ(s: Seq<char>, i: int)
    requires
        0 <= i < s.len(),
    ensures
        byte_len(s.take(i + 1)) == byte_len(s.take(i)) + char_bytes(s[i]),
{
    assert(s.take(i + 1) =~= s.take(i).push(s[i]));
    lemma_byte_len_push(s.take(i), s[i]);
}

/// Byte offsets of character boundaries grow strictly with the boundary index.
pub proof fn lemma_byte_len_take_lt(s: Seq<char>, i: int, j: int)
    requires
        0 <= i < j <= s.len(),
    ensures
        byte_len(s.take(i)) < byte_len(s.take(j)),
    decreases j - i,
{
    lemma_byte_len_take_succ(s, i);
    lemma_char_bytes_range(s[i]);
    if i + 1 < j {
        lemma_byte_len_take_lt(s, i + 1, j);
    }
}

/// Executable byte width of a character, matching `char_bytes`.
pub fn utf8_len(c: char) -> (n: usize)
    ensures
        n == char_bytes(c),
{
    proof {
        char_is_scalar(c);
    }
    let u = c as u32;
    if u < 0x80 {
        1
    } else if u < 0x800 {
        2
    } else if u < 0x10000 {
        3
    } else {
        4
    }
}

/// The characters of a string slice, in order.
pub fn chars_of(s: &str) -> (r: Vec<char>)
    ensures
        r@ == s@,
{
    let n = s.unicode_len();
    let mut r: Vec<char> = Vec::new();
    let mut i: usize = 0;
    while i < n
        invariant
            n == s@.len(),
            i <= n,
            r@ == s@.take(i as int),
        decreases n - i,
    {
        let c = s.get_char(i);
        r.push(c);
        proof {
            assert(s@.take(i + 1) =~= s@.take(i as int).push(s@[i as int]));
        }
        i += 1;
    }
    proof {
        assert(r@ =~= s@);
    }
    r
}

/// The first character of the full lowercase conversion of `c`, if any.
pub uninterp spec fn lower_first(c: char) -> Option<char>;

/// The canonical decomposition of `c`.
pub uninterp spec fn nfd_chars(c: char) -> Seq<char>;

/// Whether `c` is a nonspacing combining mark.
pub uninterp spec fn nonspacing_mark(c: char) -> bool;

/// The first character of the canonical recomposition of `s`.
pub uninterp spec fn nfc_first(s: Seq<char>) -> Option<char>;

/// Whether `c` has the Unicode whitespace property.
pub uninterp spec fn whitespace_char(c: char) -> bool;

/// Relies on str::to_lowercase: its result is a function of the characters
/// alone, and lowercasing never turns a character into nothing, so the
/// conversion of a one-character string has a first character.
#[verifier::external_body]
pub fn lower_first_char(c: char) -> (r: Option<char>)
    ensures
        r == lower_first(c),
{
    c.to_string().to_lowercase().chars().next()
}

/// Relies on unicode_normalization's `nfd` for `char`: the canonical
/// decomposition of a single character depends on that character alone.
#[verifier::external_body]
pub fn nfd_of(c: char) -> (r: Vec<char>)
    ensures
        r@ == nfd_chars(c),
{
    c.nfd().collect()
}

/// Relies on unicode_categories' `is_mark_nonspacing`: a table lookup of the
/// character's general category.
#[verifier::external_body]
pub fn is_nonspacing_mark(c: char) -> (r: bool)
    ensures
        r == nonspacing_mark(c),
{
    c.is_mark_nonspacing()
}

/// Relies on unicode_normalization's `nfc` for iterators: the canonical
/// recomposition depends on the character sequence alone.
#[verifier::external_body]
pub fn nfc_first_of(v: &Vec<char>) -> (r: Option<char>)
    ensures
        r == nfc_first(v@),
{
    v.iter().cloned().nfc().next()
}

/// Relies on char::is_whitespace: the Unicode whitespace property of the
/// character.
#[verifier::external_body]
pub fn is_whitespace_char(c: char) -> (r: bool)
    ensures
        r == whitespace_char(c),
{
    c.is_whitespace()
}

/// Relies on String's FromIterator: collecting characters yields the string
/// of exactly those characters.
#[verifier::external_body]
pub fn string_of(v: &Vec<char>) -> (r: String)
    ensures
        r@ == v@,
{
    v.iter().collect()
}

} // verus!
