//! Between the wide strings of the Windows API and paths.
//!
//! A wide string is a run of 16-bit units that ends at the first zero.
//! Decoding reads it as UTF-16 and gives the empty path where it is not;
//! encoding writes UTF-16 and always ends in a zero.

use vstd::prelude::*;
use crate::clean::cleaned;
use crate::normalized::{NormalizedPath, PathView, normalized};
use crate::settle::{lemma_cleaning_settles, settles};
use crate::shape::{lemma_cleaned_related, related, respects_grammar, same_class};

verus! {

/// The error of `widestring` for units that are not UTF-16.
#[verifier::external_type_specification]
#[verifier::external_body]
pub struct ExUtf16Error(widestring::error::Utf16Error);

/// The error of `widestring` for a zero inside a string.
#[verifier::external_type_specification]
#[verifier::external_body]
#[verifier::reject_recursive_types(C)]
pub struct ExContainsNul<C>(widestring::error::ContainsNul<C>);

/// `u` is half of a surrogate pair.
pub open spec fn is_surrogate(u: u16) -> bool {
    0xD800 <= u <= 0xDFFF
}

/// `u` is the first half of a surrogate pair.
pub open spec fn is_high_surrogate(u: u16) -> bool {
    0xD800 <= u <= 0xDBFF
}

/// `u` is the second half of a surrogate pair.
pub open spec fn is_low_surrogate(u: u16) -> bool {
    0xDC00 <= u <= 0xDFFF
}

/// The code point that a surrogate pair stands for.
pub open spec fn pair_value(high: u16, low: u16) -> int {
    0x10000 + (high - 0xD800) * 0x400 + (low - 0xDC00)
}

/// The text that `units` encode in UTF-16; `None` where a surrogate stands
/// without its partner.
pub open spec fn decode_utf16(units: Seq<u16>) -> Option<Seq<char>>
    decreases units.len(),
{
    if units.len() == 0 {
        Some(Seq::empty())
    } else if !is_surrogate(units[0]) {
        match decode_utf16(units.skip(1)) {
            Some(rest) => Some(seq![units[0] as char] + rest),
            None => None,
        }
    } else if is_high_surrogate(units[0]) && units.len() >= 2 && is_low_surrogate(units[1]) {
        match decode_utf16(units.skip(2)) {
            Some(rest) => Some(seq![pair_value(units[0], units[1]) as char] + rest),
            None => None,
        }
    } else {
        None
    }
}

/// The one or two units that encode `c`.
pub open spec fn encode_char(c: char) -> Seq<u16> {
    let v = c as u32;
    if v < 0x10000 {
        seq![v as u16]
    } else {
        seq![(0xD800 + (v - 0x10000) / 0x400) as u16, (0xDC00 + (v - 0x10000) % 0x400) as u16]
    }
}

/// The UTF-16 encoding of `s`.
pub open spec fn encode_utf16(s: Seq<char>) -> Seq<u16>
    decreases s.len(),
{
    if s.len() == 0 {
        Seq::empty()
    } else {
        encode_char(s[0]) + encode_utf16(s.skip(1))
    }
}

/// How many units stand before the first zero of `w`.
pub open spec fn nul_len(w: Seq<u16>) -> int
    decreases w.len(),
{
    if w.len() == 0 || w[0] == 0 {
        0
    } else {
        1 + nul_len(w.skip(1))
    }
}

/// The units of `w` before its first zero.
pub open spec fn until_nul(w: Seq<u16>) -> Seq<u16> {
    w.take(nul_len(w))
}

/// A zero stands in `units` before the last place.
pub open spec fn has_interior_nul(units: Seq<u16>) -> bool {
    exists|i: int| 0 <= i < units.len() - 1 && #[trigger] units[i] == 0
}

/// `units` with a closing zero, unless they end in one.
pub open spec fn terminated(units: Seq<u16>) -> Seq<u16> {
    if units.len() > 0 && units.last() == 0 {
        units
    } else {
        units.push(0)
    }
}

/// The text of the wide string in `w`; empty where it is not UTF-16.
pub open spec fn wide_text(w: Seq<u16>) -> Seq<char> {
    match decode_utf16(until_nul(w)) {
        Some(s) => s,
        None => Seq::empty(),
    }
}

/// The wide string for `s`: its UTF-16 encoding closed by a zero, or the
/// empty wide string where `s` holds a zero before its end.
pub open spec fn wide_form(s: Seq<char>) -> Seq<u16> {
    if has_interior_nul(encode_utf16(s)) {
        seq![0u16]
    } else {
        terminated(encode_utf16(s))
    }
}

/// Calls `widestring::U16Str::to_string`, which decodes unit by unit: a
/// unit outside the surrogate range is a character, a high surrogate and
/// the low one after it make one character, and any other surrogate is an
/// error.
#[verifier::external_body]
pub(crate) fn decode_units(units: &Vec<u16>) -> (r: Result<String, widestring::error::Utf16Error>)
    ensures
        match r {
            Ok(s) => decode_utf16(units@) == Some(s@),
            Err(_) => decode_utf16(units@) is None,
        },
{
    widestring::U16Str::from_slice(units.as_slice()).to_string()
}

/// Calls `widestring::U16CString::from_str`, which encodes `s` as UTF-16,
/// refuses a zero anywhere but in the last place, and closes the units
/// with a zero unless they end in one.
#[verifier::external_body]
fn encode_terminated(s: &str) -> (r: Result<Vec<u16>, widestring::error::ContainsNul<u16>>)
    ensures
        match r {
            Ok(v) => !has_interior_nul(encode_utf16(s@)) && v@ == terminated(encode_utf16(s@)),
            Err(_) => has_interior_nul(encode_utf16(s@)),
        },
{
    match widestring::U16CString::from_str(s) {
        Ok(w) => Ok(w.into_vec_with_nul()),
        Err(e) => Err(e),
    }
}

proof fn lemma_nul_len_is(w: Seq<u16>, n: int)
    requires
        0 <= n <= w.len(),
        forall|j: int| 0 <= j < n ==> #[trigger] w[j] != 0,
        n == w.len() || w[n] == 0,
    ensures
        nul_len(w) == n,
    decreases n,
{
    if n > 0 {
        let t = w.skip(1);
        assert forall|j: int| 0 <= j < n - 1 implies #[trigger] t[j] != 0 by {
            assert(t[j] == w[j + 1]);
        }
        lemma_nul_len_is(t, n - 1);
    }
}

/// The units of `wide` from `from` up to the first zero after it.
pub(crate) fn units_until_nul(wide: &Vec<u16>, from: usize) -> (units: Vec<u16>)
    requires
        from <= wide.len(),
    ensures
        units@ == until_nul(wide@.skip(from as int)),
{
    let mut units: Vec<u16> = Vec::new();
    let mut i: usize = from;
    let ghost rest = wide@.skip(from as int);
    assert(rest.take(0) == Seq::<u16>::empty());
    while i < wide.len() && wide[i] != 0
        invariant
            from <= i <= wide.len(),
            rest == wide@.skip(from as int),
            units@ == rest.take(i - from),
            forall|j: int| 0 <= j < i - from ==> #[trigger] rest[j] != 0,
        decreases wide.len() - i,
    {
        units.push(wide[i]);
        proof {
            assert(rest[i - from] == wide@[i as int]);
            assert(rest.take(i - from).push(wide@[i as int]) == rest.take(i - from + 1));
        }
        i += 1;
    }
    proof {
        if i < wide.len() {
            assert(rest[i - from] == wide@[i as int]);
        }
        lemma_nul_len_is(rest, i - from);
    }
    units
}

/// Decodes the wide string in `wide` to a path in normal form.
///
/// `wide` is read up to its first zero, or to its end where it holds
/// none. Units that are not UTF-16 give the empty path, which is `.` in
/// normal form.
pub fn pcwstr_to_path(wide: &Vec<u16>) -> (r: NormalizedPath)
    ensures
        r@ == normalized(wide_text(wide@)),
        r@.wf(),
{
    let units = units_until_nul(wide, 0);
    assert(wide@.skip(0) == wide@);
    match decode_units(&units) {
        Ok(text) => NormalizedPath::new(text.as_str()),
        Err(_) => {
            let empty = String::new();
            NormalizedPath::new(empty.as_str())
        },
    }
}

/// Encodes `path` as a wide string. The result always ends in a zero and
/// holds no other; a path with a zero inside gives the empty wide string.
pub fn path_to_widestring(path: &str) -> (r: Vec<u16>)
    ensures
        r@ == wide_form(path@),
        r@.len() > 0,
        r@.last() == 0,
        !has_interior_nul(r@),
{
    match encode_terminated(path) {
        Ok(units) => {
            proof {
                let e = encode_utf16(path@);
                if has_interior_nul(units@) {
                    let i = choose|i: int| 0 <= i < units@.len() - 1 && #[trigger] units@[i] == 0;
                    if units@ == e {
                        assert(e[i] == 0);
                    } else {
                        if i < e.len() - 1 {
                            assert(e[i] == 0);
                        } else {
                            assert(e.last() == units@[i]);
                        }
                    }
                }
            }
            units
        },
        Err(_) => {
            let mut units: Vec<u16> = Vec::new();
            units.push(0);
            assert(units@ == seq![0u16]);
            units
        },
    }
}

/// A character is a code point up to `0x10FFFF` that is no surrogate.
proof fn lemma_scalar(c: char)
    ensures
        (c as u32) <= 0x10FFFF,
        !(0xD800 <= (c as u32) <= 0xDFFF),
        (c as u32) == 0 <==> c == '\0',
        ((c as u32) as int) as char == c,
        (c as u32) < 0x10000 ==> ((c as u32) as u16) as char == c,
{
}

/// Decoding what was encoded gives the text back.
pub proof fn lemma_decode_encode(s: Seq<char>)
    ensures
        decode_utf16(encode_utf16(s)) == Some(s),
    decreases s.len(),
{
    if s.len() > 0 {
        let c = s[0];
        let v = c as u32;
        let rest = s.skip(1);
        let units = encode_utf16(s);
        lemma_decode_encode(rest);
        lemma_scalar(c);
        if v < 0x10000 {
            assert(units.skip(1) == encode_utf16(rest));
            assert(units[0] == v as u16);
            assert(units[0] as char == c);
            assert(seq![c] + rest == s);
        } else {
            let high = (0xD800 + (v - 0x10000) / 0x400) as u16;
            let low = (0xDC00 + (v - 0x10000) % 0x400) as u16;
            assert(units[0] == high && units[1] == low);
            assert(units.skip(2) == encode_utf16(rest));
            assert(pair_value(high, low) == v);
            assert(pair_value(high, low) as char == c);
            assert(seq![c] + rest == s);
        }
    }
}

/// The encoding of a text holds a zero only where the text holds the
/// character zero.
pub proof fn lemma_encode_has_no_nul(s: Seq<char>)
    requires
        forall|i: int| 0 <= i < s.len() ==> #[trigger] s[i] != '\0',
    ensures
        forall|j: int| 0 <= j < encode_utf16(s).len() ==> #[trigger] encode_utf16(s)[j] != 0,
    decreases s.len(),
{
    if s.len() > 0 {
        let rest = s.skip(1);
        assert forall|i: int| 0 <= i < rest.len() implies #[trigger] rest[i] != '\0' by {
            assert(rest[i] == s[i + 1]);
        }
        lemma_encode_has_no_nul(rest);
        let head = encode_char(s[0]);
        let tail = encode_utf16(rest);
        assert(s[0] != '\0');
        lemma_scalar(s[0]);
        assert forall|j: int| 0 <= j < encode_utf16(s).len() implies #[trigger] encode_utf16(
            s,
        )[j] != 0 by {
            if j >= head.len() {
                assert(encode_utf16(s)[j] == tail[j - head.len()]);
            }
        }
    }
}

/// A text without the character zero comes back from its wide form.
pub proof fn lemma_wide_text_of_wide_form(s: Seq<char>)
    requires
        forall|i: int| 0 <= i < s.len() ==> #[trigger] s[i] != '\0',
    ensures
        wide_text(wide_form(s)) == s,
{
    let e = encode_utf16(s);
    lemma_encode_has_no_nul(s);
    lemma_decode_encode(s);
    assert(!has_interior_nul(e));
    let w = e.push(0);
    assert(wide_form(s) == w);
    assert forall|j: int| 0 <= j < e.len() implies #[trigger] w[j] != 0 by {
        assert(w[j] == e[j]);
    }
    lemma_nul_len_is(w, e.len() as int);
    assert(w.take(e.len() as int) == e);
}

/// A wide string that is empty, or starts with its closing zero, holds the
/// empty text.
pub proof fn lemma_empty_wide_string(w: Seq<u16>)
    requires
        w.len() == 0 || w[0] == 0,
    ensures
        wide_text(w) == Seq::<char>::empty(),
{
    assert(nul_len(w) == 0);
    assert(until_nul(w) == Seq::<u16>::empty());
}

/// The relation of being the same character, and not the character zero.
pub open spec fn by_being_nonzero() -> spec_fn(char, char) -> bool {
    |a: char, b: char| a == b && a != '\0'
}

/// A path without the character zero has none after cleaning.
pub proof fn lemma_cleaning_adds_no_nul(p: Seq<char>)
    requires
        forall|i: int| 0 <= i < p.len() ==> #[trigger] p[i] != '\0',
    ensures
        forall|i: int| 0 <= i < cleaned(p).len() ==> #[trigger] cleaned(p)[i] != '\0',
{
    let r = by_being_nonzero();
    assert(respects_grammar(r)) by {
        assert(r('\\', '\\'));
        assert(r('.', '.'));
        assert forall|a: char, b: char| #[trigger] r(a, b) implies same_class(a, b) by {}
    }
    assert(related(r, p, p)) by {
        assert forall|i: int| 0 <= i < p.len() implies #[trigger] r(p[i], p[i]) by {
            assert(p[i] != '\0');
        }
    }
    lemma_cleaned_related(r, p, p);
    let x = cleaned(p);
    assert forall|i: int| 0 <= i < x.len() implies #[trigger] x[i] != '\0' by {
        assert(r(x[i], x[i]));
    }
}

/// Encoding a path and decoding it again gives the same path.
///
/// This needs the text to hold no character zero, at which a wide string
/// ends, and to be settled: cleaning it again changes nothing. A text
/// that is not settled is `c:.`, which the path `.\c:.` is cleaned to and
/// which is itself cleaned to `c:`.
pub proof fn lemma_encode_then_decode(path: PathView)
    requires
        path.wf(),
        cleaned(path.original) == path.original,
        forall|i: int| 0 <= i < path.original.len() ==> #[trigger] path.original[i] != '\0',
    ensures
        normalized(wide_text(wide_form(path.original))) == path,
{
    lemma_wide_text_of_wide_form(path.original);
}

/// The normal form of a path that settles and holds no character zero
/// comes back from its wide string: encoding the cleaned text and decoding
/// the result gives the same normal form, and so the same compared form.
pub proof fn lemma_wide_round_trip(p: Seq<char>)
    requires
        settles(p),
        forall|i: int| 0 <= i < p.len() ==> #[trigger] p[i] != '\0',
    ensures
        normalized(wide_text(wide_form(normalized(p).original))) == normalized(p),
{
    lemma_cleaning_settles(p);
    lemma_cleaning_adds_no_nul(p);
    lemma_wide_text_of_wide_form(cleaned(p));
}

} // verus!
