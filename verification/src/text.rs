//! Characters and strings as the path grammar sees them.

use vstd::prelude::*;

verus! {

/// `String::push` appends one character.
pub assume_specification[ String::push ](s: &mut String, c: char)
    ensures
        final(s)@ == old(s)@.push(c),
;

/// The two characters that end a path component.
pub open spec fn is_separator(c: char) -> bool {
    c == '\\' || c == '/'
}

/// `c` is one of the first 128 characters.
pub open spec fn is_ascii(c: char) -> bool {
    (c as u32) < 0x80
}

/// `c` is one of the letters `a` to `z`, small or capital.
pub open spec fn is_ascii_letter(c: char) -> bool {
    ('a' <= c && c <= 'z') || ('A' <= c && c <= 'Z')
}

/// `c` with an ASCII capital replaced by its small letter.
pub open spec fn ascii_lower(c: char) -> char {
    if 'A' <= c && c <= 'Z' {
        ((c as u32) + 32) as char
    } else {
        c
    }
}

/// What `char::to_lowercase` yields for `c`: the characters of its lowercase
/// mapping in the Unicode tables that std was built with.
pub uninterp spec fn unicode_lowercase(c: char) -> Seq<char>;

/// The lowercase form of one character. ASCII is folded here; everything
/// else is whatever std's Unicode tables say.
pub open spec fn lower_char(c: char) -> Seq<char> {
    if is_ascii(c) {
        seq![ascii_lower(c)]
    } else {
        unicode_lowercase(c)
    }
}

/// The lowercase form of a string: each character lowered on its own, the
/// results laid end to end.
///
/// This is not `str::to_lowercase`, which looks at the neighbours of one
/// character: it writes a capital sigma that ends a word as the final
/// sigma, where this writes the sigma of the middle of a word. Lowering
/// here depends on the character alone, so that two texts which differ in
/// case only are lowered alike wherever they stand.
pub open spec fn lowercase(s: Seq<char>) -> Seq<char>
    decreases s.len(),
{
    if s.len() == 0 {
        Seq::empty()
    } else {
        lowercase(s.drop_last()) + lower_char(s.last())
    }
}

/// Lowering the character keeps it one character and keeps it on its side
/// of ASCII. This is so for every ASCII character. Of the others, the
/// Kelvin sign lowers to the ASCII letter `k`, and the capital I with a
/// dot above lowers to two characters.
pub open spec fn folds_in_place(c: char) -> bool {
    is_ascii(c) || (unicode_lowercase(c).len() == 1 && !is_ascii(unicode_lowercase(c)[0]))
}

/// Every character of `s` folds in place.
pub open spec fn lowers_in_place(s: Seq<char>) -> bool {
    forall|i: int| 0 <= i < s.len() ==> folds_in_place(#[trigger] s[i])
}

/// Lowering the character writes no separator: it is an ASCII character,
/// which is lowered here, or its lowercase mapping holds none.
pub open spec fn lowers_without_separator(c: char) -> bool {
    is_ascii(c) || forall|j: int|
        0 <= j < unicode_lowercase(c).len() ==> !is_separator(#[trigger] unicode_lowercase(c)[j])
}

/// Lowering `s` writes no separator where `s` has none.
pub open spec fn writes_no_separator(s: Seq<char>) -> bool {
    forall|i: int| 0 <= i < s.len() ==> lowers_without_separator(#[trigger] s[i])
}

/// Lowering the character writes something, and no separator.
pub open spec fn lowers_to_text(c: char) -> bool {
    is_ascii(c) || (unicode_lowercase(c).len() > 0 && lowers_without_separator(c))
}

/// Lowering `s` keeps its separators where they are among the other
/// characters: every other character is lowered to something that holds
/// no separator.
pub open spec fn keeps_separators(s: Seq<char>) -> bool {
    forall|i: int| 0 <= i < s.len() ==> lowers_to_text(#[trigger] s[i])
}

/// Whether `c` ends a path component.
pub(crate) fn separator(c: char) -> (r: bool)
    ensures
        r == is_separator(c),
{
    c == '\\' || c == '/'
}

/// Whether `c` is an ASCII letter.
pub(crate) fn ascii_letter(c: char) -> (r: bool)
    ensures
        r == is_ascii_letter(c),
{
    ('a' <= c && c <= 'z') || ('A' <= c && c <= 'Z')
}

/// `c` with an ASCII capital replaced by its small letter.
pub(crate) fn fold_ascii(c: char) -> (r: char)
    ensures
        r == ascii_lower(c),
{
    if 'A' <= c && c <= 'Z' {
        ((c as u8) + 32u8) as char
    } else {
        c
    }
}

/// Calls `char::to_lowercase` and collects what it yields. Nothing is
/// claimed about the mapping beyond its being a function of `c`.
#[verifier::external_body]
fn lowercase_mapping(c: char) -> (r: Vec<char>)
    ensures
        r@ == unicode_lowercase(c),
{
    c.to_lowercase().collect()
}

/// Appends the lowercase form of `c` to `out`.
fn push_lower(out: &mut String, c: char)
    ensures
        final(out)@ == old(out)@ + lower_char(c),
{
    if (c as u32) < 0x80 {
        out.push(fold_ascii(c));
    } else {
        let mapped = lowercase_mapping(c);
        let mut i: usize = 0;
        while i < mapped.len()
            invariant
                i <= mapped.len(),
                out@ == old(out)@ + mapped@.take(i as int),
            decreases mapped.len() - i,
        {
            out.push(mapped[i]);
            i += 1;
        }
        assert(mapped@.take(mapped.len() as int) == mapped@);
    }
}

/// The lowercase form of `s`, character by character. It differs from
/// `str::to_lowercase` only for a capital sigma at the end of a word.
pub fn to_lowercase(s: &str) -> (r: String)
    ensures
        r@ == lowercase(s@),
{
    let mut out = String::new();
    for c in it: s.chars()
        invariant
            it.seq() == s@,
            out@ == lowercase(it.seq().take(it.index())),
    {
        proof {
            assert(s@.take(it.index() + 1).drop_last() == s@.take(it.index()));
        }
        push_lower(&mut out, c);
    }
    assert(s@.take(s@.len() as int) == s@);
    out
}

/// Whether lowering `c` keeps it one character on its side of ASCII.
fn char_folds_in_place(c: char) -> (r: bool)
    ensures
        r == folds_in_place(c),
{
    if (c as u32) < 0x80 {
        true
    } else {
        let mapped = lowercase_mapping(c);
        mapped.len() == 1 && (mapped[0] as u32) >= 0x80
    }
}

/// Whether lowering `c` writes something, and no separator.
fn char_lowers_to_text(c: char) -> (r: bool)
    ensures
        r == lowers_to_text(c),
{
    if (c as u32) < 0x80 {
        return true;
    }
    let mapped = lowercase_mapping(c);
    if mapped.len() == 0 {
        return false;
    }
    let mut j: usize = 0;
    while j < mapped.len()
        invariant
            j <= mapped.len(),
            mapped.len() > 0,
            !is_ascii(c),
            mapped@ == unicode_lowercase(c),
            forall|k: int| 0 <= k < j ==> !is_separator(#[trigger] mapped@[k]),
        decreases mapped.len() - j,
    {
        if separator(mapped[j]) {
            assert(is_separator(unicode_lowercase(c)[j as int]));
            return false;
        }
        j += 1;
    }
    true
}

/// Whether lowering `s` keeps its separators: whether every character of
/// `s` is lowered to something that holds no separator. It is so for
/// every text as far as the Unicode tables are known; this asks the tables
/// that the program was built with.
pub fn text_keeps_separators(s: &str) -> (r: bool)
    ensures
        r == keeps_separators(s@),
        r ==> writes_no_separator(s@),
{
    for c in it: s.chars()
        invariant
            it.seq() == s@,
            forall|i: int| 0 <= i < it.index() ==> lowers_to_text(#[trigger] s@[i]),
    {
        if !char_lowers_to_text(c) {
            return false;
        }
    }
    true
}

/// Whether every character of `s` folds in place, so that lowering `s`
/// keeps its length and the place of every character.
pub fn text_lowers_in_place(s: &str) -> (r: bool)
    ensures
        r == lowers_in_place(s@),
{
    for c in it: s.chars()
        invariant
            it.seq() == s@,
            forall|i: int| 0 <= i < it.index() ==> folds_in_place(#[trigger] s@[i]),
    {
        if !char_folds_in_place(c) {
            return false;
        }
    }
    true
}

/// The characters of `s`, in order.
pub(crate) fn chars_of(s: &str) -> (r: Vec<char>)
    ensures
        r@ == s@,
{
    let mut out: Vec<char> = Vec::new();
    for c in it: s.chars()
        invariant
            it.seq() == s@,
            out@ == it.seq().take(it.index()),
    {
        out.push(c);
    }
    out
}

/// The string made of the characters of `v`, in order.
pub(crate) fn string_of(v: &Vec<char>) -> (r: String)
    ensures
        r@ == v@,
{
    let mut out = String::new();
    let mut i: usize = 0;
    while i < v.len()
        invariant
            i <= v.len(),
            out@ == v@.take(i as int),
        decreases v.len() - i,
    {
        out.push(v[i]);
        i += 1;
    }
    out
}

/// The text of an optional string.
pub open spec fn text_of(s: Option<String>) -> Option<Seq<char>> {
    match s {
        Some(t) => Some(t@),
        None => None,
    }
}

/// The texts of a list of strings.
pub open spec fn texts_of(v: Seq<String>) -> Seq<Seq<char>> {
    Seq::new(v.len(), |i: int| v[i]@)
}

} // verus!
