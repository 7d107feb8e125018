//! Resolving one path against another.

use vstd::prelude::*;
use crate::grammar::{is_drive, prefix_len, prefix_end};
use crate::text::{is_separator, separator, ascii_letter, chars_of};

verus! {

/// `path` resolved against `base`.
///
/// A `path` with a prefix replaces `base`. One that starts with a separator
/// keeps only the prefix of `base`. Any other is appended, after a `\`
/// unless `base` is empty, ends in a separator or is a bare drive.
pub open spec fn joined(base: Seq<char>, path: Seq<char>) -> Seq<char> {
    if prefix_len(path) > 0 {
        path
    } else if path.len() > 0 && is_separator(path[0]) {
        base.take(prefix_len(base)) + path
    } else if base.len() > 0 && !is_separator(base.last()) && !(is_drive(base) && base.len()
        == 2) {
        base + seq!['\\'] + path
    } else {
        base + path
    }
}

/// Appends `chars[from..]` to `out`.
fn push_from(out: &mut String, chars: &Vec<char>, from: usize)
    requires
        from <= chars.len(),
    ensures
        final(out)@ == old(out)@ + chars@.skip(from as int),
{
    let mut i: usize = from;
    assert(chars@.subrange(from as int, from as int) == Seq::<char>::empty());
    while i < chars.len()
        invariant
            from <= i <= chars.len(),
            out@ == old(out)@ + chars@.subrange(from as int, i as int),
        decreases chars.len() - i,
    {
        out.push(chars[i]);
        proof {
            assert(chars@.subrange(from as int, i as int).push(chars@[i as int])
                == chars@.subrange(from as int, i + 1));
        }
        i += 1;
    }
    assert(chars@.subrange(from as int, chars.len() as int) == chars@.skip(from as int));
}

/// Appends `chars[..to]` to `out`.
fn push_up_to(out: &mut String, chars: &Vec<char>, to: usize)
    requires
        to <= chars.len(),
    ensures
        final(out)@ == old(out)@ + chars@.take(to as int),
{
    let mut i: usize = 0;
    assert(chars@.take(0) == Seq::<char>::empty());
    while i < to
        invariant
            i <= to <= chars.len(),
            out@ == old(out)@ + chars@.take(i as int),
        decreases to - i,
    {
        out.push(chars[i]);
        proof {
            assert(chars@.take(i as int).push(chars@[i as int]) == chars@.take(i + 1));
        }
        i += 1;
    }
}

/// `path` resolved against `base`, as Windows does it.
pub fn join_paths(base: &str, path: &str) -> (r: String)
    ensures
        r@ == joined(base@, path@),
{
    let b = chars_of(base);
    let p = chars_of(path);
    let mut out = String::new();
    if prefix_end(&p) > 0 {
        push_from(&mut out, &p, 0);
        assert(p@.skip(0) == p@);
    } else if p.len() > 0 && separator(p[0]) {
        let keep = prefix_end(&b);
        push_up_to(&mut out, &b, keep);
        push_from(&mut out, &p, 0);
        assert(p@.skip(0) == p@);
    } else {
        push_from(&mut out, &b, 0);
        assert(b@.skip(0) == b@);
        let bare_drive = b.len() == 2 && ascii_letter(b[0]) && b[1] == ':';
        if b.len() > 0 && !separator(b[b.len() - 1]) && !bare_drive {
            out.push('\\');
        }
        push_from(&mut out, &p, 0);
        assert(p@.skip(0) == p@);
    }
    out
}

} // verus!
