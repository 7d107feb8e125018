//! Rewriting the object name of an NT create-file call.
//!
//! The name is a counted wide string. Its first four units are a namespace
//! token such as `\??\` and are carried over as they are; what follows, up
//! to the first zero, is the path.

use vstd::prelude::*;
use crate::normalized::{NormalizedPath, normalized};
use crate::registry::{MappingView, PathRegistry, first_match};
use crate::text::{lowercase, to_lowercase, chars_of};
use crate::wide::{decode_units, decode_utf16, path_to_widestring, units_until_nul, until_nul, wide_form};

verus! {

/// How many units of an object name are its namespace token.
pub const NAMESPACE_UNITS: usize = 4;

/// `\\device`, which opens the names of the NT device namespace.
pub open spec fn device_prefix() -> Seq<char> {
    seq!['\\', '\\', 'd', 'e', 'v', 'i', 'c', 'e']
}

/// `c:\windows`, the system directory.
pub open spec fn windows_prefix() -> Seq<char> {
    seq!['c', ':', '\\', 'w', 'i', 'n', 'd', 'o', 'w', 's']
}

/// `text` begins, in whatever case, with the device namespace or the
/// system directory. Such a path is never remapped.
pub open spec fn is_system_path(text: Seq<char>) -> bool {
    device_prefix().is_prefix_of(lowercase(text)) || windows_prefix().is_prefix_of(
        lowercase(text),
    )
}

/// The path inside the object name `name`; `None` where the name is
/// shorter than its token or the path is not UTF-16.
pub open spec fn name_text(name: Seq<u16>) -> Option<Seq<char>> {
    if name.len() < NAMESPACE_UNITS {
        None
    } else {
        decode_utf16(until_nul(name.skip(NAMESPACE_UNITS as int)))
    }
}

/// The path that the object name `name` is sent to by `registry`, where
/// it is sent anywhere else than it asks.
pub open spec fn name_target(registry: Seq<MappingView>, name: Seq<u16>) -> Option<Seq<char>> {
    match name_text(name) {
        Some(text) => if is_system_path(text) {
            None
        } else {
            let path = normalized(text);
            match first_match(registry, path) {
                Some(target) => if target == path.original {
                    None
                } else {
                    Some(target)
                },
                None => None,
            }
        },
        None => None,
    }
}

/// The units of the rewritten name: the token of `name`, the target path
/// and a closing zero. `None` where the name is left alone, which includes
/// a target too long for a counted string.
pub open spec fn rewritten_units(registry: Seq<MappingView>, name: Seq<u16>) -> Option<
    Seq<u16>,
> {
    match name_target(registry, name) {
        Some(target) => {
            let buffer = name.take(NAMESPACE_UNITS as int) + wide_form(target);
            if 2 * buffer.len() <= u16::MAX {
                Some(buffer)
            } else {
                None
            }
        },
        None => None,
    }
}

/// How many units a counted string of `length` bytes holds. A unit is two
/// bytes; an odd byte at the end is no unit.
pub fn counted_units(length: u16) -> (r: usize)
    ensures
        r == length / 2,
{
    (length / 2) as usize
}

/// A counted wide string that replaces the object name of a call.
#[derive(Debug, PartialEq, Eq)]
pub struct NtName {
    /// The units of the name, closed by a zero that `length` leaves out.
    pub buffer: Vec<u16>,
    /// The size of the name in bytes, without the closing zero.
    pub length: u16,
    /// The size of the buffer in bytes.
    pub maximum_length: u16,
}

/// Whether the characters `lit` open `text`.
fn opens_with(text: &Vec<char>, lit: &Vec<char>) -> (r: bool)
    ensures
        r == lit@.is_prefix_of(text@),
{
    if lit.len() > text.len() {
        return false;
    }
    let mut i: usize = 0;
    while i < lit.len()
        invariant
            i <= lit.len() <= text.len(),
            forall|j: int| 0 <= j < i ==> lit@[j] == text@[j],
        decreases lit.len() - i,
    {
        if lit[i] != text[i] {
            assert(lit@[i as int] != text@.subrange(0, lit@.len() as int)[i as int]);
            return false;
        }
        i += 1;
    }
    assert(lit@ == text@.subrange(0, lit@.len() as int));
    true
}

/// Whether `text` names something in the device namespace or the system
/// directory.
pub fn system_path(text: &str) -> (r: bool)
    ensures
        r == is_system_path(text@),
{
    let lowered = to_lowercase(text);
    let chars = chars_of(lowered.as_str());
    let device: Vec<char> = vec!['\\', '\\', 'd', 'e', 'v', 'i', 'c', 'e'];
    let windows: Vec<char> = vec!['c', ':', '\\', 'w', 'i', 'n', 'd', 'o', 'w', 's'];
    assert(device@ == device_prefix());
    assert(windows@ == windows_prefix());
    opens_with(&chars, &device) || opens_with(&chars, &windows)
}

/// Decides what an NT create-file call is given for the object name
/// `name`: `None` to leave the name alone, or the name that replaces it.
///
/// A name is left alone where it is shorter than its token, where its path
/// is not UTF-16, names a system path, lies under no registered source or
/// is remapped onto itself, and where the new name would not fit the
/// 16-bit byte counts of a counted string.
pub fn rewrite_nt_name(registry: &PathRegistry, name: &Vec<u16>) -> (r: Option<NtName>)
    ensures
        match r {
            Some(n) => {
                &&& rewritten_units(registry@, name@) == Some(n.buffer@)
                &&& n.length == 2 * (n.buffer@.len() - 1)
                &&& n.maximum_length == 2 * n.buffer@.len()
                &&& n.buffer@.last() == 0
            },
            None => rewritten_units(registry@, name@) is None,
        },
{
    if name.len() < NAMESPACE_UNITS {
        return None;
    }
    let body = units_until_nul(name, NAMESPACE_UNITS);
    let text = match decode_units(&body) {
        Ok(text) => text,
        Err(_) => {
            return None;
        },
    };
    if system_path(text.as_str()) {
        return None;
    }
    let path = NormalizedPath::new(text.as_str());
    let target = match registry.try_remap(&path) {
        Some(target) => target,
        None => {
            return None;
        },
    };
    let unchanged = target == path.to_path_buf();
    if unchanged {
        return None;
    }
    let wide = path_to_widestring(target.as_str());
    if wide.len() > (u16::MAX as usize) / 2 - NAMESPACE_UNITS {
        return None;
    }
    let mut buffer: Vec<u16> = Vec::new();
    buffer.push(name[0]);
    buffer.push(name[1]);
    buffer.push(name[2]);
    buffer.push(name[3]);
    assert(buffer@ == name@.take(NAMESPACE_UNITS as int));
    let mut i: usize = 0;
    while i < wide.len()
        invariant
            i <= wide.len(),
            buffer@ == name@.take(NAMESPACE_UNITS as int) + wide@.take(i as int),
        decreases wide.len() - i,
    {
        buffer.push(wide[i]);
        proof {
            assert(wide@.take(i as int).push(wide@[i as int]) == wide@.take(i + 1));
        }
        i += 1;
    }
    assert(wide@.take(wide.len() as int) == wide@);
    let units = buffer.len();
    let length: u16 = (2 * (units - 1)) as u16;
    let maximum_length: u16 = (2 * units) as u16;
    Some(NtName { buffer, length, maximum_length })
}

} // verus!
