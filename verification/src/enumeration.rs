//! Directory listings that the shim makes up for a virtual root.
//!
//! A find-first call on the listing pattern of the mods directory is not
//! forwarded. It is answered with a handle of the shim's own and with
//! entries that name the registered sources, one per call, until a call
//! finds none left.

use std::collections::HashMap;
use vstd::prelude::*;
use crate::detour::{Forward, ForwardView, redirect_path, redirected};
use crate::normalized::normalized;
use crate::registry::{MappingView, PathRegistry, source_names};
use crate::text::{chars_of, texts_of};
use crate::wide::{path_to_widestring, pcwstr_to_path, wide_form, wide_text};

verus! {

broadcast use vstd::std_specs::hash::group_hash_axioms;

/// The first handle the shim hands out. Later ones count up from it.
pub const FIRST_HANDLE: u64 = 16;

/// How many units the file name of a find-data record holds.
pub const NAME_CAPACITY: usize = 260;

/// The attribute bit that marks a directory.
pub const DIRECTORY_ATTRIBUTE: u32 = 0x10;

/// The end of a compared path that asks for the listing of the mods
/// directory: `win64\mods\*`.
pub open spec fn listing_pattern() -> Seq<char> {
    seq!['w', 'i', 'n', '6', '4', '\\', 'm', 'o', 'd', 's', '\\', '*']
}

/// The compared form `inner` ends in the listing pattern.
pub open spec fn asks_for_listing(inner: Seq<char>) -> bool {
    listing_pattern().is_suffix_of(inner)
}

/// The file-name field for `name`: its wide form, cut off at the capacity
/// of the field and filled up with zeros.
pub open spec fn name_field(name: Seq<char>) -> Seq<u16> {
    let wide = wide_form(name);
    Seq::new(
        NAME_CAPACITY as nat,
        |i: int|
            if i < wide.len() {
                wide[i]
            } else {
                0u16
            },
    )
}

/// One made-up directory entry.
#[derive(Debug, PartialEq, Eq)]
pub struct FindData {
    pub attributes: u32,
    pub creation_time: u64,
    pub last_access_time: u64,
    pub last_write_time: u64,
    pub file_size: u64,
    /// `NAME_CAPACITY` units: the name, then zeros.
    pub file_name: Vec<u16>,
}

impl FindData {
    /// The record is the directory entry for `name`: marked as a
    /// directory, with zero times and size.
    pub open spec fn is_entry_for(&self, name: Seq<char>) -> bool {
        &&& self.attributes == DIRECTORY_ATTRIBUTE
        &&& self.creation_time == 0
        &&& self.last_access_time == 0
        &&& self.last_write_time == 0
        &&& self.file_size == 0
        &&& self.file_name@ == name_field(name)
    }
}

/// The directory entry for `name`.
pub fn entry_for(name: &str) -> (r: FindData)
    ensures
        r.is_entry_for(name@),
{
    let wide = path_to_widestring(name);
    let mut file_name: Vec<u16> = Vec::new();
    let mut i: usize = 0;
    while i < NAME_CAPACITY
        invariant
            i <= NAME_CAPACITY,
            file_name@.len() == i,
            forall|j: int| 0 <= j < i ==> file_name@[j] == name_field(name@)[j],
            wide@ == wide_form(name@),
        decreases NAME_CAPACITY - i,
    {
        let unit: u16 = if i < wide.len() { wide[i] } else { 0 };
        file_name.push(unit);
        i += 1;
    }
    assert(file_name@ == name_field(name@));
    FindData {
        attributes: DIRECTORY_ATTRIBUTE,
        creation_time: 0,
        last_access_time: 0,
        last_write_time: 0,
        file_size: 0,
        file_name,
    }
}

/// The listings that are open: for each handle of the shim's own, how
/// many entries it has given out.
pub struct EnumerationTable {
    next: u64,
    cursors: HashMap<u64, usize>,
}

impl View for EnumerationTable {
    type V = Map<u64, usize>;

    closed spec fn view(&self) -> Map<u64, usize> {
        self.cursors@
    }
}

impl EnumerationTable {
    /// The handle that the next listing gets.
    pub closed spec fn next_handle(&self) -> u64 {
        self.next
    }

    /// Every open handle was handed out by this table: it lies between the
    /// first handle and the next one.
    pub closed spec fn wf(&self) -> bool {
        &&& self.next >= FIRST_HANDLE
        &&& forall|h: u64| #[trigger] self.cursors@.contains_key(h) ==> FIRST_HANDLE <= h < self.next
    }

    /// A table without listings.
    pub fn new() -> (r: Self)
        ensures
            r@ == Map::<u64, usize>::empty(),
            r.next_handle() == FIRST_HANDLE,
            r.wf(),
    {
        EnumerationTable { next: FIRST_HANDLE, cursors: HashMap::new() }
    }

    /// Whether `handle` is one of the shim's own and still open.
    pub fn is_synthetic(&self, handle: u64) -> (r: bool)
        ensures
            r == self@.contains_key(handle),
    {
        self.cursors.contains_key(&handle)
    }

    /// How many entries `handle` has given out; `None` for a handle that
    /// is not the shim's.
    pub fn cursor(&self, handle: u64) -> (r: Option<usize>)
        ensures
            r == if self@.contains_key(handle) {
                Some(self@[handle])
            } else {
                None
            },
    {
        match self.cursors.get(&handle) {
            Some(c) => Some(*c),
            None => None,
        }
    }

    /// Opens a listing whose first `given` entries count as given out and
    /// returns its handle, which no open listing has. `None` once the
    /// handles have run out.
    pub fn open(&mut self, given: usize) -> (r: Option<u64>)
        requires
            old(self).wf(),
        ensures
            final(self).wf(),
            match r {
                Some(handle) => {
                    &&& handle == old(self).next_handle()
                    &&& !old(self)@.contains_key(handle)
                    &&& final(self)@ == old(self)@.insert(handle, given)
                    &&& final(self).next_handle() == handle + 1
                },
                None => {
                    &&& old(self).next_handle() == u64::MAX
                    &&& final(self)@ == old(self)@
                    &&& final(self).next_handle() == old(self).next_handle()
                },
            },
    {
        if self.next == u64::MAX {
            return None;
        }
        let handle = self.next;
        self.next = handle + 1;
        self.cursors.insert(handle, given);
        Some(handle)
    }

    /// Counts one more entry of `handle` as given out. A handle that is
    /// not the shim's leaves the table as it is.
    pub(crate) fn advance(&mut self, handle: u64)
        requires
            old(self).wf(),
            old(self)@.contains_key(handle) ==> old(self)@[handle] < usize::MAX,
        ensures
            final(self).wf(),
            final(self).next_handle() == old(self).next_handle(),
            final(self)@ == if old(self)@.contains_key(handle) {
                old(self)@.insert(handle, (old(self)@[handle] + 1) as usize)
            } else {
                old(self)@
            },
    {
        let current = match self.cursors.get(&handle) {
            Some(c) => Some(*c),
            None => None,
        };
        match current {
            Some(c) => {
                self.cursors.insert(handle, c + 1);
            },
            None => {},
        }
    }

    /// Closes the listing of `handle`. Returns whether the handle was the
    /// shim's; one that was not leaves the table as it is.
    pub fn close(&mut self, handle: u64) -> (r: bool)
        requires
            old(self).wf(),
        ensures
            final(self).wf(),
            r == old(self)@.contains_key(handle),
            final(self)@ == old(self)@.remove(handle),
            final(self).next_handle() == old(self).next_handle(),
    {
        let removed = self.cursors.remove(&handle);
        removed.is_some()
    }
}

/// What a find-first detour does.
#[derive(Debug, PartialEq, Eq)]
pub enum FindFirst {
    /// Answer the call: hand back `handle` and fill in `entry`.
    Synthetic { handle: u64, entry: FindData },
    /// Pass the call on.
    Forward(Forward),
}

/// What a find-next detour does.
#[derive(Debug, PartialEq, Eq)]
pub enum FindNext {
    /// The handle is not the shim's: pass the call on.
    NotSynthetic,
    /// Answer the call with this entry.
    Entry(FindData),
    /// Fail the call: the listing has no more files.
    NoMoreFiles,
}

/// Whether the pattern `lit` closes `text`.
fn closes_with(text: &Vec<char>, lit: &Vec<char>) -> (r: bool)
    ensures
        r == lit@.is_suffix_of(text@),
{
    if lit.len() > text.len() {
        return false;
    }
    let offset = text.len() - lit.len();
    let mut i: usize = 0;
    while i < lit.len()
        invariant
            i <= lit.len() <= text.len(),
            offset == text.len() - lit.len(),
            forall|j: int| 0 <= j < i ==> lit@[j] == text@[offset + j],
        decreases lit.len() - i,
    {
        if lit[i] != text[offset + i] {
            assert(lit@[i as int] != text@.subrange(offset as int, text@.len() as int)[i as int]);
            return false;
        }
        i += 1;
    }
    assert(lit@ == text@.subrange(offset as int, text@.len() as int));
    true
}

/// Whether the compared form `inner` asks for the listing of the mods
/// directory.
pub fn is_listing_request(inner: &str) -> (r: bool)
    ensures
        r == asks_for_listing(inner@),
{
    let chars = chars_of(inner);
    let pattern: Vec<char> = vec!['w', 'i', 'n', '6', '4', '\\', 'm', 'o', 'd', 's', '\\', '*'];
    assert(pattern@ == listing_pattern());
    closes_with(&chars, &pattern)
}

/// A find-first call on `raw` is answered by the shim: it asks for the
/// listing, there is a source to name and a handle to give.
pub open spec fn answers_listing(
    registry: Seq<MappingView>,
    next_handle: u64,
    raw: Seq<u16>,
) -> bool {
    &&& asks_for_listing(normalized(wide_text(raw)).inner)
    &&& source_names(registry).len() > 0
    &&& next_handle < u64::MAX
}

/// Decides what a find-first detour does for the wide string `raw`.
///
/// A request for the listing of the mods directory opens a listing in
/// `table` and is answered with the first source name. Any other call is
/// passed on as `redirect` says, and so is a request that finds no source
/// to name or no handle left: handles count up and are not used again, so
/// the last 64-bit number ends them.
pub fn find_first(table: &mut EnumerationTable, registry: &PathRegistry, raw: &Vec<u16>) -> (r:
    FindFirst)
    requires
        old(table).wf(),
    ensures
        final(table).wf(),
        answers_listing(registry@, old(table).next_handle(), raw@) ==> {
            &&& r matches FindFirst::Synthetic { handle, entry }
            &&& handle == old(table).next_handle()
            &&& !old(table)@.contains_key(handle)
            &&& entry.is_entry_for(source_names(registry@)[0])
            &&& final(table)@ == old(table)@.insert(handle, 1)
            &&& final(table).next_handle() == handle + 1
        },
        !answers_listing(registry@, old(table).next_handle(), raw@) ==> {
            &&& r matches FindFirst::Forward(forward)
            &&& forward@ == match redirected(registry@, raw@) {
                Some(target) => ForwardView::Rewritten(wide_form(target)),
                None => ForwardView::Unchanged,
            }
            &&& final(table)@ == old(table)@
            &&& final(table).next_handle() == old(table).next_handle()
        },
{
    let path = pcwstr_to_path(raw);
    if is_listing_request(path.inner()) {
        let names = registry.source_names();
        assert(texts_of(names@).len() == names@.len());
        if names.len() > 0 {
            assert(texts_of(names@)[0] == names@[0]@);
            match table.open(1) {
                Some(handle) => {
                    let entry = entry_for(names[0].as_str());
                    return FindFirst::Synthetic { handle, entry };
                },
                None => {},
            }
        }
    }
    FindFirst::Forward(redirect_path(registry, &path))
}

/// What a find-next call gives, as specifications see it.
pub enum Answer {
    /// The handle is not the shim's.
    NotSynthetic,
    /// The entry for this name.
    Entry(Seq<char>),
    /// No more files.
    NoMoreFiles,
}

/// One find-next call on `handle`: the listings after it and what it
/// gives, for the listings `cursors` and the source names `names`.
pub open spec fn next_of(cursors: Map<u64, usize>, names: Seq<Seq<char>>, handle: u64) -> (
    Map<u64, usize>,
    Answer,
) {
    if !cursors.contains_key(handle) {
        (cursors, Answer::NotSynthetic)
    } else if cursors[handle] < names.len() {
        (
            cursors.insert(handle, (cursors[handle] + 1) as usize),
            Answer::Entry(names[cursors[handle] as int]),
        )
    } else {
        (cursors, Answer::NoMoreFiles)
    }
}

/// `calls` find-next calls on `handle`, one after another: the listings
/// after them and what each gave.
pub open spec fn listing(
    cursors: Map<u64, usize>,
    names: Seq<Seq<char>>,
    handle: u64,
    calls: nat,
) -> (Map<u64, usize>, Seq<Answer>)
    decreases calls,
{
    if calls == 0 {
        (cursors, Seq::empty())
    } else {
        let before = listing(cursors, names, handle, (calls - 1) as nat);
        let step = next_of(before.0, names, handle);
        (step.0, before.1.push(step.1))
    }
}

impl FindNext {
    /// The decision is the one that `answer` stands for.
    pub open spec fn gives(self, answer: Answer) -> bool {
        match (self, answer) {
            (FindNext::NotSynthetic, Answer::NotSynthetic) => true,
            (FindNext::Entry(entry), Answer::Entry(name)) => entry.is_entry_for(name),
            (FindNext::NoMoreFiles, Answer::NoMoreFiles) => true,
            _ => false,
        }
    }
}

/// A listing gives each name once, in order, and then no more files for
/// good: of the calls on a handle that has given out `given` entries, the
/// one in place `j` gives the name in place `given + j` as long as there
/// is one, and every later call fails. No other listing is touched.
pub proof fn lemma_listing_runs_through(
    cursors: Map<u64, usize>,
    names: Seq<Seq<char>>,
    handle: u64,
    calls: nat,
)
    requires
        cursors.contains_key(handle),
        names.len() <= usize::MAX,
    ensures
        listing(cursors, names, handle, calls).1.len() == calls,
        forall|j: int|
            0 <= j < calls ==> #[trigger] listing(cursors, names, handle, calls).1[j] == (if cursors[handle]
                + j < names.len() {
                Answer::Entry(names[cursors[handle] + j])
            } else {
                Answer::NoMoreFiles
            }),
        listing(cursors, names, handle, calls).0 == (if cursors[handle] + calls <= names.len() {
            cursors.insert(handle, (cursors[handle] + calls) as usize)
        } else if cursors[handle] <= names.len() {
            cursors.insert(handle, names.len() as usize)
        } else {
            cursors
        }),
    decreases calls,
{
    if calls > 0 {
        let fewer = (calls - 1) as nat;
        lemma_listing_runs_through(cursors, names, handle, fewer);
        let before = listing(cursors, names, handle, fewer);
        let step = next_of(before.0, names, handle);
        let all = listing(cursors, names, handle, calls);
        assert(all.1 == before.1.push(step.1));
        assert(before.0.contains_key(handle));
        assert forall|j: int| 0 <= j < calls implies #[trigger] all.1[j] == (if cursors[handle] + j
            < names.len() {
            Answer::Entry(names[cursors[handle] + j])
        } else {
            Answer::NoMoreFiles
        }) by {
            if j < fewer {
                assert(all.1[j] == before.1[j]);
            }
        }
        if cursors[handle] + calls <= names.len() {
            assert(step.0 == cursors.insert(handle, (cursors[handle] + calls) as usize));
        } else if cursors[handle] <= names.len() {
            assert(step.0 == cursors.insert(handle, names.len() as usize));
        }
    } else {
        assert(cursors.insert(handle, cursors[handle]) == cursors);
    }
}

/// Decides what a find-next detour does for `handle`.
///
/// A handle that is not the shim's is passed on. One of the shim's gets
/// the next source name, or fails with no more files once every name has
/// been given out; the failed call leaves the listing where it is.
pub fn find_next(table: &mut EnumerationTable, registry: &PathRegistry, handle: u64) -> (r:
    FindNext)
    requires
        old(table).wf(),
    ensures
        final(table).wf(),
        final(table).next_handle() == old(table).next_handle(),
        final(table)@ == next_of(old(table)@, source_names(registry@), handle).0,
        r.gives(next_of(old(table)@, source_names(registry@), handle).1),
{
    match table.cursor(handle) {
        None => FindNext::NotSynthetic,
        Some(at) => {
            let names = registry.source_names();
            assert(texts_of(names@).len() == names@.len());
            if at < names.len() {
                assert(texts_of(names@)[at as int] == names@[at as int]@);
                table.advance(handle);
                FindNext::Entry(entry_for(names[at].as_str()))
            } else {
                FindNext::NoMoreFiles
            }
        },
    }
}

/// Decides what a find-close detour does for `handle`: `true` where the
/// handle was the shim's, whose listing is closed and the call answered
/// with success; `false` where the call is passed on.
pub fn find_close(table: &mut EnumerationTable, handle: u64) -> (r: bool)
    requires
        old(table).wf(),
    ensures
        final(table).wf(),
        r == old(table)@.contains_key(handle),
        final(table)@ == old(table)@.remove(handle),
        final(table).next_handle() == old(table).next_handle(),
{
    table.close(handle)
}

} // verus!
