//! The typed representation of one discovered marker: where it was found,
//! its free text, and its classification.

use vstd::prelude::*;

verus! {

/// Mathematical model of a [`Location`]: a file path as a character
/// sequence and a 1-based line number.
pub struct SpecLocation {
    pub file: Seq<char>,
    pub line: nat,
}

/// Mathematical model of an [`EntryData`] classification.
pub enum SpecEntryData {
    Priority(int),
    Category(Seq<char>),
    Generic,
}

/// Mathematical model of an [`Entry`].
pub struct SpecEntry {
    pub text: Seq<char>,
    pub location: SpecLocation,
    pub data: SpecEntryData,
}

/// Where an entry was found: file path plus 1-based line number.
#[derive(Debug, Clone)]
pub struct Location {
    pub file: String,
    pub line: usize,
}

/// Classification of a discovered marker: a signed numeric priority
/// (lower values are more urgent), a named category, or nothing further.
#[derive(Debug, Clone)]
pub enum EntryData {
    Priority(isize),
    Category(String),
    Generic,
}

/// One discovered marker: trailing free text, location, classification.
#[derive(Debug, Clone)]
pub struct Entry {
    pub text: String,
    pub location: Location,
    pub data: EntryData,
}

impl View for Location {
    type V = SpecLocation;

    open spec fn view(&self) -> SpecLocation {
        SpecLocation { file: self.file@, line: self.line as nat }
    }
}

impl View for EntryData {
    type V = SpecEntryData;

    open spec fn view(&self) -> SpecEntryData {
        match self {
            EntryData::Priority(p) => SpecEntryData::Priority(*p as int),
            EntryData::Category(name) => SpecEntryData::Category(name@),
            EntryData::Generic => SpecEntryData::Generic,
        }
    }
}

impl View for Entry {
    type V = SpecEntry;

    open spec fn view(&self) -> SpecEntry {
        SpecEntry { text: self.text@, location: self.location@, data: self.data@ }
    }
}

/// The views of a sequence of entries, in order.
pub open spec fn entry_views(s: Seq<Entry>) -> Seq<SpecEntry> {
    s.map_values(|e: Entry| e@)
}

impl PartialEq for Location {
    fn eq(&self, other: &Location) -> bool {
        self.file == other.file && self.line == other.line
    }
}

impl vstd::std_specs::cmp::PartialEqSpecImpl for Location {
    open spec fn obeys_eq_spec() -> bool {
        true
    }

    open spec fn eq_spec(&self, other: &Location) -> bool {
        self@ == other@
    }
}

impl PartialEq for EntryData {
    fn eq(&self, other: &EntryData) -> (r: bool) {
        match (self, other) {
            (EntryData::Priority(a), EntryData::Priority(b)) => a == b,
            (EntryData::Category(a), EntryData::Category(b)) => *a == *b,
            (EntryData::Generic, EntryData::Generic) => true,
            _ => false,
        }
    }
}

impl vstd::std_specs::cmp::PartialEqSpecImpl for EntryData {
    open spec fn obeys_eq_spec() -> bool {
        true
    }

    open spec fn eq_spec(&self, other: &EntryData) -> bool {
        self@ == other@
    }
}

impl PartialEq for Entry {
    fn eq(&self, other: &Entry) -> bool {
        self.text == other.text && self.location == other.location && self.data == other.data
    }
}

impl vstd::std_specs::cmp::PartialEqSpecImpl for Entry {
    open spec fn obeys_eq_spec() -> bool {
        true
    }

    open spec fn eq_spec(&self, other: &Entry) -> bool {
        self@ == other@
    }
}

} // verus!
