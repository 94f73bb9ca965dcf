use crate::order::{cmp_chars, cmp_int, compare_str, compare_u32, flip, lemma_cmp_chars_flip};
use std::cmp::Ordering;
use vstd::prelude::*;

verus! {

/// Where an item is defined: a file, then a line and a column in it.
pub struct EntryLocation {
    pub file: String,
    pub line: u32,
    pub col: u32,
}

/// An item to show: its display name, the path segments of the namespace
/// that holds it, and where it is defined.
pub struct Entry {
    pub display_name: String,
    pub path: Vec<String>,
    pub location: EntryLocation,
}

/// Metadata for a namespace: its own raw segment name, the path of the
/// namespace around it, the name to show instead, and where it is defined.
pub struct EntryGroup {
    pub raw_name: String,
    pub display_name: String,
    pub path: Vec<String>,
    pub location: EntryLocation,
}

/// The attribute that siblings are first ordered by.
#[derive(Clone, Copy)]
pub enum SortingAttr {
    Kind,
    Name,
    Location,
}

/// Locations order by file name, then line, then column.
pub open spec fn cmp_location(a: EntryLocation, b: EntryLocation) -> Ordering {
    let f = cmp_chars(a.file@, b.file@);
    if f != Ordering::Equal {
        f
    } else if a.line != b.line {
        cmp_int(a.line as int, b.line as int)
    } else {
        cmp_int(a.col as int, b.col as int)
    }
}

/// The attributes compared in turn: the chosen one, then the other two as
/// tie-breakers.
pub open spec fn tie_breakers(a: SortingAttr) -> Seq<SortingAttr> {
    match a {
        SortingAttr::Kind => seq![SortingAttr::Kind, SortingAttr::Name, SortingAttr::Location],
        SortingAttr::Name => seq![SortingAttr::Name, SortingAttr::Location, SortingAttr::Kind],
        SortingAttr::Location => seq![SortingAttr::Location, SortingAttr::Name, SortingAttr::Kind],
    }
}

/// Optional locations order as their locations; an absent one comes last.
pub open spec fn cmp_opt_location(a: Option<EntryLocation>, b: Option<EntryLocation>) -> Ordering {
    match (a, b) {
        (None, None) => Ordering::Equal,
        (None, Some(_)) => Ordering::Greater,
        (Some(_), None) => Ordering::Less,
        (Some(x), Some(y)) => cmp_location(x, y),
    }
}

pub proof fn lemma_cmp_location_flip(a: EntryLocation, b: EntryLocation)
    ensures
        cmp_location(b, a) == flip(cmp_location(a, b)),
{
    lemma_cmp_chars_flip(a.file@, b.file@);
}

pub proof fn lemma_cmp_opt_location_flip(a: Option<EntryLocation>, b: Option<EntryLocation>)
    ensures
        cmp_opt_location(b, a) == flip(cmp_opt_location(a, b)),
{
    if let (Some(x), Some(y)) = (a, b) {
        lemma_cmp_location_flip(x, y);
    }
}

/// The segments of a path, as character sequences.
pub open spec fn path_view(p: Seq<String>) -> Seq<Seq<char>> {
    p.map_values(|s: String| s@)
}

impl Entry {
    pub open spec fn path_spec(&self) -> Seq<Seq<char>> {
        path_view(self.path@)
    }
}

impl EntryGroup {
    /// The group's own path: the path around it, then its raw name.
    pub open spec fn full_path(&self) -> Seq<Seq<char>> {
        path_view(self.path@).push(self.raw_name@)
    }
}

impl EntryLocation {
    /// Compares two locations.
    pub fn compare(&self, other: &EntryLocation) -> (r: Ordering)
        ensures
            r == cmp_location(*self, *other),
    {
        let f = compare_str(self.file.as_str(), other.file.as_str());
        match f {
            Ordering::Equal => {
                if self.line != other.line {
                    compare_u32(self.line, other.line)
                } else {
                    compare_u32(self.col, other.col)
                }
            },
            _ => f,
        }
    }
}

} // verus!
