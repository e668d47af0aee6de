//! The page-title record.
//!
//! A title names one wiki page: its numeric page id and its display name.
//! The list of titles is persisted as a CSV file by the surrounding tooling;
//! this crate only carries the record itself.

use vstd::prelude::*;

verus! {

/// One wiki page: its numeric id and its title.
#[derive(Debug, Clone, PartialEq, Eq)]
pub struct Title {
    pub id: u32,
    pub name: String,
}

impl Title {
    /// Builds a title record.
    pub fn new(id: u32, name: String) -> (t: Title)
        ensures
            t.id == id,
            t.name@ == name@,
    {
        Title { id, name }
    }
}

} // verus!
