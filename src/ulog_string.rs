//! User defined constant strings of a dictionary.

use crate::location::Location;
use std::collections::HashMap;
use std::sync::Arc;
use vstd::prelude::*;

verus! {

/// A constant string that the device refers to by its id.
#[derive(Debug, Clone)]
pub struct ULogString {
    /// Offset of the string from the start of its sub-section.
    id: u16,
    string: Arc<String>,
    /// Where the string was declared.
    location: Location,
}

/// The strings of a dictionary, by id.
pub type ULogStringMap = HashMap<u16, ULogString>;

impl ULogString {
    pub closed spec fn spec_id(&self) -> u16 {
        self.id
    }

    pub closed spec fn spec_string(&self) -> Seq<char> {
        self.string@
    }

    pub closed spec fn spec_location(&self) -> (Seq<char>, usize) {
        self.location@
    }

    pub fn new(id: u16, string: String, location: Location) -> (r: ULogString)
        ensures
            r.spec_id() == id,
            r.spec_string() == string@,
            r.spec_location() == location@,
    {
        ULogString { id, string: Arc::new(string), location }
    }

    pub fn id(&self) -> (r: u16)
        ensures
            r == self.spec_id(),
    {
        self.id
    }

    pub fn string(&self) -> (r: &Arc<String>)
        ensures
            r@ == self.spec_string(),
    {
        &self.string
    }

    pub fn location(&self) -> (r: &Location)
        ensures
            r@ == self.spec_location(),
    {
        &self.location
    }
}

} // verus!
