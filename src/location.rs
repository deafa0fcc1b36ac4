//! Source locations at which log items were declared.

use std::sync::Arc;
use vstd::prelude::*;

verus! {

/// A place in a source file. File paths are shared between the many items
/// declared in one file.
#[derive(Debug, Clone, Eq, PartialEq, Hash, Ord, PartialOrd)]
pub struct Location {
    pub file: Arc<String>,
    pub line: usize,
}

impl View for Location {
    type V = (Seq<char>, usize);

    open spec fn view(&self) -> (Seq<char>, usize) {
        (self.file@, self.line)
    }
}

impl Location {
    pub fn new(file: String, line: usize) -> (r: Location)
        ensures
            r@ == (file@, line),
    {
        Location { file: Arc::new(file), line }
    }
}

} // verus!
