use vstd::prelude::*;

verus! {

/// A stored document: the raw body that was indexed.
#[derive(Debug, Clone, PartialEq)]
pub struct Document {
    pub body: String,
}

impl Document {
    pub fn new(body: String) -> (r: Document)
        ensures
            r.body@ == body@,
    {
        Document { body }
    }
}

} // verus!
