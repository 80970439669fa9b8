//! The page-selection record of the surrounding document driver.
use vstd::prelude::*;

verus! {

/// One requested page range, inclusive on both ends; negative values count
/// from the document's last page.
#[derive(Clone, Copy, Debug, PartialEq, Eq, Structural)]
pub struct page_range {
    /// First page of the range.
    pub first: i32,
    /// Last page of the range.
    pub last: i32,
}

impl page_range {
    /// Builds a range from its two ends.
    pub fn new(first: i32, last: i32) -> (r: page_range)
        ensures
            r.first == first,
            r.last == last,
    {
        page_range { first, last }
    }
}

} // verus!
