//! Pages as they are kept together with their directory: a header that
//! names the page, the page's bytes, and the directory from page ids to
//! places in the list of pages.

use std::collections::HashMap;
use vstd::prelude::*;

verus! {

broadcast use vstd::std_specs::hash::group_hash_axioms;

/// What is known of a page besides its bytes.
pub struct PageHeader {
    /// ID of the page
    pub page_id: usize,
    /// size of pages. defaults to 4kb
    pub page_size: usize,
}

impl PageHeader {
    /// The header of page `page_id` in a store of pages of `page_size` bytes.
    pub fn new(page_size: usize, page_id: usize) -> (header: PageHeader)
        ensures
            header.page_size == page_size,
            header.page_id == page_id,
    {
        PageHeader { page_size, page_id }
    }
}

/// A page with its header.
pub struct Page {
    pub header: PageHeader,
    pub data: Vec<u8>,
}

/// A list of pages and the directory that says where in the list each page
/// id is found.
pub struct Pages {
    pub page_directory: HashMap<usize, usize>,
    pub pages: Vec<Page>,
}

impl Pages {
    /// No page, and a directory that knows none.
    pub fn new_in_memory() -> (pages: Pages)
        ensures
            pages.page_directory@ == Map::<usize, usize>::empty(),
            pages.pages@ == Seq::<Page>::empty(),
    {
        Pages { page_directory: HashMap::new(), pages: Vec::new() }
    }
}

} // verus!
