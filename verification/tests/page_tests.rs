use composter::page::{Page, PageHeader, Pages};

#[test]
fn page_header_keeps_its_fields() {
    let header = PageHeader::new(4096, 7);
    assert_eq!(header.page_size, 4096);
    assert_eq!(header.page_id, 7);
    let page = Page {
        header,
        data: vec![1, 2, 3],
    };
    assert_eq!(page.header.page_id, 7);
    assert_eq!(page.data, vec![1, 2, 3]);
}

#[test]
fn pages_in_memory_start_empty() {
    let pages = Pages::new_in_memory();
    assert!(pages.page_directory.is_empty());
    assert!(pages.pages.is_empty());
}
