use lopdf::{Dictionary, Document, Object, StringFormat};
use slide_shrink::extract::{collect_breakpoints, extract_slide_ranges, NumsEntry};
use slide_shrink::ranges::{
    build_ranges, keep_pages, page_complement, sort_breakpoints, Breakpoint, SlideRange,
};
use slide_shrink::shrink::{select_and_delete, shrink_pdf};
use slide_shrink::ShrinkError;

/// Build an in-memory PDF with `n` pages; page i (1-indexed) carries a
/// `SlideTag` entry holding i so it stays recognizable after shrinking.
/// `nums` lists the raw elements of the numbering root's array.
fn build_pdf(n: i64, nums: Option<Vec<Object>>) -> Document {
    let mut doc = Document::with_version("1.5");
    let pages_id = doc.new_object_id();
    let mut kids: Vec<Object> = Vec::new();
    for i in 1..=n {
        let mut page = Dictionary::new();
        page.set("Type", Object::Name(b"Page".to_vec()));
        page.set("Parent", Object::Reference(pages_id));
        page.set("SlideTag", Object::Integer(i));
        let pid = doc.add_object(Object::Dictionary(page));
        kids.push(Object::Reference(pid));
    }
    let mut pages = Dictionary::new();
    pages.set("Type", Object::Name(b"Pages".to_vec()));
    pages.set("Count", Object::Integer(n));
    pages.set("Kids", Object::Array(kids));
    doc.objects.insert(pages_id, Object::Dictionary(pages));
    let mut catalog = Dictionary::new();
    catalog.set("Type", Object::Name(b"Catalog".to_vec()));
    catalog.set("Pages", Object::Reference(pages_id));
    if let Some(entries) = nums {
        let mut labels = Dictionary::new();
        labels.set("Nums", Object::Array(entries));
        catalog.set("PageLabels", Object::Dictionary(labels));
    }
    let cat_id = doc.add_object(Object::Dictionary(catalog));
    doc.trailer.set("Root", Object::Reference(cat_id));
    doc
}

fn st_label(st: i64) -> Object {
    let mut label = Dictionary::new();
    label.set("St", Object::Integer(st));
    Object::Dictionary(label)
}

fn breakpoint_nums(pairs: &[(i64, i64)]) -> Vec<Object> {
    let mut nums = Vec::new();
    for (start, st) in pairs {
        nums.push(Object::Integer(*start));
        nums.push(st_label(*st));
    }
    nums
}

fn doc_bytes(doc: &mut Document) -> Vec<u8> {
    let mut buffer = Vec::new();
    doc.save_to(&mut std::io::Cursor::new(&mut buffer)).unwrap();
    buffer
}

fn page_tags(doc: &Document) -> Vec<i64> {
    let mut tags = Vec::new();
    for (_no, id) in doc.get_pages() {
        let page = doc.get_dictionary(id).unwrap();
        tags.push(page.get(b"SlideTag").unwrap().as_i64().unwrap());
    }
    tags
}

fn range_for(ranges: &Vec<SlideRange>, slide: u32) -> Option<(u32, u32)> {
    for r in ranges {
        if r.slide == slide {
            return Some((r.first, r.last));
        }
    }
    None
}

#[test]
fn extract_reads_breakpoints() {
    let doc = build_pdf(7, Some(breakpoint_nums(&[(0, 1), (3, 2), (4, 3)])));
    let ranges = extract_slide_ranges(&doc);
    assert_eq!(ranges.len(), 3);
    assert_eq!(range_for(&ranges, 1), Some((1, 3)));
    assert_eq!(range_for(&ranges, 2), Some((4, 4)));
    assert_eq!(range_for(&ranges, 3), Some((5, 7)));
}

#[test]
fn extract_without_numbering_root_is_empty() {
    let doc = build_pdf(3, None);
    assert!(extract_slide_ranges(&doc).is_empty());
}

#[test]
fn extract_on_blank_document_is_empty() {
    let doc = Document::new();
    assert!(extract_slide_ranges(&doc).is_empty());
}

#[test]
fn extract_reads_string_prefix_labels() {
    // one label as UTF-16BE "12", one as plain text, one by start value
    let mut l1 = Dictionary::new();
    l1.set(
        "P",
        Object::String(vec![0xFE, 0xFF, 0x00, 0x31, 0x00, 0x32], StringFormat::Hexadecimal),
    );
    let mut l2 = Dictionary::new();
    l2.set("P", Object::String(b" 34 ".to_vec(), StringFormat::Literal));
    let nums = vec![
        Object::Integer(0),
        Object::Dictionary(l1),
        Object::Integer(2),
        Object::Dictionary(l2),
        Object::Integer(3),
        st_label(56),
    ];
    let doc = build_pdf(4, Some(nums));
    let ranges = extract_slide_ranges(&doc);
    assert_eq!(ranges.len(), 3);
    assert_eq!(range_for(&ranges, 12), Some((1, 2)));
    assert_eq!(range_for(&ranges, 34), Some((3, 3)));
    assert_eq!(range_for(&ranges, 56), Some((4, 4)));
}

#[test]
fn malformed_chunks_are_skipped() {
    // a non-numeric start, a label that is no dictionary, a label whose
    // fields yield nothing, a dangling reference, and a trailing odd element
    // are each skipped; the valid breakpoints still come through
    let mut empty_label = Dictionary::new();
    empty_label.set("P", Object::String(b"no number".to_vec(), StringFormat::Literal));
    let nums = vec![
        Object::String(b"x".to_vec(), StringFormat::Literal),
        st_label(9),
        Object::Integer(0),
        st_label(1),
        Object::Integer(1),
        Object::Integer(77),
        Object::Integer(2),
        Object::Dictionary(empty_label),
        Object::Integer(3),
        Object::Reference((9999, 0)),
        Object::Integer(4),
        st_label(2),
        Object::Integer(5),
    ];
    let doc = build_pdf(6, Some(nums));
    let ranges = extract_slide_ranges(&doc);
    assert_eq!(ranges.len(), 2);
    assert_eq!(range_for(&ranges, 1), Some((1, 4)));
    assert_eq!(range_for(&ranges, 2), Some((5, 6)));
}

#[test]
fn duplicate_slide_numbers_last_write_wins() {
    let doc = build_pdf(4, Some(breakpoint_nums(&[(0, 1), (2, 1)])));
    let ranges = extract_slide_ranges(&doc);
    assert_eq!(ranges.len(), 1);
    assert_eq!(range_for(&ranges, 1), Some((3, 4)));
}

#[test]
fn build_ranges_exact_table() {
    let bps = vec![
        Breakpoint { start: 3, slide: 2 },
        Breakpoint { start: 0, slide: 1 },
        Breakpoint { start: 4, slide: 3 },
    ];
    let sorted = sort_breakpoints(bps);
    let ranges = build_ranges(&sorted, 7);
    assert_eq!(ranges.len(), 3);
    assert_eq!(range_for(&ranges, 1), Some((1, 3)));
    assert_eq!(range_for(&ranges, 2), Some((4, 4)));
    assert_eq!(range_for(&ranges, 3), Some((5, 7)));
}

#[test]
fn keep_and_delete_sets() {
    let ranges = vec![
        SlideRange { slide: 1, first: 1, last: 3 },
        SlideRange { slide: 2, first: 4, last: 4 },
        SlideRange { slide: 3, first: 5, last: 7 },
    ];
    let keep = keep_pages(&ranges);
    assert_eq!(keep, vec![3, 4, 7]);
    let all: Vec<u32> = (1..=7).collect();
    let delete = page_complement(&all, &keep);
    assert_eq!(delete, vec![1, 2, 5, 6]);
}

#[test]
fn shrink_keeps_the_last_page_of_each_slide() {
    let mut doc = build_pdf(7, Some(breakpoint_nums(&[(0, 1), (3, 2), (4, 3)])));
    let bytes = doc_bytes(&mut doc);
    let out = shrink_pdf(&bytes).unwrap();
    let shrunk = Document::load_mem(&out).unwrap();
    assert_eq!(shrunk.get_pages().len(), 3);
    assert_eq!(page_tags(&shrunk), vec![3, 4, 7]);
}

#[test]
fn select_and_delete_with_empty_table_fails() {
    let mut doc = build_pdf(7, None);
    let before = doc.get_pages().len();
    let r = select_and_delete(&mut doc, &Vec::new());
    assert_eq!(r, Err(ShrinkError::CannotShrink));
    assert_eq!(doc.get_pages().len(), before);
}

#[test]
fn shrink_without_metadata_cannot_shrink() {
    let mut doc = build_pdf(3, None);
    let bytes = doc_bytes(&mut doc);
    assert_eq!(shrink_pdf(&bytes), Err(ShrinkError::CannotShrink));
}

#[test]
fn shrink_of_garbage_bytes_is_a_parse_error() {
    assert_eq!(shrink_pdf(b"not a pdf at all"), Err(ShrinkError::Parse));
}

#[test]
fn second_shrink_changes_nothing() {
    // one page per slide, sequential numbering: every range has length 1
    let mut doc = build_pdf(3, Some(breakpoint_nums(&[(0, 1), (1, 2), (2, 3)])));
    let bytes = doc_bytes(&mut doc);
    let once = shrink_pdf(&bytes).unwrap();
    let after_once = Document::load_mem(&once).unwrap();
    assert_eq!(after_once.get_pages().len(), 3);
    let twice = shrink_pdf(&once).unwrap();
    let after_twice = Document::load_mem(&twice).unwrap();
    assert_eq!(after_twice.get_pages().len(), 3);
    assert_eq!(page_tags(&after_twice), page_tags(&after_once));
}

#[test]
fn select_and_delete_edits_in_place() {
    let mut doc = build_pdf(7, None);
    let ranges = vec![
        SlideRange { slide: 1, first: 1, last: 3 },
        SlideRange { slide: 2, first: 4, last: 4 },
        SlideRange { slide: 3, first: 5, last: 7 },
    ];
    select_and_delete(&mut doc, &ranges).unwrap();
    assert_eq!(doc.get_pages().len(), 3);
    assert_eq!(page_tags(&doc), vec![3, 4, 7]);
}

#[test]
fn pair_walk_skips_malformed_pairs() {
    let entries = vec![
        NumsEntry::Start(0),
        NumsEntry::Label(Some(1)),
        NumsEntry::Other,
        NumsEntry::Label(Some(9)),
        NumsEntry::Start(-1),
        NumsEntry::Label(Some(8)),
        NumsEntry::Start(2),
        NumsEntry::Label(None),
        NumsEntry::Start(3),
        NumsEntry::Label(Some(2)),
        NumsEntry::Start(5),
    ];
    let bps = collect_breakpoints(&entries);
    assert_eq!(bps.len(), 2);
    assert_eq!((bps[0].start, bps[0].slide), (0, 1));
    assert_eq!((bps[1].start, bps[1].slide), (3, 2));
}
