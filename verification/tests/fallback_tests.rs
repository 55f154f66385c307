use slide_shrink::fallback::{fallback_keep_pages, footer_slide_pages, scan_footers};

#[test]
fn footers_are_scanned_in_order() {
    let text = b"intro 1/3\nmore 1/3\nbody 2/3\nend 3/3\n";
    assert_eq!(scan_footers(text), vec![Some(1), Some(1), Some(2), Some(3)]);
}

#[test]
fn footer_allows_spaces_around_the_slash() {
    let text = b"a 1 / 4\nb 2/ 4\nc 3 /4\nd 4/4";
    assert_eq!(scan_footers(text), vec![Some(1), Some(2), Some(3), Some(4)]);
}

#[test]
fn footer_at_end_of_text_needs_no_newline() {
    assert_eq!(scan_footers(b"slide 2/7"), vec![Some(2)]);
}

#[test]
fn trailing_spaces_without_newline_are_no_footer() {
    assert_eq!(scan_footers(b"slide 2/7   "), Vec::<Option<u32>>::new());
}

#[test]
fn digits_not_followed_by_a_slash_are_no_footer() {
    assert_eq!(scan_footers(b"version 10 of 12 things\n"), Vec::<Option<u32>>::new());
    assert_eq!(scan_footers(b""), Vec::<Option<u32>>::new());
}

#[test]
fn oversized_slide_number_is_recorded_without_a_value() {
    assert_eq!(scan_footers(b"x 4294967296/9\n"), vec![None]);
}

#[test]
fn each_group_keeps_its_last_page() {
    let nums = vec![Some(1), Some(1), Some(2), Some(3)];
    assert_eq!(fallback_keep_pages(&nums, 4), vec![2, 3, 4]);
}

#[test]
fn keep_pages_are_capped_at_the_page_count() {
    let nums = vec![Some(1), Some(2), Some(3)];
    assert_eq!(fallback_keep_pages(&nums, 2), vec![1, 2]);
}

#[test]
fn unparsed_footers_keep_no_page() {
    let nums = vec![Some(1), None, Some(2)];
    assert_eq!(fallback_keep_pages(&nums, 3), vec![1, 3]);
}

#[test]
fn whole_heuristic_end_to_end() {
    let text = b"intro 1/3\nmore 1/3\nbody 2/3\nend 3/3\n";
    assert_eq!(footer_slide_pages(text, 4), vec![2, 3, 4]);
}
