use vstd::prelude::*;
use crate::extract::extract_slide_ranges;
use crate::pdfio::{delete_document_pages, load_document, page_numbers, prune_document, save_document};
use crate::ranges::{keep_pages, page_complement, SlideRanges};
use crate::ShrinkError;

verus! {

// Page selection and the destructive edit: keep the last physical page of
// every slide range, delete the rest, reclaim unreachable objects.

/// Shrink the document in place to the last page of every slide range: the
/// keep-set is the ranges' ends, the delete-set its complement among all
/// physical pages. Fails, touching nothing, exactly when the table is empty.
pub fn select_and_delete(doc: &mut lopdf::Document, slide_ranges: &SlideRanges) -> (r: Result<
    (),
    ShrinkError,
>)
    ensures
        r is Err <==> slide_ranges@.len() == 0,
        r is Err ==> r->Err_0 is CannotShrink && *final(doc) == *old(doc),
{
    if slide_ranges.len() == 0 {
        return Err(ShrinkError::CannotShrink);
    }
    let keep = keep_pages(slide_ranges);
    let all = page_numbers(doc);
    let delete = page_complement(&all, &keep);
    delete_document_pages(doc, &delete);
    prune_document(doc);
    Ok(())
}

/// One whole shrink pass over a PDF byte buffer: load, extract the slide
/// ranges, keep each slide's final page, drop the rest, serialize. Each
/// failure names its stage: Parse for unreadable bytes, CannotShrink when no
/// slide-range information was found, Serialize when output assembly fails.
pub fn shrink_pdf(input_bytes: &[u8]) -> (r: Result<Vec<u8>, ShrinkError>)
    ensures
        r is Err ==> (r->Err_0 is Parse || r->Err_0 is CannotShrink || r->Err_0 is Serialize),
{
    let mut doc = match load_document(input_bytes) {
        Ok(d) => d,
        Err(e) => {
            return Err(e);
        },
    };
    let slide_ranges = extract_slide_ranges(&doc);
    match select_and_delete(&mut doc, &slide_ranges) {
        Ok(_) => (),
        Err(e) => {
            return Err(e);
        },
    }
    save_document(&mut doc)
}

} // verus!
