//! Shrinks a PDF built by repeatedly re-exporting a growing slide deck down
//! to one page per slide. The page-numbering metadata (or, failing that, the
//! "N/M" page footers of the extracted text) says which physical pages belong
//! to each slide; only the last page of each slide — its final build — is
//! kept, and every other page is deleted from the object graph.

/// Decoding page-label strings (UTF-16BE or single-byte) to slide numbers.
pub mod decode;
/// Reading the page-numbering metadata out of the document catalog.
pub mod extract;
/// The text heuristic: recover slide numbers from "N/M" page footers.
pub mod fallback;
/// The trusted boundary to the lopdf PDF library.
pub mod pdfio;
/// Breakpoints, slide ranges, and the keep/delete page sets.
pub mod ranges;
/// The whole shrink pass: select pages and edit the document.
pub mod shrink;

use vstd::prelude::*;

verus! {

/// The failure taxonomy of a shrink run: unreadable input bytes, no usable
/// slide-range information, or output assembly failure.
#[derive(Clone, Copy, PartialEq, Eq, Structural, Debug)]
pub enum ShrinkError {
    Parse,
    CannotShrink,
    Serialize,
}

} // verus!
