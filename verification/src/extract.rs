use vstd::prelude::*;
use crate::decode::{decode_label_spec, decode_utf16_bytes};
use crate::pdfio::{
    dict_get, doc_catalog, doc_get_dictionary, obj_as_array, obj_as_dict, obj_as_i64,
    obj_as_reference, obj_as_string_bytes, page_numbers,
};
use crate::ranges::{
    build_ranges, ranges_spec, sort_breakpoints, sorted_by_start, wf_ranges, Breakpoint,
    SlideRanges,
};

verus! {

// Reading the page-numbering metadata: the catalog's numbering root holds an
// array of breakpoint pairs [start_index, label_descriptor]. Each descriptor
// yields a slide number from its string prefix or its numeric start value;
// malformed pairs are skipped. The breakpoints, sorted by start index, span
// the document into one inclusive physical-page range per slide number.

/// The slide number a label dictionary's fields yield: the decoded string
/// prefix when it decodes to a number; otherwise the numeric start value when
/// it lies in the unsigned 32-bit range; otherwise nothing.
pub open spec fn label_value_spec(prefix: Option<Seq<u8>>, st: Option<i64>) -> Option<u32> {
    let from_prefix = match prefix {
        Some(p) => decode_label_spec(p),
        None => None,
    };
    if from_prefix is Some {
        from_prefix
    } else {
        match st {
            Some(v) => if 0 <= v && v <= u32::MAX {
                Some(v as u32)
            } else {
                None
            },
            None => None,
        }
    }
}

pub open spec fn prefix_view(prefix: Option<&[u8]>) -> Option<Seq<u8>> {
    match prefix {
        Some(b) => Some(b@),
        None => None,
    }
}

/// Decide a breakpoint's slide number from its two label fields, the string
/// prefix taking priority over the numeric start value.
pub fn label_from_fields(prefix: Option<&[u8]>, st: Option<i64>) -> (r: Option<u32>)
    ensures
        r == label_value_spec(prefix_view(prefix), st),
{
    if let Some(bytes) = prefix {
        if let Some(v) = decode_utf16_bytes(bytes) {
            return Some(v);
        }
    }
    if let Some(v) = st {
        if 0 <= v && v <= u32::MAX as i64 {
            return Some(v as u32);
        }
    }
    None
}

/// Read a label dictionary's `P` (string prefix) and `St` (numeric start)
/// entries and decide its slide number.
fn parse_label_dict(dict: &lopdf::Dictionary) -> (r: Option<u32>) {
    let prefix: Option<&[u8]> = match dict_get(dict, "P") {
        Some(obj) => obj_as_string_bytes(obj),
        None => None,
    };
    let st: Option<i64> = match dict_get(dict, "St") {
        Some(obj) => obj_as_i64(obj),
        None => None,
    };
    label_from_fields(prefix, st)
}

/// One element of the numbering array, reduced to plain values: an integer,
/// a label dictionary reduced to the slide number its fields yield, or
/// anything else (including an unresolvable reference).
#[derive(Clone, Copy, PartialEq, Eq, Structural, Debug)]
pub enum NumsEntry {
    Start(i64),
    Label(Option<u32>),
    Other,
}

/// The breakpoint one [start_index, label_descriptor] pair yields: its start
/// must be an integer that is an unsigned page index, its descriptor a label
/// that yielded a slide number; any other pair yields nothing.
pub open spec fn pair_breakpoint(a: NumsEntry, b: NumsEntry) -> Option<Breakpoint> {
    match (a, b) {
        (NumsEntry::Start(v), NumsEntry::Label(Some(slide))) => if 0 <= v < u32::MAX {
            Some(Breakpoint { start: v as u32, slide })
        } else {
            None
        },
        _ => None,
    }
}

/// The breakpoints of a numbering array, walked in pairs: each pair
/// contributes its breakpoint or nothing, and a trailing odd element is
/// ignored.
pub open spec fn breakpoints_spec(entries: Seq<NumsEntry>) -> Seq<Breakpoint>
    decreases entries.len(),
{
    if entries.len() < 2 {
        Seq::empty()
    } else {
        let rest = breakpoints_spec(entries.skip(2));
        match pair_breakpoint(entries[0], entries[1]) {
            Some(bp) => seq![bp] + rest,
            None => rest,
        }
    }
}

proof fn lemma_breakpoints_append(a: Seq<NumsEntry>, b: Seq<NumsEntry>)
    requires
        a.len() % 2 == 0,
    ensures
        breakpoints_spec(a + b) == breakpoints_spec(a) + breakpoints_spec(b),
    decreases a.len(),
{
    if a.len() == 0 {
        assert(a + b =~= b);
        assert(Seq::<Breakpoint>::empty() + breakpoints_spec(b) =~= breakpoints_spec(b));
    } else {
        assert((a + b)[0] == a[0] && (a + b)[1] == a[1]);
        assert((a + b).skip(2) =~= a.skip(2) + b);
        lemma_breakpoints_append(a.skip(2), b);
        match pair_breakpoint(a[0], a[1]) {
            Some(bp) => {
                assert(seq![bp] + (breakpoints_spec(a.skip(2)) + breakpoints_spec(b)) =~= (
                seq![bp] + breakpoints_spec(a.skip(2))) + breakpoints_spec(b));
            },
            None => {},
        }
    }
}

/// LAW: a malformed pair is skipped without aborting the walk — dropping it
/// from the array leaves every other pair's breakpoint exactly as it was.
pub proof fn lemma_malformed_pair_skipped(
    before: Seq<NumsEntry>,
    e1: NumsEntry,
    e2: NumsEntry,
    after: Seq<NumsEntry>,
)
    requires
        before.len() % 2 == 0,
        pair_breakpoint(e1, e2) is None,
    ensures
        breakpoints_spec(before + seq![e1, e2] + after) == breakpoints_spec(before + after),
{
    lemma_breakpoints_append(before, seq![e1, e2] + after);
    lemma_breakpoints_append(seq![e1, e2], after);
    lemma_breakpoints_append(before, after);
    assert(before + seq![e1, e2] + after =~= before + (seq![e1, e2] + after));
    assert((seq![e1, e2])[0] == e1 && (seq![e1, e2])[1] == e2);
    assert((seq![e1, e2]).skip(2) =~= Seq::<NumsEntry>::empty());
    assert(breakpoints_spec(Seq::<NumsEntry>::empty()) =~= Seq::<Breakpoint>::empty());
    assert(breakpoints_spec(seq![e1, e2]) =~= Seq::<Breakpoint>::empty());
    assert(breakpoints_spec(before) + (Seq::<Breakpoint>::empty() + breakpoints_spec(after))
        =~= breakpoints_spec(before) + breakpoints_spec(after));
}

proof fn lemma_breakpoints_starts_bounded(entries: Seq<NumsEntry>)
    ensures
        forall|i: int|
            0 <= i < breakpoints_spec(entries).len() ==> (#[trigger] breakpoints_spec(
                entries,
            )[i]).start < u32::MAX,
    decreases entries.len(),
{
    if entries.len() >= 2 {
        lemma_breakpoints_starts_bounded(entries.skip(2));
        let rest = breakpoints_spec(entries.skip(2));
        assert forall|i: int| 0 <= i < breakpoints_spec(entries).len() implies (
        #[trigger] breakpoints_spec(entries)[i]).start < u32::MAX by {
            match pair_breakpoint(entries[0], entries[1]) {
                Some(bp) => {
                    if i == 0 {
                        assert(breakpoints_spec(entries)[0] == bp);
                    } else {
                        assert(breakpoints_spec(entries)[i] == rest[i - 1]);
                    }
                },
                None => {
                    assert(breakpoints_spec(entries)[i] == rest[i]);
                },
            }
        }
    }
}

/// Reduce each element of the numbering array to plain values, resolving an
/// indirect label dictionary through the document.
fn read_nums_entries(doc: &lopdf::Document, nums: &Vec<lopdf::Object>) -> (r: Vec<NumsEntry>) {
    let mut out: Vec<NumsEntry> = Vec::new();
    let n = nums.len();
    let mut i: usize = 0;
    while i < n
        invariant
            i <= n,
            n == nums@.len(),
        decreases n - i,
    {
        let entry: NumsEntry = match obj_as_i64(&nums[i]) {
            Some(v) => NumsEntry::Start(v),
            None => {
                let dict: Option<&lopdf::Dictionary> = match obj_as_reference(&nums[i]) {
                    Some(id) => doc_get_dictionary(doc, id),
                    None => obj_as_dict(&nums[i]),
                };
                match dict {
                    Some(d) => NumsEntry::Label(parse_label_dict(d)),
                    None => NumsEntry::Other,
                }
            },
        };
        out.push(entry);
        i = i + 1;
    }
    out
}

/// Walk the numbering entries in pairs of [start_index, label_descriptor]:
/// exactly the breakpoints that `breakpoints_spec` names, malformed pairs
/// skipped and a trailing odd element ignored.
pub fn collect_breakpoints(entries: &Vec<NumsEntry>) -> (r: Vec<Breakpoint>)
    ensures
        r@ == breakpoints_spec(entries@),
        forall|i: int| 0 <= i < r@.len() ==> (#[trigger] r@[i]).start < u32::MAX,
{
    let mut out: Vec<Breakpoint> = Vec::new();
    let n = entries.len();
    let mut i: usize = 0;
    proof {
        assert(entries@.skip(0) =~= entries@);
    }
    while n - i >= 2
        invariant
            i <= n,
            n == entries@.len(),
            breakpoints_spec(entries@) == out@ + breakpoints_spec(entries@.skip(i as int)),
        decreases n - i,
    {
        proof {
            assert(entries@.skip(i as int)[0] == entries@[i as int]);
            assert(entries@.skip(i as int)[1] == entries@[i as int + 1]);
            assert(entries@.skip(i as int).skip(2) =~= entries@.skip(i as int + 2));
        }
        let a = entries[i];
        let b = entries[i + 1];
        let mut matched = false;
        if let NumsEntry::Start(v) = a {
            if 0 <= v && v < u32::MAX as i64 {
                if let NumsEntry::Label(Some(slide)) = b {
                    let ghost old_out = out@;
                    out.push(Breakpoint { start: v as u32, slide });
                    proof {
                        assert(out@ =~= old_out + seq![
                            Breakpoint { start: v as u32, slide },
                        ]);
                        assert(out@ + breakpoints_spec(entries@.skip(i as int + 2)) =~= old_out
                            + breakpoints_spec(entries@.skip(i as int)));
                    }
                    matched = true;
                }
            }
        }
        if !matched {
            proof {
                assert(pair_breakpoint(entries@[i as int], entries@[i as int + 1]) is None);
                assert(breakpoints_spec(entries@.skip(i as int)) == breakpoints_spec(
                    entries@.skip(i as int + 2),
                ));
            }
        }
        i = i + 2;
    }
    proof {
        // fewer than two elements are left: no further breakpoint
        assert(breakpoints_spec(entries@.skip(i as int)) =~= Seq::<Breakpoint>::empty());
        assert(out@ + Seq::<Breakpoint>::empty() =~= out@);
        lemma_breakpoints_starts_bounded(entries@);
    }
    out
}

/// Read the document's page-numbering metadata and give every slide number
/// its inclusive 1-indexed physical page range. An absent or malformed
/// numbering root yields the empty table — the "no metadata" signal — and a
/// malformed breakpoint is skipped without aborting the rest.
pub fn extract_slide_ranges(doc: &lopdf::Document) -> (r: SlideRanges)
    ensures
        wf_ranges(r@),
        r@.len() == 0 || exists|bps: Seq<Breakpoint>, total: u32|
            sorted_by_start(bps) && r@ == ranges_spec(bps, total),
{
    let empty: SlideRanges = Vec::new();
    let catalog = match doc_catalog(doc) {
        Some(c) => c,
        None => {
            return empty;
        },
    };
    let labels_obj = match dict_get(catalog, "PageLabels") {
        Some(o) => o,
        None => {
            return empty;
        },
    };
    let labels_dict = match obj_as_reference(labels_obj) {
        Some(id) => match doc_get_dictionary(doc, id) {
            Some(d) => d,
            None => {
                return empty;
            },
        },
        None => match obj_as_dict(labels_obj) {
            Some(d) => d,
            None => {
                return empty;
            },
        },
    };
    let nums_obj = match dict_get(labels_dict, "Nums") {
        Some(o) => o,
        None => {
            return empty;
        },
    };
    let nums = match obj_as_array(nums_obj) {
        Some(a) => a,
        None => {
            return empty;
        },
    };
    let pages = page_numbers(doc);
    let total: u32 = if pages.len() <= u32::MAX as usize {
        pages.len() as u32
    } else {
        u32::MAX
    };
    let entries = read_nums_entries(doc, nums);
    let bps = collect_breakpoints(&entries);
    if bps.len() == 0 {
        return empty;
    }
    let sorted = sort_breakpoints(bps);
    proof {
        assert(forall|k: int|
            0 <= k < sorted@.len() ==> (#[trigger] sorted@[k]).start < u32::MAX);
    }
    let r = build_ranges(&sorted, total);
    proof {
        assert(sorted_by_start(sorted@) && r@ == ranges_spec(sorted@, total));
    }
    r
}

} // verus!
