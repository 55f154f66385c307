use vstd::prelude::*;
use vstd::multiset::Multiset;

verus! {

// The page-numbering metadata yields breakpoints: from physical page `start`
// (0-indexed) onward, pages belong to slide number `slide`. Sorting the
// breakpoints by start and closing each span at the next breakpoint (or at the
// page count) gives each slide its inclusive, 1-indexed physical page range.
// A later breakpoint with the same slide number overwrites the earlier one.

/// An inclusive range of 1-indexed physical pages that belong to one slide.
#[derive(Clone, Copy, PartialEq, Eq, Structural, Debug)]
pub struct SlideRange {
    pub slide: u32,
    pub first: u32,
    pub last: u32,
}

/// The slide-range table: one entry per slide number.
pub type SlideRanges = Vec<SlideRange>;

/// A parsed page-numbering breakpoint.
#[derive(Clone, Copy, PartialEq, Eq, Structural, Debug)]
pub struct Breakpoint {
    pub start: u32,
    pub slide: u32,
}

pub open spec fn sorted_by_start(s: Seq<Breakpoint>) -> bool {
    forall|i: int, j: int| 0 <= i <= j < s.len() ==> (#[trigger] s[i]).start <= (#[trigger] s[j]).start
}

pub open spec fn sorted_u32(s: Seq<u32>) -> bool {
    forall|i: int, j: int| 0 <= i <= j < s.len() ==> #[trigger] s[i] <= #[trigger] s[j]
}

/// No two ranges carry the same slide number.
pub open spec fn wf_ranges(s: Seq<SlideRange>) -> bool {
    forall|i: int, j: int|
        0 <= i < j < s.len() ==> (#[trigger] s[i]).slide != (#[trigger] s[j]).slide
}

/// The range that breakpoint `i` of a sorted breakpoint list spans: from its
/// start to just before the next breakpoint, the final breakpoint reaching the
/// last physical page; both bounds converted to 1-indexed pages.
pub open spec fn range_of(bps: Seq<Breakpoint>, i: int, total: u32) -> SlideRange {
    SlideRange {
        slide: bps[i].slide,
        first: (bps[i].start + 1) as u32,
        last: if i + 1 < bps.len() {
            bps[i + 1].start
        } else {
            total
        },
    }
}

pub open spec fn raw_ranges(bps: Seq<Breakpoint>, total: u32) -> Seq<SlideRange> {
    Seq::new(bps.len(), |i: int| range_of(bps, i, total))
}

/// First index whose range carries slide number `n`, or -1 if none does.
pub open spec fn find_slide(s: Seq<SlideRange>, n: u32) -> int
    decreases s.len(),
{
    if s.len() == 0 {
        -1
    } else if s[0].slide == n {
        0
    } else {
        let r = find_slide(s.drop_first(), n);
        if r == -1 {
            -1
        } else {
            r + 1
        }
    }
}

/// Insert a range, overwriting the range already held for the same slide.
pub open spec fn upsert(s: Seq<SlideRange>, r: SlideRange) -> Seq<SlideRange> {
    let i = find_slide(s, r.slide);
    if i >= 0 {
        s.update(i, r)
    } else {
        s.push(r)
    }
}

pub open spec fn upsert_all(s: Seq<SlideRange>, rs: Seq<SlideRange>) -> Seq<SlideRange>
    decreases rs.len(),
{
    if rs.len() == 0 {
        s
    } else {
        upsert_all(upsert(s, rs[0]), rs.drop_first())
    }
}

/// The exact slide-range table a breakpoint list yields: each breakpoint's
/// span, inserted in order with last-write-wins on equal slide numbers.
pub open spec fn ranges_spec(bps: Seq<Breakpoint>, total: u32) -> Seq<SlideRange> {
    upsert_all(Seq::empty(), raw_ranges(bps, total))
}

proof fn lemma_find_slide_characterizes(s: Seq<SlideRange>, n: u32)
    ensures
        find_slide(s, n) == -1 ==> forall|k: int| 0 <= k < s.len() ==> (#[trigger] s[k]).slide != n,
        find_slide(s, n) != -1 ==> {
            &&& 0 <= find_slide(s, n) < s.len()
            &&& s[find_slide(s, n)].slide == n
            &&& forall|k: int| 0 <= k < find_slide(s, n) ==> (#[trigger] s[k]).slide != n
        },
    decreases s.len(),
{
    if s.len() > 0 && s[0].slide != n {
        lemma_find_slide_characterizes(s.drop_first(), n);
        assert forall|k: int| 0 <= k < s.len() && s.drop_first()[k - 1].slide != n && k >= 1
            implies (#[trigger] s[k]).slide != n by {
            assert(s.drop_first()[k - 1] == s[k]);
        }
    }
}

proof fn lemma_upsert_preserves_wf(s: Seq<SlideRange>, r: SlideRange)
    requires
        wf_ranges(s),
    ensures
        wf_ranges(upsert(s, r)),
{
    lemma_find_slide_characterizes(s, r.slide);
    let i = find_slide(s, r.slide);
    if i >= 0 {
        let t = s.update(i, r);
        assert forall|p: int, q: int| 0 <= p < q < t.len() implies (#[trigger] t[p]).slide != (
        #[trigger] t[q]).slide by {
            if p != i && q != i {
                assert(t[p] == s[p] && t[q] == s[q]);
            } else if p == i {
                assert(t[q] == s[q]);
                assert(s[q].slide != s[i].slide);
            } else {
                assert(t[p] == s[p]);
                assert(s[p].slide != s[i].slide);
            }
        }
    }
}

proof fn lemma_upsert_all_wf(s: Seq<SlideRange>, rs: Seq<SlideRange>)
    requires
        wf_ranges(s),
    ensures
        wf_ranges(upsert_all(s, rs)),
    decreases rs.len(),
{
    if rs.len() > 0 {
        lemma_upsert_preserves_wf(s, rs[0]);
        lemma_upsert_all_wf(upsert(s, rs[0]), rs.drop_first());
    }
}

/// The slide-range table never holds two ranges for one slide number.
pub proof fn lemma_ranges_spec_wf(bps: Seq<Breakpoint>, total: u32)
    ensures
        wf_ranges(ranges_spec(bps, total)),
{
    lemma_upsert_all_wf(Seq::empty(), raw_ranges(bps, total));
}

proof fn lemma_upsert_all_push(s: Seq<SlideRange>, rs: Seq<SlideRange>, r: SlideRange)
    ensures
        upsert_all(s, rs.push(r)) == upsert(upsert_all(s, rs), r),
    decreases rs.len(),
{
    if rs.len() == 0 {
        assert(rs.push(r)[0] == r);
        assert(rs.push(r).drop_first() =~= Seq::<SlideRange>::empty());
        assert(upsert_all(s, rs.push(r)) == upsert_all(upsert(s, r), Seq::empty()));
    } else {
        assert(rs.push(r)[0] == rs[0]);
        assert(rs.push(r).drop_first() =~= rs.drop_first().push(r));
        lemma_upsert_all_push(upsert(s, rs[0]), rs.drop_first(), r);
    }
}

/// Well-formed page-numbering metadata: at least one breakpoint, starting at
/// physical page 0, with strictly increasing start pages inside the document
/// and pairwise distinct slide numbers.
pub open spec fn wf_breakpoints(bps: Seq<Breakpoint>, total: u32) -> bool {
    &&& bps.len() > 0
    &&& bps[0].start == 0
    &&& forall|i: int, j: int|
        0 <= i < j < bps.len() ==> (#[trigger] bps[i]).start < (#[trigger] bps[j]).start
    &&& forall|i: int| 0 <= i < bps.len() ==> (#[trigger] bps[i]).start < total
    &&& forall|i: int, j: int|
        0 <= i < j < bps.len() ==> (#[trigger] bps[i]).slide != (#[trigger] bps[j]).slide
}

proof fn lemma_upsert_all_distinct(s: Seq<SlideRange>, rs: Seq<SlideRange>)
    requires
        wf_ranges(rs),
        forall|i: int, j: int|
            0 <= i < s.len() && 0 <= j < rs.len() ==> (#[trigger] s[i]).slide != (
            #[trigger] rs[j]).slide,
    ensures
        upsert_all(s, rs) == s + rs,
    decreases rs.len(),
{
    if rs.len() == 0 {
        assert(s + rs =~= s);
    } else {
        lemma_find_slide_characterizes(s, rs[0].slide);
        assert(find_slide(s, rs[0].slide) == -1);
        assert(upsert(s, rs[0]) == s.push(rs[0]));
        assert forall|i: int, j: int|
            0 <= i < s.push(rs[0]).len() && 0 <= j < rs.drop_first().len() implies (
        #[trigger] s.push(rs[0])[i]).slide != (#[trigger] rs.drop_first()[j]).slide by {
            assert(rs.drop_first()[j] == rs[j + 1]);
            if i < s.len() {
                assert(s.push(rs[0])[i] == s[i]);
            } else {
                assert(s.push(rs[0])[i] == rs[0]);
            }
        }
        assert(wf_ranges(rs.drop_first())) by {
            assert forall|i: int, j: int|
                0 <= i < j < rs.drop_first().len() implies (
            #[trigger] rs.drop_first()[i]).slide != (#[trigger] rs.drop_first()[j]).slide by {
                assert(rs.drop_first()[i] == rs[i + 1] && rs.drop_first()[j] == rs[j + 1]);
            }
        }
        lemma_upsert_all_distinct(s.push(rs[0]), rs.drop_first());
        assert(s.push(rs[0]) + rs.drop_first() =~= s + rs);
    }
}

/// LAW: on well-formed metadata with k breakpoints, extraction yields exactly
/// k ranges — breakpoint i spanning from its start page to just before the
/// next (the final one to the page count), 1-indexed — and those inclusive
/// spans tile [1, total] in order: the first span begins at page 1, each next
/// span begins right after the previous one ends, the last ends at `total`,
/// and no span is empty. Their union is all of [1, total] with no gaps or
/// overlaps.
pub proof fn lemma_extract_covers(bps: Seq<Breakpoint>, total: u32)
    requires
        wf_breakpoints(bps, total),
    ensures
        ranges_spec(bps, total).len() == bps.len(),
        forall|i: int|
            0 <= i < bps.len() ==> ranges_spec(bps, total)[i] == range_of(bps, i, total),
        ranges_spec(bps, total)[0].first == 1,
        forall|i: int|
            0 <= i < bps.len() ==> (#[trigger] ranges_spec(bps, total)[i]).first <= ranges_spec(
                bps,
                total,
            )[i].last,
        forall|i: int|
            0 <= i < bps.len() - 1 ==> (#[trigger] ranges_spec(bps, total)[i + 1]).first
                == ranges_spec(bps, total)[i].last + 1,
        ranges_spec(bps, total)[bps.len() - 1].last == total,
{
    let raw = raw_ranges(bps, total);
    assert(wf_ranges(raw)) by {
        assert forall|i: int, j: int| 0 <= i < j < raw.len() implies (#[trigger] raw[i]).slide
            != (#[trigger] raw[j]).slide by {
            assert(raw[i].slide == bps[i].slide && raw[j].slide == bps[j].slide);
        }
    }
    lemma_upsert_all_distinct(Seq::empty(), raw);
    assert(ranges_spec(bps, total) =~= raw);
}

proof fn lemma_tiling_exists(rs: Seq<SlideRange>, lo: u32, hi: u32, p: u32)
    requires
        rs.len() > 0,
        rs[0].first == lo,
        forall|i: int| 0 <= i < rs.len() ==> (#[trigger] rs[i]).first <= rs[i].last,
        forall|i: int|
            0 <= i < rs.len() - 1 ==> (#[trigger] rs[i + 1]).first == rs[i].last + 1,
        rs[rs.len() - 1].last == hi,
        lo <= p <= hi,
    ensures
        exists|i: int| 0 <= i < rs.len() && (#[trigger] rs[i]).first <= p && p <= rs[i].last,
    decreases rs.len(),
{
    if p <= rs[0].last {
        assert(rs[0].first <= p && p <= rs[0].last);
    } else {
        let tail = rs.drop_first();
        assert(rs.len() > 1);
        assert forall|i: int| 0 <= i < tail.len() - 1 implies (#[trigger] tail[i + 1]).first
            == tail[i].last + 1 by {
            assert(tail[i] == rs[i + 1] && tail[i + 1] == rs[i + 2]);
        }
        assert(tail[0] == rs[1]);
        assert(tail[tail.len() - 1] == rs[rs.len() - 1]);
        lemma_tiling_exists(tail, rs[1].first, hi, p);
        let j = choose|j: int|
            0 <= j < tail.len() && (#[trigger] tail[j]).first <= p && p <= tail[j].last;
        assert(tail[j] == rs[j + 1]);
        assert(rs[j + 1].first <= p && p <= rs[j + 1].last);
    }
}

proof fn lemma_last_increasing(rs: Seq<SlideRange>, i: int, j: int)
    requires
        forall|k: int| 0 <= k < rs.len() ==> (#[trigger] rs[k]).first <= rs[k].last,
        forall|k: int|
            0 <= k < rs.len() - 1 ==> (#[trigger] rs[k]).last + 1 == rs[k + 1].first,
        0 <= i < j < rs.len(),
    ensures
        rs[i].last < rs[j].first,
    decreases j - i,
{
    if j == i + 1 {
        assert(rs[i].last + 1 == rs[i + 1].first);
    } else {
        lemma_last_increasing(rs, i, j - 1);
        assert(rs[j - 1].last + 1 == rs[j].first);
    }
}

/// LAW: the spans of a tiling — starting at page 1, each following right
/// after the previous, ending at `total` — hold every page of [1, total] in
/// exactly one range: their union is all pages, without gaps or overlaps.
pub proof fn lemma_spans_partition(rs: Seq<SlideRange>, total: u32, p: u32)
    requires
        rs.len() > 0,
        rs[0].first == 1,
        forall|i: int| 0 <= i < rs.len() ==> (#[trigger] rs[i]).first <= rs[i].last,
        forall|i: int|
            0 <= i < rs.len() - 1 ==> (#[trigger] rs[i + 1]).first == rs[i].last + 1,
        rs[rs.len() - 1].last == total,
        1 <= p <= total,
    ensures
        exists|i: int| 0 <= i < rs.len() && (#[trigger] rs[i]).first <= p && p <= rs[i].last,
        forall|i: int, j: int|
            0 <= i < rs.len() && 0 <= j < rs.len() && (#[trigger] rs[i]).first <= p && p
                <= rs[i].last && (#[trigger] rs[j]).first <= p && p <= rs[j].last ==> i == j,
{
    lemma_tiling_exists(rs, 1, total, p);
    assert forall|i: int, j: int|
        0 <= i < rs.len() && 0 <= j < rs.len() && (#[trigger] rs[i]).first <= p && p
            <= rs[i].last && (#[trigger] rs[j]).first <= p && p <= rs[j].last implies i == j by {
        if i < j {
            lemma_last_increasing(rs, i, j);
        } else if j < i {
            lemma_last_increasing(rs, j, i);
        }
    }
}

/// LAW: when every slide range spans exactly one page and every page of the
/// document lies in some range, the keep-set is every page and the delete
/// pass removes nothing.
pub proof fn lemma_shrunk_deletes_nothing(ranges: Seq<SlideRange>, all: Seq<u32>, keep: Seq<u32>)
    requires
        forall|i: int| 0 <= i < ranges.len() ==> (#[trigger] ranges[i]).first == ranges[i].last,
        forall|p: u32| #[trigger]
            all.contains(p) ==> exists|i: int|
                0 <= i < ranges.len() && (#[trigger] ranges[i]).first <= p && p
                    <= ranges[i].last,
        forall|p: u32| #[trigger] keep.contains(p) <==> ends_of(ranges).contains(p),
    ensures
        delete_set_spec(all, keep) == Seq::<u32>::empty(),
{
    let pred = |p: u32| !keep.contains(p);
    let out = all.filter(pred);
    if out.len() > 0 {
        let p = out[0];
        all.lemma_filter_pred(pred, 0);
        all.lemma_filter_contains_rev(pred, p);
        assert(all.contains(p));
        let i = choose|i: int|
            0 <= i < ranges.len() && (#[trigger] ranges[i]).first <= p && p <= ranges[i].last;
        assert(ranges[i].last == p);
        assert(ends_of(ranges)[i] == p);
        assert(ends_of(ranges).contains(p));
        assert(false);
    }
    assert(out =~= Seq::<u32>::empty());
}

/// LAW: a second shrink changes nothing. On an already-shrunk document —
/// breakpoints at 0, 1, ..., k-1 over k pages, so every slide range spans one
/// page — the keep-set is every page and the delete-set is empty.
pub proof fn lemma_second_shrink_unchanged(
    bps: Seq<Breakpoint>,
    total: u32,
    all: Seq<u32>,
    keep: Seq<u32>,
)
    requires
        wf_breakpoints(bps, total),
        forall|i: int| 0 <= i < bps.len() ==> (#[trigger] bps[i]).start == i,
        total == bps.len(),
        forall|p: u32| #[trigger] all.contains(p) ==> 1 <= p <= total,
        forall|p: u32| #[trigger]
            keep.contains(p) <==> ends_of(ranges_spec(bps, total)).contains(p),
    ensures
        delete_set_spec(all, keep) == Seq::<u32>::empty(),
{
    lemma_extract_covers(bps, total);
    let rs = ranges_spec(bps, total);
    assert forall|i: int| 0 <= i < rs.len() implies (#[trigger] rs[i]).first == rs[i].last by {
        assert(rs[i] == range_of(bps, i, total));
    }
    assert forall|p: u32| #[trigger] all.contains(p) implies exists|i: int|
        0 <= i < rs.len() && (#[trigger] rs[i]).first <= p && p <= rs[i].last by {
        let i = p - 1;
        assert(rs[i as int] == range_of(bps, i as int, total));
        assert(rs[i as int].first <= p && p <= rs[i as int].last);
    }
    lemma_shrunk_deletes_nothing(rs, all, keep);
}

/// Insert a slide range, overwriting any range held for the same slide number.
pub fn insert_range(out: &mut Vec<SlideRange>, r: SlideRange)
    ensures
        final(out)@ == upsert(old(out)@, r),
{
    proof {
        lemma_find_slide_characterizes(old(out)@, r.slide);
    }
    let n = out.len();
    let mut i: usize = 0;
    while i < n
        invariant
            n == out@.len(),
            i <= n,
            out@ == old(out)@,
            forall|k: int| 0 <= k < i ==> (#[trigger] out@[k]).slide != r.slide,
            find_slide(old(out)@, r.slide) == -1 || 0 <= find_slide(old(out)@, r.slide)
                < old(out)@.len(),
            find_slide(old(out)@, r.slide) == -1 ==> (forall|k: int|
                0 <= k < old(out)@.len() ==> (#[trigger] old(out)@[k]).slide != r.slide),
            find_slide(old(out)@, r.slide) != -1 ==> {
                &&& old(out)@[find_slide(old(out)@, r.slide)].slide == r.slide
                &&& forall|k: int|
                    0 <= k < find_slide(old(out)@, r.slide) ==> (#[trigger] old(
                        out,
                    )@[k]).slide != r.slide
            },
        decreases n - i,
    {
        if out[i].slide == r.slide {
            proof {
                let f = find_slide(old(out)@, r.slide);
                assert(f != -1);
                assert(f == i);
            }
            out.set(i, r);
            return ;
        }
        i = i + 1;
    }
    proof {
        assert(find_slide(old(out)@, r.slide) == -1);
    }
    out.push(r);
}

/// Turn a breakpoint list (already sorted by caller when order matters) into
/// the slide-range table: each breakpoint spans up to the next one, the final
/// one up to the total page count, with last-write-wins on slide numbers.
pub fn build_ranges(bps: &Vec<Breakpoint>, total: u32) -> (r: Vec<SlideRange>)
    requires
        forall|i: int| 0 <= i < bps@.len() ==> (#[trigger] bps@[i]).start < u32::MAX,
    ensures
        r@ == ranges_spec(bps@, total),
        wf_ranges(r@),
{
    let n = bps.len();
    let mut out: Vec<SlideRange> = Vec::new();
    proof {
        assert(raw_ranges(bps@, total).take(0) =~= Seq::<SlideRange>::empty());
    }
    let mut i: usize = 0;
    while i < n
        invariant
            n == bps@.len(),
            i <= n,
            forall|k: int| 0 <= k < bps@.len() ==> (#[trigger] bps@[k]).start < u32::MAX,
            out@ == upsert_all(Seq::empty(), raw_ranges(bps@, total).take(i as int)),
        decreases n - i,
    {
        let last: u32 = if i + 1 < n {
            bps[i + 1].start
        } else {
            total
        };
        let r = SlideRange { slide: bps[i].slide, first: bps[i].start + 1, last };
        proof {
            assert(r == range_of(bps@, i as int, total));
            assert(raw_ranges(bps@, total).take(i as int + 1) =~= raw_ranges(
                bps@,
                total,
            ).take(i as int).push(r));
            lemma_upsert_all_push(
                Seq::empty(),
                raw_ranges(bps@, total).take(i as int),
                r,
            );
        }
        insert_range(&mut out, r);
        i = i + 1;
    }
    proof {
        assert(raw_ranges(bps@, total).take(n as int) =~= raw_ranges(bps@, total));
        lemma_ranges_spec_wf(bps@, total);
    }
    out
}

/// Sort breakpoints ascending by start page; the result is a permutation.
pub fn sort_breakpoints(bps: Vec<Breakpoint>) -> (r: Vec<Breakpoint>)
    ensures
        sorted_by_start(r@),
        r@.to_multiset() == bps@.to_multiset(),
        forall|k: int| 0 <= k < r@.len() ==> bps@.contains(#[trigger] r@[k]),
{
    broadcast use vstd::seq_lib::group_to_multiset_ensures;

    let mut work = bps;
    let mut out: Vec<Breakpoint> = Vec::new();
    proof {
        assert(out@.to_multiset().add(work@.to_multiset()) =~= work@.to_multiset());
    }
    while work.len() > 0
        invariant
            sorted_by_start(out@),
            out@.to_multiset().add(work@.to_multiset()) == bps@.to_multiset(),
            forall|i: int, j: int|
                0 <= i < out@.len() && 0 <= j < work@.len() ==> (#[trigger] out@[i]).start <= (
                #[trigger] work@[j]).start,
        decreases work@.len(),
    {
        // leftmost minimal start
        let mut min: usize = 0;
        let mut j: usize = 1;
        while j < work.len()
            invariant
                min < work@.len(),
                j <= work@.len(),
                work@.len() > 0,
                forall|k: int| 0 <= k < j ==> (#[trigger] work@[k]).start >= work@[min as int].start,
            decreases work@.len() - j,
        {
            if work[j].start < work[min].start {
                min = j;
            }
            j = j + 1;
        }
        let ghost prev = work@;
        let ghost prev_out = out@;
        let picked = work.remove(min);
        out.push(picked);
        proof {
            broadcast use vstd::seq_lib::group_to_multiset_ensures;

            // permutation is kept: the removed element is the pushed one
            assert(prev.remove(min as int).to_multiset() =~= prev.to_multiset().remove(picked));
            assert(out@.to_multiset() =~= prev_out.to_multiset().insert(picked));
            assert(prev.to_multiset().count(picked) > 0) by {
                assert(prev.contains(picked));
            }
            assert(out@.to_multiset().add(work@.to_multiset()) =~= prev_out.to_multiset().add(
                prev.to_multiset(),
            ));
            // every remaining element was in `prev` at an index other than `min`
            assert forall|q: int| 0 <= q < work@.len() implies picked.start <= (
            #[trigger] work@[q]).start by {
                if q < min {
                    assert(work@[q] == prev[q]);
                } else {
                    assert(work@[q] == prev[q + 1]);
                }
            }
            // `out` stays sorted: everything before the push is <= picked
            assert forall|p: int, q: int| 0 <= p <= q < out@.len() implies (
            #[trigger] out@[p]).start <= (#[trigger] out@[q]).start by {
                if q < out@.len() - 1 {
                    assert(out@[p] == prev_out[p] && out@[q] == prev_out[q]);
                } else if p < out@.len() - 1 {
                    assert(out@[p] == prev_out[p]);
                    assert(prev_out[p].start <= prev[min as int].start);
                }
            }
        }
    }
    proof {
        assert(work@.to_multiset() =~= Multiset::<Breakpoint>::empty());
        assert(out@.to_multiset().add(Multiset::<Breakpoint>::empty()) =~= out@.to_multiset());
        assert forall|k: int| 0 <= k < out@.len() implies bps@.contains(#[trigger] out@[k]) by {
            assert(out@.contains(out@[k]));
            assert(out@.to_multiset().count(out@[k]) > 0);
            assert(bps@.to_multiset().count(out@[k]) > 0);
        }
    }
    out
}

/// The page each slide keeps: the last page of its range, the final build of
/// that slide.
pub open spec fn ends_of(s: Seq<SlideRange>) -> Seq<u32> {
    s.map(|i: int, r: SlideRange| r.last)
}

/// The pages a delete pass removes: every page not kept, in document order.
pub open spec fn delete_set_spec(all: Seq<u32>, keep: Seq<u32>) -> Seq<u32> {
    all.filter(|p: u32| !keep.contains(p))
}

fn vec_contains_u32(v: &Vec<u32>, x: u32) -> (b: bool)
    ensures
        b == v@.contains(x),
{
    let n = v.len();
    let mut i: usize = 0;
    while i < n
        invariant
            i <= n,
            n == v@.len(),
            forall|k: int| 0 <= k < i ==> v@[k] != x,
        decreases n - i,
    {
        if v[i] == x {
            return true;
        }
        i = i + 1;
    }
    false
}

/// The sorted list of pages to keep: the last page of every slide range.
pub fn keep_pages(ranges: &Vec<SlideRange>) -> (r: Vec<u32>)
    ensures
        r@.to_multiset() == ends_of(ranges@).to_multiset(),
        sorted_u32(r@),
        forall|p: u32| r@.contains(p) <==> ends_of(ranges@).contains(p),
{
    broadcast use vstd::seq_lib::group_to_multiset_ensures;

    let n = ranges.len();
    let mut ends: Vec<u32> = Vec::new();
    proof {
        assert(ends@ =~= ends_of(ranges@).take(0));
    }
    let mut i: usize = 0;
    while i < n
        invariant
            i <= n,
            n == ranges@.len(),
            ends@ == ends_of(ranges@).take(i as int),
        decreases n - i,
    {
        ends.push(ranges[i].last);
        proof {
            assert(ends@ =~= ends_of(ranges@).take(i as int + 1));
        }
        i = i + 1;
    }
    proof {
        assert(ends@ =~= ends_of(ranges@));
    }
    // sort ascending, leftmost minimum first
    let mut work = ends;
    let mut out: Vec<u32> = Vec::new();
    proof {
        assert(out@.to_multiset().add(work@.to_multiset()) =~= work@.to_multiset());
    }
    while work.len() > 0
        invariant
            sorted_u32(out@),
            out@.to_multiset().add(work@.to_multiset()) == ends_of(ranges@).to_multiset(),
            forall|i2: int, j2: int|
                0 <= i2 < out@.len() && 0 <= j2 < work@.len() ==> #[trigger] out@[i2]
                    <= #[trigger] work@[j2],
        decreases work@.len(),
    {
        let mut min: usize = 0;
        let mut j: usize = 1;
        while j < work.len()
            invariant
                min < work@.len(),
                j <= work@.len(),
                work@.len() > 0,
                forall|k: int| 0 <= k < j ==> #[trigger] work@[k] >= work@[min as int],
            decreases work@.len() - j,
        {
            if work[j] < work[min] {
                min = j;
            }
            j = j + 1;
        }
        let ghost prev = work@;
        let ghost prev_out = out@;
        let picked = work.remove(min);
        out.push(picked);
        proof {
            broadcast use vstd::seq_lib::group_to_multiset_ensures;

            assert(prev.remove(min as int).to_multiset() =~= prev.to_multiset().remove(picked));
            assert(out@.to_multiset() =~= prev_out.to_multiset().insert(picked));
            assert(prev.to_multiset().count(picked) > 0) by {
                assert(prev.contains(picked));
            }
            assert(out@.to_multiset().add(work@.to_multiset()) =~= prev_out.to_multiset().add(
                prev.to_multiset(),
            ));
            assert forall|q: int| 0 <= q < work@.len() implies picked <= #[trigger] work@[q] by {
                if q < min {
                    assert(work@[q] == prev[q]);
                } else {
                    assert(work@[q] == prev[q + 1]);
                }
            }
            assert forall|p: int, q: int| 0 <= p <= q < out@.len() implies #[trigger] out@[p]
                <= #[trigger] out@[q] by {
                if q < out@.len() - 1 {
                    assert(out@[p] == prev_out[p] && out@[q] == prev_out[q]);
                } else if p < out@.len() - 1 {
                    assert(out@[p] == prev_out[p]);
                    assert(prev_out[p] <= prev[min as int]);
                }
            }
        }
    }
    proof {
        broadcast use vstd::seq_lib::group_to_multiset_ensures;

        assert(work@.to_multiset() =~= Multiset::<u32>::empty());
        assert(out@.to_multiset().add(Multiset::<u32>::empty()) =~= out@.to_multiset());
        assert forall|p: u32| out@.contains(p) <==> ends_of(ranges@).contains(p) by {
            assert(out@.contains(p) <==> out@.to_multiset().count(p) > 0);
            assert(ends_of(ranges@).contains(p) <==> ends_of(ranges@).to_multiset().count(p) > 0);
        }
    }
    out
}

/// All pages of the document that the keep list does not name, in order.
pub fn page_complement(all: &Vec<u32>, keep: &Vec<u32>) -> (r: Vec<u32>)
    ensures
        r@ == delete_set_spec(all@, keep@),
{
    let n = all.len();
    let mut out: Vec<u32> = Vec::new();
    proof {
        reveal(Seq::filter);
        assert(all@.take(0) =~= Seq::<u32>::empty());
        assert(out@ =~= all@.take(0).filter(|p: u32| !keep@.contains(p)));
    }
    let mut i: usize = 0;
    while i < n
        invariant
            i <= n,
            n == all@.len(),
            out@ == all@.take(i as int).filter(|p: u32| !keep@.contains(p)),
        decreases n - i,
    {
        let p = all[i];
        let is_kept = vec_contains_u32(keep, p);
        proof {
            reveal(Seq::filter);
            assert(all@.take(i as int + 1).drop_last() =~= all@.take(i as int));
            assert(all@.take(i as int + 1).last() == all@[i as int]);
        }
        if !is_kept {
            out.push(p);
        }
        i = i + 1;
    }
    proof {
        assert(all@.take(n as int) =~= all@);
    }
    out
}

} // verus!
