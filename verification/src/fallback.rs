use vstd::prelude::*;
use crate::decode::{parse_label_units, parse_units};
use crate::ranges::sorted_u32;

verus! {

// The text heuristic used when no page-numbering metadata exists: each page's
// extracted text ends in an "N/M" footer. Scanning the whole text for those
// footers gives one slide number per physical page in order; pages are then
// grouped by slide number and each group keeps only its last physical page —
// the build pages of a slide come before its final version.

/// Whitespace inside and after a footer: space, tab, and the line-break
/// control characters.
pub open spec fn is_sep_ws(b: u8) -> bool {
    b == 0x20 || b == 0x09 || b == 0x0A || b == 0x0B || b == 0x0C || b == 0x0D
}

pub open spec fn is_digit_byte(b: u8) -> bool {
    0x30 <= b && b <= 0x39
}

pub open spec fn digit_pred() -> spec_fn(u8) -> bool {
    |b: u8| is_digit_byte(b)
}

pub open spec fn ws_pred() -> spec_fn(u8) -> bool {
    |b: u8| is_sep_ws(b)
}

/// End of the maximal run satisfying `pred` that begins at `i`.
pub open spec fn run_end(s: Seq<u8>, i: int, pred: spec_fn(u8) -> bool) -> int
    decreases s.len() - i,
{
    if 0 <= i < s.len() && pred(s[i]) {
        run_end(s, i + 1, pred)
    } else {
        i
    }
}

/// Position just after the last newline in s[a..b), or -1 when none is there.
pub open spec fn after_last_newline(s: Seq<u8>, a: int, b: int) -> int
    decreases b - a,
{
    if b <= a {
        -1
    } else if s[b - 1] == 0x0A {
        b
    } else {
        after_last_newline(s, a, b - 1)
    }
}

proof fn lemma_run_end_ge(s: Seq<u8>, i: int, pred: spec_fn(u8) -> bool)
    ensures
        run_end(s, i, pred) >= i,
    decreases s.len() - i,
{
    if 0 <= i < s.len() && pred(s[i]) {
        lemma_run_end_ge(s, i + 1, pred);
    }
}

pub open spec fn units_of(s: Seq<u8>) -> Seq<u16> {
    s.map(|i: int, b: u8| b as u16)
}

/// A footer match at position `i`: a digit run, optional whitespace, a slash,
/// optional whitespace, a digit run, closed by a newline-bearing whitespace
/// run or by the end of the text. Yields the first digit group's value (None
/// when it is no unsigned 32-bit number) and the position scanning resumes
/// at: after the closing newline, or the end of the text.
pub open spec fn footer_match(s: Seq<u8>, i: int) -> Option<(Option<u32>, int)> {
    if !(0 <= i < s.len() && is_digit_byte(s[i])) {
        None
    } else {
        let d1e = run_end(s, i, digit_pred());
        let w1 = run_end(s, d1e, ws_pred());
        if !(w1 < s.len() && s[w1] == 0x2F) {
            None
        } else {
            let w2 = run_end(s, w1 + 1, ws_pred());
            if !(w2 < s.len() && is_digit_byte(s[w2])) {
                None
            } else {
                let d2e = run_end(s, w2, digit_pred());
                let v = parse_label_units(units_of(s.subrange(i, d1e)));
                if d2e == s.len() {
                    Some((v, d2e))
                } else {
                    let w3 = run_end(s, d2e, ws_pred());
                    let t = after_last_newline(s, d2e, w3);
                    if t >= 0 {
                        Some((v, t))
                    } else {
                        None
                    }
                }
            }
        }
    }
}

/// Every footer of the text from `pos` on, scanned left to right without
/// overlap: one entry per match, None standing for a first digit group that
/// is no unsigned 32-bit number.
pub open spec fn footers_from(s: Seq<u8>, pos: int) -> Seq<Option<u32>>
    decreases s.len() - pos,
{
    if !(0 <= pos < s.len()) {
        Seq::empty()
    } else {
        match footer_match(s, pos) {
            None => footers_from(s, pos + 1),
            Some((v, next)) => seq![v] + footers_from(
                s,
                if pos < next <= s.len() {
                    next
                } else {
                    pos + 1
                },
            ),
        }
    }
}

/// Page index `i` survives grouping: its slide number parsed and no later
/// page carries the same slide number.
pub open spec fn is_kept_index(nums: Seq<Option<u32>>, i: int) -> bool {
    &&& nums[i] is Some
    &&& forall|j: int| i < j < nums.len() ==> nums[j] != nums[i]
}

/// The 1-indexed physical pages the heuristic keeps: the last page of every
/// slide-number group, capped at the document's page count.
pub open spec fn kept_pages_spec(nums: Seq<Option<u32>>, page_count: u32) -> Seq<u32> {
    let m = if nums.len() <= page_count {
        nums.len() as int
    } else {
        page_count as int
    };
    Seq::new(m as nat, |i: int| (i + 1) as u32).filter(|p: u32| is_kept_index(nums, p - 1))
}

fn digit_run(text: &[u8], i: usize) -> (j: usize)
    requires
        i <= text@.len(),
    ensures
        i <= j <= text@.len(),
        j == run_end(text@, i as int, digit_pred()),
{
    let n = text.len();
    let mut j = i;
    loop
        invariant
            i <= j <= n,
            n == text@.len(),
            run_end(text@, i as int, digit_pred()) == run_end(text@, j as int, digit_pred()),
        ensures
            i <= j <= text@.len(),
            j == run_end(text@, i as int, digit_pred()),
        decreases n - j,
    {
        if j == n {
            break ;
        }
        let b = text[j];
        if !(0x30 <= b && b <= 0x39) {
            break ;
        }
        j = j + 1;
    }
    j
}

fn ws_run(text: &[u8], i: usize) -> (j: usize)
    requires
        i <= text@.len(),
    ensures
        i <= j <= text@.len(),
        j == run_end(text@, i as int, ws_pred()),
{
    let n = text.len();
    let mut j = i;
    loop
        invariant
            i <= j <= n,
            n == text@.len(),
            run_end(text@, i as int, ws_pred()) == run_end(text@, j as int, ws_pred()),
        ensures
            i <= j <= text@.len(),
            j == run_end(text@, i as int, ws_pred()),
        decreases n - j,
    {
        if j == n {
            break ;
        }
        let b = text[j];
        if !(b == 0x20 || b == 0x09 || b == 0x0A || b == 0x0B || b == 0x0C || b == 0x0D) {
            break ;
        }
        j = j + 1;
    }
    j
}

fn last_newline_end(text: &[u8], a: usize, b: usize) -> (r: Option<usize>)
    requires
        a <= b <= text@.len(),
    ensures
        match r {
            Some(t) => a < t <= b && after_last_newline(text@, a as int, b as int) == t,
            None => after_last_newline(text@, a as int, b as int) == -1,
        },
{
    let mut k = b;
    loop
        invariant
            a <= k <= b,
            b <= text@.len(),
            after_last_newline(text@, a as int, b as int) == after_last_newline(
                text@,
                a as int,
                k as int,
            ),
        ensures
            a <= k <= b,
            after_last_newline(text@, a as int, b as int) == after_last_newline(
                text@,
                a as int,
                k as int,
            ),
            k == a || text@[k as int - 1] == 0x0A,
        decreases k,
    {
        if k == a {
            break ;
        }
        if text[k - 1] == 0x0A {
            break ;
        }
        k = k - 1;
    }
    if k == a {
        None
    } else {
        Some(k)
    }
}

/// Match one footer at position `i` of the text.
fn match_footer(text: &[u8], i: usize) -> (r: Option<(Option<u32>, usize)>)
    requires
        i < text@.len(),
    ensures
        match r {
            Some((v, next)) => {
                &&& footer_match(text@, i as int) == Some((v, next as int))
                &&& i < next <= text@.len()
            },
            None => footer_match(text@, i as int) is None,
        },
{
    let n = text.len();
    let b0 = text[i];
    if !(0x30 <= b0 && b0 <= 0x39) {
        return None;
    }
    let d1e = digit_run(text, i);
    let w1 = ws_run(text, d1e);
    if !(w1 < n && text[w1] == 0x2F) {
        return None;
    }
    let w2 = ws_run(text, w1 + 1);
    if w2 == n {
        return None;
    }
    let b2 = text[w2];
    if !(0x30 <= b2 && b2 <= 0x39) {
        return None;
    }
    let d2e = digit_run(text, w2);
    proof {
        assert(run_end(text@, w2 as int, digit_pred()) == run_end(
            text@,
            w2 as int + 1,
            digit_pred(),
        ));
        lemma_run_end_ge(text@, w2 as int + 1, digit_pred());
        assert(d2e > w2);
        assert(w2 >= i + 1);
    }
    // first digit group's value
    let mut units: Vec<u16> = Vec::new();
    let mut k = i;
    proof {
        assert(units@ =~= units_of(text@.subrange(i as int, i as int)));
    }
    while k < d1e
        invariant
            i <= k <= d1e <= text@.len(),
            units@ == units_of(text@.subrange(i as int, k as int)),
        decreases d1e - k,
    {
        units.push(text[k] as u16);
        proof {
            assert(units@ =~= units_of(text@.subrange(i as int, k as int + 1)));
        }
        k = k + 1;
    }
    let v = parse_units(&units);
    if d2e == n {
        return Some((v, d2e));
    }
    let w3 = ws_run(text, d2e);
    match last_newline_end(text, d2e, w3) {
        Some(t) => Some((v, t)),
        None => None,
    }
}

/// Scan the whole extracted text for page footers, in order: one slide
/// number per recognized page.
pub fn scan_footers(text: &[u8]) -> (r: Vec<Option<u32>>)
    ensures
        r@ == footers_from(text@, 0),
{
    let n = text.len();
    let mut out: Vec<Option<u32>> = Vec::new();
    let mut pos: usize = 0;
    proof {
        assert(out@ + footers_from(text@, 0) =~= footers_from(text@, 0));
    }
    while pos < n
        invariant
            pos <= n,
            n == text@.len(),
            footers_from(text@, 0) == out@ + footers_from(text@, pos as int),
        decreases n - pos,
    {
        match match_footer(text, pos) {
            None => {
                proof {
                    assert(footers_from(text@, pos as int) == footers_from(
                        text@,
                        pos as int + 1,
                    ));
                }
                pos = pos + 1;
            },
            Some((v, next)) => {
                let ghost old_out = out@;
                out.push(v);
                proof {
                    assert(footers_from(text@, pos as int) == seq![v] + footers_from(
                        text@,
                        next as int,
                    ));
                    assert(out@ + footers_from(text@, next as int) =~= old_out + footers_from(
                        text@,
                        pos as int,
                    ));
                }
                pos = next;
            },
        }
    }
    proof {
        assert(footers_from(text@, pos as int) =~= Seq::<Option<u32>>::empty());
        assert(out@ + Seq::<Option<u32>>::empty() =~= out@);
    }
    out
}

fn opt_u32_eq(a: Option<u32>, b: Option<u32>) -> (r: bool)
    ensures
        r == (a == b),
{
    match (a, b) {
        (Some(x), Some(y)) => x == y,
        (None, None) => true,
        _ => false,
    }
}

/// The pages the heuristic keeps, 1-indexed and ascending: for every slide
/// number, the last page whose footer carries it, capped at the page count.
pub fn fallback_keep_pages(nums: &Vec<Option<u32>>, page_count: u32) -> (r: Vec<u32>)
    ensures
        r@ == kept_pages_spec(nums@, page_count),
        sorted_u32(r@),
{
    let n = nums.len();
    let m: usize = if n <= page_count as usize {
        n
    } else {
        page_count as usize
    };
    let ghost base = Seq::new(m as nat, |q: int| (q + 1) as u32);
    let ghost pred = (|p: u32| is_kept_index(nums@, p - 1));
    let mut out: Vec<u32> = Vec::new();
    proof {
        reveal(Seq::filter);
        assert(base.take(0) =~= Seq::<u32>::empty());
        assert(out@ =~= base.take(0).filter(pred));
    }
    let mut i: usize = 0;
    while i < m
        invariant
            i <= m,
            m <= n,
            m <= page_count as usize,
            n == nums@.len(),
            base == Seq::new(m as nat, |q: int| (q + 1) as u32),
            pred == (|p: u32| is_kept_index(nums@, p - 1)),
            out@ == base.take(i as int).filter(pred),
            sorted_u32(out@),
            forall|k: int| 0 <= k < out@.len() ==> #[trigger] out@[k] <= i as u32,
        decreases m - i,
    {
        // does any later page carry the same slide number?
        let mut kept: bool = nums[i].is_some();
        let mut j: usize = i + 1;
        while j < n
            invariant
                i < j <= n,
                i < m <= n,
                n == nums@.len(),
                kept == (nums@[i as int] is Some && forall|q: int|
                    i < q < j ==> nums@[q] != nums@[i as int]),
            decreases n - j,
        {
            if opt_u32_eq(nums[j], nums[i]) {
                if nums[i].is_some() {
                    kept = false;
                }
            }
            j = j + 1;
        }
        proof {
            assert(kept == is_kept_index(nums@, i as int));
            reveal(Seq::filter);
            assert(base.take(i as int + 1).drop_last() =~= base.take(i as int));
            assert(base.take(i as int + 1).last() == (i + 1) as u32);
        }
        if kept {
            out.push((i + 1) as u32);
        }
        i = i + 1;
    }
    proof {
        assert(base.take(m as int) =~= base);
    }
    out
}

/// The whole heuristic: scan the extracted text for "N/M" page footers, group
/// pages by slide number N, and keep the last page of every group.
pub fn footer_slide_pages(text: &[u8], page_count: u32) -> (r: Vec<u32>)
    ensures
        r@ == kept_pages_spec(footers_from(text@, 0), page_count),
        sorted_u32(r@),
{
    let nums = scan_footers(text);
    fallback_keep_pages(&nums, page_count)
}

} // verus!
