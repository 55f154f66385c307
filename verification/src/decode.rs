use vstd::prelude::*;

verus! {

// A page-label prefix is a PDF string: either UTF-16BE (when it opens with the
// big-endian byte-order mark 0xFE 0xFF) or a single-byte text string. The label
// value is the unsigned integer left after trimming whitespace from the decoded
// text. Everything here is stated over sequences of 16-bit code units.

/// Whitespace code points that trimming removes: the White_Space set within the
/// basic multilingual plane.
pub open spec fn is_label_ws(c: u16) -> bool {
    ||| (0x09 <= c && c <= 0x0D)
    ||| c == 0x20
    ||| c == 0x85
    ||| c == 0xA0
    ||| c == 0x1680
    ||| (0x2000 <= c && c <= 0x200A)
    ||| c == 0x2028
    ||| c == 0x2029
    ||| c == 0x202F
    ||| c == 0x205F
    ||| c == 0x3000
}

pub open spec fn is_dec_digit(c: u16) -> bool {
    0x30 <= c && c <= 0x39
}

pub open spec fn all_dec_digits(s: Seq<u16>) -> bool {
    forall|i: int| 0 <= i < s.len() ==> is_dec_digit(#[trigger] s[i])
}

/// Value of a digit string, most significant digit first.
pub open spec fn digits_value(s: Seq<u16>) -> int
    decreases s.len(),
{
    if s.len() == 0 {
        0
    } else {
        digits_value(s.drop_last()) * 10 + (s.last() - 0x30)
    }
}

pub open spec fn trim_front(s: Seq<u16>) -> Seq<u16>
    decreases s.len(),
{
    if s.len() > 0 && is_label_ws(s[0]) {
        trim_front(s.subrange(1, s.len() as int))
    } else {
        s
    }
}

pub open spec fn trim_back(s: Seq<u16>) -> Seq<u16>
    decreases s.len(),
{
    if s.len() > 0 && is_label_ws(s.last()) {
        trim_back(s.drop_last())
    } else {
        s
    }
}

pub open spec fn trimmed(s: Seq<u16>) -> Seq<u16> {
    trim_back(trim_front(s))
}

/// What unsigned-integer parsing yields on an already-trimmed code-unit
/// sequence: an optional leading plus sign, then one or more decimal digits
/// whose value fits in a u32; anything else fails.
pub open spec fn parse_trimmed_units(s: Seq<u16>) -> Option<u32> {
    let digits = if s.len() > 0 && s[0] == 0x2B {
        s.subrange(1, s.len() as int)
    } else {
        s
    };
    if digits.len() > 0 && all_dec_digits(digits) && digits_value(digits) <= u32::MAX {
        Some(digits_value(digits) as u32)
    } else {
        None
    }
}

/// Trim, then parse: the label value of a decoded code-unit sequence.
pub open spec fn parse_label_units(s: Seq<u16>) -> Option<u32> {
    parse_trimmed_units(trimmed(s))
}

pub open spec fn has_utf16_bom(bytes: Seq<u8>) -> bool {
    bytes.len() >= 2 && bytes[0] == 0xFE && bytes[1] == 0xFF
}

/// Big-endian 16-bit code units of the bytes after the byte-order mark; a
/// trailing odd byte is dropped.
pub open spec fn be_units(bytes: Seq<u8>) -> Seq<u16> {
    Seq::new(
        (if bytes.len() >= 2 { (bytes.len() - 2) / 2 } else { 0 }) as nat,
        |i: int| ((bytes[2 + 2 * i] as int) * 256 + (bytes[2 + 2 * i + 1] as int)) as u16,
    )
}

/// A surrogate code unit makes the sequence ill-formed UTF-16.
pub open spec fn has_surrogate(s: Seq<u16>) -> bool {
    exists|i: int| 0 <= i < s.len() && 0xD800 <= #[trigger] s[i] && s[i] <= 0xDFFF
}

/// The exact result of decoding a label byte string to an unsigned integer:
/// UTF-16BE when the byte-order mark leads (failing on ill-formed UTF-16),
/// single-byte text otherwise; then trim whitespace and parse.
pub open spec fn decode_label_spec(bytes: Seq<u8>) -> Option<u32> {
    if has_utf16_bom(bytes) {
        if has_surrogate(be_units(bytes)) {
            None
        } else {
            parse_label_units(be_units(bytes))
        }
    } else {
        parse_label_units(bytes.map(|i: int, b: u8| b as u16))
    }
}

fn is_ws_unit(c: u16) -> (r: bool)
    ensures
        r == is_label_ws(c),
{
    (0x09 <= c && c <= 0x0D) || c == 0x20 || c == 0x85 || c == 0xA0 || c == 0x1680 || (0x2000 <= c
        && c <= 0x200A) || c == 0x2028 || c == 0x2029 || c == 0x202F || c == 0x205F || c == 0x3000
}

proof fn lemma_digits_value_nonneg(s: Seq<u16>)
    requires
        all_dec_digits(s),
    ensures
        digits_value(s) >= 0,
    decreases s.len(),
{
    if s.len() > 0 {
        assert(all_dec_digits(s.drop_last()));
        lemma_digits_value_nonneg(s.drop_last());
    }
}

/// A digit string's value only grows as digits are appended.
proof fn lemma_digits_value_take_le(s: Seq<u16>, k: int)
    requires
        all_dec_digits(s),
        0 <= k <= s.len(),
    ensures
        digits_value(s.take(k)) <= digits_value(s),
    decreases s.len() - k,
{
    if k == s.len() {
        assert(s.take(k) =~= s);
    } else {
        lemma_digits_value_take_le(s, k + 1);
        assert(s.take(k + 1).drop_last() =~= s.take(k));
        assert(all_dec_digits(s.take(k)));
        lemma_digits_value_nonneg(s.take(k));
        assert(digits_value(s.take(k + 1)) == digits_value(s.take(k)) * 10 + (s[k] - 0x30));
        assert(digits_value(s.take(k)) * 10 >= digits_value(s.take(k)));
    }
}

/// Index past the leading whitespace of `units`.
fn skip_ws_front(units: &Vec<u16>) -> (lo: usize)
    ensures
        lo <= units@.len(),
        trim_front(units@) == units@.skip(lo as int),
{
    let n = units.len();
    let mut lo: usize = 0;
    proof {
        assert(units@.skip(0) =~= units@);
    }
    loop
        invariant
            lo <= n,
            n == units@.len(),
            trim_front(units@) == trim_front(units@.skip(lo as int)),
        ensures
            lo <= units@.len(),
            trim_front(units@) == units@.skip(lo as int),
        decreases n - lo,
    {
        if lo == n {
            assert(units@.skip(lo as int) =~= Seq::<u16>::empty());
            break ;
        }
        assert(units@.skip(lo as int)[0] == units@[lo as int]);
        if !is_ws_unit(units[lo]) {
            break ;
        }
        proof {
            assert(units@.skip(lo as int).subrange(1, units@.skip(lo as int).len() as int)
                =~= units@.skip(lo as int + 1));
        }
        lo = lo + 1;
    }
    lo
}

/// Index before the trailing whitespace of `units`, never under `lo`.
fn skip_ws_back(units: &Vec<u16>, lo: usize) -> (hi: usize)
    requires
        lo <= units@.len(),
    ensures
        lo <= hi <= units@.len(),
        trim_back(units@.skip(lo as int)) == units@.subrange(lo as int, hi as int),
{
    let n = units.len();
    let mut hi: usize = n;
    proof {
        assert(units@.subrange(lo as int, n as int) =~= units@.skip(lo as int));
    }
    loop
        invariant
            lo <= hi <= n,
            n == units@.len(),
            trim_back(units@.skip(lo as int)) == trim_back(
                units@.subrange(lo as int, hi as int),
            ),
        ensures
            lo <= hi <= units@.len(),
            trim_back(units@.skip(lo as int)) == units@.subrange(lo as int, hi as int),
        decreases hi,
    {
        if hi == lo {
            assert(units@.subrange(lo as int, hi as int) =~= Seq::<u16>::empty());
            break ;
        }
        assert(units@.subrange(lo as int, hi as int).last() == units@[hi - 1]);
        if !is_ws_unit(units[hi - 1]) {
            break ;
        }
        proof {
            assert(units@.subrange(lo as int, hi as int).drop_last() =~= units@.subrange(
                lo as int,
                hi as int - 1,
            ));
        }
        hi = hi - 1;
    }
    hi
}

/// Trim whitespace from a code-unit sequence and parse it as an unsigned
/// integer; `None` exactly when the trimmed text is not a number that fits.
#[verifier::loop_isolation(false)]
pub fn parse_units(units: &Vec<u16>) -> (r: Option<u32>)
    ensures
        r == parse_label_units(units@),
{
    let lo = skip_ws_front(units);
    let hi = skip_ws_back(units, lo);
    let ghost t = trimmed(units@);
    proof {
        assert(t == units@.subrange(lo as int, hi as int));
    }
    // optional plus sign
    let start: usize = if lo < hi && units[lo] == 0x2B {
        lo + 1
    } else {
        lo
    };
    let ghost digits = if t.len() > 0 && t[0] == 0x2B {
        t.subrange(1, t.len() as int)
    } else {
        t
    };
    proof {
        assert(digits =~= units@.subrange(start as int, hi as int));
    }
    if start == hi {
        return None;
    }
    let mut acc: u64 = 0;
    let mut j: usize = start;
    proof {
        assert(digits.take(0) =~= Seq::<u16>::empty());
        assert(all_dec_digits(digits.take(0)));
        assert(digits_value(digits.take(0)) == 0);
    }
    while j < hi
        invariant
            start <= j <= hi <= units@.len(),
            all_dec_digits(digits.take(j - start)),
            acc == digits_value(digits.take(j - start)),
            acc <= u32::MAX,
        decreases hi - j,
    {
        let c = units[j];
        assert(digits[j - start] == units@[j as int]);
        if !(0x30 <= c && c <= 0x39) {
            proof {
                assert(!is_dec_digit(digits[j - start]));
                assert(!all_dec_digits(digits));
            }
            return None;
        }
        proof {
            assert(digits.take(j - start + 1).drop_last() =~= digits.take(j - start));
            assert(digits.take(j - start + 1).last() == digits[j - start]);
        }
        let d: u64 = (c - 0x30) as u64;
        let next: u64 = acc * 10 + d;
        proof {
            assert(next == digits_value(digits.take(j - start + 1)));
        }
        if next > 0xFFFF_FFFF {
            proof {
                assert(is_dec_digit(digits[j - start]));
                assert(all_dec_digits(digits.take(j - start + 1)));
                if all_dec_digits(digits) {
                    lemma_digits_value_take_le(digits, j - start + 1);
                    assert(digits_value(digits) > u32::MAX);
                }
            }
            return None;
        }
        acc = next;
        j = j + 1;
    }
    proof {
        assert(digits.take(j - start) =~= digits);
        assert(digits.len() > 0);
    }
    Some(acc as u32)
}

/// Decode a page-label byte string to its unsigned numeric value, reading it
/// as UTF-16BE when it opens with the byte-order mark and as single-byte text
/// otherwise.
#[verifier::loop_isolation(false)]
pub fn decode_utf16_bytes(bytes: &[u8]) -> (r: Option<u32>)
    ensures
        r == decode_label_spec(bytes@),
{
    let n = bytes.len();
    if n >= 2 && bytes[0] == 0xFE && bytes[1] == 0xFF {
        let m = (n - 2) / 2;
        let mut units: Vec<u16> = Vec::new();
        let mut k: usize = 0;
        proof {
            assert(units@ =~= be_units(bytes@).take(0));
        }
        while k < m
            invariant
                m == (bytes@.len() - 2) / 2,
                n == bytes@.len(),
                bytes@.len() >= 2,
                k <= m,
                units@ == be_units(bytes@).take(k as int),
            decreases m - k,
        {
            proof {
                assert(2 * ((n - 2) / 2) <= n - 2) by (nonlinear_arith)
                    requires
                        n >= 2,
                ;
                assert(2 + 2 * k + 1 < n);
            }
            let hi8 = bytes[2 + 2 * k];
            let lo8 = bytes[2 + 2 * k + 1];
            let u: u16 = (hi8 as u16) * 256 + (lo8 as u16);
            units.push(u);
            proof {
                assert(units@ =~= be_units(bytes@).take(k as int + 1));
            }
            k = k + 1;
        }
        proof {
            assert(units@ =~= be_units(bytes@));
        }
        let mut i: usize = 0;
        while i < units.len()
            invariant
                units@ == be_units(bytes@),
                i <= units@.len(),
                forall|q: int|
                    0 <= q < i ==> !(0xD800 <= #[trigger] units@[q] && units@[q] <= 0xDFFF),
            decreases units@.len() - i,
        {
            let u = units[i];
            if 0xD800 <= u && u <= 0xDFFF {
                proof {
                    assert(has_surrogate(be_units(bytes@)));
                }
                return None;
            }
            i = i + 1;
        }
        proof {
            assert(!has_surrogate(be_units(bytes@)));
        }
        parse_units(&units)
    } else {
        let mut units: Vec<u16> = Vec::new();
        let mut i: usize = 0;
        while i < n
            invariant
                n == bytes@.len(),
                i <= n,
                units@ == bytes@.map(|q: int, b: u8| b as u16).take(i as int),
            decreases n - i,
        {
            units.push(bytes[i] as u16);
            proof {
                assert(units@ =~= bytes@.map(|q: int, b: u8| b as u16).take(i as int + 1));
            }
            i = i + 1;
        }
        proof {
            assert(units@ =~= bytes@.map(|q: int, b: u8| b as u16));
        }
        parse_units(&units)
    }
}

} // verus!
