//! Parsing of raw benchmark output into timing samples.
//!
//! The wire protocol: every output line that is exactly a base-10
//! non-negative integer (optionally surrounded by whitespace, optionally
//! with one leading `+`) is one sample; every other line is silently
//! dropped. Order is kept. Whitespace here is every character Unicode
//! marks White_Space, as its UTF-8 bytes: what trimming a decoded line
//! would remove.

use vstd::prelude::*;

verus! {

use vstd::arithmetic::div_mod::lemma_fundamental_div_mod;

/// A one-byte whitespace character: space, tab, line feed, vertical tab,
/// form feed, carriage return.
pub open spec fn is_space(b: u8) -> bool {
    b == 0x20 || (0x09 <= b <= 0x0d)
}

/// A two-byte whitespace character: next line (U+0085), no-break space
/// (U+00A0).
pub open spec fn is_space_pair(a: u8, b: u8) -> bool {
    a == 0xc2 && (b == 0x85 || b == 0xa0)
}

/// A three-byte whitespace character: ogham space mark (U+1680), the en
/// quad to hair space range (U+2000..U+200A), line and paragraph
/// separators (U+2028, U+2029), narrow no-break space (U+202F), medium
/// mathematical space (U+205F), ideographic space (U+3000).
pub open spec fn is_space_triple(a: u8, b: u8, c: u8) -> bool {
    ||| a == 0xe1 && b == 0x9a && c == 0x80
    ||| a == 0xe2 && b == 0x80 && (0x80 <= c <= 0x8a || c == 0xa8 || c == 0xa9 || c == 0xaf)
    ||| a == 0xe2 && b == 0x81 && c == 0x9f
    ||| a == 0xe3 && b == 0x80 && c == 0x80
}

/// An ASCII decimal digit.
pub open spec fn is_digit(b: u8) -> bool {
    0x30 <= b <= 0x39
}

/// The byte length of the whitespace character the sequence starts with,
/// 0 if it starts with none.
pub open spec fn ws_prefix_len(s: Seq<u8>) -> int {
    if s.len() >= 1 && is_space(s[0]) {
        1
    } else if s.len() >= 2 && is_space_pair(s[0], s[1]) {
        2
    } else if s.len() >= 3 && is_space_triple(s[0], s[1], s[2]) {
        3
    } else {
        0
    }
}

/// The byte length of the whitespace character the sequence ends with,
/// 0 if it ends with none. The three byte lengths cannot overlap: a
/// one-byte whitespace is below 0x80, and the lead bytes of the longer
/// encodings differ from every later byte of the others.
pub open spec fn ws_suffix_len(s: Seq<u8>) -> int {
    if s.len() >= 1 && is_space(s[s.len() - 1]) {
        1
    } else if s.len() >= 2 && is_space_pair(s[s.len() - 2], s[s.len() - 1]) {
        2
    } else if s.len() >= 3 && is_space_triple(s[s.len() - 3], s[s.len() - 2], s[s.len() - 1]) {
        3
    } else {
        0
    }
}

/// The sequence with its leading whitespace characters removed.
pub open spec fn trim_front(s: Seq<u8>) -> Seq<u8>
    decreases s.len(),
{
    let k = ws_prefix_len(s);
    if k > 0 {
        trim_front(s.skip(k))
    } else {
        s
    }
}

/// The sequence with its trailing whitespace characters removed.
pub open spec fn trim_back(s: Seq<u8>) -> Seq<u8>
    decreases s.len(),
{
    let k = ws_suffix_len(s);
    if k > 0 {
        trim_back(s.take(s.len() - k))
    } else {
        s
    }
}

/// The sequence with whitespace removed on both sides.
pub open spec fn trimmed(s: Seq<u8>) -> Seq<u8> {
    trim_back(trim_front(s))
}

/// One optional leading `+` removed: the digits a number is read from.
pub open spec fn unsigned_body(s: Seq<u8>) -> Seq<u8> {
    if s.len() > 0 && s[0] == 0x2b {
        s.drop_first()
    } else {
        s
    }
}

pub open spec fn all_digits(s: Seq<u8>) -> bool {
    forall|i: int| 0 <= i < s.len() ==> is_digit(#[trigger] s[i])
}

/// Numeric value of a digit string, most significant digit first.
pub open spec fn digits_value(s: Seq<u8>) -> int
    decreases s.len(),
{
    if s.len() == 0 {
        0
    } else {
        digits_value(s.drop_last()) * 10 + (s.last() - 0x30)
    }
}

/// The sample one output line yields, if any: its trimmed text must be a
/// non-empty digit string (after one optional `+`) whose value fits the
/// sample type.
pub open spec fn line_sample(line: Seq<u8>) -> Option<u128> {
    let d = unsigned_body(trimmed(line));
    if d.len() > 0 && all_digits(d) && digits_value(d) <= u128::MAX {
        Some(digits_value(d) as u128)
    } else {
        None
    }
}

/// Index of the first line feed, or the length if there is none.
pub open spec fn first_newline(s: Seq<u8>) -> int
    decreases s.len(),
{
    if s.len() == 0 {
        0
    } else if s[0] == 0x0a {
        0
    } else {
        1 + first_newline(s.drop_first())
    }
}

pub open spec fn opt_sample_seq(o: Option<u128>) -> Seq<u128> {
    match o {
        Some(v) => seq![v],
        None => Seq::empty(),
    }
}

/// All samples in a raw output: the output is split at line feeds and each
/// line contributes its sample, in output order.
pub open spec fn samples_of(out: Seq<u8>) -> Seq<u128>
    decreases out.len(),
{
    if out.len() == 0 {
        Seq::empty()
    } else {
        let i = first_newline(out);
        if 0 <= i && i < out.len() {
            opt_sample_seq(line_sample(out.take(i))) + samples_of(out.skip(i + 1))
        } else {
            opt_sample_seq(line_sample(out))
        }
    }
}

/// `first_newline` is where the scan for a line feed stops.
proof fn lemma_first_newline_at(s: Seq<u8>, k: int)
    requires
        0 <= k <= s.len(),
        forall|m: int| 0 <= m < k ==> #[trigger] s[m] != 0x0a,
        k == s.len() || s[k] == 0x0a,
    ensures
        first_newline(s) == k,
    decreases k,
{
    if k == 0 {
    } else {
        let d = s.drop_first();
        assert(forall|m: int| 0 <= m < k - 1 ==> #[trigger] d[m] != 0x0a);
        lemma_first_newline_at(d, k - 1);
    }
}

/// A digit string's value only grows as more digits follow.
proof fn lemma_digits_value_monotone(s: Seq<u8>, i: int)
    requires
        0 <= i <= s.len(),
        all_digits(s),
    ensures
        digits_value(s.take(i)) <= digits_value(s),
        digits_value(s) >= 0,
    decreases s.len() - i,
{
    lemma_digits_value_nonneg(s.take(i));
    if i == s.len() {
        assert(s.take(i) =~= s);
        lemma_digits_value_nonneg(s);
    } else {
        lemma_digits_value_monotone(s, i + 1);
        let t = s.take(i + 1);
        assert(t.drop_last() =~= s.take(i));
        assert(digits_value(t) == digits_value(s.take(i)) * 10 + (s[i] - 0x30));
        lemma_digits_value_nonneg(s.take(i));
        assert(digits_value(s.take(i)) * 10 >= digits_value(s.take(i))) by (nonlinear_arith)
            requires
                digits_value(s.take(i)) >= 0;
    }
}

proof fn lemma_digits_value_nonneg(s: Seq<u8>)
    requires
        forall|i: int| 0 <= i < s.len() ==> is_digit(#[trigger] s[i]),
    ensures
        digits_value(s) >= 0,
    decreases s.len(),
{
    if s.len() > 0 {
        let d = s.drop_last();
        assert(forall|i: int| 0 <= i < d.len() ==> is_digit(#[trigger] d[i]));
        lemma_digits_value_nonneg(d);
        assert(digits_value(d) * 10 >= 0) by (nonlinear_arith)
            requires
                digits_value(d) >= 0;
    }
}

fn byte_is_space(b: u8) -> (r: bool)
    ensures
        r == is_space(b),
{
    b == 0x20 || (0x09 <= b && b <= 0x0d)
}

/// Length of the whitespace character at the front of `line[lo..hi]`.
fn ws_len_front(line: &[u8], lo: usize, hi: usize) -> (k: usize)
    requires
        lo <= hi <= line@.len(),
    ensures
        k == ws_prefix_len(line@.subrange(lo as int, hi as int)),
        k <= hi - lo,
{
    let n = hi - lo;
    if n >= 1 {
        let a = line[lo];
        if byte_is_space(a) {
            return 1;
        }
        if n >= 2 {
            let b = line[lo + 1];
            if a == 0xc2 && (b == 0x85 || b == 0xa0) {
                return 2;
            }
            if n >= 3 {
                let c = line[lo + 2];
                if (a == 0xe1 && b == 0x9a && c == 0x80) || (a == 0xe2 && b == 0x80 && ((0x80 <= c
                    && c <= 0x8a) || c == 0xa8 || c == 0xa9 || c == 0xaf)) || (a == 0xe2 && b
                    == 0x81 && c == 0x9f) || (a == 0xe3 && b == 0x80 && c == 0x80) {
                    return 3;
                }
            }
        }
    }
    0
}

/// Length of the whitespace character at the back of `line[lo..hi]`.
fn ws_len_back(line: &[u8], lo: usize, hi: usize) -> (k: usize)
    requires
        lo <= hi <= line@.len(),
    ensures
        k == ws_suffix_len(line@.subrange(lo as int, hi as int)),
        k <= hi - lo,
{
    let n = hi - lo;
    if n >= 1 {
        let a = line[hi - 1];
        if byte_is_space(a) {
            return 1;
        }
        if n >= 2 {
            let b = line[hi - 2];
            if b == 0xc2 && (a == 0x85 || a == 0xa0) {
                return 2;
            }
            if n >= 3 {
                let c = line[hi - 3];
                if (c == 0xe1 && b == 0x9a && a == 0x80) || (c == 0xe2 && b == 0x80 && ((0x80 <= a
                    && a <= 0x8a) || a == 0xa8 || a == 0xa9 || a == 0xaf)) || (c == 0xe2 && b
                    == 0x81 && a == 0x9f) || (c == 0xe3 && b == 0x80 && a == 0x80) {
                    return 3;
                }
            }
        }
    }
    0
}

/// Reads one output line: `Some` sample exactly when the trimmed line is a
/// plain decimal number that fits, `None` otherwise.
pub fn parse_line(line: &[u8]) -> (r: Option<u128>)
    ensures
        r == line_sample(line@),
{
    let ghost s = line@;
    let mut lo: usize = 0;
    let mut hi: usize = line.len();
    proof {
        assert(s.subrange(0, s.len() as int) =~= s);
    }
    let mut k = ws_len_front(line, lo, hi);
    while k > 0
        invariant
            0 <= lo <= hi <= s.len(),
            s == line@,
            hi == s.len(),
            k == ws_prefix_len(s.subrange(lo as int, hi as int)),
            k <= hi - lo,
            trim_front(s) == trim_front(s.subrange(lo as int, hi as int)),
        decreases hi - lo,
    {
        proof {
            let cur = s.subrange(lo as int, hi as int);
            assert(cur.skip(k as int) =~= s.subrange(lo + k as int, hi as int));
        }
        lo += k;
        k = ws_len_front(line, lo, hi);
    }
    proof {
        assert(trim_front(s) == s.subrange(lo as int, hi as int));
    }
    let ghost f = s.subrange(lo as int, hi as int);
    let mut kb = ws_len_back(line, lo, hi);
    while kb > 0
        invariant
            0 <= lo <= hi <= s.len(),
            s == line@,
            f == trim_front(s),
            kb == ws_suffix_len(s.subrange(lo as int, hi as int)),
            kb <= hi - lo,
            trim_back(f) == trim_back(s.subrange(lo as int, hi as int)),
        decreases hi,
    {
        proof {
            let cur = s.subrange(lo as int, hi as int);
            assert(cur.take(cur.len() - kb) =~= s.subrange(lo as int, hi - kb));
        }
        hi -= kb;
        kb = ws_len_back(line, lo, hi);
    }
    proof {
        assert(trimmed(s) == s.subrange(lo as int, hi as int));
    }
    // one optional leading '+'
    let start: usize = if lo < hi && line[lo] == 0x2b {
        lo + 1
    } else {
        lo
    };
    let ghost d = unsigned_body(trimmed(s));
    proof {
        assert(d =~= s.subrange(start as int, hi as int));
    }
    if start == hi {
        return None;
    }
    let mut val: u128 = 0;
    let mut j: usize = start;
    while j < hi
        invariant
            start <= j <= hi <= s.len(),
            s == line@,
            d == unsigned_body(trimmed(s)),
            d =~= s.subrange(start as int, hi as int),
            d.len() == hi - start,
            forall|m: int| 0 <= m < j - start ==> is_digit(#[trigger] d[m]),
            val == digits_value(d.take(j - start)),
        decreases hi - j,
    {
        let b = line[j];
        proof {
            assert(d[j - start] == s[j as int]);
        }
        if b < 0x30 || b > 0x39 {
            assert(!all_digits(d));
            return None;
        }
        let dg = (b - 0x30) as u128;
        proof {
            assert(d.take(j + 1 - start).drop_last() =~= d.take(j - start));
            assert(digits_value(d.take(j + 1 - start)) == val * 10 + dg);
            lemma_fundamental_div_mod(u128::MAX - dg, 10);
        }
        if val > (u128::MAX - dg) / 10 {
            proof {
                assert(val * 10 + dg > u128::MAX) by (nonlinear_arith)
                    requires
                        val > ((u128::MAX - dg) as int) / 10,
                        u128::MAX - dg == 10 * (((u128::MAX - dg) as int) / 10) + (
                        ((u128::MAX - dg) as int) % 10),
                        ((u128::MAX - dg) as int) % 10 >= 0;
                if all_digits(d) {
                    lemma_digits_value_monotone(d, j + 1 - start);
                }
            }
            return None;
        }
        proof {
            assert(val * 10 + dg <= u128::MAX) by (nonlinear_arith)
                requires
                    val <= ((u128::MAX - dg) as int) / 10,
                    val >= 0,
                    u128::MAX - dg == 10 * (((u128::MAX - dg) as int) / 10) + (
                    ((u128::MAX - dg) as int) % 10),
                    ((u128::MAX - dg) as int) % 10 >= 0;
        }
        val = val * 10 + dg;
        j += 1;
    }
    proof {
        assert(d.take(j - start) =~= d);
    }
    Some(val)
}

/// Parses a full raw output into its samples: numeric lines in order,
/// everything else dropped.
pub fn parse_samples(out: &[u8]) -> (r: Vec<u128>)
    ensures
        r@ == samples_of(out@),
{
    let ghost s = out@;
    let mut r: Vec<u128> = Vec::new();
    let mut pos: usize = 0;
    proof {
        assert(s.skip(0) =~= s);
    }
    while pos < out.len()
        invariant
            0 <= pos <= s.len(),
            s == out@,
            samples_of(s) == r@ + samples_of(s.skip(pos as int)),
        decreases s.len() - pos,
    {
        // scan to the end of the current line
        let mut j: usize = pos;
        while j < out.len() && out[j] != 0x0a
            invariant
                pos <= j <= s.len(),
                s == out@,
                forall|m: int| pos <= m < j ==> #[trigger] s[m] != 0x0a,
            decreases s.len() - j,
        {
            j += 1;
        }
        let ghost rem = s.skip(pos as int);
        proof {
            assert(forall|m: int| 0 <= m < j - pos ==> #[trigger] rem[m] != 0x0a);
            lemma_first_newline_at(rem, j - pos);
        }
        let segment = &out[pos..j];
        let sample = parse_line(segment);
        proof {
            assert(segment@ =~= rem.take(j - pos));
            if j < out.len() {
                assert(rem.skip(j - pos + 1) =~= s.skip(j + 1 as int));
            } else {
                assert(rem.take(j - pos) =~= rem);
            }
        }
        match sample {
            Some(v) => {
                r.push(v);
                proof {
                    assert(opt_sample_seq(sample) =~= seq![v]);
                }
            },
            None => {
                proof {
                    assert(opt_sample_seq(sample) =~= Seq::<u128>::empty());
                }
            },
        }
        if j < out.len() {
            pos = j + 1;
        } else {
            pos = j;
            proof {
                assert(s.skip(pos as int) =~= Seq::<u8>::empty());
            }
        }
        proof {
            assert(samples_of(s) == r@ + samples_of(s.skip(pos as int)));
        }
    }
    proof {
        assert(s.skip(pos as int) =~= Seq::<u8>::empty());
    }
    r
}

} // verus!
