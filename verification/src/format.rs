//! Rendering of large integers with a grouping separator every three
//! digits, for human-readable report cells.

use vstd::prelude::*;

verus! {

/// The character for one decimal digit value.
pub open spec fn digit_char(d: nat) -> char {
    ((0x30 + d) as u8) as char
}

/// The decimal digits of a number, most significant first.
pub open spec fn dec_digits(n: nat) -> Seq<char>
    decreases n,
{
    if n < 10 {
        seq![digit_char(n)]
    } else {
        dec_digits(n / 10).push(digit_char(n % 10))
    }
}

/// A comma inserted every three digits, counting from the right.
pub open spec fn grouped(s: Seq<char>) -> Seq<char>
    decreases s.len(),
{
    if s.len() <= 3 {
        s
    } else {
        grouped(s.take(s.len() - 3)) + seq![','] + s.skip(s.len() - 3)
    }
}

/// What `format_number` prints: the decimal digits with separators.
pub open spec fn spec_formatted(n: u128) -> Seq<char> {
    grouped(dec_digits(n as nat))
}

/// The same text built left to right: the digit at position `p`, a comma
/// after it whenever a group of three ends there, then the rest.
spec fn with_commas_from(s: Seq<char>, p: int) -> Seq<char>
    decreases s.len() - p,
{
    if p < 0 || p >= s.len() {
        Seq::empty()
    } else {
        let rest = with_commas_from(s, p + 1);
        if s.len() - 1 - p > 0 && (s.len() - 1 - p) % 3 == 0 {
            seq![s[p]] + seq![','] + rest
        } else {
            seq![s[p]] + rest
        }
    }
}

/// Below the final group boundary the left-to-right build splits exactly
/// as `grouped` does.
proof fn lemma_with_commas_split(s: Seq<char>, p: int)
    requires
        s.len() > 3,
        0 <= p < s.len() - 3,
    ensures
        with_commas_from(s, p) == with_commas_from(s.take(s.len() - 3), p) + seq![','] + s.skip(
            s.len() - 3,
        ),
    decreases s.len() - p,
{
    let l = s.len() as int;
    let t = s.take(l - 3);
    if p == l - 4 {
        assert(with_commas_from(s, p + 1) =~= s.skip(l - 3)) by {
            assert forall|q: int| l - 3 <= q < l implies with_commas_from(s, q) =~= seq![s[q]]
                + with_commas_from(s, q + 1) by {
                assert(!((l - 1 - q) % 3 == 0 && l - 1 - q > 0));
            }
            assert(with_commas_from(s, l - 1) =~= seq![s[l - 1]]);
            assert(with_commas_from(s, l - 2) =~= seq![s[l - 2], s[l - 1]]);
            assert(with_commas_from(s, l - 3) =~= seq![s[l - 3], s[l - 2], s[l - 1]]);
            assert(s.skip(l - 3) =~= seq![s[l - 3], s[l - 2], s[l - 1]]);
        }
        assert(with_commas_from(t, p) =~= seq![t[p]]);
        assert(with_commas_from(s, p) =~= with_commas_from(t, p) + seq![','] + s.skip(l - 3));
    } else {
        lemma_with_commas_split(s, p + 1);
        assert(t[p] == s[p]);
        assert((t.len() - 1 - p) % 3 == (l - 1 - p) % 3) by {
            assert(l - 1 - p == (t.len() - 1 - p) + 3);
        }
        assert(t.len() - 1 - p > 0);
        assert(with_commas_from(s, p) =~= with_commas_from(t, p) + seq![','] + s.skip(l - 3));
    }
}

/// The left-to-right build agrees with `grouped`.
proof fn lemma_with_commas_grouped(s: Seq<char>)
    ensures
        with_commas_from(s, 0) == grouped(s),
    decreases s.len(),
{
    let l = s.len() as int;
    if l == 0 {
    } else if l <= 3 {
        assert forall|q: int| 0 <= q < l implies with_commas_from(s, q) =~= seq![s[q]]
            + with_commas_from(s, q + 1) by {
            assert(!((l - 1 - q) % 3 == 0 && l - 1 - q > 0));
        }
        if l == 1 {
            assert(with_commas_from(s, 0) =~= s);
        } else if l == 2 {
            assert(with_commas_from(s, 0) =~= s);
        } else {
            assert(with_commas_from(s, 0) =~= s);
        }
    } else {
        let t = s.take(l - 3);
        lemma_with_commas_grouped(t);
        lemma_with_commas_split(s, 0);
    }
}

/// Renders a sample with a comma between every group of three digits.
pub fn format_number(n: u128) -> (r: String)
    ensures
        r@ == spec_formatted(n),
{
    // least significant digit first
    let mut digits: Vec<char> = Vec::new();
    let ghost mut tail = Seq::<char>::empty();
    let mut m = n;
    if m == 0 {
        digits.push('0');
        proof {
            tail = seq![digit_char(0)];
            assert('0' == digit_char(0));
            assert(dec_digits(n as nat) =~= tail);
        }
    }
    while m > 0
        invariant
            m == 0 ==> n == 0 || (dec_digits(n as nat) =~= tail),
            m > 0 ==> (dec_digits(n as nat) =~= dec_digits(m as nat) + tail),
            n == 0 ==> (m == 0 && dec_digits(n as nat) =~= tail),
            tail.len() == digits@.len(),
            forall|i: int| 0 <= i < tail.len() ==> tail[i] == digits@[digits@.len() - 1 - i],
        decreases m,
    {
        let d = (m % 10) as u8;
        let c = (0x30 + d) as char;
        proof {
            assert(c == digit_char((m % 10) as nat));
            if m >= 10 {
                assert(dec_digits(m as nat) == dec_digits((m as nat) / 10).push(
                    digit_char((m as nat) % 10),
                ));
                assert(dec_digits((m / 10) as nat) + (seq![c] + tail) =~= dec_digits(m as nat)
                    + tail);
            } else {
                assert(dec_digits(m as nat) =~= seq![c]);
                assert(seq![c] + tail =~= dec_digits(m as nat) + tail);
            }
            tail = seq![c] + tail;
        }
        digits.push(c);
        m = m / 10;
    }
    proof {
        assert(dec_digits(n as nat) =~= tail);
    }
    // most significant digit first, commas at group boundaries
    let k = digits.len();
    let mut out = String::new();
    let mut p: usize = 0;
    while p < k
        invariant
            0 <= p <= k,
            k == digits@.len(),
            k == tail.len(),
            k >= 1,
            forall|i: int| 0 <= i < tail.len() ==> tail[i] == digits@[digits@.len() - 1 - i],
            out@ + with_commas_from(tail, p as int) == with_commas_from(tail, 0),
        decreases k - p,
    {
        out.push(digits[k - 1 - p]);
        let rem = k - 1 - p;
        proof {
            assert(digits@[k - 1 - p] == tail[p as int]);
        }
        if rem > 0 && rem % 3 == 0 {
            out.push(',');
            proof {
                assert(with_commas_from(tail, p as int) == seq![tail[p as int]] + seq![',']
                    + with_commas_from(tail, p + 1 as int));
                assert(out@ + with_commas_from(tail, p + 1 as int) =~= with_commas_from(
                    tail,
                    0,
                ));
            }
        } else {
            proof {
                assert(with_commas_from(tail, p as int) == seq![tail[p as int]]
                    + with_commas_from(tail, p + 1 as int));
                assert(out@ + with_commas_from(tail, p + 1 as int) =~= with_commas_from(
                    tail,
                    0,
                ));
            }
        }
        p += 1;
    }
    proof {
        assert(with_commas_from(tail, k as int) =~= Seq::<char>::empty());
        assert(out@ =~= with_commas_from(tail, 0));
        lemma_with_commas_grouped(tail);
    }
    out
}

} // verus!
