//! Lexicographic ordering of names (revision identifiers, workload names)
//! by their UTF-8 bytes: the order `String` comparison and sorting use,
//! and the order the report presents revisions and workloads in.

use vstd::prelude::*;

verus! {

use vstd::string::StringSliceAdditionalSpecFns;
use vstd::utf8::{encode_utf8, encode_utf8_decode_utf8};

/// The sort key of a name: its UTF-8 byte sequence.
pub open spec fn key_of(s: Seq<char>) -> Seq<u8> {
    encode_utf8(s)
}

/// Lexicographic `<=` on byte sequences.
pub open spec fn lex_leq(a: Seq<u8>, b: Seq<u8>) -> bool
    decreases a.len(),
{
    if a.len() == 0 {
        true
    } else if b.len() == 0 {
        false
    } else if a[0] < b[0] {
        true
    } else if a[0] > b[0] {
        false
    } else {
        lex_leq(a.drop_first(), b.drop_first())
    }
}

/// Lexicographic `<` on byte sequences.
pub open spec fn lex_lt(a: Seq<u8>, b: Seq<u8>) -> bool {
    lex_leq(a, b) && a != b
}

/// Two names with the same key are the same name.
pub proof fn lemma_key_injective(x: Seq<char>, y: Seq<char>)
    requires
        key_of(x) == key_of(y),
    ensures
        x == y,
{
    encode_utf8_decode_utf8(x);
    encode_utf8_decode_utf8(y);
}

/// `lex_leq` is total.
pub proof fn lemma_lex_total(a: Seq<u8>, b: Seq<u8>)
    ensures
        lex_leq(a, b) || lex_leq(b, a),
    decreases a.len(),
{
    if a.len() > 0 && b.len() > 0 && a[0] == b[0] {
        lemma_lex_total(a.drop_first(), b.drop_first());
    }
}

/// `lex_leq` is antisymmetric.
pub proof fn lemma_lex_antisym(a: Seq<u8>, b: Seq<u8>)
    requires
        lex_leq(a, b),
        lex_leq(b, a),
    ensures
        a == b,
    decreases a.len(),
{
    if a.len() == 0 {
        assert(b.len() == 0);
        assert(a =~= b);
    } else {
        assert(b.len() > 0);
        assert(a[0] == b[0]);
        lemma_lex_antisym(a.drop_first(), b.drop_first());
        assert(a.len() == b.len());
        assert forall|i: int| 0 <= i < a.len() implies a[i] == b[i] by {
            if i > 0 {
                assert(a.drop_first()[i - 1] == b.drop_first()[i - 1]);
            }
        }
        assert(a =~= b);
    }
}

/// `lex_leq` is transitive.
pub proof fn lemma_lex_trans(a: Seq<u8>, b: Seq<u8>, c: Seq<u8>)
    requires
        lex_leq(a, b),
        lex_leq(b, c),
    ensures
        lex_leq(a, c),
    decreases a.len(),
{
    if a.len() > 0 && b.len() > 0 && c.len() > 0 && a[0] == b[0] && b[0] == c[0] {
        lemma_lex_trans(a.drop_first(), b.drop_first(), c.drop_first());
    }
}

/// Skipping a common prefix does not change the comparison.
proof fn lemma_lex_skip_common(a: Seq<u8>, b: Seq<u8>, i: int)
    requires
        0 <= i <= a.len(),
        i <= b.len(),
        forall|m: int| 0 <= m < i ==> a[m] == b[m],
    ensures
        lex_leq(a, b) == lex_leq(a.skip(i), b.skip(i)),
    decreases i,
{
    if i == 0 {
        assert(a.skip(0) =~= a);
        assert(b.skip(0) =~= b);
    } else {
        assert(a.len() > 0 && b.len() > 0 && a[0] == b[0]);
        let a1 = a.drop_first();
        let b1 = b.drop_first();
        assert(forall|m: int| 0 <= m < i - 1 ==> a1[m] == b1[m]);
        lemma_lex_skip_common(a1, b1, i - 1);
        assert(a1.skip(i - 1) =~= a.skip(i));
        assert(b1.skip(i - 1) =~= b.skip(i));
    }
}

/// Byte-wise `<=` comparison of two names, the order `String` sorting uses.
pub fn name_leq(a: &str, b: &str) -> (r: bool)
    ensures
        r == lex_leq(key_of(a@), key_of(b@)),
{
    let ab = a.as_bytes();
    let bb = b.as_bytes();
    let ghost ka = a.spec_bytes();
    let ghost kb = b.spec_bytes();
    let mut i: usize = 0;
    while i < ab.len() && i < bb.len()
        invariant
            0 <= i <= ka.len(),
            i <= kb.len(),
            ka == key_of(a@),
            kb == key_of(b@),
            ab@ == ka,
            bb@ == kb,
            forall|m: int| 0 <= m < i ==> ka[m] == kb[m],
        decreases ka.len() - i,
    {
        proof {
            lemma_lex_skip_common(ka, kb, i as int);
        }
        if ab[i] < bb[i] {
            return true;
        }
        if ab[i] > bb[i] {
            proof {
                assert(!lex_leq(ka.skip(i as int), kb.skip(i as int)));
            }
            return false;
        }
        i += 1;
    }
    proof {
        lemma_lex_skip_common(ka, kb, i as int);
        if ka.len() <= kb.len() {
            assert(ka.skip(i as int) =~= Seq::<u8>::empty());
        } else {
            assert(kb.skip(i as int) =~= Seq::<u8>::empty());
            assert(ka.skip(i as int).len() > 0);
        }
    }
    ab.len() <= bb.len()
}

/// Byte-wise `<` comparison of two names.
pub fn name_lt(a: &String, b: &String) -> (r: bool)
    ensures
        r == lex_lt(key_of(a@), key_of(b@)),
{
    let le = name_leq(a.as_str(), b.as_str());
    let eq = *a == *b;
    proof {
        if key_of(a@) == key_of(b@) {
            lemma_key_injective(a@, b@);
        }
    }
    le && !eq
}

} // verus!
