//! Byte-wise lexicographic order on strings.
//!
//! Strings are ordered by the bytes of their UTF-8 encoding, the order that
//! the standard library gives to `str` and `String`.

use vstd::prelude::*;
use vstd::utf8::{encode_utf8, encode_utf8_decode_utf8};

verus! {

/// `a` comes strictly before `b` in lexicographic order of bytes.
pub open spec fn bytes_before(a: Seq<u8>, b: Seq<u8>) -> bool
    decreases a.len(),
{
    if b.len() == 0 {
        false
    } else if a.len() == 0 {
        true
    } else if a[0] != b[0] {
        a[0] < b[0]
    } else {
        bytes_before(a.drop_first(), b.drop_first())
    }
}

/// `a` comes strictly before `b` when both are compared by their UTF-8 bytes.
pub open spec fn str_before(a: Seq<char>, b: Seq<char>) -> bool {
    bytes_before(encode_utf8(a), encode_utf8(b))
}

/// Every element comes strictly before all later ones: the sequence is sorted
/// and holds no string twice.
pub open spec fn strictly_ascending(s: Seq<Seq<char>>) -> bool {
    forall|i: int, j: int| 0 <= i < j < s.len() ==> str_before(#[trigger] s[i], #[trigger] s[j])
}

/// The outcome of comparing two strings.
#[derive(Clone, Copy, Debug, PartialEq, Eq, Structural)]
pub enum Rank {
    Before,
    Same,
    After,
}

/// No byte string comes before itself.
proof fn lemma_bytes_before_irreflexive(a: Seq<u8>)
    ensures
        !bytes_before(a, a),
    decreases a.len(),
{
    if a.len() > 0 {
        lemma_bytes_before_irreflexive(a.drop_first());
    }
}

/// The order on byte strings is transitive.
proof fn lemma_bytes_before_transitive(a: Seq<u8>, b: Seq<u8>, c: Seq<u8>)
    requires
        bytes_before(a, b),
        bytes_before(b, c),
    ensures
        bytes_before(a, c),
    decreases a.len(),
{
    if a.len() > 0 && a[0] == b[0] && b[0] == c[0] {
        lemma_bytes_before_transitive(a.drop_first(), b.drop_first(), c.drop_first());
    }
}

/// Of two different byte strings one comes before the other.
proof fn lemma_bytes_before_total(a: Seq<u8>, b: Seq<u8>)
    ensures
        bytes_before(a, b) || bytes_before(b, a) || a == b,
    decreases a.len(),
{
    if a.len() > 0 && b.len() > 0 && a[0] == b[0] {
        lemma_bytes_before_total(a.drop_first(), b.drop_first());
        if a.drop_first() == b.drop_first() {
            assert(a =~= seq![a[0]] + a.drop_first());
            assert(b =~= seq![b[0]] + b.drop_first());
        }
    } else if a.len() == 0 && b.len() == 0 {
        assert(a =~= b);
    }
}

/// Two byte strings that agree on their first `i` bytes compare as what
/// follows those bytes.
proof fn lemma_bytes_before_skip(a: Seq<u8>, b: Seq<u8>, i: int)
    requires
        0 <= i <= a.len(),
        i <= b.len(),
        forall|k: int| 0 <= k < i ==> a[k] == b[k],
    ensures
        bytes_before(a, b) == bytes_before(a.skip(i), b.skip(i)),
    decreases i,
{
    if i == 0 {
        assert(a.skip(0) =~= a);
        assert(b.skip(0) =~= b);
    } else {
        lemma_bytes_before_skip(a.drop_first(), b.drop_first(), i - 1);
        assert(a.drop_first().skip(i - 1) =~= a.skip(i));
        assert(b.drop_first().skip(i - 1) =~= b.skip(i));
    }
}

/// No string comes before itself.
pub proof fn lemma_str_before_irreflexive(a: Seq<char>)
    ensures
        !str_before(a, a),
{
    lemma_bytes_before_irreflexive(encode_utf8(a));
}

/// The order is transitive.
pub proof fn lemma_str_before_transitive(a: Seq<char>, b: Seq<char>, c: Seq<char>)
    requires
        str_before(a, b),
        str_before(b, c),
    ensures
        str_before(a, c),
{
    lemma_bytes_before_transitive(encode_utf8(a), encode_utf8(b), encode_utf8(c));
}

/// No two strings come before each other.
pub proof fn lemma_str_before_asymmetric(a: Seq<char>, b: Seq<char>)
    ensures
        !(str_before(a, b) && str_before(b, a)),
{
    if str_before(a, b) && str_before(b, a) {
        lemma_str_before_transitive(a, b, a);
        lemma_str_before_irreflexive(a);
    }
}

/// Of two different strings one comes before the other.
pub proof fn lemma_str_before_total(a: Seq<char>, b: Seq<char>)
    ensures
        str_before(a, b) || str_before(b, a) || a == b,
{
    lemma_bytes_before_total(encode_utf8(a), encode_utf8(b));
    if encode_utf8(a) == encode_utf8(b) {
        encode_utf8_decode_utf8(a);
        encode_utf8_decode_utf8(b);
    }
}

/// An ascending sequence holds no string twice.
pub proof fn lemma_ascending_no_duplicates(s: Seq<Seq<char>>)
    requires
        strictly_ascending(s),
    ensures
        s.no_duplicates(),
{
    assert forall|i: int, j: int| 0 <= i < s.len() && 0 <= j < s.len() && i != j implies s[i]
        != s[j] by {
        lemma_str_before_irreflexive(s[i]);
        if i < j {
            assert(str_before(s[i], s[j]));
        } else {
            assert(str_before(s[j], s[i]));
        }
    }
}

/// Two ascending sequences with the same elements are the same sequence: a
/// set of strings has exactly one sorted listing.
pub proof fn lemma_ascending_listing_unique(a: Seq<Seq<char>>, b: Seq<Seq<char>>)
    requires
        strictly_ascending(a),
        strictly_ascending(b),
        a.to_set() == b.to_set(),
    ensures
        a == b,
    decreases a.len(),
{
    if a.len() == 0 {
        if b.len() > 0 {
            assert(b.contains(b[0]));
            assert(b.to_set().contains(b[0]));
            assert(a.to_set().contains(b[0]));
        }
        assert(a =~= b);
    } else if b.len() == 0 {
        assert(a.contains(a[0]));
        assert(a.to_set().contains(a[0]));
        assert(b.to_set().contains(a[0]));
    } else {
        let la = a.last();
        let lb = b.last();
        assert(a.contains(la));
        assert(b.contains(lb));
        assert(b.to_set().contains(la));
        assert(a.to_set().contains(lb));
        let i = choose|i: int| 0 <= i < b.len() && b[i] == la;
        let j = choose|j: int| 0 <= j < a.len() && a[j] == lb;
        if i < b.len() - 1 {
            assert(str_before(b[i], b[b.len() - 1]));
            if j < a.len() - 1 {
                assert(str_before(a[j], a[a.len() - 1]));
            }
            lemma_str_before_asymmetric(la, lb);
            lemma_str_before_irreflexive(la);
        }
        assert(la == lb);
        let a0 = a.drop_last();
        let b0 = b.drop_last();
        assert forall|x: Seq<char>| a0.to_set().contains(x) == b0.to_set().contains(x) by {
            if a0.to_set().contains(x) {
                let k = choose|k: int| 0 <= k < a0.len() && a0[k] == x;
                assert(a[k] == x);
                assert(str_before(a[k], a[a.len() - 1]));
                assert(a.contains(x));
                assert(b.to_set().contains(x));
                let l = choose|l: int| 0 <= l < b.len() && b[l] == x;
                lemma_str_before_irreflexive(x);
                assert(b0[l] == x);
                assert(b0.contains(x));
            }
            if b0.to_set().contains(x) {
                let k = choose|k: int| 0 <= k < b0.len() && b0[k] == x;
                assert(b[k] == x);
                assert(str_before(b[k], b[b.len() - 1]));
                assert(b.contains(x));
                assert(a.to_set().contains(x));
                let l = choose|l: int| 0 <= l < a.len() && a[l] == x;
                lemma_str_before_irreflexive(x);
                assert(a0[l] == x);
                assert(a0.contains(x));
            }
        }
        assert(a0.to_set() =~= b0.to_set());
        lemma_ascending_listing_unique(a0, b0);
        assert(a =~= a0.push(la));
        assert(b =~= b0.push(lb));
    }
}

/// What `compare` answers for two strings.
pub open spec fn rank_of(a: Seq<char>, b: Seq<char>) -> Rank {
    if str_before(a, b) {
        Rank::Before
    } else if a == b {
        Rank::Same
    } else {
        Rank::After
    }
}

/// Compares two strings by their bytes.
pub fn compare(a: &str, b: &str) -> (r: Rank)
    ensures
        r == rank_of(a@, b@),
        r == Rank::After <==> str_before(b@, a@),
{
    let x = a.as_bytes();
    let y = b.as_bytes();
    let n: usize = x.len();
    let m: usize = y.len();
    proof {
        lemma_str_before_total(a@, b@);
        lemma_str_before_asymmetric(a@, b@);
        lemma_str_before_irreflexive(a@);
    }
    let mut i: usize = 0;
    while i < n && i < m
        invariant
            i <= n,
            i <= m,
            n == x@.len(),
            m == y@.len(),
            x@ == encode_utf8(a@),
            y@ == encode_utf8(b@),
            forall|k: int| 0 <= k < i ==> x@[k] == y@[k],
        decreases n - i,
    {
        if x[i] != y[i] {
            proof {
                lemma_bytes_before_skip(x@, y@, i as int);
                lemma_bytes_before_skip(y@, x@, i as int);
            }
            if x[i] < y[i] {
                return Rank::Before;
            } else {
                return Rank::After;
            }
        }
        i += 1;
    }
    proof {
        lemma_bytes_before_skip(x@, y@, i as int);
        lemma_bytes_before_skip(y@, x@, i as int);
    }
    if n < m {
        Rank::Before
    } else if n > m {
        Rank::After
    } else {
        proof {
            assert(x@ =~= y@);
            encode_utf8_decode_utf8(a@);
            encode_utf8_decode_utf8(b@);
        }
        Rank::Same
    }
}

} // verus!
