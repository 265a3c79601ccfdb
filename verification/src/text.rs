//! Comparison of strings by their UTF-8 bytes, the order in which Rust sorts
//! `str` values.

use vstd::prelude::*;
use vstd::utf8::{encode_utf8, encode_utf8_decode_utf8};

verus! {

/// `a` and `b` agree on their first `k` bytes.
pub open spec fn common_prefix(a: Seq<u8>, b: Seq<u8>, k: int) -> bool {
    &&& 0 <= k <= a.len()
    &&& k <= b.len()
    &&& forall|j: int| 0 <= j < k ==> a[j] == b[j]
}

/// `a` and `b` part ways after `k` common bytes, and `a` is the smaller one
/// there: either `a` ends at `k` and `b` goes on, or `a` holds the smaller
/// byte at `k`.
pub open spec fn precedes_at(a: Seq<u8>, b: Seq<u8>, k: int) -> bool {
    &&& common_prefix(a, b, k)
    &&& k < b.len()
    &&& k < a.len() ==> a[k] < b[k]
}

/// Strict lexicographic order on byte sequences.
pub open spec fn bytes_lt(a: Seq<u8>, b: Seq<u8>) -> bool {
    exists|k: int| precedes_at(a, b, k)
}

/// Strict lexicographic order on strings, taken over their UTF-8 encoding.
pub open spec fn text_lt(a: Seq<char>, b: Seq<char>) -> bool {
    bytes_lt(encode_utf8(a), encode_utf8(b))
}

/// `s` holds its items in strictly ascending order; in particular no item
/// occurs twice.
pub open spec fn strictly_ascending(s: Seq<Seq<char>>) -> bool {
    forall|i: int, j: int| 0 <= i < j < s.len() ==> text_lt(s[i], s[j])
}

/// No byte sequence comes before itself.
pub proof fn lemma_bytes_lt_irreflexive(a: Seq<u8>)
    ensures
        !bytes_lt(a, a),
{
}

/// What comes before something that comes before `c` comes before `c`.
pub proof fn lemma_bytes_lt_transitive(a: Seq<u8>, b: Seq<u8>, c: Seq<u8>)
    requires
        bytes_lt(a, b),
        bytes_lt(b, c),
    ensures
        bytes_lt(a, c),
{
    let k1 = choose|k: int| precedes_at(a, b, k);
    let k2 = choose|k: int| precedes_at(b, c, k);
    let k = if k1 <= k2 { k1 } else { k2 };
    assert(precedes_at(a, c, k));
}

/// The first index at which `a` and `b` differ, or the length of the shorter
/// one if there is none.
pub open spec fn first_difference(a: Seq<u8>, b: Seq<u8>) -> int
    decreases a.len(),
{
    if a.len() == 0 || b.len() == 0 || a[0] != b[0] {
        0
    } else {
        1 + first_difference(a.drop_first(), b.drop_first())
    }
}

/// Up to their first difference two byte sequences agree, and there they
/// differ, unless one of them ends.
pub proof fn lemma_first_difference(a: Seq<u8>, b: Seq<u8>)
    ensures
        common_prefix(a, b, first_difference(a, b)),
        first_difference(a, b) < a.len() && first_difference(a, b) < b.len() ==> a[first_difference(
            a,
            b,
        )] != b[first_difference(a, b)],
    decreases a.len(),
{
    if a.len() == 0 || b.len() == 0 || a[0] != b[0] {
    } else {
        lemma_first_difference(a.drop_first(), b.drop_first());
        let k = first_difference(a.drop_first(), b.drop_first());
        assert forall|j: int| 0 <= j < k + 1 implies a[j] == b[j] by {
            if j > 0 {
                assert(a.drop_first()[j - 1] == b.drop_first()[j - 1]);
            }
        }
    }
}

/// Of two different byte sequences one comes before the other.
pub proof fn lemma_bytes_lt_total(a: Seq<u8>, b: Seq<u8>)
    ensures
        a == b || bytes_lt(a, b) || bytes_lt(b, a),
{
    lemma_first_difference(a, b);
    let k = first_difference(a, b);
    if k == a.len() && k == b.len() {
        assert(a =~= b);
    } else if k < b.len() && (k == a.len() || a[k] < b[k]) {
        assert(precedes_at(a, b, k));
    } else {
        assert(common_prefix(b, a, k));
        assert(precedes_at(b, a, k));
    }
}

/// Two strings with the same UTF-8 bytes are the same string.
pub proof fn lemma_encoding_injective(a: Seq<char>, b: Seq<char>)
    requires
        encode_utf8(a) == encode_utf8(b),
    ensures
        a == b,
{
    encode_utf8_decode_utf8(a);
    encode_utf8_decode_utf8(b);
}

/// `text_lt` is a strict total order on strings.
pub proof fn lemma_text_lt_is_strict_total_order(a: Seq<char>, b: Seq<char>, c: Seq<char>)
    ensures
        !text_lt(a, a),
        text_lt(a, b) && text_lt(b, c) ==> text_lt(a, c),
        a == b || text_lt(a, b) || text_lt(b, a),
        !(text_lt(a, b) && text_lt(b, a)),
{
    lemma_bytes_lt_irreflexive(encode_utf8(a));
    if text_lt(a, b) && text_lt(b, c) {
        lemma_bytes_lt_transitive(encode_utf8(a), encode_utf8(b), encode_utf8(c));
    }
    lemma_bytes_lt_total(encode_utf8(a), encode_utf8(b));
    if encode_utf8(a) == encode_utf8(b) {
        lemma_encoding_injective(a, b);
    }
    if text_lt(a, b) && text_lt(b, a) {
        lemma_bytes_lt_transitive(encode_utf8(a), encode_utf8(b), encode_utf8(a));
    }
}

/// Whether two strings hold the same characters.
pub fn str_eq(a: &str, b: &str) -> (r: bool)
    ensures
        r == (a@ == b@),
{
    let x = a.as_bytes();
    let y = b.as_bytes();
    if x.len() != y.len() {
        return false;
    }
    let mut i: usize = 0;
    while i < x.len()
        invariant
            x@ == encode_utf8(a@),
            y@ == encode_utf8(b@),
            x@.len() == y@.len(),
            common_prefix(x@, y@, i as int),
        decreases x@.len() - i,
    {
        if x[i] != y[i] {
            return false;
        }
        i += 1;
    }
    proof {
        assert(x@ =~= y@);
        lemma_encoding_injective(a@, b@);
    }
    true
}

/// Whether `a` sorts strictly before `b`.
pub fn str_lt(a: &str, b: &str) -> (r: bool)
    ensures
        r == text_lt(a@, b@),
{
    let x = a.as_bytes();
    let y = b.as_bytes();
    let mut i: usize = 0;
    while i < x.len() && i < y.len()
        invariant
            x@ == encode_utf8(a@),
            y@ == encode_utf8(b@),
            common_prefix(x@, y@, i as int),
        decreases x@.len() - i,
    {
        if x[i] != y[i] {
            proof {
                if x[i as int] < y[i as int] {
                    assert(precedes_at(x@, y@, i as int));
                } else {
                    assert forall|k: int| !precedes_at(x@, y@, k) by {}
                }
            }
            return x[i] < y[i];
        }
        i += 1;
    }
    proof {
        if x@.len() < y@.len() {
            assert(precedes_at(x@, y@, i as int));
        } else {
            assert forall|k: int| !precedes_at(x@, y@, k) by {}
        }
    }
    x.len() < y.len()
}

/// Puts `s` at its place in the strictly ascending `sorted`, unless it is
/// there already.
pub(crate) fn insert_ascending<'a>(sorted: &mut Vec<&'a str>, s: &'a str)
    requires
        strictly_ascending(old(sorted).deep_view()),
    ensures
        strictly_ascending(final(sorted).deep_view()),
        final(sorted).deep_view().to_set() == old(sorted).deep_view().to_set().insert(s@),
{
    let ghost before = sorted.deep_view();
    let mut i: usize = 0;
    while i < sorted.len() && str_lt(sorted[i], s)
        invariant
            i <= sorted.len(),
            *sorted == *old(sorted),
            before == sorted.deep_view(),
            before.len() == sorted.len(),
            forall|j: int| 0 <= j < i ==> text_lt(#[trigger] before[j], s@),
        decreases sorted.len() - i,
    {
        assert(before[i as int] == sorted[i as int]@);
        i += 1;
    }
    if i < sorted.len() && str_eq(sorted[i], s) {
        proof {
            assert(before[i as int] == s@);
            assert(before.to_set() =~= before.to_set().insert(s@));
        }
        return ;
    }
    sorted.insert(i, s);
    proof {
        let after = sorted.deep_view();
        assert(after =~= before.insert(i as int, s@));
        assert forall|j: int, k: int| 0 <= j < k < after.len() implies text_lt(
            after[j],
            after[k],
        ) by {
            if k == i {
                assert(after[j] == before[j]);
            } else if j == i {
                assert(after[k] == before[k - 1]);
                assert(before[i as int] == old(sorted)[i as int]@);
                lemma_text_lt_is_strict_total_order(s@, before[i as int], before[k - 1]);
                if k - 1 > i {
                    assert(text_lt(before[i as int], before[k - 1]));
                }
            } else {
                let from_j = if j < i { j } else { j - 1 };
                let from_k = if k < i { k } else { k - 1 };
                assert(after[j] == before[from_j] && after[k] == before[from_k]);
            }
        }
        assert forall|t: Seq<char>| after.to_set().contains(t) <==> before.to_set().insert(
            s@,
        ).contains(t) by {
            if after.contains(t) {
                let j = choose|j: int| 0 <= j < after.len() && after[j] == t;
                if j < i {
                    assert(before[j] == t);
                } else if j > i {
                    assert(before[j - 1] == t);
                }
            }
            if before.contains(t) {
                let j = choose|j: int| 0 <= j < before.len() && before[j] == t;
                if j < i {
                    assert(after[j] == t);
                } else {
                    assert(after[j + 1] == t);
                }
            }
            assert(after[i as int] == s@);
        }
    }
}

} // verus!
