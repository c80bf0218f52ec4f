//! Lexicographic order on byte sequences, used for the canonical ordering of
//! map keys, together with a verified three-way comparison.

use vstd::prelude::*;

verus! {

/// Strict lexicographic order on the suffixes of `a` and `b` that start at `i`.
pub open spec fn lex_lt_from(a: Seq<u8>, b: Seq<u8>, i: int) -> bool
    decreases b.len() - i,
{
    &&& 0 <= i < b.len()
    &&& (i >= a.len() || a[i] < b[i] || (a[i] == b[i] && lex_lt_from(a, b, i + 1)))
}

/// Strict lexicographic (byte-wise) order: `a` comes before `b`.
pub open spec fn lex_lt(a: Seq<u8>, b: Seq<u8>) -> bool {
    lex_lt_from(a, b, 0)
}

/// The suffixes of `a` and `b` that start at `i` agree, and the lengths match.
pub open spec fn eq_from(a: Seq<u8>, b: Seq<u8>, i: int) -> bool {
    a.len() == b.len() && forall|j: int| i <= j < a.len() ==> a[j] == b[j]
}

proof fn lemma_lex_total_from(a: Seq<u8>, b: Seq<u8>, i: int)
    requires
        0 <= i <= a.len(),
        0 <= i <= b.len(),
    ensures
        lex_lt_from(a, b, i) <==> !(lex_lt_from(b, a, i) || eq_from(a, b, i)),
    decreases a.len() + b.len() - 2 * i,
{
    if i < a.len() && i < b.len() && a[i] == b[i] {
        lemma_lex_total_from(a, b, i + 1);
        assert(eq_from(a, b, i) <==> eq_from(a, b, i + 1)) by {
            if eq_from(a, b, i + 1) {
                assert forall|j: int| i <= j < a.len() implies a[j] == b[j] by {
                    if j > i {
                        assert(a[j] == b[j]);
                    }
                }
            }
        }
    }
}

/// The orders `lex_lt(a, b)`, `a == b`, `lex_lt(b, a)` are mutually exclusive
/// and one of them always holds.
pub proof fn lemma_lex_total(a: Seq<u8>, b: Seq<u8>)
    ensures
        lex_lt(a, b) <==> !(lex_lt(b, a) || a =~= b),
{
    lemma_lex_total_from(a, b, 0);
    assert(eq_from(a, b, 0) <==> a =~= b) by {
        if eq_from(a, b, 0) {
            assert(a =~= b);
        }
    }
}

proof fn lemma_lex_trans_from(a: Seq<u8>, b: Seq<u8>, c: Seq<u8>, i: int)
    requires
        0 <= i,
        lex_lt_from(a, b, i),
        lex_lt_from(b, c, i),
    ensures
        lex_lt_from(a, c, i),
    decreases c.len() - i,
{
    if i < a.len() && i < b.len() && a[i] == b[i] && i < c.len() && b[i] == c[i] {
        lemma_lex_trans_from(a, b, c, i + 1);
    }
}

/// Lexicographic order is transitive.
pub proof fn lemma_lex_trans(a: Seq<u8>, b: Seq<u8>, c: Seq<u8>)
    requires
        lex_lt(a, b),
        lex_lt(b, c),
    ensures
        lex_lt(a, c),
{
    lemma_lex_trans_from(a, b, c, 0);
}

/// Result of a three-way byte comparison.
#[derive(Clone, Copy, Debug, PartialEq, Eq, Structural)]
pub enum ByteOrder {
    Less,
    Equal,
    Greater,
}

fn bytes_cmp_from(a: &[u8], b: &[u8], i: usize) -> (r: ByteOrder)
    requires
        i <= a@.len(),
        i <= b@.len(),
    ensures
        r == ByteOrder::Less <==> lex_lt_from(a@, b@, i as int),
        r == ByteOrder::Greater <==> lex_lt_from(b@, a@, i as int),
        r == ByteOrder::Equal <==> eq_from(a@, b@, i as int),
    decreases b@.len() - i,
{
    proof {
        lemma_lex_total_from(a@, b@, i as int);
    }
    if i == b.len() {
        if i == a.len() {
            ByteOrder::Equal
        } else {
            ByteOrder::Greater
        }
    } else if i == a.len() {
        ByteOrder::Less
    } else if a[i] < b[i] {
        ByteOrder::Less
    } else if a[i] > b[i] {
        ByteOrder::Greater
    } else {
        let r = bytes_cmp_from(a, b, i + 1);
        proof {
            assert(eq_from(a@, b@, i as int) <==> eq_from(a@, b@, i + 1)) by {
                if eq_from(a@, b@, i + 1) {
                    assert forall|j: int| i <= j < a@.len() implies a@[j] == b@[j] by {
                        if j > i {
                            assert(a@[j] == b@[j]);
                        }
                    }
                }
            }
        }
        r
    }
}

/// Three-way comparison of two byte strings in lexicographic order.
pub fn bytes_cmp(a: &[u8], b: &[u8]) -> (r: ByteOrder)
    ensures
        r == ByteOrder::Less <==> lex_lt(a@, b@),
        r == ByteOrder::Greater <==> lex_lt(b@, a@),
        r == ByteOrder::Equal <==> a@ == b@,
{
    let r = bytes_cmp_from(a, b, 0);
    proof {
        if eq_from(a@, b@, 0) {
            assert(a@ =~= b@);
        }
        if a@ == b@ {
            assert(eq_from(a@, b@, 0));
        }
    }
    r
}

/// Equality of two byte strings.
pub fn bytes_eq(a: &[u8], b: &[u8]) -> (r: bool)
    ensures
        r <==> a@ == b@,
{
    matches!(bytes_cmp(a, b), ByteOrder::Equal)
}

} // verus!
