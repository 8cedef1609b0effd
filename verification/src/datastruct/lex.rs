//! The lexicographic order of byte strings, by which every dictionary sorts
//! its keys.

use vstd::prelude::*;

verus! {

/// `a` and `b` agree before index `i`, and there `a` ends or holds the
/// smaller byte.
pub open spec fn lt_at(a: Seq<u8>, b: Seq<u8>, i: int) -> bool {
    &&& 0 <= i <= a.len()
    &&& i < b.len()
    &&& forall|j: int| 0 <= j < i ==> a[j] == b[j]
    &&& i < a.len() ==> a[i] < b[i]
}

/// `a` comes strictly before `b` in lexicographic order.
pub open spec fn lex_lt(a: Seq<u8>, b: Seq<u8>) -> bool {
    exists|i: int| lt_at(a, b, i)
}

/// `a` comes before `b` or equals it.
pub open spec fn lex_le(a: Seq<u8>, b: Seq<u8>) -> bool {
    a == b || lex_lt(a, b)
}

/// `k` lies above the bound `lo`, where no bound means everything does.
pub open spec fn above(lo: Option<Seq<u8>>, k: Seq<u8>) -> bool {
    lo matches Some(l) ==> lex_lt(l, k)
}

/// No byte string comes before itself.
pub proof fn lemma_lex_irreflexive(a: Seq<u8>)
    ensures
        !lex_lt(a, a),
{
}

/// The order is transitive.
pub proof fn lemma_lex_transitive(a: Seq<u8>, b: Seq<u8>, c: Seq<u8>)
    requires
        lex_lt(a, b),
        lex_lt(b, c),
    ensures
        lex_lt(a, c),
{
    let i = choose|i: int| lt_at(a, b, i);
    let j = choose|j: int| lt_at(b, c, j);
    let k = if i < j {
        i
    } else {
        j
    };
    assert(lt_at(a, c, k));
}

/// Two byte strings that agree before `i` are equal or ordered one way.
proof fn lemma_lex_total_from(a: Seq<u8>, b: Seq<u8>, i: int)
    requires
        0 <= i <= a.len(),
        i <= b.len(),
        forall|j: int| 0 <= j < i ==> a[j] == b[j],
    ensures
        a == b || lex_lt(a, b) || lex_lt(b, a),
    decreases a.len() - i,
{
    if i == a.len() {
        if i == b.len() {
            assert(a =~= b);
        } else {
            assert(lt_at(a, b, i));
        }
    } else if i == b.len() {
        assert(lt_at(b, a, i));
    } else if a[i] < b[i] {
        assert(lt_at(a, b, i));
    } else if b[i] < a[i] {
        assert(lt_at(b, a, i));
    } else {
        lemma_lex_total_from(a, b, i + 1);
    }
}

/// Any two byte strings are equal or ordered one way.
pub proof fn lemma_lex_total(a: Seq<u8>, b: Seq<u8>)
    ensures
        a == b || lex_lt(a, b) || lex_lt(b, a),
{
    lemma_lex_total_from(a, b, 0);
}

/// Of two byte strings at most one comes before the other.
pub proof fn lemma_lex_asymmetric(a: Seq<u8>, b: Seq<u8>)
    requires
        lex_lt(a, b),
    ensures
        !lex_lt(b, a),
        a != b,
{
    if lex_lt(b, a) {
        lemma_lex_transitive(a, b, a);
    }
}

/// Whether `a` comes strictly before `b`.
pub fn key_lt(a: &[u8], b: &[u8]) -> (less: bool)
    ensures
        less == lex_lt(a@, b@),
{
    let mut i: usize = 0;
    while i < a.len() && i < b.len()
        invariant
            i <= a@.len(),
            i <= b@.len(),
            forall|j: int| 0 <= j < i ==> a@[j] == b@[j],
        decreases a@.len() - i,
    {
        if a[i] < b[i] {
            proof {
                assert(lt_at(a@, b@, i as int));
            }
            return true;
        }
        if a[i] > b[i] {
            proof {
                assert(lt_at(b@, a@, i as int));
                lemma_lex_asymmetric(b@, a@);
            }
            return false;
        }
        i = i + 1;
    }
    if i < b.len() {
        proof {
            assert(lt_at(a@, b@, i as int));
        }
        true
    } else {
        proof {
            if i < a@.len() {
                assert(lt_at(b@, a@, i as int));
                lemma_lex_asymmetric(b@, a@);
            } else {
                assert(a@ =~= b@);
            }
        }
        false
    }
}

/// Whether `a` and `b` hold the same bytes.
pub fn key_eq(a: &[u8], b: &[u8]) -> (same: bool)
    ensures
        same == (a@ == b@),
{
    if a.len() != b.len() {
        return false;
    }
    let mut i: usize = 0;
    while i < a.len()
        invariant
            i <= a@.len(),
            a@.len() == b@.len(),
            forall|j: int| 0 <= j < i ==> a@[j] == b@[j],
        decreases a@.len() - i,
    {
        if a[i] != b[i] {
            return false;
        }
        i = i + 1;
    }
    proof {
        assert(a@ =~= b@);
    }
    true
}

} // verus!
