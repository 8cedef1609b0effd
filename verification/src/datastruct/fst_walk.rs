//! The in-order walk of a cascaded dictionary: every entry of its leaves,
//! in key order.

use vstd::prelude::*;
use crate::datastruct::fst_block::{
    Entries, block_entries, block_payload, child_floor, entries_view, find_offset, fst_entries, fst_within,
    keys_increase, lemma_rank, lemma_rank_is, rank, tree,
};
use crate::datastruct::fst_stream::{RangeBound, lemma_upto_concat, upto};
use crate::datastruct::lex::{
    above, lemma_lex_asymmetric, lemma_lex_total, lemma_lex_transitive, lex_le, lex_lt,
};

verus! {

/// The value that `e` holds under `k`.
pub open spec fn lookup(e: Entries, k: Seq<u8>) -> Option<u64> {
    let r = rank(e, k);
    if r < e.len() && e[r].0 == k {
        Some(e[r].1)
    } else {
        None
    }
}

/// The leaf entries below the first `n` entries of an inner block whose
/// children have height `height`, in order.
pub open spec fn children_entries(file: Seq<u8>, e: Entries, height: nat, n: nat) -> Entries
    decreases height, n + 1,
{
    if n == 0 || height == 0 {
        Seq::empty()
    } else {
        children_entries(file, e, height, (n - 1) as nat) + tree_entries(file, e[n - 1].1 as int, height)
    }
}

/// The leaf entries of the tree of height `height` rooted at the block at
/// `offset`, in order.
pub open spec fn tree_entries(file: Seq<u8>, offset: int, height: nat) -> Entries
    decreases height, 0nat,
{
    if height == 0 {
        Seq::empty()
    } else {
        match block_entries(file, offset) {
            None => Seq::empty(),
            Some(e) => if height == 1 {
                e
            } else {
                children_entries(file, e, (height - 1) as nat, e.len())
            },
        }
    }
}

/// Every key of `e` lies above `lo` and at or below `hi`.
pub open spec fn keys_within(e: Entries, lo: Option<Seq<u8>>, hi: Seq<u8>) -> bool {
    forall|i: int| 0 <= i < e.len() ==> above(lo, (#[trigger] e[i]).0) && lex_le(e[i].0, hi)
}

/// Rising entries followed by rising entries above them rise.
pub proof fn lemma_concat_increases(a: Entries, b: Entries, mid: Option<Seq<u8>>, hi: Seq<u8>)
    requires
        keys_increase(a),
        keys_increase(b),
        keys_within(b, mid, hi),
        a.len() > 0 ==> mid == Some(a.last().0),
    ensures
        keys_increase(a + b),
{
    let ab = a + b;
    assert forall|i: int, j: int| 0 <= i < j < ab.len() implies lex_lt(#[trigger] ab[i].0, #[trigger] ab[j].0) by {
        if j < a.len() {
            assert(lex_lt(a[i].0, a[j].0));
        } else if i >= a.len() {
            assert(lex_lt(b[i - a.len()].0, b[j - a.len()].0));
        } else {
            let x = b[j - a.len()];
            assert(above(mid, x.0));
            if i < a.len() - 1 {
                assert(lex_lt(a[i].0, a[a.len() - 1].0));
                lemma_lex_transitive(a[i].0, a.last().0, x.0);
            }
        }
    }
}

/// Looking a key up in two runs of rising entries, the second above the
/// first: a key at or below the end of the first run is looked up there, a
/// key above it in the second.
pub proof fn lemma_lookup_concat(a: Entries, b: Entries, k: Seq<u8>)
    requires
        keys_increase(a + b),
    ensures
        a.len() > 0 && lex_le(k, a.last().0) ==> lookup(a + b, k) == lookup(a, k),
        (a.len() > 0 ==> lex_lt(a.last().0, k)) ==> lookup(a + b, k) == lookup(b, k),
{
    let ab = a + b;
    assert(keys_increase(a)) by {
        assert forall|i: int, j: int| 0 <= i < j < a.len() implies lex_lt(#[trigger] a[i].0, #[trigger] a[j].0) by {
            assert(lex_lt(ab[i].0, ab[j].0));
        }
    }
    assert(keys_increase(b)) by {
        assert forall|i: int, j: int| 0 <= i < j < b.len() implies lex_lt(#[trigger] b[i].0, #[trigger] b[j].0) by {
            assert(lex_lt(ab[i + a.len()].0, ab[j + a.len()].0));
        }
    }
    lemma_rank(a, k);
    lemma_rank(b, k);
    if a.len() > 0 && lex_le(k, a.last().0) {
        let r = rank(a, k);
        if r >= a.len() {
            assert(lex_lt(a[a.len() - 1].0, k));
            lemma_lex_asymmetric(a.last().0, k);
            if k != a.last().0 {
                lemma_lex_asymmetric(k, a.last().0);
            }
        }
        assert forall|i: int| 0 <= i < r implies lex_lt((#[trigger] ab[i]).0, k) by {
            assert(lex_lt(a[i].0, k));
        }
        assert(ab[r] == a[r]);
        lemma_rank_is(ab, k, r);
    }
    if a.len() > 0 ==> lex_lt(a.last().0, k) {
        let r = rank(b, k);
        assert forall|i: int| 0 <= i < a.len() + r implies lex_lt((#[trigger] ab[i]).0, k) by {
            if i < a.len() {
                if i < a.len() - 1 {
                    assert(lex_lt(a[i].0, a[a.len() - 1].0));
                    lemma_lex_transitive(a[i].0, a.last().0, k);
                }
            } else {
                assert(lex_lt(b[i - a.len()].0, k));
            }
        }
        if r < b.len() {
            assert(ab[a.len() + r] == b[r]);
        }
        lemma_rank_is(ab, k, a.len() + r);
    }
}

/// The leaf entries of a tree rise, lie within the bounds of the tree, end
/// with its last key, and hold under each key what a lookup finds.
pub proof fn lemma_tree_entries(file: Seq<u8>, offset: int, height: nat, lo: Option<Seq<u8>>, hi: Seq<u8>)
    requires
        tree(file, offset, height, lo, hi),
    ensures
        keys_increase(tree_entries(file, offset, height)),
        keys_within(tree_entries(file, offset, height), lo, hi),
        tree_entries(file, offset, height).len() >= 1,
        tree_entries(file, offset, height).last().0 == hi,
        forall|k: Seq<u8>| #[trigger]
            find_offset(file, offset, height, k) == lookup(tree_entries(file, offset, height), k),
    decreases height, 0nat, 0nat,
{
    let e = block_entries(file, offset)->0;
    if height == 1 {
        assert forall|i: int| 0 <= i < e.len() implies above(lo, (#[trigger] e[i]).0) && lex_le(e[i].0, hi) by {
            if i > 0 {
                assert(lex_lt(e[0].0, e[i].0));
                if lo is Some {
                    lemma_lex_transitive(lo->0, e[0].0, e[i].0);
                }
            }
            if i < e.len() - 1 {
                assert(lex_lt(e[i].0, e[e.len() - 1].0));
            }
        }
    } else {
        lemma_children_entries(file, e, (height - 1) as nat, e.len(), lo);
        let te = tree_entries(file, offset, height);
        assert forall|k: Seq<u8>| #[trigger] find_offset(file, offset, height, k) == lookup(te, k) by {
            lemma_rank(e, k);
            let r = rank(e, k);
            lemma_children_lookup(file, e, (height - 1) as nat, e.len(), lo, k);
        }
    }
}

/// Entries within `(lo, m]` followed by entries within `(m, hi]` lie within
/// `(lo, hi]`.
pub proof fn lemma_concat_within(a: Entries, b: Entries, lo: Option<Seq<u8>>, m: Seq<u8>, hi: Seq<u8>)
    requires
        keys_within(a, lo, m),
        keys_within(b, Some(m), hi),
        a.len() >= 1,
        above(lo, m),
        lex_lt(m, hi),
    ensures
        keys_within(a + b, lo, hi),
{
    let ab = a + b;
    assert forall|i: int| 0 <= i < ab.len() implies above(lo, (#[trigger] ab[i]).0) && lex_le(ab[i].0, hi) by {
        if i < a.len() {
            assert(above(lo, a[i].0) && lex_le(a[i].0, m));
            if a[i].0 != m {
                lemma_lex_transitive(a[i].0, m, hi);
            }
        } else {
            let x = b[i - a.len()];
            assert(above(Some(m), x.0) && lex_le(x.0, hi));
            if lo is Some {
                lemma_lex_transitive(lo->0, m, x.0);
            }
        }
    }
}

/// The leaf entries below the first `n` entries of an inner block rise, lie
/// above the floor of the block, and end with the key of entry `n - 1`.
#[verifier::rlimit(60)]
pub proof fn lemma_children_entries(file: Seq<u8>, e: Entries, height: nat, n: nat, lo: Option<Seq<u8>>)
    requires
        height >= 1,
        0 <= n <= e.len(),
        keys_increase(e),
        e.len() > 0 ==> above(lo, e[0].0),
        forall|i: int|
            0 <= i < e.len() ==> tree(file, (#[trigger] e[i]).1 as int, height, child_floor(e, i, lo), e[i].0),
    ensures
        keys_increase(children_entries(file, e, height, n)),
        n >= 1 ==> children_entries(file, e, height, n).len() >= 1 && children_entries(file, e, height, n).last().0
            == e[n - 1].0 && keys_within(children_entries(file, e, height, n), lo, e[n - 1].0),
        n == 0 ==> children_entries(file, e, height, n).len() == 0,
    decreases height, n + 1, 0nat,
{
    if n > 0 {
        let front = children_entries(file, e, height, (n - 1) as nat);
        let child = e[n - 1];
        let back = tree_entries(file, child.1 as int, height);
        let mid = child_floor(e, n - 1, lo);
        lemma_children_entries(file, e, height, (n - 1) as nat, lo);
        assert(tree(file, child.1 as int, height, mid, child.0));
        lemma_tree_entries(file, child.1 as int, height, mid, child.0);
        lemma_concat_increases(front, back, mid, child.0);
        assert((front + back).last() == back.last());
        if n - 1 > 0 {
            let m = e[n - 2].0;
            assert(lex_lt(e[n - 2].0, e[n - 1].0));
            assert(above(lo, m)) by {
                if n - 2 > 0 {
                    assert(lex_lt(e[0].0, e[n - 2].0));
                    if lo is Some {
                        lemma_lex_transitive(lo->0, e[0].0, m);
                    }
                }
            }
            lemma_concat_within(front, back, lo, m, child.0);
        } else {
            assert(front + back =~= back);
        }
    }
}

/// A key at or below entry `n - 1` of an inner block is looked up in the leaf
/// entries below the first `n` entries as a lookup in the block finds it.
#[verifier::rlimit(60)]
pub proof fn lemma_children_lookup(
    file: Seq<u8>,
    e: Entries,
    height: nat,
    n: nat,
    lo: Option<Seq<u8>>,
    k: Seq<u8>,
)
    requires
        height >= 1,
        0 <= n <= e.len(),
        keys_increase(e),
        e.len() > 0 ==> above(lo, e[0].0),
        forall|i: int|
            0 <= i < e.len() ==> tree(file, (#[trigger] e[i]).1 as int, height, child_floor(e, i, lo), e[i].0),
    ensures
        rank(e, k) < n ==> lookup(children_entries(file, e, height, n), k) == find_offset(
            file,
            e[rank(e, k)].1 as int,
            height,
            k,
        ),
        rank(e, k) >= n ==> lookup(children_entries(file, e, height, n), k) is None,
    decreases height, n + 1, 1nat,
{
    lemma_rank(e, k);
    let r = rank(e, k);
    if n > 0 {
        let front = children_entries(file, e, height, (n - 1) as nat);
        let child = e[n - 1];
        let back = tree_entries(file, child.1 as int, height);
        let mid = child_floor(e, n - 1, lo);
        lemma_children_entries(file, e, height, (n - 1) as nat, lo);
        lemma_children_entries(file, e, height, n, lo);
        lemma_children_lookup(file, e, height, (n - 1) as nat, lo, k);
        assert(tree(file, child.1 as int, height, mid, child.0));
        lemma_tree_entries(file, child.1 as int, height, mid, child.0);
        lemma_lookup_concat(front, back, k);
        if r < n - 1 {
            // the key belongs to an earlier child
            assert(lex_le(k, e[r].0));
            if r < n - 2 {
                assert(lex_lt(e[r].0, e[n - 2].0));
                if k != e[r].0 {
                    lemma_lex_transitive(k, e[r].0, e[n - 2].0);
                }
            }
            assert(lex_le(k, front.last().0));
        } else {
            // every earlier child ends before the key
            if n - 1 > 0 {
                assert(lex_lt(e[n - 2].0, k));
            }
            if r == n - 1 {
                assert(find_offset(file, child.1 as int, height, k) == lookup(back, k));
            } else {
                assert(lex_lt(e[n - 1].0, k));
                lemma_rank(back, k);
                let q = rank(back, k);
                if q < back.len() {
                    assert(lex_le(k, back[q].0));
                    assert(lex_le(back[q].0, child.0));
                    lemma_lex_asymmetric(child.0, k);
                    if back[q].0 != child.0 {
                        if k != back[q].0 {
                            lemma_lex_transitive(k, back[q].0, child.0);
                        }
                    }
                }
            }
        }
    } else {
        assert(children_entries(file, e, height, 0).len() == 0);
    }
}


/// The view of a concatenation is the concatenation of the views.
pub proof fn lemma_entries_view_concat(a: Seq<(Vec<u8>, u64)>, b: Seq<(Vec<u8>, u64)>)
    ensures
        entries_view(a + b) == entries_view(a) + entries_view(b),
{
    assert(entries_view(a + b) =~= entries_view(a) + entries_view(b));
}

/// Appends to `out` the leaf entries of the tree of height `height` rooted at
/// the block at `offset` that do not lie past `upper`, in key order.
pub(crate) fn collect_within(
    file: &[u8],
    offset: u64,
    height: u8,
    upper: &RangeBound,
    out: &mut Vec<(Vec<u8>, u64)>,
    Ghost(lo): Ghost<Option<Seq<u8>>>,
    Ghost(hi): Ghost<Seq<u8>>,
)
    requires
        tree(file@, offset as int, height as nat, lo, hi),
    ensures
        entries_view(final(out)@) == entries_view(old(out)@) + upto(
            tree_entries(file@, offset as int, height as nat),
            upper@,
        ),
    decreases height,
{
    let payload = match block_payload(file, offset) {
        Some(payload) => payload,
        None => vstd::pervasive::unreached(),
    };
    if height == 1 {
        let mut pairs = fst_within(payload, upper);
        proof {
            lemma_entries_view_concat(out@, pairs@);
        }
        out.append(&mut pairs);
    } else {
        let pairs = fst_entries(payload);
        let ghost e = entries_view(pairs@);
        let ghost start = entries_view(out@);
        let mut i: usize = 0;
        proof {
            assert(start + Seq::<(Seq<u8>, u64)>::empty() == start);
        }
        while i < pairs.len()
            invariant
                i <= pairs@.len(),
                height > 1,
                e == entries_view(pairs@),
                block_entries(file@, offset as int) == Some(e),
                tree(file@, offset as int, height as nat, lo, hi),
                entries_view(out@) == start + upto(children_entries(file@, e, (height - 1) as nat, i as nat), upper@),
            decreases pairs@.len() - i,
        {
            let child = pairs[i].1;
            let ghost before = children_entries(file@, e, (height - 1) as nat, i as nat);
            let ghost below = tree_entries(file@, e[i as int].1 as int, (height - 1) as nat);
            proof {
                assert(e[i as int] == (pairs@[i as int].0@, pairs@[i as int].1));
                assert(tree(
                    file@,
                    e[i as int].1 as int,
                    (height - 1) as nat,
                    child_floor(e, i as int, lo),
                    e[i as int].0,
                ));
                lemma_upto_concat(before, below, upper@);
                assert(children_entries(file@, e, (height - 1) as nat, (i + 1) as nat) == before + below);
            }
            collect_within(
                file,
                child,
                height - 1,
                upper,
                out,
                Ghost(child_floor(e, i as int, lo)),
                Ghost(e[i as int].0),
            );
            proof {
                assert(start + upto(before, upper@) + upto(below, upper@) == start + (upto(before, upper@) + upto(
                    below,
                    upper@,
                )));
            }
            i = i + 1;
        }
    }
}

} // verus!
