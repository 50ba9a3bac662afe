use vstd::prelude::*;

verus! {

broadcast use vstd::seq_lib::group_to_multiset_ensures;

/// Lexicographic order on pairs of integers.
pub open spec fn pair_le(a: (i64, i64), b: (i64, i64)) -> bool {
    a.0 < b.0 || (a.0 == b.0 && a.1 <= b.1)
}

/// A sequence of pairs in non-decreasing lexicographic order.
pub open spec fn pairs_sorted(s: Seq<(i64, i64)>) -> bool {
    forall|i: int, j: int| 0 <= i <= j < s.len() ==> pair_le(s[i], s[j])
}

/// Merges two sorted sequences of pairs into one sorted sequence holding the items of both.
fn merge(a: Vec<(i64, i64)>, b: Vec<(i64, i64)>) -> (r: Vec<(i64, i64)>)
    requires
        pairs_sorted(a@),
        pairs_sorted(b@),
    ensures
        pairs_sorted(r@),
        r@.to_multiset() == a@.to_multiset().add(b@.to_multiset()),
        r@.len() == a@.len() + b@.len(),
{
    let mut r: Vec<(i64, i64)> = Vec::new();
    let mut i: usize = 0;
    let mut j: usize = 0;
    while i < a.len() || j < b.len()
        invariant
            i <= a@.len(),
            j <= b@.len(),
            pairs_sorted(a@),
            pairs_sorted(b@),
            pairs_sorted(r@),
            r@.len() == i + j,
            r@.to_multiset() == a@.subrange(0, i as int).to_multiset().add(
                b@.subrange(0, j as int).to_multiset(),
            ),
            forall|k: int| 0 <= k < r@.len() && i < a@.len() ==> pair_le(r@[k], a@[i as int]),
            forall|k: int| 0 <= k < r@.len() && j < b@.len() ==> pair_le(r@[k], b@[j as int]),
        decreases a@.len() + b@.len() - i - j,
    {
        let take_a = if i < a.len() && j < b.len() {
            let x = a[i];
            let y = b[j];
            x.0 < y.0 || (x.0 == y.0 && x.1 <= y.1)
        } else {
            i < a.len()
        };
        if take_a {
            let x = a[i];
            proof {
                assert(a@.subrange(0, i + 1) == a@.subrange(0, i as int).push(x));
            }
            let ghost old_r = r@;
            r.push(x);
            i = i + 1;
            proof {
                if i < a@.len() {
                    assert(pair_le(a@[i - 1], a@[i as int]));
                }
                assert forall|k: int| 0 <= k < r@.len() && i < a@.len() implies pair_le(
                    r@[k],
                    a@[i as int],
                ) by {
                    if k < old_r.len() {
                        assert(pair_le(old_r[k], x));
                    }
                }
                assert forall|k: int| 0 <= k < r@.len() && j < b@.len() implies pair_le(
                    r@[k],
                    b@[j as int],
                ) by {
                    if k < old_r.len() {
                        assert(pair_le(old_r[k], b@[j as int]));
                    }
                }
            }
        } else {
            let y = b[j];
            proof {
                assert(b@.subrange(0, j + 1) == b@.subrange(0, j as int).push(y));
            }
            let ghost old_r = r@;
            r.push(y);
            j = j + 1;
            proof {
                if j < b@.len() {
                    assert(pair_le(b@[j - 1], b@[j as int]));
                }
                assert forall|k: int| 0 <= k < r@.len() && j < b@.len() implies pair_le(
                    r@[k],
                    b@[j as int],
                ) by {
                    if k < old_r.len() {
                        assert(pair_le(old_r[k], y));
                    }
                }
                assert forall|k: int| 0 <= k < r@.len() && i < a@.len() implies pair_le(
                    r@[k],
                    a@[i as int],
                ) by {
                    if k < old_r.len() {
                        assert(pair_le(old_r[k], a@[i as int]));
                    }
                }
            }
        }
    }
    proof {
        assert(a@.subrange(0, a@.len() as int) == a@);
        assert(b@.subrange(0, b@.len() as int) == b@);
    }
    r
}

/// Returns the items `v[lo..hi]` in sorted order.
fn sort_range(v: &Vec<(i64, i64)>, lo: usize, hi: usize) -> (r: Vec<(i64, i64)>)
    requires
        lo <= hi <= v@.len(),
    ensures
        pairs_sorted(r@),
        r@.to_multiset() == v@.subrange(lo as int, hi as int).to_multiset(),
        r@.len() == hi - lo,
    decreases hi - lo,
{
    if hi - lo == 0 {
        let r: Vec<(i64, i64)> = Vec::new();
        proof {
            assert(v@.subrange(lo as int, hi as int) =~= Seq::<(i64, i64)>::empty());
        }
        r
    } else if hi - lo == 1 {
        let mut r: Vec<(i64, i64)> = Vec::new();
        r.push(v[lo]);
        proof {
            assert(v@.subrange(lo as int, hi as int) =~= Seq::<(i64, i64)>::empty().push(v@[lo as int]));
            assert(r@ =~= Seq::<(i64, i64)>::empty().push(v@[lo as int]));
        }
        r
    } else {
        let mid = lo + (hi - lo) / 2;
        let left = sort_range(v, lo, mid);
        let right = sort_range(v, mid, hi);
        proof {
            assert(v@.subrange(lo as int, hi as int) =~= v@.subrange(lo as int, mid as int) + v@.subrange(
                mid as int,
                hi as int,
            ));
            vstd::seq_lib::lemma_multiset_commutative(
                v@.subrange(lo as int, mid as int),
                v@.subrange(mid as int, hi as int),
            );
        }
        merge(left, right)
    }
}

/// Returns the pairs of `v` in non-decreasing lexicographic order.
pub fn sort_pairs(v: &Vec<(i64, i64)>) -> (r: Vec<(i64, i64)>)
    ensures
        pairs_sorted(r@),
        r@.to_multiset() == v@.to_multiset(),
        r@.len() == v@.len(),
{
    let r = sort_range(v, 0, v.len());
    proof {
        assert(v@.subrange(0, v@.len() as int) == v@);
    }
    r
}

} // verus!
