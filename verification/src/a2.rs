use vstd::prelude::*;

verus! {

/// The sum of the first `k` items of `s`.
pub open spec fn prefix_sum(s: Seq<i32>, k: int) -> int
    decreases k,
{
    if k <= 0 || k > s.len() {
        0
    } else {
        prefix_sum(s, k - 1) + s[k - 1]
    }
}

/// The sum of the items `s[lo..=hi]`.
pub open spec fn range_sum(s: Seq<i32>, lo: int, hi: int) -> int {
    prefix_sum(s, hi + 1) - prefix_sum(s, lo)
}

/// The absolute value of an integer.
pub open spec fn abs_val(x: int) -> int {
    if x < 0 {
        -x
    } else {
        x
    }
}

/// `(lo, hi)` names a non-empty contiguous subarray `s[lo..=hi]`.
pub open spec fn is_subarray(s: Seq<i32>, lo: int, hi: int) -> bool {
    0 <= lo <= hi < s.len()
}

/// Every non-empty contiguous subarray has a sum in `i32` whose absolute value is an `i32` too.
pub open spec fn sums_fit(s: Seq<i32>) -> bool {
    forall|lo: int, hi: int|
        is_subarray(s, lo, hi) ==> i32::MIN < #[trigger] range_sum(s, lo, hi) <= i32::MAX
}

/// `s[lo..=hi]` has the least absolute sum of all non-empty contiguous subarrays.
pub open spec fn is_min_abs(s: Seq<i32>, lo: int, hi: int) -> bool {
    &&& is_subarray(s, lo, hi)
    &&& forall|lo2: int, hi2: int|
        is_subarray(s, lo2, hi2) ==> abs_val(range_sum(s, lo, hi)) <= abs_val(
            #[trigger] range_sum(s, lo2, hi2),
        )
}

/// `s[lo..=hi]` has the least absolute sum, and no subarray with that least absolute sum is shorter.
pub open spec fn is_shortest_min_abs(s: Seq<i32>, lo: int, hi: int) -> bool {
    &&& is_min_abs(s, lo, hi)
    &&& forall|lo2: int, hi2: int| #[trigger] is_min_abs(s, lo2, hi2) ==> hi - lo <= hi2 - lo2
}

/// `(lo2, hi2)` comes before `(i, j)` when pairs are enumerated by start, then by end.
pub open spec fn pair_before(lo2: int, hi2: int, i: int, j: int) -> bool {
    lo2 < i || (lo2 == i && hi2 < j)
}

/// Any two shortest subarrays with the least absolute sum have the same absolute sum and the
/// same length, so the two searches below agree on what they find.
pub proof fn lemma_searches_agree(s: Seq<i32>, lo1: int, hi1: int, lo2: int, hi2: int)
    requires
        is_shortest_min_abs(s, lo1, hi1),
        is_shortest_min_abs(s, lo2, hi2),
    ensures
        abs_val(range_sum(s, lo1, hi1)) == abs_val(range_sum(s, lo2, hi2)),
        hi1 - lo1 == hi2 - lo2,
{
    assert(is_min_abs(s, lo1, hi1));
    assert(is_min_abs(s, lo2, hi2));
    assert(is_subarray(s, lo1, hi1) && is_subarray(s, lo2, hi2));
    assert(abs_val(range_sum(s, lo1, hi1)) <= abs_val(range_sum(s, lo2, hi2)));
    assert(abs_val(range_sum(s, lo2, hi2)) <= abs_val(range_sum(s, lo1, hi1)));
}

proof fn lemma_prefix_step(s: Seq<i32>, k: int)
    requires
        0 <= k < s.len(),
    ensures
        prefix_sum(s, k + 1) == prefix_sum(s, k) + s[k],
{
}

/// Finds the shortest contiguous subarray whose sum is closest to zero by trying every start
/// and end; of several such subarrays the one that starts first is returned. An empty input
/// gives `(usize::MAX, usize::MAX)`.
pub fn n_square(arr: &[i32]) -> (r: (usize, usize))
    requires
        arr@.len() < i32::MAX,
        sums_fit(arr@),
    ensures
        arr@.len() == 0 ==> r == (usize::MAX, usize::MAX),
        arr@.len() > 0 ==> is_shortest_min_abs(arr@, r.0 as int, r.1 as int),
        arr@.len() > 0 ==> forall|lo2: int, hi2: int|
            #[trigger] is_shortest_min_abs(arr@, lo2, hi2) ==> r.0 <= lo2,
{
    let ghost s = arr@;
    let n = arr.len();
    let mut min_sub_range: (usize, usize) = (usize::MAX, usize::MAX);
    let mut min_sum: u32 = u32::MAX;
    let mut i: usize = 0;
    while i < n
        invariant
            n == s.len(),
            s == arr@,
            n < i32::MAX,
            sums_fit(s),
            0 <= i <= n,
            i == 0 ==> min_sub_range == (usize::MAX, usize::MAX) && min_sum == u32::MAX,
            i > 0 ==> {
                &&& is_subarray(s, min_sub_range.0 as int, min_sub_range.1 as int)
                &&& (min_sub_range.0 as int) < i
                &&& min_sum == abs_val(range_sum(s, min_sub_range.0 as int, min_sub_range.1 as int))
            },
            forall|lo2: int, hi2: int|
                is_subarray(s, lo2, hi2) && lo2 < i ==> {
                    &&& min_sum <= abs_val(#[trigger] range_sum(s, lo2, hi2))
                    &&& (min_sum == abs_val(range_sum(s, lo2, hi2)) ==> min_sub_range.1
                        - min_sub_range.0 <= hi2 - lo2)
                    &&& (min_sum == abs_val(range_sum(s, lo2, hi2)) && pair_before(
                        lo2,
                        hi2,
                        min_sub_range.0 as int,
                        min_sub_range.1 as int,
                    ) ==> min_sub_range.1 - min_sub_range.0 < hi2 - lo2)
                },
        decreases n - i,
    {
        let mut sum: i32 = 0;
        let mut j: usize = i;
        while j < n
            invariant
                n == s.len(),
                s == arr@,
                n < i32::MAX,
                sums_fit(s),
                0 <= i < n,
                i <= j <= n,
                sum == prefix_sum(s, j as int) - prefix_sum(s, i as int),
                i == 0 && j == i ==> min_sub_range == (usize::MAX, usize::MAX) && min_sum
                    == u32::MAX,
                i > 0 || j > i ==> {
                    &&& is_subarray(s, min_sub_range.0 as int, min_sub_range.1 as int)
                    &&& pair_before(
                        min_sub_range.0 as int,
                        min_sub_range.1 as int,
                        i as int,
                        j as int,
                    )
                    &&& min_sum == abs_val(
                        range_sum(s, min_sub_range.0 as int, min_sub_range.1 as int),
                    )
                },
                forall|lo2: int, hi2: int|
                    is_subarray(s, lo2, hi2) && pair_before(lo2, hi2, i as int, j as int) ==> {
                        &&& min_sum <= abs_val(#[trigger] range_sum(s, lo2, hi2))
                        &&& (min_sum == abs_val(range_sum(s, lo2, hi2)) ==> min_sub_range.1
                            - min_sub_range.0 <= hi2 - lo2)
                        &&& (min_sum == abs_val(range_sum(s, lo2, hi2)) && pair_before(
                            lo2,
                            hi2,
                            min_sub_range.0 as int,
                            min_sub_range.1 as int,
                        ) ==> min_sub_range.1 - min_sub_range.0 < hi2 - lo2)
                    },
            decreases n - j,
        {
            proof {
                lemma_prefix_step(s, j as int);
                assert(range_sum(s, i as int, j as int) == sum + arr@[j as int]);
            }
            sum = sum + arr[j];
            let abs: u32 = if sum < 0 {
                (-sum) as u32
            } else {
                sum as u32
            };
            let min = if min_sum <= abs {
                min_sum
            } else {
                abs
            };
            if min_sum != min {
                min_sum = min;
                min_sub_range = (i, j);
            } else if min_sum == abs {
                let cand: i32 = j as i32 - i as i32;
                let cand_len: i32 = if cand < 0 {
                    -cand
                } else {
                    cand
                };
                let cur: i32 = min_sub_range.1 as i32 - min_sub_range.0 as i32;
                let cur_len: i32 = if cur < 0 {
                    -cur
                } else {
                    cur
                };
                if cand_len < cur_len {
                    min_sub_range = (i, j);
                }
            }
            j = j + 1;
        }
        i = i + 1;
    }
    min_sub_range
}

/// The prefix entry for the first `a` items: their sum, and the index of the last of them
/// (`-1` for the empty prefix).
pub open spec fn entry(s: Seq<i32>, a: int) -> (int, int) {
    (prefix_sum(s, a), a - 1)
}

/// Lexicographic order on entries.
pub open spec fn entry_le(x: (int, int), y: (int, int)) -> bool {
    x.0 < y.0 || (x.0 == y.0 && x.1 <= y.1)
}

/// The smaller, in entry order, of the two prefix entries that bound `s[lo..=hi]`.
pub open spec fn first_entry(s: Seq<i32>, lo: int, hi: int) -> (int, int) {
    if entry_le(entry(s, lo), entry(s, hi + 1)) {
        entry(s, lo)
    } else {
        entry(s, hi + 1)
    }
}

/// Facts about a sorted table `t` of all prefix entries of `s`.
spec fn sorted_entries(s: Seq<i32>, t: Seq<(i64, i64)>) -> bool {
    &&& t.len() == s.len() + 1
    &&& forall|r1: int, r2: int|
        0 <= r1 < r2 < t.len() ==> (t[r1].0 < t[r2].0 || (t[r1].0 == t[r2].0 && t[r1].1 < t[r2].1))
    &&& forall|r: int|
        0 <= r < t.len() ==> 0 <= #[trigger] t[r].1 + 1 <= s.len() && t[r].0 == prefix_sum(
            s,
            t[r].1 + 1,
        )
    &&& forall|a: int| 0 <= a <= s.len() ==> #[trigger] located(t, a)
}

/// Some entry of `t` is the one for the first `a` items.
spec fn located(t: Seq<(i64, i64)>, a: int) -> bool {
    exists|r: int| 0 <= r < t.len() && #[trigger] t[r].1 == a - 1
}

spec fn min_int(a: int, b: int) -> int {
    if a <= b {
        a
    } else {
        b
    }
}

spec fn max_int(a: int, b: int) -> int {
    if a <= b {
        b
    } else {
        a
    }
}

/// The start of the subarray between the prefixes at positions `r1` and `r2` of `t`.
spec fn span_lo(t: Seq<(i64, i64)>, r1: int, r2: int) -> int {
    min_int(t[r1].1 as int, t[r2].1 as int) + 1
}

/// The end of the subarray between the prefixes at positions `r1` and `r2` of `t`.
spec fn span_hi(t: Seq<(i64, i64)>, r1: int, r2: int) -> int {
    max_int(t[r1].1 as int, t[r2].1 as int)
}

proof fn lemma_span(s: Seq<i32>, t: Seq<(i64, i64)>, r1: int, r2: int)
    requires
        sorted_entries(s, t),
        0 <= r1 < r2 < t.len(),
    ensures
        is_subarray(s, span_lo(t, r1, r2), span_hi(t, r1, r2)),
        abs_val(range_sum(s, span_lo(t, r1, r2), span_hi(t, r1, r2))) == abs_val(t[r2].0 - t[r1].0),
        span_hi(t, r1, r2) - span_lo(t, r1, r2) == abs_val(t[r2].1 - t[r1].1) - 1,
{
    assert(t[r1].1 + 1 <= s.len());
    assert(t[r2].1 + 1 <= s.len());
    assert(t[r1].1 != t[r2].1 || t[r1].0 != t[r2].0);
    if t[r1].1 == t[r2].1 {
        assert(t[r1].0 == prefix_sum(s, t[r1].1 + 1));
        assert(t[r2].0 == prefix_sum(s, t[r2].1 + 1));
    }
}

/// The position in `t` of the prefix entry for the first `a` items.
proof fn lemma_position(s: Seq<i32>, t: Seq<(i64, i64)>, a: int) -> (r: int)
    requires
        sorted_entries(s, t),
        0 <= a <= s.len(),
    ensures
        0 <= r < t.len(),
        t[r].1 == a - 1,
        t[r].0 == prefix_sum(s, a),
{
    assert(located(t, a));
    let r = choose|r: int| 0 <= r < t.len() && #[trigger] t[r].1 == a - 1;
    assert(t[r].1 + 1 <= s.len());
    r
}

/// Some window of adjacent entries in `t` is at least as close to zero as any subarray.
proof fn lemma_window_below(s: Seq<i32>, t: Seq<(i64, i64)>, lo: int, hi: int) -> (w: int)
    requires
        sorted_entries(s, t),
        is_subarray(s, lo, hi),
    ensures
        0 <= w < s.len(),
        abs_val(range_sum(s, span_lo(t, w, w + 1), span_hi(t, w, w + 1))) <= abs_val(
            range_sum(s, lo, hi),
        ),
{
    let r1 = lemma_position(s, t, lo);
    let r2 = lemma_position(s, t, hi + 1);
    let p = min_int(r1, r2);
    let q = max_int(r1, r2);
    assert(p < q);
    lemma_span(s, t, p, p + 1);
    if p + 1 < q {
        assert(t[p].0 <= t[p + 1].0);
        assert(t[p + 1].0 <= t[q].0);
    }
    p
}

/// For a subarray with the least absolute sum, the window at the position of its smaller
/// bounding entry is as close to zero and no longer; it is the subarray itself when they
/// have the same length.
proof fn lemma_window_of_min(s: Seq<i32>, t: Seq<(i64, i64)>, lo: int, hi: int) -> (w: int)
    requires
        sorted_entries(s, t),
        is_min_abs(s, lo, hi),
    ensures
        0 <= w < s.len(),
        abs_val(range_sum(s, span_lo(t, w, w + 1), span_hi(t, w, w + 1))) == abs_val(
            range_sum(s, lo, hi),
        ),
        span_hi(t, w, w + 1) - span_lo(t, w, w + 1) <= hi - lo,
        span_hi(t, w, w + 1) - span_lo(t, w, w + 1) == hi - lo ==> span_lo(t, w, w + 1) == lo
            && span_hi(t, w, w + 1) == hi && t[w].0 == first_entry(s, lo, hi).0 && t[w].1
            == first_entry(s, lo, hi).1,
{
    let r1 = lemma_position(s, t, lo);
    let r2 = lemma_position(s, t, hi + 1);
    let p = min_int(r1, r2);
    let q = max_int(r1, r2);
    assert(p < q);
    lemma_span(s, t, p, q);
    lemma_span(s, t, p, p + 1);
    assert(span_lo(t, p, q) == lo && span_hi(t, p, q) == hi);
    let wlo = span_lo(t, p, p + 1);
    let whi = span_hi(t, p, p + 1);
    assert(abs_val(range_sum(s, lo, hi)) <= abs_val(range_sum(s, wlo, whi)));
    if p + 1 < q {
        assert(t[p].0 <= t[p + 1].0);
        assert(t[p + 1].0 <= t[q].0);
        lemma_span(s, t, p + 1, q);
        let mlo = span_lo(t, p + 1, q);
        let mhi = span_hi(t, p + 1, q);
        assert(abs_val(range_sum(s, lo, hi)) <= abs_val(range_sum(s, mlo, mhi)));
        assert(t[p].0 == t[p + 1].0);
        assert(t[p].1 < t[p + 1].1 < t[q].1);
    } else {
        assert(entry_le(entry(s, lo), entry(s, hi + 1)) <==> r1 < r2);
    }
    p
}

/// Finds the shortest contiguous subarray whose sum is closest to zero, from the sorted
/// prefix sums: two prefixes that are adjacent in sorted order bound such a subarray.
///
/// Of several shortest subarrays with the least absolute sum, the one whose smaller bounding
/// prefix entry comes first is returned. When the least absolute sum is `i32::MAX`, and for
/// an empty input, `(0, 0)` is returned.
pub fn n_log_n(arr: &[i32]) -> (r: (usize, usize))
    requires
        arr@.len() < i32::MAX,
        sums_fit(arr@),
    ensures
        arr@.len() == 0 ==> r == (0usize, 0usize),
        arr@.len() > 0 ==> is_shortest_min_abs(arr@, r.0 as int, r.1 as int),
        arr@.len() > 0 && abs_val(range_sum(arr@, r.0 as int, r.1 as int)) == i32::MAX ==> r == (
            0usize,
            0usize,
        ),
        arr@.len() > 0 && abs_val(range_sum(arr@, r.0 as int, r.1 as int)) < i32::MAX ==> forall|
            lo2: int,
            hi2: int,
        |
            #[trigger] is_shortest_min_abs(arr@, lo2, hi2) ==> entry_le(
                first_entry(arr@, r.0 as int, r.1 as int),
                first_entry(arr@, lo2, hi2),
            ),
{
    let ghost s = arr@;
    let n = arr.len();
    let mut prefix: Vec<(i64, i64)> = Vec::new();
    prefix.push((0, -1));
    let mut i: usize = 0;
    while i < n
        invariant
            n == s.len(),
            s == arr@,
            n < i32::MAX,
            sums_fit(s),
            0 <= i <= n,
            prefix@.len() == i + 1,
            forall|a: int|
                0 <= a <= i ==> (#[trigger] prefix@[a]).0 == prefix_sum(s, a) && prefix@[a].1 == a
                    - 1,
        decreases n - i,
    {
        proof {
            lemma_prefix_step(s, i as int);
            assert(range_sum(s, 0, i as int) == prefix_sum(s, i + 1));
            assert(prefix_sum(s, 0) == 0);
        }
        let next = (prefix[i].0 + arr[i] as i64, i as i64);
        prefix.push(next);
        i = i + 1;
    }
    let sorted = crate::sorting::sort_pairs(&prefix);
    let ghost t = sorted@;
    proof {
        broadcast use vstd::seq_lib::group_to_multiset_ensures;

        let pv = prefix@;
        assert forall|x: (i64, i64)| pv.to_multiset().contains(x) implies pv.to_multiset().count(x)
            == 1 by {
            assert forall|a: int, b: int| 0 <= a < b < pv.len() implies pv[a] != pv[b] by {
                assert(pv[a].1 == a - 1);
                assert(pv[b].1 == b - 1);
            }
            assert(pv.no_duplicates());
            pv.lemma_multiset_has_no_duplicates();
        }
        t.lemma_multiset_has_no_duplicates_conv();
        assert forall|r: int| 0 <= r < t.len() implies 0 <= #[trigger] t[r].1 + 1 <= s.len()
            && t[r].0 == prefix_sum(s, t[r].1 + 1) by {
            assert(t.contains(t[r]));
            assert(t.to_multiset().count(t[r]) > 0);
            assert(pv.contains(t[r]));
            let a = choose|a: int| 0 <= a < pv.len() && pv[a] == t[r];
        }
        assert forall|a: int| 0 <= a <= s.len() implies #[trigger] located(t, a) by {
            assert(pv[a].1 == a - 1);
            assert(pv.to_multiset().count(pv[a]) > 0);
            assert(t.contains(pv[a]));
        }
        assert forall|r1: int, r2: int| 0 <= r1 < r2 < t.len() implies (t[r1].0 < t[r2].0 || (
        t[r1].0 == t[r2].0 && t[r1].1 < t[r2].1)) by {
            assert(crate::sorting::pair_le(t[r1], t[r2]));
            assert(t[r1] != t[r2]);
        }
        assert(sorted_entries(s, t));
    }
    let mut min_sub_range: (i64, i64) = (0, 0);
    let mut result_diff: i64 = i32::MAX as i64;
    let ghost mut best: int = 0;
    let mut w: usize = 0;
    while w < n
        invariant
            n == s.len(),
            s == arr@,
            sorted_entries(s, t),
            t == sorted@,
            sums_fit(s),
            n < i32::MAX,
            0 <= w <= n,
            0 <= result_diff <= i32::MAX,
            result_diff == i32::MAX ==> min_sub_range == (0i64, 0i64),
            forall|v: int|
                0 <= v < w ==> result_diff <= abs_val(
                    #[trigger] range_sum(s, span_lo(t, v, v + 1), span_hi(t, v, v + 1)),
                ),
            result_diff < i32::MAX ==> {
                &&& 0 <= best < w
                &&& min_sub_range.0 == span_lo(t, best, best + 1)
                &&& min_sub_range.1 == span_hi(t, best, best + 1)
                &&& result_diff == abs_val(range_sum(s, min_sub_range.0 as int, min_sub_range.1 as int))
                &&& forall|v: int|
                    0 <= v < w && result_diff == abs_val(
                        #[trigger] range_sum(s, span_lo(t, v, v + 1), span_hi(t, v, v + 1)),
                    ) ==> span_hi(t, v, v + 1) - span_lo(t, v, v + 1) >= min_sub_range.1
                        - min_sub_range.0 && (v < best ==> span_hi(t, v, v + 1) - span_lo(
                        t,
                        v,
                        v + 1,
                    ) > min_sub_range.1 - min_sub_range.0)
            },
        decreases n - w,
    {
        let (a, ai0) = sorted[w];
        let (b, bi0) = sorted[w + 1];
        proof {
            lemma_span(s, t, w as int, w + 1);
            assert(t[w as int].0 <= t[w + 1].0);
            assert(t[w as int].0 == prefix_sum(s, t[w as int].1 + 1));
            assert(t[w + 1].0 == prefix_sum(s, t[w + 1].1 + 1));
            if t[w as int].1 + 1 < t[w + 1].1 + 1 {
                assert(range_sum(s, t[w as int].1 + 1, t[w + 1].1 as int) <= i32::MAX);
            } else {
                assert(range_sum(s, t[w + 1].1 + 1, t[w as int].1 as int) > i32::MIN);
            }
        }
        let mut ai = ai0;
        let mut bi = bi0;
        let diff: i64 = if a <= b {
            b - a
        } else {
            a - b
        };
        let min_diff = if result_diff <= diff {
            result_diff
        } else {
            diff
        };
        if ai > bi {
            let tmp = ai;
            ai = bi;
            bi = tmp;
        }
        ai = ai + 1;
        if result_diff != min_diff {
            result_diff = min_diff;
            min_sub_range = (ai, bi);
            proof {
                best = w as int;
            }
        } else if result_diff == diff {
            if bi - ai < min_sub_range.1 - min_sub_range.0 {
                min_sub_range = (ai, bi);
                proof {
                    best = w as int;
                }
            }
        }
        w = w + 1;
    }
    proof {
        if n > 0 {
            let rlo = min_sub_range.0 as int;
            let rhi = min_sub_range.1 as int;
            if result_diff < i32::MAX {
                lemma_span(s, t, best, best + 1);
                assert forall|lo2: int, hi2: int| is_subarray(s, lo2, hi2) implies abs_val(
                    range_sum(s, rlo, rhi),
                ) <= abs_val(#[trigger] range_sum(s, lo2, hi2)) by {
                    let v = lemma_window_below(s, t, lo2, hi2);
                }
                assert(is_min_abs(s, rlo, rhi));
                assert forall|lo2: int, hi2: int| #[trigger] is_min_abs(s, lo2, hi2) implies rhi
                    - rlo <= hi2 - lo2 by {
                    let v = lemma_window_of_min(s, t, lo2, hi2);
                    assert(result_diff == abs_val(
                        range_sum(s, span_lo(t, v, v + 1), span_hi(t, v, v + 1)),
                    ));
                }
                assert(is_shortest_min_abs(s, rlo, rhi));
                assert forall|lo2: int, hi2: int| #[trigger] is_shortest_min_abs(s, lo2, hi2) implies entry_le(
                    first_entry(s, rlo, rhi),
                    first_entry(s, lo2, hi2),
                ) by {
                    let v = lemma_window_of_min(s, t, lo2, hi2);
                    assert(result_diff == abs_val(
                        range_sum(s, span_lo(t, v, v + 1), span_hi(t, v, v + 1)),
                    ));
                    assert(hi2 - lo2 <= rhi - rlo);
                    assert(best <= v);
                    if best < v {
                        assert(t[best].0 < t[v].0 || (t[best].0 == t[v].0 && t[best].1 < t[v].1));
                    }
                    let ba = t[best].1 + 1;
                    let bb = t[best + 1].1 + 1;
                    assert(t[best].0 == prefix_sum(s, ba));
                    assert(t[best + 1].0 == prefix_sum(s, bb));
                    assert(t[best].0 < t[best + 1].0 || (t[best].0 == t[best + 1].0 && t[best].1
                        < t[best + 1].1));
                }
            } else {
                assert(is_subarray(s, 0, 0));
                assert(range_sum(s, 0, 0) == prefix_sum(s, 1) - prefix_sum(s, 0));
                assert(i32::MIN < range_sum(s, 0, 0) <= i32::MAX);
                assert forall|lo2: int, hi2: int| is_subarray(s, lo2, hi2) implies abs_val(
                    range_sum(s, 0, 0),
                ) <= abs_val(#[trigger] range_sum(s, lo2, hi2)) by {
                    let v = lemma_window_below(s, t, lo2, hi2);
                }
                assert(is_shortest_min_abs(s, 0, 0));
                let v0 = lemma_window_below(s, t, 0, 0);
                assert(abs_val(range_sum(s, 0, 0)) == i32::MAX);
            }
        }
    }
    (min_sub_range.0 as usize, min_sub_range.1 as usize)
}

} // verus!
