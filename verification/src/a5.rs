use vstd::prelude::*;
use std::ops::RangeInclusive;
use vstd::set_lib::{lemma_int_range, set_int_range};
use crate::sorting::{pair_le, sort_pairs};
use crate::a3::{are_candidates, dominates, is_candidate, lemma_dominated_by_candidate, lemma_stack_step, push_spec, Hotel};

verus! {

type Int = u32;

type Intervals = RangeInclusive<Int>;

/// How a range relates to one that starts no earlier.
enum ContainmentType {
    /// `self_` fully contains `other`.
    ContainsOther,
    /// `other` fully contains `self_`, and both start at the same place.
    ContainsSelf,
    /// `other` starts later and ends later than `self_`.
    PartialOverlap,
}

/// Picks, from a set of ranges, few ranges that together cover a set of numbers.
pub struct Assignment5;

/// The lower bound of `r`, through `RangeInclusive::start`; std documents it as the bound the
/// range was made with, unspecified once the range has been iterated to exhaustion.
#[verifier::external_body]
fn range_start(r: &Intervals) -> (s: Int)
    ensures
        !r@.exhausted ==> s == r@.start,
{
    *r.start()
}

/// The upper bound of `r`, through `RangeInclusive::end`; std documents it as the bound the
/// range was made with, unspecified once the range has been iterated to exhaustion.
#[verifier::external_body]
fn range_end(r: &Intervals) -> (e: Int)
    ensures
        !r@.exhausted ==> e == r@.end,
{
    *r.end()
}

/// A range that has not been iterated to exhaustion: it holds every number from its start to
/// its end.
pub open spec fn fresh(r: &RangeInclusive<u32>) -> bool {
    !r@.exhausted
}

/// The bounds of a range, as a pair.
pub open spec fn span(r: &RangeInclusive<u32>) -> (u32, u32) {
    (r@.start, r@.end)
}

/// The bounds of each range of a slice of ranges.
pub open spec fn spans(rs: Seq<RangeInclusive<u32>>) -> Seq<(u32, u32)> {
    rs.map_values(|r: RangeInclusive<u32>| span(&r))
}

/// The bounds of each range of a list of borrowed ranges.
pub open spec fn spans_of(rs: Seq<&RangeInclusive<u32>>) -> Seq<(u32, u32)> {
    rs.map_values(|r: &RangeInclusive<u32>| span(r))
}

/// The span of a range that may be absent.
pub open spec fn opt_span(o: Option<&RangeInclusive<u32>>) -> Option<(u32, u32)> {
    match o {
        Some(r) => Some(span(r)),
        None => None,
    }
}

/// `r` takes the items of `s` at the strictly rising positions `ix`.
pub open spec fn picked_at<T>(r: Seq<T>, s: Seq<T>, ix: Seq<int>) -> bool {
    &&& ix.len() == r.len()
    &&& forall|a: int, b: int| 0 <= a < b < ix.len() ==> ix[a] < ix[b]
    &&& forall|a: int| 0 <= a < ix.len() ==> 0 <= #[trigger] ix[a] < s.len() && r[a] == s[ix[a]]
}

/// `r` is a subsequence of `s`: items of `s`, in their order, none taken twice.
pub open spec fn subsequence_of<T>(r: Seq<T>, s: Seq<T>) -> bool {
    exists|ix: Seq<int>| #[trigger] picked_at(r, s, ix)
}

/// The span `p` holds the number `n`.
pub open spec fn covers(p: (u32, u32), n: u32) -> bool {
    p.0 <= n <= p.1
}

/// The span `p` holds all of the span `q`.
pub open spec fn encloses(p: (u32, u32), q: (u32, u32)) -> bool {
    p.0 <= q.0 && q.1 <= p.1
}

/// Some span of `ss` holds the number `n`.
pub open spec fn held(ss: Seq<(u32, u32)>, n: u32) -> bool {
    exists|j: int| 0 <= j < ss.len() && #[trigger] covers(ss[j], n)
}

/// Each number of `ns` lies in some span of `ss`.
pub open spec fn covers_all(ss: Seq<(u32, u32)>, ns: Seq<u32>) -> bool {
    forall|k: int| 0 <= k < ns.len() ==> #[trigger] held(ss, ns[k])
}

/// The numbers of `ns` in non-decreasing order.
pub open spec fn ascending(ns: Seq<u32>) -> bool {
    forall|a: int, b: int| 0 <= a <= b < ns.len() ==> ns[a] <= ns[b]
}

/// Starts and ends both strictly increase along `st`.
pub open spec fn chain(st: Seq<(u32, u32)>) -> bool {
    forall|a: int, b: int| 0 <= a < b < st.len() ==> st[a].0 < st[b].0 && st[a].1 < st[b].1
}

/// `p` is the span of `ss` that, among those starting at or before `n`, reaches farthest,
/// and among those, starts first.
pub open spec fn farthest(ss: Seq<(u32, u32)>, n: u32, p: (u32, u32)) -> bool {
    &&& ss.contains(p)
    &&& p.0 <= n
    &&& forall|q: (u32, u32)|
        #[trigger] ss.contains(q) && q.0 <= n ==> q.1 <= p.1 && (q.1 == p.1 ==> p.0 <= q.0)
}

/// The span of `ss` that reaches farthest from `n` (see `farthest`).
pub open spec fn pick(ss: Seq<(u32, u32)>, n: u32) -> (u32, u32) {
    choose|p: (u32, u32)| farthest(ss, n, p)
}

/// The greedy choice of spans for `ns[i..]`, given the span `cur` chosen last: a number that
/// `cur` holds is passed over; any other takes the span that reaches farthest from it.
pub open spec fn greedy_from(ss: Seq<(u32, u32)>, ns: Seq<u32>, i: int, cur: Option<(u32, u32)>) -> Seq<(u32, u32)>
    decreases ns.len() - i,
{
    if i < 0 || i >= ns.len() {
        Seq::empty()
    } else if cur matches Some(c) && covers(c, ns[i]) {
        greedy_from(ss, ns, i + 1, cur)
    } else {
        let p = pick(ss, ns[i]);
        seq![p] + greedy_from(ss, ns, i + 1, Some(p))
    }
}

/// The numbers at which `greedy_from` takes a new span, in order.
pub open spec fn pick_points(ss: Seq<(u32, u32)>, ns: Seq<u32>, i: int, cur: Option<(u32, u32)>) -> Seq<u32>
    decreases ns.len() - i,
{
    if i < 0 || i >= ns.len() {
        Seq::empty()
    } else if cur matches Some(c) && covers(c, ns[i]) {
        pick_points(ss, ns, i + 1, cur)
    } else {
        let p = pick(ss, ns[i]);
        seq![ns[i]] + pick_points(ss, ns, i + 1, Some(p))
    }
}

/// The greedy choice of spans of `ss` for the ascending numbers `ns`.
pub open spec fn greedy(ss: Seq<(u32, u32)>, ns: Seq<u32>) -> Seq<(u32, u32)> {
    greedy_from(ss, ns, 0, None)
}

/// At most one span reaches farthest from a number.
proof fn lemma_farthest_unique(ss: Seq<(u32, u32)>, n: u32, p: (u32, u32), q: (u32, u32))
    requires
        farthest(ss, n, p),
        farthest(ss, n, q),
    ensures
        p == q,
{
    assert(ss.contains(q) && q.0 <= n);
    assert(ss.contains(p) && p.0 <= n);
}

/// `pick` names the span that reaches farthest, where there is one.
proof fn lemma_pick(ss: Seq<(u32, u32)>, n: u32, p: (u32, u32))
    requires
        farthest(ss, n, p),
    ensures
        pick(ss, n) == p,
{
    lemma_farthest_unique(ss, n, pick(ss, n), p);
}

/// Where some span starts at or before `n`, one of them reaches farthest.
proof fn lemma_farthest_exists(ss: Seq<(u32, u32)>, n: u32, j: int) -> (p: (u32, u32))
    requires
        0 <= j < ss.len(),
        ss[j].0 <= n,
    ensures
        farthest(ss, n, p),
    decreases ss.len(),
{
    let x = ss.last();
    let rest = ss.drop_last();
    assert(ss == rest.push(x));
    assert(ss.contains(x)) by {
        assert(ss[ss.len() - 1] == x);
    }
    assert forall|q: (u32, u32)| #[trigger] ss.contains(q) implies rest.contains(q) || q == x by {
        let k = choose|k: int| 0 <= k < ss.len() && ss[k] == q;
        if k < ss.len() - 1 {
            assert(rest[k] == q);
        }
    }
    if j == ss.len() - 1 && !(exists|t: int| 0 <= t < rest.len() && rest[t].0 <= n) {
        assert forall|q: (u32, u32)| #[trigger] ss.contains(q) && q.0 <= n implies q == x by {
            if rest.contains(q) {
                let k = choose|k: int| 0 <= k < rest.len() && rest[k] == q;
                assert(rest[k].0 <= n);
            }
        }
        x
    } else {
        let t = if j < ss.len() - 1 {
            j
        } else {
            choose|t: int| 0 <= t < rest.len() && rest[t].0 <= n
        };
        assert(rest[t] == ss[t]);
        let p0 = lemma_farthest_exists(rest, n, t);
        assert(ss.contains(p0)) by {
            let k = choose|k: int| 0 <= k < rest.len() && rest[k] == p0;
            assert(ss[k] == p0);
        }
        if x.0 <= n && (x.1 > p0.1 || (x.1 == p0.1 && x.0 < p0.0)) {
            assert forall|q: (u32, u32)| #[trigger] ss.contains(q) && q.0 <= n implies q.1 <= x.1
                && (q.1 == x.1 ==> x.0 <= q.0) by {
                if q != x {
                    assert(rest.contains(q));
                }
            }
            x
        } else {
            assert forall|q: (u32, u32)| #[trigger] ss.contains(q) && q.0 <= n implies q.1 <= p0.1
                && (q.1 == p0.1 ==> p0.0 <= q.0) by {
                if q != x {
                    assert(rest.contains(q));
                }
            }
            p0
        }
    }
}

/// The span reaching farthest from a number that some span holds also holds it.
proof fn lemma_pick_covers(ss: Seq<(u32, u32)>, n: u32)
    requires
        held(ss, n),
    ensures
        farthest(ss, n, pick(ss, n)),
        covers(pick(ss, n), n),
{
    let j = choose|j: int| 0 <= j < ss.len() && #[trigger] covers(ss[j], n);
    let p = lemma_farthest_exists(ss, n, j);
    lemma_pick(ss, n, p);
    assert(ss.contains(ss[j]));
}

/// What the greedy choice from `ns[i..]` is made of: each span reaches farthest from its
/// pick point and holds it, every later pick point lies past the end of every earlier span,
/// and every number is held by `cur` or by a chosen span.
proof fn lemma_greedy_facts(ss: Seq<(u32, u32)>, ns: Seq<u32>, i: int, cur: Option<(u32, u32)>)
    requires
        ascending(ns),
        covers_all(ss, ns),
        0 <= i <= ns.len(),
    ensures
        ({
            let res = greedy_from(ss, ns, i, cur);
            let pts = pick_points(ss, ns, i, cur);
            &&& res.len() == pts.len()
            &&& forall|j: int|
                0 <= j < pts.len() ==> exists|k: int| i <= k < ns.len() && ns[k] == #[trigger] pts[j]
            &&& forall|j: int|
                0 <= j < res.len() ==> farthest(ss, pts[j], #[trigger] res[j]) && covers(res[j], pts[j])
            &&& forall|j: int, l: int| 0 <= j < l < res.len() ==> #[trigger] res[j].1 < #[trigger] pts[l]
            &&& cur matches Some(c) ==> (pts.len() > 0 ==> !covers(c, pts[0]))
            &&& forall|k: int|
                i <= k < ns.len() ==> (cur matches Some(c) && covers(c, ns[k])) || #[trigger] held(res, ns[k])
        }),
    decreases ns.len() - i,
{
    let res = greedy_from(ss, ns, i, cur);
    let pts = pick_points(ss, ns, i, cur);
    if i == ns.len() {
    } else if cur matches Some(c) && covers(c, ns[i]) {
        lemma_greedy_facts(ss, ns, i + 1, cur);
        assert forall|j: int| 0 <= j < pts.len() implies exists|k: int| i <= k < ns.len() && ns[k] == #[trigger] pts[j] by {
            let k = choose|k: int| i + 1 <= k < ns.len() && ns[k] == pts[j];
        }
    } else {
        let p = pick(ss, ns[i]);
        assert(held(ss, ns[i]));
        lemma_pick_covers(ss, ns[i]);
        lemma_greedy_facts(ss, ns, i + 1, Some(p));
        let r2 = greedy_from(ss, ns, i + 1, Some(p));
        let p2 = pick_points(ss, ns, i + 1, Some(p));
        assert(res == seq![p] + r2);
        assert(pts == seq![ns[i]] + p2);
        assert forall|j: int| 0 <= j < pts.len() implies exists|k: int| i <= k < ns.len() && ns[k] == #[trigger] pts[j] by {
            if j == 0 {
                assert(ns[i] == pts[0]);
            } else {
                assert(pts[j] == p2[j - 1]);
                let k = choose|k: int| i + 1 <= k < ns.len() && ns[k] == p2[j - 1];
            }
        }
        assert forall|j: int| 0 <= j < res.len() implies farthest(ss, pts[j], #[trigger] res[j]) && covers(res[j], pts[j]) by {
            if j > 0 {
                assert(res[j] == r2[j - 1]);
                assert(pts[j] == p2[j - 1]);
            }
        }
        if p2.len() > 0 {
            let k0 = choose|k: int| i + 1 <= k < ns.len() && ns[k] == p2[0];
            assert(ns[i] <= ns[k0]);
            assert(p.1 < p2[0]);
        }
        assert forall|j: int, l: int| 0 <= j < l < res.len() implies #[trigger] res[j].1 < #[trigger] pts[l] by {
            assert(pts[l] == p2[l - 1]);
            if j == 0 {
                if l > 1 {
                    assert(r2[0].1 < p2[l - 1]);
                    assert(covers(r2[0], p2[0]));
                }
            } else {
                assert(res[j] == r2[j - 1]);
            }
        }
        assert forall|k: int| i <= k < ns.len() implies (cur matches Some(c) && covers(c, ns[k])) || #[trigger] held(res, ns[k]) by {
            if k == i {
                assert(covers(res[0], ns[k]));
            } else if covers(p, ns[k]) {
                assert(covers(res[0], ns[k]));
            } else {
                assert(held(r2, ns[k]));
                let t = choose|t: int| 0 <= t < r2.len() && #[trigger] covers(r2[t], ns[k]);
                assert(res[t + 1] == r2[t]);
                assert(covers(res[t + 1], ns[k]));
            }
        }
    }
}

/// The greedy choice holds every number, with spans taken from `ss`.
pub proof fn lemma_greedy_covers(ss: Seq<(u32, u32)>, ns: Seq<u32>)
    requires
        ascending(ns),
        covers_all(ss, ns),
    ensures
        covers_all(greedy(ss, ns), ns),
        forall|j: int| 0 <= j < greedy(ss, ns).len() ==> ss.contains(#[trigger] greedy(ss, ns)[j]),
{
    lemma_greedy_facts(ss, ns, 0, None);
}

/// No choice of spans of `ss` that holds every number of `ns` has fewer spans than the
/// greedy choice.
pub proof fn lemma_greedy_is_optimal(ss: Seq<(u32, u32)>, ns: Seq<u32>, other: Seq<(u32, u32)>)
    requires
        ascending(ns),
        covers_all(ss, ns),
        forall|j: int| 0 <= j < other.len() ==> ss.contains(#[trigger] other[j]),
        covers_all(other, ns),
    ensures
        greedy(ss, ns).len() <= other.len(),
{
    lemma_greedy_facts(ss, ns, 0, None);
    let res = greedy(ss, ns);
    let pts = pick_points(ss, ns, 0, None);
    let m = res.len() as int;
    let f = |j: int| choose|t: int| 0 <= t < other.len() && #[trigger] covers(other[t], pts[j]);
    assert forall|j: int| 0 <= j < m implies 0 <= #[trigger] f(j) < other.len() && covers(other[f(j)], pts[j]) by {
        let k = choose|k: int| 0 <= k < ns.len() && ns[k] == pts[j];
        assert(held(other, ns[k]));
    }
    let dom = set_int_range(0, m);
    let img = set_int_range(0, other.len() as int);
    assert forall|a: int, b: int| dom.contains(a) && dom.contains(b) && #[trigger] f(a) == #[trigger] f(b) implies a == b by {
        if a != b {
            let (j, l) = if a < b { (a, b) } else { (b, a) };
            let q = other[f(j)];
            assert(ss.contains(q));
            assert(covers(q, pts[j]));
            assert(farthest(ss, pts[j], res[j]));
            assert(q.1 <= res[j].1);
            assert(res[j].1 < pts[l]);
            assert(covers(q, pts[l]));
        }
    }
    lemma_int_range(0, m);
    lemma_int_range(0, other.len() as int);
    let image = dom.map(f);
    assert(vstd::relations::injective_on(f, dom));
    vstd::set_lib::lemma_map_size(dom, image, f);
    assert forall|t: int| image.contains(t) implies img.contains(t) by {
        let j = choose|j: int| dom.contains(j) && f(j) == t;
    }
    vstd::set_lib::lemma_len_subset(image, img);
}

/// Two collections of spans that hold the same spans give the same greedy choice from any
/// point on.
proof fn lemma_greedy_same_spans(
    ss1: Seq<(u32, u32)>,
    ss2: Seq<(u32, u32)>,
    ns: Seq<u32>,
    i: int,
    cur: Option<(u32, u32)>,
)
    requires
        forall|q: (u32, u32)| #[trigger] ss1.contains(q) <==> ss2.contains(q),
        covers_all(ss1, ns),
        0 <= i <= ns.len(),
    ensures
        greedy_from(ss1, ns, i, cur) == greedy_from(ss2, ns, i, cur),
    decreases ns.len() - i,
{
    if i < ns.len() {
        if cur matches Some(c) && covers(c, ns[i]) {
            lemma_greedy_same_spans(ss1, ss2, ns, i + 1, cur);
        } else {
            assert(held(ss1, ns[i]));
            lemma_pick_covers(ss1, ns[i]);
            let p = pick(ss1, ns[i]);
            assert(farthest(ss2, ns[i], p)) by {
                assert(ss2.contains(p));
                assert forall|q: (u32, u32)| #[trigger] ss2.contains(q) && q.0 <= ns[i] implies q.1
                    <= p.1 && (q.1 == p.1 ==> p.0 <= q.0) by {
                    assert(ss1.contains(q));
                }
            }
            lemma_pick(ss2, ns[i], p);
            lemma_greedy_same_spans(ss1, ss2, ns, i + 1, Some(p));
        }
    }
}

/// The greedy choice does not depend on the order of the spans or of the numbers: spans
/// that hold the same spans, and ascending numbers that hold the same numbers the same
/// number of times, give the same choice.
pub proof fn lemma_choice_ignores_order(
    ss1: Seq<(u32, u32)>,
    ss2: Seq<(u32, u32)>,
    ns1: Seq<u32>,
    ns2: Seq<u32>,
)
    requires
        forall|q: (u32, u32)| #[trigger] ss1.contains(q) <==> ss2.contains(q),
        ascending(ns1),
        ascending(ns2),
        ns1.to_multiset() == ns2.to_multiset(),
        covers_all(ss1, ns1),
    ensures
        greedy(ss1, ns1) == greedy(ss2, ns2),
{
    let leq = |a: u32, b: u32| a <= b;
    assert(vstd::relations::total_ordering(leq));
    assert(vstd::relations::sorted_by(ns1, leq));
    assert(vstd::relations::sorted_by(ns2, leq));
    vstd::seq_lib::lemma_sorted_unique(ns1, ns2, leq);
    lemma_greedy_same_spans(ss1, ss2, ns1, 0, None);
}

/// A span seen as an offer: its start as the distance, the room left above its end as the
/// price. One span encloses another exactly when its offer is no farther and no dearer.
pub open spec fn offer(p: (u32, u32)) -> Hotel {
    Hotel { distance: p.0, price: (u32::MAX - p.1) as u32 }
}

/// The offer of each span.
pub open spec fn offers(s: Seq<(u32, u32)>) -> Seq<Hotel> {
    s.map_values(|p: (u32, u32)| offer(p))
}

/// `st` lists, by start, the spans of `ss` that no other span of `ss` encloses: a chain of
/// spans of `ss` that together enclose every span of `ss`.
pub open spec fn maximal_chain(ss: Seq<(u32, u32)>, st: Seq<(u32, u32)>) -> bool {
    &&& chain(st)
    &&& forall|j: int| 0 <= j < st.len() ==> #[trigger] ss.contains(st[j])
    &&& forall|q: (u32, u32)|
        #[trigger] ss.contains(q) ==> exists|j: int| 0 <= j < st.len() && encloses(#[trigger] st[j], q)
}

/// The candidate offers of a collection of spans, read back as spans, are its maximal chain.
proof fn lemma_chain_from_candidates(ss: Seq<(u32, u32)>, st: Seq<(u32, u32)>)
    requires
        are_candidates(offers(ss), offers(st)),
    ensures
        maximal_chain(ss, st),
{
    let os = offers(ss);
    let ot = offers(st);
    assert forall|a: int, b: int| 0 <= a < b < st.len() implies st[a].0 < st[b].0 && st[a].1 < st[b].1 by {
        assert(ot[a] == offer(st[a]) && ot[b] == offer(st[b]));
        assert(is_candidate(os, ot[a]));
        assert(is_candidate(os, ot[b]));
        assert(!dominates(ot[a], ot[b]));
    }
    assert forall|j: int| 0 <= j < st.len() implies #[trigger] ss.contains(st[j]) by {
        assert(ot[j] == offer(st[j]));
        assert(is_candidate(os, ot[j]));
        let k = choose|k: int| 0 <= k < os.len() && os[k] == ot[j];
        assert(os[k] == offer(ss[k]));
        assert(ss[k] == st[j]);
    }
    assert forall|q: (u32, u32)| #[trigger] ss.contains(q) implies exists|j: int| 0 <= j < st.len() && encloses(#[trigger] st[j], q) by {
        let k = choose|k: int| 0 <= k < ss.len() && ss[k] == q;
        assert(os[k] == offer(q));
        let c = lemma_dominated_by_candidate(os, offer(q));
        assert(ot.contains(c));
        let j = choose|j: int| 0 <= j < ot.len() && ot[j] == c;
        assert(ot[j] == offer(st[j]));
        assert(encloses(st[j], q));
    }
}

/// A span that reaches farthest within a maximal chain reaches farthest among all the spans.
proof fn lemma_farthest_transfer(ss: Seq<(u32, u32)>, st: Seq<(u32, u32)>, n: u32, p: (u32, u32))
    requires
        maximal_chain(ss, st),
        farthest(st, n, p),
    ensures
        farthest(ss, n, p),
{
    let k = choose|k: int| 0 <= k < st.len() && st[k] == p;
    assert(ss.contains(st[k]));
    assert forall|q: (u32, u32)| #[trigger] ss.contains(q) && q.0 <= n implies q.1 <= p.1 && (q.1
        == p.1 ==> p.0 <= q.0) by {
        let j = choose|j: int| 0 <= j < st.len() && encloses(#[trigger] st[j], q);
        assert(st.contains(st[j]));
    }
}

/// Where the search for the next range begins: at the start of a chain, or just after the
/// range taken last, which lies wholly before `n`, some range starts at or before `n`.
proof fn lemma_next_start(ss: Seq<(u32, u32)>, st: Seq<(u32, u32)>, off: int, cur: Option<(u32, u32)>, n: u32)
    requires
        maximal_chain(ss, st),
        held(ss, n),
        0 <= off <= st.len(),
        cur is None ==> off == 0,
        cur matches Some(c) ==> (off >= 1 && c == st[off - 1] && c.0 <= n && !covers(c, n)),
    ensures
        off < st.len(),
        st[off].0 <= n,
{
    let q0 = choose|j: int| 0 <= j < ss.len() && #[trigger] covers(ss[j], n);
    assert(ss.contains(ss[q0]));
    let t = choose|t: int| 0 <= t < st.len() && encloses(#[trigger] st[t], ss[q0]);
    assert(covers(st[t], n));
    if off >= 1 {
        if t < off - 1 {
            assert(st[t].1 < st[off - 1].1);
        }
    }
    if t > off {
        assert(st[off].0 < st[t].0);
    }
}

/// In a chain, the last range of those starting at or before `n` reaches farthest from `n`.
proof fn lemma_chain_pick(ss: Seq<(u32, u32)>, st: Seq<(u32, u32)>, off: int, idx: int, n: u32)
    requires
        maximal_chain(ss, st),
        0 <= off,
        1 <= idx,
        off + idx <= st.len(),
        forall|u: int| off <= u < off + idx ==> (#[trigger] st[u]).0 <= n,
        off + idx < st.len() ==> st[off + idx].0 > n,
    ensures
        farthest(ss, n, st[off + idx - 1]),
        pick(ss, n) == st[off + idx - 1],
{
    let j = off + idx - 1;
    let p = st[j];
    assert forall|q: (u32, u32)| #[trigger] st.contains(q) && q.0 <= n implies q.1 <= p.1 && (q.1
        == p.1 ==> p.0 <= q.0) by {
        let u = choose|u: int| 0 <= u < st.len() && st[u] == q;
        if u > j + 1 {
            assert(st[j + 1].0 < st[u].0);
        }
        if u < j {
            assert(st[u].1 < st[j].1);
        }
    }
    assert(st.contains(p));
    assert(st[j].0 <= n);
    lemma_farthest_transfer(ss, st, n, p);
    lemma_pick(ss, n, p);
}

/// Taking the span that reaches farthest from a number that the last span does not hold
/// moves one step along the greedy choice.
proof fn lemma_greedy_pick_step(
    ss: Seq<(u32, u32)>,
    ns: Seq<u32>,
    k: int,
    cur: Option<(u32, u32)>,
    done: Seq<(u32, u32)>,
    p: (u32, u32),
)
    requires
        0 <= k < ns.len(),
        pick(ss, ns[k]) == p,
        cur matches Some(c) ==> !covers(c, ns[k]),
    ensures
        done + greedy_from(ss, ns, k, cur) == done.push(p) + greedy_from(ss, ns, k + 1, Some(p)),
{
    let g1 = greedy_from(ss, ns, k + 1, Some(p));
    assert(greedy_from(ss, ns, k, cur) == seq![p] + g1);
    assert(done + (seq![p] + g1) =~= done.push(p) + g1);
}

/// Mapping two sequences that hold the same items gives two sequences that hold the same
/// items.
proof fn lemma_map_multiset<A, B>(s: Seq<A>, t: Seq<A>, f: spec_fn(A) -> B)
    requires
        s.to_multiset() == t.to_multiset(),
    ensures
        s.map_values(f).to_multiset() == t.map_values(f).to_multiset(),
    decreases s.len(),
{
    broadcast use {vstd::seq_lib::group_to_multiset_ensures, vstd::multiset::group_multiset_axioms};

    if s.len() == 0 {
        vstd::seq_lib::to_multiset_len(s);
        vstd::seq_lib::to_multiset_len(t);
        assert(t.len() == 0);
        assert(s.map_values(f) =~= t.map_values(f));
    } else {
        let x = s.last();
        let s1 = s.drop_last();
        assert(s == s1.push(x));
        assert(t.to_multiset().count(x) > 0);
        assert(t.contains(x));
        let i = choose|i: int| 0 <= i < t.len() && t[i] == x;
        let t1 = t.remove(i);
        assert(t1.to_multiset() == t.to_multiset().remove(x));
        assert(s1.to_multiset() =~= t1.to_multiset());
        lemma_map_multiset(s1, t1, f);
        assert(s.map_values(f) =~= s1.map_values(f).push(f(x)));
        let tm = t.map_values(f);
        assert(tm.remove(i) =~= t1.map_values(f));
        assert(tm[i] == f(x));
        assert(tm.remove(i).to_multiset() == tm.to_multiset().remove(f(x)));
        assert(tm.to_multiset().count(f(x)) > 0) by {
            assert(tm.contains(f(x)));
        }
        assert(tm.to_multiset() =~= tm.to_multiset().remove(f(x)).insert(f(x)));
    }
}

impl Assignment5 {
    /// Chooses ranges that together hold every number: the ranges that no other range
    /// encloses are kept, and the numbers, from the least, each take the range that reaches
    /// farthest from the first number that no range taken so far holds.
    pub fn find_optimal_ranges_for_numbers<'i>(intervals: &'i [Intervals], numbers: &[Int]) -> (r: Vec<
        &'i Intervals,
    >)
        requires
            forall|k: int| 0 <= k < intervals@.len() ==> fresh(&#[trigger] intervals@[k]),
            covers_all(spans(intervals@), numbers@),
            intervals@.len() <= i64::MAX,
        ensures
            exists|ns: Seq<u32>|
                {
                    &&& ascending(ns)
                    &&& ns.to_multiset() == numbers@.to_multiset()
                    &&& spans_of(r@) == greedy(spans(intervals@), ns)
                },
            covers_all(spans_of(r@), numbers@),
            forall|j: int| 0 <= j < r@.len() ==> spans(intervals@).contains(#[trigger] spans_of(r@)[j]),
            forall|j: int| 0 <= j < r@.len() ==> intervals@.contains(*#[trigger] r@[j]),
    {
        let ghost ss = spans(intervals@);
        // Sort by start
        let mut keys: Vec<(i64, i64)> = Vec::new();
        let mut i: usize = 0;
        while i < intervals.len()
            invariant
                i <= intervals@.len(),
                intervals@.len() <= i64::MAX,
                forall|k: int| 0 <= k < intervals@.len() ==> fresh(&#[trigger] intervals@[k]),
                keys@.len() == i,
                forall|t: int| 0 <= t < i ==> #[trigger] keys@[t] == (intervals@[t]@.start as i64, t as i64),
            decreases intervals@.len() - i,
        {
            keys.push((range_start(&intervals[i]) as i64, i as i64));
            i = i + 1;
        }
        let sorted_keys = sort_pairs(&keys);
        proof {
            broadcast use vstd::seq_lib::group_to_multiset_ensures;

            assert forall|a: int| 0 <= a < sorted_keys@.len() implies 0 <= (#[trigger] sorted_keys@[a]).1
                < intervals@.len() && sorted_keys@[a].0 == intervals@[sorted_keys@[a].1 as int]@.start by {
                assert(sorted_keys@.to_multiset().count(sorted_keys@[a]) > 0);
                assert(keys@.contains(sorted_keys@[a]));
                let u = choose|u: int| 0 <= u < keys@.len() && keys@[u] == sorted_keys@[a];
            }
        }
        let mut by_start: Vec<&'i Intervals> = Vec::new();
        let mut t: usize = 0;
        while t < sorted_keys.len()
            invariant
                t <= sorted_keys@.len(),
                forall|a: int| 0 <= a < sorted_keys@.len() ==> 0 <= (#[trigger] sorted_keys@[a]).1
                    < intervals@.len() && sorted_keys@[a].0 == intervals@[sorted_keys@[a].1 as int]@.start,
                by_start@.len() == t,
                forall|a: int| 0 <= a < t ==> #[trigger] by_start@[a] == &intervals@[sorted_keys@[a].1 as int],
            decreases sorted_keys@.len() - t,
        {
            let idx = sorted_keys[t].1 as usize;
            by_start.push(&intervals[idx]);
            t = t + 1;
        }
        let ghost sorted_spans = spans_of(by_start@);
        proof {
            broadcast use vstd::seq_lib::group_to_multiset_ensures;

            assert forall|q: (u32, u32)| #[trigger] sorted_spans.contains(q) <==> ss.contains(q) by {
                if sorted_spans.contains(q) {
                    let a = choose|a: int| 0 <= a < sorted_spans.len() && sorted_spans[a] == q;
                    assert(by_start@[a] == &intervals@[sorted_keys@[a].1 as int]);
                    assert(ss[sorted_keys@[a].1 as int] == q);
                }
                if ss.contains(q) {
                    let u = choose|u: int| 0 <= u < ss.len() && ss[u] == q;
                    assert(keys@[u] == (intervals@[u]@.start as i64, u as i64));
                    assert(keys@.to_multiset().count(keys@[u]) > 0);
                    assert(sorted_keys@.contains(keys@[u]));
                    let a = choose|a: int| 0 <= a < sorted_keys@.len() && sorted_keys@[a] == keys@[u];
                    assert(sorted_spans[a] == q);
                }
            }
            assert forall|a: int, b: int| 0 <= a <= b < by_start@.len() implies (#[trigger] by_start@[a])@.start
                <= (#[trigger] by_start@[b])@.start by {
                assert(pair_le(sorted_keys@[a], sorted_keys@[b]));
            }
        }
        // Sort the numbers
        let mut nkeys: Vec<(i64, i64)> = Vec::new();
        let mut i: usize = 0;
        while i < numbers.len()
            invariant
                i <= numbers@.len(),
                nkeys@.len() == i,
                forall|t: int| 0 <= t < i ==> #[trigger] nkeys@[t] == (numbers@[t] as i64, 0i64),
            decreases numbers@.len() - i,
        {
            nkeys.push((numbers[i] as i64, 0i64));
            i = i + 1;
        }
        let sorted_nkeys = sort_pairs(&nkeys);
        proof {
            broadcast use vstd::seq_lib::group_to_multiset_ensures;

            assert forall|a: int| 0 <= a < sorted_nkeys@.len() implies 0 <= (#[trigger] sorted_nkeys@[a]).0
                <= u32::MAX by {
                assert(sorted_nkeys@.to_multiset().count(sorted_nkeys@[a]) > 0);
                assert(nkeys@.contains(sorted_nkeys@[a]));
                let u = choose|u: int| 0 <= u < nkeys@.len() && nkeys@[u] == sorted_nkeys@[a];
            }
        }
        let mut sorted_numbers: Vec<Int> = Vec::new();
        let mut t: usize = 0;
        while t < sorted_nkeys.len()
            invariant
                t <= sorted_nkeys@.len(),
                forall|a: int| 0 <= a < sorted_nkeys@.len() ==> 0 <= (#[trigger] sorted_nkeys@[a]).0 <= u32::MAX,
                sorted_numbers@.len() == t,
                forall|a: int| 0 <= a < t ==> #[trigger] sorted_numbers@[a] == sorted_nkeys@[a].0 as u32,
            decreases sorted_nkeys@.len() - t,
        {
            sorted_numbers.push(sorted_nkeys[t].0 as u32);
            t = t + 1;
        }
        let ghost ns = sorted_numbers@;
        proof {
            let g = |p: (i64, i64)| p.0 as u32;
            assert(ns =~= sorted_nkeys@.map_values(g));
            assert(nkeys@.map_values(g) =~= numbers@);
            lemma_map_multiset(sorted_nkeys@, nkeys@, g);
            assert(ns.to_multiset() == numbers@.to_multiset());
            assert forall|a: int, b: int| 0 <= a <= b < ns.len() implies ns[a] <= ns[b] by {
                assert(pair_le(sorted_nkeys@[a], sorted_nkeys@[b]));
            }
            broadcast use vstd::seq_lib::group_to_multiset_ensures;

            assert forall|k: int| 0 <= k < ns.len() implies #[trigger] held(ss, ns[k]) by {
                assert(ns.to_multiset().count(ns[k]) > 0);
                assert(numbers@.contains(ns[k]));
                let u = choose|u: int| 0 <= u < numbers@.len() && numbers@[u] == ns[k];
                assert(held(ss, numbers@[u]));
            }
        }
        let overlap = Self::filter_non_enclosed_ranges(by_start.as_slice());
        proof {
            let st = spans_of(overlap@);
            assert forall|j: int| 0 <= j < st.len() implies #[trigger] ss.contains(st[j]) by {
                assert(sorted_spans.contains(st[j]));
            }
            assert forall|q: (u32, u32)| #[trigger] ss.contains(q) implies exists|j: int| 0 <= j < st.len() && encloses(#[trigger] st[j], q) by {
                assert(sorted_spans.contains(q));
            }
        }
        let result = Self::filter_ranges_in_numbers(overlap.as_slice(), sorted_numbers.as_slice(), Ghost(ss));
        proof {
            broadcast use vstd::seq_lib::group_to_multiset_ensures;

            lemma_greedy_covers(ss, ns);
            let res = spans_of(result@);
            assert forall|k: int| 0 <= k < numbers@.len() implies #[trigger] held(res, numbers@[k]) by {
                assert(numbers@.to_multiset().count(numbers@[k]) > 0);
                assert(ns.contains(numbers@[k]));
                let a = choose|a: int| 0 <= a < ns.len() && ns[a] == numbers@[k];
                assert(held(res, ns[a]));
            }
            assert(ascending(ns) && ns.to_multiset() == numbers@.to_multiset() && res == greedy(ss, ns));
            let ix = choose|ix: Seq<int>| #[trigger] picked_at(result@, overlap@, ix);
            assert forall|j: int| 0 <= j < result@.len() implies intervals@.contains(*#[trigger] result@[j]) by {
                assert(overlap@[ix[j]] == result@[j]);
                assert(by_start@.contains(overlap@[ix[j]]));
                let a = choose|a: int| 0 <= a < by_start@.len() && by_start@[a] == overlap@[ix[j]];
                assert(by_start@[a] == &intervals@[sorted_keys@[a].1 as int]);
                assert(intervals@[sorted_keys@[a].1 as int] == *result@[j]);
            }
        }
        result
    }

    /// Whether every number lies in some range: what `find_optimal_ranges_for_numbers`
    /// asks of its input.
    pub fn covers_every_number(intervals: &[Intervals], numbers: &[Int]) -> (r: bool)
        requires
            forall|k: int| 0 <= k < intervals@.len() ==> fresh(&#[trigger] intervals@[k]),
        ensures
            r == covers_all(spans(intervals@), numbers@),
    {
        let ghost ss = spans(intervals@);
        let mut k: usize = 0;
        while k < numbers.len()
            invariant
                k <= numbers@.len(),
                ss == spans(intervals@),
                forall|t: int| 0 <= t < intervals@.len() ==> fresh(&#[trigger] intervals@[t]),
                forall|t: int| 0 <= t < k ==> #[trigger] held(ss, numbers@[t]),
            decreases numbers@.len() - k,
        {
            let n = numbers[k];
            let mut found = false;
            let mut j: usize = 0;
            while j < intervals.len()
                invariant
                    j <= intervals@.len(),
                    ss == spans(intervals@),
                    forall|t: int| 0 <= t < intervals@.len() ==> fresh(&#[trigger] intervals@[t]),
                    found ==> held(ss, n),
                    !found ==> forall|t: int| 0 <= t < j ==> !#[trigger] covers(ss[t], n),
                decreases intervals@.len() - j,
            {
                if range_start(&intervals[j]) <= n && n <= range_end(&intervals[j]) {
                    proof {
                        assert(covers(ss[j as int], n));
                    }
                    found = true;
                }
                j = j + 1;
            }
            if !found {
                proof {
                    assert(!held(ss, numbers@[k as int]));
                }
                return false;
            }
            k = k + 1;
        }
        true
    }

    /// How `self_` relates to `other`, which starts no earlier.
    fn check_overlap_status(self_: &Intervals, other: &Intervals) -> (r: ContainmentType)
        requires
            fresh(self_),
            fresh(other),
            other@.start >= self_@.start,
        ensures
            match r {
                ContainmentType::ContainsOther => self_@.start <= other@.start && self_@.end
                    >= other@.end,
                ContainmentType::ContainsSelf => self_@.start == other@.start && self_@.end
                    < other@.end,
                ContainmentType::PartialOverlap => self_@.start < other@.start && self_@.end
                    < other@.end,
            },
    {
        let s_start = range_start(self_);
        let s_end = range_end(self_);
        let o_start = range_start(other);
        let o_end = range_end(other);
        if s_start <= o_start && s_end >= o_end {
            ContainmentType::ContainsOther
        } else if s_start == o_start && s_end < o_end {
            ContainmentType::ContainsSelf
        } else {
            ContainmentType::PartialOverlap
        }
    }

    /// Keeps, from ranges sorted by start, those that no other range encloses, each once:
    /// a stack whose top is replaced by a range that starts with it and reaches farther,
    /// and which a range that starts and ends later is pushed on.
    fn filter_non_enclosed_ranges<'i>(intervals: &[&'i Intervals]) -> (r: Vec<&'i Intervals>)
        requires
            forall|k: int| 0 <= k < intervals@.len() ==> fresh(#[trigger] intervals@[k]),
            forall|a: int, b: int|
                0 <= a <= b < intervals@.len() ==> (#[trigger] intervals@[a])@.start
                    <= (#[trigger] intervals@[b])@.start,
        ensures
            maximal_chain(spans_of(intervals@), spans_of(r@)),
            forall|k: int| 0 <= k < r@.len() ==> fresh(#[trigger] r@[k]),
            forall|k: int| 0 <= k < r@.len() ==> intervals@.contains(#[trigger] r@[k]),
    {
        let mut stich_stack: Vec<&'i Intervals> = Vec::new();
        let ghost all = spans_of(intervals@);
        let mut i: usize = 0;
        while i < intervals.len()
            invariant
                i <= intervals@.len(),
                all == spans_of(intervals@),
                forall|k: int| 0 <= k < intervals@.len() ==> fresh(#[trigger] intervals@[k]),
                forall|a: int, b: int|
                    0 <= a <= b < intervals@.len() ==> (#[trigger] intervals@[a])@.start
                        <= (#[trigger] intervals@[b])@.start,
                forall|k: int| 0 <= k < stich_stack@.len() ==> fresh(#[trigger] stich_stack@[k]),
                forall|k: int| 0 <= k < stich_stack@.len() ==> intervals@.contains(#[trigger] stich_stack@[k]),
                are_candidates(offers(all.take(i as int)), offers(spans_of(stich_stack@))),
                i > 0 ==> stich_stack@.len() > 0,
                stich_stack@.len() > 0 ==> forall|g: Hotel| #[trigger]
                    offers(all.take(i as int)).contains(g) ==> offers(
                        spans_of(stich_stack@),
                    ).last().price <= g.price,
            decreases intervals@.len() - i,
        {
            let interval = intervals[i];
            proof {
                assert(intervals@.contains(interval)) by {
                    assert(intervals@[i as int] == interval);
                }
            }
            let ghost seen = offers(all.take(i as int));
            let ghost st = offers(spans_of(stich_stack@));
            let ghost x = offer(span(interval));
            proof {
                assert forall|g: Hotel| #[trigger] seen.contains(g) implies g.distance <= x.distance by {
                    let k = choose|k: int| 0 <= k < seen.len() && seen[k] == g;
                    assert(seen[k] == offer(all[k]));
                    assert(intervals@[k]@.start <= intervals@[i as int]@.start);
                }
                lemma_stack_step(seen, st, x);
                assert(offers(all.take(i + 1)) =~= seen.push(x));
            }
            if stich_stack.len() == 0 {
                stich_stack.push(interval);
                proof {
                    assert(offers(spans_of(stich_stack@)) =~= push_spec(st, x));
                }
            } else {
                let top = stich_stack.len() - 1;
                let last = stich_stack[top];
                proof {
                    assert(st[top as int] == offer(span(last)));
                    assert(is_candidate(seen, st[top as int]));
                }
                match Self::check_overlap_status(last, interval) {
                    ContainmentType::ContainsSelf => {
                        stich_stack.set(top, interval);
                        proof {
                            assert(offers(spans_of(stich_stack@)) =~= push_spec(st, x));
                        }
                    },
                    ContainmentType::PartialOverlap => {
                        stich_stack.push(interval);
                        proof {
                            assert(offers(spans_of(stich_stack@)) =~= push_spec(st, x));
                        }
                    },
                    ContainmentType::ContainsOther => {
                        proof {
                            assert(offers(spans_of(stich_stack@)) =~= push_spec(st, x));
                        }
                    },
                }
            }
            i = i + 1;
        }
        proof {
            assert(all.take(intervals@.len() as int) =~= all);
            lemma_chain_from_candidates(all, spans_of(stich_stack@));
        }
        stich_stack
    }

    /// Finds the first range that starts after `n`, and returns the range just before it
    /// (the last one, if none starts after `n`) with the ranges from that first one on.
    pub fn find_farthest_interval<'l, 'i>(intervals: &'l [&'i Intervals], n: Int) -> (r: (
        &'i Intervals,
        &'l [&'i Intervals],
    ))
        requires
            intervals@.len() > 0,
            forall|k: int| 0 <= k < intervals@.len() ==> fresh(#[trigger] intervals@[k]),
            intervals@[0]@.start <= n,
        ensures
            exists|idx: int|
                {
                    &&& 1 <= idx <= intervals@.len()
                    &&& forall|k: int| 0 <= k < idx ==> (#[trigger] intervals@[k])@.start <= n
                    &&& idx < intervals@.len() ==> intervals@[idx]@.start > n
                    &&& r.0 == intervals@[idx - 1]
                    &&& r.1@ == intervals@.subrange(idx, intervals@.len() as int)
                },
    {
        let mut idx: usize = 0;
        while idx < intervals.len()
            invariant
                idx <= intervals@.len(),
                forall|k: int| 0 <= k < intervals@.len() ==> fresh(#[trigger] intervals@[k]),
                intervals@[0]@.start <= n,
                forall|k: int| 0 <= k < idx ==> (#[trigger] intervals@[k])@.start <= n,
            decreases intervals@.len() - idx,
        {
            let interval = intervals[idx];
            if range_start(interval) > n {
                let (_, rest) = intervals.split_at(idx);
                return (intervals[idx - 1], rest);
            }
            idx = idx + 1;
        }
        let end_idx = intervals.len() - 1;
        let (_, rest) = intervals.split_at(end_idx + 1);
        (intervals[end_idx], rest)
    }

    /// Walks the ascending numbers: a number that the range taken last holds is passed
    /// over; any other takes the range that reaches farthest from it, searched for among
    /// the ranges after the one taken last.
    fn filter_ranges_in_numbers<'i>(
        interval_list: &[&'i Intervals],
        nums: &[Int],
        Ghost(ss): Ghost<Seq<(u32, u32)>>,
    ) -> (r: Vec<&'i Intervals>)
        requires
            maximal_chain(ss, spans_of(interval_list@)),
            forall|k: int| 0 <= k < interval_list@.len() ==> fresh(#[trigger] interval_list@[k]),
            ascending(nums@),
            covers_all(ss, nums@),
        ensures
            spans_of(r@) == greedy(ss, nums@),
            subsequence_of(r@, interval_list@),
    {
        let ghost st = spans_of(interval_list@);
        let ghost mut ix: Seq<int> = Seq::empty();
        let mut candidates: Vec<&'i Intervals> = Vec::new();
        let mut curr_candidate: Option<&'i Intervals> = None;
        let mut list: &[&'i Intervals] = interval_list;
        let ghost mut off: int = 0;
        let mut k: usize = 0;
        while k < nums.len()
            invariant
                st == spans_of(interval_list@),
                maximal_chain(ss, st),
                forall|t: int| 0 <= t < interval_list@.len() ==> fresh(#[trigger] interval_list@[t]),
                ascending(nums@),
                covers_all(ss, nums@),
                k <= nums@.len(),
                0 <= off <= st.len(),
                list@ == interval_list@.subrange(off, interval_list@.len() as int),
                spans_of(candidates@) + greedy_from(ss, nums@, k as int, opt_span(curr_candidate))
                    == greedy(ss, nums@),
                picked_at(candidates@, interval_list@, ix),
                forall|a: int| 0 <= a < ix.len() ==> #[trigger] ix[a] < off,
                curr_candidate is None ==> k == 0 && off == 0,
                curr_candidate matches Some(c) ==> (off >= 1 && k >= 1 && span(c) == st[off - 1]
                    && c@.start <= nums@[k - 1] && fresh(c)),
            decreases nums@.len() - k,
        {
            let n = nums[k];
            let held_now = match curr_candidate {
                Some(c) => c.contains(&n),
                None => false,
            };
            if held_now {
                k = k + 1;
                continue;
            }
            proof {
                assert(held(ss, nums@[k as int]));
                if let Some(c) = curr_candidate {
                    assert(!covers(span(c), n));
                    assert(nums@[k - 1] <= n);
                }
                lemma_next_start(ss, st, off, opt_span(curr_candidate), n);
                assert(list@[0] == interval_list@[off]);
            }
            let (farthest_range, rest) = Self::find_farthest_interval(list, n);
            proof {
                let idx = choose|idx: int|
                    {
                        &&& 1 <= idx <= list@.len()
                        &&& forall|u: int| 0 <= u < idx ==> (#[trigger] list@[u])@.start <= n
                        &&& idx < list@.len() ==> list@[idx]@.start > n
                        &&& farthest_range == list@[idx - 1]
                        &&& rest@ == list@.subrange(idx, list@.len() as int)
                    };
                let j = off + idx - 1;
                assert forall|u: int| off <= u < off + idx implies (#[trigger] st[u]).0 <= n by {
                    assert(list@[u - off] == interval_list@[u]);
                }
                if idx < list@.len() {
                    assert(list@[idx] == interval_list@[j + 1]);
                }
                lemma_chain_pick(ss, st, off, idx, n);
                assert(list@[idx - 1] == interval_list@[j]);
                let p = st[j];
                lemma_greedy_pick_step(ss, nums@, k as int, opt_span(curr_candidate), spans_of(candidates@), p);
                assert(spans_of(candidates@.push(farthest_range)) =~= spans_of(candidates@).push(p));
                assert(rest@ =~= interval_list@.subrange(j + 1, interval_list@.len() as int));
                let ix2 = ix.push(j);
                assert(picked_at(candidates@.push(farthest_range), interval_list@, ix2)) by {
                    assert forall|a: int| 0 <= a < ix2.len() implies 0 <= #[trigger] ix2[a] < interval_list@.len()
                        && candidates@.push(farthest_range)[a] == interval_list@[ix2[a]] by {
                        if a < ix.len() {
                            assert(ix2[a] == ix[a]);
                        }
                    }
                    assert forall|a: int, b: int| 0 <= a < b < ix2.len() implies ix2[a] < ix2[b] by {
                        if b == ix.len() {
                            assert(ix[a] < off);
                        }
                    }
                }
                ix = ix2;
                off = j + 1;
            }
            list = rest;
            candidates.push(farthest_range);
            curr_candidate = Some(farthest_range);
            k = k + 1;
        }
        proof {
            assert(spans_of(candidates@) + Seq::<(u32, u32)>::empty() =~= spans_of(candidates@));
            assert(picked_at(candidates@, interval_list@, ix));
        }
        candidates
    }
}

} // verus!
