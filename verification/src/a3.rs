use vstd::prelude::*;
use vstd::arithmetic::power::pow;

verus! {

/// A hotel, by its distance and its price.
#[derive(Debug, Clone, Copy, PartialEq, Eq)]
pub struct Hotel {
    pub distance: u32,
    pub price: u32,
}

/// `g` dominates `h`: it is no farther and no dearer, and not the same offer.
pub open spec fn dominates(g: Hotel, h: Hotel) -> bool {
    &&& g.distance <= h.distance
    &&& g.price <= h.price
    &&& !(g.distance == h.distance && g.price == h.price)
}

/// `h` is offered in `hotels` and no offer in `hotels` dominates it.
pub open spec fn is_candidate(hotels: Seq<Hotel>, h: Hotel) -> bool {
    &&& hotels.contains(h)
    &&& forall|g: Hotel| #[trigger] hotels.contains(g) ==> !dominates(g, h)
}

/// The distances along `s` strictly increase.
pub open spec fn by_distance(s: Seq<Hotel>) -> bool {
    forall|i: int, j: int| 0 <= i < j < s.len() ==> s[i].distance < s[j].distance
}

/// `out` lists exactly the candidates of `hotels`, nearest first, each once.
pub open spec fn are_candidates(hotels: Seq<Hotel>, out: Seq<Hotel>) -> bool {
    &&& by_distance(out)
    &&& forall|i: int| 0 <= i < out.len() ==> is_candidate(hotels, #[trigger] out[i])
    &&& forall|h: Hotel| #[trigger] is_candidate(hotels, h) ==> out.contains(h)
}

/// What pushing `hotel` does to the stack `stack`.
pub open spec fn push_spec(stack: Seq<Hotel>, hotel: Hotel) -> Seq<Hotel> {
    if stack.len() == 0 {
        seq![hotel]
    } else if stack.last().distance != hotel.distance {
        if stack.last().price > hotel.price {
            stack.push(hotel)
        } else {
            stack
        }
    } else if stack.last().price > hotel.price {
        stack.update(stack.len() - 1, hotel)
    } else {
        stack
    }
}

/// A stack of hotels, each nearer and dearer than the next, with a fixed capacity.
pub struct DominatorStack {
    hotels: Vec<Hotel>,
    cap: usize,
}

impl DominatorStack {
    /// The hotels on the stack, bottom first.
    pub closed spec fn items(&self) -> Seq<Hotel> {
        self.hotels@
    }

    /// How many hotels the stack can hold.
    pub closed spec fn capacity(&self) -> nat {
        self.cap as nat
    }

    /// An empty stack for `cap` hotels; a capacity of zero is refused.
    pub fn new(cap: usize) -> (r: Result<Self, ()>)
        ensures
            cap == 0 ==> r is Err,
            cap > 0 ==> (r matches Ok(st) && st.items() == Seq::<Hotel>::empty() && st.capacity()
                == cap),
    {
        if cap == 0 {
            Err(())
        } else {
            Ok(DominatorStack { hotels: Vec::with_capacity(cap), cap })
        }
    }

    /// Offers `hotel` to the stack, which is expected to receive hotels by non-decreasing
    /// distance: it is kept only when cheaper than the top, and replaces the top when both
    /// are as far. A full stack refuses the offer.
    pub fn push(&mut self, hotel: Hotel) -> (r: Result<(), ()>)
        ensures
            final(self).capacity() == old(self).capacity(),
            old(self).items().len() < old(self).capacity() ==> r is Ok && final(self).items()
                == push_spec(old(self).items(), hotel),
            old(self).items().len() >= old(self).capacity() ==> r is Err && final(self).items()
                == old(self).items(),
    {
        let len = self.hotels.len();
        if len < self.cap {
            if len > 0 {
                let prev = self.hotels[len - 1];
                if prev.distance != hotel.distance {
                    if prev.price > hotel.price {
                        self.hotels.push(hotel);
                    }
                } else if prev.price > hotel.price {
                    self.hotels.set(len - 1, hotel);
                }
            } else {
                self.hotels.push(hotel);
            }
            Ok(())
        } else {
            Err(())
        }
    }

    /// The hotels on the stack, bottom first.
    pub fn into_inner(self) -> (r: Vec<Hotel>)
        ensures
            r@ == self.items(),
    {
        self.hotels
    }
}

/// Hotels nearest first and dearest first: distances strictly rise and prices strictly fall.
pub open spec fn stack_ordered(s: Seq<Hotel>) -> bool {
    forall|i: int, j: int|
        0 <= i < j < s.len() ==> s[i].distance < s[j].distance && s[i].price > s[j].price
}

/// A push of a hotel no nearer than the top keeps the stack ordered: distances rise,
/// prices fall, and of two hotels as far, only the cheaper stays.
pub proof fn lemma_push_keeps_order(stack: Seq<Hotel>, hotel: Hotel)
    requires
        stack_ordered(stack),
        stack.len() > 0 ==> stack.last().distance <= hotel.distance,
    ensures
        stack_ordered(push_spec(stack, hotel)),
        push_spec(stack, hotel).len() > 0,
        push_spec(stack, hotel).last().distance == hotel.distance ==> push_spec(stack, hotel).last().price <= hotel.price,
{
    let r = push_spec(stack, hotel);
    if stack.len() > 0 {
        let top = stack.len() - 1;
        assert forall|i: int, j: int| 0 <= i < j < r.len() implies r[i].distance < r[j].distance
            && r[i].price > r[j].price by {
            if j == r.len() - 1 && i < top {
                assert(stack[i].distance < stack[top].distance && stack[i].price > stack[top].price);
            }
        }
    }
}

/// Dominance never runs in a circle: it is transitive.
pub(crate) proof fn lemma_dominates_transitive(a: Hotel, b: Hotel, c: Hotel)
    requires
        dominates(a, b),
        dominates(b, c),
    ensures
        dominates(a, c),
{
}

/// Every offer is a candidate or is dominated by one.
pub(crate) proof fn lemma_dominated_by_candidate(hotels: Seq<Hotel>, g: Hotel) -> (c: Hotel)
    requires
        hotels.contains(g),
    ensures
        is_candidate(hotels, c),
        c == g || dominates(c, g),
    decreases g.distance + g.price,
{
    if is_candidate(hotels, g) {
        g
    } else {
        let g2 = choose|g2: Hotel| #[trigger] hotels.contains(g2) && dominates(g2, g);
        let c = lemma_dominated_by_candidate(hotels, g2);
        if c != g2 {
            lemma_dominates_transitive(c, g2, g);
        }
        c
    }
}

/// What a sequence holds after a push.
pub(crate) proof fn lemma_push_contains(s: Seq<Hotel>, x: Hotel)
    ensures
        forall|g: Hotel| #[trigger] s.push(x).contains(g) <==> (s.contains(g) || g == x),
{
    let s2 = s.push(x);
    assert forall|g: Hotel| #[trigger] s2.contains(g) <==> (s.contains(g) || g == x) by {
        if s2.contains(g) {
            let k = choose|k: int| 0 <= k < s2.len() && s2[k] == g;
            if k < s.len() {
                assert(s[k] == g);
            }
        }
        if s.contains(g) {
            let k = choose|k: int| 0 <= k < s.len() && s[k] == g;
            assert(s2[k] == g);
        }
        if g == x {
            assert(s2[s.len() as int] == x);
        }
    }
}

/// What a concatenation holds.
proof fn lemma_concat_contains(a: Seq<Hotel>, b: Seq<Hotel>)
    ensures
        forall|g: Hotel| #[trigger] (a + b).contains(g) <==> (a.contains(g) || b.contains(g)),
{
    let c = a + b;
    assert forall|g: Hotel| #[trigger] c.contains(g) <==> (a.contains(g) || b.contains(g)) by {
        if c.contains(g) {
            let k = choose|k: int| 0 <= k < c.len() && c[k] == g;
            if k < a.len() {
                assert(a[k] == g);
            } else {
                assert(b[k - a.len()] == g);
            }
        }
        if a.contains(g) {
            let k = choose|k: int| 0 <= k < a.len() && a[k] == g;
            assert(c[k] == g);
        }
        if b.contains(g) {
            let k = choose|k: int| 0 <= k < b.len() && b[k] == g;
            assert(c[k + a.len()] == g);
        }
    }
}

/// The candidates of a collection are the candidates among the candidates of its two parts.
proof fn lemma_candidates_union(
    all: Seq<Hotel>,
    part1: Seq<Hotel>,
    part2: Seq<Hotel>,
    cand1: Seq<Hotel>,
    cand2: Seq<Hotel>,
    seen: Seq<Hotel>,
)
    requires
        forall|g: Hotel| #[trigger] all.contains(g) <==> (part1.contains(g) || part2.contains(g)),
        are_candidates(part1, cand1),
        are_candidates(part2, cand2),
        forall|g: Hotel| #[trigger] seen.contains(g) <==> (cand1.contains(g) || cand2.contains(g)),
    ensures
        forall|y: Hotel| #[trigger] is_candidate(seen, y) <==> is_candidate(all, y),
{
    assert forall|g: Hotel| #[trigger] cand1.contains(g) implies part1.contains(g) by {
        let k = choose|k: int| 0 <= k < cand1.len() && cand1[k] == g;
        assert(is_candidate(part1, cand1[k]));
    }
    assert forall|g: Hotel| #[trigger] cand2.contains(g) implies part2.contains(g) by {
        let k = choose|k: int| 0 <= k < cand2.len() && cand2[k] == g;
        assert(is_candidate(part2, cand2[k]));
    }
    assert forall|y: Hotel| #[trigger] is_candidate(seen, y) <==> is_candidate(all, y) by {
        if is_candidate(all, y) {
            if part1.contains(y) {
                assert forall|g: Hotel| #[trigger] part1.contains(g) implies !dominates(g, y) by {
                    assert(all.contains(g));
                }
                assert(is_candidate(part1, y));
                assert(cand1.contains(y));
            } else {
                assert forall|g: Hotel| #[trigger] part2.contains(g) implies !dominates(g, y) by {
                    assert(all.contains(g));
                }
                assert(is_candidate(part2, y));
                assert(cand2.contains(y));
            }
            assert forall|g: Hotel| #[trigger] seen.contains(g) implies !dominates(g, y) by {
                if cand1.contains(g) {
                    assert(part1.contains(g));
                } else {
                    assert(part2.contains(g));
                }
                assert(all.contains(g));
            }
        }
        if is_candidate(seen, y) {
            assert(all.contains(y)) by {
                if cand1.contains(y) {
                    assert(part1.contains(y));
                } else {
                    assert(part2.contains(y));
                }
            }
            assert forall|g: Hotel| #[trigger] all.contains(g) implies !dominates(g, y) by {
                if dominates(g, y) {
                    if part1.contains(g) {
                        let c = lemma_dominated_by_candidate(part1, g);
                        if c != g {
                            lemma_dominates_transitive(c, g, y);
                        }
                        assert(cand1.contains(c));
                        assert(seen.contains(c));
                    } else {
                        let c = lemma_dominated_by_candidate(part2, g);
                        if c != g {
                            lemma_dominates_transitive(c, g, y);
                        }
                        assert(cand2.contains(c));
                        assert(seen.contains(c));
                    }
                }
            }
        }
    }
}

/// Finds the hotels that no other hotel dominates, nearest first: the halves are solved
/// apart, merged by distance, and filtered through a dominator stack.
pub fn find_candidate_hotels(hotels: &[Hotel]) -> (r: Vec<Hotel>)
    ensures
        are_candidates(hotels@, r@),
        r@.len() <= hotels@.len(),
    decreases hotels@.len(),
{
    if hotels.len() == 0 {
        Vec::new()
    } else if hotels.len() == 1 {
        let mut v: Vec<Hotel> = Vec::new();
        v.push(hotels[0]);
        proof {
            let h = hotels@;
            assert(h.contains(h[0]));
            assert forall|g: Hotel| #[trigger] h.contains(g) implies g == h[0] by {
                let k = choose|k: int| 0 <= k < h.len() && h[k] == g;
            }
            assert(is_candidate(h, v@[0]));
            assert forall|x: Hotel| #[trigger] is_candidate(h, x) implies v@.contains(x) by {
                assert(v@[0] == x);
            }
        }
        v
    } else {
        let mid = hotels.len() / 2;
        let (left_part, right_part) = hotels.split_at(mid);
        let left = find_candidate_hotels(left_part);
        let right = find_candidate_hotels(right_part);
        let mut dominator_stack = DominatorStack::new(hotels.len()).expect(
            "Hotel capacity is should be greater than 0",
        );
        let ghost l = left@;
        let ghost r = right@;
        let ghost mut seen: Seq<Hotel> = Seq::empty();
        let mut i: usize = 0;
        let mut j: usize = 0;
        while i < left.len() || j < right.len()
            invariant
                l == left@,
                r == right@,
                are_candidates(left_part@, l),
                are_candidates(right_part@, r),
                l.len() + r.len() <= hotels@.len(),
                dominator_stack.capacity() == hotels@.len(),
                i <= l.len(),
                j <= r.len(),
                seen.len() == i + j,
                forall|g: Hotel| #[trigger]
                    seen.contains(g) <==> (l.take(i as int).contains(g) || r.take(
                        j as int,
                    ).contains(g)),
                are_candidates(seen, dominator_stack.items()),
                seen.len() > 0 ==> dominator_stack.items().len() > 0,
                dominator_stack.items().len() > 0 ==> forall|g: Hotel| #[trigger]
                    seen.contains(g) ==> dominator_stack.items().last().price <= g.price,
                dominator_stack.items().len() <= seen.len(),
                forall|g: Hotel| #[trigger]
                    seen.contains(g) ==> (i < l.len() ==> g.distance <= l[i as int].distance) && (j
                        < r.len() ==> g.distance <= r[j as int].distance),
            decreases l.len() + r.len() - i - j,
        {
            let take_left = if i < left.len() && j < right.len() {
                left[i].distance < right[j].distance
            } else {
                i < left.len()
            };
            let x = if take_left {
                left[i]
            } else {
                right[j]
            };
            proof {
                lemma_stack_step(seen, dominator_stack.items(), x);
                lemma_push_contains(seen, x);
                if take_left {
                    assert(l.take(i + 1) == l.take(i as int).push(x));
                    lemma_push_contains(l.take(i as int), x);
                } else {
                    assert(r.take(j + 1) == r.take(j as int).push(x));
                    lemma_push_contains(r.take(j as int), x);
                }
            }
            dominator_stack.push(x).unwrap();
            proof {
                let seen2 = seen.push(x);
                if take_left {
                    assert forall|g: Hotel| #[trigger] seen2.contains(g) implies (i + 1 < l.len()
                        ==> g.distance <= l[i + 1].distance) && (j < r.len() ==> g.distance
                        <= r[j as int].distance) by {
                        if i + 1 < l.len() {
                            assert(l[i as int].distance < l[i + 1].distance);
                        }
                    }
                } else {
                    assert forall|g: Hotel| #[trigger] seen2.contains(g) implies (i < l.len()
                        ==> g.distance <= l[i as int].distance) && (j + 1 < r.len() ==> g.distance
                        <= r[j + 1].distance) by {
                        if j + 1 < r.len() {
                            assert(r[j as int].distance < r[j + 1].distance);
                        }
                    }
                }
                seen = seen2;
            }
            if take_left {
                i = i + 1;
            } else {
                j = j + 1;
            }
        }
        proof {
            assert(l.take(l.len() as int) == l);
            assert(r.take(r.len() as int) == r);
            assert(hotels@ == left_part@ + right_part@);
            lemma_concat_contains(left_part@, right_part@);
            lemma_candidates_union(hotels@, left_part@, right_part@, l, r, seen);
            let st = dominator_stack.items();
            assert forall|k: int| 0 <= k < st.len() implies is_candidate(hotels@, #[trigger] st[k]) by {
                assert(is_candidate(seen, st[k]));
            }
            assert forall|h: Hotel| #[trigger] is_candidate(hotels@, h) implies st.contains(h) by {
                assert(is_candidate(seen, h));
            }
        }
        dominator_stack.into_inner()
    }
}

/// One offer on a stack that holds the candidates of the offers so far, nearest first and
/// cheapest on top, keeps it so, as long as no earlier offer was farther.
pub(crate) proof fn lemma_stack_step(seen: Seq<Hotel>, st: Seq<Hotel>, x: Hotel)
    requires
        are_candidates(seen, st),
        seen.len() > 0 ==> st.len() > 0,
        st.len() > 0 ==> forall|g: Hotel| #[trigger] seen.contains(g) ==> st.last().price <= g.price,
        forall|g: Hotel| #[trigger] seen.contains(g) ==> g.distance <= x.distance,
    ensures
        are_candidates(seen.push(x), push_spec(st, x)),
        push_spec(st, x).len() > 0,
        push_spec(st, x).len() <= st.len() + 1,
        forall|g: Hotel| #[trigger]
            seen.push(x).contains(g) ==> push_spec(st, x).last().price <= g.price,
{
    let seen2 = seen.push(x);
    let st2 = push_spec(st, x);
    lemma_push_contains(seen, x);
    assert forall|h: Hotel| #[trigger] is_candidate(seen2, h) && h != x implies is_candidate(seen, h) by {
        assert forall|g: Hotel| #[trigger] seen.contains(g) implies !dominates(g, h) by {
            assert(seen2.contains(g));
        }
    }
    if st.len() == 0 {
        assert(seen.len() == 0);
        assert(st2 =~= seq![x]);
        assert forall|h: Hotel| #[trigger] is_candidate(seen2, h) implies st2.contains(h) by {
            assert(seen2.contains(h));
            assert(st2[0] == x);
        }
    } else {
        let last = st.last();
        assert(st.contains(last)) by {
            assert(st[st.len() - 1] == last);
        }
        assert(is_candidate(seen, last)) by {
            assert(is_candidate(seen, st[st.len() - 1]));
        }
        assert(forall|i: int| 0 <= i < st.len() ==> (#[trigger] st[i]).distance <= last.distance);
        if last.distance != x.distance {
            if last.price > x.price {
                assert(st2 == st.push(x));
                assert forall|i: int| 0 <= i < st2.len() implies is_candidate(seen2, #[trigger] st2[i]) by {
                    if i < st.len() {
                        assert(st2[i] == st[i]);
                        assert(is_candidate(seen, st[i]));
                    }
                }
                assert forall|h: Hotel| #[trigger] is_candidate(seen2, h) implies st2.contains(h) by {
                    if h != x {
                        assert(is_candidate(seen, h));
                        let k = choose|k: int| 0 <= k < st.len() && st[k] == h;
                        assert(st2[k] == h);
                    } else {
                        assert(st2[st.len() as int] == x);
                    }
                }
            } else {
                assert(dominates(last, x));
                assert forall|i: int| 0 <= i < st2.len() implies is_candidate(seen2, #[trigger] st2[i]) by {
                    assert(is_candidate(seen, st[i]));
                }
                assert forall|h: Hotel| #[trigger] is_candidate(seen2, h) implies st2.contains(h) by {
                    assert(h != x);
                    assert(is_candidate(seen, h));
                }
            }
        } else {
            if last.price > x.price {
                assert(dominates(x, last));
                assert forall|i: int| 0 <= i < st2.len() implies is_candidate(seen2, #[trigger] st2[i]) by {
                    if i < st.len() - 1 {
                        assert(st2[i] == st[i]);
                        assert(is_candidate(seen, st[i]));
                    }
                }
                assert forall|h: Hotel| #[trigger] is_candidate(seen2, h) implies st2.contains(h) by {
                    if h != x {
                        assert(is_candidate(seen, h));
                        let k = choose|k: int| 0 <= k < st.len() && st[k] == h;
                        assert(seen2.contains(x));
                        assert(h != last);
                        assert(k != st.len() - 1);
                        assert(st2[k] == h);
                    } else {
                        assert(st2[st.len() - 1] == x);
                    }
                }
            } else {
                assert forall|i: int| 0 <= i < st2.len() implies is_candidate(seen2, #[trigger] st2[i]) by {
                    assert(is_candidate(seen, st[i]));
                    if i < st.len() - 1 {
                        assert(st[i].distance < last.distance);
                    }
                }
                assert forall|h: Hotel| #[trigger] is_candidate(seen2, h) implies st2.contains(h) by {
                    if h == x {
                        assert(!dominates(last, x));
                        assert(x == last);
                    } else {
                        assert(is_candidate(seen, h));
                    }
                }
            }
        }
    }
}

/// The absolute value of an integer.
pub open spec fn abs_int(x: int) -> int {
    if x < 0 { -x } else { x }
}

/// For a positive exponent, the magnitude of a power never shrinks as the exponent grows.
pub proof fn lemma_abs_pow_monotone(b: int, e1: nat, e2: nat)
    requires
        1 <= e1 <= e2,
    ensures
        abs_int(pow(b, e1)) <= abs_int(pow(b, e2)),
    decreases e2 - e1,
{
    if e1 < e2 {
        lemma_abs_pow_monotone(b, e1, (e2 - 1) as nat);
        assert(pow(b, e2) == b * pow(b, (e2 - 1) as nat)) by {
            reveal(pow);
        }
        let p = pow(b, (e2 - 1) as nat);
        assert(abs_int(b * p) == abs_int(b) * abs_int(p)) by (nonlinear_arith);
        if b == 0 {
            assert(pow(b, e1) == 0) by {
                reveal(pow);
                assert(pow(b, e1) == b * pow(b, (e1 - 1) as nat));
            }
        } else {
            assert(abs_int(b) * abs_int(p) >= abs_int(p)) by (nonlinear_arith)
                requires abs_int(b) >= 1, abs_int(p) >= 0;
        }
    }
}

/// A base of magnitude at most one has powers of magnitude at most one.
pub proof fn lemma_abs_pow_small(b: int, e: nat)
    requires
        abs_int(b) <= 1,
    ensures
        abs_int(pow(b, e)) <= 1,
    decreases e,
{
    reveal(pow);
    if e > 0 {
        lemma_abs_pow_small(b, (e - 1) as nat);
        let q = pow(b, (e - 1) as nat);
        assert(pow(b, e) == b * q);
        assert(abs_int(b * q) == abs_int(b) * abs_int(q)) by (nonlinear_arith);
        assert(abs_int(b) * abs_int(q) <= 1) by (nonlinear_arith)
            requires abs_int(b) <= 1, abs_int(q) <= 1, abs_int(b) >= 0, abs_int(q) >= 0;
    }
}

/// Below a larger exponent, a power is either at most one in magnitude or at most half
/// the magnitude of the larger power.
pub proof fn lemma_abs_pow_strict(b: int, e1: nat, e2: nat)
    requires
        1 <= e1 < e2,
    ensures
        abs_int(pow(b, e1)) <= 1 || 2 * abs_int(pow(b, e1)) <= abs_int(pow(b, e2)),
    decreases e1,
{
    let p = pow(b, e1);
    assert(pow(b, e1 + 1) == b * p) by {
        reveal(pow);
    }
    assert(abs_int(b * p) == abs_int(b) * abs_int(p)) by (nonlinear_arith);
    lemma_abs_pow_monotone(b, e1 + 1, e2);
    if abs_int(b) <= 1 {
        lemma_abs_pow_small(b, e1);
    } else {
        assert(abs_int(b) * abs_int(p) >= 2 * abs_int(p)) by (nonlinear_arith)
            requires abs_int(b) >= 2, abs_int(p) >= 0;
    }
}

/// Raises `base` to the power `exp` by repeated squaring.
pub fn binary_exponentiation(base: i32, exp: i32) -> (r: i32)
    requires
        exp >= 1,
        i32::MIN <= pow(base as int, exp as nat) <= i32::MAX,
    ensures
        r == pow(base as int, exp as nat),
    decreases exp,
{
    if exp == 1 {
        proof {
            reveal(pow);
            assert(pow(base as int, 1) == base * pow(base as int, 0));
            assert(pow(base as int, 0) == 1);
            assert(base * 1 == base);
        }
        base
    } else if exp % 2 == 0 {
        let h: i32 = exp / 2;
        proof {
            lemma_abs_pow_strict(base as int, h as nat, exp as nat);
        }
        let half = binary_exponentiation(base, h);
        proof {
            vstd::arithmetic::power::lemma_pow_adds(base as int, h as nat, h as nat);
            assert(h + h == exp);
            assert(half * half == pow(base as int, exp as nat));
        }
        half * half
    } else {
        proof {
            lemma_abs_pow_strict(base as int, (exp - 1) as nat, exp as nat);
        }
        let rest = binary_exponentiation(base, exp - 1);
        proof {
            reveal(pow);
            assert(pow(base as int, exp as nat) == base * pow(base as int, (exp - 1) as nat));
            assert(base * rest == pow(base as int, exp as nat));
        }
        base * rest
    }
}

} // verus!
