use vstd::prelude::*;
use std::collections::HashMap;

verus! {

/// Weekly pay, for easy and for hard work.
pub type Int = u32;

/// Scheduling of easy and hard jobs over a run of weeks.
pub struct Assignment6;

/// The kind of job taken in a week; no job is written `None`.
#[derive(Hash, Eq, PartialEq, Clone, Copy, Debug)]
pub enum WorkType {
    Easy,
    Hard,
}

/// `plan` is allowed from a state in which the last week was, or was not, worked: a week
/// off only follows a worked week, and a hard job only follows a week off.
pub open spec fn valid_plan(plan: Seq<Option<WorkType>>, worked: bool) -> bool
    decreases plan.len(),
{
    if plan.len() == 0 {
        true
    } else {
        match plan[0] {
            Some(WorkType::Easy) => valid_plan(plan.drop_first(), true),
            Some(WorkType::Hard) => !worked && valid_plan(plan.drop_first(), true),
            None => worked && valid_plan(plan.drop_first(), false),
        }
    }
}

/// What `plan` earns, week by week, from the pay lists `e` and `h`.
pub open spec fn plan_pay(e: Seq<Int>, h: Seq<Int>, plan: Seq<Option<WorkType>>) -> int
    decreases plan.len(),
{
    if plan.len() == 0 {
        0
    } else {
        let week = match plan[0] {
            Some(WorkType::Easy) => e[0] as int,
            Some(WorkType::Hard) => h[0] as int,
            None => 0,
        };
        week + plan_pay(e.drop_first(), h.drop_first(), plan.drop_first())
    }
}

/// The best pay over the weeks of `e` and `h`, starting from a state in which the last week
/// was, or was not, worked.
pub open spec fn best(e: Seq<Int>, h: Seq<Int>, worked: bool) -> int
    decreases e.len(),
{
    if e.len() == 0 {
        0
    } else {
        let easy = e[0] + best(e.drop_first(), h.drop_first(), true);
        let hard = if worked {
            best(e.drop_first(), h.drop_first(), false)
        } else {
            h[0] + best(e.drop_first(), h.drop_first(), true)
        };
        if hard >= easy {
            hard
        } else {
            easy
        }
    }
}

/// Every pay that the search adds up for the weeks `from..` fits in an `Int`.
pub open spec fn scheduler_fits(e: Seq<Int>, h: Seq<Int>, from: int) -> bool {
    forall|k: int|
        from <= k < e.len() ==> {
            &&& e[k] + best(e.skip(k + 1), h.skip(k + 1), true) <= Int::MAX
            &&& (k >= 1 ==> h[k] + best(e.skip(k + 1), h.skip(k + 1), true) <= Int::MAX)
        }
}

/// The table-filling recurrence: the best pay for the weeks `0..=i`.
pub open spec fn profit_table(e: Seq<Int>, h: Seq<Int>, i: int) -> int
    decreases i,
{
    if i <= 0 {
        e[0] as int
    } else if i == 1 {
        let a = e[0] + e[1];
        if a >= h[1] {
            a
        } else {
            h[1] as int
        }
    } else {
        let a = profit_table(e, h, i - 2) + h[i];
        let b = profit_table(e, h, i - 1) + e[i];
        let t = if a >= b {
            a
        } else {
            b
        };
        let c = profit_table(e, h, i - 2) + e[i - 1] + e[i];
        if t >= c {
            t
        } else {
            c
        }
    }
}

/// Every sum that the table adds up fits in an `Int`.
pub open spec fn profit_fits(e: Seq<Int>, h: Seq<Int>) -> bool {
    &&& e.len() >= 2 ==> e[0] + e[1] <= Int::MAX
    &&& forall|i: int|
        2 <= i < e.len() ==> {
            &&& profit_table(e, h, i - 2) + h[i] <= Int::MAX
            &&& profit_table(e, h, i - 1) + e[i] <= Int::MAX
            &&& profit_table(e, h, i - 2) + e[i - 1] + e[i] <= Int::MAX
        }
}

/// Week `i` of `plan` is allowed after what the plan did the week before (or, for the
/// first week, after the state `worked`).
pub open spec fn step_ok(plan: Seq<Option<WorkType>>, worked: bool, i: int) -> bool {
    let before = if i == 0 {
        worked
    } else {
        plan[i - 1] is Some
    };
    match plan[i] {
        Some(WorkType::Easy) => true,
        Some(WorkType::Hard) => !before,
        None => before,
    }
}

/// The pay of one week.
pub open spec fn week_pay(choice: Option<WorkType>, e: Int, h: Int) -> int {
    match choice {
        Some(WorkType::Easy) => e as int,
        Some(WorkType::Hard) => h as int,
        None => 0,
    }
}

/// A plan that earns the best pay.
pub open spec fn best_plan(e: Seq<Int>, h: Seq<Int>, worked: bool) -> Seq<Option<WorkType>>
    decreases e.len(),
{
    if e.len() == 0 {
        Seq::empty()
    } else {
        let easy = e[0] + best(e.drop_first(), h.drop_first(), true);
        let hard = if worked {
            best(e.drop_first(), h.drop_first(), false)
        } else {
            h[0] + best(e.drop_first(), h.drop_first(), true)
        };
        if hard >= easy {
            if worked {
                seq![None].add(best_plan(e.drop_first(), h.drop_first(), false))
            } else {
                seq![Some(WorkType::Hard)].add(best_plan(e.drop_first(), h.drop_first(), true))
            }
        } else {
            seq![Some(WorkType::Easy)].add(best_plan(e.drop_first(), h.drop_first(), true))
        }
    }
}

/// A plan is allowed exactly when each of its weeks is allowed after the one before.
pub proof fn lemma_valid_plan_steps(plan: Seq<Option<WorkType>>, worked: bool)
    ensures
        valid_plan(plan, worked) <==> forall|i: int| 0 <= i < plan.len() ==> #[trigger] step_ok(plan, worked, i),
    decreases plan.len(),
{
    if plan.len() > 0 {
        let rest = plan.drop_first();
        let w2 = plan[0] is Some;
        lemma_valid_plan_steps(rest, w2);
        assert forall|i: int| 1 <= i < plan.len() implies #[trigger] step_ok(plan, worked, i) == step_ok(rest, w2, i - 1) by {
            if i >= 2 {
                assert(plan[i - 1] == rest[i - 2]);
            }
            assert(plan[i] == rest[i - 1]);
        }
        if valid_plan(plan, worked) {
            assert forall|i: int| 0 <= i < plan.len() implies #[trigger] step_ok(plan, worked, i) by {
                if i >= 1 {
                    assert(step_ok(rest, w2, i - 1));
                }
            }
        }
        if forall|i: int| 0 <= i < plan.len() ==> #[trigger] step_ok(plan, worked, i) {
            assert(step_ok(plan, worked, 0));
            assert forall|i: int| 0 <= i < rest.len() implies #[trigger] step_ok(rest, w2, i) by {
                assert(step_ok(plan, worked, i + 1));
            }
        }
    }
}

proof fn lemma_pay_last(e: Seq<Int>, h: Seq<Int>, plan: Seq<Option<WorkType>>)
    requires
        e.len() == h.len(),
        e.len() == plan.len(),
        plan.len() > 0,
    ensures
        plan_pay(e, h, plan) == plan_pay(e.drop_last(), h.drop_last(), plan.drop_last()) + week_pay(
            plan.last(),
            e.last(),
            h.last(),
        ),
    decreases plan.len(),
{
    if plan.len() > 1 {
        lemma_pay_last(e.drop_first(), h.drop_first(), plan.drop_first());
        assert(e.drop_first().drop_last() == e.drop_last().drop_first());
        assert(h.drop_first().drop_last() == h.drop_last().drop_first());
        assert(plan.drop_first().drop_last() == plan.drop_last().drop_first());
        assert(plan.drop_last()[0] == plan[0]);
        assert(e.drop_last()[0] == e[0]);
        assert(h.drop_last()[0] == h[0]);
        assert(plan.drop_first().last() == plan.last());
        assert(e.drop_first().last() == e.last());
        assert(h.drop_first().last() == h.last());
        assert(plan_pay(e.drop_last(), h.drop_last(), plan.drop_last()) == week_pay(plan[0], e[0], h[0])
            + plan_pay(e.drop_last().drop_first(), h.drop_last().drop_first(), plan.drop_last().drop_first()));
        assert(plan_pay(e, h, plan) == week_pay(plan[0], e[0], h[0]) + plan_pay(e.drop_first(), h.drop_first(), plan.drop_first()));
    } else {
        assert(plan_pay(e, h, plan) == week_pay(plan[0], e[0], h[0]) + plan_pay(e.drop_first(), h.drop_first(), plan.drop_first()));
        assert(plan.drop_last().len() == 0);
    }
}

/// No allowed plan earns more than the best pay.
pub proof fn lemma_no_plan_beats_best(
    e: Seq<Int>,
    h: Seq<Int>,
    plan: Seq<Option<WorkType>>,
    worked: bool,
)
    requires
        e.len() == h.len(),
        plan.len() == e.len(),
        valid_plan(plan, worked),
    ensures
        plan_pay(e, h, plan) <= best(e, h, worked),
    decreases plan.len(),
{
    if plan.len() > 0 {
        let w2 = plan[0] is Some;
        lemma_no_plan_beats_best(e.drop_first(), h.drop_first(), plan.drop_first(), w2);
    }
}

/// Some allowed plan earns exactly the best pay.
pub proof fn lemma_best_is_earned(e: Seq<Int>, h: Seq<Int>, worked: bool)
    requires
        e.len() == h.len(),
    ensures
        best_plan(e, h, worked).len() == e.len(),
        valid_plan(best_plan(e, h, worked), worked),
        plan_pay(e, h, best_plan(e, h, worked)) == best(e, h, worked),
    decreases e.len(),
{
    if e.len() > 0 {
        let p = best_plan(e, h, worked);
        lemma_best_is_earned(e.drop_first(), h.drop_first(), true);
        lemma_best_is_earned(e.drop_first(), h.drop_first(), false);
        assert(p.drop_first() == best_plan(e.drop_first(), h.drop_first(), p[0] is Some));
    }
}

/// The table of `find_max_profit` is at least the pay of every allowed plan over its weeks,
/// and after a week off, at least what was earned up to that week.
proof fn lemma_table_bounds_plan(e: Seq<Int>, h: Seq<Int>, plan: Seq<Option<WorkType>>, i: int)
    requires
        e.len() == h.len(),
        plan.len() == e.len(),
        1 <= i <= e.len(),
        forall|q: int| 0 <= q < plan.len() ==> #[trigger] step_ok(plan, true, q),
    ensures
        plan_pay(e.take(i), h.take(i), plan.take(i)) <= profit_table(e, h, i - 1),
        i >= 2 && plan[i - 1] is None ==> plan_pay(e.take(i), h.take(i), plan.take(i))
            <= profit_table(e, h, i - 2),
        profit_table(e, h, i - 1) >= e[0],
        i >= 2 ==> profit_table(e, h, i - 1) >= profit_table(e, h, i - 2),
    decreases i,
{
    let pt = plan.take(i);
    let et = e.take(i);
    let ht = h.take(i);
    lemma_pay_last(et, ht, pt);
    assert(et.drop_last() == e.take(i - 1));
    assert(ht.drop_last() == h.take(i - 1));
    assert(pt.drop_last() == plan.take(i - 1));
    assert(step_ok(plan, true, i - 1));
    if i == 1 {
        assert(plan.take(0).len() == 0);
        assert(plan_pay(e.take(0), h.take(0), plan.take(0)) == 0);
    } else {
        lemma_table_bounds_plan(e, h, plan, i - 1);
        if i >= 3 {
            lemma_table_bounds_plan(e, h, plan, i - 2);
        }
        if plan[i - 1] == Some(WorkType::Hard) {
            assert(plan[i - 2] is None);
            if i == 2 {
                lemma_pay_last(e.take(1), h.take(1), plan.take(1));
                assert(plan.take(1).drop_last().len() == 0);
            }
        }
    }
}

/// A plan for the weeks `0..=i` that earns what the table holds for week `i`: the choice
/// that the table takes, week by week.
pub open spec fn table_plan(e: Seq<Int>, h: Seq<Int>, i: int) -> Seq<Option<WorkType>>
    decreases i,
{
    if i <= 0 {
        seq![Some(WorkType::Easy)]
    } else if i == 1 {
        if e[0] + e[1] >= h[1] {
            seq![Some(WorkType::Easy), Some(WorkType::Easy)]
        } else {
            seq![None, Some(WorkType::Hard)]
        }
    } else {
        let a = profit_table(e, h, i - 2) + h[i];
        let b = profit_table(e, h, i - 1) + e[i];
        let c = profit_table(e, h, i - 2) + e[i - 1] + e[i];
        if a >= b && a >= c {
            table_plan(e, h, i - 2).push(None).push(Some(WorkType::Hard))
        } else if b >= c {
            table_plan(e, h, i - 1).push(Some(WorkType::Easy))
        } else {
            table_plan(e, h, i - 2).push(Some(WorkType::Easy)).push(Some(WorkType::Easy))
        }
    }
}

/// The pay of a plan with one more week.
proof fn lemma_pay_push(e: Seq<Int>, h: Seq<Int>, p: Seq<Option<WorkType>>, x: Option<WorkType>, i: int)
    requires
        e.len() == h.len(),
        0 <= i < e.len(),
        p.len() == i,
    ensures
        plan_pay(e.take(i + 1), h.take(i + 1), p.push(x)) == plan_pay(e.take(i), h.take(i), p)
            + week_pay(x, e[i], h[i]),
{
    lemma_pay_last(e.take(i + 1), h.take(i + 1), p.push(x));
    assert(e.take(i + 1).drop_last() == e.take(i));
    assert(h.take(i + 1).drop_last() == h.take(i));
    assert(p.push(x).drop_last() == p);
}

/// The plan that the table takes is allowed and earns the table's value.
proof fn lemma_table_plan(e: Seq<Int>, h: Seq<Int>, i: int)
    requires
        e.len() == h.len(),
        0 <= i < e.len(),
    ensures
        table_plan(e, h, i).len() == i + 1,
        table_plan(e, h, i).last() is Some,
        forall|q: int| 0 <= q <= i ==> #[trigger] step_ok(table_plan(e, h, i), true, q),
        plan_pay(e.take(i + 1), h.take(i + 1), table_plan(e, h, i)) == profit_table(e, h, i),
    decreases i,
{
    let p = table_plan(e, h, i);
    if i == 0 {
        lemma_pay_push(e, h, Seq::empty(), Some(WorkType::Easy), 0);
        assert(Seq::<Option<WorkType>>::empty().push(Some(WorkType::Easy)) == p);
        assert(plan_pay(e.take(0), h.take(0), Seq::<Option<WorkType>>::empty()) == 0);
    } else if i == 1 {
        let x0 = p[0];
        let p0 = seq![x0];
        assert(p0 == Seq::<Option<WorkType>>::empty().push(x0));
        lemma_pay_push(e, h, Seq::empty(), x0, 0);
        assert(plan_pay(e.take(0), h.take(0), Seq::<Option<WorkType>>::empty()) == 0);
        lemma_pay_push(e, h, p0, p[1], 1);
        assert(p0.push(p[1]) == p);
    } else {
        let a = profit_table(e, h, i - 2) + h[i];
        let b = profit_table(e, h, i - 1) + e[i];
        let c = profit_table(e, h, i - 2) + e[i - 1] + e[i];
        if a >= b && a >= c {
            let q = table_plan(e, h, i - 2);
            lemma_table_plan(e, h, i - 2);
            lemma_pay_push(e, h, q, None, i - 1);
            lemma_pay_push(e, h, q.push(None), Some(WorkType::Hard), i);
            assert forall|t: int| 0 <= t <= i implies #[trigger] step_ok(p, true, t) by {
                if t < i - 1 {
                    assert(p[t] == q[t]);
                    if t > 0 {
                        assert(p[t - 1] == q[t - 1]);
                    }
                    assert(step_ok(q, true, t));
                } else if t == i - 1 {
                    assert(p[t - 1] == q.last());
                }
            }
        } else if b >= c {
            let q = table_plan(e, h, i - 1);
            lemma_table_plan(e, h, i - 1);
            lemma_pay_push(e, h, q, Some(WorkType::Easy), i);
            assert forall|t: int| 0 <= t <= i implies #[trigger] step_ok(p, true, t) by {
                if t < i {
                    assert(p[t] == q[t]);
                    if t > 0 {
                        assert(p[t - 1] == q[t - 1]);
                    }
                    assert(step_ok(q, true, t));
                }
            }
        } else {
            let q = table_plan(e, h, i - 2);
            lemma_table_plan(e, h, i - 2);
            lemma_pay_push(e, h, q, Some(WorkType::Easy), i - 1);
            lemma_pay_push(e, h, q.push(Some(WorkType::Easy)), Some(WorkType::Easy), i);
            assert forall|t: int| 0 <= t <= i implies #[trigger] step_ok(p, true, t) by {
                if t < i - 1 {
                    assert(p[t] == q[t]);
                    if t > 0 {
                        assert(p[t - 1] == q[t - 1]);
                    }
                    assert(step_ok(q, true, t));
                }
            }
        }
    }
}

/// `find_max_profit` and `scheduler` agree: the table's last value is the best pay of an
/// allowed plan, since the table bounds every allowed plan and its own choices make one.
pub proof fn lemma_table_is_best(e: Seq<Int>, h: Seq<Int>)
    requires
        e.len() == h.len(),
        e.len() > 0,
    ensures
        profit_table(e, h, e.len() - 1) == best(e, h, true),
{
    let n = e.len() as int;
    lemma_best_is_earned(e, h, true);
    let p = best_plan(e, h, true);
    lemma_valid_plan_steps(p, true);
    lemma_table_bounds_plan(e, h, p, n);
    assert(e.take(n) == e);
    assert(h.take(n) == h);
    assert(p.take(n) == p);
    let tp = table_plan(e, h, n - 1);
    lemma_table_plan(e, h, n - 1);
    lemma_valid_plan_steps(tp, true);
    lemma_no_plan_beats_best(e, h, tp, true);
}

/// Remembered results of the search, keyed by the number of weeks left: the pay of an easy
/// job, of a hard job, and of a week off, each with the best that follows.
struct Memo {
    easy: HashMap<usize, Int>,
    hard: HashMap<usize, Int>,
    off: HashMap<usize, Int>,
    all_e: Ghost<Seq<Int>>,
    all_h: Ghost<Seq<Int>>,
}

/// What the search remembers for `q` weeks left, out of the weeks of `e` and `h`.
spec fn easy_value(e: Seq<Int>, h: Seq<Int>, q: int) -> int {
    let k = e.len() - q;
    e[k] + best(e.skip(k + 1), h.skip(k + 1), true)
}

/// What the search remembers for a hard job with `q` weeks left.
spec fn hard_value(e: Seq<Int>, h: Seq<Int>, q: int) -> int {
    let k = e.len() - q;
    h[k] + best(e.skip(k + 1), h.skip(k + 1), true)
}

/// What the search remembers for a week off with `q` weeks left.
spec fn off_value(e: Seq<Int>, h: Seq<Int>, q: int) -> int {
    let k = e.len() - q;
    best(e.skip(k + 1), h.skip(k + 1), false)
}

impl Memo {
    /// Each remembered result for at most `upto` weeks left is the value that the search
    /// would compute.
    spec fn valid(&self, upto: int) -> bool {
        let e = self.all_e@;
        let h = self.all_h@;
        &&& e.len() == h.len()
        &&& forall|q: usize|
            1 <= q <= upto && q <= e.len() && #[trigger] self.easy@.contains_key(q) ==> self.easy@[q]
                == easy_value(e, h, q as int)
        &&& forall|q: usize|
            1 <= q <= upto && q <= e.len() && #[trigger] self.hard@.contains_key(q) ==> self.hard@[q]
                == hard_value(e, h, q as int)
        &&& forall|q: usize|
            1 <= q <= upto && q <= e.len() && #[trigger] self.off@.contains_key(q) ==> self.off@[q]
                == off_value(e, h, q as int)
    }

    /// `self` keeps every entry of `old`, and adds entries for at most `upto` weeks only.
    spec fn extends(&self, old: &Memo, upto: int) -> bool {
        &&& forall|q: usize| #[trigger] old.easy@.contains_key(q) ==> self.easy@.contains_key(q)
            && self.easy@[q] == old.easy@[q]
        &&& forall|q: usize| #[trigger] old.hard@.contains_key(q) ==> self.hard@.contains_key(q)
            && self.hard@[q] == old.hard@[q]
        &&& forall|q: usize| #[trigger] old.off@.contains_key(q) ==> self.off@.contains_key(q)
            && self.off@[q] == old.off@[q]
        &&& forall|q: usize| #[trigger] self.easy@.contains_key(q) ==> old.easy@.contains_key(q)
            || 1 <= q <= upto
        &&& forall|q: usize| #[trigger] self.hard@.contains_key(q) ==> old.hard@.contains_key(q)
            || 1 <= q <= upto
        &&& forall|q: usize| #[trigger] self.off@.contains_key(q) ==> old.off@.contains_key(q)
            || 1 <= q <= upto
    }
}

/// A hard job taken in week `from` of `e` and `h` after a week off, with the best pay that
/// follows, fits in an `Int`.
pub open spec fn hard_first_fits(e: Seq<Int>, h: Seq<Int>, from: int) -> bool {
    0 <= from < e.len() ==> h[from] + best(e.skip(from + 1), h.skip(from + 1), true) <= Int::MAX
}

impl Assignment6 {
    /// The best pay by filling a table week by week: the best of a hard job after a week
    /// off that follows the best pay two weeks back, an easy job after the best pay one week
    /// back, and two easy jobs after the best pay two weeks back.
    pub fn find_max_profit(e: &[Int], h: &[Int]) -> (r: Int)
        requires
            e@.len() == h@.len(),
            e@.len() > 0,
            profit_fits(e@, h@),
        ensures
            r == profit_table(e@, h@, e@.len() - 1),
            r == best(e@, h@, true),
    {
        proof {
            lemma_table_is_best(e@, h@);
        }
        let n = e.len();
        let mut res: Vec<Int> = Vec::new();
        res.push(e[0]);
        if n == 1 {
            return res[0];
        }
        let first = e[0] + e[1];
        let second = if first >= h[1] {
            first
        } else {
            h[1]
        };
        res.push(second);
        if n == 2 {
            return res[1];
        }
        let mut i: usize = 2;
        while i < n
            invariant
                n == e@.len(),
                n == h@.len(),
                profit_fits(e@, h@),
                2 <= i <= n,
                res@.len() == i,
                forall|k: int| 0 <= k < i ==> res@[k] == profit_table(e@, h@, k),
            decreases n - i,
        {
            let a = res[i - 2] + h[i];
            let b = res[i - 1] + e[i];
            let temp = if a >= b {
                a
            } else {
                b
            };
            let c = res[i - 2] + e[i - 1] + e[i];
            let next = if temp >= c {
                temp
            } else {
                c
            };
            res.push(next);
            i = i + 1;
        }
        res[n - 1]
    }

    /// The best pay by a search over the weeks, remembering what it has found.
    pub fn scheduler(easy_job: &[Int], hard_job: &[Int]) -> (r: Int)
        requires
            easy_job@.len() == hard_job@.len(),
            scheduler_fits(easy_job@, hard_job@, 0),
        ensures
            r == best(easy_job@, hard_job@, true),
    {
        let mut cache = Memo {
            easy: HashMap::new(),
            hard: HashMap::new(),
            off: HashMap::new(),
            all_e: Ghost(easy_job@),
            all_h: Ghost(hard_job@),
        };
        proof {
            assert(easy_job@.skip(0) == easy_job@);
            assert(hard_job@.skip(0) == hard_job@);
        }
        Self::scheduler_helper_recursive(easy_job, hard_job, true, &mut cache)
    }

    /// The best pay for the remaining weeks; a result already remembered is reused, a result
    /// worked out is remembered, and no other entry of the memo changes.
    #[verifier::spinoff_prover]
    #[verifier::rlimit(60)]
    fn scheduler_helper_recursive(
        easy_job: &[Int],
        hard_job: &[Int],
        worked_last_week: bool,
        cache: &mut Memo,
    ) -> (r: Int)
        requires
            old(cache).valid(easy_job@.len() as int),
            easy_job@.len() == hard_job@.len(),
            easy_job@.len() <= old(cache).all_e@.len(),
            easy_job@ == old(cache).all_e@.skip(old(cache).all_e@.len() - easy_job@.len()),
            hard_job@ == old(cache).all_h@.skip(old(cache).all_h@.len() - hard_job@.len()),
            scheduler_fits(
                old(cache).all_e@,
                old(cache).all_h@,
                old(cache).all_e@.len() - easy_job@.len(),
            ),
            !worked_last_week ==> hard_first_fits(
                old(cache).all_e@,
                old(cache).all_h@,
                old(cache).all_e@.len() - easy_job@.len(),
            ),
        ensures
            final(cache).valid(easy_job@.len() as int),
            final(cache).extends(old(cache), easy_job@.len() as int),
            final(cache).all_e@ == old(cache).all_e@,
            final(cache).all_h@ == old(cache).all_h@,
            r == best(easy_job@, hard_job@, worked_last_week),
        decreases easy_job@.len(),
    {
        broadcast use vstd::std_specs::hash::group_hash_axioms;

        let n = easy_job.len();
        if n == 0 {
            return 0;
        }
        let ghost all_e = cache.all_e@;
        let ghost all_h = cache.all_h@;
        let ghost k = all_e.len() - n;
        let ghost start = *cache;
        let easy_pay = easy_job[0];
        let hard_pay = hard_job[0];
        let (_, easy_rest) = easy_job.split_at(1);
        let (_, hard_rest) = hard_job.split_at(1);
        proof {
            assert(easy_rest@ == easy_job@.drop_first());
            assert(hard_rest@ == hard_job@.drop_first());
            assert(easy_rest@ == all_e.skip(k + 1));
            assert(hard_rest@ == all_h.skip(k + 1));
            assert(easy_pay == all_e[k]);
            assert(hard_pay == all_h[k]);
            assert(all_e.len() - easy_rest@.len() == k + 1);
        }
        let easy_res = match cache.easy.get(&n) {
            Some(result) => *result,
            None => {
                let sub = Self::scheduler_helper_recursive(easy_rest, hard_rest, true, cache);
                let easy_check = easy_pay + sub;
                cache.easy.insert(n, easy_check);
                easy_check
            },
        };
        proof {
            assert(easy_res == easy_value(all_e, all_h, n as int));
            assert(cache.valid(n as int));
            assert(cache.extends(&start, n as int));
        }
        let ghost mid = *cache;
        let hard_res = {
            let cache_result = if worked_last_week {
                cache.off.get(&n)
            } else {
                cache.hard.get(&n)
            };
            match cache_result {
                Some(result) => *result,
                None => {
                    let sub = Self::scheduler_helper_recursive(
                        easy_rest,
                        hard_rest,
                        !worked_last_week,
                        cache,
                    );
                    let hard_check = if worked_last_week {
                        0
                    } else {
                        hard_pay
                    } + sub;
                    if worked_last_week {
                        cache.off.insert(n, hard_check);
                    } else {
                        cache.hard.insert(n, hard_check);
                    }
                    hard_check
                },
            }
        };
        proof {
            if worked_last_week {
                assert(hard_res == off_value(all_e, all_h, n as int));
            } else {
                assert(hard_res == hard_value(all_e, all_h, n as int));
            }
            assert(cache.valid(n as int));
            assert(cache.extends(&mid, n as int));
            assert(cache.extends(&start, n as int));
        }
        if hard_res >= easy_res {
            hard_res
        } else {
            easy_res
        }
    }
}

} // verus!
