pub mod register_bank;

use vstd::prelude::*;
use vstd::multiset::Multiset;
use crate::a4::register_bank::{Pos, Register, RegisterBank, reg_le, lemma_handle_dropped};

verus! {

broadcast use vstd::seq_lib::group_to_multiset_ensures;

/// The integers sorted by the register bank.
pub type Int = i32;

/// `s` is in non-decreasing order.
pub open spec fn is_sorted(s: Seq<Int>) -> bool {
    forall|i: int, j: int| 0 <= i <= j < s.len() ==> s[i] <= s[j]
}

/// The register at the read position of run `c`.
spec fn head(runs: Seq<Vec<Int>>, ptr: Seq<int>, c: int) -> Register {
    Register(runs[c]@[ptr[c]], Pos(c as usize, ptr[c] as usize))
}

/// The registers at the read positions of the runs before `c` that are not used up.
spec fn heads(runs: Seq<Vec<Int>>, ptr: Seq<int>, c: int) -> Multiset<Register>
    decreases c,
{
    if c <= 0 {
        Multiset::empty()
    } else if ptr[c - 1] < runs[c - 1]@.len() {
        heads(runs, ptr, c - 1).insert(head(runs, ptr, c - 1))
    } else {
        heads(runs, ptr, c - 1)
    }
}

/// The values not yet read from the runs before `c`.
spec fn unread(runs: Seq<Vec<Int>>, ptr: Seq<int>, c: int) -> Multiset<Int>
    decreases c,
{
    if c <= 0 {
        Multiset::empty()
    } else {
        unread(runs, ptr, c - 1).add(runs[c - 1]@.skip(ptr[c - 1]).to_multiset())
    }
}

proof fn lemma_heads_len(runs: Seq<Vec<Int>>, ptr: Seq<int>, c: int)
    requires
        0 <= c,
    ensures
        heads(runs, ptr, c).len() <= c,
    decreases c,
{
    if c > 0 {
        lemma_heads_len(runs, ptr, c - 1);
    }
}

proof fn lemma_heads_contain(runs: Seq<Vec<Int>>, ptr: Seq<int>, c: int, x: Register)
    requires
        0 <= c,
        c <= runs.len(),
        c <= ptr.len(),
    ensures
        heads(runs, ptr, c).count(x) > 0 <==> exists|d: int|
            0 <= d < c && ptr[d] < runs[d]@.len() && x == #[trigger] head(runs, ptr, d),
    decreases c,
{
    if c > 0 {
        lemma_heads_contain(runs, ptr, c - 1, x);
        if ptr[c - 1] < runs[c - 1]@.len() && x == head(runs, ptr, c - 1) {
            assert(heads(runs, ptr, c).count(x) > 0);
        }
        if exists|d: int|
            0 <= d < c && ptr[d] < runs[d]@.len() && x == #[trigger] head(runs, ptr, d) {
            let d = choose|d: int|
                0 <= d < c && ptr[d] < runs[d]@.len() && x == #[trigger] head(runs, ptr, d);
            if d < c - 1 {
                assert(heads(runs, ptr, c - 1).count(x) > 0);
            }
        }
    }
}

proof fn lemma_heads_advance(runs: Seq<Vec<Int>>, ptr: Seq<int>, i: int, c: int)
    requires
        0 <= i < c,
        c <= runs.len(),
        c <= ptr.len(),
        0 <= ptr[i] < runs[i]@.len(),
    ensures
        ptr[i] + 1 < runs[i]@.len() ==> heads(runs, ptr.update(i, ptr[i] + 1), c)
            == heads(runs, ptr, c).remove(head(runs, ptr, i)).insert(
            head(runs, ptr.update(i, ptr[i] + 1), i),
        ),
        ptr[i] + 1 >= runs[i]@.len() ==> heads(runs, ptr.update(i, ptr[i] + 1), c)
            == heads(runs, ptr, c).remove(head(runs, ptr, i)),
    decreases c,
{
    let ptr2 = ptr.update(i, ptr[i] + 1);
    if c - 1 > i {
        lemma_heads_advance(runs, ptr, i, c - 1);
        assert(head(runs, ptr2, c - 1) == head(runs, ptr, c - 1));
        let h = heads(runs, ptr, c - 1);
        if ptr[c - 1] < runs[c - 1]@.len() {
            let y = head(runs, ptr, c - 1);
            let a = head(runs, ptr, i);
            assert(h.count(a) > 0) by {
                lemma_heads_contain(runs, ptr, c - 1, a);
            }
            if ptr[i] + 1 < runs[i]@.len() {
                assert(h.remove(a).insert(head(runs, ptr2, i)).insert(y) =~= h.insert(y).remove(
                    a,
                ).insert(head(runs, ptr2, i)));
            } else {
                assert(h.remove(a).insert(y) =~= h.insert(y).remove(a));
            }
        }
    } else {
        assert(heads(runs, ptr2, c - 1) == heads(runs, ptr, c - 1)) by {
            lemma_heads_frame(runs, ptr, ptr2, c - 1);
        }
        assert(heads(runs, ptr, c - 1).insert(head(runs, ptr, i)).remove(head(runs, ptr, i))
            =~= heads(runs, ptr, c - 1));
    }
}

proof fn lemma_heads_frame(runs: Seq<Vec<Int>>, p1: Seq<int>, p2: Seq<int>, c: int)
    requires
        0 <= c,
        c <= p1.len(),
        c <= p2.len(),
        forall|d: int| 0 <= d < c ==> p1[d] == p2[d],
    ensures
        heads(runs, p1, c) == heads(runs, p2, c),
        unread(runs, p1, c) == unread(runs, p2, c),
    decreases c,
{
    if c > 0 {
        lemma_heads_frame(runs, p1, p2, c - 1);
        assert(head(runs, p1, c - 1) == head(runs, p2, c - 1));
    }
}

proof fn lemma_unread_advance(runs: Seq<Vec<Int>>, ptr: Seq<int>, i: int, c: int)
    requires
        0 <= i < c,
        c <= runs.len(),
        c <= ptr.len(),
        0 <= ptr[i] < runs[i]@.len(),
    ensures
        unread(runs, ptr.update(i, ptr[i] + 1), c) == unread(runs, ptr, c).remove(
            runs[i]@[ptr[i]],
        ),
        unread(runs, ptr, c).count(runs[i]@[ptr[i]]) > 0,
    decreases c,
{
    let ptr2 = ptr.update(i, ptr[i] + 1);
    let v = runs[i]@[ptr[i]];
    let s = runs[i]@;
    let p = ptr[i];
    assert(s.skip(p) =~= seq![v] + s.skip(p + 1));
    vstd::seq_lib::lemma_multiset_commutative(seq![v], s.skip(p + 1));
    assert(seq![v].to_multiset() =~= Multiset::singleton(v)) by {
        assert(seq![v] =~= Seq::<Int>::empty().push(v));
    }
    if c - 1 > i {
        lemma_unread_advance(runs, ptr, i, c - 1);
        assert(unread(runs, ptr2, c - 1).add(runs[c - 1]@.skip(ptr2[c - 1]).to_multiset())
            =~= unread(runs, ptr, c - 1).add(
            runs[c - 1]@.skip(ptr[c - 1]).to_multiset(),
        ).remove(v));
    } else {
        lemma_heads_frame(runs, ptr, ptr2, c - 1);
        assert(unread(runs, ptr2, c - 1).add(s.skip(p + 1).to_multiset()) =~= unread(
            runs,
            ptr,
            c - 1,
        ).add(s.skip(p).to_multiset()).remove(v));
    }
}

proof fn lemma_unread_empty(runs: Seq<Vec<Int>>, ptr: Seq<int>, c: int)
    requires
        0 <= c,
        c <= runs.len(),
        c <= ptr.len(),
        forall|d: int| 0 <= d < c ==> ptr[d] == runs[d]@.len(),
    ensures
        unread(runs, ptr, c) =~= Multiset::<Int>::empty(),
    decreases c,
{
    if c > 0 {
        lemma_unread_empty(runs, ptr, c - 1);
        assert(runs[c - 1]@.skip(ptr[c - 1]) =~= Seq::<Int>::empty());
    }
}

proof fn lemma_unread_start(runs: Seq<Vec<Int>>, ptr: Seq<int>, c: int)
    requires
        0 <= c,
        c <= runs.len(),
        c <= ptr.len(),
        forall|d: int| 0 <= d < c ==> ptr[d] == 0,
    ensures
        unread(runs, ptr, c) == whole(runs, c),
    decreases c,
{
    if c > 0 {
        lemma_unread_start(runs, ptr, c - 1);
        assert(runs[c - 1]@.skip(0) == runs[c - 1]@);
    }
}

/// All values of the runs before `c`.
spec fn whole(runs: Seq<Vec<Int>>, c: int) -> Multiset<Int>
    decreases c,
{
    if c <= 0 {
        Multiset::empty()
    } else {
        whole(runs, c - 1).add(runs[c - 1]@.to_multiset())
    }
}

proof fn lemma_whole_push(runs: Seq<Vec<Int>>, v: Vec<Int>, c: int)
    requires
        0 <= c <= runs.len(),
    ensures
        whole(runs.push(v), c) == whole(runs, c),
    decreases c,
{
    if c > 0 {
        lemma_whole_push(runs, v, c - 1);
    }
}

/// The length of each run (but the last) that `sort` cuts `n` numbers into for `k`:
/// `n / k`, rounded up.
pub open spec fn run_len(n: int, k: int) -> int {
    if n % k == 0 {
        n / k
    } else {
        n / k + 1
    }
}

/// How many runs of `run_len(n, k)` numbers (the last maybe shorter) `n` numbers make.
pub open spec fn run_count(n: int, k: int) -> int {
    run_len(n, run_len(n, k))
}

/// A bank that holds `limit` registers is large enough to sort `n` numbers for `k`: the
/// runs of every level of the sort, and of the runs cut from them, fit in it.
pub open spec fn bank_fits(n: int, k: int, limit: int) -> bool
    decreases n,
{
    if n < 2 || k < 2 {
        true
    } else {
        let c = run_len(n, k);
        let m = run_count(n, k);
        let last = n - (m - 1) * c;
        &&& m <= limit
        &&& (0 <= c < n ==> bank_fits(c, k, limit))
        &&& (0 <= last < n ==> bank_fits(last, k, limit))
    }
}

/// `run_len(n, k)` runs of `k` reach `n`, and at most `k` runs of `c` do where `c` runs of
/// `k` do.
proof fn lemma_run_len_bounds(n: int, k: int, c: int)
    requires
        n >= 0,
        k >= 1,
        c >= 1,
        c * k >= n,
    ensures
        run_len(n, k) * k >= n,
        run_len(n, c) <= k,
{
    let q = n / k;
    let r = n % k;
    assert(n == k * q + r && 0 <= r < k) by (nonlinear_arith)
        requires k >= 1, q == n / k, r == n % k;
    if r == 0 {
        assert(q * k == n) by (nonlinear_arith)
            requires n == k * q + r, r == 0;
    } else {
        assert((q + 1) * k > n) by (nonlinear_arith)
            requires n == k * q + r, r < k;
    }
    let q2 = n / c;
    let r2 = n % c;
    assert(n == c * q2 + r2 && 0 <= r2 < c) by (nonlinear_arith)
        requires c >= 1, q2 == n / c, r2 == n % c;
    if r2 == 0 {
        assert(q2 <= k) by (nonlinear_arith)
            requires n == c * q2, c * k >= n, c >= 1;
    } else {
        assert(q2 < k) by (nonlinear_arith)
            requires n == c * q2 + r2, r2 > 0, c * k >= n, c >= 1;
    }
}

/// A bank that holds at least `k` registers is large enough to sort any number of numbers
/// for `k`.
pub proof fn lemma_bank_fits(n: int, k: int, limit: int)
    requires
        2 <= k <= limit,
    ensures
        bank_fits(n, k, limit),
    decreases n,
{
    if n >= 2 {
        let c = run_len(n, k);
        assert(n * k >= n) by (nonlinear_arith)
            requires n >= 2, k >= 2;
        lemma_run_len_bounds(n, k, n);
        assert(c >= 1) by (nonlinear_arith)
            requires c * k >= n, n >= 2, k >= 2;
        lemma_run_len_bounds(n, k, c);
        let m = run_count(n, k);
        let last = n - (m - 1) * c;
        if 0 <= c < n {
            lemma_bank_fits(c, k, limit);
        }
        if 0 <= last < n {
            lemma_bank_fits(last, k, limit);
        }
    }
}

/// Where `l` whole runs of `c` fall short of `n` and one more reaches it, there are
/// `l + 1` runs.
proof fn lemma_run_count_exact(n: int, c: int, l: int)
    requires
        1 <= c,
        0 <= l,
        l * c < n <= (l + 1) * c,
    ensures
        run_len(n, c) == l + 1,
{
    let q = n / c;
    let r = n % c;
    assert(n == c * q + r && 0 <= r < c) by (nonlinear_arith)
        requires c >= 1, q == n / c, r == n % c;
    if r == 0 {
        assert(q == l + 1) by (nonlinear_arith)
            requires l * c < n, n <= (l + 1) * c, n == c * q, c >= 1;
    } else {
        assert(q == l) by (nonlinear_arith)
            requires l * c < n, n <= (l + 1) * c, n == c * q + r, 0 < r < c, c >= 1;
    }
}

/// Sorts `numbers` by cutting it into at most `k` runs, sorting each run the same way, and
/// merging the runs through `register_bank`, which must hold the runs of every level.
pub fn sort(numbers: &[Int], k: usize, register_bank: &mut RegisterBank) -> (r: Vec<Int>)
    requires
        numbers@.len() >= 2 ==> 2 <= k && bank_fits(
            numbers@.len() as int,
            k as int,
            old(register_bank).limit() as int,
        ),
    ensures
        is_sorted(r@),
        r@.to_multiset() == numbers@.to_multiset(),
        final(register_bank).limit() == old(register_bank).limit(),
        numbers@.len() >= 2 ==> final(register_bank).registers().len() == 0,
        numbers@.len() < 2 ==> *final(register_bank) == *old(register_bank),
    decreases numbers@.len(),
{
    let n = numbers.len();
    if n == 1 {
        let mut v: Vec<Int> = Vec::new();
        v.push(numbers[0]);
        proof {
            assert(v@ =~= numbers@);
        }
        return v;
    } else if n == 0 {
        let v: Vec<Int> = Vec::new();
        proof {
            assert(v@ =~= numbers@);
        }
        return v;
    }
    let q = n / k;
    proof {
        assert(q <= n / 2) by (nonlinear_arith)
            requires q == n / k, k >= 2;
    }
    let num_sub_arrays: usize = if n % k == 0 {
        q
    } else {
        q + 1
    };
    proof {
        lemma_chunk_bounds(n as int, k as int, num_sub_arrays as int);
        assert(0 * num_sub_arrays == 0) by (nonlinear_arith);
    }
    let mut sub_array_list: Vec<Vec<Int>> = Vec::new();
    let mut start: usize = 0;
    while start < n
        invariant
            n == numbers@.len(),
            2 <= n,
            2 <= k,
            bank_fits(n as int, k as int, register_bank.limit() as int),
            num_sub_arrays == run_len(n as int, k as int),
            start == n ==> sub_array_list@.len() == run_count(n as int, k as int),
            register_bank.limit() == old(register_bank).limit(),
            1 <= num_sub_arrays < n,
            num_sub_arrays * k >= n,
            start <= n,
            start == n || sub_array_list@.len() * num_sub_arrays == start,
            sub_array_list@.len() * num_sub_arrays < n + num_sub_arrays,
            forall|c: int|
                0 <= c < sub_array_list@.len() ==> (#[trigger] sub_array_list@[c])@.len() > 0
                    && is_sorted(sub_array_list@[c]@) && sub_array_list@[c]@.len() <= n,
            whole(sub_array_list@, sub_array_list@.len() as int) == numbers@.subrange(
                0,
                start as int,
            ).to_multiset(),
        decreases n - start,
    {
        let end = if n - start < num_sub_arrays {
            n
        } else {
            start + num_sub_arrays
        };
        proof {
            let c = num_sub_arrays as int;
            let l = sub_array_list@.len() as int;
            if end == n {
                assert(l * c == start);
                assert((l + 1) * c == l * c + c) by (nonlinear_arith);
                lemma_run_count_exact(n as int, c, l);
                assert(l > 0) by (nonlinear_arith)
                    requires l * c == start, start + c >= n, c < n, c >= 1;
            }
        }
        let run = sort(&numbers[start..end], k, register_bank);
        let ghost before = sub_array_list@;
        sub_array_list.push(run);
        proof {
            assert(run@.len() == end - start) by {
                assert(run@.to_multiset().len() == numbers@.subrange(start as int, end as int).to_multiset().len());
            }
            assert forall|c: int|
                0 <= c < sub_array_list@.len() implies (#[trigger] sub_array_list@[c])@.len() > 0
                    && is_sorted(sub_array_list@[c]@) && sub_array_list@[c]@.len() <= n by {
                if c < before.len() {
                    assert(sub_array_list@[c] == before[c]);
                }
            }
            let all = numbers@;
            assert(all.subrange(0, end as int) =~= all.subrange(0, start as int) + all.subrange(
                start as int,
                end as int,
            ));
            vstd::seq_lib::lemma_multiset_commutative(
                all.subrange(0, start as int),
                all.subrange(start as int, end as int),
            );
            lemma_whole_push(before, run, before.len() as int);
            assert(sub_array_list@ == before.push(run));
            assert(sub_array_list@[before.len() as int] == run);
            assert(sub_array_list@.len() * num_sub_arrays == before.len() * num_sub_arrays
                + num_sub_arrays) by (nonlinear_arith)
                requires
                    sub_array_list@.len() == before.len() + 1,
            ;
        }
        start = end;
    }
    let m = sub_array_list.len();
    proof {
        assert(numbers@.subrange(0, n as int) == numbers@);
        assert(m == run_count(n as int, k as int));
        assert(m <= register_bank.limit());
    }
    let mut init_reg: Vec<Register> = Vec::new();
    let mut c: usize = 0;
    let ghost runs = sub_array_list@;
    let ghost zeros: Seq<int> = Seq::new(m as nat, |d: int| 0int);
    while c < m
        invariant
            runs == sub_array_list@,
            m == runs.len(),
            zeros == Seq::new(m as nat, |d: int| 0int),
            forall|d: int| 0 <= d < m ==> (#[trigger] runs[d])@.len() > 0,
            forall|d: int| 0 <= d < m ==> (#[trigger] runs[d])@.len() <= usize::MAX,
            forall|d: int| 0 <= d < m ==> is_sorted((#[trigger] runs[d])@),
            m <= register_bank.limit(),
            c <= m,
            init_reg@.to_multiset() == heads(runs, zeros, c as int),
        decreases m - c,
    {
        let first = sub_array_list[c][0];
        init_reg.push(Register(first, Pos(c, 0)));
        proof {
            assert(head(runs, zeros, c as int) == Register(first, Pos(c, 0)));
        }
        c = c + 1;
    }
    proof {
        lemma_heads_len(runs, zeros, m as int);
        assert(init_reg@.len() == init_reg@.to_multiset().len());
    }
    register_bank.re_innit(init_reg);
    let mut sorted_array: Vec<Int> = Vec::new();
    let ghost mut ptr: Seq<int> = zeros;
    proof {
        lemma_unread_start(runs, ptr, m as int);
    }
    loop
        invariant
            runs == sub_array_list@,
            m == runs.len(),
            m <= register_bank.limit(),
            register_bank.limit() == old(register_bank).limit(),
            ptr.len() == m,
            forall|d: int|
                0 <= d < m ==> 0 <= #[trigger] ptr[d] && ptr[d] <= runs[d]@.len() && runs[d]@.len()
                    <= usize::MAX && is_sorted(runs[d]@),
            register_bank.registers() == heads(runs, ptr, m as int),
            sorted_array@.to_multiset().add(unread(runs, ptr, m as int)) == numbers@.to_multiset(),
            is_sorted(sorted_array@),
            sorted_array@.len() > 0 ==> forall|d: int, q: int|
                0 <= d < m && ptr[d] <= q < runs[d]@.len() ==> sorted_array@.last() <= #[trigger] runs[d]@[q],
        ensures
            is_sorted(sorted_array@),
            sorted_array@.to_multiset() == numbers@.to_multiset(),
            register_bank.registers().len() == 0,
            register_bank.limit() == old(register_bank).limit(),
        decreases unread(runs, ptr, m as int).len(),
    {
        let ghost bank_before = register_bank.registers();
        match register_bank.remove_min() {
            None => {
                proof {
                    assert forall|d: int| 0 <= d < m implies ptr[d] >= (#[trigger] runs[d])@.len() by {
                        if ptr[d] < runs[d]@.len() {
                            lemma_heads_contain(runs, ptr, m as int, head(runs, ptr, d));
                        }
                    }
                    lemma_unread_empty(runs, ptr, m as int);
                    assert(register_bank.registers().len() == 0);
                    assert(sorted_array@.to_multiset().add(Multiset::empty()) =~= sorted_array@.to_multiset());
                }
                break;
            },
            Some(bank_handle) => {
                let Register(val, Pos(i, j)) = bank_handle.get();
                proof {
                    let x = bank_handle.least();
                    lemma_heads_contain(runs, ptr, m as int, x);
                    let d0 = choose|d: int|
                        0 <= d < m && ptr[d] < runs[d]@.len() && x == #[trigger] head(runs, ptr, d);
                    assert(d0 == i as int);
                    assert(runs[d0]@.len() <= usize::MAX);
                    assert(j as int == ptr[i as int]);
                    assert forall|d: int, q: int|
                        0 <= d < m && ptr[d] <= q < runs[d]@.len() implies val <= #[trigger] runs[d]@[q] by {
                        lemma_heads_contain(runs, ptr, m as int, head(runs, ptr, d));
                        assert(reg_le(x, head(runs, ptr, d)));
                        assert(runs[d]@[ptr[d] as int] <= runs[d]@[q]);
                    }
                    lemma_unread_advance(runs, ptr, i as int, m as int);
                    lemma_heads_advance(runs, ptr, i as int, m as int);
                    lemma_heads_len(runs, ptr, m as int);
                }
                let ghost old_sorted = sorted_array@;
                sorted_array.push(val);
                let ghost ptr2 = ptr.update(i as int, j + 1);
                if j + 1 < sub_array_list[i].len() {
                    let next = sub_array_list[i][j + 1];
                    bank_handle.insert(Register(next, Pos(i, j + 1)));
                } else {
                    proof {
                        lemma_handle_dropped(bank_handle);
                    }
                }
                proof {
                    if j + 1 < runs[i as int]@.len() {
                        assert(head(runs, ptr2, i as int) == Register(runs[i as int]@[j + 1], Pos(i, (j + 1) as usize)));
                    }
                    assert(sorted_array@.to_multiset() == old_sorted.to_multiset().insert(val));
                    assert(sorted_array@.to_multiset().add(unread(runs, ptr2, m as int)) =~= old_sorted.to_multiset().add(unread(runs, ptr, m as int)));
                    assert forall|d: int, q: int|
                        0 <= d < m && ptr2[d] <= q < runs[d]@.len() implies sorted_array@.last() <= #[trigger] runs[d]@[q] by {
                        assert(ptr[d] <= ptr2[d]);
                    }
                    assert forall|a: int, b: int| 0 <= a <= b < sorted_array@.len() implies sorted_array@[a] <= sorted_array@[b] by {
                        if b == sorted_array@.len() - 1 && a < b {
                            assert(old_sorted[a] <= old_sorted.last());
                            assert(old_sorted.last() == runs[i as int]@[j as int] || old_sorted.last() <= runs[i as int]@[j as int]);
                        }
                    }
                    assert forall|d: int| 0 <= d < m implies 0 <= ptr2[d] <= (#[trigger] runs[d])@.len() by {
                        if d == i as int {
                            assert(ptr[d] < runs[d]@.len());
                            assert(ptr2[d] == j + 1);
                            assert(ptr[d] == j);
                        } else {
                            assert(0 <= ptr[d] <= runs[d]@.len());
                            assert(ptr2[d] == ptr[d]);
                        }
                    }
                    ptr = ptr2;
                }
            },
        }
    }
    sorted_array
}

proof fn lemma_chunk_bounds(n: int, k: int, c: int)
    requires
        2 <= n,
        2 <= k,
        c == if n % k == 0 { n / k } else { n / k + 1 },
    ensures
        1 <= c < n,
        c * k >= n,
{
    assert(n == k * (n / k) + n % k) by (nonlinear_arith)
        requires k > 0;
    assert(n / k >= 0) by (nonlinear_arith)
        requires n >= 0, k > 0;
    assert(n / k <= n / 2) by (nonlinear_arith)
        requires n >= 0, k >= 2;
    if n % k == 0 {
        assert(n / k >= 1) by (nonlinear_arith)
            requires n >= 2, k > 0, n == k * (n / k);
        assert(c * k == n) by (nonlinear_arith)
            requires c == n / k, n == k * (n / k);
    } else {
        assert(c * k == k * (n / k) + k) by (nonlinear_arith)
            requires c == n / k + 1;
        assert(n / k + 1 < n) by (nonlinear_arith)
            requires n >= 2, k >= 2, n == k * (n / k) + n % k, n % k > 0, n % k < k;
    }
}

} // verus!
