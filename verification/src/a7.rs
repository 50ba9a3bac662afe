use vstd::prelude::*;

verus! {

/// The metamorphosis of one string into another.
pub struct Assignment7;

/// One step of a metamorphosis: the characters it consumes from the source and emits to
/// the target.
#[derive(Debug, Clone, Copy, PartialEq, Eq)]
pub enum Operation {
    Delete(char),
    Insert(char),
    Replace { from: char, to: char },
    Copy(char),
}

/// The cost of one operation: a copy is free, every other operation costs one.
pub open spec fn op_cost(op: Operation) -> nat {
    match op {
        Operation::Copy(_) => 0,
        _ => 1,
    }
}

/// The cost of a list of operations.
pub open spec fn total_cost(ops: Seq<Operation>) -> nat
    decreases ops.len(),
{
    if ops.len() == 0 {
        0
    } else {
        total_cost(ops.drop_last()) + op_cost(ops.last())
    }
}

/// How many operations of a script change something: all but the copies.
pub open spec fn changes(ops: Seq<Operation>) -> nat {
    ops.filter(|op: Operation| !(op is Copy)).len()
}

/// A copy is free and every other operation, a replacement of a character by itself
/// included, costs one: the cost of a script is the number of its operations that are not
/// copies.
pub proof fn lemma_cost_counts_changes(ops: Seq<Operation>)
    ensures
        total_cost(ops) == changes(ops),
    decreases ops.len(),
{
    reveal(Seq::filter);
    if ops.len() > 0 {
        lemma_cost_counts_changes(ops.drop_last());
    }
}

/// The characters an operation reads from the source.
pub open spec fn consumed(op: Operation) -> Seq<char> {
    match op {
        Operation::Delete(c) => seq![c],
        Operation::Insert(_) => Seq::empty(),
        Operation::Replace { from, to: _ } => seq![from],
        Operation::Copy(c) => seq![c],
    }
}

/// The characters an operation writes to the target.
pub open spec fn produced(op: Operation) -> Seq<char> {
    match op {
        Operation::Delete(_) => Seq::empty(),
        Operation::Insert(c) => seq![c],
        Operation::Replace { from: _, to } => seq![to],
        Operation::Copy(c) => seq![c],
    }
}

/// The source that a list of operations reads, in order.
pub open spec fn source(ops: Seq<Operation>) -> Seq<char>
    decreases ops.len(),
{
    if ops.len() == 0 {
        Seq::empty()
    } else {
        source(ops.drop_last()) + consumed(ops.last())
    }
}

/// The target that a list of operations writes, in order.
pub open spec fn target(ops: Seq<Operation>) -> Seq<char>
    decreases ops.len(),
{
    if ops.len() == 0 {
        Seq::empty()
    } else {
        target(ops.drop_last()) + produced(ops.last())
    }
}

/// Unicode white space, as `char::is_whitespace` and `str::split_whitespace` define it.
pub open spec fn is_ws(c: char) -> bool {
    let v = c as u32;
    ||| 0x09 <= v <= 0x0d
    ||| v == 0x20
    ||| v == 0x85
    ||| v == 0xa0
    ||| v == 0x1680
    ||| 0x2000 <= v <= 0x200a
    ||| v == 0x2028
    ||| v == 0x2029
    ||| v == 0x202f
    ||| v == 0x205f
    ||| v == 0x3000
}

/// The words of `s` after the word in progress `cur`: maximal runs of characters that are
/// not white space.
pub open spec fn words_from(s: Seq<char>, cur: Seq<char>) -> Seq<Seq<char>>
    decreases s.len(),
{
    if s.len() == 0 {
        if cur.len() > 0 {
            seq![cur]
        } else {
            Seq::empty()
        }
    } else if is_ws(s[0]) {
        (if cur.len() > 0 {
            seq![cur]
        } else {
            Seq::empty()
        }) + words_from(s.drop_first(), Seq::empty())
    } else {
        words_from(s.drop_first(), cur.push(s[0]))
    }
}

/// The words of `s`, as `str::split_whitespace` gives them.
pub open spec fn words(s: Seq<char>) -> Seq<Seq<char>> {
    words_from(s, Seq::empty())
}

/// The text of an operation's name.
pub open spec fn name_delete() -> Seq<char> {
    seq!['D', 'e', 'l', 'e', 't', 'e']
}

/// The text of an operation's name.
pub open spec fn name_insert() -> Seq<char> {
    seq!['I', 'n', 's', 'e', 'r', 't']
}

/// The text of an operation's name.
pub open spec fn name_replace() -> Seq<char> {
    seq!['R', 'e', 'p', 'l', 'a', 'c', 'e']
}

/// The text of an operation's name.
pub open spec fn name_copy() -> Seq<char> {
    seq!['C', 'o', 'p', 'y']
}

/// The operation that a line of text names: its first word is the operation, the first
/// character of the second word is the character, and a replacement is written
/// `Replace <old> with <new>` or `Replace <old> <new>`: the first character of its fourth
/// word, or of its third where it has only three, is the new character.
pub open spec fn parse_spec(s: Seq<char>) -> Option<Operation> {
    let w = words(s);
    if w.len() < 2 {
        None
    } else {
        let c = w[1][0];
        if w[0] == name_delete() {
            Some(Operation::Delete(c))
        } else if w[0] == name_insert() {
            Some(Operation::Insert(c))
        } else if w[0] == name_replace() {
            if w.len() >= 4 {
                Some(Operation::Replace { from: c, to: w[3][0] })
            } else if w.len() == 3 {
                Some(Operation::Replace { from: c, to: w[2][0] })
            } else {
                None
            }
        } else if w[0] == name_copy() {
            Some(Operation::Copy(c))
        } else {
            None
        }
    }
}

fn is_white_space(c: char) -> (r: bool)
    ensures
        r == is_ws(c),
{
    let v = c as u32;
    (0x09 <= v && v <= 0x0d) || v == 0x20 || v == 0x85 || v == 0xa0 || v == 0x1680 || (0x2000 <= v
        && v <= 0x200a) || v == 0x2028 || v == 0x2029 || v == 0x202f || v == 0x205f || v == 0x3000
}

broadcast use vstd::string::axiom_spec_iter;

/// The characters of `s`.
fn chars_of(s: &str) -> (v: Vec<char>)
    ensures
        v@ == s@,
{
    let mut v: Vec<char> = Vec::new();
    for c in it: s.chars()
        invariant
            v@ == it.seq().take(it.index() as int),
    {
        v.push(c);
    }
    v
}

/// The words of `s`.
fn split_words(s: &str) -> (r: Vec<Vec<char>>)
    ensures
        r@.len() == words(s@).len(),
        forall|i: int| 0 <= i < r@.len() ==> (#[trigger] r@[i])@ == words(s@)[i],
{
    let cs = chars_of(s);
    let ghost all = cs@;
    let mut out: Vec<Vec<char>> = Vec::new();
    let mut cur: Vec<char> = Vec::new();
    let mut i: usize = 0;
    proof {
        assert(all.skip(0) == all);
    }
    while i < cs.len()
        invariant
            all == cs@,
            i <= all.len(),
            words(all) == out@.map_values(|w: Vec<char>| w@) + words_from(all.skip(i as int), cur@),
        decreases all.len() - i,
    {
        let c = cs[i];
        let ghost cur_before = cur@;
        let ghost out_before = out@.map_values(|w: Vec<char>| w@);
        proof {
            assert(all.skip(i as int).drop_first() == all.skip(i + 1));
            assert(all.skip(i as int)[0] == c);
            assert(all.skip(i as int).len() > 0);
            if is_ws(c) {
                let pre: Seq<Seq<char>> = if cur_before.len() > 0 {
                    seq![cur_before]
                } else {
                    Seq::empty()
                };
                assert(words_from(all.skip(i as int), cur_before) == pre + words_from(all.skip(i + 1), Seq::empty()));
            } else {
                assert(words_from(all.skip(i as int), cur_before) == words_from(all.skip(i + 1), cur_before.push(c)));
            }
        }
        if is_white_space(c) {
            if cur.len() > 0 {
                let ghost before = out@.map_values(|w: Vec<char>| w@);
                let ghost word = cur@;
                let mut done: Vec<char> = Vec::new();
                std::mem::swap(&mut cur, &mut done);
                out.push(done);
                proof {
                    assert(out@.map_values(|w: Vec<char>| w@) == before.push(word));
                    assert(before + (seq![word] + words_from(all.skip(i + 1), Seq::empty())) == before.push(word) + words_from(all.skip(i + 1), Seq::empty()));
                    assert(cur@ == Seq::<char>::empty());
                    assert(word == cur_before);
                    assert(words(all) == out@.map_values(|w: Vec<char>| w@) + words_from(all.skip(i + 1), cur@));
                }
            } else {
                proof {
                    assert(Seq::<Seq<char>>::empty() + words_from(all.skip(i + 1), Seq::empty()) == words_from(all.skip(i + 1), Seq::empty()));
                    assert(cur@ == Seq::<char>::empty());
                    assert(words(all) == out@.map_values(|w: Vec<char>| w@) + words_from(all.skip(i + 1), cur@));
                }
            }
        } else {
            cur.push(c);
            proof {
                assert(words(all) == out@.map_values(|w: Vec<char>| w@) + words_from(all.skip(i + 1), cur@));
            }
        }
        i = i + 1;
    }
    proof {
        assert(all.skip(i as int).len() == 0);
    }
    if cur.len() > 0 {
        let ghost before = out@.map_values(|w: Vec<char>| w@);
        let ghost word = cur@;
        out.push(cur);
        proof {
            assert(out@.map_values(|w: Vec<char>| w@) == before.push(word));
            assert(before + seq![word] == before.push(word));
        }
    } else {
        proof {
            assert(out@.map_values(|w: Vec<char>| w@) + Seq::<Seq<char>>::empty() == out@.map_values(|w: Vec<char>| w@));
        }
    }
    proof {
        assert forall|k: int| 0 <= k < out@.len() implies (#[trigger] out@[k])@ == words(s@)[k] by {
            assert(out@.map_values(|w: Vec<char>| w@)[k] == out@[k]@);
        }
    }
    out
}

/// `w` spells `name`.
fn spells(w: &Vec<char>, name: &Vec<char>) -> (r: bool)
    ensures
        r == (w@ == name@),
{
    if w.len() != name.len() {
        return false;
    }
    let mut i: usize = 0;
    while i < w.len()
        invariant
            w@.len() == name@.len(),
            i <= w@.len(),
            forall|q: int| 0 <= q < i ==> w@[q] == name@[q],
        decreases w@.len() - i,
    {
        if w[i] != name[i] {
            return false;
        }
        i = i + 1;
    }
    proof {
        assert(w@ =~= name@);
    }
    true
}

impl Operation {
    /// The operation named by a line such as `"Copy a"`, `"Delete b"`, `"Insert c"` or
    /// `"Replace d with e"` (or `"Replace d e"`), or `Err(())` for a line that names none.
    pub fn parse(s: &str) -> (r: Result<Operation, ()>)
        ensures
            r is Ok <==> parse_spec(s@) is Some,
            r matches Ok(op) ==> parse_spec(s@) == Some(op),
    {
        let w = split_words(s);
        if w.len() < 2 {
            return Err(());
        }
        proof {
            let ws = words(s@);
            lemma_words_nonempty(s@, Seq::empty());
            assert(ws[1].len() > 0);
        }
        let c = w[1][0];
        let delete_name = vec!['D', 'e', 'l', 'e', 't', 'e'];
        let insert_name = vec!['I', 'n', 's', 'e', 'r', 't'];
        let replace_name = vec!['R', 'e', 'p', 'l', 'a', 'c', 'e'];
        let copy_name = vec!['C', 'o', 'p', 'y'];
        proof {
            assert(delete_name@ == name_delete());
            assert(insert_name@ == name_insert());
            assert(replace_name@ == name_replace());
            assert(copy_name@ == name_copy());
        }
        if spells(&w[0], &delete_name) {
            Ok(Operation::Delete(c))
        } else if spells(&w[0], &insert_name) {
            Ok(Operation::Insert(c))
        } else if spells(&w[0], &replace_name) {
            if w.len() < 3 {
                return Err(());
            }
            proof {
                lemma_words_nonempty(s@, Seq::empty());
                assert(words(s@)[2].len() > 0);
                if w@.len() >= 4 {
                    assert(words(s@)[3].len() > 0);
                }
            }
            let to = if w.len() >= 4 {
                w[3][0]
            } else {
                w[2][0]
            };
            Ok(Operation::Replace { from: c, to })
        } else if spells(&w[0], &copy_name) {
            Ok(Operation::Copy(c))
        } else {
            Err(())
        }
    }

    /// Parses each line into an operation; every line must name one.
    pub fn from_raw(raw_ops: &[&str]) -> (r: Vec<Operation>)
        requires
            forall|i: int| 0 <= i < raw_ops@.len() ==> (#[trigger] parse_spec(raw_ops@[i]@)) is Some,
        ensures
            r@.len() == raw_ops@.len(),
            forall|i: int| 0 <= i < r@.len() ==> Some(#[trigger] r@[i]) == parse_spec(raw_ops@[i]@),
    {
        let mut out: Vec<Operation> = Vec::new();
        let mut i: usize = 0;
        while i < raw_ops.len()
            invariant
                i <= raw_ops@.len(),
                out@.len() == i,
                forall|i: int| 0 <= i < raw_ops@.len() ==> (#[trigger] parse_spec(raw_ops@[i]@)) is Some,
                forall|q: int| 0 <= q < i ==> Some(#[trigger] out@[q]) == parse_spec(raw_ops@[q]@),
            decreases raw_ops@.len() - i,
        {
            let op = Operation::parse(raw_ops[i]).unwrap();
            out.push(op);
            i = i + 1;
        }
        out
    }

    /// The total cost of a list of operations.
    pub fn count_ops(ops: &[Operation]) -> (r: u32)
        requires
            total_cost(ops@) <= u32::MAX,
        ensures
            r == total_cost(ops@),
            r == changes(ops@),
    {
        proof {
            lemma_cost_counts_changes(ops@);
        }
        let mut sum: u32 = 0;
        let mut i: usize = 0;
        while i < ops.len()
            invariant
                i <= ops@.len(),
                total_cost(ops@) <= u32::MAX,
                sum == total_cost(ops@.take(i as int)),
            decreases ops@.len() - i,
        {
            proof {
                assert(ops@.take(i + 1).drop_last() == ops@.take(i as int));
                lemma_total_cost_prefix(ops@, i + 1);
            }
            sum = sum + ops[i].cost();
            i = i + 1;
        }
        proof {
            assert(ops@.take(ops@.len() as int) == ops@);
        }
        sum
    }

    /// The cost of this operation: nothing for a copy, one for anything else.
    pub fn cost(&self) -> (r: u32)
        ensures
            r == op_cost(*self),
            *self is Copy ==> r == 0,
            !(*self is Copy) ==> r == 1,
    {
        match self {
            Operation::Copy(_) => 0,
            Operation::Delete(_) | Operation::Insert(_) | Operation::Replace { .. } => 1,
        }
    }
}

proof fn lemma_total_cost_prefix(ops: Seq<Operation>, k: int)
    requires
        0 <= k <= ops.len(),
    ensures
        total_cost(ops.take(k)) <= total_cost(ops),
    decreases ops.len() - k,
{
    if k < ops.len() {
        lemma_total_cost_prefix(ops, k + 1);
        assert(ops.take(k + 1).drop_last() == ops.take(k));
    } else {
        assert(ops.take(k) == ops);
    }
}

/// Every word is non-empty.
proof fn lemma_words_nonempty(s: Seq<char>, cur: Seq<char>)
    ensures
        forall|i: int| 0 <= i < words_from(s, cur).len() ==> (#[trigger] words_from(s, cur)[i]).len() > 0,
    decreases s.len(),
{
    if s.len() > 0 {
        if is_ws(s[0]) {
            lemma_words_nonempty(s.drop_first(), Seq::empty());
            let pre: Seq<Seq<char>> = if cur.len() > 0 {
                seq![cur]
            } else {
                Seq::empty()
            };
            let rest = words_from(s.drop_first(), Seq::empty());
            assert(words_from(s, cur) == pre + rest);
            assert forall|i: int| 0 <= i < pre.len() implies (#[trigger] pre[i]).len() > 0 by {
                assert(pre[i] == cur);
            }
            assert forall|i: int| 0 <= i < (pre + rest).len() implies (#[trigger] (pre + rest)[i]).len() > 0 by {
                if i >= pre.len() {
                    assert((pre + rest)[i] == rest[i - pre.len()]);
                }
            }
        } else {
            lemma_words_nonempty(s.drop_first(), cur.push(s[0]));
            assert(words_from(s, cur) == words_from(s.drop_first(), cur.push(s[0])));
        }
    }
}

/// The string `s` seen through `n` positions: the character at each position where `s` has
/// one, and `None` beyond its end.
pub open spec fn padded(s: Seq<char>, n: nat) -> Seq<Option<char>> {
    Seq::new(n, |k: int| if k < s.len() { Some(s[k]) } else { None })
}

/// The least of three numbers.
pub open spec fn min3(a: nat, b: nat, c: nat) -> nat {
    if a <= b && a <= c {
        a
    } else if b <= c {
        b
    } else {
        c
    }
}

/// The least number of operations that turn `x[j..]` into `y[i..]`, where equal
/// characters are copied for free and every insertion, deletion or replacement costs one.
pub open spec fn dist(x: Seq<Option<char>>, y: Seq<Option<char>>, i: int, j: int) -> nat
    decreases (y.len() - i) + (x.len() - j),
{
    if i >= y.len() {
        if j >= x.len() {
            0
        } else {
            (x.len() - j) as nat
        }
    } else if j >= x.len() {
        (y.len() - i) as nat
    } else if x[j] == y[i] {
        dist(x, y, i + 1, j + 1)
    } else {
        1 + min3(dist(x, y, i, j + 1), dist(x, y, i + 1, j + 1), dist(x, y, i + 1, j))
    }
}

/// The metamorphosis number of `from` into `to`: the distance between their characters.
pub open spec fn metamorphosis_number(from: &str, to: &str) -> nat {
    dist(padded(from@, from@.len()), padded(to@, to@.len()), 0, 0)
}

proof fn lemma_dist_bound(x: Seq<Option<char>>, y: Seq<Option<char>>, i: int, j: int)
    requires
        0 <= i <= y.len(),
        0 <= j <= x.len(),
    ensures
        dist(x, y, i, j) <= (y.len() - i) + (x.len() - j),
    decreases (y.len() - i) + (x.len() - j),
{
    if i < y.len() && j < x.len() {
        lemma_dist_bound(x, y, i + 1, j + 1);
    }
}

/// Moving one position along either string changes the distance by at most one.
pub proof fn lemma_dist_neighbors(x: Seq<Option<char>>, y: Seq<Option<char>>, i: int, j: int)
    requires
        0 <= i <= y.len(),
        0 <= j <= x.len(),
    ensures
        j < x.len() ==> dist(x, y, i, j) <= dist(x, y, i, j + 1) + 1 && dist(x, y, i, j + 1) <= dist(
            x,
            y,
            i,
            j,
        ) + 1,
        i < y.len() ==> dist(x, y, i, j) <= dist(x, y, i + 1, j) + 1 && dist(x, y, i + 1, j) <= dist(
            x,
            y,
            i,
            j,
        ) + 1,
    decreases (y.len() - i) + (x.len() - j),
{
    if i < y.len() && j < x.len() {
        lemma_dist_neighbors(x, y, i, j + 1);
        lemma_dist_neighbors(x, y, i + 1, j);
    }
}

/// The least of three numbers does not depend on which of the outer two comes first.
proof fn lemma_min3_swap(a: nat, b: nat, c: nat)
    ensures
        min3(a, b, c) == min3(c, b, a),
{
}

/// The distance read backwards: turning `x[j..]` into `y[i..]` costs what turning
/// `y[i..]` into `x[j..]` costs.
proof fn lemma_dist_symmetric(x: Seq<Option<char>>, y: Seq<Option<char>>, i: int, j: int)
    requires
        0 <= i <= y.len(),
        0 <= j <= x.len(),
    ensures
        dist(x, y, i, j) == dist(y, x, j, i),
    decreases (y.len() - i) + (x.len() - j),
{
    if i < y.len() && j < x.len() {
        lemma_dist_symmetric(x, y, i + 1, j + 1);
        lemma_dist_symmetric(x, y, i, j + 1);
        lemma_dist_symmetric(x, y, i + 1, j);
        lemma_min3_swap(dist(x, y, i, j + 1), dist(x, y, i + 1, j + 1), dist(x, y, i + 1, j));
    }
}

/// The metamorphosis number is symmetric: turning `from` into `to` costs what turning `to`
/// into `from` costs.
pub proof fn lemma_metamorphosis_symmetric(from: &str, to: &str)
    ensures
        metamorphosis_number(from, to) == metamorphosis_number(to, from),
{
    lemma_dist_symmetric(padded(from@, from@.len()), padded(to@, to@.len()), 0, 0);
}

/// The character at position `k`, or `None` past the end.
fn char_at(v: &Vec<char>, k: usize) -> (r: Option<char>)
    ensures
        r == (if k < v@.len() {
            Some(v@[k as int])
        } else {
            None::<char>
        }),
{
    if k < v.len() {
        Some(v[k])
    } else {
        None
    }
}

/// The two positions hold the same character, or are both past the end.
fn same_at(a: Option<char>, b: Option<char>) -> (r: bool)
    ensures
        r == (a == b),
{
    match (a, b) {
        (Some(p), Some(q)) => p == q,
        (None, None) => true,
        _ => false,
    }
}

fn min_of3(a: u32, b: u32, c: u32) -> (r: u32)
    ensures
        r == min3(a as nat, b as nat, c as nat),
{
    if a <= b && a <= c {
        a
    } else if b <= c {
        b
    } else {
        c
    }
}

impl Assignment7 {
    /// The number of operations it takes to turn `from` into `to` when copies are free: the
    /// least cost of a metamorphosis.
    pub fn compute_metamorphosis_number(from: &str, to: &str) -> (r: u32)
        requires
            from@.len() + to@.len() < u32::MAX,
        ensures
            r == metamorphosis_number(from, to),
    {
        let grid = Self::metamorphosis_core(from, to);
        grid[0][0]
    }

    /// The table of distances between all suffixes of `from` and `to`: row `i`, column `j`
    /// holds the distance from the characters of `from` from position `j` on to those of
    /// `to` from position `i` on.
    fn metamorphosis_core(from: &str, to: &str) -> (grid: Vec<Vec<u32>>)
        requires
            from@.len() + to@.len() < u32::MAX,
        ensures
            grid@.len() == to@.len() + 1,
            forall|i: int|
                0 <= i <= to@.len() ==> (#[trigger] grid@[i])@.len() == from@.len() + 1,
            forall|i: int, j: int|
                0 <= i <= to@.len() && 0 <= j <= from@.len() ==> (#[trigger] grid@[i]@[j]) == dist(
                    padded(from@, from@.len()),
                    padded(to@, to@.len()),
                    i,
                    j,
                ),
    {
        let fc = chars_of(from);
        let tc = chars_of(to);
        let f = fc.len();
        let t = tc.len();
        let ghost x = padded(from@, f as nat);
        let ghost y = padded(to@, t as nat);
        let mut rows_rev: Vec<Vec<u32>> = Vec::new();
        let mut step: usize = 0;
        while step <= t
            invariant
                f == from@.len(),
                t == to@.len(),
                f + t < u32::MAX,
                x == padded(from@, f as nat),
                y == padded(to@, t as nat),
                fc@ == from@,
                tc@ == to@,
                step <= t + 1,
                rows_rev@.len() == step,
                forall|k: int|
                    0 <= k < step ==> (#[trigger] rows_rev@[k])@.len() == f + 1 && forall|j: int|
                        0 <= j <= f ==> rows_rev@[k]@[j] == dist(x, y, t - k, j),
            decreases t + 1 - step,
        {
            let i = t - step;
            let mut row: Vec<u32> = Vec::new();
            let mut z: usize = 0;
            while z <= f
                invariant
                    f + t < u32::MAX,
                    z <= f + 1,
                    row@.len() == z,
                decreases f + 1 - z,
            {
                row.push(0);
                z = z + 1;
            }
            if step == 0 {
                let mut j: usize = 0;
                while j <= f
                    invariant
                        f == from@.len(),
                        t == to@.len(),
                        f + t < u32::MAX,
                        x == padded(from@, f as nat),
                        y == padded(to@, t as nat),
                        i == t,
                        j <= f + 1,
                        row@.len() == f + 1,
                        forall|q: int| 0 <= q < j ==> row@[q] == dist(x, y, i as int, q),
                    decreases f + 1 - j,
                {
                    row.set(j, (f - j) as u32);
                    j = j + 1;
                }
            } else {
                let ghost below = rows_rev@[step - 1]@;
                proof {
                    assert(forall|j: int| 0 <= j <= f ==> below[j] == dist(x, y, i + 1, j));
                    assert(below.len() == f + 1);
                }
                row.set(f, (t - i) as u32);
                let mut j: usize = f;
                while j > 0
                    invariant
                        f == from@.len(),
                        t == to@.len(),
                        f + t < u32::MAX,
                        x == padded(from@, f as nat),
                        y == padded(to@, t as nat),
                        fc@ == from@,
                        tc@ == to@,
                        i < t,
                        step >= 1,
                        rows_rev@.len() == step,
                        below == rows_rev@[step - 1]@,
                        below.len() == f + 1,
                        forall|q: int| 0 <= q <= f ==> below[q] == dist(x, y, i + 1, q),
                        j <= f,
                        row@.len() == f + 1,
                        forall|q: int| j <= q <= f ==> row@[q] == dist(x, y, i as int, q),
                    decreases j,
                {
                    j = j - 1;
                    let a = char_at(&fc, j);
                    let b = char_at(&tc, i);
                    proof {
                        assert(x[j as int] == a);
                        assert(y[i as int] == b);
                        lemma_dist_bound(x, y, i as int, j as int);
                    }
                    if same_at(a, b) {
                        let v = rows_rev[step - 1][j + 1];
                        row.set(j, v);
                    } else {
                        let del = row[j + 1];
                        let rep = rows_rev[step - 1][j + 1];
                        let ins = rows_rev[step - 1][j];
                        let m = min_of3(del, rep, ins);
                        row.set(j, 1 + m);
                    }
                }
            }
            rows_rev.push(row);
            step = step + 1;
        }
        let mut grid: Vec<Vec<u32>> = Vec::new();
        while rows_rev.len() > 0
            invariant
                f == from@.len(),
                t == to@.len(),
                x == padded(from@, f as nat),
                y == padded(to@, t as nat),
                rows_rev@.len() + grid@.len() == t + 1,
                forall|k: int|
                    0 <= k < rows_rev@.len() ==> (#[trigger] rows_rev@[k])@.len() == f + 1
                        && forall|j: int| 0 <= j <= f ==> rows_rev@[k]@[j] == dist(x, y, t - k, j),
                forall|k: int|
                    0 <= k < grid@.len() ==> (#[trigger] grid@[k])@.len() == f + 1 && forall|j: int|
                        0 <= j <= f ==> grid@[k]@[j] == dist(x, y, k, j),
            decreases rows_rev@.len(),
        {
            let r = rows_rev.pop().unwrap();
            grid.push(r);
        }
        grid
    }
}

/// What a line of text means, word by word: the first word names the operation; the
/// character it deletes, inserts or copies, and the character a replacement reads, is the
/// first of the second word; the character a replacement writes is the first of its last
/// word (`Replace x y`, or `Replace x with y`). A line
/// parses exactly when it names one of the four operations with the words it needs.
pub proof fn lemma_parse_reads_words(s: Seq<char>)
    ensures
        ({
            let w = words(s);
            &&& parse_spec(s) is Some <==> (w.len() >= 2 && (w[0] == name_delete() || w[0]
                == name_insert() || w[0] == name_copy() || (w[0] == name_replace() && w.len()
                >= 3)))
            &&& parse_spec(s) matches Some(op) ==> {
                &&& (op is Delete <==> w[0] == name_delete())
                &&& (op is Insert <==> w[0] == name_insert())
                &&& (op is Copy <==> w[0] == name_copy())
                &&& (op is Replace <==> w[0] == name_replace())
                &&& (w[0] == name_delete() ==> consumed(op) == seq![w[1][0]] && produced(op)
                    == Seq::<char>::empty())
                &&& (w[0] == name_insert() ==> consumed(op) == Seq::<char>::empty() && produced(op)
                    == seq![w[1][0]])
                &&& (w[0] == name_copy() ==> consumed(op) == seq![w[1][0]] && produced(op)
                    == seq![w[1][0]])
                &&& (w[0] == name_replace() && w.len() == 3 ==> consumed(op) == seq![w[1][0]]
                    && produced(op) == seq![w[2][0]])
                &&& (w[0] == name_replace() && w.len() == 4 ==> consumed(op) == seq![w[1][0]]
                    && produced(op) == seq![w[3][0]])
            }
        }),
{
    assert(name_delete()[0] == 'D' && name_insert()[0] == 'I' && name_replace()[0] == 'R'
        && name_copy()[0] == 'C');
}

/// What appending an operation does to a script.
proof fn lemma_script_push(ops: Seq<Operation>, op: Operation)
    ensures
        source(ops.push(op)) == source(ops) + consumed(op),
        target(ops.push(op)) == target(ops) + produced(op),
        total_cost(ops.push(op)) == total_cost(ops) + op_cost(op),
{
    assert(ops.push(op).drop_last() =~= ops);
}

/// What putting an operation in front of a script does to it.
proof fn lemma_script_front(op: Operation, rest: Seq<Operation>)
    ensures
        source(seq![op] + rest) == consumed(op) + source(rest),
        target(seq![op] + rest) == produced(op) + target(rest),
        total_cost(seq![op] + rest) == op_cost(op) + total_cost(rest),
    decreases rest.len(),
{
    let s = seq![op] + rest;
    if rest.len() == 0 {
        let e = Seq::<Operation>::empty();
        assert(s =~= e.push(op));
        lemma_script_push(e, op);
        assert(source(e) == Seq::<char>::empty());
        assert(target(e) == Seq::<char>::empty());
        assert(total_cost(e) == 0);
        assert(Seq::<char>::empty() + consumed(op) =~= consumed(op) + Seq::<char>::empty());
        assert(Seq::<char>::empty() + produced(op) =~= produced(op) + Seq::<char>::empty());
    } else {
        let front = seq![op] + rest.drop_last();
        lemma_script_front(op, rest.drop_last());
        assert(s =~= front.push(rest.last()));
        assert(rest =~= rest.drop_last().push(rest.last()));
        lemma_script_push(front, rest.last());
        lemma_script_push(rest.drop_last(), rest.last());
        assert(consumed(op) + source(rest.drop_last()) + consumed(rest.last()) =~= consumed(op)
            + (source(rest.drop_last()) + consumed(rest.last())));
        assert(produced(op) + target(rest.drop_last()) + produced(rest.last()) =~= produced(op)
            + (target(rest.drop_last()) + produced(rest.last())));
    }
}

proof fn lemma_skip_front(s: Seq<char>, k: int, c: Seq<char>, rest: Seq<char>)
    requires
        0 <= k <= s.len(),
        s.skip(k) == c + rest,
        c.len() == 1,
    ensures
        k < s.len(),
        s[k] == c[0],
        s.skip(k + 1) == rest,
{
    assert(s.skip(k).len() == 1 + rest.len());
    assert(s.skip(k)[0] == c[0]);
    assert(s.skip(k + 1) =~= s.skip(k).drop_first());
    assert((c + rest).drop_first() =~= rest);
}

proof fn lemma_script_bound(xs: Seq<char>, ys: Seq<char>, ops: Seq<Operation>, i: int, j: int)
    requires
        0 <= i <= ys.len(),
        0 <= j <= xs.len(),
        source(ops) == xs.skip(j),
        target(ops) == ys.skip(i),
    ensures
        dist(padded(xs, xs.len()), padded(ys, ys.len()), i, j) <= total_cost(ops),
    decreases ops.len(),
{
    let x = padded(xs, xs.len());
    let y = padded(ys, ys.len());
    if ops.len() == 0 {
        assert(xs.skip(j).len() == 0);
        assert(ys.skip(i).len() == 0);
    } else {
        let op = ops[0];
        let rest = ops.drop_first();
        assert(ops =~= seq![op] + rest);
        lemma_script_front(op, rest);
        lemma_dist_neighbors(x, y, i, j);
        match op {
            Operation::Delete(c) => {
                lemma_skip_front(xs, j, seq![c], source(rest));
                assert(Seq::<char>::empty() + target(rest) =~= target(rest));
                lemma_script_bound(xs, ys, rest, i, j + 1);
            },
            Operation::Insert(c) => {
                lemma_skip_front(ys, i, seq![c], target(rest));
                assert(Seq::<char>::empty() + source(rest) =~= source(rest));
                lemma_script_bound(xs, ys, rest, i + 1, j);
            },
            Operation::Replace { from, to } => {
                lemma_skip_front(xs, j, seq![from], source(rest));
                lemma_skip_front(ys, i, seq![to], target(rest));
                lemma_script_bound(xs, ys, rest, i + 1, j + 1);
            },
            Operation::Copy(c) => {
                lemma_skip_front(xs, j, seq![c], source(rest));
                lemma_skip_front(ys, i, seq![c], target(rest));
                assert(x[j] == y[i]);
                lemma_script_bound(xs, ys, rest, i + 1, j + 1);
            },
        }
    }
}

/// No script turns `from` into `to` for less than the metamorphosis number: it is the least
/// cost of a metamorphosis.
pub proof fn lemma_metamorphosis_number_is_least(from: &str, to: &str, ops: Seq<Operation>)
    requires
        from@.len() <= usize::MAX,
        to@.len() <= usize::MAX,
        source(ops) == from@,
        target(ops) == to@,
    ensures
        metamorphosis_number(from, to) <= total_cost(ops),
{
    assert(from@.skip(0) == from@);
    assert(to@.skip(0) == to@);
    lemma_script_bound(from@, to@, ops, 0, 0);
}

/// A move through the table: down a row, along a column, or both.
type Coord = (usize, usize);

/// Deleting a character of the source moves along a column.
const DELETE: Coord = (0, 1);

/// Inserting a character of the target moves down a row.
const INSERT: Coord = (1, 0);

/// Replacing or copying a character moves along both.
const REPLACE_OR_COPY: Coord = (1, 1);

/// The cost in the table of distances at row `i`, column `j`, or `u32::MAX` outside it.
pub open spec fn cost_at(x: Seq<Option<char>>, y: Seq<Option<char>>, i: int, j: int) -> int {
    if 0 <= i <= y.len() && 0 <= j <= x.len() {
        dist(x, y, i, j) as int
    } else {
        u32::MAX as int
    }
}

/// The move the rendering takes from row `i`, column `j`: to the cheapest neighbour, a
/// replacement or copy first on a tie, then a deletion, then an insertion.
pub open spec fn next_move(x: Seq<Option<char>>, y: Seq<Option<char>>, i: int, j: int) -> (int, int) {
    let delete = cost_at(x, y, i, j + 1);
    let insert = cost_at(x, y, i + 1, j);
    let replace_or_copy = cost_at(x, y, i + 1, j + 1);
    if replace_or_copy <= delete && replace_or_copy <= insert {
        (1, 1)
    } else if delete <= insert {
        (0, 1)
    } else {
        (1, 0)
    }
}

/// The operations the rendering writes from row `i`, column `j` of the table for turning
/// `s` into `u`: a deletion or insertion for a move along one string, and for a move along
/// both a copy where the distance stays the same, a replacement where it drops by one.
pub open spec fn render_from(s: Seq<char>, u: Seq<char>, i: int, j: int) -> Seq<Operation>
    decreases u.len() + s.len() + 2 - i - j,
{
    let x = padded(s, s.len());
    let y = padded(u, u.len());
    if i < 0 || j < 0 || i > u.len() || j > s.len() || (i == u.len() && j == s.len()) {
        Seq::empty()
    } else {
        let mv = next_move(x, y, i, j);
        let op = if mv == (0int, 1int) {
            Operation::Delete(s[j])
        } else if mv == (1int, 0int) {
            Operation::Insert(u[i])
        } else if dist(x, y, i, j) == dist(x, y, i + 1, j + 1) {
            Operation::Copy(s[j])
        } else {
            Operation::Replace { from: s[j], to: u[i] }
        };
        seq![op] + render_from(s, u, i + mv.0, j + mv.1)
    }
}

/// One step of the rendering: the operation for the move taken, then the rest.
proof fn lemma_render_step(s: Seq<char>, u: Seq<char>, i: int, j: int, op: Operation, before: Seq<Operation>)
    requires
        0 <= i <= u.len(),
        0 <= j <= s.len(),
        !(i == u.len() && j == s.len()),
        ({
            let x = padded(s, s.len());
            let y = padded(u, u.len());
            let mv = next_move(x, y, i, j);
            op == if mv == (0int, 1int) {
                Operation::Delete(s[j])
            } else if mv == (1int, 0int) {
                Operation::Insert(u[i])
            } else if dist(x, y, i, j) == dist(x, y, i + 1, j + 1) {
                Operation::Copy(s[j])
            } else {
                Operation::Replace { from: s[j], to: u[i] }
            }
        }),
    ensures
        ({
            let mv = next_move(padded(s, s.len()), padded(u, u.len()), i, j);
            before.push(op) + render_from(s, u, i + mv.0, j + mv.1) == before + render_from(s, u, i, j)
        }),
{
    let mv = next_move(padded(s, s.len()), padded(u, u.len()), i, j);
    let rest = render_from(s, u, i + mv.0, j + mv.1);
    assert(render_from(s, u, i, j) == seq![op] + rest);
    assert(before + (seq![op] + rest) =~= before.push(op) + rest);
}

/// The cheapest move from three neighbouring costs; on a tie a replacement or copy comes
/// first, then a deletion, then an insertion.
fn find_min_ops(delete: u32, insert: u32, replace_or_copy: u32) -> (r: (Coord, u32))
    ensures
        (r.0 == REPLACE_OR_COPY && r.1 == replace_or_copy && replace_or_copy <= delete
            && replace_or_copy <= insert) || (r.0 == DELETE && r.1 == delete && delete
            < replace_or_copy && delete <= insert) || (r.0 == INSERT && r.1 == insert && insert
            < replace_or_copy && insert < delete),
{
    if replace_or_copy <= delete && replace_or_copy <= insert {
        (REPLACE_OR_COPY, replace_or_copy)
    } else if delete <= insert {
        (DELETE, delete)
    } else {
        (INSERT, insert)
    }
}

fn same_move(a: Coord, b: Coord) -> (r: bool)
    ensures
        r == (a == b),
{
    a.0 == b.0 && a.1 == b.1
}

/// The cost at `coord` in a table whose rows all have the same length, or `u32::MAX`
/// outside it.
fn get_cost(grid: &Vec<Vec<u32>>, coord: Coord) -> (r: u32)
    requires
        grid@.len() > 0,
        forall|k: int| 0 <= k < grid@.len() ==> (#[trigger] grid@[k])@.len() == grid@[0]@.len(),
    ensures
        coord.0 < grid@.len() && coord.1 < grid@[0]@.len() ==> r == grid@[coord.0 as int]@[coord.1 as int],
        !(coord.0 < grid@.len() && coord.1 < grid@[0]@.len()) ==> r == u32::MAX,
{
    if coord.0 >= grid.len() || coord.1 >= grid[0].len() {
        return u32::MAX;
    }
    proof {
        assert(grid@[coord.0 as int]@.len() == grid@[0]@.len());
    }
    grid[coord.0][coord.1]
}

impl Assignment7 {
    /// A cheapest metamorphosis of `from` into `to`, as a list of operations: from the start
    /// of both strings, each step takes the cheapest way on through the table of distances,
    /// preferring a copy or replacement, then a deletion, then an insertion.
    #[verifier::rlimit(40)]
    pub fn render_metamorphosis_steps(from: &str, to: &str) -> (r: Vec<Operation>)
        requires
            from@.len() + to@.len() < u32::MAX,
        ensures
            source(r@) == from@,
            target(r@) == to@,
            total_cost(r@) == metamorphosis_number(from, to),
            total_cost(r@) < u32::MAX,
            r@ == render_from(from@, to@, 0, 0),
    {
        let mut path: Vec<Operation> = Vec::new();
        let cache_grid = Self::metamorphosis_core(from, to);
        let fc = chars_of(from);
        let tc = chars_of(to);
        let t = tc.len();
        let f = fc.len();
        let ghost x = padded(from@, f as nat);
        let ghost y = padded(to@, t as nat);
        let destination_coord: Coord = (t, f);
        let mut curr: Coord = (0, 0);
        proof {
            assert(from@.take(0) == Seq::<char>::empty());
            assert(to@.take(0) == Seq::<char>::empty());
        }
        while curr.0 != destination_coord.0 || curr.1 != destination_coord.1
            invariant
                f == from@.len(),
                t == to@.len(),
                f + t < u32::MAX,
                fc@ == from@,
                tc@ == to@,
                destination_coord == (t, f),
                x == padded(from@, f as nat),
                y == padded(to@, t as nat),
                cache_grid@.len() == t + 1,
                forall|i: int| 0 <= i <= t ==> (#[trigger] cache_grid@[i])@.len() == f + 1,
                forall|i: int, j: int|
                    0 <= i <= t && 0 <= j <= f ==> (#[trigger] cache_grid@[i]@[j]) == dist(x, y, i, j),
                curr.0 <= t,
                curr.1 <= f,
                source(path@) == from@.take(curr.1 as int),
                target(path@) == to@.take(curr.0 as int),
                total_cost(path@) + dist(x, y, curr.0 as int, curr.1 as int) == dist(x, y, 0, 0),
                path@ + render_from(from@, to@, curr.0 as int, curr.1 as int) == render_from(from@, to@, 0, 0),
            decreases (t - curr.0) + (f - curr.1),
        {
            let curr_cost = cache_grid[curr.0][curr.1];
            let (i, j) = curr;
            proof {
                assert(cache_grid@[0]@.len() == f + 1);
                lemma_dist_bound(x, y, i as int, j as int);
                if j < f {
                    lemma_dist_bound(x, y, i as int, j + 1);
                }
                if i < t {
                    lemma_dist_bound(x, y, i + 1, j as int);
                }
                if i < t && j < f {
                    lemma_dist_bound(x, y, i + 1, j + 1);
                }
                lemma_dist_neighbors(x, y, i as int, j as int);
            }
            let (next_offset, min_cost) = find_min_ops(
                get_cost(&cache_grid, (i, j + 1)),
                get_cost(&cache_grid, (i + 1, j)),
                get_cost(&cache_grid, (i + 1, j + 1)),
            );
            let ghost before = path@;
            let op = if same_move(next_offset, DELETE) {
                Operation::Delete(fc[j])
            } else if same_move(next_offset, INSERT) {
                Operation::Insert(tc[i])
            } else if curr_cost == min_cost {
                Operation::Copy(fc[j])
            } else {
                Operation::Replace { from: fc[j], to: tc[i] }
            };
            path.push(op);
            proof {
                assert(path@ == before.push(op));
                lemma_script_push(before, op);
                if next_offset == DELETE {
                    assert(from@.take(j + 1) == from@.take(j as int) + seq![from@[j as int]]);
                    assert(to@.take(i as int) + Seq::<char>::empty() == to@.take(i as int));
                } else if next_offset == INSERT {
                    assert(to@.take(i + 1) == to@.take(i as int) + seq![to@[i as int]]);
                    assert(from@.take(j as int) + Seq::<char>::empty() == from@.take(j as int));
                } else {
                    assert(from@.take(j + 1) == from@.take(j as int) + seq![from@[j as int]]);
                    assert(to@.take(i + 1) == to@.take(i as int) + seq![to@[i as int]]);
                    assert(x[j as int] == Some(from@[j as int]));
                    assert(y[i as int] == Some(to@[i as int]));
                }
                let mv = (next_offset.0 as int, next_offset.1 as int);
                assert(next_move(x, y, i as int, j as int) == mv);
                lemma_render_step(from@, to@, i as int, j as int, op, before);
            }
            curr = (next_offset.0 + curr.0, next_offset.1 + curr.1);
        }
        proof {
            assert(from@.take(f as int) == from@);
            assert(to@.take(t as int) == to@);
            assert(path@ + Seq::<Operation>::empty() =~= path@);
            lemma_dist_bound(x, y, 0, 0);
        }
        path
    }
}

impl std::str::FromStr for Operation {
    type Err = ();

    fn from_str(s: &str) -> (r: Result<Self, Self::Err>)
        ensures
            r is Ok <==> parse_spec(s@) is Some,
            r matches Ok(op) ==> parse_spec(s@) == Some(op),
    {
        Operation::parse(s)
    }
}

} // verus!
