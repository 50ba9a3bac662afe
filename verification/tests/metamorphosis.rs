use assignments::a7::{Assignment7, Operation};

#[test]
fn a7_test1() {
    {
        let from = "Dalhousie";
        let to = "Delicious";
        let result = Assignment7::compute_metamorphosis_number(from, to);
        assert_eq!(result, 6);
    }
    {
        let to = "Dalhousie";
        let from = "Delicious";
        let result = Assignment7::render_metamorphosis_steps(from, to);
        assert_eq!(
            Operation::count_ops(&result),
            Operation::count_ops(&Operation::from_raw(&[
                "Copy D",
                "Replace e with a",
                "Copy l",
                "Delete i",
                "Delete c",
                "Replace i with h",
                "Copy o",
                "Copy u",
                "Copy s",
                "Insert i",
                "Insert e",
            ]))
        );
    }
}

#[test]
fn a7_test2() {
    {
        let from = "abd";
        let to = "acd";
        let result = Assignment7::compute_metamorphosis_number(from, to);
        assert_eq!(result, 1);
    }
    {
        let from = "abd";
        let to = "acd";
        let result = Assignment7::render_metamorphosis_steps(from, to);
        assert_eq!(
            Operation::count_ops(&result),
            Operation::count_ops(&Operation::from_raw(&[
                "Copy a",
                "Replace b with c",
                "Copy d",
            ]))
        );
    }
}

#[test]
fn a7_test3() {
    {
        let from = "acd";
        let to = "xadd";
        let result = Assignment7::compute_metamorphosis_number(from, to);
        assert_eq!(result, 2);
    }
    {
        let to = "acd";
        let from = "xadd";
        let result = Assignment7::render_metamorphosis_steps(from, to);
        assert_eq!(
            Operation::count_ops(&result),
            Operation::count_ops(&Operation::from_raw(&[
                "Delete x",
                "Copy a",
                "Replace d with c",
                "Copy d"
            ]))
        );
    }
}

#[test]
fn a7_test4() {
    {
        let from = "a";
        let to = "abc";
        let result = Assignment7::compute_metamorphosis_number(from, to);
        assert_eq!(result, 2);
    }
    {
        let from = "a";
        let to = "abc";
        let result = Assignment7::render_metamorphosis_steps(from, to);
        assert_eq!(
            Operation::count_ops(&result),
            Operation::count_ops(&Operation::from_raw(&["Copy a", "Insert b", "Insert c"]))
        );
    }
}

#[test]
fn a7_test5() {
    {
        let from = "kitten";
        let to = "sitting";
        let result = Assignment7::compute_metamorphosis_number(from, to);
        assert_eq!(result, 3); // Replace 'k' with 's', replace 'e' with 'i', insert 'g'

    }
    {
        let from = "kitten";
        let to = "sitting";
        let result = Assignment7::render_metamorphosis_steps(from, to);
        assert_eq!(
            Operation::count_ops(&result),
            Operation::count_ops(&Operation::from_raw(&[
                "Replace k with s",
                "Copy i",
                "Copy t",
                "Copy t",
                "Replace e with i",
                "Copy n",
                "Insert g",
            ]))
        );
    }
}

#[test]
fn a7_test6() {
    {
        let from = "intention";
        let to = "execution";
        let result = Assignment7::compute_metamorphosis_number(from, to);
        assert_eq!(result, 5); // Series of replacements and insertions

    }
    {
        let from = "intention";
        let to = "execution";
        let result = Assignment7::render_metamorphosis_steps(from, to);
        assert_eq!(
            Operation::count_ops(&result),
            Operation::count_ops(&Operation::from_raw(&[
                "Replace i with e",
                "Replace n with x",
                "Replace t with e",
                "Replace e with c",
                "Replace n with u",
                "Copy t",
                "Copy i",
                "Copy o",
                "Copy n"
            ]))
        );
    }
}

#[test]
fn a7_test7() {
    {
        let from = "abcdef";
        let to = "azced";
        let result = Assignment7::compute_metamorphosis_number(from, to);
        assert_eq!(result, 3); // Replace 'b' with 'z', replace 'f' with 'd', delete 'e'

    }
    {
        let from = "abcdef";
        let to = "azced";
        let result = Assignment7::render_metamorphosis_steps(from, to);
        assert_eq!(
            Operation::count_ops(&result),
            Operation::count_ops(&Operation::from_raw(&[
                "Copy a",
                "Replace b with z",
                "Copy c",
                "Delete d",
                "Copy e",
                "Replace f with d"
            ]))
        );
    }
}

#[test]
fn a7_test8() {
    {
        let from = "";
        let to = "abc";
        let result = Assignment7::compute_metamorphosis_number(from, to);
        assert_eq!(result, 3); // Insert 'a', 'b', 'c'

    }
    {
        let from = "";
        let to = "abc";
        let result = Assignment7::render_metamorphosis_steps(from, to);
        assert_eq!(
            Operation::count_ops(&result),
            Operation::count_ops(&Operation::from_raw(&["Insert a", "Insert b", "Insert c"]))
        );
    }
}

#[test]
fn a7_test9() {
    {
        let from = "hello";
        let to = "hallo";
        let result = Assignment7::compute_metamorphosis_number(from, to);
        assert_eq!(result, 1);
    }
    {
        let from = "hello";
        let to = "hallo";
        let result = Assignment7::render_metamorphosis_steps(from, to);
        assert_eq!(
            Operation::count_ops(&result),
            Operation::count_ops(&Operation::from_raw(&[
                "Copy h",
                "Replace e with a",
                "Copy l",
                "Copy l",
                "Copy o"
            ]))
        );
    }
}

#[test]
fn a7_test10() {
    {
        let from = "clbmkkvh";
        let to = "bmkvh";
        let result = Assignment7::compute_metamorphosis_number(from, to);
        assert_eq!(result, 3);
    }
    {
        let from = "clbmkkvh";
        let to = "bmkvh";
        let result = Assignment7::render_metamorphosis_steps(from, to);
        assert_eq!(
            Operation::count_ops(&result),
            Operation::count_ops(&Operation::from_raw(&[
                "Delete c", "Delete l", "Copy b", "Copy m", "Copy k", "Delete k", "Copy v",
                "Copy h",
            ]))
        );
    }
}

#[test]
fn a7_test11() {
    {
        let from = "ibikwjep";
        let to = "ukwep";
        let result = Assignment7::compute_metamorphosis_number(from, to);
        assert_eq!(result, 4);
    }
    {
        let from = "ibikwjep";
        let to = "ukwep";
        let result = Assignment7::render_metamorphosis_steps(from, to);
        assert_eq!(
            Operation::count_ops(&result),
            Operation::count_ops(&Operation::from_raw(&[
                "Delete i",
                "Delete b",
                "Replace i with u",
                "Copy k",
                "Copy w",
                "Delete j",
                "Copy e",
                "Copy p"
            ]))
        );
    }
}

#[test]
fn a7_test12() {
    {
        let from = "ybpqvati";
        let to = "ybpvoti";
        let result = Assignment7::compute_metamorphosis_number(from, to);
        assert_eq!(result, 2);
    }
    {
        let from = "ybpqvati";
        let to = "ybpvoti";
        let result = Assignment7::render_metamorphosis_steps(from, to);
        assert_eq!(
            Operation::count_ops(&result),
            Operation::count_ops(&Operation::from_raw(&[
                "Copy y",
                "Copy b",
                "Copy p",
                "Delete q",
                "Copy v",
                "Replace a with o",
                "Copy t",
                "Copy i",
            ]))
        );
    }
}

#[test]
fn a7_test13() {
    {
        let from = "jafkvgyh";
        let to = "aogyu";
        let result = Assignment7::compute_metamorphosis_number(from, to);
        assert_eq!(result, 5);
    }
    {
        let from = "jafkvgyh";
        let to = "aogyu";
        let result = Assignment7::render_metamorphosis_steps(from, to);
        assert_eq!(
            Operation::count_ops(&result),
            Operation::count_ops(&Operation::from_raw(&[
                "Delete j",
                "Copy a",
                "Delete f",
                "Delete k",
                "Replace v with o",
                "Copy g",
                "Copy y",
                "Replace h with u"
            ]))
        );
    }
}
fn replay(ops: &[Operation]) -> (String, String) {
    let mut source = String::new();
    let mut target = String::new();
    for op in ops {
        match *op {
            Operation::Delete(c) => source.push(c),
            Operation::Insert(c) => target.push(c),
            Operation::Replace { from, to } => {
                source.push(from);
                target.push(to);
            }
            Operation::Copy(c) => {
                source.push(c);
                target.push(c);
            }
        }
    }
    (source, target)
}

#[test]
fn rendering_replays_both_strings_at_least_cost() {
    let pairs = [
        ("Dalhousie", "Delicious"),
        ("kitten", "sitting"),
        ("", "abc"),
        ("abc", ""),
        ("", ""),
        ("intention", "execution"),
        ("jafkvgyh", "aogyu"),
    ];
    for (from, to) in pairs {
        let ops = Assignment7::render_metamorphosis_steps(from, to);
        let (source, target) = replay(&ops);
        assert_eq!(source, from);
        assert_eq!(target, to);
        assert_eq!(
            Operation::count_ops(&ops),
            Assignment7::compute_metamorphosis_number(from, to)
        );
    }
}

#[test]
fn rendering_prefers_copy_then_delete_then_insert() {
    assert_eq!(
        Assignment7::render_metamorphosis_steps("abd", "acd"),
        vec![
            Operation::Copy('a'),
            Operation::Replace { from: 'b', to: 'c' },
            Operation::Copy('d'),
        ]
    );
    assert_eq!(
        Assignment7::render_metamorphosis_steps("ab", "ba"),
        vec![
            Operation::Replace { from: 'a', to: 'b' },
            Operation::Replace { from: 'b', to: 'a' },
        ]
    );
    assert_eq!(
        Assignment7::render_metamorphosis_steps("xa", "a"),
        vec![Operation::Delete('x'), Operation::Copy('a')]
    );
    assert_eq!(
        Assignment7::render_metamorphosis_steps("a", "xa"),
        vec![Operation::Insert('x'), Operation::Copy('a')]
    );
}

#[test]
fn metamorphosis_of_equal_and_empty_strings() {
    assert_eq!(Assignment7::compute_metamorphosis_number("", ""), 0);
    assert_eq!(Assignment7::compute_metamorphosis_number("same", "same"), 0);
    assert_eq!(Assignment7::compute_metamorphosis_number("abc", ""), 3);
    assert!(Assignment7::render_metamorphosis_steps("", "").is_empty());
}

#[test]
fn parsing_operations() {
    assert_eq!(Operation::parse("Copy a"), Ok(Operation::Copy('a')));
    assert_eq!(Operation::parse("  Delete   bee "), Ok(Operation::Delete('b')));
    assert_eq!(Operation::parse("Insert\tz"), Ok(Operation::Insert('z')));
    assert_eq!(
        Operation::parse("Replace d with e"),
        Ok(Operation::Replace { from: 'd', to: 'e' })
    );
    assert_eq!(
        Operation::parse("Replace d e"),
        Ok(Operation::Replace { from: 'd', to: 'e' })
    );
    assert_eq!(
        Operation::from_raw(&["Copy a", "Replace b with c", "Copy d"]),
        vec![
            Operation::Copy('a'),
            Operation::Replace { from: 'b', to: 'c' },
            Operation::Copy('d'),
        ]
    );
    assert_eq!(Operation::parse(""), Err(()));
    assert_eq!(Operation::parse("Copy"), Err(()));
    assert_eq!(Operation::parse("Replace d"), Err(()));
    assert_eq!(Operation::parse("Jump a"), Err(()));
    assert_eq!(Operation::parse("copy a"), Err(()));
    assert_eq!("Copy q".parse::<Operation>(), Ok(Operation::Copy('q')));
}

#[test]
fn costs_of_operations() {
    assert_eq!(Operation::Copy('a').cost(), 0);
    assert_eq!(Operation::Delete('a').cost(), 1);
    assert_eq!(Operation::Insert('a').cost(), 1);
    assert_eq!(Operation::Replace { from: 'a', to: 'b' }.cost(), 1);
    let ops = Operation::from_raw(&["Copy a", "Delete b", "Insert c", "Replace d with e"]);
    assert_eq!(ops.len(), 4);
    assert_eq!(Operation::count_ops(&ops), 3);
    assert_eq!(Operation::count_ops(&[]), 0);
}

#[test]
fn metamorphosis_counts_characters() {
    assert_eq!(Assignment7::compute_metamorphosis_number("é", "e"), 1);
    assert_eq!(Assignment7::compute_metamorphosis_number("café", "cafe"), 1);
    assert_eq!(
        Assignment7::render_metamorphosis_steps("é", "e"),
        vec![Operation::Replace { from: 'é', to: 'e' }]
    );
    let ops = Assignment7::render_metamorphosis_steps("naïve", "nave");
    let (source, target) = replay(&ops);
    assert_eq!(source, "naïve");
    assert_eq!(target, "nave");
    assert_eq!(Operation::count_ops(&ops), 1);
}

#[test]
fn metamorphosis_number_is_symmetric() {
    let pairs = [("kitten", "sitting"), ("abc", ""), ("intention", "execution"), ("é", "ee")];
    for (a, b) in pairs {
        assert_eq!(
            Assignment7::compute_metamorphosis_number(a, b),
            Assignment7::compute_metamorphosis_number(b, a)
        );
    }
}
