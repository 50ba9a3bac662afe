use assignments::a3::{binary_exponentiation, find_candidate_hotels, DominatorStack, Hotel};

fn to_hotels(input: &[(u32, u32)]) -> Vec<Hotel> {
    input
        .iter()
        .map(|(distance, price)| Hotel {
            distance: *distance,
            price: *price,
        })
        .collect()
}

#[test]
fn test_find_candidate_hotels_fixed() {
    let input = [(20, 250), (20, 250)];
    let input_ans = [(20, 250)];
    let output = find_candidate_hotels(&to_hotels(&input));
    assert_eq!(output, to_hotels(&input_ans));

    let input = [
        (20, 250),
        (40, 400),
        (10, 500),
        (30, 300),
        (50, 0),
        (35, 250),
    ];
    let input_ans = [(10, 500), (20, 250), (50, 0)];
    let output = find_candidate_hotels(&to_hotels(&input));
    assert_eq!(output, to_hotels(&input_ans));

    let input = [(10, 50), (20, 40), (30, 30), (40, 0), (50, 10)];
    let input_ans = [(10, 50), (20, 40), (30, 30), (40, 0)];
    let output = find_candidate_hotels(&to_hotels(&input));
    assert_eq!(output, to_hotels(&input_ans));

    let input = [(3, 20), (4, 1)];
    let input_ans = [(3, 20), (4, 1)];
    let output = find_candidate_hotels(&to_hotels(&input));
    assert_eq!(output, to_hotels(&input_ans));

    let input = [(10, 50), (20, 40), (30, 30), (40, 20), (50, 10)];
    let input_ans = [(10, 50), (20, 40), (30, 30), (40, 20), (50, 10)];
    let output = find_candidate_hotels(&to_hotels(&input));
    assert_eq!(output, to_hotels(&input_ans));

    let input = [(1, 100), (2, 150), (3, 200), (4, 250)];
    let input_ans = [(1, 100)];
    let output = find_candidate_hotels(&to_hotels(&input));
    assert_eq!(output, to_hotels(&input_ans));

    let input = [(3, 300), (3, 250), (4, 250), (5, 200), (5, 150)];
    let input_ans = [(3, 250), (5, 150)];
    let output = find_candidate_hotels(&to_hotels(&input));
    assert_eq!(output, to_hotels(&input_ans));
}

#[test]
fn no_hotels_no_candidates() {
    assert_eq!(find_candidate_hotels(&[]), Vec::<Hotel>::new());
}

#[test]
fn one_hotel_is_its_own_candidate() {
    assert_eq!(
        find_candidate_hotels(&to_hotels(&[(7, 70)])),
        to_hotels(&[(7, 70)])
    );
}

#[test]
fn dominator_stack_rules() {
    assert!(DominatorStack::new(0).is_err());
    let mut st = DominatorStack::new(3).unwrap();
    st.push(Hotel { distance: 1, price: 10 }).unwrap();
    // Farther and dearer: dropped.
    st.push(Hotel { distance: 2, price: 12 }).unwrap();
    // Farther and cheaper: kept.
    st.push(Hotel { distance: 3, price: 5 }).unwrap();
    // As far and cheaper: replaces the top.
    st.push(Hotel { distance: 3, price: 4 }).unwrap();
    assert_eq!(st.into_inner(), to_hotels(&[(1, 10), (3, 4)]));
}

#[test]
fn dominator_stack_refuses_when_full() {
    let mut st = DominatorStack::new(1).unwrap();
    assert!(st.push(Hotel { distance: 1, price: 10 }).is_ok());
    assert!(st.push(Hotel { distance: 2, price: 1 }).is_err());
    assert_eq!(st.into_inner(), to_hotels(&[(1, 10)]));
}

#[test]
fn test_binary_exponentiation_fixed() {
    assert_eq!(binary_exponentiation(2, 3), 8);
    assert_eq!(binary_exponentiation(3, 3), 27);
    assert_eq!(binary_exponentiation(2, 4), 16);
    assert_eq!(binary_exponentiation(3, 4), 81);
}

#[test]
fn test_binary_exponentiation_random() {
    for base in 1..=5 {
        for exp in 1..=12 {
            assert_eq!(binary_exponentiation(base, exp), base.pow(exp as u32));
        }
    }
}

#[test]
fn binary_exponentiation_of_negative_base() {
    assert_eq!(binary_exponentiation(-2, 3), -8);
    assert_eq!(binary_exponentiation(-3, 4), 81);
    assert_eq!(binary_exponentiation(7, 1), 7);
}
