use assignments::a2::{n_log_n, n_square};

fn check_agree(arr: &[i32]) {
    let res1 = n_square(arr);
    let res2 = n_log_n(arr);

    let sq = (
        &arr[res1.0..=res1.1],
        arr[res1.0..=res1.1].iter().sum::<i32>(),
    );
    let nln = (
        &arr[res2.0..=res2.1],
        arr[res2.0..=res2.1].iter().sum::<i32>(),
    );
    if sq.1.abs() == nln.1.abs() && sq.0.len() == nln.0.len() {
    } else {
        println!("Arr: {:?}\nResults are different", arr);
        assert_eq!(res1, res2, "{}", {
            println!("arr: {:?}", arr);
            format!("Results do not match sq: {:?} nln: {:?}", sq, nln)
        });
    }
}

#[test]
fn test_subarray_sum_algorithms() {
    let known = vec![
        vec![64, -47, -94, -13, 15, 16, -33],
        vec![-1, -40, -66, -74, 1, 29, -60],
        vec![-85, -28, 73, 3, 34],
        vec![-63, -22, 81, -85, -74, 28],
        vec![32, 32, 1, -5, -30, -30, -65, 130],
        vec![59, -12, -43, -45, -15, -92, -21],
        vec![23, -96, -100, 58, 16, 36, -100],
        vec![1, 2, 3, 4, 5],
        vec![28, -70, -23, 92, -2, 56, -33, -77],
        vec![5, 4, 0, 2, 4, 5],
        vec![5, 7, -2, 0, 10],
        vec![1, 2, 0, 5],
        vec![-8, -40, -10, -8, 55],
        vec![28, -70, -23, 92, 56, -33, -77],
    ];

    for arr in known {
        check_agree(&arr);
    }
}

#[test]
fn a2_random_test_sort() {
    // A fixed pseudo-random walk over arrays of five to seven items in -100..=100.
    let mut state: u64 = 0x2545_f491_4f6c_dd1d;
    for _ in 0..u16::MAX {
        state ^= state << 13;
        state ^= state >> 7;
        state ^= state << 17;
        let size = 5 + (state % 3) as usize;
        let mut arr = Vec::new();
        for _ in 0..size {
            state ^= state << 13;
            state ^= state >> 7;
            state ^= state << 17;
            arr.push((state % 201) as i32 - 100);
        }
        check_agree(&arr);
    }
}

#[test]
fn empty_inputs() {
    assert_eq!(n_square(&[]), (usize::MAX, usize::MAX));
    assert_eq!(n_log_n(&[]), (0, 0));
}

#[test]
fn single_zero_is_found() {
    let arr = [5, 7, -2, 0, 10];
    assert_eq!(n_square(&arr), (3, 3));
    assert_eq!(n_log_n(&arr), (3, 3));
}

#[test]
fn least_positive_item() {
    let arr = [1, 2, 3, 4, 5];
    assert_eq!(n_square(&arr), (0, 0));
    assert_eq!(n_log_n(&arr), (0, 0));
}

#[test]
fn pair_cancelling_out() {
    let arr = [10, 3, -3, 20];
    assert_eq!(n_square(&arr), (1, 2));
    assert_eq!(n_log_n(&arr), (1, 2));
}

#[test]
fn first_of_equal_candidates_from_square_search() {
    let arr = [4, -1, 7, 1];
    assert_eq!(n_square(&arr), (1, 1));
}
