use assignments::a6::Assignment6;

#[test]
fn test_scheduler_example1() {
    let easy_job = [10, 20, 30];
    let hard_job = [0, 50, 0];
    assert_eq!(Assignment6::scheduler(&easy_job, &hard_job), 80);
    assert_eq!(Assignment6::find_max_profit(&easy_job, &hard_job), 80);
}

#[test]
fn test_scheduler_example3() {
    let easy_job = [20, 30, 50, 25, 5];
    let hard_job = [0, 2, 700, 5, 500];
    // Optimal: 20 + 700 + 500 = 1220
    assert_eq!(Assignment6::scheduler(&easy_job, &hard_job), 20 + 700 + 500);
    assert_eq!(Assignment6::find_max_profit(&easy_job, &hard_job), 1220);
}

#[test]
fn test_scheduler_example2() {
    let easy_job = [10, 20, 30, 40];
    let hard_job = [0, 50, 0, 60];
    assert_eq!(Assignment6::scheduler(&easy_job, &hard_job), 50 + 30 + 40);
    assert_eq!(
        Assignment6::find_max_profit(&easy_job, &hard_job),
        50 + 30 + 40
    );
}

#[test]
fn test_scheduler_one_week_easy() {
    let easy_job = [25];
    let hard_job = [0];
    assert_eq!(Assignment6::scheduler(&easy_job, &hard_job), 25);
    assert_eq!(Assignment6::find_max_profit(&easy_job, &hard_job), 25);
}

#[test]
fn test_scheduler_one_week_hard() {
    let easy_job = [0];
    let hard_job = [50]; // Cannot do hard job in the first week
    assert_eq!(Assignment6::scheduler(&easy_job, &hard_job), 0);
    assert_eq!(Assignment6::find_max_profit(&easy_job, &hard_job), 0);
}

#[test]
fn test_scheduler_two_weeks_easy() {
    let easy_job = [10, 20];
    let hard_job = [0, 0];
    assert_eq!(Assignment6::scheduler(&easy_job, &hard_job), 30);
    assert_eq!(Assignment6::find_max_profit(&easy_job, &hard_job), 30);
}

#[test]
fn test_scheduler_two_weeks_hard() {
    let easy_job = [10, 20];
    let hard_job = [99990, 50];
    // Optimal: 10 + 50 = 60
    assert_eq!(Assignment6::scheduler(&easy_job, &hard_job), 50);
    assert_eq!(Assignment6::find_max_profit(&easy_job, &hard_job), 50);
}

#[test]
fn test_scheduler_mixed_case() {
    let easy_job = [5, 15, 25, 800];
    let hard_job = [0, 40, 0, 8000];
    // Optimal: 5 + 40 + 25 + 800 = 870
    assert_eq!(Assignment6::scheduler(&easy_job, &hard_job), 40 + 8000);
    assert_eq!(
        Assignment6::find_max_profit(&easy_job, &hard_job),
        40 + 8000
    );
}

#[test]
fn test_scheduler_all_easy_jobs() {
    let easy_job = [5, 10, 15, 20, 25];
    let hard_job = [0, 0, 0, 0, 0];
    // 5e + 10e + 15e + 20e + 25e = 75
    assert_eq!(Assignment6::scheduler(&easy_job, &hard_job), 75);
    assert_eq!(Assignment6::find_max_profit(&easy_job, &hard_job), 75);
}

#[test]
fn test_scheduler_all_hard_jobs() {
    let easy_job = [0, 0, 0, 0, 0];
    let hard_job = [0, 30, 0, 50, 0];
    // 0e + 30h + 0e + 50h + 0e = 80
    assert_eq!(Assignment6::scheduler(&easy_job, &hard_job), 80);
    assert_eq!(Assignment6::find_max_profit(&easy_job, &hard_job), 80);
}

// Test case where all easy jobs are best
#[test]
fn test_all_easy() {
    let easy = [10, 10, 10];
    let hard = [0, 0, 0];
    assert_eq!(Assignment6::scheduler(&easy, &hard), 30);
    assert_eq!(Assignment6::find_max_profit(&easy, &hard), 30);
}

// Test optimal hard job alternation
#[test]
fn test_hard_job_alternate() {
    let easy = [1, 3, 1, 3];
    let hard = [0, 5, 0, 5];
    // Optimal: 1 + 5 + 1 + 5 = 12
    assert_eq!(Assignment6::scheduler(&easy, &hard), 5 + 5);
    assert_eq!(Assignment6::find_max_profit(&easy, &hard), 5 + 5);
}

#[test]
fn test_empty_input_skip_one_hard_day() {
    let easy = [20, 30, 40];
    let hard = [999999999, 50, 300];
    // Optimal: 20 + 30 + 300 = 350
    assert_eq!(Assignment6::scheduler(&easy, &hard), 20 + 300);
    assert_eq!(Assignment6::find_max_profit(&easy, &hard), 20 + 300);
}

#[test]
fn rest_then_hard_then_easy() {
    let easy = [1, 1, 100, 100];
    let hard = [0, 50, 0, 0];
    assert_eq!(Assignment6::scheduler(&easy, &hard), 250);
    assert_eq!(Assignment6::find_max_profit(&easy, &hard), 250);
}

#[test]
fn table_counts_each_week_once() {
    let easy = [100, 0, 0];
    let hard = [0, 0, 0];
    assert_eq!(Assignment6::scheduler(&easy, &hard), 100);
    assert_eq!(Assignment6::find_max_profit(&easy, &hard), 100);
    let easy = [10, 10, 0];
    assert_eq!(Assignment6::scheduler(&easy, &hard), 20);
    assert_eq!(Assignment6::find_max_profit(&easy, &hard), 20);
}

#[test]
fn empty_weeks_earn_nothing() {
    assert_eq!(Assignment6::scheduler(&[], &[]), 0);
}
