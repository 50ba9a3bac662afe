use assignments::a4::register_bank::{Pos, Register, RegisterBank};
use assignments::a4::{sort, Int};

struct Walk(u64);

impl Walk {
    fn next(&mut self) -> u64 {
        self.0 ^= self.0 << 13;
        self.0 ^= self.0 >> 7;
        self.0 ^= self.0 << 17;
        self.0
    }
}

#[test]
fn a4_random_test_sort() {
    let mut walk = Walk(0x9e37_79b9_7f4a_7c15);

    for _ in 0..u8::MAX {
        let list_len = 2 + (walk.next() % 499) as usize;
        let k = 2 + (walk.next() % 69) as usize;

        let mut list = (0..list_len)
            .map(|_| walk.next() as u32 as Int)
            .collect::<Vec<_>>();

        let mut register_bank = RegisterBank::new(k);
        let result = sort(&list, k, &mut register_bank);

        list.sort_unstable();

        assert_eq!(result, list);
    }
}

#[test]
fn sort_of_short_inputs() {
    let mut bank = RegisterBank::new(2);
    assert_eq!(sort(&[], 2, &mut bank), Vec::<Int>::new());
    assert_eq!(sort(&[42], 2, &mut bank), vec![42]);
    assert_eq!(sort(&[3, -1], 2, &mut bank), vec![-1, 3]);
}

#[test]
fn sort_keeps_duplicates_and_extremes() {
    let list = [Int::MAX, 0, Int::MIN, 0, 5, -5, Int::MAX];
    let mut bank = RegisterBank::new(3);
    assert_eq!(
        sort(&list, 3, &mut bank),
        vec![Int::MIN, -5, 0, 0, 5, Int::MAX, Int::MAX]
    );
    // The bank is left empty.
    assert!(bank.remove_min().is_none());
}

#[test]
fn bank_gives_least_register_first() {
    let mut bank = RegisterBank::new(3);
    bank.re_innit(vec![
        Register(7, Pos(0, 0)),
        Register(-2, Pos(1, 0)),
        Register(7, Pos(0, 1)),
    ]);
    let h = bank.remove_min().unwrap();
    assert!(h.get() == Register(-2, Pos(1, 0)));
    h.insert(Register(9, Pos(1, 1)));
    let h = bank.remove_min().unwrap();
    assert!(h.get() == Register(7, Pos(0, 0)));
    let h = bank.remove_min().unwrap();
    assert!(h.get() == Register(7, Pos(0, 1)));
    let h = bank.remove_min().unwrap();
    assert!(h.get() == Register(9, Pos(1, 1)));
    assert!(bank.remove_min().is_none());
}

#[test]
fn re_innit_replaces_what_the_bank_held() {
    let mut bank = RegisterBank::new(2);
    bank.re_innit(vec![Register(1, Pos(0, 0)), Register(2, Pos(1, 0))]);
    bank.re_innit(vec![Register(5, Pos(3, 3))]);
    let h = bank.remove_min().unwrap();
    assert!(h.get() == Register(5, Pos(3, 3)));
    assert!(bank.remove_min().is_none());
}

#[test]
fn sort_with_a_bank_smaller_than_k() {
    // Ten numbers for k = 6 make five runs of two, which a bank of five holds.
    let list = [9, 3, 7, 1, 8, 2, 6, 0, 5, 4];
    let mut bank = RegisterBank::new(5);
    assert_eq!(sort(&list, 6, &mut bank), vec![0, 1, 2, 3, 4, 5, 6, 7, 8, 9]);
}

#[test]
fn handle_reports_room_in_the_bank() {
    let mut bank = RegisterBank::new(2);
    bank.re_innit(vec![Register(1, Pos(0, 0)), Register(2, Pos(1, 0))]);
    let h = bank.remove_min().unwrap();
    assert!(h.has_room());
    h.insert(Register(3, Pos(0, 1)));
    let h = bank.remove_min().unwrap();
    assert!(h.get() == Register(2, Pos(1, 0)));
    assert!(h.has_room());
}
