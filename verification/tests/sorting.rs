use maxgrep::sorting::sort;

#[test]
fn sorting_nothing_gives_nothing() {
    assert_eq!(sort(&Vec::new()), Vec::<usize>::new());
}

#[test]
fn one_number_stays() {
    assert_eq!(sort(&vec![7]), vec![7]);
}

#[test]
fn numbers_come_out_ascending() {
    assert_eq!(sort(&vec![3, 1, 2]), vec![1, 2, 3]);
    assert_eq!(sort(&vec![5, 4, 3, 2, 1, 0]), vec![0, 1, 2, 3, 4, 5]);
    assert_eq!(sort(&vec![1, 2, 3, 4]), vec![1, 2, 3, 4]);
    assert_eq!(sort(&vec![usize::MAX, 0, usize::MAX - 1]), vec![0, usize::MAX - 1, usize::MAX]);
}

#[test]
fn equal_numbers_are_all_kept() {
    assert_eq!(sort(&vec![2, 1, 2, 1, 2]), vec![1, 1, 2, 2, 2]);
    assert_eq!(sort(&vec![4, 4]), vec![4, 4]);
}

#[test]
fn the_argument_is_left_as_it_was() {
    let numbers = vec![9, 8, 7];
    let sorted = sort(&numbers);
    assert_eq!(numbers, vec![9, 8, 7]);
    assert_eq!(sorted, vec![7, 8, 9]);
}

#[test]
fn sorting_agrees_with_the_standard_library() {
    let mut state: u64 = 0x2545_F491_4F6C_DD1D;
    for len in 0..200usize {
        let mut numbers = Vec::new();
        for _ in 0..len {
            state ^= state << 13;
            state ^= state >> 7;
            state ^= state << 17;
            numbers.push((state % 97) as usize);
        }
        let mut want = numbers.clone();
        want.sort();
        assert_eq!(sort(&numbers), want);
    }
}
