use word_chains::sorting::push_sort;

#[test]
fn sorting_balls_it_works() {
    let mut rack: Vec<u32> = vec![];
    let empty: Vec<u32> = vec![];
    assert_eq!(empty, rack);

    push_sort(&mut rack, 20);
    assert_eq!(vec![20], rack);

    push_sort(&mut rack, 10);
    assert_eq!(vec![10, 20], rack);

    push_sort(&mut rack, 30);
    assert_eq!(vec![10, 20, 30], rack);
}

#[test]
fn push_sort_orders_an_unsorted_rack_and_keeps_repeats() {
    let mut rack: Vec<u32> = vec![5, 1, 4, 1];
    push_sort(&mut rack, 3);
    assert_eq!(rack, vec![1, 1, 3, 4, 5]);
    push_sort(&mut rack, u32::MAX);
    push_sort(&mut rack, 0);
    assert_eq!(rack, vec![0, 1, 1, 3, 4, 5, u32::MAX]);
}
