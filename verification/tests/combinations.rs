use udos::combinations::combinations;

#[test]
fn combinations_of_four_choose_two() {
    let got = combinations(&[1, 2, 3, 4], 2);
    let expected = vec![
        vec![1, 2],
        vec![1, 3],
        vec![1, 4],
        vec![2, 3],
        vec![2, 4],
        vec![3, 4],
    ];
    assert_eq!(got, expected);
}

#[test]
fn combinations_choose_zero_is_the_empty_choice() {
    assert_eq!(combinations(&[5, 6, 7], 0), vec![Vec::<i32>::new()]);
    assert_eq!(combinations(&[], 0), vec![Vec::<i32>::new()]);
}

#[test]
fn combinations_of_empty_input_choose_some() {
    assert_eq!(combinations(&[], 2), Vec::<Vec<i32>>::new());
}

#[test]
fn combinations_asking_for_too_many_is_empty() {
    assert_eq!(combinations(&[1, 2], 3), Vec::<Vec<i32>>::new());
}

#[test]
fn combinations_choose_all_is_the_input() {
    assert_eq!(combinations(&[9, 8, 7], 3), vec![vec![9, 8, 7]]);
}

#[test]
fn combinations_keep_input_order_in_each_choice() {
    let got = combinations(&[3, 1, 2], 2);
    assert_eq!(got, vec![vec![3, 1], vec![3, 2], vec![1, 2]]);
}
