use sorting::merge_sort;

#[test]
fn mergesort_empty() {
    let input: [i32; 0] = [];
    let result = merge_sort(&input);
    let expected: Vec<i32> = Vec::new();

    assert_eq!(expected, result);
}


#[test]
fn mergesort_ten_items() {
    let input = [3, 2, 0, 5, 8, 9, 6, 3, 2, 0];
    let result = merge_sort(&input);
    let expected = [0, 0, 2, 2, 3, 3, 5, 6, 8, 9].to_vec();

    assert_eq!(expected, result);
}


#[test]
fn mergesort_presorted() {
    let input = [0, 0, 2, 2, 3, 3, 5, 6, 8, 9];
    let result = merge_sort(&input);
    let expected = [0, 0, 2, 2, 3, 3, 5, 6, 8, 9].to_vec();

    assert_eq!(expected, result);
}
