use sorting::quicksort;

#[test]
fn empty() {
    let mut input: [i32; 0] = [];
    let n: usize = input.len();
    quicksort(&mut input, 0, n);
    let expected: [i32; 0] = [];

    assert_eq!(expected, input);
}


#[test]
fn ten_items() {
    let mut input = [3, 2, 0, 5, 8, 9, 6, 3, 2, 0];
    let n: usize = input.len();
    quicksort(&mut input, 0, n - 1);
    let expected = [0, 0, 2, 2, 3, 3, 5, 6, 8, 9];

    assert_eq!(expected, input);
}


#[test]
fn presorted() {
    let mut input = [0, 0, 2, 2, 3, 3, 5, 6, 8, 9];
    let n: usize = input.len();
    quicksort(&mut input, 0, n - 1);
    let expected = [0, 0, 2, 2, 3, 3, 5, 6, 8, 9];

    assert_eq!(expected, input);
}

