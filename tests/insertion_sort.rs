use sorting::insertion_sort;

#[test]
fn main_empty() {
    let mut input: [i32; 0] = [];
    insertion_sort(&mut input);
    let expected: [i32; 0] = [];

    assert_eq!(expected, input);
}


#[test]
fn main_ten_items() {
    let mut input = [3, 2, 0, 5, 8, 9, 6, 3, 2, 0];
    insertion_sort(&mut input);
    let expected = [0, 0, 2, 2, 3, 3, 5, 6, 8, 9];

    assert_eq!(expected, input);
}


#[test]
fn main_presorted() {
    let mut input = [0, 0, 2, 2, 3, 3, 5, 6, 8, 9];
    insertion_sort(&mut input);
    let expected = [0, 0, 2, 2, 3, 3, 5, 6, 8, 9];

    assert_eq!(expected, input);
}

