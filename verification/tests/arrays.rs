use heavy_hash::array_from_fn;

#[test]
fn array_from_fn_yields_one_value_per_index() {
    let doubled: [usize; 5] = array_from_fn(|i| i * 2);
    assert_eq!(doubled, [0, 2, 4, 6, 8]);
}

#[test]
fn array_from_fn_calls_in_increasing_order() {
    let mut seen: Vec<usize> = Vec::new();
    let squares: [u64; 4] = array_from_fn(|i| {
        seen.push(i);
        (i as u64) * (i as u64)
    });
    assert_eq!(squares, [0, 1, 4, 9]);
    assert_eq!(seen, vec![0, 1, 2, 3]);
}

#[test]
fn array_from_fn_of_length_zero_never_calls() {
    let mut calls: usize = 0;
    let empty: [u8; 0] = array_from_fn(|_| {
        calls += 1;
        7u8
    });
    assert_eq!(empty.len(), 0);
    assert_eq!(calls, 0);
}

#[test]
fn array_from_fn_holds_values_that_are_not_copy() {
    let names: [String; 3] = array_from_fn(|i| format!("row {}", i));
    assert_eq!(names[0], "row 0");
    assert_eq!(names[1], "row 1");
    assert_eq!(names[2], "row 2");
}

#[test]
fn array_from_fn_builds_nested_arrays() {
    let grid: [[u16; 3]; 2] = array_from_fn(|i| array_from_fn(|j| (10 * i + j) as u16));
    assert_eq!(grid, [[0, 1, 2], [10, 11, 12]]);
}
