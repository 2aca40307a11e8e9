use word_chains::binary_chop::{chop_flat_looping, chop_stack_recursive};

struct Query {
    target: usize,
    array: &'static [usize],
}

struct TestCase {
    expected_result_index: Option<usize>,
    search: Query,
}

const TEST_CASES: &[TestCase] = &[
    TestCase { expected_result_index: None, search: Query { target: 3, array: &[] } },
    TestCase { expected_result_index: None, search: Query { target: 3, array: &[1] } },
    TestCase { expected_result_index: Some(0), search: Query { target: 1, array: &[1] } },
    TestCase { expected_result_index: Some(0), search: Query { target: 1, array: &[1, 3, 5] } },
    TestCase { expected_result_index: Some(1), search: Query { target: 3, array: &[1, 3, 5] } },
    TestCase { expected_result_index: Some(2), search: Query { target: 5, array: &[1, 3, 5] } },
    TestCase { expected_result_index: None, search: Query { target: 0, array: &[1, 3, 5] } },
    TestCase { expected_result_index: None, search: Query { target: 2, array: &[1, 3, 5] } },
    TestCase { expected_result_index: None, search: Query { target: 4, array: &[1, 3, 5] } },
    TestCase { expected_result_index: None, search: Query { target: 6, array: &[1, 3, 5] } },
    TestCase { expected_result_index: Some(0), search: Query { target: 1, array: &[1, 3, 5, 7] } },
    TestCase { expected_result_index: Some(1), search: Query { target: 3, array: &[1, 3, 5, 7] } },
    TestCase { expected_result_index: Some(2), search: Query { target: 5, array: &[1, 3, 5, 7] } },
    TestCase { expected_result_index: Some(3), search: Query { target: 7, array: &[1, 3, 5, 7] } },
    TestCase { expected_result_index: None, search: Query { target: 0, array: &[1, 3, 5, 7] } },
    TestCase { expected_result_index: None, search: Query { target: 2, array: &[1, 3, 5, 7] } },
    TestCase { expected_result_index: None, search: Query { target: 4, array: &[1, 3, 5, 7] } },
    TestCase { expected_result_index: None, search: Query { target: 6, array: &[1, 3, 5, 7] } },
    TestCase { expected_result_index: None, search: Query { target: 8, array: &[1, 3, 5, 7] } },
];

fn test_implementation(implementation: fn(usize, &[usize]) -> Option<usize>) {
    for case in TEST_CASES {
        assert_eq!(case.expected_result_index, implementation(case.search.target, case.search.array));
    }
}

#[test]
fn test_flat_iterative() {
    test_implementation(chop_flat_looping);
}

#[test]
fn test_stack_recursive() {
    test_implementation(chop_stack_recursive);
}

#[test]
fn every_element_of_a_longer_array_is_found() {
    let array: Vec<usize> = (1..=8).collect();
    for (i, v) in array.iter().enumerate() {
        assert_eq!(chop_flat_looping(*v, &array), Some(i));
        assert_eq!(chop_stack_recursive(*v, &array), Some(i));
    }
    assert_eq!(chop_stack_recursive(9, &array), None);
}
