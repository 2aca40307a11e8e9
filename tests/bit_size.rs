use word_chains::bit_size::{int_min_representation_size_ascending, int_min_representation_size_log};

struct BitSizeTest {
    expected_result: u8,
    number: usize,
}

const BIT_NUMBER_TESTS: &[BitSizeTest] = &[
    BitSizeTest { expected_result: 1, number: 0 },
    BitSizeTest { expected_result: 1, number: 1 },
    BitSizeTest { expected_result: 2, number: 2 },
    BitSizeTest { expected_result: 2, number: 3 },
    BitSizeTest { expected_result: 3, number: 4 },
    BitSizeTest { expected_result: 3, number: 5 },
    BitSizeTest { expected_result: 3, number: 7 },
    BitSizeTest { expected_result: 10, number: 1000 },
    BitSizeTest { expected_result: 20, number: 1_000_000 },
    BitSizeTest { expected_result: 30, number: 1_000_000_000 },
    BitSizeTest { expected_result: 33, number: 8_000_000_000 },
];

fn test_bit_size_implementation(implementation: fn(usize) -> u8) {
    for bit_number_test in BIT_NUMBER_TESTS {
        assert_eq!(bit_number_test.expected_result, implementation(bit_number_test.number));
    }
}

#[test]
fn bits_size_brute_test() {
    test_bit_size_implementation(int_min_representation_size_ascending);
}

#[test]
fn bits_size_log_test() {
    test_bit_size_implementation(int_min_representation_size_log)
}

#[test]
fn bit_size_at_the_limits() {
    assert_eq!(int_min_representation_size_ascending(usize::MAX / 2), 63);
    assert_eq!(int_min_representation_size_log(usize::MAX / 2), 63);
    assert_eq!(int_min_representation_size_log(usize::MAX), 64);
    assert_eq!(int_min_representation_size_log(1 << 40), 41);
}
