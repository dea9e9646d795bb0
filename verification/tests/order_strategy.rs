use hypercube_order::hypercube::stop_value;
use hypercube_order::order_strategy::graycode::GraycodeOrder;
use hypercube_order::order_strategy::lexicographic::LexicographicOrder;
use hypercube_order::order_strategy::significant_bit::SignificantBitOrder;
use hypercube_order::order_strategy::OrderStrategy;

#[test]
fn test_gray_code_3_vars() {
    let num_vars = 3;
    let mut order = GraycodeOrder::new(num_vars);

    // Expected reflected Gray code sequence for 3 bits:
    // 000 (0), 001 (1), 011 (3), 010 (2), 110 (6), 111 (7), 101 (5), 100 (4)
    let expected = vec![0, 1, 3, 2, 6, 7, 5, 4];
    let mut actual = Vec::new();

    while let Some(index) = order.next() {
        actual.push(index);
    }

    assert_eq!(actual, expected);
}

#[test]
fn test_gray_code_properties() {
    // Test for a larger hypercube to ensure properties hold
    let num_vars = 5;
    let expected_count = 1 << num_vars;
    let order = GraycodeOrder::new(num_vars);

    let results: Vec<usize> = order.collect();

    // 1. Check total count
    assert_eq!(results.len(), expected_count);

    // 2. Check uniqueness (using a bitset or sorting)
    let mut sorted_results = results.clone();
    sorted_results.sort();
    for i in 0..expected_count {
        assert_eq!(sorted_results[i], i, "Missing value {} in sequence", i);
    }

    // 3. Check Hamming Distance (exactly one bit flip per step)
    for i in 0..results.len() - 1 {
        let diff = results[i] ^ results[i + 1];
        assert!(
            diff.is_power_of_two(),
            "Multiple bits flipped between {} and {}: XOR result is {}",
            results[i],
            results[i + 1],
            diff
        );
    }
}

#[test]
fn test_empty_hypercube() {
    let mut order = GraycodeOrder::new(0);
    // 2^0 = 1 element (the value 0)
    assert_eq!(order.next(), Some(0));
    assert_eq!(order.next(), None);
}

#[test]
fn test_lexicographic_order_3_vars() {
    let num_vars = 3;
    let mut order = LexicographicOrder::new(num_vars);

    // Expected sequence: 000, 001, 010, 011, 100, 101, 110, 111
    let expected = vec![0, 1, 2, 3, 4, 5, 6, 7];
    let mut actual = Vec::new();

    while let Some(index) = order.next() {
        actual.push(index);
    }

    assert_eq!(actual, expected, "Lexicographic order should be a simple range 0..2^n");
}

#[test]
fn test_lexicographic_completeness() {
    let num_vars = 8; // 256 elements
    let expected_count = 1 << num_vars;
    let order = LexicographicOrder::new(num_vars);

    let results: Vec<usize> = order.collect();

    assert_eq!(results.len(), expected_count);

    // Verify it is strictly increasing by 1
    for i in 0..expected_count {
        assert_eq!(results[i], i);
    }
}

#[test]
fn test_lexicographic_zero_vars() {
    let mut order = LexicographicOrder::new(0);
    // 2^0 = 1 element (0)
    assert_eq!(order.next(), Some(0));
    assert_eq!(order.next(), None);
}

#[test]
fn test_lexicographic_one_var() {
    let mut order = LexicographicOrder::new(1);
    assert_eq!(order.next(), Some(0));
    assert_eq!(order.next(), Some(1));
    assert_eq!(order.next(), None);
}

#[test]
fn test_msb_order_3_vars() {
    let num_vars = 3;
    let mut order = SignificantBitOrder::new(num_vars);

    // Standard Binary (LSB): 000, 001, 010, 011, 100, 101, 110, 111 (0,1,2,3,4,5,6,7)
    // MSB Order (Reversed):  000, 100, 010, 110, 001, 101, 011, 111 (0,4,2,6,1,5,3,7)
    let expected = vec![0, 4, 2, 6, 1, 5, 3, 7];
    let mut actual = Vec::new();

    while let Some(index) = order.next() {
        actual.push(index);
    }

    assert_eq!(actual, expected, "MSB order sequence is incorrect");
}

#[test]
fn test_msb_completeness_and_uniqueness() {
    let num_vars = 5;
    let expected_count = 1 << num_vars;
    let order = SignificantBitOrder::new(num_vars);

    let results: Vec<usize> = order.collect();

    // 1. Check total count
    assert_eq!(results.len(), expected_count);

    // 2. Check uniqueness and coverage
    // Every value from 0 to 2^n - 1 must appear exactly once
    let mut sorted_results = results.clone();
    sorted_results.sort();
    for i in 0..expected_count {
        assert_eq!(sorted_results[i], i, "Value {} is missing or duplicated", i);
    }
}

#[test]
fn test_msb_single_variable() {
    let mut order = SignificantBitOrder::new(1);
    assert_eq!(order.next(), Some(0));
    assert_eq!(order.next(), Some(1));
    assert_eq!(order.next(), None);
}

#[test]
fn test_msb_zero_variables() {
    let mut order = SignificantBitOrder::new(0);
    // 2^0 = 1 element (the value 0)
    assert_eq!(order.next(), Some(0));
    assert_eq!(order.next(), None);
}

#[test]
fn test_next_value_logic_directly() {
    // Test n=4 specifically for a few transitions
    // 1100 (12) -> next should flip MSB (bit 3) -> 0100 (4)
    // Then flip bit 2 -> 1100 is not it... let's trace:
    // 1100: i=3 -> result 0100. (0100 >> 3) == 1 is false.
    //       i=2 -> result 0000. (0000 >> 2) == 1 is false.
    //       i=1 -> result 0010. (0010 >> 1) == 1 is true. Break.
    // result = 2 (0010)
    assert_eq!(SignificantBitOrder::next_value_in_msb_order(12, 4), 2);
}

// The `k`-th index of the reflected Gray code is `k ^ (k >> 1)`.
fn gray(k: usize) -> usize {
    k ^ (k >> 1)
}

// `k` with its `n` low bits read in the opposite order.
fn reversed(k: usize, n: u32) -> usize {
    let mut r = 0;
    for j in 0..n {
        if (k >> j) & 1 == 1 {
            r |= 1 << (n - 1 - j);
        }
    }
    r
}

#[test]
fn next_gray_code_walks_the_reflected_code() {
    for k in 0..4096usize {
        assert_eq!(GraycodeOrder::next_gray_code(gray(k)), gray(k + 1));
    }
}

#[test]
fn next_gray_code_concrete_steps() {
    // even number of set bits: the lowest bit flips
    assert_eq!(GraycodeOrder::next_gray_code(0), 1);
    assert_eq!(GraycodeOrder::next_gray_code(3), 2);
    // odd number of set bits: the bit above the lowest set bit flips
    assert_eq!(GraycodeOrder::next_gray_code(1), 3);
    assert_eq!(GraycodeOrder::next_gray_code(2), 6);
    assert_eq!(GraycodeOrder::next_gray_code(4), 12);
    assert_eq!(GraycodeOrder::next_gray_code(7), 5);
}

#[test]
fn next_gray_code_near_the_top_of_usize() {
    // gray(usize::MAX - 1) is followed by gray(usize::MAX), the top bit alone
    let top = 1usize << (usize::BITS - 1);
    assert_eq!(GraycodeOrder::next_gray_code(gray(usize::MAX - 1)), top);
    assert_eq!(gray(usize::MAX), top);
}

#[test]
fn gray_order_matches_gray_formula_and_stops() {
    for n in 0..10usize {
        let mut order = GraycodeOrder::new(n);
        assert_eq!(order.num_vars(), n);
        for k in 0..(1usize << n) {
            assert_eq!(order.next_index(), Some(gray(k)));
        }
        assert_eq!(order.next_index(), None);
        assert_eq!(order.next_index(), None);
        assert_eq!(order.num_vars(), n);
    }
}

#[test]
fn msb_order_is_bit_reversed_counting() {
    for n in 0..10u32 {
        let order = SignificantBitOrder::new(n as usize);
        let results = order.collect();
        let expected: Vec<usize> = (0..(1usize << n)).map(|k| reversed(k, n)).collect();
        assert_eq!(results, expected);
    }
}

#[test]
fn next_value_in_msb_order_in_range() {
    for n in 0..8u32 {
        for x in 0..(1usize << n) {
            let r = SignificantBitOrder::next_value_in_msb_order(x, n);
            let expected = reversed((reversed(x, n) + 1) % (1usize << n), n);
            assert_eq!(r, expected);
        }
    }
    // the all-ones word wraps to zero
    assert_eq!(SignificantBitOrder::next_value_in_msb_order(15, 4), 0);
    assert_eq!(SignificantBitOrder::next_value_in_msb_order(0, 0), 0);
    assert_eq!(SignificantBitOrder::next_value_in_msb_order(0, 4), 8);
}

#[test]
fn next_value_in_msb_order_above_range_flips_low_bits() {
    // a set bit at or above n: every low bit is flipped
    assert_eq!(SignificantBitOrder::next_value_in_msb_order(16, 4), 16 ^ 15);
    assert_eq!(SignificantBitOrder::next_value_in_msb_order(21, 2), 21 ^ 3);
    assert_eq!(SignificantBitOrder::next_value_in_msb_order(5, 0), 5);
    // n may be the full width
    assert_eq!(
        SignificantBitOrder::next_value_in_msb_order(0, usize::BITS),
        1usize << (usize::BITS - 1)
    );
}

#[test]
fn lexicographic_stays_exhausted() {
    let mut order = LexicographicOrder::new(2);
    for k in 0..4 {
        assert_eq!(order.next_index(), Some(k));
    }
    assert_eq!(order.next(), None);
    assert_eq!(order.next_index(), None);
    assert_eq!(order.num_vars(), 2);
    let mut msb = SignificantBitOrder::new(2);
    assert_eq!(msb.num_vars(), 2);
    for k in [0, 2, 1, 3] {
        assert_eq!(msb.next_index(), Some(k));
    }
    assert_eq!(msb.next_index(), None);
    assert_eq!(msb.next(), None);
}

#[test]
fn stop_value_is_power_of_two() {
    assert_eq!(stop_value(0), 1);
    assert_eq!(stop_value(5), 32);
    assert_eq!(stop_value(usize::BITS as usize - 1), 1usize << (usize::BITS - 1));
}

#[test]
fn msb_iteration_from_zero_returns_after_full_cycle() {
    for n in 0..9u32 {
        let mut x = 0usize;
        for k in 0..(1usize << n) {
            assert_eq!(x, reversed(k, n));
            x = SignificantBitOrder::next_value_in_msb_order(x, n);
            if k + 1 < (1usize << n) {
                assert_ne!(x, 0);
            }
        }
        assert_eq!(x, 0);
    }
}
