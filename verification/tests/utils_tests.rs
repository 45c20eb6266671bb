use tourvia::utils::{generate_seed_order, next_power_of_two, num_rounds, round_name};

#[test]
fn test_next_power_of_two() {
    assert_eq!(next_power_of_two(1), 1);
    assert_eq!(next_power_of_two(2), 2);
    assert_eq!(next_power_of_two(3), 4);
    assert_eq!(next_power_of_two(5), 8);
    assert_eq!(next_power_of_two(7), 8);
    assert_eq!(next_power_of_two(8), 8);
    assert_eq!(next_power_of_two(9), 16);
    assert_eq!(next_power_of_two(16), 16);
}

#[test]
fn test_num_rounds() {
    assert_eq!(num_rounds(2), 1);
    assert_eq!(num_rounds(4), 2);
    assert_eq!(num_rounds(8), 3);
    assert_eq!(num_rounds(16), 4);
    assert_eq!(num_rounds(3), 2);
    assert_eq!(num_rounds(5), 3);
}

#[test]
fn test_round_name() {
    assert_eq!(round_name(1, 4), "Round of 16");
    assert_eq!(round_name(2, 4), "Quarter Final");
    assert_eq!(round_name(3, 4), "Semi Final");
    assert_eq!(round_name(4, 4), "Final");

    assert_eq!(round_name(1, 3), "Quarter Final");
    assert_eq!(round_name(2, 3), "Semi Final");
    assert_eq!(round_name(3, 3), "Final");
}

#[test]
fn test_seed_order_4() {
    let order = generate_seed_order(4);
    assert_eq!(order, vec![1, 4, 2, 3]);
}

#[test]
fn test_seed_order_8() {
    let order = generate_seed_order(8);
    assert_eq!(order, vec![1, 8, 4, 5, 2, 7, 3, 6]);
}

#[test]
fn test_seed_order_preserves_top_seeds() {
    let order = generate_seed_order(16);
    let pos_1 = order.iter().position(|&s| s == 1).unwrap();
    let pos_2 = order.iter().position(|&s| s == 2).unwrap();
    let half = order.len() / 2;
    assert!((pos_1 < half && pos_2 >= half) || (pos_2 < half && pos_1 >= half));
}

#[test]
fn next_power_of_two_of_zero_and_large() {
    assert_eq!(next_power_of_two(0), 1);
    assert_eq!(next_power_of_two(1000), 1024);
    assert_eq!(next_power_of_two(1 << 20), 1 << 20);
    assert_eq!(next_power_of_two((1 << 20) + 1), 1 << 21);
}

#[test]
fn num_rounds_of_tiny_fields() {
    assert_eq!(num_rounds(0), 0);
    assert_eq!(num_rounds(1), 0);
    assert_eq!(num_rounds(9), 4);
    assert_eq!(num_rounds(1024), 10);
}

#[test]
fn round_names_far_from_the_final() {
    assert_eq!(round_name(1, 5), "Round of 32");
    assert_eq!(round_name(1, 6), "Round of 64");
    assert_eq!(round_name(1, 1), "Final");
    assert_eq!(round_name(2, 1), "Round of 1");
}

#[test]
fn seed_order_small_sizes() {
    assert_eq!(generate_seed_order(1), vec![1]);
    assert_eq!(generate_seed_order(2), vec![1, 2]);
}

#[test]
fn seed_order_pairs_add_up_to_size_plus_one() {
    for size in [2usize, 4, 8, 16, 32, 64] {
        let order = generate_seed_order(size);
        assert_eq!(order.len(), size);
        for pair in order.chunks(2) {
            assert_eq!(pair[0] + pair[1], size + 1);
        }
        let mut sorted = order.clone();
        sorted.sort();
        assert_eq!(sorted, (1..=size).collect::<Vec<usize>>());
        assert_eq!(order[0], 1);
        assert_eq!(order[size / 2], 2);
    }
}

#[test]
fn next_power_of_two_beyond_32_bits() {
    if usize::BITS == 64 {
        let big: usize = 1 << 32;
        assert_eq!(next_power_of_two(big + 1), big << 1);
        assert_eq!(next_power_of_two(big), big);
        assert_eq!(num_rounds(big + 1), 33);
    }
    let top: usize = usize::MAX / 2 + 1;
    assert_eq!(next_power_of_two(top), top);
    assert_eq!(next_power_of_two(top - 1), top);
}
