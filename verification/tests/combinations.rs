use rustx11shortcuts::{get_ones_indexes, map_indexes_combination, total_combinations};

#[test]
fn ones_of_zero_is_empty() {
    assert_eq!(get_ones_indexes(0), Vec::<u32>::new());
}

#[test]
fn ones_are_listed_from_the_lowest_bit() {
    assert_eq!(get_ones_indexes(5), vec![0, 2]);
    assert_eq!(get_ones_indexes(0b1001_0010), vec![1, 4, 7]);
}

#[test]
fn ones_reach_the_top_bit() {
    assert_eq!(get_ones_indexes(0x8000_0001), vec![0, 31]);
    assert_eq!(get_ones_indexes(u32::MAX), (0..32).collect::<Vec<u32>>());
}

#[test]
fn ones_of_lock_mod2_mod3() {
    // LockMask | Mod2Mask | Mod3Mask
    assert_eq!(get_ones_indexes(2 | 16 | 32), vec![1, 4, 5]);
}

#[test]
fn combination_zero_selects_nothing() {
    assert_eq!(map_indexes_combination(&vec![1, 4, 5], 0), 0);
}

#[test]
fn combination_selects_the_named_bits() {
    let indexes = vec![1, 4, 5];
    assert_eq!(map_indexes_combination(&indexes, 0b001), 2);
    assert_eq!(map_indexes_combination(&indexes, 0b010), 16);
    assert_eq!(map_indexes_combination(&indexes, 0b101), 2 | 32);
    assert_eq!(map_indexes_combination(&indexes, 0b111), 2 | 16 | 32);
}

#[test]
fn combination_may_select_the_top_bit() {
    assert_eq!(map_indexes_combination(&vec![31], 1), 0x8000_0000);
}

#[test]
fn combinations_of_a_mask_are_its_submasks() {
    let mask: u32 = 2 | 16 | 32;
    let indexes = get_ones_indexes(mask);
    let total = total_combinations(indexes.len());
    let mut seen: Vec<u32> = Vec::new();
    for i in 0..total {
        let m = map_indexes_combination(&indexes, i as u32);
        assert_eq!(m & mask, m);
        assert!(!seen.contains(&m));
        seen.push(m);
    }
    assert_eq!(seen.len(), 8);
}

#[test]
fn total_combinations_is_a_power_of_two() {
    assert_eq!(total_combinations(0), 1);
    assert_eq!(total_combinations(3), 8);
    assert_eq!(total_combinations(31), 1usize << 31);
}
