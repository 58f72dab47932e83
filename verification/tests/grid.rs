use bitonic_sort::grid::{checked_dispatch_grid, dispatch_grid, LOG_GROUP_CAPACITY, MAX_GRID_LOG_LEN};

#[test]
fn grid_is_one_group_up_to_capacity() {
    for log_len in 0..=8u32 {
        assert_eq!(dispatch_grid(log_len), (1, 1, 1));
    }
    assert_eq!(LOG_GROUP_CAPACITY, 8);
}

#[test]
fn grid_for_log_len_9() {
    assert_eq!(dispatch_grid(9), (2, 1, 1));
}

#[test]
fn grid_for_log_len_16() {
    assert_eq!(dispatch_grid(16), (32, 16, 1));
}

#[test]
fn grid_at_several_sizes() {
    assert_eq!(dispatch_grid(10), (4, 2, 1));
    assert_eq!(dispatch_grid(11), (4, 2, 1));
    assert_eq!(dispatch_grid(12), (8, 4, 1));
    assert_eq!(dispatch_grid(13), (8, 4, 1));
    assert_eq!(dispatch_grid(20), (128, 64, 1));
    assert_eq!(dispatch_grid(25), (512, 256, 1));
    assert_eq!(dispatch_grid(32), (8192, 4096, 1));
}

#[test]
fn grid_follows_the_formula() {
    for log_len in 9..=MAX_GRID_LOG_LEN {
        let half = 1u64 << ((log_len - 8) / 2);
        let (x, y, z) = dispatch_grid(log_len);
        assert_eq!((x as u64, y as u64, z as u64), (half * 2, half, 1));
    }
}

#[test]
fn grid_covers_the_array() {
    for log_len in 0..=40u32 {
        let (x, y, z) = dispatch_grid(log_len);
        let lanes = (x as u128) * (y as u128) * (z as u128) * 256;
        let elements = 1u128 << log_len;
        assert!(lanes >= elements);
        if log_len > 8 {
            assert!(lanes <= 2 * elements);
        }
        if log_len > 8 && (log_len - 8) % 2 == 1 {
            assert_eq!(lanes, elements);
        }
    }
}

#[test]
fn grid_at_the_largest_log_len() {
    assert_eq!(MAX_GRID_LOG_LEN, 69);
    assert_eq!(dispatch_grid(69), (1u32 << 31, 1u32 << 30, 1));
    assert_eq!(checked_dispatch_grid(69), Some((1u32 << 31, 1u32 << 30, 1)));
    assert_eq!(checked_dispatch_grid(70), None);
    assert_eq!(checked_dispatch_grid(u32::MAX), None);
    assert_eq!(checked_dispatch_grid(9), Some((2, 1, 1)));
    assert_eq!(checked_dispatch_grid(0), Some((1, 1, 1)));
}
