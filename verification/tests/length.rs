use bitonic_sort::error::SortError;
use bitonic_sort::length::{is_sortable_len, log_len_of};

#[test]
fn powers_of_two_have_a_logarithm() {
    assert_eq!(log_len_of(1), Ok(0));
    assert_eq!(log_len_of(2), Ok(1));
    assert_eq!(log_len_of(16), Ok(4));
    assert_eq!(log_len_of(256), Ok(8));
    assert_eq!(log_len_of(512), Ok(9));
    assert_eq!(log_len_of(1usize << 25), Ok(25));
    for k in 0..usize::BITS {
        assert_eq!(log_len_of(1usize << k), Ok(k));
    }
}

#[test]
fn empty_array_counts_as_sorted() {
    assert_eq!(log_len_of(0), Ok(0));
    assert!(is_sortable_len(0));
}

#[test]
fn length_10_is_refused() {
    assert_eq!(log_len_of(10), Err(SortError::NotPowerOfTwo { len: 10 }));
    assert!(!is_sortable_len(10));
}

#[test]
fn other_lengths_are_refused() {
    for len in [3usize, 5, 6, 7, 9, 12, 15, 17, 24, 100, 1000, 1023, 1025, usize::MAX] {
        assert_eq!(log_len_of(len), Err(SortError::NotPowerOfTwo { len }));
        assert!(!is_sortable_len(len));
    }
    assert_eq!(
        log_len_of((1usize << 25) + (1usize << 3)),
        Err(SortError::NotPowerOfTwo { len: (1usize << 25) + 8 })
    );
}

#[test]
fn sortable_lengths_up_to_a_bound() {
    for len in 0usize..5000 {
        assert_eq!(is_sortable_len(len), len == 0 || len.is_power_of_two());
    }
}

#[test]
fn errors_tell_bad_input_from_backend() {
    assert!(SortError::NotPowerOfTwo { len: 10 }.is_precondition());
    assert!(SortError::LengthMismatch { log_len: 4, len: 8 }.is_precondition());
    assert!(!SortError::BackendUnavailable.is_precondition());
    assert!(!SortError::DispatchFailed { index: 3 }.is_precondition());
    assert_ne!(SortError::BackendUnavailable, SortError::DispatchFailed { index: 0 });
}
