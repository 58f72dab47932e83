use bitonic_sort::params::StageParameters;
use bitonic_sort::upload::param_block_bytes;

fn native(words: [u32; 3]) -> Vec<u8> {
    let mut bytes = vec![];
    for word in words {
        bytes.extend_from_slice(&word.to_ne_bytes());
    }
    bytes
}

#[test]
fn param_block_is_twelve_bytes_in_native_order() {
    let params = StageParameters { log_len: 25, log_group_init: 3, log_group_curr: 17 };
    let bytes = param_block_bytes(&params);
    assert_eq!(bytes.len(), 12);
    assert_eq!(bytes, native([25, 3, 17]));
}

#[test]
fn param_block_keeps_every_byte_of_a_word() {
    let params = StageParameters {
        log_len: 0x0403_0201,
        log_group_init: 0x0807_0605,
        log_group_curr: 0xfffe_fdfc,
    };
    let bytes = param_block_bytes(&params);
    assert_eq!(bytes, native([0x0403_0201, 0x0807_0605, 0xfffe_fdfc]));
    let little = vec![1u8, 2, 3, 4, 5, 6, 7, 8, 0xfc, 0xfd, 0xfe, 0xff];
    let big = vec![4u8, 3, 2, 1, 8, 7, 6, 5, 0xff, 0xfe, 0xfd, 0xfc];
    assert!(bytes == little || bytes == big);
}

#[test]
fn param_block_of_zeroes() {
    let params = StageParameters { log_len: 0, log_group_init: 0, log_group_curr: 0 };
    assert_eq!(param_block_bytes(&params), vec![0u8; 12]);
}
