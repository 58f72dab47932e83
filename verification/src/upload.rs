//! The parameter block as the bytes that are uploaded to the device.

use vstd::prelude::*;
use crate::params::StageParameters;

verus! {

/// Byte `position` of a word, counted from the least significant.
pub open spec fn byte_of(word: u32, position: int) -> u8 {
    if position == 0 {
        (word % 0x100) as u8
    } else if position == 1 {
        (word / 0x100 % 0x100) as u8
    } else if position == 2 {
        (word / 0x1_0000 % 0x100) as u8
    } else {
        (word / 0x100_0000 % 0x100) as u8
    }
}

/// The words' bytes, each word with its least significant byte first.
pub open spec fn little_endian(words: Seq<u32>) -> Seq<u8> {
    Seq::new(4 * words.len(), |i: int| byte_of(words[i / 4], i % 4))
}

/// The words' bytes, each word with its most significant byte first.
pub open spec fn big_endian(words: Seq<u32>) -> Seq<u8> {
    Seq::new(4 * words.len(), |i: int| byte_of(words[i / 4], 3 - i % 4))
}

/// Whether `bytes` are the words as they lie in the memory of some machine:
/// four bytes a word, in the words' order, every word in the same byte order.
pub open spec fn is_memory_image(bytes: Seq<u8>, words: Seq<u32>) -> bool {
    bytes == little_endian(words) || bytes == big_endian(words)
}

/// `bytemuck::cast_slice` from `u32` to `u8`, copied into a vector. The
/// cast cannot fail in this direction: a byte has no alignment to miss and
/// every length is a whole number of bytes. What comes back is the memory the
/// words occupy, so each word gives four bytes in the machine's byte order.
#[verifier::external_body]
fn words_as_bytes(words: &Vec<u32>) -> (bytes: Vec<u8>)
    ensures
        is_memory_image(bytes@, words@),
{
    bytemuck::cast_slice::<u32, u8>(words.as_slice()).to_vec()
}

/// The twelve bytes of a parameter block: `log_len`, `log_group_init` and
/// `log_group_curr`, four bytes each, in the byte order of the machine that
/// runs this.
pub fn param_block_bytes(params: &StageParameters) -> (bytes: Vec<u8>)
    ensures
        bytes@.len() == 12,
        is_memory_image(bytes@, params.words()),
{
    let mut words: Vec<u32> = Vec::new();
    words.push(params.log_len);
    words.push(params.log_group_init);
    words.push(params.log_group_curr);
    assert(words@ =~= params.words());
    words_as_bytes(&words)
}

} // verus!
