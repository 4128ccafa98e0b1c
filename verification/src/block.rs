//! Blocks and the bytes they stand for.
//!
//! A block is the 16-byte unit of storage and of encryption, held as a
//! `u128` whose little-endian bytes are the stored bytes. A run of fewer
//! than 16 bytes is read as the block that those bytes begin, the rest zero.

use vstd::prelude::*;
use vstd::bytes::{
    lemma_auto_spec_u128_to_from_le_bytes, spec_u128_from_le_bytes, spec_u128_to_le_bytes,
    u128_from_le_bytes, u128_to_le_bytes,
};
use vstd::slice::slice_subrange;

verus! {

/// The number of bytes in a block.
pub const BLOCK_SIZE: usize = 16;

/// `n` zero bytes.
pub open spec fn zeros(n: nat) -> Seq<u8> {
    Seq::new(n, |i: int| 0u8)
}

/// The 16 bytes of a block, least significant first.
pub open spec fn block_bytes(block: u128) -> Seq<u8> {
    spec_u128_to_le_bytes(block)
}

/// The block that begins with `bytes` and is zero after them.
pub open spec fn block_of(bytes: Seq<u8>) -> u128
    recommends
        bytes.len() <= 16,
{
    spec_u128_from_le_bytes(bytes + zeros((16 - bytes.len()) as nat))
}

/// What a stream that holds `data` has left at offset `pos`.
pub open spec fn rest_from(data: Seq<u8>, pos: int) -> Seq<u8> {
    if 0 <= pos <= data.len() {
        data.skip(pos)
    } else {
        Seq::empty()
    }
}

/// The bytes that the next block read takes from `rest`: 16, or all of them
/// where fewer are left.
pub open spec fn next_chunk(rest: Seq<u8>) -> Seq<u8> {
    if rest.len() >= 16 {
        rest.take(16)
    } else {
        rest
    }
}

/// A block has 16 bytes, and reading them back gives the block.
pub proof fn lemma_block_of_block_bytes(block: u128)
    ensures
        block_bytes(block).len() == 16,
        block_of(block_bytes(block)) == block,
{
    lemma_auto_spec_u128_to_from_le_bytes();
    assert(block_bytes(block) + zeros(0) =~= block_bytes(block));
}

/// The bytes of the block read from at most 16 bytes are those bytes, then
/// zeros.
pub proof fn lemma_block_bytes_of_block(bytes: Seq<u8>)
    requires
        bytes.len() <= 16,
    ensures
        block_bytes(block_of(bytes)) == bytes + zeros((16 - bytes.len()) as nat),
        block_bytes(block_of(bytes)).take(bytes.len() as int) == bytes,
{
    lemma_auto_spec_u128_to_from_le_bytes();
    let padded = bytes + zeros((16 - bytes.len()) as nat);
    assert(padded.len() == 16);
    assert(padded.take(bytes.len() as int) =~= bytes);
}

/// Reads the next block of `data` at offset `pos`: the block and the number
/// of bytes that it took, which is under 16 only at the end of `data`.
pub fn take_block(data: &[u8], pos: usize) -> (r: (u128, usize))
    ensures
        r.1 == next_chunk(rest_from(data@, pos as int)).len(),
        r.0 == block_of(next_chunk(rest_from(data@, pos as int))),
{
    let len = data.len();
    let ghost rest = rest_from(data@, pos as int);
    if pos <= len && len - pos >= BLOCK_SIZE {
        let chunk = slice_subrange(data, pos, pos + BLOCK_SIZE);
        proof {
            assert(chunk@ =~= next_chunk(rest));
            assert(chunk@ + zeros(0) =~= chunk@);
        }
        (u128_from_le_bytes(chunk), BLOCK_SIZE)
    } else {
        let count: usize = if pos <= len { len - pos } else { 0 };
        let mut padded: Vec<u8> = Vec::new();
        let mut i: usize = 0;
        while i < BLOCK_SIZE
            invariant
                i <= BLOCK_SIZE,
                count < BLOCK_SIZE,
                count == rest.len(),
                rest == rest_from(data@, pos as int),
                len == data@.len(),
                padded@.len() == i,
                forall|j: int| 0 <= j < i && j < count ==> padded@[j] == rest[j],
                forall|j: int| 0 <= j < i && j >= count ==> padded@[j] == 0u8,
            decreases BLOCK_SIZE - i,
        {
            if i < count {
                padded.push(data[pos + i]);
            } else {
                padded.push(0u8);
            }
            i += 1;
        }
        proof {
            assert(padded@ =~= rest + zeros((16 - rest.len()) as nat));
        }
        (u128_from_le_bytes(padded.as_slice()), count)
    }
}

/// Appends the first `count` bytes of `block` to `dest`.
pub fn put_block(dest: &mut Vec<u8>, block: u128, count: usize)
    requires
        count <= 16,
    ensures
        final(dest)@ == old(dest)@ + block_bytes(block).take(count as int),
{
    let bytes = u128_to_le_bytes(block);
    let mut i: usize = 0;
    while i < count
        invariant
            i <= count <= 16,
            bytes@ == block_bytes(block),
            bytes@.len() == 16,
            dest@ == old(dest)@ + bytes@.take(i as int),
        decreases count - i,
    {
        dest.push(bytes[i]);
        proof {
            assert(bytes@.take(i + 1) =~= bytes@.take(i as int).push(bytes@[i as int]));
        }
        i += 1;
    }
}

/// The block that keeps the first `count` bytes of `block` and is zero
/// after them.
pub fn first_bytes(block: u128, count: usize) -> (r: u128)
    requires
        count <= 16,
    ensures
        r == block_of(block_bytes(block).take(count as int)),
{
    let bytes = u128_to_le_bytes(block);
    let kept = slice_subrange(bytes.as_slice(), 0, count);
    proof {
        assert(kept@ =~= block_bytes(block).take(count as int));
        assert(rest_from(kept@, 0) =~= kept@);
        assert(count == 16 ==> kept@.take(16) =~= kept@);
    }
    take_block(kept, 0).0
}

/// Whether two runs of bytes are the same.
pub fn same_bytes(left: &[u8], right: &[u8]) -> (r: bool)
    ensures
        r == (left@ == right@),
{
    if left.len() != right.len() {
        return false;
    }
    let mut i: usize = 0;
    while i < left.len()
        invariant
            i <= left@.len(),
            left@.len() == right@.len(),
            forall|j: int| 0 <= j < i ==> left@[j] == right@[j],
        decreases left@.len() - i,
    {
        if left[i] != right[i] {
            return false;
        }
        i += 1;
    }
    proof {
        assert(left@ =~= right@);
    }
    true
}

} // verus!
