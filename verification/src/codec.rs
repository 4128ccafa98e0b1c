//! The encoding of a byte sequence as a run of blocks, and its decoding.
//!
//! An encoded sequence is a header block, one chained block for every 16
//! bytes of the payload (the last may hold fewer), and a checksum block:
//!
//! - the header is the encrypted length of the payload in bytes;
//! - chained block `i` is the encryption of payload block `i` XOR chained
//!   block `i - 1`, with zero in place of the block before the first;
//! - the checksum is the encrypted XOR of all payload blocks.
//!
//! The block before the first is always zero, not a fresh value for every
//! sequence: two payloads that begin with the same blocks begin with the same
//! chained blocks under one key. The format is kept as it is.
//!
//! This module holds definitions and proofs only, nothing that runs. The
//! functions of `file` that read and write sequences are stated over it.

use vstd::prelude::*;
use crate::block::{
    block_bytes, block_of, lemma_block_bytes_of_block, lemma_block_of_block_bytes, next_chunk,
    rest_from, zeros,
};
use crate::cipher::{aes192_decrypt, aes192_encrypt, aes192_inverse};
use crate::memory::overwrite;
use crate::types::SfsErrorKind;

verus! {

/// The whole blocks of a stream of bytes, in order. Bytes after the last
/// whole block are left out.
pub open spec fn blocks_of(data: Seq<u8>) -> Seq<u128> {
    Seq::new(data.len() / 16, |k: int| block_of(data.subrange(16 * k, 16 * k + 16)))
}

/// The bytes of a run of blocks.
pub open spec fn flatten(blocks: Seq<u128>) -> Seq<u8> {
    Seq::new(16 * blocks.len(), |i: int| block_bytes(blocks[i / 16])[i % 16])
}

/// The number of blocks that hold `len` bytes.
pub open spec fn chunk_count(len: nat) -> nat {
    (len + 15) / 16
}

/// Block `i` of a payload: its bytes from offset `16 * i`, at most 16 of
/// them, zero after the last.
pub open spec fn chunk(payload: Seq<u8>, i: int) -> u128 {
    block_of(next_chunk(rest_from(payload, 16 * i)))
}

/// Chained block `i` of a payload under `key`; zero for the block before
/// the first.
pub open spec fn chained(key: Seq<u8>, payload: Seq<u8>, i: int) -> u128
    decreases i + 1,
{
    if i < 0 {
        0
    } else {
        aes192_encrypt(key, chunk(payload, i) ^ chained(key, payload, i - 1))
    }
}

/// The XOR of the first `count` blocks of a payload.
pub open spec fn checksum(payload: Seq<u8>, count: int) -> u128
    decreases count,
{
    if count <= 0 {
        0
    } else {
        checksum(payload, count - 1) ^ chunk(payload, count - 1)
    }
}

/// The first `count` chained blocks of a payload.
pub open spec fn chain(key: Seq<u8>, payload: Seq<u8>, count: nat) -> Seq<u128> {
    Seq::new(count, |i: int| chained(key, payload, i))
}

/// The encoded sequence of a payload under `key`.
pub open spec fn encode(key: Seq<u8>, payload: Seq<u8>) -> Seq<u128> {
    let count = chunk_count(payload.len());
    seq![aes192_encrypt(key, payload.len() as u128)] + chain(key, payload, count) + seq![
        aes192_encrypt(key, checksum(payload, count as int)),
    ]
}

/// Whether a header can hold the length of the payload.
pub open spec fn fits(payload: Seq<u8>) -> bool {
    payload.len() <= u128::MAX
}

/// A file that ended with `base` while a sequence is being appended to it:
/// the slot of the header is left open, and `body` has been written behind
/// it. As long as nothing is written the slot is not there at all; once a
/// block stands behind it, it reads as zeros.
pub open spec fn staged(base: Seq<u8>, body: Seq<u128>) -> Seq<u8> {
    if body.len() == 0 {
        base
    } else {
        base + zeros(16) + flatten(body)
    }
}

/// Whether `grown` is the file that held `base` after the encoded sequence
/// of `payload` has been appended to it.
pub open spec fn appended(key: Seq<u8>, base: Seq<u8>, payload: Seq<u8>, grown: Seq<u8>) -> bool {
    &&& base.len() % 16 == 0
    &&& payload.len() <= usize::MAX
    &&& append_outcome(base.len(), payload.len()) is Ok
    &&& grown == base + flatten(encode(key, payload))
}

/// Whether a sequence for a payload of `len` bytes can be appended to a
/// file of `size` bytes, and the failure if not. A file so large that no
/// position past its end can be held is `IoError`, a file that does not end
/// on a block `CorruptedFile`, and a sequence that would grow the file past
/// what a position can hold `IoError`.
pub open spec fn append_outcome(size: nat, len: nat) -> Result<(), SfsErrorKind> {
    if size + 16 > usize::MAX {
        Err(SfsErrorKind::IoError)
    } else if size % 16 != 0 {
        Err(SfsErrorKind::CorruptedFile)
    } else if size + 16 * (chunk_count(len) + 2) > usize::MAX {
        Err(SfsErrorKind::IoError)
    } else {
        Ok(())
    }
}

/// The length that the header at block `loc` of `file` announces.
pub open spec fn length_at(key: Seq<u8>, file: Seq<u128>, loc: int) -> nat {
    aes192_decrypt(key, file[loc]) as nat
}

/// The number of chained blocks that the header at `loc` announces.
pub open spec fn count_at(key: Seq<u8>, file: Seq<u128>, loc: int) -> int {
    chunk_count(length_at(key, file, loc)) as int
}

/// Payload block `i` of the sequence at `loc`, recovered from its chained
/// block and the one before.
pub open spec fn plain_at(key: Seq<u8>, file: Seq<u128>, loc: int, i: int) -> u128 {
    aes192_decrypt(key, file[loc + 1 + i]) ^ (if i == 0 {
        0
    } else {
        file[loc + i]
    })
}

/// The XOR of the first `count` recovered blocks of the sequence at `loc`.
pub open spec fn plain_sum(key: Seq<u8>, file: Seq<u128>, loc: int, count: int) -> u128
    decreases count,
{
    if count <= 0 {
        0
    } else {
        plain_sum(key, file, loc, count - 1) ^ plain_at(key, file, loc, count - 1)
    }
}

/// The bytes of the first `count` recovered blocks of the sequence at `loc`.
pub open spec fn plain_bytes(key: Seq<u8>, file: Seq<u128>, loc: int, count: int) -> Seq<u8>
    decreases count,
{
    if count <= 0 {
        Seq::empty()
    } else {
        plain_bytes(key, file, loc, count - 1) + block_bytes(plain_at(key, file, loc, count - 1))
    }
}

/// Whether `file` holds a whole sequence at block `loc`: the header, the
/// chained blocks that it announces and the checksum block are there, and
/// the checksum is that of the recovered blocks.
pub open spec fn sound_at(key: Seq<u8>, file: Seq<u128>, loc: int) -> bool {
    &&& 0 <= loc < file.len()
    &&& loc + 1 + count_at(key, file, loc) < file.len()
    &&& aes192_decrypt(key, file[loc + 1 + count_at(key, file, loc)]) == plain_sum(
        key,
        file,
        loc,
        count_at(key, file, loc),
    )
}

/// The payload of the sequence at `loc`.
pub open spec fn payload_at(key: Seq<u8>, file: Seq<u128>, loc: int) -> Seq<u8> {
    plain_bytes(key, file, loc, count_at(key, file, loc)).take(length_at(key, file, loc) as int)
}

/// The index of the block after the sequence at `loc`.
pub open spec fn end_at(key: Seq<u8>, file: Seq<u128>, loc: int) -> int {
    loc + 2 + count_at(key, file, loc)
}

/// The bytes that decoding at `loc` hands out, whether the sequence is sound
/// or not. Decoding hands out each block as soon as it is recovered, and
/// finds out at the end whether the checksum fits. Where the file ends
/// early, what came before the end has been handed out.
pub open spec fn emitted_at(key: Seq<u8>, file: Seq<u128>, loc: int) -> Seq<u8> {
    if 0 <= loc < file.len() {
        let there = file.len() - loc - 1;
        let count = if count_at(key, file, loc) <= there {
            count_at(key, file, loc)
        } else {
            there
        };
        let bytes = plain_bytes(key, file, loc, count);
        if length_at(key, file, loc) <= bytes.len() {
            bytes.take(length_at(key, file, loc) as int)
        } else {
            bytes
        }
    } else {
        Seq::empty()
    }
}

/// The bytes of blocks come 16 to a block.
pub proof fn lemma_flatten_push(blocks: Seq<u128>, block: u128)
    ensures
        flatten(blocks.push(block)) == flatten(blocks) + block_bytes(block),
{
    lemma_block_of_block_bytes(block);
    assert(flatten(blocks.push(block)) =~= flatten(blocks) + block_bytes(block));
}

/// The bytes of two runs of blocks, one after the other.
pub proof fn lemma_flatten_add(front: Seq<u128>, back: Seq<u128>)
    ensures
        flatten(front + back) == flatten(front) + flatten(back),
{
    assert forall|i: int| 0 <= i < 16 * (front.len() + back.len()) implies flatten(front + back)[i]
        == (flatten(front) + flatten(back))[i] by {
        if i >= 16 * front.len() {
            assert((i - 16 * front.len()) / 16 == i / 16 - front.len());
            assert((i - 16 * front.len()) % 16 == i % 16);
        }
    }
    assert(flatten(front + back) =~= flatten(front) + flatten(back));
}

/// The blocks of the bytes of a run of blocks are that run.
pub proof fn lemma_blocks_of_flatten(blocks: Seq<u128>)
    ensures
        blocks_of(flatten(blocks)) == blocks,
        flatten(blocks).len() == 16 * blocks.len(),
{
    assert forall|k: int| 0 <= k < blocks.len() implies blocks_of(flatten(blocks))[k]
        == blocks[k] by {
        lemma_block_of_block_bytes(blocks[k]);
        assert forall|j: int| 0 <= j < 16 implies flatten(blocks).subrange(16 * k, 16 * k + 16)[j]
            == block_bytes(blocks[k])[j] by {
            assert((16 * k + j) / 16 == k);
            assert((16 * k + j) % 16 == j);
        }
        assert(flatten(blocks).subrange(16 * k, 16 * k + 16) =~= block_bytes(blocks[k]));
    }
    assert(blocks_of(flatten(blocks)) =~= blocks);
}

/// A stream of whole blocks is the bytes of its blocks.
pub proof fn lemma_flatten_blocks_of(data: Seq<u8>)
    requires
        data.len() % 16 == 0,
    ensures
        flatten(blocks_of(data)) == data,
{
    assert forall|i: int| 0 <= i < data.len() implies flatten(blocks_of(data))[i] == data[i] by {
        let k = i / 16;
        let part = data.subrange(16 * k, 16 * k + 16);
        lemma_block_bytes_of_block(part);
        assert(part + zeros(0) =~= part);
        assert(part[i % 16] == data[i]);
    }
    assert(flatten(blocks_of(data)) =~= data);
}

/// Reading at the offset of block `k` finds a whole block exactly when the
/// stream has one there, and then it is that block.
pub proof fn lemma_block_at(data: Seq<u8>, k: int)
    requires
        0 <= k,
    ensures
        rest_from(data, 16 * k).len() >= 16 <==> k < blocks_of(data).len(),
        k < blocks_of(data).len() ==> block_of(rest_from(data, 16 * k).take(16)) == blocks_of(
            data,
        )[k],
{
    if k < blocks_of(data).len() {
        assert(rest_from(data, 16 * k).take(16) =~= data.subrange(16 * k, 16 * k + 16));
    }
}

/// The first `count` recovered blocks have 16 bytes each.
pub proof fn lemma_plain_bytes_len(key: Seq<u8>, file: Seq<u128>, loc: int, count: int)
    requires
        0 <= count,
    ensures
        plain_bytes(key, file, loc, count).len() == 16 * count,
    decreases count,
{
    if count > 0 {
        lemma_plain_bytes_len(key, file, loc, count - 1);
        lemma_block_of_block_bytes(plain_at(key, file, loc, count - 1));
    }
}

/// Decoding a sound sequence hands out its payload, which has the length
/// that the header announces.
pub proof fn lemma_emitted_when_sound(key: Seq<u8>, file: Seq<u128>, loc: int)
    requires
        sound_at(key, file, loc),
    ensures
        emitted_at(key, file, loc) == payload_at(key, file, loc),
        payload_at(key, file, loc).len() == length_at(key, file, loc),
        loc < end_at(key, file, loc) <= file.len(),
{
    lemma_plain_bytes_len(key, file, loc, count_at(key, file, loc));
}

/// Writing a block at the end of a staged file puts it at the end of the
/// body.
pub proof fn lemma_staged_write(base: Seq<u8>, body: Seq<u128>, block: u128)
    ensures
        overwrite(
            staged(base, body),
            base.len() + 16 + 16 * body.len(),
            block_bytes(block),
        ) == staged(base, body.push(block)),
{
    lemma_flatten_push(body, block);
    lemma_block_of_block_bytes(block);
    lemma_blocks_of_flatten(body);
    if body.len() == 0 {
        assert(flatten(body) =~= Seq::<u8>::empty());
    }
    assert(overwrite(staged(base, body), base.len() + 16 + 16 * body.len(), block_bytes(block))
        =~= staged(base, body.push(block)));
}

/// Writing the header into the open slot of a staged file completes the
/// sequence.
pub proof fn lemma_staged_seal(base: Seq<u8>, body: Seq<u128>, header: u128)
    requires
        body.len() > 0,
    ensures
        overwrite(staged(base, body), base.len(), block_bytes(header)) == base + flatten(
            seq![header] + body,
        ),
{
    lemma_flatten_add(seq![header], body);
    lemma_flatten_push(Seq::<u128>::empty(), header);
    assert(Seq::<u128>::empty().push(header) =~= seq![header]);
    assert(flatten(Seq::<u128>::empty()) =~= Seq::<u8>::empty());
    lemma_block_of_block_bytes(header);
    lemma_blocks_of_flatten(body);
    assert(overwrite(staged(base, body), base.len(), block_bytes(header)) =~= base + flatten(
        seq![header] + body,
    ));
}

/// Blocks appended to a stream of whole blocks are appended to its blocks.
pub proof fn lemma_blocks_of_append(data: Seq<u8>, blocks: Seq<u128>)
    requires
        data.len() % 16 == 0,
    ensures
        blocks_of(data + flatten(blocks)) == blocks_of(data) + blocks,
        (data + flatten(blocks)).len() % 16 == 0,
{
    lemma_flatten_blocks_of(data);
    lemma_flatten_add(blocks_of(data), blocks);
    lemma_blocks_of_flatten(blocks_of(data) + blocks);
}

/// A block of a payload stays what it is when bytes are appended behind it.
pub proof fn lemma_chunk_of_prefix(payload: Seq<u8>, more: Seq<u8>, i: int)
    requires
        0 <= i,
        16 * (i + 1) <= payload.len(),
    ensures
        chunk(payload + more, i) == chunk(payload, i),
{
    assert(next_chunk(rest_from(payload + more, 16 * i)) =~= next_chunk(
        rest_from(payload, 16 * i),
    ));
}

/// The bytes appended to a payload of whole blocks, at most 16 of them, are
/// its next block.
pub proof fn lemma_chunk_appended(payload: Seq<u8>, more: Seq<u8>)
    requires
        payload.len() % 16 == 0,
        more.len() <= 16,
    ensures
        chunk(payload + more, payload.len() as int / 16) == block_of(more),
{
    assert(next_chunk(rest_from(payload + more, 16 * (payload.len() as int / 16))) =~= more);
}

/// A chained block stays what it is when bytes are appended behind its
/// payload block.
pub proof fn lemma_chained_of_prefix(key: Seq<u8>, payload: Seq<u8>, more: Seq<u8>, i: int)
    requires
        16 * (i + 1) <= payload.len(),
    ensures
        chained(key, payload + more, i) == chained(key, payload, i),
    decreases i + 1,
{
    if i >= 0 {
        lemma_chained_of_prefix(key, payload, more, i - 1);
        lemma_chunk_of_prefix(payload, more, i);
    }
}

/// The XOR of the first blocks of a payload stays what it is when bytes are
/// appended behind them.
pub proof fn lemma_checksum_of_prefix(payload: Seq<u8>, more: Seq<u8>, count: int)
    requires
        16 * count <= payload.len(),
    ensures
        checksum(payload + more, count) == checksum(payload, count),
    decreases count,
{
    if count > 0 {
        lemma_checksum_of_prefix(payload, more, count - 1);
        lemma_chunk_of_prefix(payload, more, count - 1);
    }
}

/// The first chained blocks of a payload stay what they are when bytes are
/// appended behind their payload blocks.
pub proof fn lemma_chain_of_prefix(key: Seq<u8>, payload: Seq<u8>, more: Seq<u8>, count: nat)
    requires
        16 * count <= payload.len(),
    ensures
        chain(key, payload + more, count) == chain(key, payload, count),
{
    assert forall|i: int| 0 <= i < count implies chained(key, payload + more, i) == chained(
        key,
        payload,
        i,
    ) by {
        lemma_chained_of_prefix(key, payload, more, i);
    }
    assert(chain(key, payload + more, count) =~= chain(key, payload, count));
}

/// What appending a block of bytes to a payload of whole blocks does to
/// its encoding: the chained blocks so far stay, and the next chained block
/// and the XOR take the new block in.
pub proof fn lemma_payload_grows(key: Seq<u8>, payload: Seq<u8>, more: Seq<u8>)
    requires
        payload.len() % 16 == 0,
        0 < more.len() <= 16,
    ensures
        ({
            let count = payload.len() as int / 16;
            let next = aes192_encrypt(key, block_of(more) ^ chained(key, payload, count - 1));
            &&& chained(key, payload + more, count) == next
            &&& chain(key, payload + more, (count + 1) as nat) == chain(
                key,
                payload,
                count as nat,
            ).push(next)
            &&& checksum(payload + more, count + 1) == checksum(payload, count) ^ block_of(more)
        }),
{
    let count = payload.len() as int / 16;
    lemma_chunk_appended(payload, more);
    lemma_chained_of_prefix(key, payload, more, count - 1);
    lemma_checksum_of_prefix(payload, more, count);
    lemma_chain_of_prefix(key, payload, more, count as nat);
    assert(chain(key, payload + more, (count + 1) as nat) =~= chain(
        key,
        payload + more,
        count as nat,
    ).push(chained(key, payload + more, count)));
}

/// How XOR sums move when the blocks summed move.
proof fn lemma_xor_moves(s: u128, p: u128, d: u128, e: u128)
    by (bit_vector)
    ensures
        s ^ (p ^ d) == (s ^ p) ^ d,
        (s ^ d) ^ p == (s ^ p) ^ d,
        (s ^ d) ^ (p ^ e) == (s ^ p) ^ (d ^ e),
        (d ^ p) == (e ^ p) ^ (d ^ e),
        (p ^ d) == (p ^ e) ^ (d ^ e),
        (s ^ d) ^ d == s,
        s ^ 0 == s,
        s ^ d == s ==> d == 0,
        d ^ e == 0 ==> d == e,
{
}

/// In a file that holds the encoding of `payload` at block `front.len()`,
/// the blocks recovered there are the blocks of the payload.
pub proof fn lemma_plain_of_encoded(
    key: Seq<u8>,
    front: Seq<u128>,
    payload: Seq<u8>,
    back: Seq<u128>,
    i: int,
)
    requires
        aes192_inverse(key),
        0 <= i < chunk_count(payload.len()),
    ensures
        plain_at(key, front + encode(key, payload) + back, front.len() as int, i) == chunk(
            payload,
            i,
        ),
{
    let file = front + encode(key, payload) + back;
    let loc = front.len() as int;
    let before = chained(key, payload, i - 1);
    assert(file[loc + 1 + i] == chained(key, payload, i));
    assert(aes192_decrypt(key, chained(key, payload, i)) == chunk(payload, i) ^ before);
    lemma_xor_moves(chunk(payload, i), 0, before, 0);
    lemma_xor_moves(chunk(payload, i) ^ before, 0, 0, 0);
    if i > 0 {
        assert(file[loc + i] == before);
    }
}

/// The XOR of the recovered blocks of an encoded payload is the XOR of the
/// payload's blocks.
pub proof fn lemma_sum_of_encoded(
    key: Seq<u8>,
    front: Seq<u128>,
    payload: Seq<u8>,
    back: Seq<u128>,
    count: int,
)
    requires
        aes192_inverse(key),
        0 <= count <= chunk_count(payload.len()),
    ensures
        plain_sum(key, front + encode(key, payload) + back, front.len() as int, count) == checksum(
            payload,
            count,
        ),
    decreases count,
{
    if count > 0 {
        lemma_sum_of_encoded(key, front, payload, back, count - 1);
        lemma_plain_of_encoded(key, front, payload, back, count - 1);
    }
}

/// The bytes of the recovered blocks of an encoded payload begin with the
/// payload.
pub proof fn lemma_bytes_of_encoded(
    key: Seq<u8>,
    front: Seq<u128>,
    payload: Seq<u8>,
    back: Seq<u128>,
    count: int,
)
    requires
        aes192_inverse(key),
        0 <= count <= chunk_count(payload.len()),
    ensures
        plain_bytes(key, front + encode(key, payload) + back, front.len() as int, count).len()
            == 16 * count,
        forall|j: int|
            0 <= j < 16 * count && j < payload.len() ==> plain_bytes(
                key,
                front + encode(key, payload) + back,
                front.len() as int,
                count,
            )[j] == payload[j],
    decreases count,
{
    let file = front + encode(key, payload) + back;
    let loc = front.len() as int;
    lemma_plain_bytes_len(key, file, loc, count);
    if count > 0 {
        lemma_bytes_of_encoded(key, front, payload, back, count - 1);
        lemma_plain_of_encoded(key, front, payload, back, count - 1);
        lemma_plain_bytes_len(key, file, loc, count - 1);
        let part = next_chunk(rest_from(payload, 16 * (count - 1)));
        lemma_block_bytes_of_block(part);
        assert forall|j: int| 0 <= j < 16 * count && j < payload.len() implies plain_bytes(
            key,
            file,
            loc,
            count,
        )[j] == payload[j] by {
            if j >= 16 * (count - 1) {
                assert(block_bytes(chunk(payload, count - 1))[j - 16 * (count - 1)] == part[j - 16
                    * (count - 1)]);
            }
        }
    }
}

/// Decoding undoes encoding: a file that holds the encoding of `payload` at
/// block `front.len()` holds a sound sequence there, whose payload is
/// `payload` and whose end is the end of the encoding, whatever stands
/// before and behind.
pub proof fn lemma_decode_encoded(
    key: Seq<u8>,
    front: Seq<u128>,
    payload: Seq<u8>,
    back: Seq<u128>,
)
    requires
        aes192_inverse(key),
        fits(payload),
    ensures
        sound_at(key, front + encode(key, payload) + back, front.len() as int),
        length_at(key, front + encode(key, payload) + back, front.len() as int) == payload.len(),
        payload_at(key, front + encode(key, payload) + back, front.len() as int) == payload,
        end_at(key, front + encode(key, payload) + back, front.len() as int) == front.len()
            + encode(key, payload).len(),
{
    let file = front + encode(key, payload) + back;
    let loc = front.len() as int;
    let count = chunk_count(payload.len()) as int;
    assert(file[loc] == aes192_encrypt(key, payload.len() as u128));
    assert(length_at(key, file, loc) == payload.len());
    assert(file[loc + 1 + count] == aes192_encrypt(key, checksum(payload, count)));
    lemma_sum_of_encoded(key, front, payload, back, count);
    lemma_bytes_of_encoded(key, front, payload, back, count);
    assert(payload_at(key, file, loc) =~= payload);
}

/// Under a key whose two directions undo each other, different blocks
/// decrypt to different blocks.
pub proof fn lemma_decrypt_injective(key: Seq<u8>, a: u128, b: u128)
    requires
        aes192_inverse(key),
        aes192_decrypt(key, a) == aes192_decrypt(key, b),
    ensures
        a == b,
{
    assert(aes192_encrypt(key, aes192_decrypt(key, a)) == a);
    assert(aes192_encrypt(key, aes192_decrypt(key, b)) == b);
}

/// Whether putting `forged` in the place of the chained block `was` moves
/// the two recovered blocks that depend on it by the same bits. Their XOR
/// then stays what it was.
pub open spec fn cancels(key: Seq<u8>, was: u128, forged: u128) -> bool {
    aes192_decrypt(key, forged) ^ aes192_decrypt(key, was) == forged ^ was
}

/// By how much the XOR of the first `count` recovered blocks of the
/// sequence at `loc` moves when the chained block `j` of the sequence is
/// replaced by `forged`. Two recovered blocks move: block `j`, by the change
/// of what the chained block decrypts to, and block `j + 1`, by the change
/// of the chained block itself.
pub open spec fn sum_shift(
    key: Seq<u8>,
    file: Seq<u128>,
    loc: int,
    j: int,
    forged: u128,
    count: int,
) -> u128 {
    let first = aes192_decrypt(key, forged) ^ aes192_decrypt(key, file[loc + 1 + j]);
    let second = forged ^ file[loc + 1 + j];
    if count <= j {
        0
    } else if count == j + 1 {
        first
    } else {
        first ^ second
    }
}

/// The XOR of the recovered blocks after one chained block was replaced.
pub proof fn lemma_sum_after_change(
    key: Seq<u8>,
    file: Seq<u128>,
    loc: int,
    j: int,
    forged: u128,
    count: int,
)
    requires
        0 <= loc,
        0 <= j,
        0 <= count,
        loc + 1 + count <= file.len(),
        loc + 1 + j < file.len(),
    ensures
        plain_sum(key, file.update(loc + 1 + j, forged), loc, count) == plain_sum(
            key,
            file,
            loc,
            count,
        ) ^ sum_shift(key, file, loc, j, forged, count),
    decreases count,
{
    let changed = file.update(loc + 1 + j, forged);
    let first = aes192_decrypt(key, forged) ^ aes192_decrypt(key, file[loc + 1 + j]);
    let second = forged ^ file[loc + 1 + j];
    if count == 0 {
        lemma_xor_moves(0, 0, 0, 0);
    } else {
        lemma_sum_after_change(key, file, loc, j, forged, count - 1);
        let i = count - 1;
        let sum = plain_sum(key, file, loc, i);
        let plain = plain_at(key, file, loc, i);
        let before = if i == 0 {
            0
        } else {
            file[loc + i]
        };
        if i < j {
            assert(plain_at(key, changed, loc, i) == plain);
            lemma_xor_moves(sum ^ plain, 0, 0, 0);
            lemma_xor_moves(sum, 0, 0, 0);
        } else if i == j {
            lemma_xor_moves(sum, 0, 0, 0);
            lemma_xor_moves(
                0,
                before,
                aes192_decrypt(key, forged),
                aes192_decrypt(key, file[loc + 1 + j]),
            );
            assert(plain_at(key, changed, loc, i) == plain ^ first);
            lemma_xor_moves(sum, plain, first, 0);
        } else if i == j + 1 {
            lemma_xor_moves(0, aes192_decrypt(key, file[loc + 1 + i]), forged, file[loc + 1 + j]);
            assert(plain_at(key, changed, loc, i) == plain ^ second);
            lemma_xor_moves(sum, plain, first, second);
        } else {
            assert(plain_at(key, changed, loc, i) == plain);
            lemma_xor_moves(sum, plain, first ^ second, 0);
        }
    }
}

/// Where a chained block or the checksum block of an encoded payload is
/// replaced by another block, the sequence is no longer sound.
///
/// `j` counts the blocks behind the header: the chained blocks first, then
/// the checksum. One case is left out. Replacing a chained block that is not
/// the last moves two recovered blocks, and where both move by the same bits
/// their XOR does not move: the checksum cannot tell.
pub proof fn lemma_change_is_unsound(
    key: Seq<u8>,
    front: Seq<u128>,
    payload: Seq<u8>,
    back: Seq<u128>,
    j: int,
    forged: u128,
)
    requires
        aes192_inverse(key),
        fits(payload),
        0 <= j <= chunk_count(payload.len()),
        forged != (front + encode(key, payload) + back)[front.len() + 1 + j],
        j + 1 < chunk_count(payload.len()) ==> !cancels(
            key,
            (front + encode(key, payload) + back)[front.len() + 1 + j],
            forged,
        ),
    ensures
        !sound_at(
            key,
            (front + encode(key, payload) + back).update(front.len() + 1 + j, forged),
            front.len() as int,
        ),
{
    let file = front + encode(key, payload) + back;
    let loc = front.len() as int;
    let count = chunk_count(payload.len()) as int;
    let changed = file.update(loc + 1 + j, forged);
    let was = file[loc + 1 + j];
    lemma_decode_encoded(key, front, payload, back);
    assert(count_at(key, changed, loc) == count);
    lemma_sum_after_change(key, file, loc, j, forged, count);
    let sum = plain_sum(key, file, loc, count);
    let first = aes192_decrypt(key, forged) ^ aes192_decrypt(key, was);
    let second = forged ^ was;
    if aes192_decrypt(key, forged) == aes192_decrypt(key, was) {
        lemma_decrypt_injective(key, forged, was);
    }
    if j == count {
        lemma_xor_moves(sum, 0, 0, 0);
    } else {
        lemma_xor_moves(0, 0, aes192_decrypt(key, forged), aes192_decrypt(key, was));
        lemma_xor_moves(0, 0, first, second);
        lemma_xor_moves(sum, 0, first, 0);
        lemma_xor_moves(sum, 0, first ^ second, 0);
    }
}

} // verus!
