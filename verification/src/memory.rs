//! Streams held in memory: a byte slice that is read block by block, and the
//! image of a container file with its read and write position.

use vstd::prelude::*;
use vstd::bytes::u128_to_le_bytes;
use crate::block::{block_bytes, next_chunk, rest_from, take_block, zeros, BLOCK_SIZE};
use crate::types::{ReadBlock, SfsErrorKind, WriteBlock};

verus! {

/// `data` after `bytes` have been written at offset `at`: a file shorter
/// than `at` is first filled up with zeros.
pub open spec fn overwrite(data: Seq<u8>, at: nat, bytes: Seq<u8>) -> Seq<u8> {
    let filled = if at > data.len() {
        data + zeros((at - data.len()) as nat)
    } else {
        data
    };
    let end = at + bytes.len();
    if end < filled.len() {
        filled.take(at as int) + bytes + filled.skip(end as int)
    } else {
        filled.take(at as int) + bytes
    }
}

/// A byte slice as a stream of blocks.
pub struct ByteSource<'a> {
    data: &'a [u8],
    pos: usize,
}

impl<'a> ByteSource<'a> {
    /// A stream that delivers `data` from its first byte on.
    pub fn new(data: &'a [u8]) -> (r: Self)
        ensures
            r.remaining() == data@,
            r.reliable(),
    {
        let r = ByteSource { data, pos: 0 };
        proof {
            assert(rest_from(data@, 0) =~= data@);
        }
        r
    }
}

impl<'a> ReadBlock for ByteSource<'a> {
    closed spec fn remaining(&self) -> Seq<u8> {
        rest_from(self.data@, self.pos as int)
    }

    open spec fn reliable(&self) -> bool {
        true
    }

    fn read_block(&mut self) -> (r: Result<Result<u128, (u128, usize)>, SfsErrorKind>)
        ensures
            r matches Ok(inner) && (inner is Ok <==> old(self).remaining().len() >= 16),
    {
        let len = self.data.len();
        let (block, count) = take_block(self.data, self.pos);
        if count == BLOCK_SIZE {
            proof {
                assert(self.pos + 16 <= len);
                assert(rest_from(self.data@, self.pos + 16) =~= rest_from(
                    self.data@,
                    self.pos as int,
                ).skip(16));
            }
            self.pos = self.pos + BLOCK_SIZE;
            Ok(Ok(block))
        } else {
            self.pos = self.data.len();
            Ok(Err((block, count)))
        }
    }
}

/// The image of a file in memory: its bytes, and the offset at which the
/// next block is read or written. The offset may lie past the end, as a
/// file's may after a seek.
pub struct MemFile {
    data: Vec<u8>,
    pos: usize,
}

impl MemFile {
    /// The bytes of the file.
    pub closed spec fn bytes(&self) -> Seq<u8> {
        self.data@
    }

    /// The offset of the next read or write.
    pub closed spec fn cursor(&self) -> nat {
        self.pos as nat
    }

    /// The file that holds `data`, positioned at its start.
    pub fn from_bytes(data: Vec<u8>) -> (r: Self)
        ensures
            r.bytes() == data@,
            r.cursor() == 0,
    {
        MemFile { data, pos: 0 }
    }

    /// The bytes of the file.
    pub fn as_bytes(&self) -> (r: &Vec<u8>)
        ensures
            r@ == self.bytes(),
    {
        &self.data
    }

    /// Gives the bytes of the file away.
    pub fn into_bytes(self) -> (r: Vec<u8>)
        ensures
            r@ == self.bytes(),
    {
        self.data
    }

    /// The size of the file in bytes.
    pub fn size(&self) -> (r: usize)
        ensures
            r == self.bytes().len(),
    {
        self.data.len()
    }

    /// Moves the position to `offset` bytes from the start.
    pub fn seek_start(&mut self, offset: usize)
        ensures
            final(self).bytes() == old(self).bytes(),
            final(self).cursor() == offset,
    {
        self.pos = offset;
    }

    /// Moves the position to `offset` bytes past the end and returns it. A
    /// position that no `usize` holds is `IoError`, and nothing moves.
    pub fn seek_end(&mut self, offset: usize) -> (r: Result<usize, SfsErrorKind>)
        ensures
            final(self).bytes() == old(self).bytes(),
            match r {
                Ok(at) => {
                    &&& at == old(self).bytes().len() + offset
                    &&& final(self).cursor() == at
                },
                Err(e) => {
                    &&& e == SfsErrorKind::IoError
                    &&& old(self).bytes().len() + offset > usize::MAX
                    &&& final(self).cursor() == old(self).cursor()
                },
            },
    {
        match self.data.len().checked_add(offset) {
            Some(at) => {
                self.pos = at;
                Ok(at)
            },
            None => Err(SfsErrorKind::IoError),
        }
    }
}

impl ReadBlock for MemFile {
    open spec fn remaining(&self) -> Seq<u8> {
        rest_from(self.bytes(), self.cursor() as int)
    }

    open spec fn reliable(&self) -> bool {
        true
    }

    fn read_block(&mut self) -> (r: Result<Result<u128, (u128, usize)>, SfsErrorKind>)
        ensures
            r matches Ok(inner) && (inner is Ok <==> old(self).remaining().len() >= 16),
            final(self).bytes() == old(self).bytes(),
            final(self).bytes().len() <= usize::MAX,
            final(self).cursor() == old(self).cursor() + next_chunk(old(self).remaining()).len(),
    {
        let len = self.data.len();
        let (block, count) = take_block(self.data.as_slice(), self.pos);
        proof {
            assert(self.pos + count <= len || count == 0);
            assert(rest_from(self.data@, self.pos + count) =~= rest_from(
                self.data@,
                self.pos as int,
            ).skip(count as int));
        }
        self.pos = self.pos + count;
        if count == BLOCK_SIZE {
            Ok(Ok(block))
        } else {
            Ok(Err((block, count)))
        }
    }

    fn read_block_exact(&mut self) -> (r: Result<u128, SfsErrorKind>)
        ensures
            r is Ok <==> old(self).remaining().len() >= 16,
            final(self).bytes() == old(self).bytes(),
            final(self).bytes().len() <= usize::MAX,
            final(self).cursor() == old(self).cursor() + next_chunk(old(self).remaining()).len(),
    {
        match self.read_block() {
            Ok(Ok(block)) => Ok(block),
            Ok(Err(_)) => Err(SfsErrorKind::CorruptedFile),
            Err(e) => Err(e),
        }
    }
}

impl WriteBlock for MemFile {
    /// Writes the block at the position and moves the position past it.
    /// The block replaces what the file holds there and grows the file
    /// where it reaches past the end; a position past the end leaves zeros
    /// between the end and the block. A position so far out that the next
    /// one cannot be held is `IoError`, and nothing is written.
    fn write_block(&mut self, block: u128) -> (r: Result<(), SfsErrorKind>)
        ensures
            match r {
                Ok(()) => {
                    &&& old(self).cursor() + 16 <= usize::MAX
                    &&& final(self).bytes() == overwrite(
                        old(self).bytes(),
                        old(self).cursor(),
                        block_bytes(block),
                    )
                    &&& final(self).cursor() == old(self).cursor() + 16
                    &&& final(self).bytes().len() <= usize::MAX
                },
                Err(e) => {
                    &&& e == SfsErrorKind::IoError
                    &&& old(self).cursor() + 16 > usize::MAX
                    &&& final(self).bytes() == old(self).bytes()
                    &&& final(self).cursor() == old(self).cursor()
                },
            },
    {
        if self.pos > usize::MAX - BLOCK_SIZE {
            return Err(SfsErrorKind::IoError);
        }
        let ghost before = self.data@;
        while self.data.len() < self.pos
            invariant
                self.pos == old(self).pos,
                self.data@.len() <= self.pos || self.data@ == before,
                self.data@.len() >= before.len(),
                self.data@ == before + zeros((self.data@.len() - before.len()) as nat),
            decreases self.pos - self.data@.len(),
        {
            self.data.push(0u8);
            proof {
                assert(self.data@ =~= before + zeros((self.data@.len() - before.len()) as nat));
            }
        }
        let ghost filled = self.data@;
        let bytes = u128_to_le_bytes(block);
        let mut i: usize = 0;
        while i < BLOCK_SIZE
            invariant
                i <= BLOCK_SIZE,
                self.pos == old(self).pos,
                self.pos + 16 <= usize::MAX,
                self.pos <= filled.len(),
                bytes@ == block_bytes(block),
                bytes@.len() == 16,
                self.data@.len() == if filled.len() >= self.pos + i {
                    filled.len()
                } else {
                    (self.pos + i) as nat
                },
                forall|j: int| 0 <= j < self.pos ==> self.data@[j] == filled[j],
                forall|j: int| self.pos <= j < self.pos + i ==> self.data@[j] == bytes@[j - self.pos],
                forall|j: int| self.pos + i <= j < filled.len() ==> self.data@[j] == filled[j],
            decreases BLOCK_SIZE - i,
        {
            if self.pos + i < self.data.len() {
                self.data.set(self.pos + i, bytes[i]);
            } else {
                self.data.push(bytes[i]);
            }
            i += 1;
        }
        proof {
            assert(filled =~= if old(self).pos > before.len() {
                before + zeros((old(self).pos - before.len()) as nat)
            } else {
                before
            });
            assert(self.data@ =~= overwrite(before, old(self).pos as nat, block_bytes(block)));
        }
        self.pos = self.pos + BLOCK_SIZE;
        Ok(())
    }
}

} // verus!
