//! The container: an image of the file and the cipher that reads it.

use vstd::prelude::*;
use vstd::string::StringSliceAdditionalSpecFns;
use crate::block::{
    block_bytes, first_bytes, lemma_block_bytes_of_block, lemma_block_of_block_bytes, put_block,
    same_bytes, zeros, BLOCK_SIZE,
};
use crate::cipher::{
    aes192_decrypt, aes192_encrypt, aes192_inverse, derived_key, password_bytes, wipe_string,
    Cipher, KEY_COST, KEY_SIZE, MAX_PASSWORD_BYTES,
};
use crate::codec::{
    append_outcome, appended, blocks_of, chain, chained, checksum, chunk_count, emitted_at,
    encode, end_at, fits, flatten, lemma_block_at, lemma_blocks_of_append,
    lemma_blocks_of_flatten, lemma_emitted_when_sound, lemma_flatten_push, lemma_payload_grows,
    lemma_plain_bytes_len, lemma_staged_seal, lemma_staged_write, length_at, payload_at,
    plain_bytes, plain_sum, sound_at, staged,
};
use crate::directory::{
    find_from, find_outcome, holds, list_outcome, listed_from, read_outcome, write_outcome,
    FIRST_ENTRY, LINE_END,
};
use crate::laws::{law_header_alone_holds, law_write_keeps_container};
use crate::memory::{ByteSource, MemFile};
use crate::types::{ReadBlock, SfsErrorKind, WriteBlock, INTEGRITY_BLOCK};

verus! {

/// How opening a file that holds `bytes` with `password` ends: with the key
/// of the container, with `CorruptedFile` where the file is too short for
/// the two blocks of the header, or with `IncorrectPassword` where the
/// second block does not decrypt to the integrity constant under the key
/// that the password gives with the salt in the first.
pub open spec fn open_outcome(bytes: Seq<u8>, password: Seq<char>) -> Result<Seq<u8>, SfsErrorKind> {
    if bytes.len() < 32 {
        Err(SfsErrorKind::CorruptedFile)
    } else {
        let key = derived_key(KEY_COST, blocks_of(bytes)[0], password);
        if aes192_decrypt(key, blocks_of(bytes)[1]) == INTEGRITY_BLOCK {
            Ok(key)
        } else {
            Err(SfsErrorKind::IncorrectPassword)
        }
    }
}

/// An open container.
pub struct SfsFile {
    file: MemFile,
    cipher: Cipher,
}

impl SfsFile {
    /// The bytes of the container's file.
    pub closed spec fn bytes(&self) -> Seq<u8> {
        self.file.bytes()
    }

    /// The key of the container's cipher.
    pub closed spec fn key(&self) -> Seq<u8> {
        self.cipher.key()
    }

    /// The whole blocks of the container's file.
    pub open spec fn blocks(&self) -> Seq<u128> {
        blocks_of(self.bytes())
    }

    /// Whether the file is made of whole blocks.
    pub open spec fn aligned(&self) -> bool {
        self.bytes().len() % 16 == 0
    }

    /// The container is well formed: its cipher is, and its file is no
    /// larger than memory.
    pub open spec fn wf(&self) -> bool {
        &&& self.key().len() == KEY_SIZE
        &&& aes192_inverse(self.key())
        &&& self.bytes().len() <= usize::MAX
    }

    /// Whether the container's file is the header and exactly the given
    /// entries, each an identifier with its payload, in the order in which
    /// they were written.
    pub open spec fn holds(&self, entries: Seq<(Seq<u8>, Seq<u8>)>) -> bool {
        holds(self.key(), self.bytes(), entries)
    }

    /// Whether the container is one that `create` has just made for
    /// `password`: its file is the header alone, the salt and the encrypted
    /// integrity constant, and its key is the one that the password gives
    /// with that salt.
    pub open spec fn fresh(&self, password: Seq<char>) -> bool {
        &&& self.bytes().len() == 32
        &&& self.key() == derived_key(KEY_COST, self.blocks()[0], password)
        &&& self.blocks()[1] == aes192_encrypt(self.key(), INTEGRITY_BLOCK)
    }

    /// Whether `grown` is the file of this container after an entry named
    /// `id` with the given payload has been written to it: the file as it
    /// is, then the encoded sequence of the name, then that of the payload.
    /// The container is then made of whole blocks before and after, and
    /// where it held a run of entries before it holds that run and the new
    /// entry now.
    pub open spec fn wrote(&self, id: Seq<u8>, payload: Seq<u8>, grown: Seq<u8>) -> bool {
        &&& self.aligned()
        &&& grown.len() % 16 == 0
        &&& fits(id)
        &&& fits(payload)
        &&& find_outcome(self.key(), self.bytes(), id) == Ok::<Option<int>, SfsErrorKind>(None)
        &&& grown == self.bytes() + flatten(encode(self.key(), id)) + flatten(
            encode(self.key(), payload),
        )
        &&& blocks_of(grown) == self.blocks() + encode(self.key(), id) + encode(
            self.key(),
            payload,
        )
        &&& forall|entries: Seq<(Seq<u8>, Seq<u8>)>| #[trigger]
            self.holds(entries) ==> holds(self.key(), grown, entries.push((id, payload)))
    }

    /// Opens the container that is stored, or makes a new one where none is.
    ///
    /// `stored` is what came of reading the container's file: its bytes, or
    /// the failure. `CantOpenFile` means that there is no file to open, and
    /// a new container is made. Any other failure is handed back, and so is
    /// every failure of opening the bytes.
    pub fn open_or_create(stored: Result<Vec<u8>, SfsErrorKind>, password: &mut String) -> (r:
        Result<Self, SfsErrorKind>)
        requires
            password_bytes(old(password)@).len() <= MAX_PASSWORD_BYTES + 1,
        ensures
            final(password)@.len() == 0,
            match stored {
                Ok(bytes) => match r {
                    Ok(file) => {
                        &&& file.wf()
                        &&& file.bytes() == bytes@
                        &&& open_outcome(bytes@, old(password)@) == Ok::<Seq<u8>, SfsErrorKind>(
                            file.key(),
                        )
                    },
                    Err(e) => open_outcome(bytes@, old(password)@) == Err::<Seq<u8>, SfsErrorKind>(
                        e,
                    ),
                },
                Err(SfsErrorKind::CantOpenFile) => {
                    &&& r matches Ok(file)
                    &&& file.wf()
                    &&& file.fresh(old(password)@)
                    &&& file.holds(Seq::empty())
                },
                Err(e) => r matches Err(f) && f == e,
            },
    {
        match stored {
            Ok(bytes) => Self::open(bytes, password),
            Err(SfsErrorKind::CantOpenFile) => Self::create(password),
            Err(e) => {
                wipe_string(password);
                Err(e)
            },
        }
    }

    /// Makes a new container for `password`, with a salt of its own and no
    /// entries.
    pub fn create(password: &mut String) -> (r: Result<Self, SfsErrorKind>)
        requires
            password_bytes(old(password)@).len() <= MAX_PASSWORD_BYTES + 1,
        ensures
            final(password)@.len() == 0,
            r matches Ok(file) && file.wf() && file.fresh(old(password)@) && file.holds(
                Seq::empty(),
            ),
    {
        let mut file = MemFile::from_bytes(Vec::new());
        let (cipher, salt) = Cipher::new(password);
        let integrity = cipher.encrypt(INTEGRITY_BLOCK);
        proof {
            lemma_staged_write(Seq::empty(), Seq::empty(), salt);
        }
        match file.write_block(salt) {
            Ok(()) => {},
            Err(e) => {
                return Err(e);
            },
        }
        match file.write_block(integrity) {
            Ok(()) => {},
            Err(e) => {
                return Err(e);
            },
        }
        proof {
            let header = seq![salt, integrity];
            lemma_flatten_push(Seq::empty(), salt);
            lemma_flatten_push(seq![salt], integrity);
            lemma_block_of_block_bytes(salt);
            lemma_block_of_block_bytes(integrity);
            assert(Seq::<u128>::empty().push(salt) =~= seq![salt]);
            assert(seq![salt].push(integrity) =~= header);
            assert(flatten(Seq::<u128>::empty()) =~= Seq::<u8>::empty());
            assert(file.bytes() =~= flatten(header));
            lemma_blocks_of_flatten(header);
            law_header_alone_holds(cipher.key(), file.bytes());
        }
        Ok(SfsFile { file, cipher })
    }

    /// Opens the container whose file holds `stored`.
    ///
    /// The key is derived from the password and the salt in the first
    /// block. A file too short for the two blocks of the header is
    /// `CorruptedFile`; a second block that does not decrypt to the
    /// integrity constant is `IncorrectPassword`. The entries are not looked
    /// at. The password is wiped from memory on every way out: the string
    /// is empty afterwards.
    pub fn open(stored: Vec<u8>, password: &mut String) -> (r: Result<Self, SfsErrorKind>)
        requires
            password_bytes(old(password)@).len() <= MAX_PASSWORD_BYTES + 1,
        ensures
            final(password)@.len() == 0,
            match r {
                Ok(file) => {
                    &&& file.wf()
                    &&& file.bytes() == stored@
                    &&& open_outcome(stored@, old(password)@) == Ok::<Seq<u8>, SfsErrorKind>(
                        file.key(),
                    )
                },
                Err(e) => open_outcome(stored@, old(password)@) == Err::<Seq<u8>, SfsErrorKind>(e),
            },
    {
        let mut file = MemFile::from_bytes(stored);
        proof {
            lemma_block_at(file.bytes(), 0);
            lemma_block_at(file.bytes(), 1);
        }
        let salt = match file.read_block_exact() {
            Ok(block) => block,
            Err(_) => {
                wipe_string(password);
                return Err(SfsErrorKind::CorruptedFile);
            },
        };
        let integrity = match file.read_block_exact() {
            Ok(block) => block,
            Err(_) => {
                wipe_string(password);
                return Err(SfsErrorKind::CorruptedFile);
            },
        };
        let cipher = Cipher::with_salt(salt, password);
        if cipher.decrypt(integrity) != INTEGRITY_BLOCK {
            return Err(SfsErrorKind::IncorrectPassword);
        }
        Ok(SfsFile { file, cipher })
    }

    /// The bytes of the container's file, to be stored.
    pub fn as_bytes(&self) -> (r: &Vec<u8>)
        ensures
            r@ == self.bytes(),
    {
        self.file.as_bytes()
    }

    /// Gives up the container for the bytes of its file.
    pub fn into_bytes(self) -> (r: Vec<u8>)
        ensures
            r@ == self.bytes(),
    {
        self.file.into_bytes()
    }

    /// The number of blocks in the file. A size that is no multiple of 16
    /// is `CorruptedFile`.
    fn num_blocks(&mut self) -> (r: Result<usize, SfsErrorKind>)
        ensures
            final(self).bytes() == old(self).bytes(),
            final(self).key() == old(self).key(),
            match r {
                Ok(count) => old(self).aligned() && count == old(self).blocks().len(),
                Err(e) => e == SfsErrorKind::CorruptedFile && !old(self).aligned(),
            },
    {
        let size = self.file.size();
        if size % BLOCK_SIZE != 0 {
            Err(SfsErrorKind::CorruptedFile)
        } else {
            Ok(size / BLOCK_SIZE)
        }
    }

    /// The number of blocks that hold `length` bytes.
    fn blocks_for(length: u128) -> (r: u128)
        ensures
            r == chunk_count(length as nat),
    {
        if length % 16 == 0 {
            length / 16
        } else {
            length / 16 + 1
        }
    }

    /// Reads the header at block `loc` and returns the length that it
    /// announces. A file that ends before the header does is `CorruptedFile`.
    fn read_head(&mut self, loc: usize) -> (r: Result<u128, SfsErrorKind>)
        requires
            old(self).wf(),
        ensures
            final(self).bytes() == old(self).bytes(),
            final(self).key() == old(self).key(),
            match r {
                Ok(length) => {
                    &&& loc < old(self).blocks().len()
                    &&& length == length_at(old(self).key(), old(self).blocks(), loc as int)
                    &&& final(self).file.cursor() == 16 * (loc + 1)
                },
                Err(e) => e == SfsErrorKind::CorruptedFile && loc >= old(self).blocks().len(),
            },
    {
        match loc.checked_mul(BLOCK_SIZE) {
            None => Err(SfsErrorKind::CorruptedFile),
            Some(offset) => {
                self.file.seek_start(offset);
                proof {
                    lemma_block_at(self.file.bytes(), loc as int);
                }
                match self.file.read_block_exact() {
                    Ok(block) => Ok(self.cipher.decrypt(block)),
                    Err(_) => Err(SfsErrorKind::CorruptedFile),
                }
            },
        }
    }

    /// Reads the next block of the file, which is block `at`. The file
    /// ending before the block does is `CorruptedFile`.
    fn next_block(&mut self, Ghost(at): Ghost<int>) -> (r: Result<u128, SfsErrorKind>)
        requires
            0 <= at,
            old(self).file.cursor() == 16 * at,
        ensures
            final(self).bytes() == old(self).bytes(),
            final(self).key() == old(self).key(),
            match r {
                Ok(block) => {
                    &&& at < old(self).blocks().len()
                    &&& 16 * (at + 1) <= usize::MAX
                    &&& block == old(self).blocks()[at]
                    &&& final(self).file.cursor() == 16 * (at + 1)
                },
                Err(e) => e == SfsErrorKind::CorruptedFile && at >= old(self).blocks().len(),
            },
    {
        proof {
            lemma_block_at(self.file.bytes(), at);
        }
        match self.file.read_block_exact() {
            Ok(block) => Ok(block),
            Err(_) => Err(SfsErrorKind::CorruptedFile),
        }
    }

    /// Decodes the sequence at block `loc`, appends its payload to `dest`,
    /// and returns the index of the block after the sequence.
    ///
    /// Each block is appended as soon as it is recovered, and the checksum is
    /// tested last: where the sequence is not sound the result is
    /// `CorruptedFile`, and `dest` has received what was recovered before
    /// the fault showed.
    fn read_data(&mut self, dest: &mut Vec<u8>, loc: usize) -> (r: Result<usize, SfsErrorKind>)
        requires
            old(self).wf(),
        ensures
            final(self).bytes() == old(self).bytes(),
            final(self).key() == old(self).key(),
            final(dest)@ == old(dest)@ + emitted_at(
                old(self).key(),
                old(self).blocks(),
                loc as int,
            ),
            match r {
                Ok(next) => {
                    &&& sound_at(old(self).key(), old(self).blocks(), loc as int)
                    &&& next == end_at(old(self).key(), old(self).blocks(), loc as int)
                },
                Err(e) => {
                    &&& e == SfsErrorKind::CorruptedFile
                    &&& !sound_at(old(self).key(), old(self).blocks(), loc as int)
                },
            },
    {
        let ghost key = self.key();
        let ghost file = self.blocks();
        let ghost at = loc as int;
        let length = match self.read_head(loc) {
            Ok(length) => length,
            Err(e) => {
                proof {
                    assert(dest@ =~= old(dest)@ + emitted_at(key, file, at));
                }
                return Err(e);
            },
        };
        let full: u128 = length / 16;
        let remainder: usize = (length % 16) as usize;
        let mut done: usize = 0;
        let mut prev: u128 = 0;
        let mut integrity: u128 = 0;
        proof {
            assert(dest@ =~= old(dest)@ + plain_bytes(key, file, at, 0));
        }
        while (done as u128) < full
            invariant
                self.wf(),
                self.bytes() == old(self).bytes(),
                self.key() == key,
                key == old(self).key(),
                file == blocks_of(self.bytes()),
                at == loc,
                at < file.len(),
                length == length_at(key, file, at),
                full == length / 16,
                done <= full,
                at + 1 + done <= file.len(),
                self.file.cursor() == 16 * (at + 1 + done),
                prev == (if done == 0 {
                    0
                } else {
                    file[at + done]
                }),
                integrity == plain_sum(key, file, at, done as int),
                dest@ == old(dest)@ + plain_bytes(key, file, at, done as int),
            decreases full - done,
        {
            let block = match self.next_block(Ghost(at + 1 + done)) {
                Ok(block) => block,
                Err(e) => {
                    proof {
                        lemma_plain_bytes_len(key, file, at, done as int);
                    }
                    return Err(e);
                },
            };
            let plain = self.cipher.decrypt(block) ^ prev;
            integrity = integrity ^ plain;
            prev = block;
            put_block(dest, plain, BLOCK_SIZE);
            proof {
                assert(block_bytes(plain).take(16) =~= block_bytes(plain)) by {
                    lemma_block_of_block_bytes(plain);
                }
                assert(dest@ =~= old(dest)@ + plain_bytes(key, file, at, done + 1));
            }
            done = done + 1;
        }
        let mut count: usize = done;
        if remainder > 0 {
            let block = match self.next_block(Ghost(at + 1 + done)) {
                Ok(block) => block,
                Err(e) => {
                    proof {
                        lemma_plain_bytes_len(key, file, at, done as int);
                    }
                    return Err(e);
                },
            };
            let plain = self.cipher.decrypt(block) ^ prev;
            integrity = integrity ^ plain;
            put_block(dest, plain, remainder);
            count = done + 1;
            proof {
                lemma_plain_bytes_len(key, file, at, done as int);
                lemma_plain_bytes_len(key, file, at, done + 1);
                lemma_block_of_block_bytes(plain);
                assert(dest@ =~= old(dest)@ + plain_bytes(key, file, at, done + 1).take(
                    length as int,
                ));
            }
        } else {
            proof {
                lemma_plain_bytes_len(key, file, at, done as int);
                assert(plain_bytes(key, file, at, done as int).take(length as int)
                    =~= plain_bytes(key, file, at, done as int));
            }
        }
        let check = match self.next_block(Ghost(at + 1 + count)) {
            Ok(block) => block,
            Err(e) => {
                proof {
                    lemma_plain_bytes_len(key, file, at, count as int);
                }
                return Err(e);
            },
        };
        proof {
            lemma_plain_bytes_len(key, file, at, count as int);
        }
        if integrity != self.cipher.decrypt(check) {
            return Err(SfsErrorKind::CorruptedFile);
        }
        Ok(loc + 2 + count)
    }

    /// Encodes the bytes that `data` delivers and appends the sequence to
    /// the file.
    ///
    /// The length is known only when `data` has run out, so the slot of the
    /// header is passed over first and filled in last. Where `data` or the
    /// file fails on the way, the blocks written so far stay behind. The
    /// bytes behind the end of a short last block are taken for zero,
    /// whatever `data` says they are.
    fn write_data<R: ReadBlock>(&mut self, data: &mut R) -> (r: Result<(), SfsErrorKind>)
        requires
            old(self).wf(),
        ensures
            final(self).wf(),
            final(self).key() == old(self).key(),
            old(self).bytes().is_prefix_of(final(self).bytes()),
            r is Ok ==> exists|payload: Seq<u8>|
                {
                    &&& #[trigger] appended(
                        old(self).key(),
                        old(self).bytes(),
                        payload,
                        final(self).bytes(),
                    )
                    &&& old(data).reliable() ==> payload == old(data).remaining()
                },
            old(data).reliable() ==> {
                &&& r == append_outcome(old(self).bytes().len(), old(data).remaining().len())
                &&& final(data).reliable()
                &&& r is Ok ==> final(data).remaining().len() == 0
            },
            old(self).bytes().len() + 16 > usize::MAX || !old(self).aligned() ==> {
                &&& r == append_outcome(old(self).bytes().len(), 0)
                &&& final(self).bytes() == old(self).bytes()
            },
    {
        let ghost key = self.key();
        let ghost base = self.bytes();
        let ghost source = data.remaining();
        let past = match self.file.seek_end(BLOCK_SIZE) {
            Ok(past) => past,
            Err(e) => {
                return Err(e);
            },
        };
        let start = past - BLOCK_SIZE;
        if start % BLOCK_SIZE != 0 {
            return Err(SfsErrorKind::CorruptedFile);
        }
        let mut prev: u128 = 0;
        let mut integrity: u128 = 0;
        let mut length: usize = 0;
        let ghost mut written: int = 0;
        let ghost mut seen: Seq<u8> = Seq::empty();
        proof {
            assert(seen + source =~= source);
        }
        loop
            invariant_except_break
                seen.len() == 16 * written,
                old(data).reliable() ==> seen + data.remaining() == source,
            invariant
                self.wf(),
                self.key() == key,
                key == old(self).key(),
                base == old(self).bytes(),
                source == old(data).remaining(),
                old(data).reliable() ==> data.reliable(),
                start == base.len(),
                base.len() % 16 == 0,
                base.len() + 16 <= usize::MAX,
                0 <= written,
                written <= chunk_count(seen.len()),
                old(data).reliable() ==> chunk_count(seen.len()) <= chunk_count(source.len()),
                length == seen.len(),
                self.bytes() == staged(base, chain(key, seen, written as nat)),
                self.file.cursor() == base.len() + 16 + 16 * written,
                prev == chained(key, seen, written - 1),
                integrity == checksum(seen, written),
            ensures
                written == chunk_count(seen.len()),
                old(data).reliable() ==> seen == source && data.remaining().len() == 0,
            decreases usize::MAX - self.file.cursor(),
        {
            let ghost body = chain(key, seen, written as nat);
            let ghost rest = data.remaining();
            proof {
                assert(base.is_prefix_of(staged(base, body)));
            }
            match data.read_block() {
                Err(e) => {
                    return Err(e);
                },
                Ok(Ok(block)) => {
                    let ghost more = block_bytes(block);
                    proof {
                        lemma_block_of_block_bytes(block);
                        lemma_payload_grows(key, seen, more);
                        if old(data).reliable() {
                            lemma_block_bytes_of_block(rest.take(16));
                            assert(rest.take(16) + zeros(0) =~= rest.take(16));
                            assert((seen + more) + data.remaining() =~= seen + rest);
                        }
                    }
                    prev = self.cipher.encrypt(block ^ prev);
                    integrity = integrity ^ block;
                    proof {
                        lemma_staged_write(base, body, prev);
                    }
                    match self.file.write_block(prev) {
                        Ok(()) => {},
                        Err(e) => {
                            return Err(e);
                        },
                    }
                    length = length + BLOCK_SIZE;
                    proof {
                        seen = seen + more;
                        written = written + 1;
                    }
                },
                Ok(Err((block, len))) => {
                    if len > 0 {
                        let last = first_bytes(block, len);
                        let ghost more = block_bytes(block).take(len as int);
                        proof {
                            lemma_block_of_block_bytes(block);
                            lemma_payload_grows(key, seen, more);
                            if old(data).reliable() {
                                lemma_block_bytes_of_block(rest);
                                assert(seen + more =~= source);
                            }
                        }
                        prev = self.cipher.encrypt(last ^ prev);
                        integrity = integrity ^ last;
                        proof {
                            lemma_staged_write(base, body, prev);
                        }
                        match self.file.write_block(prev) {
                            Ok(()) => {},
                            Err(e) => {
                                return Err(e);
                            },
                        }
                        length = length + len;
                        proof {
                            seen = seen + more;
                            written = written + 1;
                        }
                    } else {
                        proof {
                            if old(data).reliable() {
                                assert(seen =~= source);
                            }
                        }
                    }
                    break ;
                },
            }
        }
        let ghost body = chain(key, seen, written as nat);
        let sealed = self.cipher.encrypt(integrity);
        proof {
            lemma_staged_write(base, body, sealed);
            assert(base.is_prefix_of(staged(base, body)));
        }
        match self.file.write_block(sealed) {
            Ok(()) => {},
            Err(e) => {
                return Err(e);
            },
        }
        self.file.seek_start(start);
        let header = self.cipher.encrypt(length as u128);
        proof {
            lemma_staged_seal(base, body.push(sealed), header);
            assert(seq![header] + body.push(sealed) =~= encode(key, seen));
            assert(base.is_prefix_of(base + flatten(encode(key, seen))));
        }
        match self.file.write_block(header) {
            Ok(()) => {
                proof {
                    assert(appended(key, base, seen, self.bytes()));
                }
                Ok(())
            },
            Err(e) => Err(e),
        }
    }

    /// Searches the entries for `id`, from the first entry to the end of
    /// the file, and returns the index of the block at which the payload of
    /// the first entry of that name begins, or nothing.
    ///
    /// Each identifier is decoded and compared byte for byte. Payloads are
    /// not decoded: each is passed over by the length in its header.
    fn find(&mut self, id: &str) -> (r: Result<Option<usize>, SfsErrorKind>)
        requires
            old(self).wf(),
        ensures
            final(self).bytes() == old(self).bytes(),
            final(self).key() == old(self).key(),
            match r {
                Ok(Some(value)) => find_outcome(old(self).key(), old(self).bytes(), id.spec_bytes())
                    == Ok::<Option<int>, SfsErrorKind>(Some(value as int)),
                Ok(None) => find_outcome(old(self).key(), old(self).bytes(), id.spec_bytes())
                    == Ok::<Option<int>, SfsErrorKind>(None),
                Err(e) => find_outcome(old(self).key(), old(self).bytes(), id.spec_bytes())
                    == Err::<Option<int>, SfsErrorKind>(e),
            },
    {
        let ghost key = self.key();
        let ghost file = self.blocks();
        let num_blocks = match self.num_blocks() {
            Ok(count) => count,
            Err(e) => {
                return Err(e);
            },
        };
        let name = id.as_bytes();
        let mut buffer: Vec<u8> = Vec::new();
        let mut loc: usize = FIRST_ENTRY;
        while loc < num_blocks
            invariant
                self.wf(),
                self.bytes() == old(self).bytes(),
                self.bytes().len() % 16 == 0,
                self.key() == key,
                key == old(self).key(),
                file == blocks_of(self.bytes()),
                num_blocks == file.len(),
                buffer@.len() == 0,
                name@ == id.spec_bytes(),
                find_from(key, file, name@, loc as int) == find_from(
                    key,
                    file,
                    name@,
                    FIRST_ENTRY as int,
                ),
            decreases num_blocks - loc,
        {
            let value = match self.read_data(&mut buffer, loc) {
                Ok(value) => value,
                Err(e) => {
                    return Err(e);
                },
            };
            proof {
                lemma_emitted_when_sound(key, file, loc as int);
                assert(buffer@ =~= payload_at(key, file, loc as int));
            }
            if same_bytes(buffer.as_slice(), name) {
                return Ok(Some(value));
            }
            buffer.clear();
            let length = match self.read_head(value) {
                Ok(length) => length,
                Err(e) => {
                    return Err(e);
                },
            };
            let count = Self::blocks_for(length);
            let room = num_blocks - value;
            if room < 2 || count >= (room - 2) as u128 {
                proof {
                    let next = end_at(key, file, value as int);
                    assert(find_from(key, file, name@, next) == Ok::<Option<int>, SfsErrorKind>(
                        None,
                    ));
                }
                return Ok(None);
            }
            loc = value + 2 + count as usize;
        }
        Ok(None)
    }

    /// Adds an entry that binds `id` to the bytes that `data` delivers.
    ///
    /// An identifier that an entry has already is `AlreadyPresent`, and the
    /// file stays as it is. Otherwise the identifier and the payload are
    /// appended as two encoded sequences. Where appending fails on the way,
    /// what was written stays behind at the end of the file.
    ///
    /// For a reliable stream the outcome is `write_outcome` and the payload
    /// is what the stream had to deliver. For any other stream the write may
    /// fail where the stream does; where it succeeds, the payload is what
    /// the stream delivered.
    pub fn write<R: ReadBlock>(&mut self, id: &str, data: R) -> (r: Result<(), SfsErrorKind>)
        requires
            old(self).wf(),
        ensures
            final(self).wf(),
            final(self).key() == old(self).key(),
            old(self).bytes().is_prefix_of(final(self).bytes()),
            r is Ok ==> exists|payload: Seq<u8>|
                {
                    &&& #[trigger] old(self).wrote(id.spec_bytes(), payload, final(self).bytes())
                    &&& data.reliable() ==> payload == data.remaining()
                },
            !(find_outcome(old(self).key(), old(self).bytes(), id.spec_bytes()) matches Ok(None))
                ==> {
                &&& r == write_outcome(
                    old(self).key(),
                    old(self).bytes(),
                    id.spec_bytes(),
                    data.remaining().len(),
                )
                &&& final(self).bytes() == old(self).bytes()
            },
            data.reliable() ==> r == write_outcome(
                old(self).key(),
                old(self).bytes(),
                id.spec_bytes(),
                data.remaining().len(),
            ),
    {
        let ghost key = self.key();
        let ghost base = self.bytes();
        let ghost name = id.spec_bytes();
        match self.find(id) {
            Err(e) => {
                return Err(e);
            },
            Ok(Some(_)) => {
                return Err(SfsErrorKind::AlreadyPresent);
            },
            Ok(None) => {},
        }
        let mut name_source = ByteSource::new(id.as_bytes());
        match self.write_data(&mut name_source) {
            Ok(()) => {},
            Err(e) => {
                return Err(e);
            },
        }
        let ghost named = self.bytes();
        proof {
            lemma_blocks_of_append(base, encode(key, name));
            lemma_blocks_of_flatten(encode(key, name));
            assert(encode(key, name).len() == chunk_count(name.len()) + 2);
        }
        let ghost source = data.remaining();
        let ghost reliable = data.reliable();
        let mut data = data;
        match self.write_data(&mut data) {
            Ok(()) => {},
            Err(e) => {
                return Err(e);
            },
        }
        proof {
            let payload = choose|payload: Seq<u8>|
                {
                    &&& #[trigger] appended(key, named, payload, self.bytes())
                    &&& reliable ==> payload == source
                };
            lemma_blocks_of_append(named, encode(key, payload));
            assert forall|entries: Seq<(Seq<u8>, Seq<u8>)>| #[trigger]
                old(self).holds(entries) implies holds(
                key,
                self.bytes(),
                entries.push((name, payload)),
            ) by {
                law_write_keeps_container(key, base, entries, name, payload);
            }
            assert(old(self).wrote(name, payload, self.bytes()));
        }
        Ok(())
    }

    /// Appends the payload of the entry named `id` to `dest`.
    ///
    /// An identifier that no entry has is `NotPresent`. A payload that is
    /// not sound is `CorruptedFile`; the bytes recovered before the fault
    /// showed have then been appended all the same.
    pub fn read(&mut self, id: &str, dest: &mut Vec<u8>) -> (r: Result<(), SfsErrorKind>)
        requires
            old(self).wf(),
        ensures
            final(self).wf(),
            final(self).bytes() == old(self).bytes(),
            final(self).key() == old(self).key(),
            r == read_outcome(old(self).key(), old(self).bytes(), id.spec_bytes()).1,
            final(dest)@ == old(dest)@ + read_outcome(
                old(self).key(),
                old(self).bytes(),
                id.spec_bytes(),
            ).0,
            r is Ok ==> final(self).aligned(),
    {
        match self.find(id) {
            Err(e) => {
                proof {
                    assert(dest@ =~= old(dest)@ + Seq::<u8>::empty());
                }
                Err(e)
            },
            Ok(None) => {
                proof {
                    assert(dest@ =~= old(dest)@ + Seq::<u8>::empty());
                }
                Err(SfsErrorKind::NotPresent)
            },
            Ok(Some(value)) => {
                match self.read_data(dest, value) {
                    Ok(_) => Ok(()),
                    Err(e) => Err(e),
                }
            },
        }
    }

    /// Appends the identifiers of all entries to `dest`, in the order of
    /// the file, each followed by a line feed. Payloads are passed over by
    /// the length in their headers and not decoded.
    ///
    /// An identifier that is not sound, or one that no payload follows, ends
    /// the listing with `CorruptedFile`.
    pub fn list(&mut self, dest: &mut Vec<u8>) -> (r: Result<(), SfsErrorKind>)
        requires
            old(self).wf(),
        ensures
            final(self).wf(),
            final(self).bytes() == old(self).bytes(),
            final(self).key() == old(self).key(),
            r == list_outcome(old(self).key(), old(self).bytes()).1,
            final(dest)@ == old(dest)@ + list_outcome(old(self).key(), old(self).bytes()).0,
            r is Ok ==> final(self).aligned(),
    {
        let ghost key = self.key();
        let ghost file = self.blocks();
        let num_blocks = match self.num_blocks() {
            Ok(count) => count,
            Err(e) => {
                proof {
                    assert(dest@ =~= old(dest)@ + Seq::<u8>::empty());
                }
                return Err(e);
            },
        };
        let mut loc: usize = FIRST_ENTRY;
        let ghost mut listed: Seq<u8> = Seq::empty();
        proof {
            assert(dest@ =~= old(dest)@ + listed);
        }
        while loc < num_blocks && num_blocks - loc > 1
            invariant
                self.wf(),
                self.bytes() == old(self).bytes(),
                self.bytes().len() % 16 == 0,
                self.key() == key,
                key == old(self).key(),
                file == blocks_of(self.bytes()),
                num_blocks == file.len(),
                dest@ == old(dest)@ + listed,
                listed_from(key, file, FIRST_ENTRY as int).0 == listed + listed_from(
                    key,
                    file,
                    loc as int,
                ).0,
                listed_from(key, file, FIRST_ENTRY as int).1 == listed_from(key, file, loc as int).1,
            decreases num_blocks - loc,
        {
            let ghost name = emitted_at(key, file, loc as int);
            let ghost tail = listed_from(key, file, loc as int).0;
            let value = match self.read_data(dest, loc) {
                Ok(value) => value,
                Err(e) => {
                    proof {
                        assert(dest@ =~= old(dest)@ + (listed + tail));
                    }
                    return Err(e);
                },
            };
            proof {
                lemma_emitted_when_sound(key, file, loc as int);
            }
            let length = match self.read_head(value) {
                Ok(length) => length,
                Err(e) => {
                    proof {
                        assert(dest@ =~= old(dest)@ + (listed + tail));
                    }
                    return Err(e);
                },
            };
            let count = Self::blocks_for(length);
            let room = num_blocks - value;
            let ghost next = end_at(key, file, value as int);
            if room < 2 || count >= (room - 2) as u128 {
                loc = num_blocks;
            } else {
                loc = value + 2 + count as usize;
            }
            dest.push(LINE_END);
            proof {
                assert(listed_from(key, file, next) == listed_from(key, file, loc as int));
                assert(tail =~= name.push(LINE_END) + listed_from(key, file, loc as int).0);
                let grown = listed + name.push(LINE_END);
                assert(dest@ =~= old(dest)@ + grown);
                assert(listed + tail =~= grown + listed_from(key, file, loc as int).0);
                listed = grown;
            }
        }
        proof {
            assert(listed_from(key, file, loc as int).0 =~= Seq::<u8>::empty());
            assert(dest@ =~= old(dest)@ + (listed + Seq::<u8>::empty()));
        }
        Ok(())
    }
}

} // verus!
