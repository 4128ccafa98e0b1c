//! The failures that the container reports, and the two traits through
//! which it reads and writes blocks.

use vstd::prelude::*;
use crate::block::block_of;

verus! {

/// The constant whose encryption is the second block of every container.
/// Opening a container decrypts that block and compares it with this value.
pub const INTEGRITY_BLOCK: u128 = 0x6063CB8EB347CEC6B827FBF1B4197A7C;

/// What went wrong in an operation on a container.
#[derive(Debug, Clone, Copy, PartialEq, Eq, Structural)]
pub enum SfsErrorKind {
    /// The image breaks the layout: a size that is no multiple of 16, a
    /// block missing where one is due, or a checksum that does not match.
    CorruptedFile,
    /// The underlying stream failed.
    IoError,
    /// A block was written only in part.
    CantWrite,
    /// The container could not be opened.
    CantOpenFile,
    /// No entry has the identifier asked for.
    NotPresent,
    /// An entry with the identifier exists already.
    AlreadyPresent,
    /// The caller's request was malformed.
    BadUsage,
    /// The header does not decrypt to the integrity constant.
    IncorrectPassword,
}

impl SfsErrorKind {
    /// The text shown to the user for each kind, ending in a line break.
    /// For `BadUsage` it is the usage of the command line.
    pub open spec fn message_text(self) -> Seq<char> {
        match self {
            SfsErrorKind::CorruptedFile =>
                "The encrypted file is corrupted, it was likely tampered with by a bad actor.\n"@,
            SfsErrorKind::IoError => "An unexpected IO Error occurred.\n"@,
            SfsErrorKind::CantWrite =>
                "The output cannot be written to the requested buffer - it might be full.\n"@,
            SfsErrorKind::CantOpenFile => "Unable to open the requested file.\n"@,
            SfsErrorKind::NotPresent =>
                "The binding you are trying to read from is not present.\n"@,
            SfsErrorKind::AlreadyPresent =>
                "The binding you are trying to use already exists.\n"@,
            SfsErrorKind::BadUsage =>
                "+------------------------------------+\n| Chris's Secure File System Project |\n| CSC 321                            |\n+------------------------------------+\nUsage:\n  sfs -help\n    Display this help window\n  sfs -list [filename]\n    Lists the names of entries in the file\n  sfs -read [filename] [id]\n    Displays the entry mapped to id\n  sfs -write [filename] [id] [path]\n    Binds id to an encrypted copy of the file at path.\n  sfs -open [filename]\n    Opens a file for interactive usage.\n"@,
            SfsErrorKind::IncorrectPassword => "The password you entered was incorrect.\n"@,
        }
    }

    /// Returns the text of `message_text` as an owned string.
    pub fn message(&self) -> (text: String)
        ensures
            text@ == self.message_text(),
    {
        match self {
            SfsErrorKind::CorruptedFile =>
                "The encrypted file is corrupted, it was likely tampered with by a bad actor.\n".to_owned(),
            SfsErrorKind::IoError => "An unexpected IO Error occurred.\n".to_owned(),
            SfsErrorKind::CantWrite =>
                "The output cannot be written to the requested buffer - it might be full.\n".to_owned(),
            SfsErrorKind::CantOpenFile => "Unable to open the requested file.\n".to_owned(),
            SfsErrorKind::NotPresent =>
                "The binding you are trying to read from is not present.\n".to_owned(),
            SfsErrorKind::AlreadyPresent =>
                "The binding you are trying to use already exists.\n".to_owned(),
            SfsErrorKind::BadUsage =>
                "+------------------------------------+\n| Chris's Secure File System Project |\n| CSC 321                            |\n+------------------------------------+\nUsage:\n  sfs -help\n    Display this help window\n  sfs -list [filename]\n    Lists the names of entries in the file\n  sfs -read [filename] [id]\n    Displays the entry mapped to id\n  sfs -write [filename] [id] [path]\n    Binds id to an encrypted copy of the file at path.\n  sfs -open [filename]\n    Opens a file for interactive usage.\n".to_owned(),
            SfsErrorKind::IncorrectPassword => "The password you entered was incorrect.\n".to_owned(),
        }
    }
}

/// A stream of bytes that is read one block at a time.
///
/// A stream that the library holds in memory is `reliable`: reading it
/// cannot fail, and `remaining` says what it will deliver. Of any other
/// stream it is only known that a short block is shorter than 16 bytes.
pub trait ReadBlock {
    /// The bytes that a reliable stream has yet to deliver.
    open spec fn remaining(&self) -> Seq<u8> {
        Seq::empty()
    }

    /// Whether reading from the stream cannot fail and `remaining` tells
    /// what it delivers.
    open spec fn reliable(&self) -> bool {
        false
    }

    /// Reads up to 16 bytes. A full block comes back as `Ok(Ok(block))`. At
    /// the end of the stream the bytes that were left, fewer than 16 and
    /// possibly none, come back as `Ok(Err((block, len)))`: `len` is their
    /// number and `block` holds them, zero after them. A stream that is not
    /// reliable may fail instead.
    fn read_block(&mut self) -> (r: Result<Result<u128, (u128, usize)>, SfsErrorKind>)
        ensures
            r matches Ok(Err((_, len))) ==> len < 16,
            old(self).reliable() ==> final(self).reliable() && match r {
                Ok(Ok(block)) => {
                    &&& old(self).remaining().len() >= 16
                    &&& block == block_of(old(self).remaining().take(16))
                    &&& final(self).remaining() == old(self).remaining().skip(16)
                },
                Ok(Err((block, len))) => {
                    &&& len == old(self).remaining().len()
                    &&& block == block_of(old(self).remaining())
                    &&& final(self).remaining().len() == 0
                },
                Err(_) => false,
            },
    ;

    /// Reads one full block. Fewer than 16 bytes left is `CorruptedFile`:
    /// the stream was expected to hold whole blocks.
    fn read_block_exact(&mut self) -> (r: Result<u128, SfsErrorKind>)
        ensures
            old(self).reliable() ==> final(self).reliable() && match r {
                Ok(block) => {
                    &&& old(self).remaining().len() >= 16
                    &&& block == block_of(old(self).remaining().take(16))
                    &&& final(self).remaining() == old(self).remaining().skip(16)
                },
                Err(e) => {
                    &&& e == SfsErrorKind::CorruptedFile
                    &&& old(self).remaining().len() < 16
                    &&& final(self).remaining().len() == 0
                },
            },
    {
        match self.read_block() {
            Ok(Ok(block)) => Ok(block),
            Ok(Err(_)) => Err(SfsErrorKind::CorruptedFile),
            Err(e) => Err(e),
        }
    }
}

/// A stream of bytes that is written one block at a time.
pub trait WriteBlock {
    /// Writes the 16 bytes of `block` to the stream. A block written only
    /// in part is `CantWrite`, any other failure `IoError`.
    fn write_block(&mut self, block: u128) -> (r: Result<(), SfsErrorKind>)
        ensures
            r matches Err(e) ==> e == SfsErrorKind::CantWrite || e == SfsErrorKind::IoError,
    ;
}

} // verus!
