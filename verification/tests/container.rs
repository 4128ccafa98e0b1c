use sfs::cipher::Cipher;
use sfs::file::SfsFile;
use sfs::memory::ByteSource;
use sfs::types::{SfsErrorKind, INTEGRITY_BLOCK};

const PASSWORD: &str = "secret";

fn new_container() -> SfsFile {
    SfsFile::create(&mut String::from(PASSWORD)).unwrap()
}

fn reopen(bytes: Vec<u8>) -> SfsFile {
    SfsFile::open(bytes, &mut String::from(PASSWORD)).unwrap()
}

fn pattern(len: usize) -> Vec<u8> {
    (0..len).map(|i| (i * 7 + 3) as u8).collect()
}

/// The size in bytes of the encoded sequence of `len` bytes.
fn sequence_size(len: usize) -> usize {
    16 * ((len + 15) / 16 + 2)
}

fn read_all(file: &mut SfsFile, id: &str) -> Result<Vec<u8>, SfsErrorKind> {
    let mut out = Vec::new();
    file.read(id, &mut out).map(|_| out)
}

#[test]
fn write_then_read_returns_the_payload() {
    let mut file = new_container();
    let payload = b"Hello, this is a demo of the encrypted filesystem project.\n";
    assert_eq!(file.write("demo1", ByteSource::new(payload)), Ok(()));
    assert_eq!(read_all(&mut file, "demo1"), Ok(payload.to_vec()));
}

#[test]
fn payloads_of_every_length_near_block_boundaries_round_trip() {
    let mut file = new_container();
    let lengths = [0usize, 1, 15, 16, 17, 31, 32, 33, 47, 48, 49, 255, 256, 257, 4096];
    for len in lengths {
        let id = format!("entry-{}", len);
        file.write(&id, ByteSource::new(&pattern(len))).unwrap();
        assert_eq!(read_all(&mut file, &id), Ok(pattern(len)), "length {}", len);
    }
    for len in lengths {
        let id = format!("entry-{}", len);
        assert_eq!(read_all(&mut file, &id), Ok(pattern(len)), "length {}", len);
    }
}

#[test]
fn names_of_every_length_near_block_boundaries_round_trip() {
    let mut file = new_container();
    for len in [0usize, 1, 15, 16, 17, 32, 33] {
        let id = "n".repeat(len);
        file.write(&id, ByteSource::new(&pattern(len + 1))).unwrap();
    }
    for len in [0usize, 1, 15, 16, 17, 32, 33] {
        assert_eq!(read_all(&mut file, &"n".repeat(len)), Ok(pattern(len + 1)));
    }
    assert_eq!(read_all(&mut file, &"n".repeat(2)), Err(SfsErrorKind::NotPresent));
}

#[test]
fn a_reopened_container_reads_what_was_written() {
    let mut file = new_container();
    file.write("demo1", ByteSource::new(b"first payload")).unwrap();
    file.write("demo2", ByteSource::new(&pattern(100))).unwrap();
    let mut again = reopen(file.into_bytes());
    assert_eq!(read_all(&mut again, "demo2"), Ok(pattern(100)));
    assert_eq!(read_all(&mut again, "demo1"), Ok(b"first payload".to_vec()));
    again.write("demo3", ByteSource::new(b"third")).unwrap();
    assert_eq!(read_all(&mut again, "demo3"), Ok(b"third".to_vec()));
    assert_eq!(read_all(&mut again, "demo1"), Ok(b"first payload".to_vec()));
}

#[test]
fn the_wrong_password_is_rejected() {
    let mut file = new_container();
    file.write("demo1", ByteSource::new(b"payload")).unwrap();
    let wrong = SfsFile::open(file.into_bytes(), &mut String::from("Secret"));
    assert!(matches!(wrong, Err(SfsErrorKind::IncorrectPassword)));
}

#[test]
fn the_empty_password_is_rejected_where_another_was_set() {
    let empty = SfsFile::open(new_container().into_bytes(), &mut String::new());
    assert!(matches!(empty, Err(SfsErrorKind::IncorrectPassword)));
}

#[test]
fn a_changed_salt_makes_the_password_wrong() {
    let mut bytes = new_container().into_bytes();
    bytes[3] ^= 0x10;
    let opened = SfsFile::open(bytes, &mut String::from(PASSWORD));
    assert!(matches!(opened, Err(SfsErrorKind::IncorrectPassword)));
}

#[test]
fn a_changed_integrity_block_makes_the_password_wrong() {
    let mut bytes = new_container().into_bytes();
    bytes[31] ^= 0x80;
    let opened = SfsFile::open(bytes, &mut String::from(PASSWORD));
    assert!(matches!(opened, Err(SfsErrorKind::IncorrectPassword)));
}

fn two_entries() -> Vec<u8> {
    let mut file = new_container();
    file.write("demo1", ByteSource::new(b"Hello, this is a demo.\n")).unwrap();
    file.write("demo2", ByteSource::new(&pattern(100))).unwrap();
    file.into_bytes()
}

#[test]
fn a_flipped_bit_in_the_last_chained_block_is_detected() {
    let mut bytes = two_entries();
    let at = bytes.len() - 40;
    bytes[at] ^= 0b1;
    let mut file = reopen(bytes);
    assert_eq!(read_all(&mut file, "demo2"), Err(SfsErrorKind::CorruptedFile));
    assert_eq!(read_all(&mut file, "demo1"), Ok(b"Hello, this is a demo.\n".to_vec()));
}

#[test]
fn a_flipped_bit_in_the_checksum_is_detected() {
    let mut bytes = two_entries();
    let at = bytes.len() - 1;
    bytes[at] ^= 0x80;
    let mut file = reopen(bytes);
    let mut out = Vec::new();
    assert_eq!(file.read("demo2", &mut out), Err(SfsErrorKind::CorruptedFile));
    assert_eq!(out, pattern(100));
}

#[test]
fn a_flipped_bit_in_a_middle_chained_block_is_detected() {
    let mut bytes = two_entries();
    let payload_start = bytes.len() - sequence_size(100);
    bytes[payload_start + 16 + 16 * 3 + 5] ^= 0x04;
    let mut file = reopen(bytes);
    assert_eq!(read_all(&mut file, "demo2"), Err(SfsErrorKind::CorruptedFile));
}

#[test]
fn a_flipped_bit_in_a_name_is_detected() {
    let mut bytes = two_entries();
    let name_start = bytes.len() - sequence_size(100) - sequence_size(5);
    bytes[name_start + 16] ^= 0x01;
    let mut file = reopen(bytes);
    let mut out = Vec::new();
    assert_eq!(file.read("demo2", &mut out), Err(SfsErrorKind::CorruptedFile));
    assert!(out.is_empty());
    assert_eq!(read_all(&mut file, "demo1"), Ok(b"Hello, this is a demo.\n".to_vec()));
}

#[test]
fn a_flipped_bit_in_an_earlier_entry_stops_every_later_search() {
    let mut bytes = two_entries();
    bytes[32 + 16 + 2] ^= 0x40;
    let mut file = reopen(bytes);
    assert_eq!(read_all(&mut file, "demo1"), Err(SfsErrorKind::CorruptedFile));
    assert_eq!(read_all(&mut file, "demo2"), Err(SfsErrorKind::CorruptedFile));
    assert_eq!(
        file.write("demo3", ByteSource::new(b"x")),
        Err(SfsErrorKind::CorruptedFile)
    );
    let mut listing = Vec::new();
    assert_eq!(file.list(&mut listing), Err(SfsErrorKind::CorruptedFile));
}

#[test]
fn a_second_write_under_the_same_name_is_rejected() {
    let mut file = new_container();
    file.write("demo1", ByteSource::new(b"first version")).unwrap();
    let before = file.as_bytes().clone();
    assert_eq!(
        file.write("demo1", ByteSource::new(b"replacement")),
        Err(SfsErrorKind::AlreadyPresent)
    );
    assert_eq!(file.as_bytes(), &before);
    assert_eq!(read_all(&mut file, "demo1"), Ok(b"first version".to_vec()));
    file.write("demo2", ByteSource::new(b"other")).unwrap();
    assert_eq!(
        file.write("demo1", ByteSource::new(b"")),
        Err(SfsErrorKind::AlreadyPresent)
    );
    assert_eq!(read_all(&mut file, "demo1"), Ok(b"first version".to_vec()));
}

#[test]
fn reading_a_name_that_is_not_there_is_not_present() {
    let mut file = new_container();
    let mut out = vec![1u8, 2, 3];
    assert_eq!(file.read("demo1", &mut out), Err(SfsErrorKind::NotPresent));
    assert_eq!(out, vec![1, 2, 3]);
    file.write("demo1", ByteSource::new(b"payload")).unwrap();
    assert_eq!(file.read("demo", &mut out), Err(SfsErrorKind::NotPresent));
    assert_eq!(file.read("demo11", &mut out), Err(SfsErrorKind::NotPresent));
    assert_eq!(file.read("payload", &mut out), Err(SfsErrorKind::NotPresent));
    assert_eq!(out, vec![1, 2, 3]);
}

#[test]
fn read_appends_to_what_the_sink_holds() {
    let mut file = new_container();
    file.write("a", ByteSource::new(b"one")).unwrap();
    file.write("b", ByteSource::new(b"two")).unwrap();
    let mut out = b"> ".to_vec();
    file.read("b", &mut out).unwrap();
    file.read("a", &mut out).unwrap();
    assert_eq!(out, b"> twoone".to_vec());
}

#[test]
fn list_names_the_entries_in_the_order_of_writing() {
    let mut file = new_container();
    let mut listing = Vec::new();
    assert_eq!(file.list(&mut listing), Ok(()));
    assert!(listing.is_empty());
    file.write("demo1", ByteSource::new(b"PAYLOAD-ONE")).unwrap();
    file.write("copy", ByteSource::new(b"PAYLOAD-TWO")).unwrap();
    file.write("demo2", ByteSource::new(&[b'0'; 300])).unwrap();
    file.write("a name of more than sixteen bytes", ByteSource::new(b"")).unwrap();
    assert_eq!(file.list(&mut listing), Ok(()));
    assert_eq!(
        listing,
        b"demo1\ncopy\ndemo2\na name of more than sixteen bytes\n".to_vec()
    );
    let mut again = b"names:\n".to_vec();
    assert_eq!(file.list(&mut again), Ok(()));
    assert_eq!(
        again,
        b"names:\ndemo1\ncopy\ndemo2\na name of more than sixteen bytes\n".to_vec()
    );
}

#[test]
fn an_empty_payload_takes_a_header_and_a_checksum() {
    let mut file = new_container();
    file.write("empty", ByteSource::new(b"")).unwrap();
    assert_eq!(file.as_bytes().len(), 32 + sequence_size(5) + 32);
    assert_eq!(read_all(&mut file, "empty"), Ok(Vec::new()));
    let bytes = file.as_bytes().clone();
    let header = &bytes[bytes.len() - 32..bytes.len() - 16];
    let checksum = &bytes[bytes.len() - 16..];
    assert_eq!(header, checksum);
    file.write("next", ByteSource::new(b"after the empty one")).unwrap();
    assert_eq!(read_all(&mut file, "next"), Ok(b"after the empty one".to_vec()));
    assert_eq!(read_all(&mut file, "empty"), Ok(Vec::new()));
}

#[test]
fn the_file_is_always_made_of_whole_blocks() {
    let mut file = new_container();
    assert_eq!(file.as_bytes().len(), 32);
    let mut expected = 32;
    for (id, len) in [("a", 0usize), ("bb", 1), ("ccc", 16), ("a longer name, 33 bytes in there", 17), ("e", 1000)] {
        file.write(id, ByteSource::new(&pattern(len))).unwrap();
        expected += sequence_size(id.len()) + sequence_size(len);
        assert_eq!(file.as_bytes().len(), expected);
        assert_eq!(file.as_bytes().len() % 16, 0);
    }
    let _ = read_all(&mut file, "e");
    let _ = file.write("e", ByteSource::new(b"again"));
    let mut listing = Vec::new();
    file.list(&mut listing).unwrap();
    assert_eq!(file.as_bytes().len(), expected);
}

fn block_at(bytes: &[u8], index: usize) -> u128 {
    let mut block = [0u8; 16];
    block.copy_from_slice(&bytes[16 * index..16 * index + 16]);
    u128::from_le_bytes(block)
}

#[test]
fn the_file_has_the_documented_layout() {
    let mut file = new_container();
    let payload: Vec<u8> = (1u8..=40).collect();
    file.write("key", ByteSource::new(&payload)).unwrap();
    let bytes = file.into_bytes();
    assert_eq!(bytes.len(), 16 * (2 + 3 + 5));
    let salt = block_at(&bytes, 0);
    let cipher = Cipher::with_salt(salt, &mut String::from(PASSWORD));
    assert_eq!(block_at(&bytes, 1), cipher.encrypt(INTEGRITY_BLOCK));
    assert_eq!(cipher.decrypt(block_at(&bytes, 1)), 0x6063CB8EB347CEC6B827FBF1B4197A7C);

    let name = u128::from_le_bytes([b'k', b'e', b'y', 0, 0, 0, 0, 0, 0, 0, 0, 0, 0, 0, 0, 0]);
    assert_eq!(block_at(&bytes, 2), cipher.encrypt(3));
    assert_eq!(block_at(&bytes, 3), cipher.encrypt(name));
    assert_eq!(block_at(&bytes, 4), cipher.encrypt(name));

    let mut padded = payload.clone();
    padded.resize(48, 0);
    let first = block_at(&padded, 0);
    let second = block_at(&padded, 1);
    let third = block_at(&padded, 2);
    let chained_first = cipher.encrypt(first);
    let chained_second = cipher.encrypt(second ^ chained_first);
    let chained_third = cipher.encrypt(third ^ chained_second);
    assert_eq!(block_at(&bytes, 5), cipher.encrypt(40));
    assert_eq!(block_at(&bytes, 6), chained_first);
    assert_eq!(block_at(&bytes, 7), chained_second);
    assert_eq!(block_at(&bytes, 8), chained_third);
    assert_eq!(block_at(&bytes, 9), cipher.encrypt(first ^ second ^ third));
}

#[test]
fn payloads_with_the_same_first_blocks_have_the_same_first_chained_blocks() {
    let mut file = new_container();
    let mut one = pattern(32);
    let mut two = pattern(32);
    one.extend(b"tail one");
    two.extend(b"tail two");
    file.write("1", ByteSource::new(&one)).unwrap();
    let first_end = file.as_bytes().len();
    file.write("2", ByteSource::new(&two)).unwrap();
    let bytes = file.into_bytes();
    let first = &bytes[first_end - sequence_size(40)..first_end];
    let second = &bytes[bytes.len() - sequence_size(40)..];
    assert_eq!(first[..48], second[..48]);
    assert_ne!(first[48..64], second[48..64]);
    assert_ne!(first[64..], second[64..]);
}

#[test]
fn a_file_too_short_for_the_header_is_corrupted() {
    for len in [0usize, 1, 15, 16, 17, 31] {
        let mut password = String::from(PASSWORD);
        let opened = SfsFile::open(vec![0u8; len], &mut password);
        assert!(matches!(opened, Err(SfsErrorKind::CorruptedFile)), "length {}", len);
        assert!(password.is_empty());
    }
}

#[test]
fn a_file_that_does_not_end_on_a_block_is_corrupted() {
    let mut bytes = two_entries();
    bytes.push(0);
    let mut file = reopen(bytes.clone());
    let mut out = Vec::new();
    assert_eq!(file.read("demo1", &mut out), Err(SfsErrorKind::CorruptedFile));
    assert_eq!(file.list(&mut out), Err(SfsErrorKind::CorruptedFile));
    assert_eq!(
        file.write("demo3", ByteSource::new(b"x")),
        Err(SfsErrorKind::CorruptedFile)
    );
    assert!(out.is_empty());
    assert_eq!(file.as_bytes(), &bytes);
}

#[test]
fn a_payload_cut_short_is_corrupted() {
    let whole = two_entries();
    let mut file = reopen(whole[..whole.len() - 16].to_vec());
    let mut out = Vec::new();
    assert_eq!(file.read("demo2", &mut out), Err(SfsErrorKind::CorruptedFile));
    assert_eq!(out, pattern(100));
    assert_eq!(read_all(&mut file, "demo1"), Ok(b"Hello, this is a demo.\n".to_vec()));
    assert_eq!(read_all(&mut file, "demo3"), Err(SfsErrorKind::NotPresent));
}

#[test]
fn a_name_without_a_payload_is_corrupted() {
    let whole = two_entries();
    let cut = whole.len() - sequence_size(100);
    let mut file = reopen(whole[..cut].to_vec());
    assert_eq!(read_all(&mut file, "demo2"), Err(SfsErrorKind::CorruptedFile));
    assert_eq!(read_all(&mut file, "demo3"), Err(SfsErrorKind::CorruptedFile));
    assert_eq!(read_all(&mut file, "demo1"), Ok(b"Hello, this is a demo.\n".to_vec()));
    let mut listing = Vec::new();
    assert_eq!(file.list(&mut listing), Err(SfsErrorKind::CorruptedFile));
    assert_eq!(listing, b"demo1\ndemo2".to_vec());
}

#[test]
fn a_single_block_behind_the_entries_is_passed_over_by_list_only() {
    let mut bytes = two_entries();
    bytes.extend([0u8; 16]);
    let mut file = reopen(bytes);
    let mut listing = Vec::new();
    assert_eq!(file.list(&mut listing), Ok(()));
    assert_eq!(listing, b"demo1\ndemo2\n".to_vec());
    assert_eq!(read_all(&mut file, "demo2"), Ok(pattern(100)));
    assert_eq!(read_all(&mut file, "demo3"), Err(SfsErrorKind::CorruptedFile));
}

#[test]
fn open_or_create_opens_what_is_stored() {
    let mut file = new_container();
    file.write("demo1", ByteSource::new(b"payload")).unwrap();
    let bytes = file.into_bytes();
    let mut password = String::from(PASSWORD);
    let mut opened = SfsFile::open_or_create(Ok(bytes.clone()), &mut password).unwrap();
    assert!(password.is_empty());
    assert_eq!(opened.as_bytes(), &bytes);
    assert_eq!(read_all(&mut opened, "demo1"), Ok(b"payload".to_vec()));
}

#[test]
fn open_or_create_does_not_replace_what_the_password_does_not_open() {
    let bytes = new_container().into_bytes();
    let mut password = String::from("other");
    let wrong = SfsFile::open_or_create(Ok(bytes), &mut password);
    assert!(matches!(wrong, Err(SfsErrorKind::IncorrectPassword)));
    assert!(password.is_empty());
}

#[test]
fn open_or_create_makes_a_container_where_none_can_be_opened() {
    let mut password = String::from(PASSWORD);
    let mut made =
        SfsFile::open_or_create(Err(SfsErrorKind::CantOpenFile), &mut password).unwrap();
    assert!(password.is_empty());
    assert_eq!(made.as_bytes().len(), 32);
    made.write("demo1", ByteSource::new(b"payload")).unwrap();
    let mut again = reopen(made.into_bytes());
    assert_eq!(read_all(&mut again, "demo1"), Ok(b"payload".to_vec()));
}

#[test]
fn open_or_create_hands_back_every_other_failure() {
    for kind in [
        SfsErrorKind::IoError,
        SfsErrorKind::CorruptedFile,
        SfsErrorKind::CantWrite,
        SfsErrorKind::BadUsage,
        SfsErrorKind::NotPresent,
        SfsErrorKind::AlreadyPresent,
        SfsErrorKind::IncorrectPassword,
    ] {
        let mut password = String::from(PASSWORD);
        let result = SfsFile::open_or_create(Err(kind), &mut password);
        assert_eq!(result.err(), Some(kind));
        assert!(password.is_empty());
    }
    let short = SfsFile::open_or_create(Ok(vec![0u8; 20]), &mut String::from(PASSWORD));
    assert!(matches!(short, Err(SfsErrorKind::CorruptedFile)));
}

#[test]
fn create_and_open_wipe_the_password() {
    let mut password = String::from(PASSWORD);
    let file = SfsFile::create(&mut password).unwrap();
    assert!(password.is_empty());
    let mut right = String::from(PASSWORD);
    assert!(SfsFile::open(file.into_bytes(), &mut right).is_ok());
    assert!(right.is_empty());
}

#[test]
fn open_wipes_a_password_that_is_wrong() {
    let mut wrong = String::from("wrong");
    assert!(SfsFile::open(new_container().into_bytes(), &mut wrong).is_err());
    assert!(wrong.is_empty());
}

#[test]
fn two_containers_for_one_password_differ() {
    let one = new_container().into_bytes();
    let two = new_container().into_bytes();
    assert_ne!(one[..16], two[..16]);
    assert_ne!(one[16..], two[16..]);
}

#[test]
fn names_are_compared_by_their_utf8_bytes() {
    let mut file = new_container();
    file.write("gr\u{fc}n", ByteSource::new(b"green")).unwrap();
    file.write("gru\u{308}n", ByteSource::new(b"decomposed")).unwrap();
    assert_eq!(read_all(&mut file, "gr\u{fc}n"), Ok(b"green".to_vec()));
    assert_eq!(read_all(&mut file, "gru\u{308}n"), Ok(b"decomposed".to_vec()));
    assert_eq!(read_all(&mut file, "grun"), Err(SfsErrorKind::NotPresent));
    let mut listing = Vec::new();
    file.list(&mut listing).unwrap();
    assert_eq!(listing, "gr\u{fc}n\ngru\u{308}n\n".as_bytes().to_vec());
}
