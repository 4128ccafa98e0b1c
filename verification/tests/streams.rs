use sfs::block::{put_block, same_bytes, take_block, BLOCK_SIZE};
use sfs::memory::{ByteSource, MemFile};
use sfs::types::{ReadBlock, SfsErrorKind, WriteBlock, INTEGRITY_BLOCK};

#[test]
fn the_integrity_constant_has_its_value() {
    assert_eq!(INTEGRITY_BLOCK, 0x6063CB8EB347CEC6B827FBF1B4197A7C);
    assert_eq!(BLOCK_SIZE, 16);
}

#[test]
fn take_block_reads_little_endian() {
    let data: Vec<u8> = (1u8..=16).collect();
    let (block, count) = take_block(&data, 0);
    assert_eq!(count, 16);
    assert_eq!(block, 0x100f0e0d0c0b0a090807060504030201);
}

#[test]
fn take_block_pads_a_short_end_with_zeros() {
    let data = [0xaau8, 0xbb, 0xcc];
    assert_eq!(take_block(&data, 0), (0xccbbaa, 3));
    assert_eq!(take_block(&data, 1), (0xccbb, 2));
    assert_eq!(take_block(&data, 2), (0xcc, 1));
    assert_eq!(take_block(&data, 3), (0, 0));
    assert_eq!(take_block(&data, 4), (0, 0));
    assert_eq!(take_block(&data, usize::MAX), (0, 0));
}

#[test]
fn take_block_takes_16_bytes_where_more_are_left() {
    let data: Vec<u8> = (0u8..40).collect();
    let (block, count) = take_block(&data, 16);
    assert_eq!(count, 16);
    assert_eq!(block.to_le_bytes().to_vec(), (16u8..32).collect::<Vec<u8>>());
    let (block, count) = take_block(&data, 32);
    assert_eq!(count, 8);
    let mut expected = [0u8; 16];
    for i in 0..8 {
        expected[i] = 32 + i as u8;
    }
    assert_eq!(block.to_le_bytes(), expected);
}

#[test]
fn put_block_appends_the_first_bytes_of_a_block() {
    let mut dest = vec![9u8];
    put_block(&mut dest, 0x0807060504030201, 3);
    assert_eq!(dest, vec![9, 1, 2, 3]);
    put_block(&mut dest, 0x0807060504030201, 0);
    assert_eq!(dest, vec![9, 1, 2, 3]);
    put_block(&mut dest, 0x100f0e0d0c0b0a090807060504030201, 16);
    let mut expected = vec![9u8, 1, 2, 3];
    expected.extend(1u8..=16);
    assert_eq!(dest, expected);
}

#[test]
fn same_bytes_compares_byte_for_byte() {
    assert!(same_bytes(b"", b""));
    assert!(same_bytes(b"abc", b"abc"));
    assert!(!same_bytes(b"abc", b"abd"));
    assert!(!same_bytes(b"abc", b"ab"));
    assert!(!same_bytes(b"ab", b"abc"));
    assert!(!same_bytes(b"", b"a"));
}

#[test]
fn byte_source_delivers_full_blocks_and_then_the_short_end() {
    let data: Vec<u8> = (0u8..35).collect();
    let mut source = ByteSource::new(&data);
    let first = source.read_block().unwrap().unwrap();
    assert_eq!(first.to_le_bytes().to_vec(), (0u8..16).collect::<Vec<u8>>());
    let second = source.read_block().unwrap().unwrap();
    assert_eq!(second.to_le_bytes().to_vec(), (16u8..32).collect::<Vec<u8>>());
    let (last, len) = source.read_block().unwrap().unwrap_err();
    assert_eq!(len, 3);
    assert_eq!(last, 0x222120);
    assert_eq!(source.read_block().unwrap(), Err((0, 0)));
    assert_eq!(source.read_block().unwrap(), Err((0, 0)));
}

#[test]
fn byte_source_of_whole_blocks_ends_with_an_empty_read() {
    let data = [7u8; 16];
    let mut source = ByteSource::new(&data);
    assert_eq!(source.read_block().unwrap(), Ok(u128::from_le_bytes([7u8; 16])));
    assert_eq!(source.read_block().unwrap(), Err((0, 0)));
}

#[test]
fn byte_source_of_nothing_ends_at_once() {
    let mut source = ByteSource::new(&[]);
    assert_eq!(source.read_block().unwrap(), Err((0, 0)));
}

#[test]
fn read_block_exact_wants_a_whole_block() {
    let data = [1u8; 20];
    let mut source = ByteSource::new(&data);
    assert_eq!(source.read_block_exact(), Ok(u128::from_le_bytes([1u8; 16])));
    assert_eq!(source.read_block_exact(), Err(SfsErrorKind::CorruptedFile));
    assert_eq!(source.read_block_exact(), Err(SfsErrorKind::CorruptedFile));
}

#[test]
fn mem_file_reads_what_it_holds_from_the_start() {
    let data: Vec<u8> = (0u8..20).collect();
    let mut file = MemFile::from_bytes(data.clone());
    assert_eq!(file.size(), 20);
    assert_eq!(file.as_bytes(), &data);
    assert_eq!(
        file.read_block_exact(),
        Ok(u128::from_le_bytes([0, 1, 2, 3, 4, 5, 6, 7, 8, 9, 10, 11, 12, 13, 14, 15]))
    );
    assert_eq!(file.read_block().unwrap(), Err((0x13121110, 4)));
    assert_eq!(file.read_block().unwrap(), Err((0, 0)));
    assert_eq!(file.read_block_exact(), Err(SfsErrorKind::CorruptedFile));
    assert_eq!(file.into_bytes(), data);
}

#[test]
fn mem_file_write_appends_at_the_end() {
    let mut file = MemFile::from_bytes(Vec::new());
    file.write_block(0x100f0e0d0c0b0a090807060504030201).unwrap();
    file.write_block(u128::MAX).unwrap();
    let mut expected: Vec<u8> = (1u8..=16).collect();
    expected.extend([0xffu8; 16]);
    assert_eq!(file.into_bytes(), expected);
}

#[test]
fn mem_file_write_replaces_bytes_inside() {
    let mut file = MemFile::from_bytes((0u8..40).collect());
    file.seek_start(8);
    file.write_block(0).unwrap();
    let mut expected: Vec<u8> = (0u8..40).collect();
    for byte in &mut expected[8..24] {
        *byte = 0;
    }
    assert_eq!(file.as_bytes(), &expected);
    assert_eq!(file.read_block_exact(), Ok(u128::from_le_bytes([
        24, 25, 26, 27, 28, 29, 30, 31, 32, 33, 34, 35, 36, 37, 38, 39
    ])));
}

#[test]
fn mem_file_write_across_the_end_grows_the_file() {
    let mut file = MemFile::from_bytes(vec![5u8; 20]);
    file.seek_start(10);
    file.write_block(u128::from_le_bytes([6u8; 16])).unwrap();
    let mut expected = vec![5u8; 10];
    expected.extend([6u8; 16]);
    assert_eq!(file.into_bytes(), expected);
}

#[test]
fn mem_file_write_past_the_end_fills_the_gap_with_zeros() {
    let mut file = MemFile::from_bytes(vec![5u8; 4]);
    assert_eq!(file.seek_end(16), Ok(20));
    file.write_block(u128::from_le_bytes([6u8; 16])).unwrap();
    let mut expected = vec![5u8; 4];
    expected.extend([0u8; 16]);
    expected.extend([6u8; 16]);
    assert_eq!(file.into_bytes(), expected);
}

#[test]
fn mem_file_seek_end_reports_the_position() {
    let mut file = MemFile::from_bytes(vec![0u8; 48]);
    assert_eq!(file.seek_end(0), Ok(48));
    assert_eq!(file.read_block().unwrap(), Err((0, 0)));
    assert_eq!(file.seek_end(usize::MAX), Err(SfsErrorKind::IoError));
    assert_eq!(file.seek_end(usize::MAX - 48), Ok(usize::MAX));
    assert_eq!(file.write_block(1), Err(SfsErrorKind::IoError));
    assert_eq!(file.size(), 48);
}

#[test]
fn mem_file_read_past_the_end_finds_nothing() {
    let mut file = MemFile::from_bytes(vec![1u8; 16]);
    file.seek_start(100);
    assert_eq!(file.read_block().unwrap(), Err((0, 0)));
    assert_eq!(file.read_block_exact(), Err(SfsErrorKind::CorruptedFile));
    assert_eq!(file.size(), 16);
}
