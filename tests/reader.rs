use aes::cipher::generic_array::GenericArray;
use aes::cipher::{BlockEncrypt, KeyInit};
use aes::Aes128;

use souls_vfs::{VfsEntryPartKind, VfsEntryReader, VfsError, VfsFileEntry};

const KEY: [u8; 16] = [
    0x2b, 0x7e, 0x15, 0x16, 0x28, 0xae, 0xd2, 0xa6, 0xab, 0xf7, 0x15, 0x88, 0x09, 0xcf, 0x4f, 0x3c,
];

fn encrypt(key: &[u8; 16], plain: &[u8]) -> Vec<u8> {
    let cipher = Aes128::new(&GenericArray::from(*key));
    let mut out = Vec::new();
    for chunk in plain.chunks(16) {
        let mut block = GenericArray::clone_from_slice(chunk);
        cipher.encrypt_block(&mut block);
        out.extend_from_slice(&block);
    }
    out
}

fn entry(size: u32, ranges: Vec<(u64, u64)>) -> VfsFileEntry {
    VfsFileEntry {
        archive: 0,
        offset: 0,
        file_size: size,
        file_size_with_padding: size,
        aes_key: KEY,
        aes_ranges: ranges,
    }
}

/// Plaintext of `size` bytes and its stored form, with `ranges` encrypted.
fn stored(size: usize, ranges: &[(u64, u64)]) -> (Vec<u8>, Vec<u8>) {
    let plain: Vec<u8> = (0..size).map(|i| (i * 7 + 3) as u8).collect();
    let mut data = plain.clone();
    for &(s, e) in ranges {
        let enc = encrypt(&KEY, &plain[s as usize..e as usize]);
        data[s as usize..e as usize].copy_from_slice(&enc);
    }
    (plain, data)
}

fn read_all(reader: &mut VfsEntryReader, chunk: usize) -> Vec<u8> {
    let mut out = Vec::new();
    loop {
        let part = reader.read(chunk);
        if part.is_empty() {
            break;
        }
        out.extend_from_slice(&part);
    }
    out
}

#[test]
fn decodes() {
    let ranges = vec![(16, 48), (64, 80)];
    let (plain, data) = stored(96, &ranges);
    let e = entry(96, ranges);
    let mut reader = VfsEntryReader::new(data, &e).unwrap();
    assert_eq!(reader.len(), 96);
    assert_eq!(read_all(&mut reader, 96), plain);
}

#[test]
fn concrete_scenario_seven_byte_chunks() {
    let head: Vec<u8> = (0u8..16).collect();
    let middle: Vec<u8> = (100u8..116).collect();
    let tail: Vec<u8> = (200u8..216).collect();
    let mut data = head.clone();
    data.extend_from_slice(&encrypt(&KEY, &middle));
    data.extend_from_slice(&tail);
    let e = entry(48, vec![(16, 32)]);
    let mut reader = VfsEntryReader::new(data, &e).unwrap();
    let got = read_all(&mut reader, 7);
    let mut expected = head.clone();
    expected.extend_from_slice(&middle);
    expected.extend_from_slice(&tail);
    assert_eq!(got, expected);
}

#[test]
fn chunking_does_not_change_bytes() {
    let ranges = vec![(0, 32), (48, 64), (80, 128)];
    let (plain, data) = stored(140, &ranges);
    let e = entry(140, ranges);
    for chunk in [1usize, 16, 17, 140, 1000] {
        let mut reader = VfsEntryReader::new(data.clone(), &e).unwrap();
        assert_eq!(read_all(&mut reader, chunk), plain, "chunk {}", chunk);
    }
}

#[test]
fn seek_matches_sequential_read() {
    let ranges = vec![(16, 48), (64, 96)];
    let (plain, data) = stored(110, &ranges);
    let e = entry(110, ranges);
    for offset in 0..=112u64 {
        for n in [1usize, 5, 16, 33] {
            let mut reader = VfsEntryReader::new(data.clone(), &e).unwrap();
            assert_eq!(reader.seek(offset), offset);
            let got = reader.read(n);
            let start = (offset as usize).min(plain.len());
            let end = (offset as usize + n).min(plain.len());
            assert_eq!(got, plain[start..end].to_vec(), "offset {} n {}", offset, n);
        }
    }
}

#[test]
fn seek_back_after_partial_block() {
    let ranges = vec![(0, 32)];
    let (plain, data) = stored(32, &ranges);
    let e = entry(32, ranges);
    let mut reader = VfsEntryReader::new(data, &e).unwrap();
    assert_eq!(reader.read(5), plain[0..5].to_vec());
    assert_eq!(reader.read(5), plain[5..10].to_vec());
    reader.seek(3);
    assert_eq!(reader.read(20), plain[3..23].to_vec());
    assert_eq!(reader.read(20), plain[23..32].to_vec());
    assert!(reader.read(20).is_empty());
}

#[test]
fn part_kind_follows_position() {
    let ranges = vec![(16, 32)];
    let (_, data) = stored(48, &ranges);
    let e = entry(48, ranges);
    let mut reader = VfsEntryReader::new(data, &e).unwrap();
    assert_eq!(reader.part_kind(), VfsEntryPartKind::Plaintext);
    reader.seek(20);
    assert_eq!(reader.part_kind(), VfsEntryPartKind::Ciphertext);
    reader.seek(32);
    assert_eq!(reader.part_kind(), VfsEntryPartKind::Plaintext);
}

#[test]
fn unencrypted_entry_reads_stored_bytes() {
    let (plain, data) = stored(37, &[]);
    let e = entry(37, vec![]);
    let mut reader = VfsEntryReader::new(data, &e).unwrap();
    assert_eq!(read_all(&mut reader, 10), plain);
}

#[test]
fn empty_entry_reads_nothing() {
    let e = entry(0, vec![]);
    let mut reader = VfsEntryReader::new(vec![], &e).unwrap();
    assert!(reader.read(8).is_empty());
}

#[test]
fn short_window_is_rejected() {
    let e = entry(48, vec![]);
    assert_eq!(VfsEntryReader::new(vec![0u8; 47], &e).err(), Some(VfsError::ShortData));
}

#[test]
fn bad_ranges_are_rejected() {
    let cases: Vec<Vec<(u64, u64)>> = vec![
        vec![(32, 16)],
        vec![(16, 16)],
        vec![(0, 32), (16, 48)],
        vec![(32, 48), (0, 16)],
        vec![(0, 20)],
        vec![(32, 64)],
    ];
    for ranges in cases {
        let e = entry(48, ranges.clone());
        assert_eq!(
            VfsEntryReader::new(vec![0u8; 48], &e).err(),
            Some(VfsError::InvalidRanges),
            "{:?}",
            ranges
        );
    }
}

#[test]
fn window_longer_than_entry_is_cut() {
    let (plain, mut data) = stored(32, &[(0, 16)]);
    data.extend_from_slice(&[9u8; 10]);
    let e = entry(32, vec![(0, 16)]);
    let mut reader = VfsEntryReader::new(data, &e).unwrap();
    assert_eq!(read_all(&mut reader, 64), plain);
}
