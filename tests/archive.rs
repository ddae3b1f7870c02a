use openssl::rsa::{Padding, Rsa};

use souls_vfs::bhd::{read_header, read_header_data, read_toc, read_uint};
use souls_vfs::rsa_blocks::{assemble_blocks, decrypt_header, split_blocks};
use souls_vfs::{Bhd, BhdError};

struct TestEntry {
    hash: u64,
    padded_size: u32,
    size: u32,
    offset: u64,
    key: Option<[u8; 16]>,
    ranges: Vec<(i64, i64)>,
}

fn put32(out: &mut Vec<u8>, v: u32, big: bool) {
    if big {
        out.extend_from_slice(&v.to_be_bytes());
    } else {
        out.extend_from_slice(&v.to_le_bytes());
    }
}

fn put64(out: &mut Vec<u8>, v: u64, big: bool) {
    if big {
        out.extend_from_slice(&v.to_be_bytes());
    } else {
        out.extend_from_slice(&v.to_le_bytes());
    }
}

fn set32(out: &mut [u8], at: usize, v: u32, big: bool) {
    let b = if big { v.to_be_bytes() } else { v.to_le_bytes() };
    out[at..at + 4].copy_from_slice(&b);
}

fn set64(out: &mut [u8], at: usize, v: u64, big: bool) {
    let b = if big { v.to_be_bytes() } else { v.to_le_bytes() };
    out[at..at + 8].copy_from_slice(&b);
}

/// The decrypted plaintext of an archive header holding `buckets`.
fn build_archive(buckets: &[Vec<TestEntry>], big: bool, salt: &[u8]) -> Vec<u8> {
    let mut out = Vec::new();
    out.extend_from_slice(b"BHD5");
    out.push(if big { 0 } else { 0xff });
    out.extend_from_slice(&[1, 0, 0, 0, 0, 0, 0]);
    put32(&mut out, 0, big);
    put32(&mut out, buckets.len() as u32, big);
    put32(&mut out, (28 + salt.len()) as u32, big);
    put32(&mut out, salt.len() as u32, big);
    out.extend_from_slice(salt);
    let table = out.len();
    out.resize(table + 8 * buckets.len(), 0);
    for (b, bucket) in buckets.iter().enumerate() {
        let records = out.len();
        set32(&mut out, table + 8 * b, bucket.len() as u32, big);
        set32(&mut out, table + 8 * b + 4, records as u32, big);
        out.resize(records + 40 * bucket.len(), 0);
        for (i, e) in bucket.iter().enumerate() {
            let at = records + 40 * i;
            set64(&mut out, at, e.hash, big);
            set32(&mut out, at + 8, e.padded_size, big);
            set32(&mut out, at + 12, e.size, big);
            set64(&mut out, at + 16, e.offset, big);
            set64(&mut out, at + 24, 0xdead, big);
            if let Some(key) = e.key {
                let enc = out.len();
                set64(&mut out, at + 32, enc as u64, big);
                out.extend_from_slice(&key);
                put32(&mut out, e.ranges.len() as u32, big);
                for &(s, t) in &e.ranges {
                    put64(&mut out, s as u64, big);
                    put64(&mut out, t as u64, big);
                }
            }
        }
    }
    out
}

fn sample_buckets() -> Vec<Vec<TestEntry>> {
    vec![
        vec![
            TestEntry { hash: 0x1111, padded_size: 32, size: 30, offset: 0, key: None, ranges: vec![] },
            TestEntry {
                hash: 0x2222,
                padded_size: 64,
                size: 64,
                offset: 32,
                key: Some([7u8; 16]),
                ranges: vec![(0, 16), (32, 64), (-1, -1)],
            },
        ],
        vec![],
        vec![TestEntry {
            hash: 0xffff_0000_1234_5678,
            padded_size: 16,
            size: 5,
            offset: 0x1_0000_0000,
            key: Some([9u8; 16]),
            ranges: vec![],
        }],
    ]
}

fn check_decoded(bhd: &Bhd, buckets: &[Vec<TestEntry>]) {
    let expected: Vec<&TestEntry> = buckets.iter().flatten().collect();
    assert_eq!(bhd.toc.len(), expected.len());
    for (got, want) in bhd.toc.iter().zip(expected) {
        assert_eq!(got.hash, want.hash);
        assert_eq!(got.padded_size, want.padded_size);
        assert_eq!(got.size, want.size);
        assert_eq!(got.offset, want.offset);
        assert_eq!(got.aes_key, want.key.unwrap_or([0u8; 16]));
        assert_eq!(got.encrypted_ranges, want.ranges);
    }
}

#[test]
fn decodes_little_endian_archive() {
    let buckets = sample_buckets();
    let data = build_archive(&buckets, false, b"salty");
    let bhd = Bhd::parse(&data).unwrap();
    check_decoded(&bhd, &buckets);
}

#[test]
fn decodes_big_endian_archive() {
    let buckets = sample_buckets();
    let data = build_archive(&buckets, true, b"");
    let bhd = Bhd::parse(&data).unwrap();
    check_decoded(&bhd, &buckets);
}

#[test]
fn bucket_order_does_not_change_entry_set() {
    let mut buckets = sample_buckets();
    let a = Bhd::parse(&build_archive(&buckets, false, b"x")).unwrap();
    buckets.reverse();
    buckets.push(vec![]);
    let b = Bhd::parse(&build_archive(&buckets, false, b"x")).unwrap();
    let mut ha: Vec<u64> = a.toc.iter().map(|e| e.hash).collect();
    let mut hb: Vec<u64> = b.toc.iter().map(|e| e.hash).collect();
    ha.sort();
    hb.sort();
    assert_eq!(ha, hb);
}

#[test]
fn header_fields_are_read() {
    let data = build_archive(&sample_buckets(), false, b"salt");
    let h = read_header(&data).unwrap();
    assert!(!h.is_big_endian);
    assert_eq!(h.buckets, 3);
    assert_eq!(h.buckets_offset, 32);
    assert_eq!(h.salt_length, 4);
    assert_eq!(h.salt, b"salt".to_vec());
    let hb = read_header_data(&build_archive(&sample_buckets(), true, b"salt"), true).unwrap();
    assert!(hb.is_big_endian);
    assert_eq!(hb.buckets, 3);
}

#[test]
fn bad_magic_is_reported() {
    let mut data = build_archive(&sample_buckets(), false, b"");
    data[0] = b'X';
    assert_eq!(Bhd::parse(&data).err(), Some(BhdError::BadMagic));
}

#[test]
fn truncated_archive_is_reported() {
    let data = build_archive(&sample_buckets(), false, b"");
    for cut in [0usize, 3, 10, 27, 40, data.len() - 1] {
        assert_eq!(Bhd::parse(&data[..cut].to_vec()).err(), Some(BhdError::Truncated), "cut {}", cut);
    }
}

#[test]
fn toc_with_record_out_of_bounds_fails() {
    let data = build_archive(&sample_buckets(), false, b"");
    assert_eq!(read_toc(&data, 28, 4, false).err(), Some(BhdError::Truncated));
    assert_eq!(read_toc(&data, 28, 0, false).map(|t| t.len()), Ok(0));
}

#[test]
fn reads_integers_in_both_orders() {
    let data = vec![0x01, 0x02, 0x03, 0x04, 0x05, 0x06, 0x07, 0x08];
    assert_eq!(read_uint(&data, 0, 4, false), Some(0x0403_0201));
    assert_eq!(read_uint(&data, 0, 4, true), Some(0x0102_0304));
    assert_eq!(read_uint(&data, 0, 8, false), Some(0x0807_0605_0403_0201));
    assert_eq!(read_uint(&data, 0, 8, true), Some(0x0102_0304_0506_0708));
    assert_eq!(read_uint(&data, 5, 4, true), None);
    assert_eq!(read_uint(&data, 9, 0, true), None);
}

#[test]
fn block_plaintext_length_is_sum_of_block_lengths() {
    let blocks = vec![vec![0u8, 1, 2, 3], vec![0u8, 4], vec![0u8, 5, 6]];
    let p = assemble_blocks(&blocks, 4).unwrap();
    assert_eq!(p, vec![1, 2, 3, 4, 5, 6]);
    assert_eq!(p.len(), 3 + 1 + 2);
    assert_ne!(p.len(), 9 - 9 / 4);
}

#[test]
fn inconsistent_block_lengths_fail() {
    assert_eq!(assemble_blocks(&vec![vec![0u8, 1], vec![]], 4).err(), Some(BhdError::BlockLength));
    assert_eq!(assemble_blocks(&vec![vec![0u8; 5]], 4).err(), Some(BhdError::BlockLength));
}

#[test]
fn file_is_cut_in_key_sized_blocks() {
    let file: Vec<u8> = (0u8..10).collect();
    let blocks = split_blocks(&file, 4);
    assert_eq!(blocks, vec![vec![0, 1, 2, 3], vec![4, 5, 6, 7], vec![8, 9]]);
    assert!(split_blocks(&vec![], 4).is_empty());
}

/// Encrypts `plain` as an archive header file: blocks of `k - 1` bytes, each
/// behind a zero marker byte, through the raw private-key operation.
fn encrypt_header(key: &Rsa<openssl::pkey::Private>, plain: &[u8]) -> Vec<u8> {
    let k = key.size() as usize;
    let mut file = Vec::new();
    for chunk in plain.chunks(k - 1) {
        let mut block = vec![0u8; k];
        block[k - chunk.len()..].copy_from_slice(chunk);
        let mut out = vec![0u8; k];
        let n = key.private_encrypt(&block, &mut out, Padding::NONE).unwrap();
        assert_eq!(n, k);
        file.extend_from_slice(&out);
    }
    file
}

#[test]
fn rsa_header_round_trip() {
    let private = Rsa::generate(1024).unwrap();
    let n = private.n().to_vec();
    let e = private.e().to_vec();
    let k = private.size() as usize;
    assert_eq!(n.len(), k);
    let buckets = sample_buckets();
    let mut plain = build_archive(&buckets, false, b"salt");
    plain.resize((plain.len() / (k - 1) + 1) * (k - 1), 0);
    let file = encrypt_header(&private, &plain);
    let decrypted = decrypt_header(&file, &n, &e).unwrap();
    assert_eq!(decrypted, plain);
    let bhd = Bhd::read(&file, &n, &e).unwrap();
    check_decoded(&bhd, &buckets);
}

#[test]
fn rsa_rejects_block_of_wrong_size() {
    let private = Rsa::generate(1024).unwrap();
    let n = private.n().to_vec();
    let e = private.e().to_vec();
    let file = vec![0xffu8; 200];
    assert_eq!(decrypt_header(&file, &n, &e).err(), Some(BhdError::Decrypt));
    assert_eq!(Bhd::read(&file, &n, &e).err(), Some(BhdError::Decrypt));
}

#[test]
fn unusable_key_is_reported() {
    assert_eq!(decrypt_header(&vec![1, 2, 3], &vec![5], &vec![3]).err(), Some(BhdError::BadKey));
    assert_eq!(Bhd::read(&vec![], &vec![], &vec![3]).err(), Some(BhdError::BadKey));
}
