use souls_vfs::bhd::BhdTocEntry;
use souls_vfs::write::reserve_u32;
use souls_vfs::{Bhd, Vfs, VfsError, VfsFileEntry, WriteError};

fn toc_entry(hash: u64, offset: u64, ranges: Vec<(i64, i64)>) -> BhdTocEntry {
    BhdTocEntry {
        hash,
        padded_size: 32,
        size: 30,
        offset,
        aes_key: [1u8; 16],
        encrypted_ranges: ranges,
    }
}

#[test]
fn later_archive_overrides_earlier() {
    let first = Bhd { toc: vec![toc_entry(1, 100, vec![]), toc_entry(2, 200, vec![])] };
    let second = Bhd { toc: vec![toc_entry(2, 999, vec![(0, 16)])] };
    let vfs = Vfs::create(&vec![first, second]).unwrap();
    let e1 = vfs.lookup(1).unwrap();
    assert_eq!((e1.archive, e1.offset), (0, 100));
    let e2 = vfs.lookup(2).unwrap();
    assert_eq!((e2.archive, e2.offset), (1, 999));
    assert_eq!(e2.aes_ranges, vec![(0, 16)]);
}

#[test]
fn missing_entry_is_not_found() {
    let vfs = Vfs::create(&vec![Bhd { toc: vec![toc_entry(1, 0, vec![])] }]).unwrap();
    assert_eq!(vfs.lookup(42).err(), Some(VfsError::NotFound));
    assert_eq!(vfs.open(42, vec![0u8; 32]).err(), Some(VfsError::NotFound));
    let empty = Vfs::new();
    assert_eq!(empty.open(1, vec![]).err(), Some(VfsError::NotFound));
}

#[test]
fn open_reads_entry_window() {
    let vfs = Vfs::create(&vec![Bhd { toc: vec![toc_entry(5, 0, vec![])] }]).unwrap();
    let data: Vec<u8> = (0u8..32).collect();
    let mut reader = vfs.open(5, data.clone()).unwrap();
    assert_eq!(reader.read(100), data);
    assert_eq!(vfs.open(5, vec![0u8; 31]).err(), Some(VfsError::ShortData));
}

#[test]
fn unused_range_slots_are_dropped() {
    let e = VfsFileEntry::from_toc(3, &toc_entry(9, 4, vec![(-1, -1), (16, 32), (-1, 5), (20, 20)]));
    assert_eq!(e.archive, 3);
    assert_eq!(e.aes_ranges, vec![(16, 32)]);
    assert_eq!(e.file_size, 30);
    assert_eq!(e.file_size_with_padding, 32);
}

#[test]
fn archive_with_unordered_ranges_is_refused() {
    let mut vfs = Vfs::new();
    vfs.add_archive(0, &Bhd { toc: vec![toc_entry(1, 0, vec![])] }).unwrap();
    let bad = Bhd { toc: vec![toc_entry(2, 0, vec![]), toc_entry(3, 0, vec![(16, 32), (0, 16)])] };
    assert_eq!(vfs.add_archive(1, &bad), Err(VfsError::InvalidRanges));
    assert!(vfs.lookup(1).is_ok());
    assert_eq!(vfs.lookup(2).err(), Some(VfsError::NotFound));
    assert_eq!(Vfs::create(&vec![bad]).err(), Some(VfsError::InvalidRanges));
}

#[test]
fn reserved_value_is_written_later() {
    let mut out = vec![0xaau8];
    let mut r = reserve_u32(&mut out, false);
    out.extend_from_slice(&[1, 2, 3]);
    assert_eq!(r.resolve(&mut out, 0x0403_0201), Ok(0x0403_0201));
    assert_eq!(out, vec![0xaa, 1, 2, 3, 4, 1, 2, 3]);
    assert_eq!(r.resolve(&mut out, 5), Err(WriteError::AlreadyResolved));
    assert_eq!(r.finish(), Ok(()));
}

#[test]
fn reserved_position_in_big_endian() {
    let mut out = vec![0u8; 2];
    let mut r = reserve_u32(&mut out, true);
    out.push(7);
    assert_eq!(r.resolve_with_position(&mut out), Ok(7));
    assert_eq!(out, vec![0, 0, 0, 0, 0, 7, 7]);
    let mut s = reserve_u32(&mut out, true);
    out.extend_from_slice(&[0u8; 3]);
    assert_eq!(s.resolve_with_relative_offset(&mut out, 4), Ok(10));
    assert_eq!(&out[7..11], &[0, 0, 0, 10]);
    let mut t = reserve_u32(&mut out, true);
    assert_eq!(t.resolve_with_relative_offset(&mut out, 1000), Err(WriteError::ValueTooLarge));
    assert_eq!(t.resolve_with_relative_offset(&mut out, 0), Ok(18));
    assert_eq!(&out[14..18], &[0, 0, 0, 18]);
    assert_eq!(t.resolve_with_relative_offset(&mut out, 0), Err(WriteError::AlreadyResolved));
    assert_eq!(t.resolve_with_position(&mut out), Err(WriteError::AlreadyResolved));
}

#[test]
fn unresolved_reservation_is_reported() {
    let mut out = Vec::new();
    let r = reserve_u32(&mut out, false);
    assert_eq!(out, vec![0, 0, 0, 0]);
    assert_eq!(r.finish(), Err(WriteError::Unresolved));
    let mut short = Vec::new();
    let mut q = reserve_u32(&mut short, false);
    short.clear();
    assert_eq!(q.resolve(&mut short, 1), Err(WriteError::OutOfRange));
}
