use vstd::prelude::*;

use std::collections::HashMap;

use crate::bhd::{Bhd, BhdTocEntry, TocEntryModel, entries_view};
use crate::reader::{ranges_well_formed, VfsEntryReader, entry_plaintext};

verus! {

/// Why an entry could not be opened or an archive could not be added.
#[derive(Debug, PartialEq, Eq, Structural)]
pub enum VfsError {
    /// No entry with the requested hash is known.
    NotFound,
    /// The entry's encrypted ranges are reversed, empty, overlapping, out of
    /// order, not a whole number of cipher blocks, or reach past its window.
    InvalidRanges,
    /// The byte window handed over is shorter than the entry's padded size.
    ShortData,
}

/// The plain values of a registry entry.
pub struct VfsEntryModel {
    pub archive: usize,
    pub offset: u64,
    pub file_size: u32,
    pub file_size_with_padding: u32,
    pub aes_key: Seq<u8>,
    pub aes_ranges: Seq<(u64, u64)>,
}

/// An entry of the registry: where its bytes lie and how they are encrypted.
pub struct VfsFileEntry {
    /// Position of the archive that holds the entry, in the order the
    /// archives were given.
    pub archive: usize,
    /// Byte offset of the entry in the archive's data file.
    pub offset: u64,
    /// True size of the content.
    pub file_size: u32,
    /// Size of the entry's window, rounded up to the cipher block size.
    pub file_size_with_padding: u32,
    /// AES-128 key of the encrypted ranges.
    pub aes_key: [u8; 16],
    /// Encrypted half-open byte ranges, relative to the entry's start.
    pub aes_ranges: Vec<(u64, u64)>,
}

/// Whether `ranges` are usable in a window of `size` bytes.
pub fn validate_ranges(ranges: &Vec<(u64, u64)>, size: u64) -> (r: bool)
    ensures
        r == ranges_well_formed(ranges@, size as nat),
{
    let n = ranges.len();
    let mut i: usize = 0;
    while i < n
        invariant
            i <= n,
            n == ranges@.len(),
            ranges_well_formed(ranges@.subrange(0, i as int), size as nat),
        decreases n - i,
    {
        let (s, e) = ranges[i];
        if !(s < e && e <= size && (e - s) % 16 == 0) {
            proof {
                assert(ranges@[i as int] == (s, e));
            }
            return false;
        }
        if i > 0 && ranges[i - 1].1 > s {
            proof {
                let a = i - 1;
                assert(ranges@[a as int].1 > ranges@[i as int].0);
            }
            return false;
        }
        proof {
            let prev = ranges@.subrange(0, i as int);
            let next = ranges@.subrange(0, i + 1);
            assert forall|a: int, b: int| 0 <= a < b < next.len() implies #[trigger] next[a].1 <= #[trigger] next[b].0 by {
                if b < i {
                    assert(prev[a] == next[a] && prev[b] == next[b]);
                } else if a < i - 1 {
                    assert(prev[a] == next[a]);
                    assert(prev[a].1 <= prev[i - 1].0);
                    assert(prev[i - 1].0 < prev[i - 1].1);
                }
            }
        }
        i += 1;
    }
    assert(ranges@.subrange(0, n as int) =~= ranges@);
    true
}

impl View for VfsFileEntry {
    type V = VfsEntryModel;

    open spec fn view(&self) -> VfsEntryModel {
        VfsEntryModel {
            archive: self.archive,
            offset: self.offset,
            file_size: self.file_size,
            file_size_with_padding: self.file_size_with_padding,
            aes_key: self.aes_key@,
            aes_ranges: self.aes_ranges@,
        }
    }
}

/// The encrypted ranges that a stored list describes: a pair with a negative
/// bound marks an unused slot, and a pair whose bounds are equal covers no
/// byte; both are left out.
pub open spec fn stored_ranges(rs: Seq<(i64, i64)>) -> Seq<(u64, u64)>
    decreases rs.len(),
{
    if rs.len() == 0 {
        Seq::empty()
    } else {
        let init = stored_ranges(rs.drop_last());
        let r = rs.last();
        if r.0 >= 0 && r.1 >= 0 && r.0 != r.1 {
            init.push((r.0 as u64, r.1 as u64))
        } else {
            init
        }
    }
}

/// The registry entry made of table-of-contents entry `e` of archive `archive`.
pub open spec fn entry_of(archive: usize, e: TocEntryModel) -> VfsEntryModel {
    VfsEntryModel {
        archive,
        offset: e.offset,
        file_size: e.size,
        file_size_with_padding: e.padded_size,
        aes_key: e.aes_key,
        aes_ranges: stored_ranges(e.encrypted_ranges),
    }
}

/// Whether the ranges of `e` are usable in its window.
pub open spec fn toc_entry_usable(e: TocEntryModel) -> bool {
    ranges_well_formed(stored_ranges(e.encrypted_ranges), e.padded_size as nat)
}

/// The registry `m` after the entries `toc` of archive `archive` are added in
/// order; an entry replaces an earlier one with the same hash.
pub open spec fn merge_toc(m: Map<u64, VfsEntryModel>, archive: usize, toc: Seq<TocEntryModel>) -> Map<u64, VfsEntryModel>
    decreases toc.len(),
{
    if toc.len() == 0 {
        m
    } else {
        merge_toc(m, archive, toc.drop_last()).insert(toc.last().hash, entry_of(archive, toc.last()))
    }
}

/// The registry after the archives `archives` are added in order, the
/// archive at position `i` under number `i`.
pub open spec fn merge_archives(archives: Seq<Seq<TocEntryModel>>) -> Map<u64, VfsEntryModel>
    decreases archives.len(),
{
    if archives.len() == 0 {
        Map::empty()
    } else {
        merge_toc(
            merge_archives(archives.drop_last()),
            (archives.len() - 1) as usize,
            archives.last(),
        )
    }
}

/// The ranges that a stored list describes, without its unused slots and
/// empty pairs.
pub fn convert_ranges(rs: &Vec<(i64, i64)>) -> (r: Vec<(u64, u64)>)
    ensures
        r@ == stored_ranges(rs@),
{
    let mut r: Vec<(u64, u64)> = Vec::new();
    let mut i: usize = 0;
    while i < rs.len()
        invariant
            i <= rs@.len(),
            r@ == stored_ranges(rs@.subrange(0, i as int)),
        decreases rs@.len() - i,
    {
        let (start, end) = rs[i];
        proof {
            assert(rs@.subrange(0, i + 1).drop_last() =~= rs@.subrange(0, i as int));
            assert(rs@.subrange(0, i + 1).last() == (start, end));
        }
        if start >= 0 && end >= 0 && start != end {
            r.push((start as u64, end as u64));
        }
        i += 1;
    }
    assert(rs@.subrange(0, i as int) =~= rs@);
    r
}

impl VfsFileEntry {
    /// The registry entry of table-of-contents entry `e` of archive `archive`.
    pub fn from_toc(archive: usize, e: &BhdTocEntry) -> (r: VfsFileEntry)
        ensures
            r@ == entry_of(archive, e@),
    {
        VfsFileEntry {
            archive,
            offset: e.offset,
            file_size: e.size,
            file_size_with_padding: e.padded_size,
            aes_key: e.aes_key,
            aes_ranges: convert_ranges(&e.encrypted_ranges),
        }
    }
}

/// The entries of one or more archives, by content-path hash.
pub struct Vfs {
    entries: HashMap<u64, VfsFileEntry>,
}

impl Vfs {
    /// The entries by hash.
    pub closed spec fn view(&self) -> Map<u64, VfsEntryModel> {
        Map::new(|h: u64| self.entries@.contains_key(h), |h: u64| self.entries@[h]@)
    }

    /// Every entry has ranges that are usable in its window.
    pub closed spec fn wf(&self) -> bool {
        forall|h: u64| #[trigger] self.entries@.contains_key(h) ==> ranges_well_formed(
            self.entries@[h].aes_ranges@,
            self.entries@[h].file_size_with_padding as nat,
        )
    }

    /// An empty registry.
    pub fn new() -> (r: Vfs)
        ensures
            r.wf(),
            r.view() == Map::<u64, VfsEntryModel>::empty(),
    {
        let r = Vfs { entries: HashMap::new() };
        assert(r.view() =~= Map::<u64, VfsEntryModel>::empty());
        r
    }

    /// Adds the entries of `bhd` under archive number `archive`, in order, each
    /// replacing an earlier entry with its hash. Nothing is added when the
    /// ranges of some entry are not usable.
    pub fn add_archive(&mut self, archive: usize, bhd: &Bhd) -> (r: Result<(), VfsError>)
        requires
            old(self).wf(),
        ensures
            final(self).wf(),
            r is Ok <==> forall|i: int| 0 <= i < bhd.toc@.len() ==> toc_entry_usable(#[trigger] bhd.toc@[i]@),
            r is Ok ==> final(self).view() == merge_toc(old(self).view(), archive, entries_view(bhd.toc@)),
            r matches Err(e) ==> e == VfsError::InvalidRanges && final(self).view() == old(self).view(),
    {
        broadcast use vstd::std_specs::hash::group_hash_axioms;
        let n = bhd.toc.len();
        let mut converted: Vec<VfsFileEntry> = Vec::new();
        let mut i: usize = 0;
        while i < n
            invariant
                i <= n,
                n == bhd.toc@.len(),
                converted@.len() == i,
                self.wf(),
                self.view() == old(self).view(),
                forall|j: int| 0 <= j < i ==> toc_entry_usable(#[trigger] bhd.toc@[j]@),
                forall|j: int| 0 <= j < i ==> (#[trigger] converted@[j])@ == entry_of(archive, bhd.toc@[j]@),
            decreases n - i,
        {
            let entry = VfsFileEntry::from_toc(archive, &bhd.toc[i]);
            if !validate_ranges(&entry.aes_ranges, entry.file_size_with_padding as u64) {
                return Err(VfsError::InvalidRanges);
            }
            converted.push(entry);
            i += 1;
        }
        let ghost start = self.view();
        let ghost toc = entries_view(bhd.toc@);
        let mut j: usize = 0;
        while j < n
            invariant
                j <= n,
                n == bhd.toc@.len(),
                n == converted@.len(),
                toc == entries_view(bhd.toc@),
                forall|k: int| 0 <= k < n ==> toc_entry_usable(#[trigger] bhd.toc@[k]@),
                forall|k: int| 0 <= k < n ==> (#[trigger] converted@[k])@ == entry_of(archive, bhd.toc@[k]@),
                self.wf(),
                start == old(self).view(),
                self.view() == merge_toc(start, archive, toc.subrange(0, j as int)),
            decreases n - j,
        {
            let hash = bhd.toc[j].hash;
            let entry = copy_entry(&converted[j]);
            let ghost before = self.view();
            self.entries.insert(hash, entry);
            proof {
                let sub = toc.subrange(0, j + 1);
                assert(sub.drop_last() =~= toc.subrange(0, j as int));
                assert(sub.last() == bhd.toc@[j as int]@);
                assert(self.view() =~= before.insert(hash, entry_of(archive, bhd.toc@[j as int]@)));
            }
            j += 1;
        }
        assert(toc.subrange(0, n as int) =~= toc);
        Ok(())
    }

    /// The registry of `archives`, added in order, the archive at position `i`
    /// under number `i`.
    pub fn create(archives: &Vec<Bhd>) -> (r: Result<Vfs, VfsError>)
        ensures
            r matches Ok(vfs) ==> vfs.wf() && vfs.view() == merge_archives(
                archives@.map_values(|b: Bhd| entries_view(b.toc@)),
            ),
            r is Ok <==> forall|a: int, i: int|
                0 <= a < archives@.len() && 0 <= i < archives@[a].toc@.len() ==> toc_entry_usable(
                    #[trigger] archives@[a].toc@[i]@,
                ),
            r matches Err(e) ==> e == VfsError::InvalidRanges,
    {
        let ghost all = archives@.map_values(|b: Bhd| entries_view(b.toc@));
        let mut vfs = Vfs::new();
        let mut a: usize = 0;
        while a < archives.len()
            invariant
                a <= archives@.len(),
                all == archives@.map_values(|b: Bhd| entries_view(b.toc@)),
                vfs.wf(),
                vfs.view() == merge_archives(all.subrange(0, a as int)),
                forall|b: int, i: int|
                    0 <= b < a && 0 <= i < archives@[b].toc@.len() ==> toc_entry_usable(
                        #[trigger] archives@[b].toc@[i]@,
                    ),
            decreases archives@.len() - a,
        {
            let ghost before = vfs.view();
            match vfs.add_archive(a, &archives[a]) {
                Ok(()) => {},
                Err(e) => {
                    return Err(e);
                },
            }
            proof {
                let sub = all.subrange(0, a + 1);
                assert(sub.drop_last() =~= all.subrange(0, a as int));
                assert(sub.last() == entries_view(archives@[a as int].toc@));
            }
            a += 1;
        }
        assert(all.subrange(0, a as int) =~= all);
        Ok(vfs)
    }

    /// The entry with content-path hash `hash`.
    pub fn lookup(&self, hash: u64) -> (r: Result<&VfsFileEntry, VfsError>)
        ensures
            r is Ok <==> self.view().contains_key(hash),
            r matches Ok(e) ==> e@ == self.view()[hash],
            r matches Err(e) ==> e == VfsError::NotFound,
    {
        broadcast use vstd::std_specs::hash::group_hash_axioms;
        match self.entries.get(&hash) {
            Some(e) => Ok(e),
            None => Err(VfsError::NotFound),
        }
    }

    /// A reader over the entry with content-path hash `hash`, whose window
    /// `data` holds from its first byte on. A hash that no archive holds is
    /// reported as not found.
    pub fn open(&self, hash: u64, data: Vec<u8>) -> (r: Result<VfsEntryReader, VfsError>)
        requires
            self.wf(),
        ensures
            !self.view().contains_key(hash) <==> r == Err::<VfsEntryReader, VfsError>(VfsError::NotFound),
            self.view().contains_key(hash) ==> (r is Ok <==> data@.len() >= self.view()[hash].file_size_with_padding),
            r matches Ok(reader) ==> reader.wf() && reader.position() == 0 && reader.content() == entry_plaintext(
                data@,
                self.view()[hash].aes_ranges,
                self.view()[hash].aes_key,
                self.view()[hash].file_size_with_padding as nat,
            ),
    {
        let entry = self.lookup(hash)?;
        VfsEntryReader::new(data, entry)
    }
}

/// Every entry of a registry has encrypted ranges that are strictly
/// ascending, without overlap, and inside its window.
pub proof fn lemma_registry_ranges_ordered(vfs: &Vfs, hash: u64)
    requires
        vfs.wf(),
        vfs.view().contains_key(hash),
    ensures
        ranges_well_formed(
            vfs.view()[hash].aes_ranges,
            vfs.view()[hash].file_size_with_padding as nat,
        ),
{
    assert(vfs.entries@.contains_key(hash));
}

fn copy_entry(e: &VfsFileEntry) -> (r: VfsFileEntry)
    ensures
        r@ == e@,
{
    VfsFileEntry {
        archive: e.archive,
        offset: e.offset,
        file_size: e.file_size,
        file_size_with_padding: e.file_size_with_padding,
        aes_key: e.aes_key,
        aes_ranges: crate::reader::copy_ranges(&e.aes_ranges),
    }
}

} // verus!
