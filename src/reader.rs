use vstd::prelude::*;

use aes::cipher::generic_array::GenericArray;
use aes::cipher::{BlockDecrypt, KeyInit};
use aes::Aes128;

use crate::vfs::{VfsError, VfsFileEntry};

verus! {

/// The block that AES-128 decryption with `key` makes of the 16 bytes `block`.
pub uninterp spec fn aes128_decrypt(key: Seq<u8>, block: Seq<u8>) -> Seq<u8>;

/// Relies on aes::Aes128 (`KeyInit::new`, then `BlockDecrypt::decrypt_block`):
/// one block decrypted under a 128-bit key, which depends on the key and the
/// block alone.
#[verifier::external_body]
fn decrypt_block(key: &[u8; 16], block: &[u8; 16]) -> (r: [u8; 16])
    ensures
        r@ == aes128_decrypt(key@, block@),
{
    let cipher = Aes128::new(&GenericArray::from(*key));
    let mut b = GenericArray::from(*block);
    cipher.decrypt_block(&mut b);
    b.into()
}

/// Whether position `p` lies in the half-open range `r`.
pub open spec fn in_range(r: (u64, u64), p: int) -> bool {
    r.0 <= p < r.1
}

/// The encrypted ranges of a window of `size` bytes are usable: each is
/// non-empty, a whole number of cipher blocks long and inside the window, and
/// they are strictly ascending without overlap.
pub open spec fn ranges_well_formed(ranges: Seq<(u64, u64)>, size: nat) -> bool {
    &&& forall|i: int|
        0 <= i < ranges.len() ==> {
            &&& (#[trigger] ranges[i]).0 < ranges[i].1
            &&& ranges[i].1 <= size
            &&& (ranges[i].1 - ranges[i].0) % 16 == 0
        }
    &&& forall|i: int, j: int|
        #![trigger ranges[i], ranges[j]]
        0 <= i < j < ranges.len() ==> ranges[i].1 <= ranges[j].0
}

/// Whether some encrypted range holds position `p`.
pub open spec fn covered(ranges: Seq<(u64, u64)>, p: int) -> bool {
    exists|i: int| 0 <= i < ranges.len() && #[trigger] in_range(ranges[i], p)
}

/// The plaintext byte at `p` of a range that starts at `start`: cipher blocks
/// are counted from the range's start and decrypted one by one.
pub open spec fn block_byte(data: Seq<u8>, key: Seq<u8>, start: int, p: int) -> u8 {
    let k = (p - start) % 16;
    aes128_decrypt(key, data.subrange(p - k, p - k + 16))[k]
}

/// The plaintext byte at position `p` of an entry stored as `data`.
pub open spec fn plaintext_byte(data: Seq<u8>, ranges: Seq<(u64, u64)>, key: Seq<u8>, p: int) -> u8 {
    if covered(ranges, p) {
        let i = choose|i: int| 0 <= i < ranges.len() && #[trigger] in_range(ranges[i], p);
        block_byte(data, key, ranges[i].0 as int, p)
    } else {
        data[p]
    }
}

/// The plaintext of an entry's window of `size` bytes, stored as `data`, whose
/// `ranges` are encrypted under `key`.
pub open spec fn entry_plaintext(data: Seq<u8>, ranges: Seq<(u64, u64)>, key: Seq<u8>, size: nat) -> Seq<u8> {
    Seq::new(size, |p: int| plaintext_byte(data, ranges, key, p))
}

/// What a read of at most `len` bytes at position `pos` of `content` yields.
pub open spec fn read_span(content: Seq<u8>, pos: nat, len: nat) -> Seq<u8> {
    if pos >= content.len() {
        Seq::empty()
    } else if pos + len <= content.len() {
        content.subrange(pos as int, (pos + len) as int)
    } else {
        content.subrange(pos as int, content.len() as int)
    }
}

proof fn lemma_byte_in_range(data: Seq<u8>, ranges: Seq<(u64, u64)>, key: Seq<u8>, size: nat, idx: int, p: int)
    requires
        ranges_well_formed(ranges, size),
        0 <= idx < ranges.len(),
        in_range(ranges[idx], p),
    ensures
        plaintext_byte(data, ranges, key, p) == block_byte(data, key, ranges[idx].0 as int, p),
{
    assert(covered(ranges, p));
    let i = choose|i: int| 0 <= i < ranges.len() && #[trigger] in_range(ranges[i], p);
    if i < idx {
        assert(ranges[i].1 <= ranges[idx].0);
    } else if i > idx {
        assert(ranges[idx].1 <= ranges[i].0);
    }
}

proof fn lemma_byte_outside(data: Seq<u8>, ranges: Seq<(u64, u64)>, key: Seq<u8>, size: nat, idx: int, p: int)
    requires
        ranges_well_formed(ranges, size),
        0 <= idx <= ranges.len(),
        forall|i: int| 0 <= i < idx ==> #[trigger] ranges[i].1 <= p,
        idx < ranges.len() ==> p < ranges[idx].0,
    ensures
        plaintext_byte(data, ranges, key, p) == data[p],
{
    if covered(ranges, p) {
        let i = choose|i: int| 0 <= i < ranges.len() && #[trigger] in_range(ranges[i], p);
        if i < idx {
            assert(ranges[i].1 <= p);
        } else if i > idx {
            assert(ranges[idx].0 < ranges[idx].1);
            assert(ranges[idx].1 <= ranges[i].0);
        }
    }
}

/// A block that starts at a block boundary of a range ends inside the range.
proof fn lemma_block_inside(start: int, end: int, pos: int, off: int)
    requires
        start <= pos < end,
        (end - start) % 16 == 0,
        (pos - start) % 16 == off,
    ensures
        pos - off + 16 <= end,
{
    let q = (pos - start) / 16;
    let m = (end - start) / 16;
    assert(pos - start == 16 * q + off) by (nonlinear_arith)
        requires (pos - start) % 16 == off, q == (pos - start) / 16;
    assert(end - start == 16 * m) by (nonlinear_arith)
        requires (end - start) % 16 == 0, m == (end - start) / 16;
    assert(q < m) by (nonlinear_arith)
        requires pos - start == 16 * q + off, end - start == 16 * m, pos < end, 0 <= off < 16;
    assert(16 * q + 16 <= 16 * m) by (nonlinear_arith)
        requires q < m;
}

/// Moving `j` bytes forward inside a block moves the offset in the block by `j`.
proof fn lemma_offset_step(start: int, pos: int, off: int, j: int)
    requires
        start <= pos,
        (pos - start) % 16 == off,
        0 <= j,
        off + j < 16,
    ensures
        (pos + j - start) % 16 == off + j,
{
    let q = (pos - start) / 16;
    assert(pos - start == 16 * q + off) by (nonlinear_arith)
        requires (pos - start) % 16 == off, q == (pos - start) / 16;
    vstd::arithmetic::div_mod::lemma_fundamental_div_mod_converse(pos + j - start, 16, q, off + j);
}

/// Moving to the end of a block reaches a block boundary.
proof fn lemma_offset_wrap(start: int, pos: int, off: int)
    requires
        start <= pos,
        (pos - start) % 16 == off,
        0 <= off < 16,
    ensures
        (pos + (16 - off) - start) % 16 == 0,
{
    let q = (pos - start) / 16;
    assert(pos - start == 16 * q + off) by (nonlinear_arith)
        requires (pos - start) % 16 == off, q == (pos - start) / 16;
    vstd::arithmetic::div_mod::lemma_fundamental_div_mod_converse(pos + (16 - off) - start, 16, q + 1, 0);
}

/// What reads of `chunks[0]`, `chunks[1]`, ... bytes in turn yield, starting
/// at position `pos` of `content`.
pub open spec fn read_in_chunks(content: Seq<u8>, pos: nat, chunks: Seq<nat>) -> Seq<u8>
    decreases chunks.len(),
{
    if chunks.len() == 0 {
        Seq::empty()
    } else {
        let first = read_span(content, pos, chunks[0]);
        first + read_in_chunks(content, pos + first.len(), chunks.drop_first())
    }
}

/// The sum of the chunk lengths.
pub open spec fn chunk_total(chunks: Seq<nat>) -> nat
    decreases chunks.len(),
{
    if chunks.len() == 0 {
        0
    } else {
        chunks[0] + chunk_total(chunks.drop_first())
    }
}

/// Two reads in a row yield what one read of both lengths yields.
pub proof fn lemma_read_split(content: Seq<u8>, pos: nat, a: nat, b: nat)
    ensures
        read_span(content, pos, a) + read_span(content, pos + read_span(content, pos, a).len(), b)
            == read_span(content, pos, a + b),
{
    let first = read_span(content, pos, a);
    let second = read_span(content, pos + first.len(), b);
    assert(first + second =~= read_span(content, pos, a + b));
}

/// The bytes that reads deliver do not depend on how the reads are cut: reads
/// of any lengths in turn yield what one read of their total yields.
pub proof fn lemma_read_chunking(content: Seq<u8>, pos: nat, chunks: Seq<nat>)
    ensures
        read_in_chunks(content, pos, chunks) == read_span(content, pos, chunk_total(chunks)),
    decreases chunks.len(),
{
    if chunks.len() == 0 {
        assert(read_span(content, pos, 0) =~= Seq::<u8>::empty());
    } else {
        let first = read_span(content, pos, chunks[0]);
        lemma_read_chunking(content, pos + first.len(), chunks.drop_first());
        lemma_read_split(content, pos, chunks[0], chunk_total(chunks.drop_first()));
    }
}

/// Seeking to `offset` and reading `n` bytes yields the bytes that a read of
/// `offset + n` bytes from the start yields after its first `offset` bytes.
pub proof fn lemma_seek_consistency(content: Seq<u8>, offset: nat, n: nat)
    ensures
        read_span(content, offset, n) == read_span(content, 0, offset + n).skip(
            if offset <= content.len() { offset as int } else { content.len() as int },
        ),
{
    let whole = read_span(content, 0, offset + n);
    let skipped = if offset <= content.len() { offset as int } else { content.len() as int };
    assert(read_span(content, offset, n) =~= whole.skip(skipped));
}

/// Whether the next bytes of an entry are stored encrypted or in the clear.
#[derive(Debug, PartialEq, Eq, Structural)]
pub enum VfsEntryPartKind {
    Ciphertext,
    Plaintext,
}

/// A decrypting, seekable stream over the window of one entry.
///
/// Only the cipher blocks that a read reaches are decrypted. The block that a
/// read stopped in the middle of is kept, so that the next read goes on from
/// its undelivered tail.
///
/// The stream covers the entry's whole padded window. The content ends at
/// the entry's `file_size`; the padding after it is delivered too, and
/// callers that want the content alone stop there.
pub struct VfsEntryReader {
    key: [u8; 16],
    data: Vec<u8>,
    encrypted_file_size: usize,
    position: u64,
    encrypted_block: [u8; 16],
    encrypted_block_offset: usize,
    encrypted_data_ranges: Vec<(u64, u64)>,
    encrypted_data_range_index: usize,
}

fn load_block(data: &Vec<u8>, base: usize) -> (r: [u8; 16])
    requires
        base + 16 <= data.len(),
    ensures
        r@ == data@.subrange(base as int, base + 16),
{
    let mut block = [0u8; 16];
    let mut i: usize = 0;
    while i < 16
        invariant
            i <= 16,
            base + 16 <= data.len(),
            forall|j: int| 0 <= j < i ==> block@[j] == data@[base + j],
        decreases 16 - i,
    {
        block[i] = data[base + i];
        i += 1;
    }
    assert(block@ =~= data@.subrange(base as int, base + 16));
    block
}

/// A copy of `ranges`.
pub fn copy_ranges(ranges: &Vec<(u64, u64)>) -> (r: Vec<(u64, u64)>)
    ensures
        r@ == ranges@,
{
    let mut r: Vec<(u64, u64)> = Vec::new();
    let mut i: usize = 0;
    while i < ranges.len()
        invariant
            i <= ranges@.len(),
            r@ == ranges@.subrange(0, i as int),
        decreases ranges@.len() - i,
    {
        r.push(ranges[i]);
        i += 1;
        assert(r@ =~= ranges@.subrange(0, i as int));
    }
    assert(r@ =~= ranges@);
    r
}

impl VfsEntryReader {
    /// The plaintext of the whole window.
    pub closed spec fn content(&self) -> Seq<u8> {
        entry_plaintext(
            self.data@,
            self.encrypted_data_ranges@,
            self.key@,
            self.encrypted_file_size as nat,
        )
    }

    /// The encrypted ranges of the window.
    pub closed spec fn ranges(&self) -> Seq<(u64, u64)> {
        self.encrypted_data_ranges@
    }

    /// The current position in the window.
    pub closed spec fn position(&self) -> nat {
        self.position as nat
    }

    /// The position lies in the range at the current range index.
    closed spec fn in_encrypted_range(&self) -> bool {
        let r = self.encrypted_data_ranges@;
        let idx = self.encrypted_data_range_index as int;
        idx < r.len() && r[idx].0 <= self.position
    }

    /// Both readers stand over the same bytes, ranges, key and window.
    closed spec fn same_source(&self, other: &Self) -> bool {
        &&& self.data@ == other.data@
        &&& self.encrypted_data_ranges@ == other.encrypted_data_ranges@
        &&& self.key@ == other.key@
        &&& self.encrypted_file_size == other.encrypted_file_size
    }

    /// The range index and the kept block agree with the position.
    pub closed spec fn wf(&self) -> bool {
        let r = self.encrypted_data_ranges@;
        let idx = self.encrypted_data_range_index as int;
        let pos = self.position as int;
        let off = self.encrypted_block_offset as int;
        &&& self.encrypted_file_size <= self.data@.len()
        &&& ranges_well_formed(r, self.encrypted_file_size as nat)
        &&& idx <= r.len()
        &&& forall|i: int| 0 <= i < idx ==> #[trigger] r[i].1 <= pos
        &&& idx < r.len() ==> pos < r[idx].1
        &&& off < 16
        &&& if self.in_encrypted_range() {
            &&& (pos - r[idx].0) % 16 == off
            &&& off > 0 ==> self.encrypted_block@ == aes128_decrypt(
                self.key@,
                self.data@.subrange(pos - off, pos - off + 16),
            )
        } else {
            off == 0
        }
    }

    /// A reader positioned at the start of `entry`'s window, which `data`
    /// holds from its first byte on. Fails when the window is shorter than the
    /// entry's padded size, or when its ranges are not usable.
    pub fn new(data: Vec<u8>, entry: &VfsFileEntry) -> (r: Result<Self, VfsError>)
        ensures
            match r {
                Ok(reader) => {
                    &&& reader.wf()
                    &&& reader.position() == 0
                    &&& reader.content() == entry_plaintext(
                        data@,
                        entry.aes_ranges@,
                        entry.aes_key@,
                        entry.file_size_with_padding as nat,
                    )
                },
                Err(e) => {
                    ||| (e == VfsError::ShortData && data@.len() < entry.file_size_with_padding)
                    ||| (e == VfsError::InvalidRanges && data@.len() >= entry.file_size_with_padding
                        && !ranges_well_formed(entry.aes_ranges@, entry.file_size_with_padding as nat))
                },
            },
            r is Ok <==> data@.len() >= entry.file_size_with_padding && ranges_well_formed(
                entry.aes_ranges@,
                entry.file_size_with_padding as nat,
            ),
    {
        let size = entry.file_size_with_padding as usize;
        if data.len() < size {
            return Err(VfsError::ShortData);
        }
        if !crate::vfs::validate_ranges(&entry.aes_ranges, entry.file_size_with_padding as u64) {
            return Err(VfsError::InvalidRanges);
        }
        let reader = VfsEntryReader {
            key: entry.aes_key,
            data,
            encrypted_file_size: size,
            position: 0,
            encrypted_block: [0u8; 16],
            encrypted_block_offset: 0,
            encrypted_data_ranges: copy_ranges(&entry.aes_ranges),
            encrypted_data_range_index: 0,
        };
        proof {
            let r = reader.encrypted_data_ranges@;
            if r.len() > 0 && r[0].0 <= 0 {
                assert((0 - r[0].0) % 16 == 0);
            }
        }
        Ok(reader)
    }

    /// The current position in the window.
    pub fn current_position(&self) -> (r: u64)
        ensures
            r == self.position(),
    {
        self.position
    }

    /// The size of the window.
    pub fn len(&self) -> (r: usize)
        ensures
            r == self.content().len(),
    {
        self.encrypted_file_size
    }

    /// Delivers bytes of one cipher block of the range that holds the
    /// position: the rest of the kept block, or else the next block,
    /// decrypted, as far as `want` allows.
    fn read_block_part(&mut self, out: &mut Vec<u8>, want: usize)
        requires
            old(self).wf(),
            old(self).in_encrypted_range(),
            0 < want,
            old(self).position + want <= old(self).encrypted_file_size,
        ensures
            final(self).wf(),
            final(self).same_source(old(self)),
            final(self).position <= old(self).encrypted_data_ranges@[old(self).encrypted_data_range_index as int].1,
            final(self).position < old(self).encrypted_data_ranges@[old(self).encrypted_data_range_index as int].1
                ==> final(self).encrypted_data_range_index == old(self).encrypted_data_range_index,
            old(self).position < final(self).position <= old(self).position + want,
            final(self).position == old(self).position + (if want < 16 - old(self).encrypted_block_offset {
                want
            } else {
                (16 - old(self).encrypted_block_offset) as usize
            }),
            old(self).encrypted_block_offset > 0 ==> final(self).encrypted_block == old(self).encrypted_block,
            final(out)@ == old(out)@ + final(self).content().subrange(
                old(self).position as int,
                final(self).position as int,
            ),
    {
        let ghost r = self.encrypted_data_ranges@;
        let idx = self.encrypted_data_range_index;
        let start = self.encrypted_data_ranges[idx].0;
        let end = self.encrypted_data_ranges[idx].1;
        let pos = self.position as usize;
        let off = self.encrypted_block_offset;
        proof {
            assert(r[idx as int].0 < r[idx as int].1);
            lemma_block_inside(start as int, end as int, pos as int, off as int);
        }
        if off == 0 {
            let block = load_block(&self.data, pos);
            self.encrypted_block = decrypt_block(&self.key, &block);
        }
        let avail = 16 - off;
        let k = if want < avail { want } else { avail };
        let ghost content = self.content();
        let ghost out0 = out@;
        let mut j: usize = 0;
        while j < k
            invariant
                j <= k,
                k <= 16 - off,
                off < 16,
                pos - off + 16 <= end,
                end <= self.encrypted_file_size,
                self.encrypted_file_size <= self.data@.len(),
                self.position == pos,
                self.encrypted_data_ranges@ == r,
                idx < r.len(),
                r[idx as int] == (start, end),
                (pos - start) % 16 == off,
                start <= pos,
                ranges_well_formed(r, self.encrypted_file_size as nat),
                content == self.content(),
                self.encrypted_block@ == aes128_decrypt(
                    self.key@,
                    self.data@.subrange(pos - off, pos - off + 16),
                ),
                out@ == out0 + content.subrange(pos as int, pos + j),
            decreases k - j,
        {
            proof {
                let p = pos + j;
                lemma_offset_step(start as int, pos as int, off as int, j as int);
                lemma_byte_in_range(
                    self.data@,
                    r,
                    self.key@,
                    self.encrypted_file_size as nat,
                    idx as int,
                    p as int,
                );
                assert(content[p as int] == self.encrypted_block@[off + j]);
            }
            out.push(self.encrypted_block[off + j]);
            proof {
                assert(out@ =~= out0 + content.subrange(pos as int, pos + j + 1));
            }
            j += 1;
        }
        self.position = (pos + k) as u64;
        if off + k == 16 {
            proof {
                lemma_offset_wrap(start as int, pos as int, off as int);
            }
            self.encrypted_block_offset = 0;
        } else {
            proof {
                lemma_offset_step(start as int, pos as int, off as int, k as int);
            }
            self.encrypted_block_offset = off + k;
        }
        if pos + k == end as usize {
            assert(idx < self.encrypted_data_ranges.len());
            self.encrypted_data_range_index = idx + 1;
            proof {
                let nidx = idx + 1;
                if nidx < r.len() {
                    assert(r[idx as int].1 <= r[nidx as int].0);
                    assert(r[nidx as int].0 < r[nidx as int].1);
                    if r[nidx as int].0 <= pos + k {
                        assert((pos + k - r[nidx as int].0) == 0);
                    }
                }
            }
        }
    }

    /// Delivers bytes of the range that holds the position, one cipher block
    /// at a time, the kept tail of the last block first: as many as `want`
    /// asks, up to the end of the range.
    fn read_ciphertext(&mut self, out: &mut Vec<u8>, want: usize)
        requires
            old(self).wf(),
            old(self).in_encrypted_range(),
            0 < want,
            old(self).position + want <= old(self).encrypted_file_size,
        ensures
            final(self).wf(),
            final(self).same_source(old(self)),
            ({
                let end = old(self).encrypted_data_ranges@[old(self).encrypted_data_range_index as int].1;
                final(self).position == old(self).position + (if want < end - old(self).position {
                    want as int
                } else {
                    end - old(self).position
                })
            }),
            final(out)@ == old(out)@ + final(self).content().subrange(
                old(self).position as int,
                final(self).position as int,
            ),
    {
        let idx = self.encrypted_data_range_index;
        let end = self.encrypted_data_ranges[idx].1;
        let pos = self.position;
        let goal: u64 = if (want as u64) < end - pos { want as u64 } else { end - pos };
        let ghost content = self.content();
        let ghost out0 = out@;
        while self.position < pos + goal
            invariant
                self.wf(),
                self.same_source(old(self)),
                content == self.content(),
                pos == old(self).position,
                idx == old(self).encrypted_data_range_index,
                idx < self.encrypted_data_ranges@.len(),
                end == self.encrypted_data_ranges@[idx as int].1,
                pos + goal <= end,
                goal <= want,
                pos <= self.position <= pos + goal,
                self.position < end ==> self.encrypted_data_range_index == idx,
                self.encrypted_data_ranges@[idx as int].0 <= pos,
                out@ == out0 + content.subrange(pos as int, self.position as int),
            decreases pos + goal - self.position,
        {
            let ghost before = out@;
            let ghost p0 = self.position as int;
            let step = (pos + goal - self.position) as usize;
            self.read_block_part(out, step);
            proof {
                assert(content.subrange(pos as int, self.position as int) =~= content.subrange(pos as int, p0)
                    + content.subrange(p0, self.position as int));
            }
        }
    }

    /// Copies stored bytes as they are: as many as `want` asks, up to the end
    /// of the window. The caller keeps the copy short of the next range.
    fn read_plaintext(&mut self, out: &mut Vec<u8>, want: usize)
        requires
            old(self).wf(),
            !old(self).in_encrypted_range(),
            old(self).position <= old(self).encrypted_file_size,
            old(self).encrypted_data_range_index < old(self).encrypted_data_ranges@.len() ==> old(self).position
                + want <= old(self).encrypted_data_ranges@[old(self).encrypted_data_range_index as int].0,
        ensures
            final(self).wf(),
            final(self).same_source(old(self)),
            final(self).position == old(self).position + (if want < old(self).encrypted_file_size
                - old(self).position {
                want as int
            } else {
                old(self).encrypted_file_size - old(self).position
            }),
            final(out)@ == old(out)@ + old(self).data@.subrange(
                old(self).position as int,
                final(self).position as int,
            ),
            final(out)@ == old(out)@ + final(self).content().subrange(
                old(self).position as int,
                final(self).position as int,
            ),
    {
        let ghost r = self.encrypted_data_ranges@;
        let idx = self.encrypted_data_range_index;
        let pos = self.position as usize;
        let size = self.encrypted_file_size;
        proof {
            if idx < r.len() {
                assert(r[idx as int].0 < r[idx as int].1);
            }
        }
        let k = if want < size - pos { want } else { size - pos };
        let ghost content = self.content();
        let ghost out0 = out@;
        let mut j: usize = 0;
        while j < k
            invariant
                j <= k,
                pos + k <= size,
                size == self.encrypted_file_size,
                self.encrypted_file_size <= self.data@.len(),
                self.wf(),
                self.position == pos,
                self.encrypted_data_ranges@ == r,
                self.encrypted_data_range_index == idx,
                idx < r.len() ==> pos + k <= r[idx as int].0,
                content == self.content(),
                out@ == out0 + self.data@.subrange(pos as int, pos + j),
                out@ == out0 + content.subrange(pos as int, pos + j),
            decreases k - j,
        {
            proof {
                lemma_byte_outside(
                    self.data@,
                    r,
                    self.key@,
                    self.encrypted_file_size as nat,
                    idx as int,
                    pos + j,
                );
            }
            out.push(self.data[pos + j]);
            proof {
                assert(out@ =~= out0 + self.data@.subrange(pos as int, pos + j + 1));
                assert(out@ =~= out0 + content.subrange(pos as int, pos + j + 1));
            }
            j += 1;
        }
        self.position = (pos + k) as u64;
        proof {
            if idx < r.len() && r[idx as int].0 <= pos + k {
                assert(pos + k - r[idx as int].0 == 0);
            }
        }
    }

    /// Reads at most `len` bytes at the current position and moves past them.
    /// Only the end of the window makes the result shorter than `len`.
    pub fn read(&mut self, len: usize) -> (r: Vec<u8>)
        requires
            old(self).wf(),
        ensures
            final(self).wf(),
            final(self).content() == old(self).content(),
            r@ == read_span(old(self).content(), old(self).position(), len as nat),
            final(self).position() == old(self).position() + r@.len(),
    {
        let mut out: Vec<u8> = Vec::new();
        let size = self.encrypted_file_size;
        if self.position >= size as u64 {
            return out;
        }
        let remaining = size - self.position as usize;
        let readable = if len < remaining { len } else { remaining };
        let ghost start = self.position as int;
        let ghost content = self.content();
        while out.len() < readable
            invariant
                self.wf(),
                self.same_source(old(self)),
                content == self.content(),
                content.len() == size,
                start == old(self).position,
                content == old(self).content(),
                size == self.encrypted_file_size,
                self.position == start + out@.len(),
                out@.len() <= readable,
                start + readable <= size,
                out@ == content.subrange(start, self.position as int),
            decreases readable - out@.len(),
        {
            let want = readable - out.len();
            let idx = self.encrypted_data_range_index;
            let ghost before = out@;
            let ghost p0 = self.position as int;
            if idx < self.encrypted_data_ranges.len() && self.encrypted_data_ranges[idx].0
                <= self.position {
                self.read_ciphertext(&mut out, want);
            } else {
                let pos = self.position as usize;
                let span = if idx < self.encrypted_data_ranges.len() {
                    self.encrypted_data_ranges[idx].0 as usize - pos
                } else {
                    size - pos
                };
                let part = if want < span { want } else { span };
                self.read_plaintext(&mut out, part);
            }
            proof {
                assert(self.content() == content);
                assert(self.position <= start + readable);
                assert(out@ == before + content.subrange(p0, self.position as int));
                assert(before == content.subrange(start, p0));
                assert(content.subrange(start, self.position as int) =~= content.subrange(start, p0)
                    + content.subrange(p0, self.position as int));
                assert(out@ =~= content.subrange(start, self.position as int));
            }
        }
        proof {
            assert(out@ =~= read_span(content, start as nat, len as nat));
        }
        out
    }

    /// Moves to `pos`, which may lie past the end of the window. Where it
    /// lies inside a cipher block of an encrypted range, that block is
    /// decrypted now, so that the next read starts from its tail.
    pub fn seek(&mut self, pos: u64) -> (r: u64)
        requires
            old(self).wf(),
        ensures
            final(self).wf(),
            final(self).content() == old(self).content(),
            final(self).position() == pos,
            r == pos,
    {
        let ghost r = self.encrypted_data_ranges@;
        let n = self.encrypted_data_ranges.len();
        let mut i: usize = 0;
        while i < n && self.encrypted_data_ranges[i].1 <= pos
            invariant
                i <= n,
                n == r.len(),
                self.encrypted_data_ranges@ == r,
                forall|j: int| 0 <= j < i ==> #[trigger] r[j].1 <= pos,
            decreases n - i,
        {
            i += 1;
        }
        self.position = pos;
        self.encrypted_data_range_index = i;
        self.encrypted_block_offset = 0;
        if i < n {
            let start = self.encrypted_data_ranges[i].0;
            let end = self.encrypted_data_ranges[i].1;
            if start <= pos {
                let off = ((pos - start) % 16) as usize;
                if off > 0 {
                    proof {
                        assert(r[i as int].0 < r[i as int].1);
                        lemma_block_inside(start as int, end as int, pos as int, off as int);
                    }
                    let base = (pos - off as u64) as usize;
                    let block = load_block(&self.data, base);
                    self.encrypted_block = decrypt_block(&self.key, &block);
                    self.encrypted_block_offset = off;
                }
            }
        }
        pos
    }

    /// Whether the bytes at the current position are stored encrypted.
    pub fn part_kind(&self) -> (r: VfsEntryPartKind)
        requires
            self.wf(),
        ensures
            r == (if covered(self.ranges(), self.position() as int) {
                VfsEntryPartKind::Ciphertext
            } else {
                VfsEntryPartKind::Plaintext
            }),
    {
        let idx = self.encrypted_data_range_index;
        if idx < self.encrypted_data_ranges.len() && self.encrypted_data_ranges[idx].0
            <= self.position {
            assert(in_range(self.encrypted_data_ranges@[idx as int], self.position as int));
            VfsEntryPartKind::Ciphertext
        } else {
            proof {
                let r = self.encrypted_data_ranges@;
                if covered(r, self.position as int) {
                    let i = choose|i: int| 0 <= i < r.len() && #[trigger] in_range(r[i], self.position as int);
                    if i > idx {
                        assert(r[idx as int].0 < r[idx as int].1);
                        assert(r[idx as int].1 <= r[i].0);
                    }
                }
            }
            VfsEntryPartKind::Plaintext
        }
    }
}

} // verus!
