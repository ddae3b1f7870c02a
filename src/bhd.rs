use vstd::multiset::Multiset;
use vstd::prelude::*;

verus! {

/// Size of the fixed part of the header, up to the salt.
pub const HEADER_SIZE: usize = 28;

/// `256` to the power `n`: the first value that `n` bytes cannot hold.
pub open spec fn pow256(n: nat) -> nat
    decreases n,
{
    if n == 0 {
        1
    } else {
        256 * pow256((n - 1) as nat)
    }
}

/// The unsigned value of `bytes`, least significant byte first.
pub open spec fn le_value(bytes: Seq<u8>) -> nat
    decreases bytes.len(),
{
    if bytes.len() == 0 {
        0
    } else {
        (bytes[0] + 256 * le_value(bytes.drop_first())) as nat
    }
}

/// The unsigned value of `bytes`, most significant byte first.
pub open spec fn be_value(bytes: Seq<u8>) -> nat
    decreases bytes.len(),
{
    if bytes.len() == 0 {
        0
    } else {
        (be_value(bytes.drop_last()) * 256 + bytes.last()) as nat
    }
}

/// The unsigned value of `bytes` in the byte order that `big_endian` selects.
pub open spec fn uint_value(bytes: Seq<u8>, big_endian: bool) -> nat {
    if big_endian {
        be_value(bytes)
    } else {
        le_value(bytes)
    }
}

/// The unsigned field of `width` bytes at `at`.
pub open spec fn field(data: Seq<u8>, at: int, width: nat, big_endian: bool) -> nat {
    uint_value(data.subrange(at, at + width), big_endian)
}

/// Whether `width` bytes at `at` lie inside `data`.
pub open spec fn fits(data: Seq<u8>, at: int, width: int) -> bool {
    0 <= at && 0 <= width && at + width <= data.len()
}

proof fn lemma_pow256_mono(i: nat, j: nat)
    requires
        i <= j,
    ensures
        pow256(i) <= pow256(j),
    decreases j,
{
    if i < j {
        lemma_pow256_mono(i, (j - 1) as nat);
    }
}

proof fn lemma_pow256_8()
    ensures
        pow256(8) == 0x1_0000_0000_0000_0000,
{
    reveal_with_fuel(pow256, 9);
}

proof fn lemma_pow256_4()
    ensures
        pow256(4) == 0x1_0000_0000,
{
    reveal_with_fuel(pow256, 5);
}

proof fn lemma_shift_in(v: nat, b: nat, n: nat)
    requires
        v < pow256(n),
        b < 256,
    ensures
        v * 256 + b < pow256(n + 1),
        b + 256 * v < pow256(n + 1),
{
    let p = pow256(n);
    assert(pow256(n + 1) == 256 * p);
    assert(v * 256 + b < 256 * p) by (nonlinear_arith)
        requires v < p, b < 256;
}

/// Reads the unsigned integer of `width` bytes at `pos`, in the byte order
/// that `big_endian` selects; `None` where it runs past the end of `data`.
pub fn read_uint(data: &Vec<u8>, pos: usize, width: usize, big_endian: bool) -> (r: Option<u64>)
    requires
        width <= 8,
    ensures
        r is Some <==> fits(data@, pos as int, width as int),
        r matches Some(v) ==> v == field(data@, pos as int, width as nat, big_endian),
        r matches Some(v) ==> v < pow256(width as nat),
{
    if pos > data.len() || width > data.len() - pos {
        return None;
    }
    let ghost s = data@.subrange(pos as int, pos + width);
    proof {
        lemma_pow256_mono(width as nat, 8);
        lemma_pow256_8();
    }
    let mut v: u64 = 0;
    if big_endian {
        let mut i: usize = 0;
        while i < width
            invariant
                i <= width <= 8,
                pos + width <= data.len(),
                s == data@.subrange(pos as int, pos + width),
                v == be_value(s.subrange(0, i as int)),
                v < pow256(i as nat),
                pow256(width as nat) <= 0x1_0000_0000_0000_0000,
            decreases width - i,
        {
            proof {
                lemma_shift_in(v as nat, data@[pos + i] as nat, i as nat);
                lemma_pow256_mono((i + 1) as nat, width as nat);
                assert(s.subrange(0, i + 1).drop_last() =~= s.subrange(0, i as int));
            }
            v = v * 256 + data[pos + i] as u64;
            i += 1;
        }
        assert(s.subrange(0, width as int) =~= s);
    } else {
        let mut i: usize = width;
        while i > 0
            invariant
                i <= width <= 8,
                pos + width <= data.len(),
                s == data@.subrange(pos as int, pos + width),
                v == le_value(s.subrange(i as int, width as int)),
                v < pow256((width - i) as nat),
                pow256(width as nat) <= 0x1_0000_0000_0000_0000,
            decreases i,
        {
            i -= 1;
            proof {
                lemma_shift_in(v as nat, data@[pos + i] as nat, (width - i - 1) as nat);
                lemma_pow256_mono((width - i) as nat, width as nat);
                assert(s.subrange(i as int, width as int).drop_first() =~= s.subrange(
                    i + 1,
                    width as int,
                ));
            }
            v = v * 256 + data[pos + i] as u64;
        }
        assert(s.subrange(0, width as int) =~= s);
    }
    Some(v)
}

/// The decoded form of an entry record.
pub struct TocEntryModel {
    pub hash: u64,
    pub padded_size: u32,
    pub size: u32,
    pub offset: u64,
    pub aes_key: Seq<u8>,
    pub encrypted_ranges: Seq<(i64, i64)>,
}

/// One entry of an archive's table of contents.
pub struct BhdTocEntry {
    /// Hash of the content path.
    pub hash: u64,
    /// Size rounded up to the cipher block size.
    pub padded_size: u32,
    /// True size of the content.
    pub size: u32,
    /// Byte offset of the entry in the data file.
    pub offset: u64,
    /// AES-128 key; all zero where the entry is not encrypted.
    pub aes_key: [u8; 16],
    /// Encrypted ranges, as stored.
    pub encrypted_ranges: Vec<(i64, i64)>,
}

impl View for BhdTocEntry {
    type V = TocEntryModel;

    open spec fn view(&self) -> TocEntryModel {
        TocEntryModel {
            hash: self.hash,
            padded_size: self.padded_size,
            size: self.size,
            offset: self.offset,
            aes_key: self.aes_key@,
            encrypted_ranges: self.encrypted_ranges@,
        }
    }
}

/// The fields of an archive header.
pub struct BhdHeader {
    pub is_big_endian: bool,
    pub file_size: u32,
    pub buckets: u32,
    pub buckets_offset: u32,
    pub salt_length: u32,
    pub salt: Vec<u8>,
}

/// Why an archive header could not be decoded.
#[derive(Debug, PartialEq, Eq, Structural)]
pub enum BhdError {
    /// The plaintext does not start with the archive signature.
    BadMagic,
    /// A record or a field reaches past the end of the plaintext.
    Truncated,
    /// The key's modulus is too small to hold a padding byte and data.
    BadKey,
    /// The public-key operation refused a block.
    Decrypt,
    /// A block decrypted to no bytes, or to more than the modulus holds.
    BlockLength,
}

/// The range pair at `at`: two signed 64-bit values.
pub open spec fn range_at(data: Seq<u8>, at: int, big_endian: bool) -> (i64, i64) {
    (
        (field(data, at, 8, big_endian) as u64) as i64,
        (field(data, at + 8, 8, big_endian) as u64) as i64,
    )
}

/// The entry record at `at`, with the encryption metadata it points to;
/// `None` where either reaches past the end of `data`.
pub open spec fn entry_record(data: Seq<u8>, at: int, big_endian: bool) -> Option<TocEntryModel> {
    if !fits(data, at, 40) {
        None
    } else {
        let enc = field(data, at + 32, 8, big_endian) as int;
        let count = field(data, enc + 16, 4, big_endian);
        let base = TocEntryModel {
            hash: field(data, at, 8, big_endian) as u64,
            padded_size: field(data, at + 8, 4, big_endian) as u32,
            size: field(data, at + 12, 4, big_endian) as u32,
            offset: field(data, at + 16, 8, big_endian) as u64,
            aes_key: Seq::new(16, |i: int| 0u8),
            encrypted_ranges: Seq::empty(),
        };
        if enc == 0 {
            Some(base)
        } else if fits(data, enc, 20) && fits(data, enc + 20, 16 * count as int) {
            Some(
                TocEntryModel {
                    aes_key: data.subrange(enc, enc + 16),
                    encrypted_ranges: Seq::new(
                        count,
                        |i: int| range_at(data, enc + 20 + 16 * i, big_endian),
                    ),
                    ..base
                },
            )
        } else {
            None
        }
    }
}

/// Whether all `count` entry records from `at` on decode.
pub open spec fn bucket_ok(data: Seq<u8>, at: int, count: nat, big_endian: bool) -> bool {
    forall|i: int| 0 <= i < count ==> #[trigger] entry_record(data, at + 40 * i, big_endian) is Some
}

/// The `count` entries whose records start at `at`.
pub open spec fn bucket_entries(data: Seq<u8>, at: int, count: nat, big_endian: bool) -> Seq<TocEntryModel> {
    Seq::new(count, |i: int| entry_record(data, at + 40 * i, big_endian).unwrap())
}

/// Whether bucket `b` of the table at `table` decodes.
pub open spec fn bucket_at_ok(data: Seq<u8>, table: int, b: int, big_endian: bool) -> bool {
    fits(data, table + 8 * b, 8) && bucket_ok(
        data,
        field(data, table + 8 * b + 4, 4, big_endian) as int,
        field(data, table + 8 * b, 4, big_endian),
        big_endian,
    )
}

/// The entries of bucket `b` of the table at `table`.
pub open spec fn bucket_at(data: Seq<u8>, table: int, b: int, big_endian: bool) -> Seq<TocEntryModel> {
    bucket_entries(
        data,
        field(data, table + 8 * b + 4, 4, big_endian) as int,
        field(data, table + 8 * b, 4, big_endian),
        big_endian,
    )
}

/// The entries of the first `n` buckets of the table at `table`, bucket by
/// bucket.
pub open spec fn toc_entries(data: Seq<u8>, table: int, n: nat, big_endian: bool) -> Seq<TocEntryModel>
    decreases n,
{
    if n == 0 {
        Seq::empty()
    } else {
        toc_entries(data, table, (n - 1) as nat, big_endian) + bucket_at(
            data,
            table,
            n - 1,
            big_endian,
        )
    }
}

/// Whether the table of `n` buckets at `table` decodes.
pub open spec fn toc_ok(data: Seq<u8>, table: int, n: nat, big_endian: bool) -> bool {
    forall|b: int| 0 <= b < n ==> #[trigger] bucket_at_ok(data, table, b, big_endian)
}

/// The decoded entries as a sequence of models.
pub open spec fn entries_view(entries: Seq<BhdTocEntry>) -> Seq<TocEntryModel> {
    entries.map_values(|e: BhdTocEntry| e@)
}

/// Reads the entry record at `at` and the encryption metadata it points to.
fn read_entry(data: &Vec<u8>, at: usize, big_endian: bool) -> (r: Option<BhdTocEntry>)
    ensures
        r is Some <==> entry_record(data@, at as int, big_endian) is Some,
        r matches Some(e) ==> e@ == entry_record(data@, at as int, big_endian).unwrap(),
{
    if at > data.len() || 40 > data.len() - at {
        return None;
    }
    let hash = read_uint(data, at, 8, big_endian).unwrap();
    let padded_size = read_uint(data, at + 8, 4, big_endian).unwrap();
    let size = read_uint(data, at + 12, 4, big_endian).unwrap();
    let offset = read_uint(data, at + 16, 8, big_endian).unwrap();
    let encryption_offset = read_uint(data, at + 32, 8, big_endian).unwrap();
    let mut aes_key = [0u8; 16];
    let mut encrypted_ranges: Vec<(i64, i64)> = Vec::new();
    if encryption_offset != 0 {
        if encryption_offset > data.len() as u64 || 20 > data.len() - encryption_offset as usize {
            return None;
        }
        let enc = encryption_offset as usize;
        let count64 = read_uint(data, enc + 16, 4, big_endian).unwrap();
        if count64 > ((data.len() - enc - 20) / 16) as u64 {
            proof {
                assert(16 * count64 > data.len() - enc - 20) by (nonlinear_arith)
                    requires count64 > (data.len() - enc - 20) / 16, data.len() - enc - 20 >= 0;
            }
            return None;
        }
        let count = count64 as usize;
        proof {
            assert(16 * count <= data.len() - enc - 20) by (nonlinear_arith)
                requires count <= (data.len() - enc - 20) / 16, data.len() - enc - 20 >= 0;
        }
        let mut k: usize = 0;
        while k < 16
            invariant
                k <= 16,
                enc + 20 <= data.len(),
                forall|j: int| 0 <= j < k ==> aes_key@[j] == data@[enc + j],
            decreases 16 - k,
        {
            aes_key[k] = data[enc + k];
            k += 1;
        }
        let mut i: usize = 0;
        while i < count
            invariant
                i <= count,
                enc + 20 + 16 * count <= data.len(),
                encrypted_ranges@ == Seq::new(
                    i as nat,
                    |j: int| range_at(data@, enc + 20 + 16 * j, big_endian),
                ),
            decreases count - i,
        {
            proof {
                assert(enc + 20 + 16 * i + 16 <= enc + 20 + 16 * count) by (nonlinear_arith)
                    requires i < count;
            }
            let p = enc + 20 + 16 * i;
            let start = read_uint(data, p, 8, big_endian).unwrap();
            let end = read_uint(data, p + 8, 8, big_endian).unwrap();
            encrypted_ranges.push((start as i64, end as i64));
            i += 1;
            proof {
                assert(encrypted_ranges@ =~= Seq::new(
                    i as nat,
                    |j: int| range_at(data@, enc + 20 + 16 * j, big_endian),
                ));
            }
        }
        assert(aes_key@ =~= data@.subrange(enc as int, enc + 16));
    } else {
        assert(aes_key@ =~= Seq::new(16, |i: int| 0u8));
    }
    let entry = BhdTocEntry {
        hash,
        padded_size: padded_size as u32,
        size: size as u32,
        offset,
        aes_key,
        encrypted_ranges,
    };
    proof {
        let m = entry_record(data@, at as int, big_endian).unwrap();
        assert(entry@.aes_key =~= m.aes_key);
        assert(entry@.encrypted_ranges =~= m.encrypted_ranges);
    }
    Some(entry)
}

/// The entry count of bucket `b` of the table at `table`.
pub open spec fn bucket_len(data: Seq<u8>, table: int, b: int, big_endian: bool) -> nat {
    field(data, table + 8 * b, 4, big_endian)
}

/// The offset of the entry records of bucket `b` of the table at `table`.
pub open spec fn bucket_offset(data: Seq<u8>, table: int, b: int, big_endian: bool) -> int {
    field(data, table + 8 * b + 4, 4, big_endian) as int
}

/// Whether `e` is the entry record `i` of bucket `b`, for some bucket of
/// the first `n` and some record of it.
pub open spec fn is_bucket_record(data: Seq<u8>, table: int, n: nat, big_endian: bool, e: TocEntryModel) -> bool {
    exists|b: int, i: int|
        0 <= b < n && 0 <= i < bucket_len(data, table, b, big_endian) && e == #[trigger] entry_record(
            data,
            bucket_offset(data, table, b, big_endian) + 40 * i,
            big_endian,
        ).unwrap()
}

proof fn lemma_toc_ok_prefix(data: Seq<u8>, table: int, n: nat, m: nat, big_endian: bool)
    requires
        toc_ok(data, table, n, big_endian),
        m <= n,
    ensures
        toc_ok(data, table, m, big_endian),
{
    assert forall|b: int| 0 <= b < m implies #[trigger] bucket_at_ok(data, table, b, big_endian) by {
        assert(bucket_at_ok(data, table, b, big_endian));
    }
}

proof fn lemma_toc_contains_records(data: Seq<u8>, table: int, n: nat, big_endian: bool)
    requires
        toc_ok(data, table, n, big_endian),
    ensures
        forall|b: int, i: int|
            0 <= b < n && 0 <= i < bucket_len(data, table, b, big_endian) ==> toc_entries(
                data,
                table,
                n,
                big_endian,
            ).contains(
                #[trigger] entry_record(
                    data,
                    bucket_offset(data, table, b, big_endian) + 40 * i,
                    big_endian,
                ).unwrap(),
            ),
    decreases n,
{
    if n > 0 {
        let m = (n - 1) as nat;
        lemma_toc_ok_prefix(data, table, n, m, big_endian);
        lemma_toc_contains_records(data, table, m, big_endian);
        let prev = toc_entries(data, table, m, big_endian);
        let last = bucket_at(data, table, m as int, big_endian);
        let all = toc_entries(data, table, n, big_endian);
        assert(all == prev + last);
        assert forall|b: int, i: int|
            0 <= b < n && 0 <= i < bucket_len(data, table, b, big_endian) implies all.contains(
            #[trigger] entry_record(data, bucket_offset(data, table, b, big_endian) + 40 * i, big_endian).unwrap(),
        ) by {
            let e = entry_record(data, bucket_offset(data, table, b, big_endian) + 40 * i, big_endian).unwrap();
            if b < m {
                assert(prev.contains(e));
                let k = choose|k: int| 0 <= k < prev.len() && prev[k] == e;
                assert(all[k] == e);
            } else {
                assert(last[i] == e);
                assert(all[prev.len() + i] == e);
            }
        }
    }
}

proof fn lemma_toc_only_records(data: Seq<u8>, table: int, n: nat, big_endian: bool)
    requires
        toc_ok(data, table, n, big_endian),
    ensures
        forall|k: int|
            0 <= k < toc_entries(data, table, n, big_endian).len() ==> is_bucket_record(
                data,
                table,
                n,
                big_endian,
                #[trigger] toc_entries(data, table, n, big_endian)[k],
            ),
    decreases n,
{
    if n > 0 {
        let m = (n - 1) as nat;
        lemma_toc_ok_prefix(data, table, n, m, big_endian);
        lemma_toc_only_records(data, table, m, big_endian);
        let prev = toc_entries(data, table, m, big_endian);
        let last = bucket_at(data, table, m as int, big_endian);
        let all = toc_entries(data, table, n, big_endian);
        assert(all == prev + last);
        assert forall|k: int| 0 <= k < all.len() implies is_bucket_record(data, table, n, big_endian, #[trigger] all[k]) by {
            if k < prev.len() {
                assert(all[k] == prev[k]);
                assert(is_bucket_record(data, table, m, big_endian, prev[k]));
                let (b, i) = choose|b: int, i: int|
                    0 <= b < m && 0 <= i < bucket_len(data, table, b, big_endian) && prev[k]
                        == #[trigger] entry_record(data, bucket_offset(data, table, b, big_endian) + 40 * i, big_endian).unwrap();
                assert(0 <= b < n);
            } else {
                let i = k - prev.len();
                assert(last.len() == bucket_len(data, table, m as int, big_endian));
                assert(all[k] == last[i]);
                assert(last[i] == entry_record(data, bucket_offset(data, table, m as int, big_endian) + 40 * i, big_endian).unwrap());
            }
        }
    }
}

/// The entries of the first `n` buckets of the table at `table`, counted
/// with multiplicity.
pub open spec fn buckets_multiset(data: Seq<u8>, table: int, n: nat, big_endian: bool) -> Multiset<TocEntryModel>
    decreases n,
{
    if n == 0 {
        Multiset::empty()
    } else {
        buckets_multiset(data, table, (n - 1) as nat, big_endian).add(
            bucket_at(data, table, n - 1, big_endian).to_multiset(),
        )
    }
}

/// Counted with multiplicity, the decoded entries are the sum of the entries
/// of each bucket: every entry of every bucket comes out exactly as often as
/// it is stored, and the order of the buckets, a sum's order of terms, plays
/// no part.
pub proof fn lemma_toc_multiset(data: Seq<u8>, table: int, n: nat, big_endian: bool)
    ensures
        toc_entries(data, table, n, big_endian).to_multiset() == buckets_multiset(data, table, n, big_endian),
    decreases n,
{
    broadcast use vstd::seq_lib::lemma_multiset_commutative;
    if n == 0 {
        broadcast use vstd::multiset::group_multiset_axioms, vstd::seq_lib::group_to_multiset_ensures;
        assert(toc_entries(data, table, 0, big_endian) =~= Seq::<TocEntryModel>::empty());
        assert(toc_entries(data, table, 0, big_endian).to_multiset() =~= Multiset::<TocEntryModel>::empty());
    } else {
        lemma_toc_multiset(data, table, (n - 1) as nat, big_endian);
        vstd::seq_lib::lemma_multiset_commutative(
            toc_entries(data, table, (n - 1) as nat, big_endian),
            bucket_at(data, table, n - 1, big_endian),
        );
    }
}

/// Decoding a table recovers every entry record of every bucket, and nothing
/// else, however many buckets there are and in whatever order they stand.
pub proof fn lemma_toc_completeness(data: Seq<u8>, table: int, n: nat, big_endian: bool)
    requires
        toc_ok(data, table, n, big_endian),
    ensures
        forall|b: int, i: int|
            0 <= b < n && 0 <= i < bucket_len(data, table, b, big_endian) ==> toc_entries(
                data,
                table,
                n,
                big_endian,
            ).contains(
                #[trigger] entry_record(
                    data,
                    bucket_offset(data, table, b, big_endian) + 40 * i,
                    big_endian,
                ).unwrap(),
            ),
        forall|k: int|
            0 <= k < toc_entries(data, table, n, big_endian).len() ==> is_bucket_record(
                data,
                table,
                n,
                big_endian,
                #[trigger] toc_entries(data, table, n, big_endian)[k],
            ),
{
    lemma_toc_contains_records(data, table, n, big_endian);
    lemma_toc_only_records(data, table, n, big_endian);
}

/// Reads the table of `buckets` buckets that starts at `table`: for each
/// bucket its entry count and the offset of its entry records, then those
/// records. Fails as a whole when any record reaches past the end.
///
/// Encrypted ranges are returned as stored: their order is not checked here.
/// The registry and the entry reader refuse ranges that are reversed,
/// overlapping or out of order.
pub fn read_toc(data: &Vec<u8>, table: usize, buckets: u32, big_endian: bool) -> (r: Result<
    Vec<BhdTocEntry>,
    BhdError,
>)
    ensures
        r is Ok <==> toc_ok(data@, table as int, buckets as nat, big_endian),
        r matches Ok(entries) ==> entries_view(entries@) == toc_entries(
            data@,
            table as int,
            buckets as nat,
            big_endian,
        ),
        r matches Err(e) ==> e == BhdError::Truncated,
{
    let mut entries: Vec<BhdTocEntry> = Vec::new();
    let mut b: u32 = 0;
    while b < buckets
        invariant
            b <= buckets,
            forall|c: int| 0 <= c < b ==> #[trigger] bucket_at_ok(data@, table as int, c, big_endian),
            entries_view(entries@) == toc_entries(data@, table as int, b as nat, big_endian),
        decreases buckets - b,
    {
        if table > data.len() || (b as usize) >= (data.len() - table) / 8 {
            proof {
                if table <= data.len() {
                    assert(table + 8 * b + 8 > data.len()) by (nonlinear_arith)
                        requires b >= (data.len() - table) / 8, table <= data.len();
                }
                assert(!bucket_at_ok(data@, table as int, b as int, big_endian));
            }
            return Err(BhdError::Truncated);
        }
        proof {
            assert(table + 8 * b + 8 <= data.len()) by (nonlinear_arith)
                requires b < (data.len() - table) / 8, table <= data.len();
        }
        let pos = table + 8 * (b as usize);
        let count = read_uint(data, pos, 4, big_endian).unwrap();
        let offset = read_uint(data, pos + 4, 4, big_endian).unwrap();
        proof {
            lemma_pow256_4();
        }
        let ghost before = entries_view(entries@);
        let mut i: u64 = 0;
        while i < count
            invariant
                i <= count,
                b < buckets,
                count == field(data@, table + 8 * b, 4, big_endian),
                offset == field(data@, table + 8 * b + 4, 4, big_endian),
                count < 0x1_0000_0000,
                offset < 0x1_0000_0000,
                forall|j: int| 0 <= j < i ==> #[trigger] entry_record(data@, offset + 40 * j, big_endian) is Some,
                entries_view(entries@) == before + bucket_entries(data@, offset as int, i as nat, big_endian),
            decreases count - i,
        {
            let at = offset + 40 * i;
            let entry = if at > data.len() as u64 {
                None
            } else {
                read_entry(data, at as usize, big_endian)
            };
            match entry {
                None => {
                    proof {
                        assert(entry_record(data@, offset + 40 * i, big_endian) is None);
                        assert(!bucket_ok(data@, offset as int, count as nat, big_endian));
                        assert(!bucket_at_ok(data@, table as int, b as int, big_endian));
                        assert(!toc_ok(data@, table as int, buckets as nat, big_endian));
                    }
                    return Err(BhdError::Truncated);
                },
                Some(e) => {
                    let ghost prev = entries@;
                    entries.push(e);
                    i += 1;
                    proof {
                        assert(entries@ == prev.push(e));
                        assert(entries_view(entries@) =~= entries_view(prev).push(e@));
                        assert(entries_view(entries@) =~= before + bucket_entries(
                            data@,
                            offset as int,
                            i as nat,
                            big_endian,
                        ));
                    }
                },
            }
        }
        proof {
            assert(bucket_at_ok(data@, table as int, b as int, big_endian));
        }
        b += 1;
    }
    Ok(entries)
}

/// The plaintext starts with the archive signature `BHD5`.
pub open spec fn magic_ok(data: Seq<u8>) -> bool {
    &&& data.len() >= 4
    &&& data[0] == 0x42u8
    &&& data[1] == 0x48u8
    &&& data[2] == 0x44u8
    &&& data[3] == 0x35u8
}

/// The byte order that the discriminant after the signature selects: the
/// value -1 (`0xff`) selects little-endian, any other value big-endian.
pub open spec fn header_big_endian(data: Seq<u8>) -> bool {
    data[4] != 0xffu8
}

/// The salt length that a header in byte order `big_endian` gives.
pub open spec fn salt_length_of(data: Seq<u8>, big_endian: bool) -> nat {
    field(data, 24, 4, big_endian)
}

/// Whether the header record, salt included, lies inside `data`.
pub open spec fn header_data_ok(data: Seq<u8>, big_endian: bool) -> bool {
    data.len() >= 28 && 28 + salt_length_of(data, big_endian) <= data.len()
}

/// Whether `data` starts with a whole header.
pub open spec fn header_ok(data: Seq<u8>) -> bool {
    magic_ok(data) && header_data_ok(data, header_big_endian(data))
}

/// Where the bucket table starts: right after the salt.
pub open spec fn table_start(data: Seq<u8>) -> int {
    28 + salt_length_of(data, header_big_endian(data)) as int
}

/// `h` holds the header record of `data` in byte order `big_endian`.
pub open spec fn header_matches(h: BhdHeader, data: Seq<u8>, big_endian: bool) -> bool {
    &&& h.is_big_endian == big_endian
    &&& h.file_size == field(data, 12, 4, big_endian)
    &&& h.buckets == field(data, 16, 4, big_endian)
    &&& h.buckets_offset == field(data, 20, 4, big_endian)
    &&& h.salt_length == salt_length_of(data, big_endian)
    &&& h.salt@ == data.subrange(28, 28 + salt_length_of(data, big_endian) as int)
}

/// Reads the header record that follows the signature and the byte-order
/// discriminant: seven reserved bytes, the file size, the bucket count, the
/// bucket table's offset, the salt length and the salt.
pub fn read_header_data(data: &Vec<u8>, is_big_endian: bool) -> (r: Result<BhdHeader, BhdError>)
    ensures
        r is Ok <==> header_data_ok(data@, is_big_endian),
        r matches Ok(h) ==> header_matches(h, data@, is_big_endian),
        r matches Err(e) ==> e == BhdError::Truncated,
{
    if data.len() < HEADER_SIZE {
        return Err(BhdError::Truncated);
    }
    let file_size = read_uint(data, 12, 4, is_big_endian).unwrap();
    let buckets = read_uint(data, 16, 4, is_big_endian).unwrap();
    let buckets_offset = read_uint(data, 20, 4, is_big_endian).unwrap();
    let salt_length = read_uint(data, 24, 4, is_big_endian).unwrap();
    proof {
        lemma_pow256_4();
    }
    if salt_length > (data.len() - HEADER_SIZE) as u64 {
        return Err(BhdError::Truncated);
    }
    let n = salt_length as usize;
    let mut salt: Vec<u8> = Vec::new();
    let mut i: usize = 0;
    while i < n
        invariant
            i <= n,
            28 + n <= data.len(),
            salt@ == data@.subrange(28, 28 + i),
        decreases n - i,
    {
        salt.push(data[HEADER_SIZE + i]);
        i += 1;
        assert(salt@ =~= data@.subrange(28, 28 + i));
    }
    Ok(
        BhdHeader {
            is_big_endian,
            file_size: file_size as u32,
            buckets: buckets as u32,
            buckets_offset: buckets_offset as u32,
            salt_length: salt_length as u32,
            salt,
        },
    )
}

/// Reads the signature, the byte-order discriminant and the header record.
pub fn read_header(data: &Vec<u8>) -> (r: Result<BhdHeader, BhdError>)
    ensures
        r is Ok <==> header_ok(data@),
        r matches Ok(h) ==> header_matches(h, data@, header_big_endian(data@)),
        r matches Err(e) ==> (e == BhdError::BadMagic <==> data@.len() >= 4 && !magic_ok(data@)),
        r matches Err(e) ==> (e == BhdError::BadMagic || e == BhdError::Truncated),
{
    if data.len() < 4 {
        return Err(BhdError::Truncated);
    }
    if !(data[0] == 0x42u8 && data[1] == 0x48u8 && data[2] == 0x44u8 && data[3] == 0x35u8) {
        return Err(BhdError::BadMagic);
    }
    if data.len() < 5 {
        return Err(BhdError::Truncated);
    }
    let is_big_endian = data[4] != 0xffu8;
    read_header_data(data, is_big_endian)
}

/// The decoded table of contents of one archive.
pub struct Bhd {
    pub toc: Vec<BhdTocEntry>,
}

impl Bhd {
    /// Decodes the decrypted plaintext of an archive header: the header, then
    /// the bucket table that follows the salt.
    pub fn parse(data: &Vec<u8>) -> (r: Result<Bhd, BhdError>)
        ensures
            r is Ok <==> header_ok(data@) && toc_ok(
                data@,
                table_start(data@),
                field(data@, 16, 4, header_big_endian(data@)),
                header_big_endian(data@),
            ),
            r matches Ok(bhd) ==> entries_view(bhd.toc@) == toc_entries(
                data@,
                table_start(data@),
                field(data@, 16, 4, header_big_endian(data@)),
                header_big_endian(data@),
            ),
            r matches Err(e) ==> (e == BhdError::BadMagic <==> data@.len() >= 4 && !magic_ok(data@)),
            r matches Err(e) ==> (e == BhdError::BadMagic || e == BhdError::Truncated),
    {
        let header = read_header(data)?;
        proof {
            lemma_pow256_4();
        }
        assert(28 + header.salt_length <= data.len());
        let table = HEADER_SIZE + header.salt_length as usize;
        let toc = read_toc(data, table, header.buckets, header.is_big_endian)?;
        Ok(Bhd { toc })
    }
}

} // verus!
