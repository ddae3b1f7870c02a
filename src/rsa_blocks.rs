use vstd::prelude::*;

use openssl::bn::BigNum;
use openssl::error::ErrorStack;
use openssl::rsa::{Padding, Rsa};

use crate::bhd::{
    entries_view, field, header_big_endian, header_ok, magic_ok, table_start, toc_entries, toc_ok,
    Bhd, BhdError,
};

verus! {

#[verifier::external_type_specification]
#[verifier::external_body]
pub struct ExErrorStack(ErrorStack);

/// What the raw RSA public-key operation (no padding) makes of `block` under
/// the key with big-endian modulus `modulus` and exponent `exponent`; `None`
/// where the operation refuses it.
pub uninterp spec fn rsa_public_raw(modulus: Seq<u8>, exponent: Seq<u8>, block: Seq<u8>) -> Option<Seq<u8>>;

/// Relies on openssl's `Rsa::from_public_components` and
/// `RsaRef::public_decrypt` with `Padding::NONE`: the key is built from its
/// big-endian modulus and exponent, the block goes through the raw public-key
/// operation into a buffer of the modulus size, and the bytes it reports as
/// written are kept. `public_decrypt` panics on a block longer than
/// `i32::MAX` bytes.
#[verifier::external_body]
fn public_decrypt_raw(modulus: &Vec<u8>, exponent: &Vec<u8>, block: &Vec<u8>) -> (r: Result<Vec<u8>, ErrorStack>)
    requires
        modulus@.len() <= i32::MAX,
        exponent@.len() <= i32::MAX,
        block@.len() <= i32::MAX,
    ensures
        r is Ok <==> rsa_public_raw(modulus@, exponent@, block@) is Some,
        r matches Ok(v) ==> v@ == rsa_public_raw(modulus@, exponent@, block@).unwrap(),
{
    let n = BigNum::from_slice(modulus)?;
    let e = BigNum::from_slice(exponent)?;
    let key = Rsa::from_public_components(n, e)?;
    let mut out = vec![0u8; key.size() as usize];
    let len = key.public_decrypt(block, &mut out, Padding::NONE)?;
    out.truncate(len);
    Ok(out)
}

/// The plaintext of decrypted blocks: each block without its first byte, the
/// padding marker, in block order.
pub open spec fn blocks_plaintext(blocks: Seq<Seq<u8>>) -> Seq<u8>
    decreases blocks.len(),
{
    if blocks.len() == 0 {
        Seq::empty()
    } else {
        blocks_plaintext(blocks.drop_last()) + blocks.last().drop_first()
    }
}

/// The sum of the plaintext lengths of the blocks: one less than each block's
/// decrypted length.
pub open spec fn blocks_plaintext_len(blocks: Seq<Seq<u8>>) -> int
    decreases blocks.len(),
{
    if blocks.len() == 0 {
        0
    } else {
        blocks_plaintext_len(blocks.drop_last()) + blocks.last().len() - 1
    }
}

/// Every decrypted block holds a padding marker and no more than the modulus.
pub open spec fn blocks_consistent(blocks: Seq<Seq<u8>>, key_size: nat) -> bool {
    forall|i: int| 0 <= i < blocks.len() ==> 1 <= #[trigger] blocks[i].len() <= key_size
}

/// The views of the decrypted blocks.
pub open spec fn block_views(blocks: Seq<Vec<u8>>) -> Seq<Seq<u8>> {
    blocks.map_values(|b: Vec<u8>| b@)
}

/// The plaintext is as long as the sum of the blocks' own plaintext lengths,
/// whatever each block's decrypted length is.
pub proof fn lemma_plaintext_length(blocks: Seq<Seq<u8>>)
    requires
        forall|i: int| 0 <= i < blocks.len() ==> 1 <= #[trigger] blocks[i].len(),
    ensures
        blocks_plaintext(blocks).len() == blocks_plaintext_len(blocks),
    decreases blocks.len(),
{
    if blocks.len() > 0 {
        let init = blocks.drop_last();
        assert forall|i: int| 0 <= i < init.len() implies 1 <= #[trigger] init[i].len() by {
            assert(init[i] == blocks[i]);
        }
        lemma_plaintext_length(init);
        assert(1 <= blocks[blocks.len() - 1].len());
    }
}

/// Where every block decrypts to the full modulus size, the plaintext holds
/// one byte less than the modulus per block.
pub proof fn lemma_full_blocks_length(blocks: Seq<Seq<u8>>, key_size: nat)
    requires
        forall|i: int| 0 <= i < blocks.len() ==> #[trigger] blocks[i].len() == key_size,
        key_size >= 1,
    ensures
        blocks_plaintext_len(blocks) == blocks.len() * (key_size - 1),
    decreases blocks.len(),
{
    if blocks.len() > 0 {
        let init = blocks.drop_last();
        assert forall|i: int| 0 <= i < init.len() implies #[trigger] init[i].len() == key_size by {
            assert(init[i] == blocks[i]);
        }
        lemma_full_blocks_length(init, key_size);
        assert(blocks[blocks.len() - 1].len() == key_size);
        let n = init.len();
        assert(n * (key_size - 1) + key_size - 1 == (n + 1) * (key_size - 1)) by (nonlinear_arith);
    }
}

/// The `i`-th block of `file` cut in blocks of `key_size` bytes; the last one
/// may be shorter.
pub open spec fn file_block(file: Seq<u8>, key_size: nat, i: int) -> Seq<u8> {
    let start = i * key_size;
    let end = if start + key_size <= file.len() { start + key_size } else { file.len() as int };
    file.subrange(start, end)
}

/// How many blocks of `key_size` bytes `len` bytes make, the last one possibly
/// partial.
pub open spec fn block_count(len: nat, key_size: nat) -> nat
    recommends
        key_size > 0,
{
    ((len + key_size - 1) / key_size as int) as nat
}

/// Joins decrypted blocks: checks that each holds a padding marker and no
/// more than `key_size` bytes, then concatenates what follows the markers.
pub fn assemble_blocks(blocks: &Vec<Vec<u8>>, key_size: usize) -> (r: Result<Vec<u8>, BhdError>)
    ensures
        r is Ok <==> blocks_consistent(block_views(blocks@), key_size as nat),
        r matches Ok(p) ==> p@ == blocks_plaintext(block_views(blocks@)),
        r matches Ok(p) ==> p@.len() == blocks_plaintext_len(block_views(blocks@)),
        r matches Err(e) ==> e == BhdError::BlockLength,
{
    let ghost views = block_views(blocks@);
    let mut out: Vec<u8> = Vec::new();
    let mut i: usize = 0;
    while i < blocks.len()
        invariant
            i <= blocks@.len(),
            views == block_views(blocks@),
            blocks_consistent(views.subrange(0, i as int), key_size as nat),
            out@ == blocks_plaintext(views.subrange(0, i as int)),
        decreases blocks@.len() - i,
    {
        let block = &blocks[i];
        if block.len() == 0 || block.len() > key_size {
            proof {
                assert(views[i as int] == block@);
                assert(!blocks_consistent(views, key_size as nat));
            }
            return Err(BhdError::BlockLength);
        }
        let ghost before = out@;
        let mut j: usize = 1;
        while j < block.len()
            invariant
                1 <= j <= block@.len(),
                out@ == before + block@.subrange(1, j as int),
            decreases block@.len() - j,
        {
            out.push(block[j]);
            j += 1;
            assert(out@ =~= before + block@.subrange(1, j as int));
        }
        proof {
            let next = views.subrange(0, i + 1);
            assert(next.drop_last() =~= views.subrange(0, i as int));
            assert(next.last() == block@);
            assert(block@.subrange(1, block@.len() as int) =~= block@.drop_first());
            assert forall|k: int| 0 <= k < next.len() implies 1 <= #[trigger] next[k].len()
                <= key_size by {
                if k < i {
                    assert(next[k] == views.subrange(0, i as int)[k]);
                }
            }
        }
        i += 1;
    }
    proof {
        assert(views.subrange(0, i as int) =~= views);
        lemma_plaintext_length(views);
    }
    Ok(out)
}

/// Cuts `file` in blocks of `key_size` bytes, in order; the last block holds
/// what is left and may be shorter.
pub fn split_blocks(file: &Vec<u8>, key_size: usize) -> (r: Vec<Vec<u8>>)
    requires
        key_size > 0,
    ensures
        r@.len() == block_count(file@.len(), key_size as nat),
        forall|i: int| 0 <= i < r@.len() ==> (#[trigger] r@[i])@ == file_block(file@, key_size as nat, i),
        forall|i: int| 0 <= i < r@.len() ==> (#[trigger] r@[i])@.len() <= key_size,
{
    let mut blocks: Vec<Vec<u8>> = Vec::new();
    let mut pos: usize = 0;
    let ghost k = key_size as nat;
    proof {
        assert(blocks@.len() * k == 0) by (nonlinear_arith)
            requires blocks@.len() == 0;
        if file@.len() == 0 {
            assert(block_count(0, k) == 0) by (nonlinear_arith)
                requires k > 0, block_count(0, k) == (0 + k - 1) / k as int;
        }
    }
    while pos < file.len()
        invariant
            key_size > 0,
            k == key_size as nat,
            forall|i: int| 0 <= i < blocks@.len() ==> (#[trigger] blocks@[i])@.len() <= key_size,
            pos <= file@.len(),
            pos < file@.len() ==> pos == blocks@.len() * k,
            pos == file@.len() ==> blocks@.len() == block_count(file@.len(), k),
            forall|i: int| 0 <= i < blocks@.len() ==> (#[trigger] blocks@[i])@ == file_block(file@, k, i),
        decreases file@.len() - pos,
    {
        let end = if file.len() - pos < key_size { file.len() } else { pos + key_size };
        let mut block: Vec<u8> = Vec::new();
        let mut j: usize = pos;
        while j < end
            invariant
                pos <= j <= end <= file@.len(),
                block@ == file@.subrange(pos as int, j as int),
            decreases end - j,
        {
            block.push(file[j]);
            j += 1;
            assert(block@ =~= file@.subrange(pos as int, j as int));
        }
        let ghost n = blocks@.len();
        proof {
            assert(block@ == file_block(file@, k, n as int));
        }
        blocks.push(block);
        proof {
            assert((n + 1) * k == n * k + k) by (nonlinear_arith);
            if end == file@.len() {
                let len = file@.len();
                assert(n * k < len && len <= n * k + k);
                assert(block_count(len, k) == n + 1) by (nonlinear_arith)
                    requires n * k < len, len <= n * k + k, k > 0,
                        block_count(len, k) == (len + k - 1) / k as int;
            }
        }
        pos = end;
    }
    blocks
}

/// The block size of a key is the byte length of its modulus. A key is
/// usable when a block holds a padding marker and data, and its modulus and
/// exponent fit the lengths that openssl accepts.
pub open spec fn key_usable(modulus: Seq<u8>, exponent: Seq<u8>) -> bool {
    2 <= modulus.len() <= 0x7fff_ffff && exponent.len() <= 0x7fff_ffff
}

/// The raw public-key outputs of the blocks of `file`, in order.
pub open spec fn raw_outputs(file: Seq<u8>, modulus: Seq<u8>, exponent: Seq<u8>) -> Seq<Option<Seq<u8>>> {
    Seq::new(
        block_count(file.len(), modulus.len()),
        |i: int| rsa_public_raw(modulus, exponent, file_block(file, modulus.len(), i)),
    )
}

/// Every block was accepted by the public-key operation.
pub open spec fn all_decrypted(outs: Seq<Option<Seq<u8>>>) -> bool {
    forall|i: int| 0 <= i < outs.len() ==> (#[trigger] outs[i]) is Some
}

/// The outputs of the accepted blocks.
pub open spec fn unwrap_all(outs: Seq<Option<Seq<u8>>>) -> Seq<Seq<u8>> {
    Seq::new(outs.len(), |i: int| outs[i].unwrap())
}

/// Whether `file` decrypts under the key: the key is usable, every block is
/// accepted, and every output holds a marker and no more than a block.
pub open spec fn header_decrypts(file: Seq<u8>, modulus: Seq<u8>, exponent: Seq<u8>) -> bool {
    let outs = raw_outputs(file, modulus, exponent);
    key_usable(modulus, exponent) && all_decrypted(outs) && blocks_consistent(unwrap_all(outs), modulus.len())
}

/// The plaintext of `file`: the block outputs without their markers, in order.
pub open spec fn header_plaintext(file: Seq<u8>, modulus: Seq<u8>, exponent: Seq<u8>) -> Seq<u8> {
    blocks_plaintext(unwrap_all(raw_outputs(file, modulus, exponent)))
}

/// The plaintext of a list of blocks is the plaintext of its first part
/// followed by that of the rest: each block contributes on its own, in order.
pub proof fn lemma_blocks_plaintext_concat(a: Seq<Seq<u8>>, b: Seq<Seq<u8>>)
    ensures
        blocks_plaintext(a + b) == blocks_plaintext(a) + blocks_plaintext(b),
    decreases b.len(),
{
    if b.len() == 0 {
        assert(a + b =~= a);
        assert(blocks_plaintext(a) + Seq::<u8>::empty() =~= blocks_plaintext(a));
    } else {
        assert((a + b).drop_last() =~= a + b.drop_last());
        assert((a + b).last() == b.last());
        lemma_blocks_plaintext_concat(a, b.drop_last());
        assert(blocks_plaintext(a + b) =~= blocks_plaintext(a) + blocks_plaintext(b));
    }
}

/// Cutting a header file at a block boundary cuts its plaintext there too:
/// each block decrypts on its own, so the plaintext of the file is that of its
/// first `m` blocks followed by that of the rest, whatever order the blocks
/// are worked on in.
pub proof fn lemma_header_plaintext_split(file: Seq<u8>, modulus: Seq<u8>, exponent: Seq<u8>, m: nat)
    requires
        modulus.len() >= 1,
        m * modulus.len() <= file.len(),
    ensures
        header_plaintext(file, modulus, exponent) == header_plaintext(
            file.subrange(0, (m * modulus.len()) as int),
            modulus,
            exponent,
        ) + header_plaintext(file.subrange((m * modulus.len()) as int, file.len() as int), modulus, exponent),
{
    let k = modulus.len();
    let len = file.len();
    let cut = m * k;
    let f1 = file.subrange(0, cut as int);
    let f2 = file.subrange(cut as int, len as int);
    let x = (len - cut + k - 1) as int;
    let q = x / (k as int);
    let rem = x % (k as int);
    vstd::arithmetic::div_mod::lemma_fundamental_div_mod(x, k as int);
    assert(0 <= rem);
    assert(q * k <= x) by (nonlinear_arith)
        requires x == k * q + rem, 0 <= rem;
    assert(x + cut == (q + m) * k + rem) by (nonlinear_arith)
        requires x == k * q + rem, cut == m * k;
    vstd::arithmetic::div_mod::lemma_fundamental_div_mod_converse(x + cut, k as int, q + m, rem);
    assert(block_count(len, k) == m + block_count((len - cut) as nat, k));
    vstd::arithmetic::div_mod::lemma_fundamental_div_mod_converse(cut + k - 1, k as int, m as int, k - 1);
    assert(block_count(cut, k) == m);
    let all = unwrap_all(raw_outputs(file, modulus, exponent));
    let a = unwrap_all(raw_outputs(f1, modulus, exponent));
    let b = unwrap_all(raw_outputs(f2, modulus, exponent));
    assert forall|i: int| 0 <= i < m implies file_block(file, k, i) == file_block(f1, k, i) by {
        assert(i * k + k <= cut) by (nonlinear_arith)
            requires 0 <= i < m, cut == m * k;
        assert(0 <= i * k) by (nonlinear_arith)
            requires 0 <= i, k >= 1;
        assert(file_block(file, k, i) =~= file_block(f1, k, i));
    }
    assert forall|j: int| 0 <= j < b.len() implies file_block(file, k, m + j) == file_block(f2, k, j) by {
        assert((m + j) * k == cut + j * k) by (nonlinear_arith)
            requires cut == m * k;
        assert(j < q);
        assert(j * k + k <= q * k) by (nonlinear_arith)
            requires j < q, k >= 1;
        assert(j * k < len - cut);
        assert(0 <= j * k) by (nonlinear_arith)
            requires 0 <= j, k >= 1;
        assert(file_block(file, k, m + j) =~= file_block(f2, k, j));
    }
    assert(all =~= a + b) by {
        assert forall|i: int| 0 <= i < all.len() implies all[i] == (a + b)[i] by {
            if i < m {
                assert(file_block(file, k, i) == file_block(f1, k, i));
            } else {
                assert(file_block(file, k, m + (i - m)) == file_block(f2, k, i - m));
            }
        }
    }
    lemma_blocks_plaintext_concat(a, b);
}

/// Decrypts an archive header file under the key with big-endian modulus
/// `modulus` and exponent `exponent`: the file is cut in blocks of the
/// modulus size, each block goes through the raw public-key operation on its
/// own, and the outputs are joined without their padding markers.
pub fn decrypt_header(file: &Vec<u8>, modulus: &Vec<u8>, exponent: &Vec<u8>) -> (r: Result<Vec<u8>, BhdError>)
    ensures
        r is Ok <==> header_decrypts(file@, modulus@, exponent@),
        r matches Ok(p) ==> p@ == header_plaintext(file@, modulus@, exponent@),
        r matches Err(e) ==> (e == BhdError::BadKey <==> !key_usable(modulus@, exponent@)),
        r matches Err(e) ==> (e == BhdError::BadKey || e == BhdError::Decrypt || e
            == BhdError::BlockLength),
{
    let key_size = modulus.len();
    if key_size < 2 || key_size > 0x7fff_ffff || exponent.len() > 0x7fff_ffff {
        return Err(BhdError::BadKey);
    }
    let ghost outs = raw_outputs(file@, modulus@, exponent@);
    let blocks = split_blocks(file, key_size);
    let mut outputs: Vec<Vec<u8>> = Vec::new();
    let mut i: usize = 0;
    while i < blocks.len()
        invariant
            i <= blocks@.len(),
            2 <= key_size <= 0x7fff_ffff,
            key_size == modulus@.len(),
            exponent@.len() <= 0x7fff_ffff,
            outs == raw_outputs(file@, modulus@, exponent@),
            blocks@.len() == outs.len(),
            outputs@.len() == i,
            forall|j: int| 0 <= j < blocks@.len() ==> (#[trigger] blocks@[j])@ == file_block(file@, key_size as nat, j),
            forall|j: int| 0 <= j < blocks@.len() ==> (#[trigger] blocks@[j])@.len() <= key_size,
            forall|j: int| 0 <= j < i ==> (#[trigger] outs[j]) is Some && outputs@[j]@ == outs[j].unwrap(),
        decreases blocks@.len() - i,
    {
        match public_decrypt_raw(modulus, exponent, &blocks[i]) {
            Ok(output) => outputs.push(output),
            Err(_) => {
                proof {
                    assert(outs[i as int] is None);
                    assert(!all_decrypted(outs));
                }
                return Err(BhdError::Decrypt);
            },
        }
        i += 1;
    }
    proof {
        assert(block_views(outputs@) =~= unwrap_all(outs));
    }
    assemble_blocks(&outputs, key_size)
}

impl Bhd {
    /// Decrypts an archive header file under the key with big-endian modulus
    /// `modulus` and exponent `exponent`, and decodes the plaintext.
    pub fn read(file: &Vec<u8>, modulus: &Vec<u8>, exponent: &Vec<u8>) -> (r: Result<Bhd, BhdError>)
        ensures
            r is Ok <==> header_decrypts(file@, modulus@, exponent@) && {
                let p = header_plaintext(file@, modulus@, exponent@);
                header_ok(p) && toc_ok(
                    p,
                    table_start(p),
                    field(p, 16, 4, header_big_endian(p)),
                    header_big_endian(p),
                )
            },
            r matches Ok(bhd) ==> {
                let p = header_plaintext(file@, modulus@, exponent@);
                entries_view(bhd.toc@) == toc_entries(
                    p,
                    table_start(p),
                    field(p, 16, 4, header_big_endian(p)),
                    header_big_endian(p),
                )
            },
            r matches Err(e) ==> (e == BhdError::BadKey <==> !key_usable(modulus@, exponent@)),
            r matches Err(e) ==> (e == BhdError::Decrypt || e == BhdError::BlockLength) ==> !header_decrypts(
                file@,
                modulus@,
                exponent@,
            ),
            r matches Err(e) ==> (e == BhdError::Truncated ==> header_decrypts(file@, modulus@, exponent@)),
            r matches Err(e) ==> (e == BhdError::BadMagic <==> header_decrypts(file@, modulus@, exponent@)
                && {
                let p = header_plaintext(file@, modulus@, exponent@);
                p.len() >= 4 && !magic_ok(p)
            }),
    {
        let plaintext = decrypt_header(file, modulus, exponent)?;
        assert(header_decrypts(file@, modulus@, exponent@));
        Bhd::parse(&plaintext)
    }
}

} // verus!
