//! Encoding an archive: one linear pass that emits the header, the
//! allocation table, the name table and the data region, fixed to big-endian.
//!
//! `encoded_as` pins down every byte of the output; `encode` succeeds exactly
//! when the archive fits the format's fixed-width fields.
use crate::bytes::{be16, be32, push_bytes, push_u16_be, push_u32_be, push_zeros};
use crate::layout::{align4, align32, data_begin_of, data_end_of, data_region_base_of, data_size,
    encode_fits, entry_word, file_name_length, hash, lemma_align4, lemma_data_mono,
    lemma_name_block, lemma_name_table_size_mono, lemma_name_table_size_props, name_block_len,
    name_table_data_base, name_table_size, spec_hash, total_size, type_word};
use crate::{Sarc, SarcFile, BOM_BE, HASH_MULTIPLIER, SARC_HEADER_LENGTH, SARC_MAGIC,
    SFAT_HEADER_LENGTH, SFAT_MAGIC, SFNT_HEADER_LENGTH, SFNT_MAGIC};
use vstd::prelude::*;
use vstd::string::StringSliceAdditionalSpecFns;
use vstd::utf8::encode_utf8;

verus! {

/// Why an encode failed.
#[derive(Debug, Clone, Copy, PartialEq, Eq, Structural)]
pub enum Error {
    /// The archive exceeds a fixed-width field of the format: more than
    /// 0xFFFF files, a name table past the 24-bit word indices, or a total
    /// size past 32 bits.
    TooLarge,
}

/// Byte offset of node `i`'s record in an encoded archive.
pub open spec fn node_rec_off(i: int) -> int {
    32 + 16 * i
}

/// The archive header and allocation-table header fields of an encoded
/// archive.
pub open spec fn header_bytes_ok(b: Seq<u8>, files: Seq<SarcFile>) -> bool {
    &&& be32(b, 0) == SARC_MAGIC
    &&& be16(b, 4) == SARC_HEADER_LENGTH
    &&& be16(b, 6) == BOM_BE
    &&& be32(b, 8) as int == total_size(files)
    &&& be32(b, 12) as int == data_region_base_of(files)
    &&& be32(b, 16) == 0x0100_0000u32
    &&& be32(b, 20) == SFAT_MAGIC
    &&& be16(b, 24) == SFAT_HEADER_LENGTH
    &&& be16(b, 26) as int == files.len()
    &&& be32(b, 28) == HASH_MULTIPLIER
}

/// Node `i`'s record in an encoded archive: name hash, type word, and the
/// aligned data span.
pub open spec fn node_rec_ok(b: Seq<u8>, files: Seq<SarcFile>, i: int) -> bool {
    &&& be32(b, node_rec_off(i)) == spec_hash(encode_utf8(files[i].name@), HASH_MULTIPLIER)
    &&& be32(b, node_rec_off(i) + 4) as int == type_word(files, i)
    &&& be32(b, node_rec_off(i) + 8) as int == data_begin_of(files, i)
    &&& be32(b, node_rec_off(i) + 12) as int == data_end_of(files, i)
}

/// The name-table header fields of an encoded archive.
pub open spec fn sfnt_header_ok(b: Seq<u8>, files: Seq<SarcFile>) -> bool {
    let n = files.len() as int;
    &&& be32(b, 32 + 16 * n) == SFNT_MAGIC
    &&& be16(b, 32 + 16 * n + 4) == SFNT_HEADER_LENGTH
    &&& be16(b, 32 + 16 * n + 6) == 0u16
}

/// File `i`'s block in the name table: its UTF-8 bytes, then zeros out to
/// the block's aligned end; empty names have no block.
pub open spec fn name_region_ok(b: Seq<u8>, files: Seq<SarcFile>, i: int) -> bool {
    let s = name_table_data_base(files.len() as int) + name_table_size(files, i);
    let nb = encode_utf8(files[i].name@);
    files[i].name@.len() > 0 ==> {
        &&& b.subrange(s, s + nb.len()) == nb
        &&& forall|j: int|
            nb.len() <= j < name_block_len(files[i].name@) ==> #[trigger] b[s + j] == 0
    }
}

/// File `i`'s payload in the data region, zero-padded out to 4 bytes unless
/// it is the last.
pub open spec fn data_region_ok(b: Seq<u8>, files: Seq<SarcFile>, i: int) -> bool {
    let drb = data_region_base_of(files);
    &&& b.subrange(drb + data_begin_of(files, i), drb + data_end_of(files, i)) == files[i].data@
    &&& (i + 1 < files.len() ==> forall|j: int|
        data_end_of(files, i) <= j < align4(data_end_of(files, i)) ==> #[trigger] b[drb + j]
            == 0)
}

/// True when `b` is exactly the encoding of `files`: the fixed headers, one
/// node record per file, the name blocks, and the aligned payloads.
pub open spec fn encoded_as(b: Seq<u8>, files: Seq<SarcFile>) -> bool {
    let n = files.len() as int;
    &&& b.len() == total_size(files)
    &&& header_bytes_ok(b, files)
    &&& forall|i: int| 0 <= i < n ==> node_rec_ok(b, files, i)
    &&& sfnt_header_ok(b, files)
    &&& forall|i: int| 0 <= i < n ==> name_region_ok(b, files, i)
    &&& forall|i: int| 0 <= i < n ==> data_region_ok(b, files, i)
}

/// Fixed-position reads below a preserved prefix are unchanged when a buffer
/// grows.
proof fn lemma_reads_preserved(a: Seq<u8>, c: Seq<u8>)
    requires
        a.len() <= c.len(),
        forall|j: int| 0 <= j < a.len() ==> c[j] == a[j],
    ensures
        forall|p: int| 0 <= p && p + 2 <= a.len() ==> #[trigger] be16(c, p) == be16(a, p),
        forall|p: int| 0 <= p && p + 4 <= a.len() ==> #[trigger] be32(c, p) == be32(a, p),
        forall|p: int, q: int|
            0 <= p <= q <= a.len() ==> #[trigger] c.subrange(p, q) == a.subrange(p, q),
{
    assert forall|p: int, q: int| 0 <= p <= q <= a.len() implies #[trigger] c.subrange(p, q)
        == a.subrange(p, q) by {
        assert(c.subrange(p, q) =~= a.subrange(p, q));
    }
}

/// Every payload's offsets stay inside the data region.
proof fn lemma_data_end_bound(files: Seq<SarcFile>, i: int)
    requires
        0 <= i < files.len(),
    ensures
        0 <= data_begin_of(files, i) <= data_end_of(files, i) <= data_size(files),
{
    let n = files.len() as int;
    lemma_data_mono(files, i, n - 1);
}

/// Splitting a sum of multiples of 4 splits its quarter.
proof fn lemma_div4_add(a: int, b: int)
    requires
        a % 4 == 0,
        b % 4 == 0,
    ensures
        (a + b) / 4 == a / 4 + b / 4,
{
    assert((a + b) / 4 == a / 4 + b / 4) by (nonlinear_arith)
        requires
            a % 4 == 0,
            b % 4 == 0,
    ;
}

/// Sums the name-table size, failing once the 24-bit word indices would
/// overflow.
#[verifier::rlimit(50)]
fn check_name_table(archive: &Sarc) -> (r: Result<u64, Error>)
    ensures
        match r {
            Ok(nts) => nts == name_table_size(archive.files@, archive.files@.len() as int) && nts
                <= 0x03FF_FFFC,
            Err(e) => name_table_size(archive.files@, archive.files@.len() as int) > 0x03FF_FFFC
                && e == Error::TooLarge,
        },
{
    let ghost files = archive.files@;
    let n = archive.files.len();
    let mut nts: u64 = 0;
    let mut i: usize = 0;
    while i < n
        invariant
            files == archive.files@,
            n == files.len(),
            i <= n,
            nts == name_table_size(files, i as int),
            nts <= 0x03FF_FFFC,
        decreases n - i,
    {
        let f = &archive.files[i];
        proof {
            lemma_name_block(f.name@);
            lemma_name_table_size_props(files, i as int);
            lemma_name_table_size_mono(files, i + 1, n as int);
        }
        if !f.name.as_str().is_empty() {
            let name_len = f.name.as_str().as_bytes().len();
            if name_len as u64 > 0x03FF_FFFB {
                return Err(Error::TooLarge);
            }
            let block = align32(name_len as u32 + 1);
            if nts + block as u64 > 0x03FF_FFFC {
                return Err(Error::TooLarge);
            }
            nts = nts + block as u64;
        }
        i = i + 1;
    }
    Ok(nts)
}

/// Sums the data-region size, failing once an offset leaves 32 bits.
#[verifier::rlimit(50)]
fn check_data_size(archive: &Sarc) -> (r: Result<u64, Error>)
    ensures
        match r {
            Ok(dsize) => dsize == data_size(archive.files@) && dsize <= 0xFFFF_FFFF,
            Err(e) => data_size(archive.files@) > 0xFFFF_FFFF && e == Error::TooLarge,
        },
{
    let ghost files = archive.files@;
    let n = archive.files.len();
    let mut cur: u64 = 0;
    let mut last_end: u64 = 0;
    let mut i: usize = 0;
    while i < n
        invariant
            files == archive.files@,
            n == files.len(),
            i <= n,
            i < n ==> cur == data_begin_of(files, i as int),
            cur <= 0xFFFF_FFFF,
            last_end == if i == 0 {
                0int
            } else {
                data_end_of(files, i - 1)
            },
            last_end <= 0xFFFF_FFFF,
        decreases n - i,
    {
        let dlen = archive.files[i].data.len();
        proof {
            lemma_data_end_bound(files, i as int);
            if i + 1 < n {
                lemma_data_end_bound(files, i + 1);
                lemma_data_mono(files, i as int, i + 1);
            }
            lemma_align4(data_begin_of(files, i as int) + files[i as int].data@.len());
        }
        if dlen as u64 > 0xFFFF_FFFF - cur {
            return Err(Error::TooLarge);
        }
        let end = cur + dlen as u64;
        if i + 1 < n {
            let aligned = if end % 4 == 0 {
                end
            } else {
                end - end % 4 + 4
            };
            if aligned > 0xFFFF_FFFF {
                return Err(Error::TooLarge);
            }
            cur = aligned;
        } else {
            cur = end;
        }
        last_end = end;
        i = i + 1;
    }
    Ok(last_end)
}

/// Emits one node record per file: hash, type word, and aligned data span.
#[verifier::rlimit(50)]
fn emit_nodes(out: &mut Vec<u8>, archive: &Sarc)
    requires
        old(out)@.len() == 32,
        archive.files@.len() <= 0xFFFF,
        encode_fits(archive.files@),
        header_bytes_ok(old(out)@, archive.files@),
    ensures
        final(out)@.len() == 32 + 16 * archive.files@.len(),
        header_bytes_ok(final(out)@, archive.files@),
        forall|j: int|
            0 <= j < archive.files@.len() ==> node_rec_ok(final(out)@, archive.files@, j),
{
    let ghost files = archive.files@;
    let n = archive.files.len();
    let mut entry: u32 = 0;
    let mut begin: u32 = 0;
    let mut i: usize = 0;
    while i < n
        invariant
            files == archive.files@,
            n == files.len(),
            n <= 0xFFFF,
            encode_fits(files),
            i <= n,
            out@.len() == 32 + 16 * i,
            header_bytes_ok(out@, files),
            forall|j: int| 0 <= j < i ==> node_rec_ok(out@, files, j),
            entry as int == entry_word(files, i as int),
            i < n ==> begin as int == data_begin_of(files, i as int),
        decreases n - i,
    {
        let ghost b0 = out@;
        let f = &archive.files[i];
        proof {
            lemma_name_table_size_props(files, i as int);
            lemma_name_table_size_props(files, n as int);
            lemma_name_table_size_mono(files, i as int, n as int);
            lemma_name_table_size_mono(files, i + 1, n as int);
            lemma_name_block(f.name@);
            lemma_data_end_bound(files, i as int);
            if i + 1 < n {
                lemma_data_end_bound(files, i + 1);
                lemma_data_mono(files, i as int, i + 1);
            }
            lemma_align4(data_begin_of(files, i as int) + files[i as int].data@.len());
        }
        let h = hash(f.name.as_str(), HASH_MULTIPLIER);
        let fnl = file_name_length(f.name.as_str());
        let mut encoded_entry = entry;
        if fnl > 0 {
            proof {
                let e = entry;
                assert(e <= 0xFFFFFF ==> (e | (1u32 << 24)) == e + 0x0100_0000) by (bit_vector);
            }
            encoded_entry = encoded_entry | (1u32 << 24u32);
        }
        let dlen = f.data.len();
        let end = begin + dlen as u32;
        push_u32_be(out, h);
        push_u32_be(out, encoded_entry);
        push_u32_be(out, begin);
        push_u32_be(out, end);
        proof {
            lemma_reads_preserved(b0, out@);
            assert(node_rec_ok(out@, files, i as int));
            assert forall|j: int| 0 <= j < i + 1 implies node_rec_ok(out@, files, j) by {
                if j < i {
                    assert(node_rec_ok(b0, files, j));
                }
            }
            lemma_div4_add(name_table_size(files, i as int), name_block_len(f.name@));
        }
        if i + 1 < n {
            begin = align32(end);
        }
        entry = entry + fnl / 4;
        i = i + 1;
    }
}

/// Emits the name table: its header, then each name's bytes, terminator and
/// alignment zeros.
#[verifier::rlimit(50)]
fn emit_names(out: &mut Vec<u8>, archive: &Sarc)
    requires
        old(out)@.len() == 32 + 16 * archive.files@.len(),
        archive.files@.len() <= 0xFFFF,
        encode_fits(archive.files@),
        header_bytes_ok(old(out)@, archive.files@),
        forall|j: int|
            0 <= j < archive.files@.len() ==> node_rec_ok(old(out)@, archive.files@, j),
    ensures
        final(out)@.len() == data_region_base_of(archive.files@),
        header_bytes_ok(final(out)@, archive.files@),
        forall|j: int|
            0 <= j < archive.files@.len() ==> node_rec_ok(final(out)@, archive.files@, j),
        sfnt_header_ok(final(out)@, archive.files@),
        forall|j: int|
            0 <= j < archive.files@.len() ==> name_region_ok(final(out)@, archive.files@, j),
{
    let ghost files = archive.files@;
    let n = archive.files.len();
    let ghost b1 = out@;
    push_u32_be(out, SFNT_MAGIC);
    push_u16_be(out, SFNT_HEADER_LENGTH);
    push_u16_be(out, 0);
    proof {
        lemma_reads_preserved(b1, out@);
        assert(out@.len() == name_table_data_base(n as int));
        assert forall|j: int| 0 <= j < n implies node_rec_ok(out@, files, j) by {
            assert(node_rec_ok(b1, files, j));
        }
    }
    let mut i: usize = 0;
    while i < n
        invariant
            files == archive.files@,
            n == files.len(),
            n <= 0xFFFF,
            encode_fits(files),
            i <= n,
            out@.len() == name_table_data_base(n as int) + name_table_size(files, i as int),
            header_bytes_ok(out@, files),
            forall|j: int| 0 <= j < n ==> node_rec_ok(out@, files, j),
            sfnt_header_ok(out@, files),
            forall|j: int| 0 <= j < i ==> name_region_ok(out@, files, j),
        decreases n - i,
    {
        let ghost b0 = out@;
        let f = &archive.files[i];
        proof {
            lemma_name_table_size_props(files, i as int);
            lemma_name_table_size_props(files, n as int);
            lemma_name_table_size_mono(files, i as int, n as int);
            lemma_name_table_size_mono(files, i + 1, n as int);
            lemma_name_block(f.name@);
        }
        if !f.name.as_str().is_empty() {
            let nb = f.name.as_str().as_bytes();
            let fnl = file_name_length(f.name.as_str());
            push_bytes(out, nb);
            let ghost b_mid = out@;
            push_zeros(out, fnl as usize - nb.len());
            proof {
                lemma_reads_preserved(b0, out@);
                lemma_reads_preserved(b_mid, out@);
                assert(out@.subrange(b0.len() as int, b0.len() as int + nb@.len() as int) =~= nb@);
                assert(name_region_ok(out@, files, i as int));
            }
        } else {
            proof {
                assert(name_region_ok(out@, files, i as int));
            }
        }
        proof {
            lemma_reads_preserved(b0, out@);
            assert(header_bytes_ok(out@, files));
            assert forall|j: int| 0 <= j < n implies node_rec_ok(out@, files, j) by {
                assert(node_rec_ok(b0, files, j));
            }
            assert(sfnt_header_ok(out@, files));
            assert forall|j: int| 0 <= j < i + 1 implies name_region_ok(out@, files, j) by {
                if j < i {
                    lemma_name_table_size_props(files, j);
                    lemma_name_table_size_mono(files, j + 1, i as int);
                    lemma_name_block(files[j].name@);
                    assert(name_region_ok(b0, files, j));
                }
            }
        }
        i = i + 1;
    }
}

/// Emits the data region: each payload, zero-padded to 4 bytes except the
/// last.
#[verifier::rlimit(50)]
fn emit_data(out: &mut Vec<u8>, archive: &Sarc)
    requires
        old(out)@.len() == data_region_base_of(archive.files@),
        archive.files@.len() <= 0xFFFF,
        encode_fits(archive.files@),
        header_bytes_ok(old(out)@, archive.files@),
        forall|j: int|
            0 <= j < archive.files@.len() ==> node_rec_ok(old(out)@, archive.files@, j),
        sfnt_header_ok(old(out)@, archive.files@),
        forall|j: int|
            0 <= j < archive.files@.len() ==> name_region_ok(old(out)@, archive.files@, j),
    ensures
        encoded_as(final(out)@, archive.files@),
{
    let ghost files = archive.files@;
    let n = archive.files.len();
    let mut begin: u32 = 0;
    let mut i: usize = 0;
    while i < n
        invariant
            files == archive.files@,
            n == files.len(),
            n <= 0xFFFF,
            encode_fits(files),
            i <= n,
            out@.len() == data_region_base_of(files) + if i < n {
                data_begin_of(files, i as int)
            } else {
                data_size(files)
            },
            i < n ==> begin as int == data_begin_of(files, i as int),
            header_bytes_ok(out@, files),
            forall|j: int| 0 <= j < n ==> node_rec_ok(out@, files, j),
            sfnt_header_ok(out@, files),
            forall|j: int| 0 <= j < n ==> name_region_ok(out@, files, j),
            forall|j: int| 0 <= j < i ==> data_region_ok(out@, files, j),
        decreases n - i,
    {
        let ghost b0 = out@;
        let f = &archive.files[i];
        proof {
            lemma_data_end_bound(files, i as int);
            if i + 1 < n {
                lemma_data_end_bound(files, i + 1);
                lemma_data_mono(files, i as int, i + 1);
            }
            lemma_align4(data_begin_of(files, i as int) + files[i as int].data@.len());
            lemma_name_table_size_props(files, n as int);
        }
        let dlen = f.data.len();
        let end = begin + dlen as u32;
        push_bytes(out, f.data.as_slice());
        let ghost b_mid = out@;
        if i + 1 < n {
            let aligned = align32(end);
            push_zeros(out, (aligned - end) as usize);
            begin = aligned;
        } else {
            begin = end;
        }
        proof {
            lemma_reads_preserved(b0, out@);
            lemma_reads_preserved(b_mid, out@);
            assert(out@.subrange(b0.len() as int, b0.len() as int + f.data@.len() as int)
                =~= f.data@);
            assert(data_region_ok(out@, files, i as int));
            assert(header_bytes_ok(out@, files));
            assert forall|j: int| 0 <= j < n implies node_rec_ok(out@, files, j) by {
                assert(node_rec_ok(b0, files, j));
            }
            assert(sfnt_header_ok(out@, files));
            assert forall|j: int| 0 <= j < n implies name_region_ok(out@, files, j) by {
                lemma_name_table_size_props(files, j);
                lemma_name_table_size_mono(files, j + 1, n as int);
                lemma_name_block(files[j].name@);
                assert(name_region_ok(b0, files, j));
            }
            assert forall|j: int| 0 <= j < i + 1 implies data_region_ok(out@, files, j) by {
                if j < i {
                    lemma_data_end_bound(files, j);
                    lemma_align4(data_end_of(files, j));
                    lemma_data_mono(files, j, i as int);
                    if j + 1 < i {
                        lemma_data_mono(files, j + 1, i as int);
                    }
                    assert(data_region_ok(b0, files, j));
                }
            }
        }
        i = i + 1;
    }
    proof {
        assert(out@.len() == total_size(files));
    }
}

/// In any encoded archive, every data offset except the first is a multiple
/// of 4, and every non-empty name block length is a positive multiple of 4.
pub proof fn lemma_encoded_alignment(b: Seq<u8>, files: Seq<SarcFile>, i: int)
    requires
        encoded_as(b, files),
        0 <= i < files.len(),
    ensures
        i >= 1 ==> be32(b, node_rec_off(i) + 8) as int % 4 == 0,
        files[i].name@.len() > 0 ==> name_block_len(files[i].name@) % 4 == 0 && name_block_len(
            files[i].name@,
        ) > 0,
{
    assert(node_rec_ok(b, files, i));
    if i >= 1 {
        crate::layout::lemma_data_offsets_aligned(files, i);
    }
    lemma_name_block(files[i].name@);
}

/// Encodes the archive into one contiguous buffer, in the canonical (big
/// endian) byte order.
///
/// Succeeds exactly when the archive fits the format's fixed-width fields;
/// on success every byte of the result is pinned down by `encoded_as`.
pub fn encode(archive: &Sarc) -> (r: Result<Vec<u8>, Error>)
    ensures
        match r {
            Ok(out) => encode_fits(archive.files@) && encoded_as(out@, archive.files@),
            Err(e) => !encode_fits(archive.files@) && e == Error::TooLarge,
        },
{
    let ghost files = archive.files@;
    let n = archive.files.len();
    if n > 0xFFFF {
        return Err(Error::TooLarge);
    }
    let nts = match check_name_table(archive) {
        Ok(nts) => nts,
        Err(e) => {
            return Err(e);
        },
    };
    let dsize = match check_data_size(archive) {
        Ok(dsize) => dsize,
        Err(e) => {
            proof {
                lemma_name_table_size_props(files, n as int);
            }
            return Err(e);
        },
    };
    let drb = 40 + 16 * (n as u64) + nts;
    let total = drb + dsize;
    if total > 0xFFFF_FFFF {
        return Err(Error::TooLarge);
    }
    proof {
        assert(drb == data_region_base_of(files));
        assert(total == total_size(files));
        assert(encode_fits(files));
    }

    let mut out: Vec<u8> = Vec::new();
    push_u32_be(&mut out, SARC_MAGIC);
    push_u16_be(&mut out, SARC_HEADER_LENGTH);
    push_u16_be(&mut out, BOM_BE);
    push_u32_be(&mut out, total as u32);
    push_u32_be(&mut out, drb as u32);
    push_u32_be(&mut out, 0x0100_0000);
    push_u32_be(&mut out, SFAT_MAGIC);
    push_u16_be(&mut out, SFAT_HEADER_LENGTH);
    push_u16_be(&mut out, n as u16);
    push_u32_be(&mut out, HASH_MULTIPLIER);
    proof {
        assert(out@.len() == 32);
        assert(header_bytes_ok(out@, files));
    }
    emit_nodes(&mut out, archive);
    emit_names(&mut out, archive);
    emit_data(&mut out, archive);
    Ok(out)
}

} // verus!
