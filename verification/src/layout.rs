//! Shared layout arithmetic: 4-byte alignment, name-block sizes, the rolling
//! name hash, and the offset/size functions that fix where every part of an
//! encoded archive stands.
use crate::SarcFile;
use vstd::prelude::*;
use vstd::string::StringSliceAdditionalSpecFns;
use vstd::utf8::encode_utf8;
use vstd::wrapping::u32_specs;

verus! {

/// `v` rounded up to the next multiple of 4.
pub open spec fn align4(v: int) -> int {
    if v % 4 == 0 {
        v
    } else {
        v + 4 - v % 4
    }
}

/// Rounding up to 4 moves by less than 4 and lands on a multiple of 4.
pub proof fn lemma_align4(v: int)
    requires
        v >= 0,
    ensures
        v <= align4(v) < v + 4,
        align4(v) % 4 == 0,
{
}

/// Rounds `x` up to the next multiple of 4.
pub fn align32(x: u32) -> (r: u32)
    requires
        align4(x as int) <= u32::MAX,
    ensures
        r == align4(x as int),
{
    if x % 4 == 0 {
        x
    } else {
        x - x % 4 + 4
    }
}

/// Byte length of a name's block in the name table: zero for the empty name,
/// else the UTF-8 byte length plus one terminator, rounded up to 4.
pub open spec fn name_block_len(name: Seq<char>) -> int {
    if name.len() == 0 {
        0
    } else {
        align4(encode_utf8(name).len() as int + 1)
    }
}

/// A name block is never negative, is a multiple of 4, and covers the name's
/// bytes and its terminator when the name is non-empty.
pub proof fn lemma_name_block(name: Seq<char>)
    ensures
        name_block_len(name) % 4 == 0,
        0 <= name_block_len(name),
        name.len() > 0 ==> encode_utf8(name).len() + 1 <= name_block_len(name) < encode_utf8(
            name,
        ).len() + 5,
{
    if name.len() > 0 {
        lemma_align4(encode_utf8(name).len() as int + 1);
    }
}

/// Byte length of a file's block in the name table.
pub fn file_name_length(s: &str) -> (r: u32)
    requires
        name_block_len(s@) <= u32::MAX,
    ensures
        r == name_block_len(s@),
{
    if s.is_empty() {
        0
    } else {
        proof {
            lemma_align4(s.spec_bytes().len() as int + 1);
        }
        align32(s.len() as u32 + 1)
    }
}

/// The rolling hash of a byte sequence: each byte added onto the accumulator
/// times the multiplier, in 32-bit wraparound arithmetic. The empty sequence
/// hashes to 0.
pub open spec fn spec_hash(bytes: Seq<u8>, multiplier: u32) -> u32
    decreases bytes.len(),
{
    if bytes.len() == 0 {
        0
    } else {
        u32_specs::wrapping_add(
            bytes.last() as u32,
            u32_specs::wrapping_mul(spec_hash(bytes.drop_last(), multiplier), multiplier),
        )
    }
}

/// Rolling hash of a file name's UTF-8 bytes. Depends on the name's
/// characters and the multiplier alone; the empty name hashes to 0.
pub fn hash(name: &str, multiplier: u32) -> (r: u32)
    ensures
        r == spec_hash(encode_utf8(name@), multiplier),
        name@.len() == 0 ==> r == 0,
{
    let bytes = name.as_bytes();
    let n = bytes.len();
    let mut acc: u32 = 0;
    let mut i: usize = 0;
    proof {
        assert(bytes@.subrange(0, 0) =~= Seq::<u8>::empty());
    }
    while i < n
        invariant
            i <= n,
            n == bytes@.len(),
            bytes@ == encode_utf8(name@),
            acc == spec_hash(bytes@.subrange(0, i as int), multiplier),
        decreases n - i,
    {
        acc = (bytes[i] as u32).wrapping_add(acc.wrapping_mul(multiplier));
        proof {
            let pre = bytes@.subrange(0, i + 1);
            assert(pre.drop_last() =~= bytes@.subrange(0, i as int));
            assert(pre.last() == bytes@[i as int]);
        }
        i = i + 1;
    }
    proof {
        assert(bytes@.subrange(0, n as int) =~= bytes@);
    }
    acc
}

/// Total byte size of the name table over the first `i` files.
pub open spec fn name_table_size(files: Seq<SarcFile>, i: int) -> int
    decreases i,
{
    if i <= 0 {
        0
    } else {
        name_table_size(files, i - 1) + name_block_len(files[i - 1].name@)
    }
}

/// A name-table prefix sum is a non-negative multiple of 4.
pub proof fn lemma_name_table_size_props(files: Seq<SarcFile>, i: int)
    requires
        0 <= i,
    ensures
        0 <= name_table_size(files, i),
        name_table_size(files, i) % 4 == 0,
    decreases i,
{
    if i > 0 {
        lemma_name_table_size_props(files, i - 1);
        lemma_name_block(files[i - 1].name@);
    }
}

/// Name-table prefix sums grow with the file count.
pub proof fn lemma_name_table_size_mono(files: Seq<SarcFile>, i: int, j: int)
    requires
        0 <= i <= j,
    ensures
        name_table_size(files, i) <= name_table_size(files, j),
    decreases j - i,
{
    if i < j {
        lemma_name_table_size_mono(files, i, j - 1);
        lemma_name_block(files[j - 1].name@);
    }
}

/// Data-region offset at which file `i`'s payload begins: the previous
/// payload's end rounded up to 4, or 0 for the first file.
pub open spec fn data_begin_of(files: Seq<SarcFile>, i: int) -> int
    decreases i,
{
    if i <= 0 {
        0
    } else {
        align4(data_begin_of(files, i - 1) + files[i - 1].data@.len())
    }
}

/// Data-region offset just past file `i`'s payload.
pub open spec fn data_end_of(files: Seq<SarcFile>, i: int) -> int {
    data_begin_of(files, i) + files[i].data@.len()
}

/// Data offsets are non-negative.
pub proof fn lemma_data_offsets(files: Seq<SarcFile>, i: int)
    requires
        0 <= i,
    ensures
        0 <= data_begin_of(files, i),
    decreases i,
{
    if i > 0 {
        lemma_data_offsets(files, i - 1);
        lemma_align4(data_begin_of(files, i - 1) + files[i - 1].data@.len());
    }
}

/// Data offsets grow along the file list: an earlier payload ends before a
/// later one begins.
pub proof fn lemma_data_mono(files: Seq<SarcFile>, j: int, k: int)
    requires
        0 <= j <= k,
    ensures
        0 <= data_begin_of(files, j) <= data_end_of(files, j),
        j < k ==> data_end_of(files, j) <= data_begin_of(files, k),
        data_end_of(files, j) <= data_end_of(files, k),
    decreases k - j,
{
    lemma_data_offsets(files, j);
    if j < k {
        lemma_data_mono(files, j, k - 1);
        lemma_data_mono(files, k - 1, k - 1);
        lemma_align4(data_begin_of(files, k - 1) + files[k - 1].data@.len());
    }
}

/// Total byte size of the data region: every payload padded out to 4 bytes
/// except the last, which stays unpadded.
pub open spec fn data_size(files: Seq<SarcFile>) -> int {
    if files.len() == 0 {
        0
    } else {
        data_end_of(files, files.len() - 1)
    }
}

/// Byte offset at which name strings begin, with `n` nodes in the table.
pub open spec fn name_table_data_base(n: int) -> int {
    16 * n + 0x28
}

/// Byte offset of the data region in an encoded archive.
pub open spec fn data_region_base_of(files: Seq<SarcFile>) -> int {
    name_table_data_base(files.len() as int) + name_table_size(files, files.len() as int)
}

/// Total byte size of an encoded archive.
pub open spec fn total_size(files: Seq<SarcFile>) -> int {
    data_region_base_of(files) + data_size(files)
}

/// Name-table word index of file `i`'s name block.
pub open spec fn entry_word(files: Seq<SarcFile>, i: int) -> int {
    name_table_size(files, i) / 4
}

/// Node "type" word of file `i`: the name-table word index, with the top
/// byte set to 1 when the name is stored.
pub open spec fn type_word(files: Seq<SarcFile>, i: int) -> int {
    entry_word(files, i) + if files[i].name@.len() == 0 {
        0int
    } else {
        0x0100_0000int
    }
}

/// The archive fits the format's fixed-width fields: node count in 16 bits,
/// name-table word indices in 24 bits, every offset in 32 bits.
pub open spec fn encode_fits(files: Seq<SarcFile>) -> bool {
    &&& files.len() <= 0xFFFF
    &&& name_table_size(files, files.len() as int) <= 0x03FF_FFFC
    &&& total_size(files) <= 0xFFFF_FFFF
}

/// In any encoded archive, every data offset except the first is a multiple
/// of 4.
pub proof fn lemma_data_offsets_aligned(files: Seq<SarcFile>, i: int)
    requires
        1 <= i,
    ensures
        data_begin_of(files, i) % 4 == 0,
{
    lemma_data_offsets(files, i - 1);
    lemma_align4(data_begin_of(files, i - 1) + files[i - 1].data@.len());
}

/// The hash is pure: it depends on the name's characters and the multiplier
/// alone, so equal names hash equal; and the empty name hashes to 0.
pub proof fn lemma_hash_deterministic(a: Seq<char>, b: Seq<char>, multiplier: u32)
    ensures
        a == b ==> spec_hash(encode_utf8(a), multiplier) == spec_hash(encode_utf8(b), multiplier),
        a.len() == 0 ==> spec_hash(encode_utf8(a), multiplier) == 0,
{
}

} // verus!
