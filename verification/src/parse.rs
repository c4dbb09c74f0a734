//! Decoding an archive buffer: header validation, allocation-table and
//! name-table reading, and extraction of every file's name and payload.
//!
//! The spec functions here pin down, for every input buffer, whether decoding
//! succeeds, which error it returns when it does not, and exactly which files
//! it yields when it does.
use crate::bytes::{be16, be32, read_u16, read_u32, word16, word32};
use crate::{Sarc, SarcFile, BOM_BE, BOM_LE, SARC_HEADER_LENGTH, SARC_MAGIC, SFAT_HEADER_LENGTH,
    SFAT_MAGIC, SFNT_HEADER_LENGTH, SFNT_MAGIC};
use vstd::prelude::*;
use vstd::utf8::{decode_utf8, valid_utf8};

verus! {

/// Why a decode failed.
#[derive(Debug, Clone, Copy, PartialEq, Eq, Structural)]
pub enum Error {
    /// A section's magic differed from the expected one: the magic found and
    /// the one expected, both packed big-endian.
    IncorrectMagic(u32, u32),
    /// A section's header-length field differed from its fixed constant: the
    /// length found and the one expected.
    IncorrectHeaderLength(u16, u16),
    /// The byte-order marker matched neither accepted value; packed
    /// big-endian.
    IncorrectBom(u16),
    /// The buffer ended before a read completed.
    UnexpectedEnd,
    /// A node's data span ends before it begins: the span's two offsets.
    IncorrectDataRange(u32, u32),
}

/// What `String::from_utf8_lossy` returns on the given bytes.
pub uninterp spec fn lossy_chars(bytes: Seq<u8>) -> Seq<char>;

/// Relies on String::from_utf8_lossy: the result depends on the input bytes
/// alone, and std documents that on valid UTF-8 it returns the input decoded
/// unchanged (invalid sequences get replacement characters).
#[verifier::external_body]
fn lossy_string(bytes: &Vec<u8>) -> (r: String)
    ensures
        r@ == lossy_chars(bytes@),
        valid_utf8(bytes@) ==> r@ == decode_utf8(bytes@),
{
    String::from_utf8_lossy(bytes).into_owned()
}

/// True when the byte-order marker selects big-endian.
pub open spec fn bom_is_big(b: Seq<u8>) -> bool {
    be16(b, 6) == BOM_BE
}

/// True when the byte-order marker is one of the two accepted values.
pub open spec fn bom_valid(b: Seq<u8>) -> bool {
    be16(b, 6) == BOM_BE || be16(b, 6) == BOM_LE
}

/// The `u16` at `p` in the buffer's own byte order.
pub open spec fn w16(b: Seq<u8>, p: int) -> u16 {
    word16(b, p, bom_is_big(b))
}

/// The `u32` at `p` in the buffer's own byte order.
pub open spec fn w32(b: Seq<u8>, p: int) -> u32 {
    word32(b, p, bom_is_big(b))
}

/// The allocation table's node count.
pub open spec fn node_count(b: Seq<u8>) -> int {
    w16(b, 26) as int
}

/// The data-region base offset stated in the archive header.
pub open spec fn data_region_base(b: Seq<u8>) -> int {
    w32(b, 12) as int
}

/// Byte offset of node `i`'s record.
pub open spec fn node_off(i: int) -> int {
    32 + 16 * i
}

/// Byte offset of the name-table header.
pub open spec fn sfnt_off(b: Seq<u8>) -> int {
    32 + 16 * node_count(b)
}

/// Byte offset at which name strings begin.
pub open spec fn name_data_off(b: Seq<u8>) -> int {
    sfnt_off(b) + 8
}

/// Node `i`'s stored name hash.
pub open spec fn node_hash(b: Seq<u8>, i: int) -> u32 {
    w32(b, node_off(i))
}

/// Node `i`'s "type" word: name-table word index plus the stored-name flag.
pub open spec fn node_type(b: Seq<u8>, i: int) -> u32 {
    w32(b, node_off(i) + 4)
}

/// True when node `i`'s name is stored in the name table.
pub open spec fn node_stored(b: Seq<u8>, i: int) -> bool {
    node_type(b, i) >> 24 == 0x01
}

/// Node `i`'s name-table word index.
pub open spec fn node_entry(b: Seq<u8>, i: int) -> int {
    (node_type(b, i) & 0xFFFFFF) as int
}

/// Node `i`'s data span, relative to the data-region base.
pub open spec fn node_begin(b: Seq<u8>, i: int) -> u32 {
    w32(b, node_off(i) + 8)
}

/// Offset just past node `i`'s data, relative to the data-region base.
pub open spec fn node_end(b: Seq<u8>, i: int) -> u32 {
    w32(b, node_off(i) + 12)
}

/// Every fixed header check passes and the buffer holds all three section
/// headers and the node records whole.
pub open spec fn headers_ok(b: Seq<u8>) -> bool {
    &&& b.len() >= 8
    &&& be32(b, 0) == SARC_MAGIC
    &&& bom_valid(b)
    &&& w16(b, 4) == SARC_HEADER_LENGTH
    &&& b.len() >= 26
    &&& be32(b, 20) == SFAT_MAGIC
    &&& w16(b, 24) == SFAT_HEADER_LENGTH
    &&& b.len() >= sfnt_off(b) + 8
    &&& be32(b, sfnt_off(b)) == SFNT_MAGIC
    &&& w16(b, sfnt_off(b) + 4) == SFNT_HEADER_LENGTH
}

/// Index of the first zero byte at or after `p`, or the buffer's length when
/// there is none.
pub open spec fn nul_pos(b: Seq<u8>, p: int) -> int
    decreases b.len() - p,
{
    if p >= b.len() {
        b.len() as int
    } else if b[p] == 0 {
        p
    } else {
        nul_pos(b, p + 1)
    }
}

/// `nul_pos` is the position of the terminator that a forward scan stops at.
pub proof fn lemma_nul_pos(b: Seq<u8>, start: int, q: int)
    requires
        0 <= start <= q <= b.len(),
        forall|j: int| start <= j < q ==> b[j] != 0,
        q < b.len() ==> b[q] == 0,
    ensures
        nul_pos(b, start) == q,
    decreases q - start,
{
    if start < q {
        lemma_nul_pos(b, start + 1, q);
    }
}

/// Byte offset at which node `i`'s name string begins.
pub open spec fn node_name_start(b: Seq<u8>, i: int) -> int {
    name_data_off(b) + 4 * node_entry(b, i)
}

/// True when node `i` either has no stored name or its name scan finds a
/// terminator inside the buffer.
pub open spec fn node_name_ok(b: Seq<u8>, i: int) -> bool {
    !node_stored(b, i) || nul_pos(b, node_name_start(b, i)) < b.len()
}

/// The raw bytes of node `i`'s stored name, terminator excluded.
pub open spec fn node_name_bytes(b: Seq<u8>, i: int) -> Seq<u8> {
    b.subrange(node_name_start(b, i), nul_pos(b, node_name_start(b, i)))
}

/// The characters a stored name's bytes decode to: exact UTF-8 decoding
/// where the bytes are valid, else the replacement-substituted text.
pub open spec fn name_chars(bytes: Seq<u8>) -> Seq<char> {
    if valid_utf8(bytes) {
        decode_utf8(bytes)
    } else {
        lossy_chars(bytes)
    }
}

/// The name of the file decoded from node `i`.
pub open spec fn node_name_chars(b: Seq<u8>, i: int) -> Seq<char> {
    if node_stored(b, i) {
        name_chars(node_name_bytes(b, i))
    } else {
        Seq::empty()
    }
}

/// True when node `i`'s data span does not end before it begins.
pub open spec fn node_range_ok(b: Seq<u8>, i: int) -> bool {
    node_begin(b, i) <= node_end(b, i)
}

/// True when node `i`'s payload can be read whole: the span is well ordered
/// and, unless empty, lies inside the buffer.
pub open spec fn node_data_ok(b: Seq<u8>, i: int) -> bool {
    &&& node_range_ok(b, i)
    &&& (node_begin(b, i) == node_end(b, i) || data_region_base(b) + node_end(b, i) <= b.len())
}

/// True when node `i` decodes without error.
pub open spec fn node_ok(b: Seq<u8>, i: int) -> bool {
    node_name_ok(b, i) && node_data_ok(b, i)
}

/// The payload of the file decoded from node `i`.
pub open spec fn node_data(b: Seq<u8>, i: int) -> Seq<u8> {
    if node_begin(b, i) == node_end(b, i) {
        Seq::empty()
    } else {
        b.subrange(
            data_region_base(b) + node_begin(b, i),
            data_region_base(b) + node_end(b, i),
        )
    }
}

/// The error that decoding node `i` reports: a missing name terminator or a
/// short payload read end the buffer early; a reversed span is a range error.
pub open spec fn node_err(b: Seq<u8>, i: int) -> Error {
    if !node_name_ok(b, i) {
        Error::UnexpectedEnd
    } else if !node_range_ok(b, i) {
        Error::IncorrectDataRange(node_begin(b, i), node_end(b, i))
    } else {
        Error::UnexpectedEnd
    }
}

/// The error of the first node at or after `i` that fails to decode.
pub open spec fn nodes_err(b: Seq<u8>, i: int) -> Error
    decreases node_count(b) - i,
{
    if i >= node_count(b) {
        Error::UnexpectedEnd
    } else if !node_ok(b, i) {
        node_err(b, i)
    } else {
        nodes_err(b, i + 1)
    }
}

/// `nodes_err` passes over nodes that decode.
pub proof fn lemma_nodes_err_skip(b: Seq<u8>, i: int)
    requires
        0 <= i <= node_count(b),
        forall|j: int| 0 <= j < i ==> node_ok(b, j),
    ensures
        nodes_err(b, 0) == nodes_err(b, i),
    decreases i,
{
    if i > 0 {
        lemma_nodes_err_skip(b, i - 1);
    }
}

/// True when the whole buffer decodes without error.
pub open spec fn parse_ok(b: Seq<u8>) -> bool {
    headers_ok(b) && forall|i: int| 0 <= i < node_count(b) ==> node_ok(b, i)
}

/// The error that decoding the buffer reports, mirroring the order in which
/// the checks run.
pub open spec fn spec_error(b: Seq<u8>) -> Error {
    if b.len() < 4 {
        Error::UnexpectedEnd
    } else if be32(b, 0) != SARC_MAGIC {
        Error::IncorrectMagic(be32(b, 0), SARC_MAGIC)
    } else if b.len() < 8 {
        Error::UnexpectedEnd
    } else if !bom_valid(b) {
        Error::IncorrectBom(be16(b, 6))
    } else if w16(b, 4) != SARC_HEADER_LENGTH {
        Error::IncorrectHeaderLength(w16(b, 4), SARC_HEADER_LENGTH)
    } else if b.len() < 24 {
        Error::UnexpectedEnd
    } else if be32(b, 20) != SFAT_MAGIC {
        Error::IncorrectMagic(be32(b, 20), SFAT_MAGIC)
    } else if b.len() < 26 {
        Error::UnexpectedEnd
    } else if w16(b, 24) != SFAT_HEADER_LENGTH {
        Error::IncorrectHeaderLength(w16(b, 24), SFAT_HEADER_LENGTH)
    } else if b.len() < 32 || b.len() < sfnt_off(b) + 4 {
        Error::UnexpectedEnd
    } else if be32(b, sfnt_off(b)) != SFNT_MAGIC {
        Error::IncorrectMagic(be32(b, sfnt_off(b)), SFNT_MAGIC)
    } else if b.len() < sfnt_off(b) + 6 {
        Error::UnexpectedEnd
    } else if w16(b, sfnt_off(b) + 4) != SFNT_HEADER_LENGTH {
        Error::IncorrectHeaderLength(w16(b, sfnt_off(b) + 4), SFNT_HEADER_LENGTH)
    } else if b.len() < sfnt_off(b) + 8 {
        Error::UnexpectedEnd
    } else {
        nodes_err(b, 0)
    }
}

/// True when `files` are exactly the files the buffer decodes to, in
/// allocation-table order.
pub open spec fn decodes_to(b: Seq<u8>, files: Seq<SarcFile>) -> bool {
    &&& files.len() == node_count(b)
    &&& forall|i: int|
        0 <= i < files.len() ==> (#[trigger] files[i]).name@ == node_name_chars(b, i)
            && files[i].data@ == node_data(b, i)
}

/// One allocation-table record, as read; discarded once its file is built.
struct Node {
    hash: u32,
    is_file_name_stored: bool,
    file_name_table_entry: u32,
    beginning_of_node_file_data: u32,
    end_of_node_file_data: u32,
}

/// Reads node `i`'s fixed-size record.
fn parse_node(b: &Vec<u8>, big: bool, i: usize, n: usize) -> (node: Node)
    requires
        big == bom_is_big(b@),
        i < n,
        n == node_count(b@),
        b@.len() >= sfnt_off(b@) + 8,
    ensures
        node.hash == node_hash(b@, i as int),
        node.is_file_name_stored == node_stored(b@, i as int),
        node.file_name_table_entry == node_entry(b@, i as int),
        node.file_name_table_entry <= 0xFFFFFF,
        node.beginning_of_node_file_data == node_begin(b@, i as int),
        node.end_of_node_file_data == node_end(b@, i as int),
{
    let off = 32 + 16 * i;
    let hash = read_u32(b, off, big);
    let archive_type = read_u32(b, off + 4, big);
    let beginning_of_node_file_data = read_u32(b, off + 8, big);
    let end_of_node_file_data = read_u32(b, off + 12, big);

    let is_file_name_stored = archive_type >> 24u32 == 0x01;
    let file_name_table_entry = archive_type & 0xFF_FF_FF;
    proof {
        let t = node_type(b@, i as int);
        assert((t & 0xFFFFFF) <= 0xFFFFFF) by (bit_vector);
    }

    Node {
        hash,
        is_file_name_stored,
        file_name_table_entry,
        beginning_of_node_file_data,
        end_of_node_file_data,
    }
}

/// Decodes node `i` into a file: resolves its name out of the name table and
/// slices its payload out of the data region.
fn parse_file(b: &Vec<u8>, big: bool, data_offset: u32, i: usize, n: usize) -> (r: Result<
    SarcFile,
    Error,
>)
    requires
        big == bom_is_big(b@),
        i < n,
        n == node_count(b@),
        b@.len() >= sfnt_off(b@) + 8,
        data_offset == w32(b@, 12),
    ensures
        match r {
            Ok(f) => node_ok(b@, i as int) && f.name@ == node_name_chars(b@, i as int) && f.data@
                == node_data(b@, i as int),
            Err(e) => !node_ok(b@, i as int) && e == node_err(b@, i as int),
        },
{
    let node = parse_node(b, big, i, n);
    let ghost gi = i as int;

    let name = if node.is_file_name_stored {
        let ntdo = crate::name_table_data_offset(n) as usize;
        let nstart = ntdo + 4 * (node.file_name_table_entry as usize);
        assert(nstart == node_name_start(b@, gi));
        let len = b.len();
        if nstart >= len {
            assert(nul_pos(b@, nstart as int) == b@.len());
            return Err(Error::UnexpectedEnd);
        }
        let mut p = nstart;
        let mut namebuf: Vec<u8> = Vec::new();
        proof {
            assert(namebuf@ =~= b@.subrange(nstart as int, p as int));
        }
        while p < len && b[p] != 0
            invariant
                len == b@.len(),
                nstart <= p <= len,
                forall|j: int| nstart <= j < p ==> b@[j] != 0,
                namebuf@ == b@.subrange(nstart as int, p as int),
            decreases len - p,
        {
            namebuf.push(b[p]);
            proof {
                assert(namebuf@ =~= b@.subrange(nstart as int, p + 1));
            }
            p = p + 1;
        }
        proof {
            lemma_nul_pos(b@, nstart as int, p as int);
        }
        if p == len {
            return Err(Error::UnexpectedEnd);
        }
        lossy_string(&namebuf)
    } else {
        String::new()
    };

    let begin = node.beginning_of_node_file_data;
    let end = node.end_of_node_file_data;
    if end < begin {
        return Err(Error::IncorrectDataRange(begin, end));
    }
    let data = if begin == end {
        Vec::new()
    } else {
        let pos_end = data_offset as u64 + end as u64;
        if pos_end > b.len() as u64 {
            return Err(Error::UnexpectedEnd);
        }
        let pos_begin = (data_offset as u64 + begin as u64) as usize;
        crate::bytes::copy_range(b, pos_begin, pos_end as usize)
    };

    Ok(SarcFile { name, data })
}

/// Decodes the buffer once the byte order is known.
fn parse_with_bom(b: &Vec<u8>, big: bool) -> (r: Result<Sarc, Error>)
    requires
        b@.len() >= 8,
        be32(b@, 0) == SARC_MAGIC,
        bom_valid(b@),
        big == bom_is_big(b@),
    ensures
        match r {
            Ok(sarc) => parse_ok(b@) && decodes_to(b@, sarc.files@),
            Err(e) => !parse_ok(b@) && e == spec_error(b@),
        },
{
    let header_length = read_u16(b, 4, big);
    if header_length != SARC_HEADER_LENGTH {
        return Err(Error::IncorrectHeaderLength(header_length, SARC_HEADER_LENGTH));
    }
    if b.len() < 24 {
        return Err(Error::UnexpectedEnd);
    }
    let data_offset = read_u32(b, 12, big);
    let sfat_magic = read_u32(b, 20, true);
    if sfat_magic != SFAT_MAGIC {
        return Err(Error::IncorrectMagic(sfat_magic, SFAT_MAGIC));
    }
    if b.len() < 26 {
        return Err(Error::UnexpectedEnd);
    }
    let sfat_header_length = read_u16(b, 24, big);
    if sfat_header_length != SFAT_HEADER_LENGTH {
        return Err(Error::IncorrectHeaderLength(sfat_header_length, SFAT_HEADER_LENGTH));
    }
    if b.len() < 32 {
        return Err(Error::UnexpectedEnd);
    }
    let n = read_u16(b, 26, big) as usize;
    let sfnt = 32 + 16 * n;
    if b.len() < sfnt + 4 {
        return Err(Error::UnexpectedEnd);
    }
    let sfnt_magic = read_u32(b, sfnt, true);
    if sfnt_magic != SFNT_MAGIC {
        return Err(Error::IncorrectMagic(sfnt_magic, SFNT_MAGIC));
    }
    if b.len() < sfnt + 6 {
        return Err(Error::UnexpectedEnd);
    }
    let sfnt_header_length = read_u16(b, sfnt + 4, big);
    if sfnt_header_length != SFNT_HEADER_LENGTH {
        return Err(Error::IncorrectHeaderLength(sfnt_header_length, SFNT_HEADER_LENGTH));
    }
    if b.len() < sfnt + 8 {
        return Err(Error::UnexpectedEnd);
    }

    let mut files: Vec<SarcFile> = Vec::new();
    let mut i: usize = 0;
    while i < n
        invariant
            headers_ok(b@),
            big == bom_is_big(b@),
            n == node_count(b@),
            b@.len() >= sfnt_off(b@) + 8,
            data_offset == w32(b@, 12),
            i <= n,
            files@.len() == i,
            forall|j: int| 0 <= j < i ==> node_ok(b@, j),
            forall|j: int|
                0 <= j < i ==> (#[trigger] files@[j]).name@ == node_name_chars(b@, j)
                    && files@[j].data@ == node_data(b@, j),
        decreases n - i,
    {
        match parse_file(b, big, data_offset, i, n) {
            Ok(f) => {
                files.push(f);
            },
            Err(e) => {
                proof {
                    lemma_nodes_err_skip(b@, i as int);
                }
                return Err(e);
            },
        }
        i = i + 1;
    }
    Ok(Sarc { files })
}

/// Decodes an archive buffer into its ordered file list.
///
/// Succeeds exactly on buffers that pass every header check and whose nodes
/// all resolve; any other buffer yields the error of the first failing check.
pub fn parse(b: &Vec<u8>) -> (r: Result<Sarc, Error>)
    ensures
        match r {
            Ok(sarc) => parse_ok(b@) && decodes_to(b@, sarc.files@),
            Err(e) => !parse_ok(b@) && e == spec_error(b@),
        },
{
    if b.len() < 4 {
        return Err(Error::UnexpectedEnd);
    }
    let magic = read_u32(b, 0, true);
    if magic != SARC_MAGIC {
        return Err(Error::IncorrectMagic(magic, SARC_MAGIC));
    }
    if b.len() < 8 {
        return Err(Error::UnexpectedEnd);
    }
    let bom = read_u16(b, 6, true);
    if bom == BOM_BE {
        parse_with_bom(b, true)
    } else if bom == BOM_LE {
        parse_with_bom(b, false)
    } else {
        Err(Error::IncorrectBom(bom))
    }
}

} // verus!
