//! Codec for the SARC archive container: a fixed-layout binary format that
//! bundles an ordered list of named byte blobs into one contiguous buffer.
//!
//! Decoding turns a raw byte buffer into an ordered list of files (and,
//! optionally, a folder tree derived from slash-separated names); encoding is
//! the inverse, laying out header, allocation table, name table and data
//! region with 4-byte alignment in one canonical byte order.
use vstd::prelude::*;

pub mod bytes;
pub mod encode;
pub mod folder;
pub mod layout;
pub mod parse;
pub mod roundtrip;

pub use folder::SarcFolder;
pub use layout::{align32, file_name_length, hash};

pub use encode::encode;
pub use encode::Error as EncodeError;
pub use parse::parse;
pub use parse::Error as ParseError;

verus! {

/// Magic bytes `SARC` of the archive header, packed big-endian.
pub const SARC_MAGIC: u32 = 0x5341_5243;

/// Magic bytes `SFAT` of the file-allocation-table header, packed big-endian.
pub const SFAT_MAGIC: u32 = 0x5346_4154;

/// Magic bytes `SFNT` of the file-name-table header, packed big-endian.
pub const SFNT_MAGIC: u32 = 0x5346_4E54;

/// Fixed byte length of the archive header.
pub const SARC_HEADER_LENGTH: u16 = 0x14;

/// Fixed byte length of the allocation-table header.
pub const SFAT_HEADER_LENGTH: u16 = 0xC;

/// Fixed byte length of the name-table header.
pub const SFNT_HEADER_LENGTH: u16 = 0x8;

/// Byte-order marker selecting big-endian, packed big-endian.
pub const BOM_BE: u16 = 0xFEFF;

/// Byte-order marker selecting little-endian, packed big-endian.
pub const BOM_LE: u16 = 0xFFFE;

/// Byte offset of the allocation table's node records: the two headers.
pub const SFAT_DATA_OFFSET: u32 = 0x20;

/// Byte size of one allocation-table node record.
pub const NODE_SIZE: u32 = 0x10;

/// Multiplier of the rolling hash over file names.
pub const HASH_MULTIPLIER: u32 = 0x65;

/// An archive: an ordered list of named files. The order is load-bearing for
/// the encoder; decoding returns files in allocation-table order.
#[derive(Debug)]
pub struct Sarc {
    pub files: Vec<SarcFile>,
}

/// One file of an archive: a name, possibly holding `/` separators, and its
/// raw contents.
#[derive(Debug)]
pub struct SarcFile {
    pub name: String,
    pub data: Vec<u8>,
}

/// Byte offset of the name-table header in an archive with `node_count`
/// nodes: both fixed headers plus the node records.
pub fn name_table_header_offset(node_count: usize) -> (r: u32)
    requires
        node_count <= 0xFFFF,
    ensures
        r == node_count * 16 + 0x20,
{
    node_count as u32 * NODE_SIZE + SFAT_DATA_OFFSET
}

/// Byte offset at which name strings begin: the name-table header's end.
pub fn name_table_data_offset(node_count: usize) -> (r: u32)
    requires
        node_count <= 0xFFFF,
    ensures
        r == node_count * 16 + 0x28,
{
    name_table_header_offset(node_count) + SFNT_HEADER_LENGTH as u32
}

} // verus!
