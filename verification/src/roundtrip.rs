//! The round trip: an encoded archive passes every decode check and decodes
//! back to exactly the files it was built from, preserving names, data and
//! order.
use crate::encode::{encoded_as, node_rec_ok};
use crate::layout::{data_begin_of, data_end_of, data_region_base_of, encode_fits, entry_word,
    lemma_data_mono, lemma_name_block, lemma_name_table_size_mono, lemma_name_table_size_props,
    name_block_len, name_table_data_base, name_table_size, total_size, type_word};
use crate::parse::{bom_is_big, bom_valid, data_region_base, decodes_to, headers_ok, lemma_nul_pos,
    node_begin, node_count, node_data, node_data_ok, node_end, node_entry, node_name_bytes,
    node_name_chars, node_name_ok, node_name_start, node_off, node_ok, node_range_ok, node_stored,
    node_type, parse_ok, sfnt_off};
use crate::SarcFile;
use vstd::prelude::*;
use vstd::utf8::{char_u32_cast, encode_scalar, encode_utf8, encode_utf8_decode_utf8,
    encode_utf8_valid_utf8, has_width_1_encoding, has_width_2_encoding, has_width_3_encoding,
    is_scalar, char_is_scalar};

verus! {

/// The UTF-8 encoding of a scalar other than 0 holds no zero byte.
proof fn lemma_scalar_bytes_nonzero(c: u32)
    requires
        is_scalar(c),
        c != 0,
    ensures
        forall|k: int|
            0 <= k < encode_scalar(c).len() ==> #[trigger] encode_scalar(c)[k] != 0,
{
    if has_width_1_encoding(c) {
        assert((c & 0x7F) as u8 != 0) by (bit_vector)
            requires
                c != 0 && c <= 0x7F,
        ;
    } else if has_width_2_encoding(c) {
        assert((0xC0 | ((c >> 6) & 0x1F) as u8) != 0) by (bit_vector);
        assert((0x80 | (c & 0x3F) as u8) != 0) by (bit_vector);
    } else if has_width_3_encoding(c) {
        assert((0xE0 | ((c >> 12) & 0x0F) as u8) != 0) by (bit_vector);
        assert((0x80 | ((c >> 6) & 0x3F) as u8) != 0) by (bit_vector);
        assert((0x80 | (c & 0x3F) as u8) != 0) by (bit_vector);
    } else {
        assert((0xF0 | ((c >> 18) & 0x7) as u8) != 0) by (bit_vector);
        assert((0x80 | ((c >> 12) & 0x3F) as u8) != 0) by (bit_vector);
        assert((0x80 | ((c >> 6) & 0x3F) as u8) != 0) by (bit_vector);
        assert((0x80 | (c & 0x3F) as u8) != 0) by (bit_vector);
    }
}

/// The UTF-8 encoding of a name without a NUL character holds no zero byte,
/// so a terminator scan recovers the name's bytes exactly.
proof fn lemma_no_nul_encoding(chars: Seq<char>)
    requires
        !chars.contains('\0'),
    ensures
        forall|k: int|
            0 <= k < encode_utf8(chars).len() ==> #[trigger] encode_utf8(chars)[k] != 0,
    decreases chars.len(),
{
    if chars.len() > 0 {
        let c = chars[0] as u32;
        char_is_scalar(chars[0]);
        assert(c != 0) by {
            if c == 0 {
                char_u32_cast(chars[0], c);
                char_u32_cast('\0', 0);
                assert(chars.contains('\0'));
            }
        }
        lemma_scalar_bytes_nonzero(c);
        let rest = chars.drop_first();
        assert(!rest.contains('\0')) by {
            if rest.contains('\0') {
                let j = choose|j: int| 0 <= j < rest.len() && rest[j] == '\0';
                assert(chars[j + 1] == '\0');
                assert(chars.contains('\0'));
            }
        }
        lemma_no_nul_encoding(rest);
        assert forall|k: int|
            0 <= k < encode_utf8(chars).len() implies #[trigger] encode_utf8(chars)[k] != 0 by {
            let head = encode_scalar(c);
            assert(encode_utf8(chars) == head + encode_utf8(rest));
            if k < head.len() {
                assert(encode_utf8(chars)[k] == head[k]);
            } else {
                assert(encode_utf8(chars)[k] == encode_utf8(rest)[k - head.len()]);
            }
        }
    }
}

/// One node of an encoded archive decodes without error and yields back the
/// file it was built from.
#[verifier::rlimit(100)]
#[verifier::spinoff_prover]
proof fn lemma_node_roundtrip(b: Seq<u8>, files: Seq<SarcFile>, i: int)
    requires
        encode_fits(files),
        encoded_as(b, files),
        bom_is_big(b),
        node_count(b) == files.len(),
        0 <= i < files.len(),
        !files[i].name@.contains('\0'),
    ensures
        node_ok(b, i),
        node_name_chars(b, i) == files[i].name@,
        node_data(b, i) == files[i].data@,
{
    let n = files.len() as int;
    let name = files[i].name@;
    let nb = encode_utf8(name);
    lemma_name_table_size_props(files, i);
    lemma_name_table_size_props(files, n);
    lemma_name_table_size_mono(files, i, n);
    lemma_name_table_size_mono(files, i + 1, n);
    lemma_name_block(name);
    lemma_data_mono(files, i, n - 1);

    // The stored record fields are the layout's values.
    assert(node_rec_ok(b, files, i));
    assert(node_off(i) == 32 + 16 * i);
    let t = node_type(b, i);
    assert(t as int == type_word(files, i));
    let nts_i = name_table_size(files, i);
    assert(4 * (nts_i / 4) == nts_i);
    let eu = (nts_i / 4) as u32;
    assert(eu as int == entry_word(files, i));
    assert(eu <= 0xFFFFFF);

    // The stored-name flag and the 24-bit word index unpack to what was
    // packed.
    if name.len() > 0 {
        assert(t == eu + 0x0100_0000);
        assert(t == eu + 0x0100_0000 && eu <= 0xFFFFFF ==> (t >> 24) == 1 && (t & 0xFFFFFF) == eu)
            by (bit_vector);
        assert(node_stored(b, i));
    } else {
        assert(t == eu);
        assert(t == eu && eu <= 0xFFFFFF ==> (t >> 24) == 0 && (t & 0xFFFFFF) == eu)
            by (bit_vector);
        assert(!node_stored(b, i));
    }
    assert(node_entry(b, i) == entry_word(files, i));

    // Buffer length facts.
    if n > 0 {
        lemma_data_mono(files, 0, n - 1);
    }
    assert(b.len() == total_size(files));
    assert(data_region_base(b) == data_region_base_of(files));

    // The name scan stops exactly at the block's terminator and hands back
    // the name's bytes, which decode to the name.
    if name.len() > 0 {
        assert(crate::encode::name_region_ok(b, files, i));
        let s = node_name_start(b, i);
        assert(s == name_table_data_base(n) + nts_i);
        assert(s + name_block_len(name) <= name_table_data_base(n) + name_table_size(files, i + 1));
        assert(s + name_block_len(name) <= data_region_base_of(files));
        assert(b.subrange(s, s + nb.len() as int) == nb);
        lemma_no_nul_encoding(name);
        assert forall|j: int| s <= j < s + nb.len() implies b[j] != 0 by {
            assert(b.subrange(s, s + nb.len() as int)[j - s] == b[j]);
            assert(nb[j - s] != 0);
        }
        assert(b[s + nb.len()] == 0);
        lemma_nul_pos(b, s, s + nb.len() as int);
        assert(node_name_ok(b, i));
        assert(node_name_bytes(b, i) =~= nb);
        encode_utf8_valid_utf8(name);
        encode_utf8_decode_utf8(name);
        assert(node_name_chars(b, i) == name);
    } else {
        assert(node_name_ok(b, i));
        assert(name =~= Seq::<char>::empty());
        assert(node_name_chars(b, i) == name);
    }

    // The data span reads back the payload.
    assert(crate::encode::data_region_ok(b, files, i));
    assert(node_begin(b, i) as int == data_begin_of(files, i));
    assert(node_end(b, i) as int == data_end_of(files, i));
    assert(node_range_ok(b, i));
    assert(data_region_base(b) + node_end(b, i) <= b.len());
    assert(node_data_ok(b, i));
    if node_begin(b, i) == node_end(b, i) {
        assert(files[i].data@ =~= Seq::<u8>::empty());
    } else {
        assert(node_data(b, i) == files[i].data@);
    }
}

/// The round trip: an archive that fits the format and whose names hold no
/// NUL character encodes to a buffer that passes every decode check and
/// decodes back to exactly the same ordered files.
pub proof fn lemma_encode_parse_roundtrip(b: Seq<u8>, files: Seq<SarcFile>)
    requires
        encode_fits(files),
        encoded_as(b, files),
        forall|i: int| 0 <= i < files.len() ==> !(#[trigger] files[i]).name@.contains('\0'),
    ensures
        parse_ok(b),
        decodes_to(b, files),
{
    let n = files.len() as int;
    lemma_name_table_size_props(files, n);
    if n > 0 {
        lemma_data_mono(files, 0, n - 1);
    }
    assert(b.len() == total_size(files));
    assert(bom_is_big(b));
    assert(bom_valid(b));
    assert(node_count(b) == n);
    assert(sfnt_off(b) == 32 + 16 * n);
    assert(headers_ok(b));
    assert forall|i: int| 0 <= i < node_count(b) implies #[trigger] node_ok(b, i) by {
        lemma_node_roundtrip(b, files, i);
    }
    assert forall|i: int|
        0 <= i < files.len() implies (#[trigger] files[i]).name@ == node_name_chars(b, i)
            && files[i].data@ == node_data(b, i) by {
        lemma_node_roundtrip(b, files, i);
    }
    assert(parse_ok(b));
}

} // verus!
