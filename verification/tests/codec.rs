//! End-to-end tests of the archive codec: exact encodings, round trips,
//! alignment, hashing, and every error case.
use nintendo_sarc::{align32, encode, file_name_length, hash, parse, EncodeError, ParseError,
    Sarc, SarcFile};
use nintendo_sarc::{name_table_data_offset, name_table_header_offset};

fn file(name: &str, data: &[u8]) -> SarcFile {
    SarcFile { name: name.to_string(), data: data.to_vec() }
}

fn worked_example() -> Sarc {
    Sarc { files: vec![file("a/b.txt", b"hi"), file("c.txt", b"world!")] }
}

#[test]
fn encode_worked_example_exact_bytes() {
    let out = encode(&worked_example()).unwrap();
    let expected: Vec<u8> = vec![
        83, 65, 82, 67, 0, 20, 254, 255, 0, 0, 0, 98, 0, 0, 0, 88, 1, 0, 0, 0, 83, 70, 65, 84, 0,
        12, 0, 2, 0, 0, 0, 101, 96, 123, 152, 28, 1, 0, 0, 0, 0, 0, 0, 0, 0, 0, 0, 2, 104, 241,
        38, 137, 1, 0, 0, 2, 0, 0, 0, 4, 0, 0, 0, 10, 83, 70, 78, 84, 0, 8, 0, 0, 97, 47, 98, 46,
        116, 120, 116, 0, 99, 46, 116, 120, 116, 0, 0, 0, 104, 105, 0, 0, 119, 111, 114, 108, 100,
        33,
    ];
    assert_eq!(out, expected);
}

#[test]
fn roundtrip_worked_example() {
    let out = encode(&worked_example()).unwrap();
    let decoded = parse(&out).unwrap();
    assert_eq!(decoded.files.len(), 2);
    assert_eq!(decoded.files[0].name, "a/b.txt");
    assert_eq!(decoded.files[0].data, b"hi");
    assert_eq!(decoded.files[1].name, "c.txt");
    assert_eq!(decoded.files[1].data, b"world!");
}

#[test]
fn worked_example_folder_tree() {
    let out = encode(&worked_example()).unwrap();
    let tree = parse(&out).unwrap().into_folder();
    assert_eq!(tree.full_name, "");
    assert_eq!(tree.files.len(), 1);
    assert_eq!(tree.files[0].name, "c.txt");
    assert_eq!(tree.files[0].data, b"world!");
    assert_eq!(tree.folders.len(), 1);
    let a = &tree.folders[0];
    assert_eq!(a.name, "a");
    assert_eq!(a.full_name, "a");
    assert_eq!(a.files.len(), 1);
    assert_eq!(a.files[0].name, "b.txt");
    assert_eq!(a.files[0].data, b"hi");
    assert!(a.folders.is_empty());
}

#[test]
fn roundtrip_preserves_names_data_and_order() {
    let archive = Sarc {
        files: vec![
            file("zeta", b""),
            file("alpha/beta/gamma.bin", &[0, 1, 2, 3, 4]),
            file("", b"nameless"),
            file("a", &[0xFF; 9]),
        ],
    };
    let out = encode(&archive).unwrap();
    let decoded = parse(&out).unwrap();
    assert_eq!(decoded.files.len(), archive.files.len());
    for (d, o) in decoded.files.iter().zip(archive.files.iter()) {
        assert_eq!(d.name, o.name);
        assert_eq!(d.data, o.data);
    }
}

#[test]
fn roundtrip_non_ascii_name() {
    let archive = Sarc { files: vec![file("ä/ü ñ.txt", b"x"), file("日本語", b"y")] };
    let out = encode(&archive).unwrap();
    let decoded = parse(&out).unwrap();
    assert_eq!(decoded.files[0].name, "ä/ü ñ.txt");
    assert_eq!(decoded.files[1].name, "日本語");
}

#[test]
fn roundtrip_empty_archive() {
    let archive = Sarc { files: Vec::new() };
    let out = encode(&archive).unwrap();
    assert_eq!(out.len(), 40);
    let decoded = parse(&out).unwrap();
    assert!(decoded.files.is_empty());
}

#[test]
fn data_offsets_are_aligned() {
    // Payload lengths 2 and 6: the second node must start at offset 4, the
    // next multiple of 4 after 2.
    let out = encode(&worked_example()).unwrap();
    let node1 = 32 + 16;
    let begin1 = u32::from_be_bytes([out[node1 + 8], out[node1 + 9], out[node1 + 10], out[node1
        + 11]]);
    assert_eq!(begin1, 4);
    assert_eq!(begin1 % 4, 0);
    // Every non-empty name block length is a multiple of 4.
    assert_eq!(file_name_length("a/b.txt") % 4, 0);
    assert_eq!(file_name_length("c.txt") % 4, 0);
    assert_eq!(file_name_length("a/b.txt"), 8);
    assert_eq!(file_name_length(""), 0);
}

#[test]
fn hash_is_deterministic() {
    assert_eq!(hash("", 0x65), 0);
    assert_eq!(hash("a", 0x65), 97);
    assert_eq!(hash("ab", 0x65), 9895);
    assert_eq!(hash("a/b.txt", 0x65), 0x607B_981C);
    assert_eq!(hash("c.txt", 0x65), 0x68F1_2689);
    assert_eq!(hash("same name", 0x65), hash("same name", 0x65));
}

#[test]
fn align32_rounds_up_to_four() {
    assert_eq!(align32(0), 0);
    assert_eq!(align32(1), 4);
    assert_eq!(align32(4), 4);
    assert_eq!(align32(7), 8);
    assert_eq!(align32(8), 8);
}

#[test]
fn table_offsets_match_layout() {
    assert_eq!(name_table_header_offset(0), 0x20);
    assert_eq!(name_table_data_offset(0), 0x28);
    assert_eq!(name_table_header_offset(2), 0x40);
    assert_eq!(name_table_data_offset(2), 0x48);
}

#[test]
fn zero_buffer_fails_with_magic_mismatch() {
    let buf = vec![0u8, 0, 0, 0];
    let err = parse(&buf).unwrap_err();
    assert_eq!(err, ParseError::IncorrectMagic(0, 0x5341_5243));
}

#[test]
fn short_buffer_fails_with_unexpected_end() {
    assert_eq!(parse(&vec![]).unwrap_err(), ParseError::UnexpectedEnd);
    assert_eq!(parse(&vec![0x53, 0x41]).unwrap_err(), ParseError::UnexpectedEnd);
    // A valid magic but nothing after it.
    assert_eq!(parse(&vec![0x53, 0x41, 0x52, 0x43]).unwrap_err(), ParseError::UnexpectedEnd);
    // A truncated but otherwise valid archive.
    let out = encode(&worked_example()).unwrap();
    let cut = out[..40].to_vec();
    assert_eq!(parse(&cut).unwrap_err(), ParseError::UnexpectedEnd);
}

#[test]
fn bad_byte_order_mark_is_reported() {
    let buf = vec![0x53, 0x41, 0x52, 0x43, 0x00, 0x14, 0x12, 0x34];
    assert_eq!(parse(&buf).unwrap_err(), ParseError::IncorrectBom(0x1234));
}

#[test]
fn bad_header_length_is_reported() {
    let buf = vec![0x53, 0x41, 0x52, 0x43, 0x00, 0x15, 0xFE, 0xFF];
    assert_eq!(parse(&buf).unwrap_err(), ParseError::IncorrectHeaderLength(0x15, 0x14));
}

#[test]
fn bad_allocation_table_magic_is_reported() {
    let mut out = encode(&worked_example()).unwrap();
    out[20] = b'X';
    let err = parse(&out).unwrap_err();
    assert_eq!(err, ParseError::IncorrectMagic(0x5846_4154, 0x5346_4154));
}

#[test]
fn bad_name_table_header_length_is_reported() {
    let mut out = encode(&worked_example()).unwrap();
    // The name-table header length sits right after its magic at 32 + 16*2.
    out[32 + 32 + 5] = 0x09;
    let err = parse(&out).unwrap_err();
    assert_eq!(err, ParseError::IncorrectHeaderLength(0x09, 0x08));
}

#[test]
fn reversed_data_span_is_reported() {
    let mut out = encode(&worked_example()).unwrap();
    // Swap the first node's begin/end words: begin 2, end 0.
    let node0 = 32;
    out[node0 + 11] = 2;
    out[node0 + 15] = 0;
    let err = parse(&out).unwrap_err();
    assert_eq!(err, ParseError::IncorrectDataRange(2, 0));
}

#[test]
fn payload_past_buffer_end_is_reported() {
    let mut out = encode(&worked_example()).unwrap();
    // Stretch the last node's end offset past the buffer.
    let node1 = 32 + 16;
    out[node1 + 12] = 0xFF;
    assert_eq!(parse(&out).unwrap_err(), ParseError::UnexpectedEnd);
}

#[test]
fn too_many_files_fail_to_encode() {
    let mut files = Vec::new();
    for _ in 0..0x10000 {
        files.push(file("", b""));
    }
    let archive = Sarc { files };
    assert_eq!(encode(&archive).unwrap_err(), EncodeError::TooLarge);
}

#[test]
fn oversized_name_table_fails_to_encode() {
    // One name so long that its table block cannot be indexed by a 24-bit
    // word cursor.
    let name = "x".repeat(0x0400_0000);
    let archive = Sarc { files: vec![file(&name, b"")] };
    assert_eq!(encode(&archive).unwrap_err(), EncodeError::TooLarge);
}

#[test]
fn largest_node_count_roundtrips() {
    let mut files = Vec::new();
    for _ in 0..0xFFFF {
        files.push(file("", b""));
    }
    let archive = Sarc { files };
    let out = encode(&archive).unwrap();
    let decoded = parse(&out).unwrap();
    assert_eq!(decoded.files.len(), 0xFFFF);
    assert!(decoded.files.iter().all(|f| f.name.is_empty() && f.data.is_empty()));
}

#[test]
fn little_endian_archive_decodes() {
    // The same worked example with every multi-byte field after the marker
    // byte-swapped to little-endian.
    let out = encode(&worked_example()).unwrap();
    let mut le = out.clone();
    le[6] = 0xFF;
    le[7] = 0xFE;
    let swap16 = |b: &mut Vec<u8>, p: usize| b.swap(p, p + 1);
    let swap32 = |b: &mut Vec<u8>, p: usize| {
        b.swap(p, p + 3);
        b.swap(p + 1, p + 2);
    };
    swap16(&mut le, 4);
    swap32(&mut le, 8);
    swap32(&mut le, 12);
    swap32(&mut le, 16);
    swap16(&mut le, 24);
    swap16(&mut le, 26);
    swap32(&mut le, 28);
    for node in 0..2 {
        let base = 32 + 16 * node;
        swap32(&mut le, base);
        swap32(&mut le, base + 4);
        swap32(&mut le, base + 8);
        swap32(&mut le, base + 12);
    }
    swap16(&mut le, 64 + 4);
    swap16(&mut le, 64 + 6);
    let decoded = parse(&le).unwrap();
    assert_eq!(decoded.files[0].name, "a/b.txt");
    assert_eq!(decoded.files[0].data, b"hi");
    assert_eq!(decoded.files[1].name, "c.txt");
    assert_eq!(decoded.files[1].data, b"world!");
}
