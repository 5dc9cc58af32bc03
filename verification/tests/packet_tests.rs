use fountain_core::text::decimal_text;
use fountain_core::packet::{
    choose_symbol_size, crc32, decode_packet, encode_packet, max_symbol_payload,
    normalize_pair_code, pair_code, pair_code_matches, sanitize_filename, PacketError,
    PacketMeta, CAMERA_PACKET_CAP, MAX_FILENAME_BYTES,
};

#[test]
fn pair_roundtrip_match() {
    let id = 0xDEAD_BEEF_CAFE_BABEu64;
    let code = pair_code(id);
    assert_eq!(code.len(), 5);
    assert!(pair_code_matches(&code, id));
    assert!(pair_code_matches(&format!("{}-{}", &code[..2], &code[2..]), id));
    assert!(!pair_code_matches("00000", id) || pair_code(id) == "00000");
}

#[test]
fn long_filename_still_fits_camera_packet() {
    let long = "a".repeat(400) + ".bin";
    let name = sanitize_filename(&long);
    assert!(name.len() <= MAX_FILENAME_BYTES);
    let sym = choose_symbol_size(&name, 10_000) as usize;
    let meta = PacketMeta {
        file_id: 1,
        total_len: 10_000,
        symbol_size: sym as u16,
        k: 10,
        esi: 0,
        crc32: 0,
        filename: String::new(),
    };
    let packet = encode_packet(&meta, &vec![0u8; sym]).unwrap();
    assert!(
        packet.len() <= CAMERA_PACKET_CAP,
        "packet {} > cap {}",
        packet.len(),
        CAMERA_PACKET_CAP
    );
}

#[test]
fn pair_code_reference_values() {
    assert_eq!(pair_code(0xDEADBEEFCAFEBABE), "FXENY");
    assert_eq!(pair_code(0), "00000");
    assert_eq!(pair_code(1), "00001");
}

#[test]
fn pair_code_typing_is_forgiving() {
    assert_eq!(normalize_pair_code(" fx-e ny "), "FXENY");
    assert_eq!(normalize_pair_code("iLo"), "110");
    assert!(pair_code_matches("fxeny", 0xDEADBEEFCAFEBABE));
    assert!(!pair_code_matches("FXEN", 0xDEADBEEFCAFEBABE));
    assert!(pair_code_matches("0000o", 0));
}

#[test]
fn crc32_reference_value() {
    assert_eq!(crc32(b"123456789"), 0xCBF43926);
    assert_eq!(crc32(&[]), 0);
}

#[test]
fn max_symbol_payload_values() {
    assert_eq!(max_symbol_payload(0), 2916);
    assert_eq!(max_symbol_payload(16), 2900);
    assert_eq!(max_symbol_payload(5000), 0);
}

#[test]
fn choose_symbol_size_values() {
    assert_eq!(choose_symbol_size("x", 0), 1);
    assert_eq!(choose_symbol_size("x", 100), 100);
    assert_eq!(choose_symbol_size("x", 10_000), 400);
}

#[test]
fn sanitize_filename_cases() {
    assert_eq!(sanitize_filename("dir/sub\\report.pdf "), "report.pdf");
    assert_eq!(sanitize_filename("dir/"), "file.bin");
    assert_eq!(sanitize_filename("   "), "file.bin");
    let long = "é".repeat(20);
    let s = sanitize_filename(&long);
    assert_eq!(s, "é".repeat(16));
    assert_eq!(s.len(), 32);
}

fn sample_meta(name: &str) -> PacketMeta {
    PacketMeta {
        file_id: 0x0102030405060708,
        total_len: 1234,
        symbol_size: 3,
        k: 412,
        esi: 99,
        crc32: 0xAABBCCDD,
        filename: name.to_string(),
    }
}

#[test]
fn packet_roundtrip_keeps_fields() {
    let meta = sample_meta("notes.txt");
    let packet = encode_packet(&meta, &[7, 8, 9]).unwrap();
    assert_eq!(packet.len(), 37 + 9 + 3);
    assert_eq!(&packet[0..4], b"FQFT");
    assert_eq!(packet[4], 1);
    assert_eq!(packet[5], 0);
    assert_eq!(&packet[6..14], &[8, 7, 6, 5, 4, 3, 2, 1]);
    let (m, sym) = decode_packet(&packet).unwrap();
    assert_eq!(m.file_id, meta.file_id);
    assert_eq!(m.total_len, 1234);
    assert_eq!(m.symbol_size, 3);
    assert_eq!(m.k, 412);
    assert_eq!(m.esi, 99);
    assert_eq!(m.crc32, 0xAABBCCDD);
    assert_eq!(m.filename, "notes.txt");
    assert_eq!(sym, vec![7, 8, 9]);
}

#[test]
fn encode_packet_errors() {
    let long = "n".repeat(256);
    assert_eq!(encode_packet(&sample_meta(&long), &[1]), Err(PacketError::FilenameTooLong));
    let too_big = vec![0u8; 401];
    assert_eq!(
        encode_packet(&sample_meta(""), &too_big),
        Err(PacketError::SymbolTooLarge { symbol_len: 401, max: 400, filename_len: 0 })
    );
    assert_eq!(PacketError::FilenameTooLong.message(), "filename too long");
    assert_eq!(
        PacketError::SymbolTooLarge { symbol_len: 401, max: 400, filename_len: 0 }.message(),
        "symbol 401 exceeds capacity 400 (filename len 0)"
    );
}

#[test]
fn decode_packet_errors() {
    assert_eq!(decode_packet(&[0u8; 10]).err(), Some(PacketError::TruncatedHeader));
    let mut p = encode_packet(&sample_meta("abc"), &[1, 2]).unwrap();
    p[0] = b'X';
    assert_eq!(decode_packet(&p).err(), Some(PacketError::BadMagic));
    p[0] = b'F';
    p[4] = 2;
    assert_eq!(decode_packet(&p).err(), Some(PacketError::UnsupportedVersion));
    p[4] = 1;
    p[36] = 200;
    assert_eq!(decode_packet(&p).err(), Some(PacketError::TruncatedFilename));
    assert_eq!(PacketError::BadMagic.message(), "bad magic");
}

#[test]
fn decode_packet_replaces_invalid_utf8() {
    let mut p = encode_packet(&sample_meta("ab"), &[5]).unwrap();
    p[37] = 0xFF;
    let (m, sym) = decode_packet(&p).unwrap();
    assert_eq!(m.filename, "\u{FFFD}b");
    assert_eq!(sym, vec![5]);
}

#[test]
fn decimal_text_values() {
    assert_eq!(decimal_text(0), "0");
    assert_eq!(decimal_text(7), "7");
    assert_eq!(decimal_text(401), "401");
    assert_eq!(decimal_text(1_000_000), "1000000");
}
