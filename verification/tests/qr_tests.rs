use fountain_core::qr::{
    can_encode, decode_luma_bytes, encode_matrix, luma_at, QrDecodeError, QrErrorKind,
};

/// Draws a packed module matrix as a greyscale frame: `scale` pixels per module and a
/// four-module quiet zone.
fn render(size: u32, modules: &[u8], scale: usize) -> (u32, Vec<u8>) {
    let w = size as usize;
    let side = (w + 8) * scale;
    let mut img = vec![255u8; side * side];
    for y in 0..w {
        for x in 0..w {
            let i = y * w + x;
            let dark = (modules[i / 8] >> (7 - (i % 8))) & 1 == 1;
            if dark {
                for dy in 0..scale {
                    for dx in 0..scale {
                        let py = (y + 4) * scale + dy;
                        let px = (x + 4) * scale + dx;
                        img[py * side + px] = 0;
                    }
                }
            }
        }
    }
    (side as u32, img)
}

#[test]
fn small_payload_is_version_one() {
    let (size, bits) = encode_matrix(b"hi").unwrap();
    assert_eq!(size, 21);
    assert_eq!(bits.len(), (21 * 21 + 7) / 8);
    // the last byte is padded with light modules
    assert_eq!(bits[bits.len() - 1] & 0x7F, 0);
}

#[test]
fn oversized_payload_cannot_be_encoded() {
    let big = vec![0xFFu8; 3000];
    assert!(!can_encode(&big));
    let err = encode_matrix(&big).unwrap_err();
    assert_eq!(err.kind, QrErrorKind::DataTooLong);
    assert_eq!(err.payload_len, 3000);
    assert!(can_encode(&vec![0x55u8; 400]));
}

#[test]
fn luma_size_must_match() {
    assert_eq!(decode_luma_bytes(10, 10, &[0u8; 99]), Err(QrDecodeError::SizeMismatch));
    assert_eq!(QrDecodeError::SizeMismatch.message(), "luma size mismatch");
}

#[test]
fn blank_frame_has_no_code() {
    assert_eq!(decode_luma_bytes(64, 48, &vec![255u8; 64 * 48]), Err(QrDecodeError::NoQr));
}

#[test]
fn luma_at_reads_rows() {
    let luma = vec![1u8, 2, 3, 4, 5, 6];
    assert_eq!(luma_at(&luma, 3, 1, 1), 5);
    assert_eq!(luma_at(&luma, 3, 3, 0), 0);
    assert_eq!(luma_at(&luma, 3, 0, 2), 0);
}

#[test]
fn rendered_matrix_decodes_back() {
    let payload: Vec<u8> = (0..200u32).map(|i| (i * 7 % 256) as u8).collect();
    let (size, bits) = encode_matrix(&payload).unwrap();
    let (side, img) = render(size, &bits, 4);
    let got = decode_luma_bytes(side, side, &img).unwrap();
    assert_eq!(got, payload);
}
