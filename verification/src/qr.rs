//! QR side of the transport: encoding a packet into a packed module matrix,
//! and finding a packet in a greyscale camera frame.

use vstd::prelude::*;

verus! {

/// Error-correction levels tried when encoding.
#[derive(Debug, Clone, Copy, PartialEq, Eq, Structural)]
pub enum EccLevel {
    Low,
    Medium,
}

/// Why the QR encoder refused a payload (the variants of `qrcode`'s `QrError`).
#[derive(Debug, Clone, Copy, PartialEq, Eq, Structural)]
pub enum QrErrorKind {
    DataTooLong,
    InvalidVersion,
    UnsupportedCharacterSet,
    InvalidEciDesignator,
    InvalidCharacter,
}

/// A QR symbol as plain values: `width * width` modules, row-major, `true` for dark.
pub struct QrSymbol {
    pub width: usize,
    pub dark: Vec<bool>,
}

/// The QR code `qrcode` builds for `data` at error-correction level `level`
/// (smallest version that fits), as (width, dark modules row-major); `None` when
/// the crate refuses the data.
pub uninterp spec fn qr_encoding(data: Seq<u8>, level: EccLevel) -> Option<(nat, Seq<bool>)>;

#[verifier::external_type_specification]
#[verifier::external_body]
pub struct ExQrError(qrcode::types::QrError);

/// The variant of a `qrcode::types::QrError`, one arm per variant. Claims nothing.
#[verifier::external_body]
fn qr_error_kind(e: &qrcode::types::QrError) -> QrErrorKind {
    match e {
        qrcode::types::QrError::DataTooLong => QrErrorKind::DataTooLong,
        qrcode::types::QrError::InvalidVersion => QrErrorKind::InvalidVersion,
        qrcode::types::QrError::UnsupportedCharacterSet => QrErrorKind::UnsupportedCharacterSet,
        qrcode::types::QrError::InvalidEciDesignator => QrErrorKind::InvalidEciDesignator,
        qrcode::types::QrError::InvalidCharacter => QrErrorKind::InvalidCharacter,
    }
}

/// `qrcode::QrCode::with_error_correction_level(data, level)`, read out with `width()`
/// and `into_colors()`. Claims: the outcome is a function of `data` and `level`; a
/// symbol is a normal-version QR code (width `4v + 17` for `v` in `1..=40`) with
/// `width * width` modules, as the crate's `Canvas::new` and `encode_auto` show.
#[verifier::external_body]
fn qr_encode_with_level(data: &[u8], level: EccLevel) -> (r: Result<QrSymbol, qrcode::types::QrError>)
    ensures
        r matches Ok(s) ==> qr_encoding(data@, level) == Some((s.width as nat, s.dark@)),
        r is Err ==> qr_encoding(data@, level) is None,
        r matches Ok(s) ==> 21 <= s.width <= 177 && s.dark@.len() == s.width * s.width,
{
    let ec = match level {
        EccLevel::Low => qrcode::EcLevel::L,
        EccLevel::Medium => qrcode::EcLevel::M,
    };
    qrcode::QrCode::with_error_correction_level(data, ec).map(|code| {
        let width = code.width();
        let dark = code.into_colors().into_iter().map(|c| c == qrcode::Color::Dark).collect();
        QrSymbol { width, dark }
    })
}

/// `qrcode::QrCode::new(data)`, read out as above. Claims: it is the medium-level
/// encoding (the crate's `new` calls `with_error_correction_level(data, EcLevel::M)`).
#[verifier::external_body]
fn qr_encode_default(data: &[u8]) -> (r: Result<QrSymbol, qrcode::types::QrError>)
    ensures
        r matches Ok(s) ==> qr_encoding(data@, EccLevel::Medium) == Some((s.width as nat, s.dark@)),
        r is Err ==> qr_encoding(data@, EccLevel::Medium) is None,
        r matches Ok(s) ==> 21 <= s.width <= 177 && s.dark@.len() == s.width * s.width,
{
    qrcode::QrCode::new(data).map(|code| {
        let width = code.width();
        let dark = code.into_colors().into_iter().map(|c| c == qrcode::Color::Dark).collect();
        QrSymbol { width, dark }
    })
}

/// Failure to encode a payload, with the payload's length.
#[derive(Debug, Clone, Copy, PartialEq, Eq, Structural)]
pub struct QrEncodeError {
    pub kind: QrErrorKind,
    pub payload_len: usize,
}

/// What the resilient encoder produces: low error correction first, then medium.
pub open spec fn resilient_encoding(data: Seq<u8>) -> Option<(nat, Seq<bool>)> {
    if qr_encoding(data, EccLevel::Low) is Some {
        qr_encoding(data, EccLevel::Low)
    } else {
        qr_encoding(data, EccLevel::Medium)
    }
}

/// The encoder prefers density: whenever the low-ECC code holds the data it is the one
/// used, and the medium-ECC code is used only when the low one refuses the data.
pub proof fn law_low_ecc_preferred(data: Seq<u8>)
    ensures
        qr_encoding(data, EccLevel::Low) is Some ==> resilient_encoding(data) == qr_encoding(data, EccLevel::Low),
        qr_encoding(data, EccLevel::Low) is None ==> resilient_encoding(data) == qr_encoding(data, EccLevel::Medium),
{
}

/// Encodes at ECC L for density, falling back to M, then to the crate default.
fn encode_qr_resilient(data: &[u8]) -> (r: Result<QrSymbol, QrEncodeError>)
    ensures
        match (r, resilient_encoding(data@)) {
            (Ok(s), Some((w, m))) => s.width == w && s.dark@ == m && 21 <= w <= 177 && m.len() == w * w,
            (Err(e), None) => e.payload_len == data@.len(),
            _ => false,
        },
{
    let levels = [EccLevel::Low, EccLevel::Medium];
    let mut i: usize = 0;
    while i < 2
        invariant
            i <= 2,
            levels@ == seq![EccLevel::Low, EccLevel::Medium],
            i >= 1 ==> qr_encoding(data@, EccLevel::Low) is None,
            i >= 2 ==> qr_encoding(data@, EccLevel::Medium) is None,
        decreases 2 - i,
    {
        let r = qr_encode_with_level(data, levels[i]);
        if let Ok(code) = r {
            return Ok(code);
        }
        i = i + 1;
    }
    match qr_encode_default(data) {
        Ok(code) => Ok(code),
        Err(e) => Err(QrEncodeError { kind: qr_error_kind(&e), payload_len: data.len() }),
    }
}

/// Whether `data` fits in a QR code.
pub fn can_encode(data: &[u8]) -> (r: bool)
    ensures
        r == resilient_encoding(data@) is Some,
{
    encode_qr_resilient(data).is_ok()
}

/// One byte from up to eight module colours, first module in the most significant bit.
pub open spec fn byte_of(bits: Seq<bool>) -> u8
    decreases bits.len(),
{
    if bits.len() == 0 {
        0
    } else {
        ((byte_of(bits.drop_last()) << 1u8) | (if bits.last() { 1u8 } else { 0u8 })) as u8
    }
}

/// Modules `8 * i .. 8 * i + 8`, light past the end.
pub open spec fn octet(bits: Seq<bool>, i: int) -> Seq<bool> {
    Seq::new(8, |t: int| 8 * i + t < bits.len() && bits[8 * i + t])
}

/// The modules packed eight per byte, most significant bit first, the last byte
/// padded with light modules.
pub open spec fn pack_bits(bits: Seq<bool>) -> Seq<u8> {
    Seq::new(((bits.len() + 7) / 8) as nat, |i: int| byte_of(octet(bits, i)))
}

proof fn lemma_byte_of_pad(bits: Seq<bool>, j: nat)
    requires
        bits.len() + j <= 8,
    ensures
        byte_of(bits + Seq::new(j, |t: int| false)) == (byte_of(bits) << (j as u8)) as u8,
    decreases j,
{
    let pad = Seq::new(j, |t: int| false);
    if j == 0 {
        assert(bits + pad =~= bits);
        let b = byte_of(bits);
        assert(b << 0u8 == b) by (bit_vector);
    } else {
        let pad1 = Seq::new((j - 1) as nat, |t: int| false);
        lemma_byte_of_pad(bits, (j - 1) as nat);
        assert((bits + pad).drop_last() =~= bits + pad1);
        assert((bits + pad).last() == false);
        let b = byte_of(bits);
        let jj = (j - 1) as u8;
        assert(jj < 8);
        assert((((b << jj) as u8) << 1u8) | 0u8 == (b << ((jj + 1) as u8)) as u8) by (bit_vector)
            requires jj < 8;
    }
}

/// One step of building a byte from module colours.
proof fn lemma_byte_of_step(b: Seq<bool>, j: int)
    requires
        0 <= j < b.len(),
    ensures
        byte_of(b.take(j + 1)) == ((byte_of(b.take(j)) << 1u8) | (if b[j] { 1u8 } else { 0u8 })) as u8,
{
    assert(b.take(j + 1).drop_last() =~= b.take(j));
    assert(b.take(j + 1).last() == b[j]);
}

/// Bit `7 - t` of the byte built from eight module colours is colour `t`.
proof fn lemma_byte_of_bit(b: Seq<bool>, t: int)
    requires
        b.len() == 8,
        0 <= t < 8,
    ensures
        ((byte_of(b) >> ((7 - t) as u8)) & 1u8 == 1u8) == b[t],
{
    let c0: u8 = if b[0] { 1u8 } else { 0u8 };
    let c1: u8 = if b[1] { 1u8 } else { 0u8 };
    let c2: u8 = if b[2] { 1u8 } else { 0u8 };
    let c3: u8 = if b[3] { 1u8 } else { 0u8 };
    let c4: u8 = if b[4] { 1u8 } else { 0u8 };
    let c5: u8 = if b[5] { 1u8 } else { 0u8 };
    let c6: u8 = if b[6] { 1u8 } else { 0u8 };
    let c7: u8 = if b[7] { 1u8 } else { 0u8 };
    let x0: u8 = byte_of(b.take(0));
    let x1: u8 = byte_of(b.take(1));
    let x2: u8 = byte_of(b.take(2));
    let x3: u8 = byte_of(b.take(3));
    let x4: u8 = byte_of(b.take(4));
    let x5: u8 = byte_of(b.take(5));
    let x6: u8 = byte_of(b.take(6));
    let x7: u8 = byte_of(b.take(7));
    let x8: u8 = byte_of(b.take(8));
    lemma_byte_of_step(b, 0);
    lemma_byte_of_step(b, 1);
    lemma_byte_of_step(b, 2);
    lemma_byte_of_step(b, 3);
    lemma_byte_of_step(b, 4);
    lemma_byte_of_step(b, 5);
    lemma_byte_of_step(b, 6);
    lemma_byte_of_step(b, 7);
    assert(b.take(0) =~= Seq::<bool>::empty());
    assert(b.take(8) =~= b);
    if t == 0 {
        assert(((x8 >> 7u8) & 1u8) == c0) by (bit_vector)
            requires
                x1 == ((x0 << 1u8) | c0) as u8,
                x2 == ((x1 << 1u8) | c1) as u8,
                x3 == ((x2 << 1u8) | c2) as u8,
                x4 == ((x3 << 1u8) | c3) as u8,
                x5 == ((x4 << 1u8) | c4) as u8,
                x6 == ((x5 << 1u8) | c5) as u8,
                x7 == ((x6 << 1u8) | c6) as u8,
                x8 == ((x7 << 1u8) | c7) as u8,
                x0 == 0u8,
                c0 == 0u8 || c0 == 1u8,
                c1 == 0u8 || c1 == 1u8,
                c2 == 0u8 || c2 == 1u8,
                c3 == 0u8 || c3 == 1u8,
                c4 == 0u8 || c4 == 1u8,
                c5 == 0u8 || c5 == 1u8,
                c6 == 0u8 || c6 == 1u8,
                c7 == 0u8 || c7 == 1u8,
            ;
    } else if t == 1 {
        assert(((x8 >> 6u8) & 1u8) == c1) by (bit_vector)
            requires
                x1 == ((x0 << 1u8) | c0) as u8,
                x2 == ((x1 << 1u8) | c1) as u8,
                x3 == ((x2 << 1u8) | c2) as u8,
                x4 == ((x3 << 1u8) | c3) as u8,
                x5 == ((x4 << 1u8) | c4) as u8,
                x6 == ((x5 << 1u8) | c5) as u8,
                x7 == ((x6 << 1u8) | c6) as u8,
                x8 == ((x7 << 1u8) | c7) as u8,
                x0 == 0u8,
                c0 == 0u8 || c0 == 1u8,
                c1 == 0u8 || c1 == 1u8,
                c2 == 0u8 || c2 == 1u8,
                c3 == 0u8 || c3 == 1u8,
                c4 == 0u8 || c4 == 1u8,
                c5 == 0u8 || c5 == 1u8,
                c6 == 0u8 || c6 == 1u8,
                c7 == 0u8 || c7 == 1u8,
            ;
    } else if t == 2 {
        assert(((x8 >> 5u8) & 1u8) == c2) by (bit_vector)
            requires
                x1 == ((x0 << 1u8) | c0) as u8,
                x2 == ((x1 << 1u8) | c1) as u8,
                x3 == ((x2 << 1u8) | c2) as u8,
                x4 == ((x3 << 1u8) | c3) as u8,
                x5 == ((x4 << 1u8) | c4) as u8,
                x6 == ((x5 << 1u8) | c5) as u8,
                x7 == ((x6 << 1u8) | c6) as u8,
                x8 == ((x7 << 1u8) | c7) as u8,
                x0 == 0u8,
                c0 == 0u8 || c0 == 1u8,
                c1 == 0u8 || c1 == 1u8,
                c2 == 0u8 || c2 == 1u8,
                c3 == 0u8 || c3 == 1u8,
                c4 == 0u8 || c4 == 1u8,
                c5 == 0u8 || c5 == 1u8,
                c6 == 0u8 || c6 == 1u8,
                c7 == 0u8 || c7 == 1u8,
            ;
    } else if t == 3 {
        assert(((x8 >> 4u8) & 1u8) == c3) by (bit_vector)
            requires
                x1 == ((x0 << 1u8) | c0) as u8,
                x2 == ((x1 << 1u8) | c1) as u8,
                x3 == ((x2 << 1u8) | c2) as u8,
                x4 == ((x3 << 1u8) | c3) as u8,
                x5 == ((x4 << 1u8) | c4) as u8,
                x6 == ((x5 << 1u8) | c5) as u8,
                x7 == ((x6 << 1u8) | c6) as u8,
                x8 == ((x7 << 1u8) | c7) as u8,
                x0 == 0u8,
                c0 == 0u8 || c0 == 1u8,
                c1 == 0u8 || c1 == 1u8,
                c2 == 0u8 || c2 == 1u8,
                c3 == 0u8 || c3 == 1u8,
                c4 == 0u8 || c4 == 1u8,
                c5 == 0u8 || c5 == 1u8,
                c6 == 0u8 || c6 == 1u8,
                c7 == 0u8 || c7 == 1u8,
            ;
    } else if t == 4 {
        assert(((x8 >> 3u8) & 1u8) == c4) by (bit_vector)
            requires
                x1 == ((x0 << 1u8) | c0) as u8,
                x2 == ((x1 << 1u8) | c1) as u8,
                x3 == ((x2 << 1u8) | c2) as u8,
                x4 == ((x3 << 1u8) | c3) as u8,
                x5 == ((x4 << 1u8) | c4) as u8,
                x6 == ((x5 << 1u8) | c5) as u8,
                x7 == ((x6 << 1u8) | c6) as u8,
                x8 == ((x7 << 1u8) | c7) as u8,
                x0 == 0u8,
                c0 == 0u8 || c0 == 1u8,
                c1 == 0u8 || c1 == 1u8,
                c2 == 0u8 || c2 == 1u8,
                c3 == 0u8 || c3 == 1u8,
                c4 == 0u8 || c4 == 1u8,
                c5 == 0u8 || c5 == 1u8,
                c6 == 0u8 || c6 == 1u8,
                c7 == 0u8 || c7 == 1u8,
            ;
    } else if t == 5 {
        assert(((x8 >> 2u8) & 1u8) == c5) by (bit_vector)
            requires
                x1 == ((x0 << 1u8) | c0) as u8,
                x2 == ((x1 << 1u8) | c1) as u8,
                x3 == ((x2 << 1u8) | c2) as u8,
                x4 == ((x3 << 1u8) | c3) as u8,
                x5 == ((x4 << 1u8) | c4) as u8,
                x6 == ((x5 << 1u8) | c5) as u8,
                x7 == ((x6 << 1u8) | c6) as u8,
                x8 == ((x7 << 1u8) | c7) as u8,
                x0 == 0u8,
                c0 == 0u8 || c0 == 1u8,
                c1 == 0u8 || c1 == 1u8,
                c2 == 0u8 || c2 == 1u8,
                c3 == 0u8 || c3 == 1u8,
                c4 == 0u8 || c4 == 1u8,
                c5 == 0u8 || c5 == 1u8,
                c6 == 0u8 || c6 == 1u8,
                c7 == 0u8 || c7 == 1u8,
            ;
    } else if t == 6 {
        assert(((x8 >> 1u8) & 1u8) == c6) by (bit_vector)
            requires
                x1 == ((x0 << 1u8) | c0) as u8,
                x2 == ((x1 << 1u8) | c1) as u8,
                x3 == ((x2 << 1u8) | c2) as u8,
                x4 == ((x3 << 1u8) | c3) as u8,
                x5 == ((x4 << 1u8) | c4) as u8,
                x6 == ((x5 << 1u8) | c5) as u8,
                x7 == ((x6 << 1u8) | c6) as u8,
                x8 == ((x7 << 1u8) | c7) as u8,
                x0 == 0u8,
                c0 == 0u8 || c0 == 1u8,
                c1 == 0u8 || c1 == 1u8,
                c2 == 0u8 || c2 == 1u8,
                c3 == 0u8 || c3 == 1u8,
                c4 == 0u8 || c4 == 1u8,
                c5 == 0u8 || c5 == 1u8,
                c6 == 0u8 || c6 == 1u8,
                c7 == 0u8 || c7 == 1u8,
            ;
    } else if t == 7 {
        assert(((x8 >> 0u8) & 1u8) == c7) by (bit_vector)
            requires
                x1 == ((x0 << 1u8) | c0) as u8,
                x2 == ((x1 << 1u8) | c1) as u8,
                x3 == ((x2 << 1u8) | c2) as u8,
                x4 == ((x3 << 1u8) | c3) as u8,
                x5 == ((x4 << 1u8) | c4) as u8,
                x6 == ((x5 << 1u8) | c5) as u8,
                x7 == ((x6 << 1u8) | c6) as u8,
                x8 == ((x7 << 1u8) | c7) as u8,
                x0 == 0u8,
                c0 == 0u8 || c0 == 1u8,
                c1 == 0u8 || c1 == 1u8,
                c2 == 0u8 || c2 == 1u8,
                c3 == 0u8 || c3 == 1u8,
                c4 == 0u8 || c4 == 1u8,
                c5 == 0u8 || c5 == 1u8,
                c6 == 0u8 || c6 == 1u8,
                c7 == 0u8 || c7 == 1u8,
            ;
    }
}

/// Packed modules are read back bit by bit: bit `7 - t` of byte `i` is module
/// `8 * i + t` (row-major, most significant bit first), and light past the last module.
pub proof fn lemma_pack_bits_bit(m: Seq<bool>, i: int, t: int)
    requires
        0 <= i < pack_bits(m).len(),
        0 <= t < 8,
    ensures
        ((pack_bits(m)[i] >> ((7 - t) as u8)) & 1u8 == 1u8) == (8 * i + t < m.len() && m[8 * i + t]),
{
    lemma_byte_of_bit(octet(m, i), t);
}

/// Packs the modules of a symbol eight per byte (row-major, MSB first).
fn pack_modules(dark: &Vec<bool>) -> (bits: Vec<u8>)
    ensures
        bits@ == pack_bits(dark@),
{
    let n = dark.len();
    let mut bits: Vec<u8> = Vec::new();
    let mut acc: u8 = 0;
    let mut cnt: usize = 0;
    let mut i: usize = 0;
    while i < n
        invariant
            n == dark@.len(),
            i <= n,
            cnt < 8,
            cnt <= i,
            i - cnt == 8 * bits@.len(),
            acc == byte_of(dark@.subrange(i - cnt, i as int)),
            forall|b: int| 0 <= b < bits@.len() ==> #[trigger] bits@[b] == byte_of(octet(dark@, b)),
        decreases n - i,
    {
        let bit: u8 = if dark[i] { 1 } else { 0 };
        proof {
            let part = dark@.subrange(i - cnt, i + 1);
            assert(part.drop_last() =~= dark@.subrange(i - cnt, i as int));
            assert(part.last() == dark@[i as int]);
        }
        acc = (acc << 1u8) | bit;
        cnt = cnt + 1;
        i = i + 1;
        if cnt == 8 {
            proof {
                let b = bits@.len() as int;
                assert(dark@.subrange(i - cnt, i as int) =~= octet(dark@, b));
            }
            bits.push(acc);
            acc = 0;
            cnt = 0;
            proof {
                assert(dark@.subrange(i as int, i as int) =~= Seq::<bool>::empty());
            }
        }
    }
    if cnt > 0 {
        let shift = (8 - cnt) as u8;
        proof {
            let b = bits@.len() as int;
            let part = dark@.subrange(n - cnt, n as int);
            let pad = Seq::new((8 - cnt) as nat, |t: int| false);
            lemma_byte_of_pad(part, (8 - cnt) as nat);
            assert(part + pad =~= octet(dark@, b));
        }
        bits.push(acc << shift);
    }
    proof {
        assert(bits@.len() == (n + 7) / 8);
        assert(bits@ =~= pack_bits(dark@));
    }
    bits
}

/// Encodes a payload as a QR module matrix: (width, modules packed eight per byte,
/// row-major, most significant bit first).
pub fn encode_matrix(data: &[u8]) -> (r: Result<(u32, Vec<u8>), QrEncodeError>)
    ensures
        match (r, resilient_encoding(data@)) {
            (Ok((w, bits)), Some((sw, m))) => w == sw && 21 <= w <= 177 && m.len() == w * w
                && bits@ == pack_bits(m) && bits@.len() == (w * w + 7) / 8,
            (Err(e), None) => e.payload_len == data@.len(),
            _ => false,
        },
        qr_encoding(data@, EccLevel::Low) matches Some((w, m)) ==> (r matches Ok((rw, bits)) && rw == w
            && bits@ == pack_bits(m)),
        qr_encoding(data@, EccLevel::Low) is None ==> match qr_encoding(data@, EccLevel::Medium) {
            Some((w, m)) => r matches Ok((rw, bits)) && rw == w && bits@ == pack_bits(m),
            None => r is Err,
        },
{
    proof {
        law_low_ecc_preferred(data@);
    }
    let code = match encode_qr_resilient(data) {
        Ok(c) => c,
        Err(e) => return Err(e),
    };
    let bits = pack_modules(&code.dark);
    Ok((code.width as u32, bits))
}

} // verus!

verus! {

/// Why no packet came out of a camera frame.
#[derive(Debug, Clone, Copy, PartialEq, Eq, Structural)]
pub enum QrDecodeError {
    /// `width * height` differs from the number of luma bytes.
    SizeMismatch,
    /// No grid in the frame decoded.
    NoQr,
}

impl QrDecodeError {
    /// Human-readable description of the error.
    pub fn message(&self) -> (r: String)
        ensures
            *self == QrDecodeError::SizeMismatch ==> r@ == "luma size mismatch"@,
            *self == QrDecodeError::NoQr ==> r@ == "no qr"@,
    {
        match self {
            QrDecodeError::SizeMismatch => String::from_str("luma size mismatch"),
            QrDecodeError::NoQr => String::from_str("no qr"),
        }
    }
}

/// The luminance of pixel `(x, y)` of a `width`-wide row-major frame (0 outside it).
pub fn luma_at(luma: &[u8], width: usize, x: usize, y: usize) -> (r: u8)
    ensures
        x < width && y * width + x < luma@.len() ==> r == luma@[y * width + x],
        !(x < width && y * width + x < luma@.len()) ==> r == 0,
{
    if x >= width {
        return 0;
    }
    let yy = y as u128;
    let ww = width as u128;
    proof {
        assert(yy * ww <= 0xFFFF_FFFF_FFFF_FFFFu128 * 0xFFFF_FFFF_FFFF_FFFFu128) by (nonlinear_arith)
            requires yy <= 0xFFFF_FFFF_FFFF_FFFFu128, ww <= 0xFFFF_FFFF_FFFF_FFFFu128;
    }
    let idx = yy * ww + x as u128;
    if idx < luma.len() as u128 {
        luma[idx as usize]
    } else {
        0
    }
}

/// The payloads `rqrr` finds in a `width` by `height` greyscale frame: one entry per
/// grid it detects, `None` where the grid does not decode.
pub uninterp spec fn qr_scan(width: usize, height: usize, luma: Seq<u8>) -> Seq<Option<Seq<u8>>>;

/// `rqrr`: `PreparedImage::prepare_from_greyscale` over the frame, `detect_grids`, and
/// `decode_to` on each grid found. Claims: the grids' payloads are a function of the
/// frame (the crate's image analysis keeps no state and draws no random numbers).
/// Left unsaid: which grids are found and what they hold. `requires` keeps
/// `width * height` within `usize`, which `prepare_from_greyscale` checks with an
/// `expect`; whether some frame reaches the crate's internal assertions on perspective
/// mapping and region painting is not settled here, and no frame is shut out for them.
#[verifier::external_body]
fn scan_grids(width: usize, height: usize, luma: &[u8]) -> (r: Vec<Option<Vec<u8>>>)
    requires
        width * height == luma@.len(),
    ensures
        payloads_view(r@) == qr_scan(width, height, luma@),
{
    let mut img = rqrr::PreparedImage::prepare_from_greyscale(width, height, |x, y| luma_at(luma, width, x, y));
    let grids = img.detect_grids();
    grids.iter().map(|g| {
        let mut data = Vec::new();
        g.decode_to(&mut data).ok().map(|_| data)
    }).collect()
}

/// The first payload present in `results`.
pub open spec fn first_payload_spec(results: Seq<Option<Seq<u8>>>) -> Option<Seq<u8>>
    decreases results.len(),
{
    if results.len() == 0 {
        None
    } else if results[0] is Some {
        results[0]
    } else {
        first_payload_spec(results.drop_first())
    }
}

/// The payloads of a scan, as byte sequences.
pub open spec fn payloads_view(results: Seq<Option<Vec<u8>>>) -> Seq<Option<Seq<u8>>> {
    results.map_values(|o: Option<Vec<u8>>| match o {
        Some(v) => Some(v@),
        None => None,
    })
}

/// The first grid payload of a scan, if any grid decoded.
pub fn first_payload(results: &Vec<Option<Vec<u8>>>) -> (r: Option<Vec<u8>>)
    ensures
        match (r, first_payload_spec(payloads_view(results@))) {
            (Some(v), Some(w)) => v@ == w,
            (None, None) => true,
            _ => false,
        },
{
    let ghost all = payloads_view(results@);
    let mut i: usize = 0;
    proof {
        assert(all.skip(0) =~= all);
    }
    while i < results.len()
        invariant
            i <= results@.len(),
            all == payloads_view(results@),
            first_payload_spec(all) == first_payload_spec(all.skip(i as int)),
        decreases results@.len() - i,
    {
        proof {
            assert(all.skip(i as int)[0] == all[i as int]);
            assert(all.skip(i as int).drop_first() =~= all.skip(i + 1));
            assert(all[i as int] == (match results@[i as int] {
                Some(v) => Some(v@),
                None => None::<Seq<u8>>,
            }));
        }
        match &results[i] {
            Some(v) => {
                let c = v.clone();
                proof {
                    assert(c@ =~= v@);
                }
                return Some(c);
            },
            None => {},
        }
        i = i + 1;
    }
    proof {
        assert(all.skip(i as int) =~= Seq::<Option<Seq<u8>>>::empty());
    }
    None
}

/// Finds a packet in a greyscale camera frame (`width * height` luma bytes, row-major).
pub fn decode_luma_bytes(width: u32, height: u32, luma: &[u8]) -> (r: Result<Vec<u8>, QrDecodeError>)
    ensures
        width * height != luma@.len() ==> r == Err::<Vec<u8>, QrDecodeError>(QrDecodeError::SizeMismatch),
        width * height == luma@.len() ==> match first_payload_spec(qr_scan(width as usize, height as usize, luma@)) {
            Some(p) => r matches Ok(v) && v@ == p,
            None => r == Err::<Vec<u8>, QrDecodeError>(QrDecodeError::NoQr),
        },
{
    proof {
        assert((width as u64) * (height as u64) <= 0xFFFF_FFFFu64 * 0xFFFF_FFFFu64) by (nonlinear_arith)
            requires width <= 0xFFFF_FFFFu32, height <= 0xFFFF_FFFFu32;
    }
    if (width as u64) * (height as u64) != luma.len() as u64 {
        return Err(QrDecodeError::SizeMismatch);
    }
    let results = scan_grids(width as usize, height as usize, luma);
    match first_payload(&results) {
        Some(data) => Ok(data),
        None => Err(QrDecodeError::NoQr),
    }
}

} // verus!
