//! Binary packet framing for fountain-coded QR payloads, and the pair code
//! that lets a receiver lock onto one sender.
//!
//! Layout (all integers little endian):
//! `magic(4) · ver · flags · file_id(8) · total_len(8) · symbol_size(2) · k(4) ·
//! esi(4) · crc32(4) · name_len · name · symbol`.

use vstd::prelude::*;
use vstd::bytes::{
    spec_u16_from_le_bytes, spec_u16_to_le_bytes, spec_u32_from_le_bytes, spec_u32_to_le_bytes,
    spec_u64_from_le_bytes, spec_u64_to_le_bytes, u16_from_le_bytes, u16_to_le_bytes,
    u32_from_le_bytes, u32_to_le_bytes, u64_from_le_bytes, u64_to_le_bytes,
};
use vstd::utf8::{decode_utf8, encode_utf8, valid_utf8};
use crate::text::{
    ascii_upper, char_utf8_len, chars_of, decimal, decimal_text, is_unicode_whitespace, is_whitespace,
    lemma_utf8_size_push, string_from_chars, to_ascii_upper, trim, trim_chars, utf8_len,
    utf8_size,
};

verus! {

/// Version byte of the packet layout below.
pub const PROTOCOL_VERSION: u8 = 1;

/// Max QR binary payload (Version 40, ECC L): the absolute ceiling.
pub const QR_CAPACITY: usize = 2953;

/// Symbol budget of the fast camera profile.
pub const CAMERA_SYMBOL_CAP: usize = 400;

/// Filenames are kept this short (in UTF-8 bytes) so that named frames still fit.
pub const MAX_FILENAME_BYTES: usize = 32;

/// Max encoded packet bytes for the fast camera profile.
pub const CAMERA_PACKET_CAP: usize = 460;

/// Header bytes before the filename, including the filename length byte.
pub const FIXED_HEADER: usize = 37;

/// The four magic bytes `FQFT`.
pub open spec fn magic() -> Seq<u8> {
    seq![0x46u8, 0x51u8, 0x46u8, 0x54u8]
}

/// The 32 symbols of the pair-code alphabet (Crockford base 32: no I, L, O, U).
pub open spec fn pair_alphabet() -> Seq<u8> {
    seq![
        0x30u8, 0x31u8, 0x32u8, 0x33u8, 0x34u8, 0x35u8, 0x36u8, 0x37u8, 0x38u8, 0x39u8,
        0x41u8, 0x42u8, 0x43u8, 0x44u8, 0x45u8, 0x46u8, 0x47u8, 0x48u8, 0x4Au8, 0x4Bu8,
        0x4Du8, 0x4Eu8, 0x50u8, 0x51u8, 0x52u8, 0x53u8, 0x54u8, 0x56u8, 0x57u8, 0x58u8,
        0x59u8, 0x5Au8,
    ]
}

fn pair_alphabet_vec() -> (v: Vec<u8>)
    ensures
        v@ == pair_alphabet(),
{
    let v: Vec<u8> = vec![
        0x30u8, 0x31u8, 0x32u8, 0x33u8, 0x34u8, 0x35u8, 0x36u8, 0x37u8, 0x38u8, 0x39u8,
        0x41u8, 0x42u8, 0x43u8, 0x44u8, 0x45u8, 0x46u8, 0x47u8, 0x48u8, 0x4Au8, 0x4Bu8,
        0x4Du8, 0x4Eu8, 0x50u8, 0x51u8, 0x52u8, 0x53u8, 0x54u8, 0x56u8, 0x57u8, 0x58u8,
        0x59u8, 0x5Au8,
    ];
    assert(v@ =~= pair_alphabet());
    v
}

/// Character `j` (0..5) of the pair code: the 5-bit group of `file_id` at bit
/// `5 * (4 - j)`, most significant group first.
pub open spec fn pair_code_char(file_id: u64, j: int) -> char {
    (pair_alphabet()[((file_id >> ((5 * (4 - j)) as u64)) & 31u64) as int]) as char
}

/// The five-character pair code of a file id.
pub open spec fn pair_code_chars(file_id: u64) -> Seq<char> {
    Seq::new(5, |j: int| pair_code_char(file_id, j))
}

/// The characters `String::from_utf8_lossy` makes of `bytes`.
pub uninterp spec fn lossy_utf8(bytes: Seq<u8>) -> Seq<char>;

/// `String::from_utf8_lossy(bytes).into_owned()`. Claims: the result is a function of
/// the bytes alone, and is their exact decoding when they are valid UTF-8. Left
/// unsaid: which replacement characters stand for invalid sequences.
#[verifier::external_body]
fn utf8_lossy(bytes: &[u8]) -> (s: String)
    ensures
        s@ == lossy_utf8(bytes@),
        valid_utf8(bytes@) ==> s@ == decode_utf8(bytes@),
{
    String::from_utf8_lossy(bytes).into_owned()
}

/// The CRC-32 (IEEE) checksum of `data`, as `crc32fast` computes it.
pub uninterp spec fn crc32_of(data: Seq<u8>) -> u32;

/// `crc32fast::hash`: claims only that the checksum is a function of the bytes.
#[verifier::external_body]
fn crc32_hash(data: &[u8]) -> (r: u32)
    ensures
        r == crc32_of(data@),
{
    crc32fast::hash(data)
}

/// CRC-32 (IEEE) checksum of `data`.
pub fn crc32(data: &[u8]) -> (r: u32)
    ensures
        r == crc32_of(data@),
{
    crc32_hash(data)
}

/// ASCII bytes read as characters.
proof fn lemma_ascii_bytes_decode(chars: Seq<char>, bytes: Seq<u8>)
    requires
        vstd::utf8::is_ascii_chars(chars),
        bytes.len() == chars.len(),
        forall|i: int| 0 <= i < chars.len() ==> bytes[i] == chars[i] as u8,
    ensures
        valid_utf8(bytes),
        decode_utf8(bytes) == chars,
{
    vstd::utf8::is_ascii_chars_encode_utf8(chars);
    assert(encode_utf8(chars) =~= bytes);
    vstd::utf8::encode_utf8_valid_utf8(chars);
    vstd::utf8::encode_utf8_decode_utf8(chars);
}

/// Human pair code of a file id: five characters of the Crockford alphabet,
/// the most significant of the low 25 bits first (e.g. `7K3MP`).
pub fn pair_code(file_id: u64) -> (r: String)
    ensures
        r@ == pair_code_chars(file_id),
{
    let alphabet = pair_alphabet_vec();
    let mut chars: Vec<u8> = Vec::new();
    let mut j: u64 = 0;
    while j < 5
        invariant
            j <= 5,
            alphabet@ == pair_alphabet(),
            chars@.len() == j,
            forall|t: int| 0 <= t < j ==> (#[trigger] chars@[t]) as char == pair_code_char(file_id, t)
                && chars@[t] < 0x80,
        decreases 5 - j,
    {
        let shift: u64 = 5 * (4 - j);
        let group = (file_id >> shift) & 31u64;
        proof {
            assert(group < 32) by (bit_vector)
                requires group == (file_id >> shift) & 31u64;
        }
        let b = alphabet[group as usize];
        proof {
            assert(pair_alphabet()[group as int] < 0x80);
            assert(b as char == pair_code_char(file_id, j as int));
        }
        chars.push(b);
        j = j + 1;
    }
    proof {
        let cs = pair_code_chars(file_id);
        assert(vstd::utf8::is_ascii_chars(cs)) by {
            assert forall|i: int| 0 <= i < cs.len() implies '\0' <= #[trigger] cs[i] <= '\u{7f}' by {
                assert(cs[i] == chars@[i] as char);
            }
        }
        lemma_ascii_bytes_decode(cs, chars@);
    }
    utf8_lossy(chars.as_slice())
}

} // verus!

verus! {

/// How one typed pair-code character is read: case-insensitive, with `I`/`L`
/// read as `1` and `O` as `0`.
pub open spec fn pair_char(c: char) -> char {
    let u = ascii_upper(c);
    if u == 'I' || u == 'L' {
        '1'
    } else if u == 'O' {
        '0'
    } else {
        u
    }
}

/// A typed pair code with whitespace and dashes dropped and each character read by [`pair_char`].
pub open spec fn normalize_pair(s: Seq<char>) -> Seq<char>
    decreases s.len(),
{
    if s.len() == 0 {
        s
    } else {
        let r = normalize_pair(s.drop_last());
        let c = s.last();
        if is_unicode_whitespace(c) || c == '-' {
            r
        } else {
            r.push(pair_char(c))
        }
    }
}

/// The typed pair code `code`, normalised as [`normalize_pair`] says.
pub fn normalize_pair_code(code: &str) -> (r: String)
    ensures
        r@ == normalize_pair(code@),
{
    let cs = chars_of(code);
    let mut out: Vec<char> = Vec::new();
    let mut i: usize = 0;
    while i < cs.len()
        invariant
            i <= cs@.len(),
            cs@ == code@,
            out@ == normalize_pair(cs@.take(i as int)),
        decreases cs@.len() - i,
    {
        let c = cs[i];
        proof {
            assert(cs@.take(i + 1).drop_last() =~= cs@.take(i as int));
            assert(cs@.take(i + 1).last() == c);
        }
        if !is_whitespace(c) && c != '-' {
            let u = to_ascii_upper(c);
            let m = if u == 'I' || u == 'L' {
                '1'
            } else if u == 'O' {
                '0'
            } else {
                u
            };
            out.push(m);
        }
        i = i + 1;
    }
    proof {
        assert(cs@.take(cs@.len() as int) =~= cs@);
    }
    string_from_chars(&out)
}

/// Whether the typed `code` names the file `file_id`.
pub fn pair_code_matches(code: &str, file_id: u64) -> (r: bool)
    ensures
        r == (normalize_pair(code@) == pair_code_chars(file_id)),
{
    let normalized = normalize_pair_code(code);
    let expected = pair_code(file_id);
    let chars = chars_of(normalized.as_str());
    if chars.len() != 5 {
        return false;
    }
    expected == normalized
}

/// Largest symbol that fits one QR code next to a filename of `filename_len` bytes.
pub open spec fn max_symbol_payload_spec(filename_len: nat) -> nat {
    if FIXED_HEADER + filename_len <= QR_CAPACITY {
        (QR_CAPACITY - (FIXED_HEADER + filename_len)) as nat
    } else {
        0
    }
}

/// Bytes left for the symbol in a QR code whose packet carries a filename of
/// `filename_len` bytes.
pub fn max_symbol_payload(filename_len: usize) -> (r: usize)
    requires
        filename_len + FIXED_HEADER <= usize::MAX,
    ensures
        r == max_symbol_payload_spec(filename_len as nat),
{
    QR_CAPACITY.saturating_sub(FIXED_HEADER + filename_len)
}

/// Symbol room of a lean (nameless) packet in the camera profile.
pub open spec fn camera_symbol_room() -> nat {
    CAMERA_SYMBOL_CAP as nat
}

/// The symbol size chosen for a file of `file_len` bytes: the whole camera room
/// (`min(CAMERA_PACKET_CAP - FIXED_HEADER, CAMERA_SYMBOL_CAP)`), or less for a
/// smaller file, and at least 1.
pub open spec fn choose_symbol_size_spec(file_len: nat) -> nat {
    if file_len == 0 {
        1
    } else if file_len < camera_symbol_room() {
        file_len
    } else {
        camera_symbol_room()
    }
}

/// Symbol size for lean (no-filename) packets under [`CAMERA_PACKET_CAP`].
pub fn choose_symbol_size(_filename: &str, file_len: usize) -> (r: u16)
    ensures
        r == choose_symbol_size_spec(file_len as nat),
{
    let room0 = CAMERA_PACKET_CAP.saturating_sub(FIXED_HEADER);
    let room1 = if room0 < CAMERA_SYMBOL_CAP { room0 } else { CAMERA_SYMBOL_CAP };
    let room = if room1 < 1 { 1 } else { room1 };
    let size = if file_len == 0 {
        1
    } else {
        let m = if room < file_len { room } else { file_len };
        if m < 1 { 1 } else { m }
    };
    size as u16
}

} // verus!

verus! {

/// Header fields of a packet.
pub struct PacketMeta {
    pub file_id: u64,
    pub total_len: u64,
    pub symbol_size: u16,
    pub k: u32,
    pub esi: u32,
    pub crc32: u32,
    pub filename: String,
}

/// Abstract value of a [`PacketMeta`].
pub ghost struct PacketMetaView {
    pub file_id: u64,
    pub total_len: u64,
    pub symbol_size: u16,
    pub k: u32,
    pub esi: u32,
    pub crc32: u32,
    pub filename: Seq<char>,
}

impl View for PacketMeta {
    type V = PacketMetaView;

    open spec fn view(&self) -> PacketMetaView {
        PacketMetaView {
            file_id: self.file_id,
            total_len: self.total_len,
            symbol_size: self.symbol_size,
            k: self.k,
            esi: self.esi,
            crc32: self.crc32,
            filename: self.filename@,
        }
    }
}

impl PacketMeta {
    /// A copy of these fields.
    pub fn copy(&self) -> (r: PacketMeta)
        ensures
            r@ == self@,
    {
        PacketMeta {
            file_id: self.file_id,
            total_len: self.total_len,
            symbol_size: self.symbol_size,
            k: self.k,
            esi: self.esi,
            crc32: self.crc32,
            filename: self.filename.clone(),
        }
    }
}

/// Why a packet could not be built or read.
#[derive(Debug, Clone, Copy, PartialEq, Eq, Structural)]
pub enum PacketError {
    /// The filename is longer than 255 UTF-8 bytes.
    FilenameTooLong,
    /// The symbol is larger than the room left next to the filename.
    SymbolTooLarge { symbol_len: usize, max: usize, filename_len: usize },
    /// The packet would not fit one QR code.
    ExceedsQrCapacity,
    /// Fewer bytes than a header.
    TruncatedHeader,
    /// The packet does not start with `FQFT`.
    BadMagic,
    /// A protocol version this library does not read.
    UnsupportedVersion,
    /// The filename runs past the end of the packet.
    TruncatedFilename,
}

/// The description of a packet error.
pub open spec fn packet_error_message(e: PacketError) -> Seq<char> {
    match e {
        PacketError::FilenameTooLong => "filename too long"@,
        PacketError::SymbolTooLarge { symbol_len, max, filename_len } => "symbol "@ + decimal(
            symbol_len as nat,
        ) + " exceeds capacity "@ + decimal(max as nat) + " (filename len "@ + decimal(filename_len as nat)
            + ")"@,
        PacketError::ExceedsQrCapacity => "packet exceeds QR capacity"@,
        PacketError::TruncatedHeader => "truncated header"@,
        PacketError::BadMagic => "bad magic"@,
        PacketError::UnsupportedVersion => "unsupported version"@,
        PacketError::TruncatedFilename => "truncated filename"@,
    }
}

impl PacketError {
    /// Human-readable description of the error.
    pub fn message(&self) -> (r: String)
        ensures
            r@ == packet_error_message(*self),
    {
        match self {
            PacketError::FilenameTooLong => String::from_str("filename too long"),
            PacketError::SymbolTooLarge { symbol_len, max, filename_len } => String::from_str("symbol ")
                .concat(decimal_text(*symbol_len).as_str())
                .concat(" exceeds capacity ")
                .concat(decimal_text(*max).as_str())
                .concat(" (filename len ")
                .concat(decimal_text(*filename_len).as_str())
                .concat(")"),
            PacketError::ExceedsQrCapacity => String::from_str("packet exceeds QR capacity"),
            PacketError::TruncatedHeader => String::from_str("truncated header"),
            PacketError::BadMagic => String::from_str("bad magic"),
            PacketError::UnsupportedVersion => String::from_str("unsupported version"),
            PacketError::TruncatedFilename => String::from_str("truncated filename"),
        }
    }
}

/// The 36 header bytes before the filename length.
pub open spec fn header_bytes(m: PacketMetaView) -> Seq<u8> {
    magic() + seq![PROTOCOL_VERSION, 0u8] + spec_u64_to_le_bytes(m.file_id) + spec_u64_to_le_bytes(
        m.total_len,
    ) + spec_u16_to_le_bytes(m.symbol_size) + spec_u32_to_le_bytes(m.k) + spec_u32_to_le_bytes(m.esi)
        + spec_u32_to_le_bytes(m.crc32)
}

/// The UTF-8 bytes of the filename.
pub open spec fn name_bytes(m: PacketMetaView) -> Seq<u8> {
    encode_utf8(m.filename)
}

/// The encoded packet.
pub open spec fn packet_bytes(m: PacketMetaView, symbol: Seq<u8>) -> Seq<u8> {
    header_bytes(m) + seq![name_bytes(m).len() as u8] + name_bytes(m) + symbol
}

/// Largest symbol `encode_packet` takes next to a filename of `n` bytes.
pub open spec fn symbol_limit(n: nat) -> nat {
    let m = max_symbol_payload_spec(n);
    if m < CAMERA_SYMBOL_CAP { m } else { CAMERA_SYMBOL_CAP as nat }
}

/// What `encode_packet` returns for `m` and `symbol`.
pub open spec fn encode_result(m: PacketMetaView, symbol: Seq<u8>) -> Result<Seq<u8>, PacketError> {
    let n = name_bytes(m).len();
    if n > 255 {
        Err(PacketError::FilenameTooLong)
    } else if symbol.len() > symbol_limit(n) {
        Err(
            PacketError::SymbolTooLarge {
                symbol_len: symbol.len() as usize,
                max: symbol_limit(n) as usize,
                filename_len: n as usize,
            },
        )
    } else {
        Ok(packet_bytes(m, symbol))
    }
}

fn append(buf: &mut Vec<u8>, bytes: &[u8])
    ensures
        final(buf)@ == old(buf)@ + bytes@,
{
    let mut i: usize = 0;
    let ghost b0 = buf@;
    while i < bytes.len()
        invariant
            i <= bytes@.len(),
            buf@ == b0 + bytes@.take(i as int),
        decreases bytes@.len() - i,
    {
        buf.push(bytes[i]);
        proof {
            assert(bytes@.take(i + 1) =~= bytes@.take(i as int).push(bytes@[i as int]));
            assert(b0 + bytes@.take(i + 1) =~= (b0 + bytes@.take(i as int)).push(bytes@[i as int]));
        }
        i = i + 1;
    }
    proof {
        assert(bytes@.take(bytes@.len() as int) =~= bytes@);
    }
}

/// Frames `symbol` with the header `meta`.
pub fn encode_packet(meta: &PacketMeta, symbol: &[u8]) -> (r: Result<Vec<u8>, PacketError>)
    ensures
        match (r, encode_result(meta@, symbol@)) {
            (Ok(v), Ok(w)) => v@ == w,
            (Err(e), Err(f)) => e == f,
            _ => false,
        },
{
    let name = meta.filename.as_str().as_bytes();
    let ghost nb = name_bytes(meta@);
    assert(name@ == nb);
    if name.len() > 255 {
        return Err(PacketError::FilenameTooLong);
    }
    let room = max_symbol_payload(name.len());
    let max_sym = if room < CAMERA_SYMBOL_CAP { room } else { CAMERA_SYMBOL_CAP };
    if symbol.len() > max_sym {
        return Err(
            PacketError::SymbolTooLarge {
                symbol_len: symbol.len(),
                max: max_sym,
                filename_len: name.len(),
            },
        );
    }
    let mut buf: Vec<u8> = Vec::new();
    buf.push(0x46u8);
    buf.push(0x51u8);
    buf.push(0x46u8);
    buf.push(0x54u8);
    buf.push(PROTOCOL_VERSION);
    buf.push(0u8);
    let b = u64_to_le_bytes(meta.file_id);
    append(&mut buf, b.as_slice());
    let b = u64_to_le_bytes(meta.total_len);
    append(&mut buf, b.as_slice());
    let b = u16_to_le_bytes(meta.symbol_size);
    append(&mut buf, b.as_slice());
    let b = u32_to_le_bytes(meta.k);
    append(&mut buf, b.as_slice());
    let b = u32_to_le_bytes(meta.esi);
    append(&mut buf, b.as_slice());
    let b = u32_to_le_bytes(meta.crc32);
    append(&mut buf, b.as_slice());
    proof {
        assert(buf@ =~= header_bytes(meta@));
    }
    buf.push(name.len() as u8);
    append(&mut buf, name);
    append(&mut buf, symbol);
    proof {
        assert(buf@ =~= packet_bytes(meta@, symbol@));
        vstd::bytes::lemma_auto_spec_u64_to_from_le_bytes();
        vstd::bytes::lemma_auto_spec_u32_to_from_le_bytes();
        vstd::bytes::lemma_auto_spec_u16_to_from_le_bytes();
        assert(header_bytes(meta@).len() == 36);
    }
    if buf.len() > QR_CAPACITY {
        return Err(PacketError::ExceedsQrCapacity);
    }
    Ok(buf)
}

} // verus!

verus! {

/// The characters `String::from_utf8_lossy` makes of `bytes`, spelled out where they are valid UTF-8.
pub open spec fn lossy_text(bytes: Seq<u8>) -> Seq<char> {
    if valid_utf8(bytes) {
        decode_utf8(bytes)
    } else {
        lossy_utf8(bytes)
    }
}

/// What `decode_packet` returns for `data`.
pub open spec fn decode_result(data: Seq<u8>) -> Result<(PacketMetaView, Seq<u8>), PacketError> {
    if data.len() < FIXED_HEADER {
        Err(PacketError::TruncatedHeader)
    } else if data.subrange(0, 4) != magic() {
        Err(PacketError::BadMagic)
    } else if data[4] != PROTOCOL_VERSION {
        Err(PacketError::UnsupportedVersion)
    } else if data.len() < FIXED_HEADER + data[36] {
        Err(PacketError::TruncatedFilename)
    } else {
        let end = FIXED_HEADER + data[36];
        Ok(
            (
                PacketMetaView {
                    file_id: spec_u64_from_le_bytes(data.subrange(6, 14)),
                    total_len: spec_u64_from_le_bytes(data.subrange(14, 22)),
                    symbol_size: spec_u16_from_le_bytes(data.subrange(22, 24)),
                    k: spec_u32_from_le_bytes(data.subrange(24, 28)),
                    esi: spec_u32_from_le_bytes(data.subrange(28, 32)),
                    crc32: spec_u32_from_le_bytes(data.subrange(32, 36)),
                    filename: lossy_text(data.subrange(FIXED_HEADER as int, end)),
                },
                data.subrange(end, data.len() as int),
            ),
        )
    }
}

/// Reads the header and symbol of a packet.
pub fn decode_packet(data: &[u8]) -> (r: Result<(PacketMeta, Vec<u8>), PacketError>)
    ensures
        match (r, decode_result(data@)) {
            (Ok((m, s)), Ok((mv, sv))) => m@ == mv && s@ == sv,
            (Err(e), Err(f)) => e == f,
            _ => false,
        },
{
    if data.len() < FIXED_HEADER {
        return Err(PacketError::TruncatedHeader);
    }
    if !(data[0] == 0x46u8 && data[1] == 0x51u8 && data[2] == 0x46u8 && data[3] == 0x54u8) {
        proof {
            if data@.subrange(0, 4) == magic() {
                assert(data@[0] == data@.subrange(0, 4)[0]);
                assert(data@[1] == data@.subrange(0, 4)[1]);
                assert(data@[2] == data@.subrange(0, 4)[2]);
                assert(data@[3] == data@.subrange(0, 4)[3]);
            }
        }
        return Err(PacketError::BadMagic);
    }
    proof {
        assert(data@.subrange(0, 4) =~= magic());
    }
    if data[4] != PROTOCOL_VERSION {
        return Err(PacketError::UnsupportedVersion);
    }
    let file_id = u64_from_le_bytes(vstd::slice::slice_subrange(data, 6, 14));
    let total_len = u64_from_le_bytes(vstd::slice::slice_subrange(data, 14, 22));
    let symbol_size = u16_from_le_bytes(vstd::slice::slice_subrange(data, 22, 24));
    let k = u32_from_le_bytes(vstd::slice::slice_subrange(data, 24, 28));
    let esi = u32_from_le_bytes(vstd::slice::slice_subrange(data, 28, 32));
    let crc32 = u32_from_le_bytes(vstd::slice::slice_subrange(data, 32, 36));
    let name_len = data[36] as usize;
    let o: usize = FIXED_HEADER;
    if data.len() < o + name_len {
        return Err(PacketError::TruncatedFilename);
    }
    let name = vstd::slice::slice_subrange(data, o, o + name_len);
    let filename = utf8_lossy(name);
    let symbol = vstd::slice::slice_to_vec(vstd::slice::slice_subrange(data, o + name_len, data.len()));
    Ok((PacketMeta { file_id, total_len, symbol_size, k, esi, crc32, filename }, symbol))
}

/// Packet round trip: whatever `encode_packet` frames, `decode_packet` reads back
/// unchanged, header fields, filename and symbol alike.
pub proof fn law_packet_roundtrip(m: PacketMetaView, symbol: Seq<u8>)
    requires
        encode_result(m, symbol) is Ok,
    ensures
        decode_result(packet_bytes(m, symbol)) == Ok::<(PacketMetaView, Seq<u8>), PacketError>((m, symbol)),
{
    let p = packet_bytes(m, symbol);
    let nb = name_bytes(m);
    vstd::bytes::lemma_auto_spec_u64_to_from_le_bytes();
    vstd::bytes::lemma_auto_spec_u32_to_from_le_bytes();
    vstd::bytes::lemma_auto_spec_u16_to_from_le_bytes();
    let h = header_bytes(m);
    assert(h.len() == 36);
    assert(p.subrange(0, 4) =~= magic());
    assert(p.subrange(6, 14) =~= spec_u64_to_le_bytes(m.file_id));
    assert(p.subrange(14, 22) =~= spec_u64_to_le_bytes(m.total_len));
    assert(p.subrange(22, 24) =~= spec_u16_to_le_bytes(m.symbol_size));
    assert(p.subrange(24, 28) =~= spec_u32_to_le_bytes(m.k));
    assert(p.subrange(28, 32) =~= spec_u32_to_le_bytes(m.esi));
    assert(p.subrange(32, 36) =~= spec_u32_to_le_bytes(m.crc32));
    assert(p[36] == nb.len() as u8);
    assert(p[36] == nb.len());
    assert(p.subrange(37, 37 + nb.len() as int) =~= nb);
    assert(p.subrange(37 + nb.len() as int, p.len() as int) =~= symbol);
    vstd::utf8::encode_utf8_valid_utf8(m.filename);
    vstd::utf8::encode_utf8_decode_utf8(m.filename);
    assert(lossy_text(nb) == m.filename);
    let (mv, sv) = decode_result(p)->Ok_0;
    assert(mv == m);
}

} // verus!

verus! {

/// `/` or `\`.
pub open spec fn is_path_separator(c: char) -> bool {
    c == '/' || c == '\\'
}

/// The part of `s` after its last `/` or `\`.
pub open spec fn last_segment(s: Seq<char>) -> Seq<char>
    decreases s.len(),
{
    if s.len() == 0 {
        s
    } else if is_path_separator(s.last()) {
        Seq::empty()
    } else {
        last_segment(s.drop_last()).push(s.last())
    }
}

/// The longest prefix of `s` whose UTF-8 encoding fits in `budget` bytes.
pub open spec fn fit_prefix(s: Seq<char>, budget: nat) -> Seq<char>
    decreases s.len(),
{
    if s.len() == 0 || char_utf8_len(s[0]) > budget {
        Seq::empty()
    } else {
        seq![s[0]] + fit_prefix(s.drop_first(), (budget - char_utf8_len(s[0])) as nat)
    }
}

/// The name used when nothing usable is left: `file.bin`.
pub open spec fn default_filename() -> Seq<char> {
    seq!['f', 'i', 'l', 'e', '.', 'b', 'i', 'n']
}

/// The filename a sender announces for `name`: its base name, trimmed, cut to at most
/// [`MAX_FILENAME_BYTES`] UTF-8 bytes at a character boundary; `file.bin` when that is empty.
pub open spec fn sanitized_name(name: Seq<char>) -> Seq<char> {
    let base = trim(last_segment(name));
    let out = fit_prefix(base, MAX_FILENAME_BYTES as nat);
    if out.len() == 0 {
        default_filename()
    } else {
        out
    }
}

proof fn lemma_last_segment_at(s: Seq<char>, a: int)
    requires
        0 <= a <= s.len(),
        forall|i: int| a <= i < s.len() ==> !is_path_separator(#[trigger] s[i]),
        a > 0 ==> is_path_separator(s[a - 1]),
    ensures
        last_segment(s) == s.subrange(a, s.len() as int),
    decreases s.len(),
{
    if s.len() == 0 {
        assert(s.subrange(a, s.len() as int) =~= s);
    } else if a == s.len() {
        assert(is_path_separator(s.last()));
        assert(s.subrange(a, s.len() as int) =~= Seq::<char>::empty());
    } else {
        let t = s.drop_last();
        assert(!is_path_separator(s.last()));
        assert forall|i: int| a <= i < t.len() implies !is_path_separator(#[trigger] t[i]) by {
            assert(t[i] == s[i]);
        }
        if a > 0 {
            assert(t[a - 1] == s[a - 1]);
        }
        lemma_last_segment_at(t, a);
        assert(t.subrange(a, t.len() as int).push(s.last()) =~= s.subrange(a, s.len() as int));
    }
}

proof fn lemma_fit_prefix_step(s: Seq<char>, i: int, budget: nat)
    requires
        0 <= i < s.len(),
        char_utf8_len(s[i]) <= budget,
    ensures
        fit_prefix(s.skip(i), budget) == seq![s[i]] + fit_prefix(s.skip(i + 1), (budget - char_utf8_len(s[i])) as nat),
{
    assert(s.skip(i)[0] == s[i]);
    assert(s.skip(i).drop_first() =~= s.skip(i + 1));
}

/// Fitting to a budget stays within it, and keeps a first character that fits.
pub proof fn lemma_fit_prefix_size(s: Seq<char>, budget: nat)
    ensures
        utf8_size(fit_prefix(s, budget)) <= budget,
        s.len() > 0 && char_utf8_len(s[0]) <= budget ==> fit_prefix(s, budget).len() > 0,
        forall|i: int| 0 <= i < fit_prefix(s, budget).len() ==> #[trigger] fit_prefix(s, budget)[i] == s[i],
        fit_prefix(s, budget).len() <= s.len(),
    decreases s.len(),
{
    let f = fit_prefix(s, budget);
    if s.len() == 0 || char_utf8_len(s[0]) > budget {
        assert(vstd::utf8::encode_utf8(Seq::<char>::empty()) =~= Seq::<u8>::empty());
    } else {
        let b2 = (budget - char_utf8_len(s[0])) as nat;
        let rest = fit_prefix(s.drop_first(), b2);
        lemma_fit_prefix_size(s.drop_first(), b2);
        crate::text::lemma_encode_utf8_concat(seq![s[0]], rest);
        crate::text::lemma_utf8_size_push(Seq::<char>::empty(), s[0]);
        assert(Seq::<char>::empty().push(s[0]) =~= seq![s[0]]);
        assert(vstd::utf8::encode_utf8(Seq::<char>::empty()) =~= Seq::<u8>::empty());
        assert forall|i: int| 0 <= i < f.len() implies #[trigger] f[i] == s[i] by {
            if i > 0 {
                assert(f[i] == rest[i - 1]);
                assert(rest[i - 1] == s.drop_first()[i - 1]);
            }
        }
    }
}

/// Base name only, trimmed, at most [`MAX_FILENAME_BYTES`] UTF-8 bytes; `file.bin` when
/// nothing is left.
pub fn sanitize_filename(name: &str) -> (r: String)
    ensures
        r@ == sanitized_name(name@),
{
    let cs = chars_of(name);
    let n = cs.len();
    let mut a: usize = n;
    while a > 0 && !(cs[a - 1] == '/' || cs[a - 1] == '\\')
        invariant
            a <= n,
            n == cs@.len(),
            forall|i: int| a <= i < n ==> !is_path_separator(#[trigger] cs@[i]),
        decreases a,
    {
        a = a - 1;
    }
    proof {
        lemma_last_segment_at(cs@, a as int);
    }
    let mut seg: Vec<char> = Vec::new();
    let mut i: usize = a;
    while i < n
        invariant
            a <= i <= n,
            n == cs@.len(),
            seg@ == cs@.subrange(a as int, i as int),
        decreases n - i,
    {
        seg.push(cs[i]);
        proof {
            assert(seg@ =~= cs@.subrange(a as int, i + 1));
        }
        i = i + 1;
    }
    let base = trim_chars(&seg);
    let ghost bv = base@;
    proof {
        assert(bv == trim(last_segment(name@)));
    }
    let mut out: Vec<char> = Vec::new();
    let mut used: usize = 0;
    let mut j: usize = 0;
    proof {
        assert(bv.skip(0) =~= bv);
        assert(out@ =~= bv.take(0));
        assert(vstd::utf8::encode_utf8(Seq::<char>::empty()) =~= Seq::<u8>::empty());
        assert(bv.skip(bv.len() as int) =~= Seq::<char>::empty());
        assert forall|t: Seq<char>| #[trigger] (t + Seq::<char>::empty()) == t by {
            assert(t + Seq::<char>::empty() =~= t);
        }
    }
    while j < base.len()
        invariant
            j <= bv.len(),
            bv == base@,
            out@ == bv.take(j as int),
            used == utf8_size(out@),
            used <= MAX_FILENAME_BYTES,
            fit_prefix(bv, MAX_FILENAME_BYTES as nat) == out@ + fit_prefix(bv.skip(j as int), (MAX_FILENAME_BYTES - used) as nat),
            forall|b: nat| #[trigger] fit_prefix(bv.skip(bv.len() as int), b) == Seq::<char>::empty(),
            forall|t: Seq<char>| #[trigger] (t + Seq::<char>::empty()) == t,
        ensures
            out@ == fit_prefix(bv, MAX_FILENAME_BYTES as nat),
        decreases bv.len() - j,
    {
        let ch = base[j];
        let l = utf8_len(ch);
        if used + l > MAX_FILENAME_BYTES {
            proof {
                assert(bv.skip(j as int)[0] == ch);
                assert(fit_prefix(bv.skip(j as int), (MAX_FILENAME_BYTES - used) as nat) =~= Seq::<char>::empty());
                assert(out@ + Seq::<char>::empty() =~= out@);
            }
            break;
        }
        proof {
            lemma_fit_prefix_step(bv, j as int, (MAX_FILENAME_BYTES - used) as nat);
            lemma_utf8_size_push(out@, ch);
            assert(bv.take(j + 1) =~= out@.push(ch));
            assert(out@ + (seq![ch] + fit_prefix(bv.skip(j + 1), (MAX_FILENAME_BYTES - used - l) as nat))
                =~= out@.push(ch) + fit_prefix(bv.skip(j + 1), (MAX_FILENAME_BYTES - used - l) as nat));
        }
        out.push(ch);
        used = used + l;
        j = j + 1;
    }
    if out.len() == 0 {
        let r = String::from_str("file.bin");
        proof {
            reveal_strlit("file.bin");
            assert(r@ =~= default_filename());
        }
        r
    } else {
        string_from_chars(&out)
    }
}

/// A sanitised filename is a non-empty base name (no `/` or `\`) of at most
/// [`MAX_FILENAME_BYTES`] UTF-8 bytes.
pub proof fn law_sanitized_name(name: Seq<char>)
    ensures
        sanitized_name(name).len() > 0,
        utf8_size(sanitized_name(name)) <= MAX_FILENAME_BYTES,
        forall|i: int| 0 <= i < sanitized_name(name).len() ==> !is_path_separator(#[trigger] sanitized_name(name)[i]),
{
    let seg = last_segment(name);
    lemma_last_segment_no_separator(name);
    let base = trim(seg);
    lemma_trim_keeps(seg);
    lemma_fit_prefix_size(base, MAX_FILENAME_BYTES as nat);
    let out = fit_prefix(base, MAX_FILENAME_BYTES as nat);
    if out.len() == 0 {
        let d = default_filename();
        assert(vstd::utf8::is_ascii_chars(d)) by {
            assert forall|i: int| 0 <= i < d.len() implies '\0' <= #[trigger] d[i] <= '\u{7f}' by {}
        }
        vstd::utf8::is_ascii_chars_encode_utf8(d);
    } else {
        assert forall|i: int| 0 <= i < out.len() implies !is_path_separator(#[trigger] out[i]) by {
            assert(out[i] == base[i]);
        }
    }
}

proof fn lemma_last_segment_no_separator(s: Seq<char>)
    ensures
        forall|i: int| 0 <= i < last_segment(s).len() ==> !is_path_separator(#[trigger] last_segment(s)[i]),
    decreases s.len(),
{
    if s.len() > 0 && !is_path_separator(s.last()) {
        lemma_last_segment_no_separator(s.drop_last());
        let r = last_segment(s.drop_last());
        assert forall|i: int| 0 <= i < last_segment(s).len() implies !is_path_separator(#[trigger] last_segment(s)[i]) by {
            if i < r.len() {
                assert(last_segment(s)[i] == r[i]);
            }
        }
    }
}

/// Trimming keeps only characters of the input (a contiguous part of it).
proof fn lemma_trim_keeps(s: Seq<char>)
    ensures
        forall|i: int| 0 <= i < trim(s).len() ==> exists|j: int| 0 <= j < s.len() && #[trigger] trim(s)[i] == s[j],
{
    lemma_trim_start_keeps(s);
    lemma_trim_end_keeps(crate::text::trim_start(s));
    assert forall|i: int| 0 <= i < trim(s).len() implies exists|j: int| 0 <= j < s.len() && #[trigger] trim(s)[i] == s[j] by {
        let ts = crate::text::trim_start(s);
        let j1 = choose|j: int| 0 <= j < ts.len() && trim(s)[i] == ts[j];
        let j2 = choose|j: int| 0 <= j < s.len() && ts[j1] == s[j];
    }
}

proof fn lemma_trim_start_keeps(s: Seq<char>)
    ensures
        forall|i: int| 0 <= i < crate::text::trim_start(s).len() ==> exists|j: int| 0 <= j < s.len() && #[trigger] crate::text::trim_start(s)[i] == s[j],
    decreases s.len(),
{
    if s.len() > 0 && is_unicode_whitespace(s[0]) {
        lemma_trim_start_keeps(s.drop_first());
        assert forall|i: int| 0 <= i < crate::text::trim_start(s).len() implies exists|j: int| 0 <= j < s.len() && #[trigger] crate::text::trim_start(s)[i] == s[j] by {
            let j = choose|j: int| 0 <= j < s.drop_first().len() && crate::text::trim_start(s.drop_first())[i] == s.drop_first()[j];
            assert(s[j + 1] == s.drop_first()[j]);
        }
    } else {
        assert forall|i: int| 0 <= i < crate::text::trim_start(s).len() implies exists|j: int| 0 <= j < s.len() && #[trigger] crate::text::trim_start(s)[i] == s[j] by {
            assert(crate::text::trim_start(s)[i] == s[i]);
        }
    }
}

proof fn lemma_trim_end_keeps(s: Seq<char>)
    ensures
        forall|i: int| 0 <= i < crate::text::trim_end(s).len() ==> exists|j: int| 0 <= j < s.len() && #[trigger] crate::text::trim_end(s)[i] == s[j],
    decreases s.len(),
{
    if s.len() > 0 && is_unicode_whitespace(s.last()) {
        lemma_trim_end_keeps(s.drop_last());
        assert forall|i: int| 0 <= i < crate::text::trim_end(s).len() implies exists|j: int| 0 <= j < s.len() && #[trigger] crate::text::trim_end(s)[i] == s[j] by {
            let j = choose|j: int| 0 <= j < s.drop_last().len() && crate::text::trim_end(s.drop_last())[i] == s.drop_last()[j];
            assert(s[j] == s.drop_last()[j]);
        }
    } else {
        assert forall|i: int| 0 <= i < crate::text::trim_end(s).len() implies exists|j: int| 0 <= j < s.len() && #[trigger] crate::text::trim_end(s)[i] == s[j] by {
            assert(crate::text::trim_end(s)[i] == s[i]);
        }
    }
}

} // verus!

verus! {

/// The lean (nameless) packet of a symbol sized by [`choose_symbol_size`] always
/// encodes, within [`CAMERA_PACKET_CAP`] bytes.
pub proof fn law_lean_packet_fits(m: PacketMetaView, symbol: Seq<u8>, file_len: nat)
    requires
        m.filename.len() == 0,
        symbol.len() == choose_symbol_size_spec(file_len),
    ensures
        encode_result(m, symbol) is Ok,
        encode_result(m, symbol)->Ok_0.len() <= CAMERA_PACKET_CAP,
{
    assert(name_bytes(m) =~= Seq::<u8>::empty());
    vstd::bytes::lemma_auto_spec_u64_to_from_le_bytes();
    vstd::bytes::lemma_auto_spec_u32_to_from_le_bytes();
    vstd::bytes::lemma_auto_spec_u16_to_from_le_bytes();
    assert(header_bytes(m).len() == 36);
}

/// Normalising a typed code works character by character.
pub proof fn lemma_normalize_concat(a: Seq<char>, b: Seq<char>)
    ensures
        normalize_pair(a + b) == normalize_pair(a) + normalize_pair(b),
    decreases b.len(),
{
    if b.len() == 0 {
        assert(a + b =~= a);
        assert(normalize_pair(a) + normalize_pair(b) =~= normalize_pair(a));
    } else {
        assert((a + b).drop_last() =~= a + b.drop_last());
        assert((a + b).last() == b.last());
        lemma_normalize_concat(a, b.drop_last());
        let c = b.last();
        if !(is_unicode_whitespace(c) || c == '-') {
            assert((normalize_pair(a) + normalize_pair(b.drop_last())).push(pair_char(c)) =~= normalize_pair(a) + normalize_pair(b.drop_last()).push(pair_char(c)));
        }
    }
}

/// Whitespace and dashes typed anywhere in a pair code are ignored.
pub proof fn law_pair_separators_ignored(a: Seq<char>, b: Seq<char>, c: char)
    requires
        is_unicode_whitespace(c) || c == '-',
    ensures
        normalize_pair(a + seq![c] + b) == normalize_pair(a + b),
{
    lemma_normalize_concat(a + seq![c], b);
    lemma_normalize_concat(a, seq![c]);
    lemma_normalize_concat(a, b);
    assert(seq![c].drop_last() =~= Seq::<char>::empty());
    assert(seq![c].last() == c);
    assert(normalize_pair(Seq::<char>::empty()) =~= Seq::<char>::empty());
    assert(normalize_pair(seq![c]) =~= Seq::<char>::empty());
    assert(normalize_pair(a) + Seq::<char>::empty() =~= normalize_pair(a));
}

/// A pair code typed as shown is accepted for its own file.
pub proof fn law_pair_code_self_match(file_id: u64)
    ensures
        normalize_pair(pair_code_chars(file_id)) == pair_code_chars(file_id),
{
    let p = pair_code_chars(file_id);
    assert forall|j: int| 0 <= j < 5 implies {
        &&& !is_unicode_whitespace(#[trigger] p[j])
        &&& p[j] != '-'
        &&& pair_char(p[j]) == p[j]
    } by {
        let sh: u64 = (5 * (4 - j)) as u64;
        let g = (file_id >> sh) & 31u64;
        assert(g < 32) by (bit_vector)
            requires g == (file_id >> sh) & 31u64;
        assert(p[j] == (pair_alphabet()[g as int]) as char);
    }
    lemma_normalize_identity(p);
}

proof fn lemma_normalize_identity(s: Seq<char>)
    requires
        forall|j: int| 0 <= j < s.len() ==> {
            &&& !is_unicode_whitespace(#[trigger] s[j])
            &&& s[j] != '-'
            &&& pair_char(s[j]) == s[j]
        },
    ensures
        normalize_pair(s) == s,
    decreases s.len(),
{
    if s.len() > 0 {
        let t = s.drop_last();
        assert forall|j: int| 0 <= j < t.len() implies {
            &&& !is_unicode_whitespace(#[trigger] t[j])
            &&& t[j] != '-'
            &&& pair_char(t[j]) == t[j]
        } by {
            assert(t[j] == s[j]);
        }
        lemma_normalize_identity(t);
        assert(s.last() == s[s.len() - 1]);
        assert(t.push(s.last()) =~= s);
    }
}

} // verus!

verus! {

/// A packet that `encode_packet` builds is `FIXED_HEADER + name + symbol` bytes long,
/// within [`QR_CAPACITY`].
pub proof fn lemma_packet_len(m: PacketMetaView, symbol: Seq<u8>)
    ensures
        encode_result(m, symbol) matches Ok(p) ==> p.len() == FIXED_HEADER + name_bytes(m).len()
            + symbol.len() && p.len() <= QR_CAPACITY,
{
    vstd::bytes::lemma_auto_spec_u64_to_from_le_bytes();
    vstd::bytes::lemma_auto_spec_u32_to_from_le_bytes();
    vstd::bytes::lemma_auto_spec_u16_to_from_le_bytes();
    assert(header_bytes(m).len() == 36);
}

} // verus!
