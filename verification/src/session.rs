//! Sender and receiver sessions: the decisions of the transfer, with the
//! camera, the display and the degree distribution left to the caller.
//!
//! A frame's degree comes from the robust soliton distribution, which is
//! computed in floating point by the caller (see [`crate::lt::neighbor_rng`]);
//! the sessions take it as an argument wherever a symbol is encoded or decoded.

use vstd::prelude::*;
use crate::lt::{Decoder, DecoderState, Encoder, neighbor_list, unresolved, symbol_count, source_symbols, effective_symbol_size, uniform_symbols};
use crate::packet::{
    CAMERA_PACKET_CAP, PacketError, PacketMeta, packet_error_message, PacketMetaView, QR_CAPACITY, choose_symbol_size,
    choose_symbol_size_spec, crc32, crc32_of, decode_packet, decode_result, encode_packet,
    encode_result, normalize_pair, normalize_pair_code, pair_code, pair_code_chars,
    pair_code_matches, sanitize_filename, sanitized_name,
};
use crate::qr::{QrEncodeError, can_encode, encode_matrix, pack_bits, resilient_encoding};
use crate::text::{chars_of, hex_digits, hex_text, parse_hex, parse_hex_u64, trim, trim_chars};

verus! {

/// `getrandom::getrandom(dest)`, reporting success. Claims only that `dest` keeps its
/// length: its bytes are random (or unspecified when the call fails).
#[verifier::external_body]
fn fill_random(dest: &mut [u8]) -> (ok: bool)
    ensures
        final(dest)@.len() == old(dest)@.len(),
{
    getrandom::getrandom(dest).is_ok()
}

/// A random 64-bit file id (the little-endian reading of 8 random bytes; zero bytes
/// stay where the system source fails).
pub fn random_file_id() -> u64 {
    let mut bytes: Vec<u8> = vec![0u8; 8];
    let _ = fill_random(bytes.as_mut_slice());
    vstd::bytes::u64_from_le_bytes(bytes.as_slice())
}

/// The lean (nameless) probe packet header used to size symbols.
pub open spec fn probe_meta(file_len: nat, sym: nat) -> PacketMetaView {
    PacketMetaView {
        file_id: 0,
        total_len: file_len as u64,
        symbol_size: sym as u16,
        k: 1,
        esi: 0,
        crc32: 0,
        filename: Seq::empty(),
    }
}

/// A lean packet with a `sym`-byte symbol fits the camera profile and a QR code.
pub open spec fn probe_fits(file_len: nat, sym: nat) -> bool {
    match encode_result(probe_meta(file_len, sym), Seq::new(sym, |i: int| 0u8)) {
        Ok(p) => p.len() <= CAMERA_PACKET_CAP && resilient_encoding(p) is Some,
        Err(_) => false,
    }
}

/// The symbol size kept after probing down from `sym` by factors of 3/4.
pub open spec fn fitted_symbol_size(file_len: nat, sym: nat) -> nat
    decreases sym,
{
    if sym == 0 {
        1
    } else if probe_fits(file_len, sym) {
        sym
    } else if sym == 1 {
        1
    } else {
        let next = sym * 3 / 4;
        fitted_symbol_size(file_len, if next < 1 { 1 } else { next })
    }
}

/// Shrinks the chosen symbol size until a lean packet fits the camera cap and a QR code.
pub fn fit_symbol_size(filename: &str, file_len: usize) -> (r: u16)
    ensures
        r == fitted_symbol_size(file_len as nat, choose_symbol_size_spec(file_len as nat)),
        1 <= r <= 400,
{
    let mut sym = choose_symbol_size(filename, file_len) as usize;
    while sym >= 1
        invariant
            sym <= 400,
            fitted_symbol_size(file_len as nat, choose_symbol_size_spec(file_len as nat))
                == fitted_symbol_size(file_len as nat, sym as nat),
        ensures
            fitted_symbol_size(file_len as nat, choose_symbol_size_spec(file_len as nat)) == 1,
        decreases sym,
    {
        let meta = PacketMeta {
            file_id: 0,
            total_len: file_len as u64,
            symbol_size: sym as u16,
            k: 1,
            esi: 0,
            crc32: 0,
            filename: String::new(),
        };
        let dummy: Vec<u8> = vec![0u8; sym];
        proof {
            assert(meta@ == probe_meta(file_len as nat, sym as nat));
            assert(dummy@ =~= Seq::new(sym as nat, |i: int| 0u8));
        }
        let enc = encode_packet(&meta, dummy.as_slice());
        if let Ok(packet) = enc {
            if packet.len() <= CAMERA_PACKET_CAP && can_encode(packet.as_slice()) {
                return sym as u16;
            }
        }
        if sym == 1 {
            proof {
                assert(fitted_symbol_size(file_len as nat, 1) == 1);
            }
            break;
        }
        let next = sym * 3 / 4;
        sym = if next < 1 { 1 } else { next };
    }
    1
}

/// Whether a file of `file_len` bytes is cut into at most `u32::MAX` symbols at the
/// symbol size a session fits for it (what [`TxSession::new`] needs).
pub fn symbol_count_fits(file_len: usize) -> (r: bool)
    ensures
        r == (symbol_count(file_len as nat, fitted_symbol_size(file_len as nat, choose_symbol_size_spec(file_len as nat))) <= u32::MAX),
{
    let sym = fit_symbol_size("", file_len) as usize;
    if file_len == 0 {
        return true;
    }
    let q = (file_len - 1) / sym;
    (q as u64) < (u32::MAX as u64)
}

/// Abstract state of a [`TxSession`].
pub ghost struct TxState {
    pub encoder: crate::lt::EncoderState,
    pub filename: Seq<char>,
    pub total_len: u64,
    pub crc: u32,
    pub frames: u64,
    pub pair: Seq<char>,
    pub dwell_ms: u32,
}

/// One QR frame ready for display.
pub struct Frame {
    /// Modules per side.
    pub size: u32,
    /// Modules packed eight per byte, row-major, most significant bit first.
    pub modules: Vec<u8>,
    pub esi: u32,
    pub packet_len: u32,
    pub pair_code: String,
}

/// Why a frame could not be produced.
#[derive(Debug, Clone, Copy, PartialEq, Eq, Structural)]
pub enum FrameError {
    Packet(PacketError),
    Qr(QrEncodeError),
}

/// Outcome of one attempt at producing a frame.
pub enum FrameStep {
    /// The frame to show.
    Emit(Frame),
    /// Nothing to show; try again with the next symbol.
    Retry,
    /// Give up.
    Fail(FrameError),
}

/// Transmitter session: chunks a file and streams fountain-encoded QR matrices.
pub struct TxSession {
    encoder: Encoder,
    filename: String,
    total_len: u64,
    crc: u32,
    frames: u64,
    pair: String,
    /// Milliseconds each QR is held on screen (set by the caller; default 160).
    dwell_ms: u32,
}

impl View for TxSession {
    type V = TxState;

    closed spec fn view(&self) -> TxState {
        TxState {
            encoder: self.encoder@,
            filename: self.filename@,
            total_len: self.total_len,
            crc: self.crc,
            frames: self.frames,
            pair: self.pair@,
            dwell_ms: self.dwell_ms,
        }
    }
}

/// Default time each frame stays on screen.
pub const DEFAULT_DWELL_MS: u32 = 160;

/// Whether symbol `esi` carries the filename: the first six do, then every eighth.
pub open spec fn includes_name(esi: u32) -> bool {
    esi < 6 || esi % 8 == 0
}

/// The header of symbol `esi` of a session.
pub open spec fn frame_meta(st: TxState, esi: u32, name: Seq<char>) -> PacketMetaView {
    PacketMetaView {
        file_id: st.encoder.file_id,
        total_len: st.total_len,
        symbol_size: st.encoder.symbol_size as u16,
        k: st.encoder.k,
        esi: esi,
        crc32: st.crc,
        filename: name,
    }
}

/// The packet carrying `symbol` as symbol `esi`: named when the schedule says so and
/// it fits the camera cap, lean otherwise.
pub open spec fn frame_packet(st: TxState, esi: u32, symbol: Seq<u8>) -> Result<Seq<u8>, PacketError> {
    let named = encode_result(frame_meta(st, esi, if includes_name(esi) { st.filename } else { Seq::empty() }), symbol);
    if includes_name(esi) {
        match named {
            Ok(p) => if p.len() <= CAMERA_PACKET_CAP {
                named
            } else {
                encode_result(frame_meta(st, esi, Seq::empty()), symbol)
            },
            Err(_) => encode_result(frame_meta(st, esi, Seq::empty()), symbol),
        }
    } else {
        named
    }
}

/// Every frame's packet builds and stays within [`CAMERA_PACKET_CAP`] bytes when the
/// symbol is at most [`crate::packet::CAMERA_SYMBOL_CAP`] bytes: a named packet is kept
/// only within the cap, and the lean one always fits.
pub proof fn lemma_frame_packet_fits(st: TxState, esi: u32, symbol: Seq<u8>)
    requires
        symbol.len() <= 400,
    ensures
        frame_packet(st, esi, symbol) is Ok,
        frame_packet(st, esi, symbol)->Ok_0.len() <= CAMERA_PACKET_CAP,
{
    let lean = frame_meta(st, esi, Seq::empty());
    assert(crate::packet::name_bytes(lean) =~= Seq::<u8>::empty()) by {
        assert(vstd::utf8::encode_utf8(Seq::<char>::empty()) =~= Seq::<u8>::empty());
    }
    crate::packet::lemma_packet_len(lean, symbol);
    assert(encode_result(lean, symbol) is Ok);
}

impl TxSession {
    /// The encoder is well formed and its symbols fit a lean packet.
    pub open spec fn wf(&self) -> bool {
        &&& uniform_symbols(self@.encoder.symbols, self@.encoder.k as nat, self@.encoder.symbol_size)
        &&& self@.encoder.symbol_size <= 400
    }

    /// A session for `data` named `filename`: the name is sanitised, the symbol size
    /// fitted, and a random file id drawn.
    pub fn new(data: &[u8], filename: &str) -> (r: TxSession)
        requires
            symbol_count(data@.len(), fitted_symbol_size(data@.len(), choose_symbol_size_spec(data@.len()))) <= u32::MAX,
        ensures
            r.wf(),
            r@.filename == sanitized_name(filename@),
            r@.encoder.symbol_size == fitted_symbol_size(data@.len(), choose_symbol_size_spec(data@.len())),
            r@.encoder.symbols == source_symbols(data@, r@.encoder.symbol_size),
            r@.encoder.k == symbol_count(data@.len(), r@.encoder.symbol_size),
            r@.encoder.next_esi == 0,
            r@.total_len == data@.len(),
            r@.crc == crc32_of(data@),
            r@.frames == 0,
            r@.pair == pair_code_chars(r@.encoder.file_id),
            r@.dwell_ms == DEFAULT_DWELL_MS,
    {
        let filename = sanitize_filename(filename);
        let symbol_size = fit_symbol_size(filename.as_str(), data.len()) as usize;
        let file_id = random_file_id();
        proof {
            assert(effective_symbol_size(symbol_size) == symbol_size as nat);
        }
        let encoder = Encoder::new(file_id, data, symbol_size);
        let crc = crc32(data);
        let pair = pair_code(file_id);
        TxSession {
            encoder,
            filename,
            total_len: data.len() as u64,
            crc,
            frames: 0,
            pair,
            dwell_ms: DEFAULT_DWELL_MS,
        }
    }

    /// Sets the display time per frame, clamped into `40..=2000` ms.
    pub fn set_dwell_ms(&mut self, ms: u32)
        ensures
            final(self)@ == (TxState { dwell_ms: if ms < 40 { 40 } else if ms > 2000 { 2000 } else { ms }, ..old(self)@ }),
            old(self).wf() ==> final(self).wf(),
    {
        self.dwell_ms = if ms < 40 { 40 } else if ms > 2000 { 2000 } else { ms };
    }

    /// Milliseconds each frame stays on screen.
    pub fn dwell_ms(&self) -> (r: u32)
        ensures
            r == self@.dwell_ms,
    {
        self.dwell_ms
    }

    /// Number of source symbols.
    pub fn k(&self) -> (r: u32)
        ensures
            r == self@.encoder.k,
    {
        self.encoder.k()
    }

    /// Bytes per symbol.
    pub fn symbol_size(&self) -> (r: u32)
        requires
            self.wf(),
        ensures
            r == self@.encoder.symbol_size,
    {
        self.encoder.symbol_size() as u32
    }

    /// The file id as 16 lower-case hex digits.
    pub fn file_id(&self) -> (r: String)
        ensures
            r@ == hex_text(self@.encoder.file_id, 16),
    {
        hex_digits(self.encoder.file_id(), 16)
    }

    /// Id of the symbol the next frame attempt encodes (its degree is needed for it).
    pub fn next_esi(&self) -> (r: u32)
        ensures
            r == self@.encoder.next_esi,
    {
        self.encoder.next_esi()
    }

    /// The raw file id.
    pub fn file_id_value(&self) -> (r: u64)
        ensures
            r == self@.encoder.file_id,
    {
        self.encoder.file_id()
    }

    /// The pair code a receiver types to lock onto this file.
    pub fn pair_code(&self) -> (r: String)
        ensures
            r@ == self@.pair,
    {
        self.pair.clone()
    }

    /// Number of frames produced so far.
    pub fn frames_emitted(&self) -> (r: u64)
        ensures
            r == self@.frames,
    {
        self.frames
    }

    /// The largest QR payload in bytes.
    pub fn qr_capacity(&self) -> (r: u32)
        ensures
            r == QR_CAPACITY,
    {
        QR_CAPACITY as u32
    }

    /// The sanitised filename announced in named frames.
    pub fn filename(&self) -> (r: String)
        ensures
            r@ == self@.filename,
    {
        self.filename.clone()
    }

    /// The packet for symbol `esi` carrying `symbol`, as [`frame_packet`] says.
    fn frame_packet(&self, esi: u32, symbol: &Vec<u8>) -> (r: Result<Vec<u8>, PacketError>)
        requires
            self.wf(),
        ensures
            match (r, frame_packet(self@, esi, symbol@)) {
                (Ok(v), Ok(w)) => v@ == w && w.len() <= QR_CAPACITY,
                (Err(e), Err(f)) => e == f,
                _ => false,
            },
    {
        let ghost st = self@;
        let include_name = esi < 6 || esi % 8 == 0;
        let name = if include_name { self.filename.clone() } else { String::new() };
        let file_id = self.encoder.file_id();
        let symbol_size = self.encoder.symbol_size() as u16;
        let k = self.encoder.k();
        let meta = PacketMeta {
            file_id,
            total_len: self.total_len,
            symbol_size,
            k,
            esi,
            crc32: self.crc,
            filename: name,
        };
        proof {
            assert(meta@ == frame_meta(st, esi, if includes_name(esi) { st.filename } else { Seq::empty() }));
        }
        let first = encode_packet(&meta, symbol.as_slice());
        proof {
            crate::packet::lemma_packet_len(meta@, symbol@);
            crate::packet::lemma_packet_len(frame_meta(st, esi, Seq::empty()), symbol@);
        }
        if include_name {
            let ok_named = match &first {
                Ok(p) => p.len() <= CAMERA_PACKET_CAP,
                Err(_) => false,
            };
            if ok_named {
                first
            } else {
                let lean = PacketMeta {
                    file_id,
                    total_len: self.total_len,
                    symbol_size,
                    k,
                    esi,
                    crc32: self.crc,
                    filename: String::new(),
                };
                proof {
                    assert(lean@ == frame_meta(st, esi, Seq::empty()));
                }
                encode_packet(&lean, symbol.as_slice())
            }
        } else {
            first
        }
    }

    /// One attempt at the next frame: encodes symbol `next_esi` (whose drawn degree is
    /// `degree`) and frames it; `attempts` counts the attempts made for this frame so
    /// far, this one included. A packet that cannot be built is retried while fewer
    /// than 4 attempts were made, a QR code that cannot be built while fewer than 8.
    pub fn next_frame(&mut self, degree: u32, attempts: u32) -> (r: FrameStep)
        requires
            old(self).wf(),
        ensures
            final(self).wf(),
            r matches FrameStep::Emit(f) ==> f.packet_len <= CAMERA_PACKET_CAP
                && f.modules@.len() == (f.size * f.size + 7) / 8,
            !(r matches FrameStep::Fail(FrameError::Packet(_))),
            final(self)@.encoder == (crate::lt::EncoderState {
                next_esi: vstd::wrapping::u32_specs::wrapping_add(old(self)@.encoder.next_esi, 1),
                ..old(self)@.encoder
            }),
            final(self)@.filename == old(self)@.filename,
            final(self)@.total_len == old(self)@.total_len,
            final(self)@.crc == old(self)@.crc,
            final(self)@.pair == old(self)@.pair,
            final(self)@.dwell_ms == old(self)@.dwell_ms,
            ({
                let st = old(self)@;
                let esi = st.encoder.next_esi;
                match frame_packet(st, esi, frame_symbol(st, esi, degree)) {
                    Err(e) => {
                        &&& final(self)@.frames == st.frames
                        &&& attempts < 4 ==> r is Retry
                        &&& attempts >= 4 ==> (r matches FrameStep::Fail(fe) && fe == FrameError::Packet(e))
                    },
                    Ok(p) => match resilient_encoding(p) {
                        Some((w, m)) => {
                            &&& final(self)@.frames == vstd::wrapping::u64_specs::wrapping_add(st.frames, 1)
                            &&& r matches FrameStep::Emit(f) && f.size == w && f.modules@ == pack_bits(m)
                                && f.esi == esi && f.packet_len == p.len() && f.pair_code@ == st.pair
                        },
                        None => {
                            &&& final(self)@.frames == st.frames
                            &&& attempts < 8 ==> r is Retry
                            &&& attempts >= 8 ==> (r matches FrameStep::Fail(fe)
                                && fe matches FrameError::Qr(qe) && qe.payload_len == p.len())
                        },
                    },
                }
            }),
    {
        let ghost st = self@;
        let (esi, symbol) = self.encoder.encode_next(degree);
        proof {
            crate::xor::lemma_combine_len(
                st.encoder.symbols,
                neighbor_list(st.encoder.file_id, esi, st.encoder.k, degree),
                st.encoder.symbol_size,
            );
            lemma_frame_packet_fits(st, esi, symbol@);
        }
        proof {
            assert(self@ == (TxState { encoder: self@.encoder, ..st }));
        }
        let packet = match self.frame_packet(esi, &symbol) {
            Ok(p) => p,
            Err(e) => {
                return if attempts < 4 { FrameStep::Retry } else { FrameStep::Fail(FrameError::Packet(e)) };
            },
        };
        match encode_matrix(packet.as_slice()) {
            Ok((size, modules)) => {
                self.frames = self.frames.wrapping_add(1);
                FrameStep::Emit(
                    Frame {
                        size,
                        modules,
                        esi,
                        packet_len: packet.len() as u32,
                        pair_code: self.pair.clone(),
                    },
                )
            },
            Err(e) => {
                if attempts < 8 {
                    FrameStep::Retry
                } else {
                    FrameStep::Fail(FrameError::Qr(e))
                }
            },
        }
    }
}

} // verus!

verus! {

/// Why a received packet was not used.
#[derive(Debug, Clone, Copy, PartialEq, Eq, Structural)]
pub enum IngestError {
    /// The packet did not parse.
    Packet(PacketError),
    /// The packet belongs to another file than the one being received.
    FileIdMismatch,
}

/// What became of a camera frame or packet.
#[derive(Debug, Clone, Copy, PartialEq, Eq, Structural)]
pub enum IngestStatus {
    /// No QR code in the frame.
    NoCode,
    /// A symbol seen before.
    Dup,
    /// A symbol that brought nothing new.
    Red,
    /// A symbol that was stored.
    New,
    /// The file is complete.
    Complete,
    /// The packet belongs to another pair code.
    WrongPair,
    /// No pair code was entered yet.
    NeedPair,
    /// The packet was rejected.
    Error(IngestError),
}

impl IngestStatus {
    /// The status word: `none`, `dup`, `red`, `new`, `complete`, `wrong_pair`,
    /// `need_pair`, or `err:` followed by the reason.
    pub fn text(&self) -> (r: String)
        ensures
            *self == IngestStatus::NoCode ==> r@ == "none"@,
            *self == IngestStatus::Dup ==> r@ == "dup"@,
            *self == IngestStatus::Red ==> r@ == "red"@,
            *self == IngestStatus::New ==> r@ == "new"@,
            *self == IngestStatus::Complete ==> r@ == "complete"@,
            *self == IngestStatus::WrongPair ==> r@ == "wrong_pair"@,
            *self == IngestStatus::NeedPair ==> r@ == "need_pair"@,
            *self == IngestStatus::Error(IngestError::FileIdMismatch) ==> r@ == "err:file_id_mismatch"@,
            *self matches IngestStatus::Error(IngestError::Packet(e)) ==> r@ == "err:"@ + packet_error_message(e),
    {
        match self {
            IngestStatus::NoCode => String::from_str("none"),
            IngestStatus::Dup => String::from_str("dup"),
            IngestStatus::Red => String::from_str("red"),
            IngestStatus::New => String::from_str("new"),
            IngestStatus::Complete => String::from_str("complete"),
            IngestStatus::WrongPair => String::from_str("wrong_pair"),
            IngestStatus::NeedPair => String::from_str("need_pair"),
            IngestStatus::Error(IngestError::FileIdMismatch) => String::from_str("err:file_id_mismatch"),
            IngestStatus::Error(IngestError::Packet(e)) => {
                let m = e.message();
                String::from_str("err:").concat(m.as_str())
            },
        }
    }
}

/// Outcome of taking in a packet, before its symbol is decoded.
pub enum Accepted {
    /// Nothing more to do with this packet.
    Stop(IngestStatus),
    /// Decode `symbol` as symbol `esi` of the file `file_id` of `k` symbols: the
    /// caller draws the symbol's degree and calls [`RxSession::ingest_symbol`].
    Symbol { file_id: u64, k: u32, esi: u32, symbol: Vec<u8> },
}

/// The file handed out once complete.
pub struct ReceivedFile {
    pub filename: String,
    pub data: Vec<u8>,
    pub crc32: u32,
    pub pair_code: String,
}

/// Why the file cannot be handed out.
#[derive(Debug, Clone, Copy, PartialEq, Eq, Structural)]
pub enum TakeError {
    /// No packet of a file was taken in yet.
    NoSession,
    /// Source symbols are still missing.
    Incomplete,
    /// The assembled bytes do not have the announced checksum.
    CrcMismatch { got: u32, expected: u32 },
}

/// Abstract state of an [`RxSession`].
pub ghost struct RxState {
    pub decoder: Option<DecoderState>,
    pub filename: Seq<char>,
    pub expected_crc: u32,
    pub useful_bytes: u64,
    pub locked: bool,
    pub expected_pair: Seq<char>,
    pub seen_pair: Seq<char>,
}

/// The decoder a first accepted packet starts.
pub open spec fn fresh_decoder(m: PacketMetaView) -> DecoderState {
    DecoderState {
        file_id: m.file_id,
        k: m.k,
        symbol_size: m.symbol_size as nat,
        total_len: m.total_len,
        recovered: Seq::new(m.k as nat, |i: int| None::<Seq<u8>>),
        pending: Seq::empty(),
        seen: Set::empty(),
        new_count: 0,
        dup_count: 0,
        red_count: 0,
    }
}

/// The status reported after the decoder took in a symbol with answer `kind`.
pub open spec fn symbol_status(complete: bool, kind: u8) -> IngestStatus {
    if complete {
        IngestStatus::Complete
    } else if kind == 0 {
        IngestStatus::Dup
    } else if kind == 1 {
        IngestStatus::Red
    } else {
        IngestStatus::New
    }
}

/// What the reported status of a frame means: `Complete` exactly when the file is
/// complete after it; otherwise `Dup` exactly for a symbol id seen before, `Red` exactly
/// for a new symbol all of whose neighbours were already recovered, and `New` exactly
/// for a new symbol with a neighbour still unknown (one the decoder stores).
pub proof fn law_ingest_status(d0: DecoderState, d1: DecoderState, esi: u32, payload: Seq<u8>, degree: u32, kind: u8)
    requires
        d0.wf(),
        d1.wf(),
        d1.k == d0.k,
        d0.ingested(d1, esi, payload, degree, kind),
    ensures
        ({
            let r = symbol_status(d1.complete(), kind);
            let fresh = unresolved(neighbor_list(d0.file_id, esi, d0.k, degree), d0.recovered);
            &&& (r == IngestStatus::Complete) == d1.complete()
            &&& !d1.complete() ==> (r == IngestStatus::Dup <==> d0.seen.contains(esi))
            &&& !d1.complete() ==> (r == IngestStatus::Red <==> !d0.seen.contains(esi) && fresh.len() == 0)
            &&& !d1.complete() ==> (r == IngestStatus::New <==> !d0.seen.contains(esi) && fresh.len() > 0)
        }),
{
    reveal(DecoderState::ingested);
    crate::lt::law_progress_monotone(d0, d1, esi, payload, degree, kind);
    crate::lt::lemma_count_recovered(d0.recovered);
    crate::lt::lemma_count_recovered(d1.recovered);
}

/// Receiver session: accumulates fountain symbols until reconstruction.
pub struct RxSession {
    decoder: Option<Decoder>,
    filename: String,
    expected_crc: u32,
    useful_bytes: u64,
    locked: bool,
    expected_pair: String,
    seen_pair: String,
}

impl View for RxSession {
    type V = RxState;

    closed spec fn view(&self) -> RxState {
        RxState {
            decoder: match self.decoder {
                Some(d) => Some(d@),
                None => None,
            },
            filename: self.filename@,
            expected_crc: self.expected_crc,
            useful_bytes: self.useful_bytes,
            locked: self.locked,
            expected_pair: self.expected_pair@,
            seen_pair: self.seen_pair@,
        }
    }
}

impl RxSession {
    /// The decoder, when there is one, is well formed with a symbol size that fits a header.
    pub open spec fn wf(&self) -> bool {
        match self@.decoder {
            Some(d) => d.wf() && d.symbol_size <= u16::MAX,
            None => true,
        }
    }

    /// A receiver with no file and no pair code entered.
    pub fn new() -> (r: RxSession)
        ensures
            r.wf(),
            r@ == (RxState {
                decoder: None,
                filename: Seq::empty(),
                expected_crc: 0,
                useful_bytes: 0,
                locked: false,
                expected_pair: Seq::empty(),
                seen_pair: Seq::empty(),
            }),
    {
        RxSession {
            decoder: None,
            filename: String::new(),
            expected_crc: 0,
            useful_bytes: 0,
            locked: false,
            expected_pair: String::new(),
            seen_pair: String::new(),
        }
    }

    /// Sets the pair code shown by the sender; packets of other codes are ignored.
    pub fn set_expected_pair(&mut self, code: &str)
        ensures
            final(self)@ == (RxState { expected_pair: normalize_pair(code@), ..old(self)@ }),
            old(self).wf() ==> final(self).wf(),
    {
        self.expected_pair = normalize_pair_code(code);
    }

    /// The pair code entered, normalised.
    pub fn expected_pair(&self) -> (r: String)
        ensures
            r@ == self@.expected_pair,
    {
        self.expected_pair.clone()
    }

    /// The pair code of the last packet seen.
    pub fn pair_code(&self) -> (r: String)
        ensures
            r@ == self@.seen_pair,
    {
        self.seen_pair.clone()
    }

    /// Whether a packet with the entered pair code was seen.
    pub fn locked(&self) -> (r: bool)
        ensures
            r == self@.locked,
    {
        self.locked
    }

    /// The filename announced by the sender, once seen.
    pub fn filename(&self) -> (r: String)
        ensures
            r@ == self@.filename,
    {
        self.filename.clone()
    }

    /// Whether a file is being received.
    pub fn has_session(&self) -> (r: bool)
        ensures
            r == self@.decoder is Some,
    {
        self.decoder.is_some()
    }

    /// Number of source symbols recovered (0 before the first packet).
    pub fn recovered(&self) -> (r: u32)
        requires
            self.wf(),
        ensures
            r == match self@.decoder {
                Some(d) => crate::lt::count_recovered(d.recovered),
                None => 0,
            },
    {
        match &self.decoder {
            Some(d) => d.recovered_count(),
            None => 0,
        }
    }

    /// Number of source symbols of the file (0 before the first packet).
    pub fn k(&self) -> (r: u32)
        ensures
            r == match self@.decoder {
                Some(d) => d.k,
                None => 0,
            },
    {
        match &self.decoder {
            Some(d) => d.k(),
            None => 0,
        }
    }

    /// Bytes per symbol (0 before the first packet).
    pub fn symbol_size(&self) -> (r: u32)
        requires
            self.wf(),
        ensures
            r == match self@.decoder {
                Some(d) => d.symbol_size,
                None => 0,
            },
    {
        match &self.decoder {
            Some(d) => d.symbol_size() as u32,
            None => 0,
        }
    }

    /// Whether every source symbol is recovered.
    pub fn complete(&self) -> (r: bool)
        requires
            self.wf(),
        ensures
            r == match self@.decoder {
                Some(d) => d.complete(),
                None => false,
            },
    {
        match &self.decoder {
            Some(d) => d.is_complete(),
            None => false,
        }
    }

    /// Frames that brought new information.
    pub fn new_frames(&self) -> (r: u64)
        ensures
            r == match self@.decoder {
                Some(d) => d.new_count,
                None => 0,
            },
    {
        match &self.decoder {
            Some(d) => d.new_count(),
            None => 0,
        }
    }

    /// Frames whose symbol id was seen before.
    pub fn dup_frames(&self) -> (r: u64)
        ensures
            r == match self@.decoder {
                Some(d) => d.dup_count,
                None => 0,
            },
    {
        match &self.decoder {
            Some(d) => d.dup_count(),
            None => 0,
        }
    }

    /// Frames that brought nothing new.
    pub fn red_frames(&self) -> (r: u64)
        ensures
            r == match self@.decoder {
                Some(d) => d.red_count,
                None => 0,
            },
    {
        match &self.decoder {
            Some(d) => d.red_count(),
            None => 0,
        }
    }

    /// Bytes of source symbols recovered so far.
    pub fn useful_bytes(&self) -> (r: u64)
        ensures
            r == self@.useful_bytes,
    {
        self.useful_bytes
    }

    /// Forgets the file being received (the entered pair code stays).
    pub fn reset(&mut self)
        ensures
            final(self).wf(),
            final(self)@ == (RxState {
                decoder: None,
                filename: Seq::empty(),
                expected_crc: 0,
                useful_bytes: 0,
                locked: false,
                seen_pair: Seq::empty(),
                ..old(self)@
            }),
    {
        self.decoder = None;
        self.filename = String::new();
        self.expected_crc = 0;
        self.useful_bytes = 0;
        self.locked = false;
        self.seen_pair = String::new();
    }

    /// Takes in the bytes of a packet: parses it, records its pair code, checks it
    /// against the entered code, starts the decoder on the first packet of a file, and
    /// picks up the filename. Hands back the symbol to decode, or why not.
    pub fn accept_packet(&mut self, data: &[u8]) -> (r: Accepted)
        requires
            old(self).wf(),
        ensures
            final(self).wf(),
            final(self)@.expected_pair == old(self)@.expected_pair,
            final(self)@.useful_bytes == old(self)@.useful_bytes,
            match decode_result(data@) {
                Err(e) => final(self)@ == old(self)@ && (r matches Accepted::Stop(st) && st == IngestStatus::Error(IngestError::Packet(e))),
                Ok((m, sym)) => {
                    &&& final(self)@.seen_pair == pair_code_chars(m.file_id)
                    &&& if old(self)@.expected_pair.len() == 0 {
                        &&& final(self)@ == (RxState { seen_pair: pair_code_chars(m.file_id), ..old(self)@ })
                        &&& r matches Accepted::Stop(st) && st == IngestStatus::NeedPair
                    } else if normalize_pair(old(self)@.expected_pair) != pair_code_chars(m.file_id) {
                        &&& final(self)@ == (RxState { seen_pair: pair_code_chars(m.file_id), ..old(self)@ })
                        &&& r matches Accepted::Stop(st) && st == IngestStatus::WrongPair
                    } else {
                        &&& final(self)@.locked
                        &&& match old(self)@.decoder {
                            None => {
                                &&& final(self)@.decoder == Some(fresh_decoder(m))
                                &&& final(self)@.filename == (if m.filename.len() > 0 { m.filename } else { old(self)@.filename })
                                &&& final(self)@.expected_crc == m.crc32
                                &&& r matches Accepted::Symbol { file_id, k, esi, symbol }
                                    && file_id == m.file_id && k == m.k && esi == m.esi && symbol@ == sym
                            },
                            Some(d) => if d.file_id != m.file_id {
                                &&& final(self)@ == (RxState { seen_pair: pair_code_chars(m.file_id), locked: true, ..old(self)@ })
                                &&& r matches Accepted::Stop(st) && st == IngestStatus::Error(IngestError::FileIdMismatch)
                            } else {
                                &&& final(self)@.decoder == old(self)@.decoder
                                &&& final(self)@.filename == (if old(self)@.filename.len() == 0 && m.filename.len() > 0 {
                                    m.filename
                                } else {
                                    old(self)@.filename
                                })
                                &&& final(self)@.expected_crc == old(self)@.expected_crc
                                &&& r matches Accepted::Symbol { file_id, k, esi, symbol }
                                    && file_id == d.file_id && k == d.k && esi == m.esi && symbol@ == sym
                            },
                        }
                    }
                },
            },
    {
        let (meta, symbol) = match decode_packet(data) {
            Ok(v) => v,
            Err(e) => {
                return Accepted::Stop(IngestStatus::Error(IngestError::Packet(e)));
            },
        };
        let code = pair_code(meta.file_id);
        self.seen_pair = code;
        if self.expected_pair.as_str().is_empty() {
            return Accepted::Stop(IngestStatus::NeedPair);
        }
        if !pair_code_matches(self.expected_pair.as_str(), meta.file_id) {
            return Accepted::Stop(IngestStatus::WrongPair);
        }
        self.locked = true;
        match &self.decoder {
            None => {
                let d = Decoder::new(meta.file_id, meta.k, meta.symbol_size as usize, meta.total_len);
                proof {
                    assert(d@ == fresh_decoder(meta@));
                }
                self.decoder = Some(d);
                if !meta.filename.as_str().is_empty() {
                    self.filename = meta.filename.clone();
                }
                self.expected_crc = meta.crc32;
                Accepted::Symbol { file_id: meta.file_id, k: meta.k, esi: meta.esi, symbol }
            },
            Some(d) => {
                if d.file_id() != meta.file_id {
                    return Accepted::Stop(IngestStatus::Error(IngestError::FileIdMismatch));
                }
                let file_id = d.file_id();
                let k = d.k();
                if self.filename.as_str().is_empty() && !meta.filename.as_str().is_empty() {
                    self.filename = meta.filename.clone();
                }
                Accepted::Symbol { file_id, k, esi: meta.esi, symbol }
            },
        }
    }

    /// Decodes `symbol` as symbol `esi` of the file being received, `degree` being the
    /// degree drawn for it, and counts the bytes newly recovered.
    #[verifier::rlimit(40)]
    pub fn ingest_symbol(&mut self, esi: u32, symbol: &[u8], degree: u32) -> (r: IngestStatus)
        requires
            old(self).wf(),
            old(self)@.decoder is Some,
        ensures
            final(self).wf(),
            final(self)@.decoder is Some,
            final(self)@ == (RxState {
                decoder: final(self)@.decoder,
                useful_bytes: final(self)@.useful_bytes,
                ..old(self)@
            }),
            ({
                let d0 = old(self)@.decoder->0;
                let d1 = final(self)@.decoder->0;
                let before = crate::lt::count_recovered(d0.recovered);
                let after = crate::lt::count_recovered(d1.recovered);
                &&& exists|kind: u8| #[trigger] d0.ingested(d1, esi, symbol@, degree, kind) && r == symbol_status(d1.complete(), kind)
                &&& (r == IngestStatus::Complete) == d1.complete()
                &&& !d1.complete() ==> (r == IngestStatus::Dup <==> d0.seen.contains(esi))
                &&& !d1.complete() ==> (r == IngestStatus::Red <==> !d0.seen.contains(esi)
                    && unresolved(neighbor_list(d0.file_id, esi, d0.k, degree), d0.recovered).len() == 0)
                &&& !d1.complete() ==> (r == IngestStatus::New <==> !d0.seen.contains(esi)
                    && unresolved(neighbor_list(d0.file_id, esi, d0.k, degree), d0.recovered).len() > 0)
                &&& d1.file_id == d0.file_id && d1.k == d0.k && d1.symbol_size == d0.symbol_size
                &&& d1.total_len == d0.total_len
                &&& before <= after
                &&& forall|i: int| 0 <= i < d0.k && (#[trigger] d0.recovered[i]) is Some ==> d1.recovered[i] == d0.recovered[i]
                &&& final(self)@.useful_bytes == if after > before {
                    vstd::wrapping::u64_specs::wrapping_add(old(self)@.useful_bytes, ((after - before) * d0.symbol_size) as u64)
                } else {
                    old(self)@.useful_bytes
                }
            }),
    {
        let ghost st0 = self@;
        let mut dec = self.decoder.take().unwrap();
        let ghost d0 = dec@;
        let before = dec.recovered_count();
        let kind = dec.ingest(esi, symbol, degree);
        let after = dec.recovered_count();
        proof {
            crate::lt::lemma_count_recovered(dec@.recovered);
        }
        if after > before {
            let diff = (after - before) as u64;
            let sz = dec.symbol_size() as u64;
            proof {
                assert(diff * sz <= 0xFFFF_FFFFu64 * 0xFFFFu64) by (nonlinear_arith)
                    requires diff <= 0xFFFF_FFFFu64, sz <= 0xFFFFu64;
            }
            let gained = diff * sz;
            self.useful_bytes = self.useful_bytes.wrapping_add(gained);
        }
        let complete = dec.is_complete();
        let ghost d1 = dec@;
        self.decoder = Some(dec);
        proof {
            assert(d0 == st0.decoder->0);
            assert(d1 == self@.decoder->0);
            assert(d0.ingested(d1, esi, symbol@, degree, kind));
            assert(complete == d1.complete());
            assert(d1.symbol_size == d0.symbol_size);
            law_ingest_status(d0, d1, esi, symbol@, degree, kind);
        }
        if complete {
            IngestStatus::Complete
        } else if kind == 0 {
            IngestStatus::Dup
        } else if kind == 1 {
            IngestStatus::Red
        } else {
            IngestStatus::New
        }
    }

    /// The received file, once complete and matching its announced CRC-32.
    pub fn take_file(&self) -> (r: Result<ReceivedFile, TakeError>)
        requires
            self.wf(),
        ensures
            match self@.decoder {
                None => r == Err::<ReceivedFile, TakeError>(TakeError::NoSession),
                Some(d) => if !d.complete() {
                    r == Err::<ReceivedFile, TakeError>(TakeError::Incomplete)
                } else if crc32_of(d.assembled()) != self@.expected_crc {
                    r == Err::<ReceivedFile, TakeError>(TakeError::CrcMismatch { got: crc32_of(d.assembled()), expected: self@.expected_crc })
                } else {
                    r matches Ok(f) && f.data@ == d.assembled() && f.crc32 == self@.expected_crc
                        && f.filename@ == self@.filename && f.pair_code@ == self@.seen_pair
                },
            },
    {
        let dec = match &self.decoder {
            Some(d) => d,
            None => {
                return Err(TakeError::NoSession);
            },
        };
        let data = match dec.assemble() {
            Some(v) => v,
            None => {
                return Err(TakeError::Incomplete);
            },
        };
        let got = crc32(data.as_slice());
        if got != self.expected_crc {
            return Err(TakeError::CrcMismatch { got, expected: self.expected_crc });
        }
        Ok(ReceivedFile { filename: self.filename.clone(), data, crc32: got, pair_code: self.seen_pair.clone() })
    }
}

/// The binary payload capacity of a Version 40-L QR code.
pub fn qr_capacity() -> (r: u32)
    ensures
        r == QR_CAPACITY,
{
    QR_CAPACITY as u32
}

/// The pair code of a file id given in hex (surrounding whitespace ignored; an
/// unreadable id counts as 0).
pub fn format_pair_code(file_id_hex: &str) -> (r: String)
    ensures
        r@ == pair_code_chars(
            match parse_hex_u64(trim(file_id_hex@)) {
                Some(v) => v,
                None => 0,
            },
        ),
{
    let cs = chars_of(file_id_hex);
    let t = trim_chars(&cs);
    let id = match parse_hex(&t) {
        Some(v) => v,
        None => 0,
    };
    pair_code(id)
}

} // verus!

verus! {

/// A receiver reads from a sender's packet exactly what the sender wrote: the file id,
/// length, symbol size, symbol count, checksum, symbol id and symbol, with the
/// sender's filename or none.
pub proof fn law_sender_packet_reads_back(st: TxState, esi: u32, symbol: Seq<u8>)
    requires
        frame_packet(st, esi, symbol) is Ok,
    ensures
        decode_result(frame_packet(st, esi, symbol)->Ok_0) matches Ok((m, s)) && {
            &&& s == symbol
            &&& m.file_id == st.encoder.file_id
            &&& m.total_len == st.total_len
            &&& m.symbol_size == st.encoder.symbol_size as u16
            &&& m.k == st.encoder.k
            &&& m.esi == esi
            &&& m.crc32 == st.crc
            &&& (m.filename == st.filename || m.filename.len() == 0)
        },
{
    let named = frame_meta(st, esi, if includes_name(esi) { st.filename } else { Seq::empty() });
    let lean = frame_meta(st, esi, Seq::empty());
    if encode_result(named, symbol) is Ok && (!includes_name(esi) || encode_result(named, symbol)->Ok_0.len() <= CAMERA_PACKET_CAP) {
        crate::packet::law_packet_roundtrip(named, symbol);
    } else {
        crate::packet::law_packet_roundtrip(lean, symbol);
    }
}

/// The symbol a sender encodes as symbol `esi` when its drawn degree is `degree`.
pub open spec fn frame_symbol(st: TxState, esi: u32, degree: u32) -> Seq<u8> {
    crate::xor::combine(
        st.encoder.symbols,
        neighbor_list(st.encoder.file_id, esi, st.encoder.k, degree),
        st.encoder.symbol_size,
    )
}

/// A sender's frame keeps a receiver's decoder sound: when the receiver's decoder (for
/// the sender's file, sound for the sender's source symbols) takes in the symbol read
/// from the sender's packet, with the degree the sender drew, it stays sound for them.
pub proof fn law_sender_frame_keeps_receiver_sound(
    st: TxState,
    esi: u32,
    degree: u32,
    d0: DecoderState,
    d1: DecoderState,
    kind: u8,
)
    requires
        frame_packet(st, esi, frame_symbol(st, esi, degree)) is Ok,
        d0.file_id == st.encoder.file_id,
        d0.k == st.encoder.k,
        d0.symbol_size == st.encoder.symbol_size,
        d0.sound_for(st.encoder.symbols),
        decode_result(frame_packet(st, esi, frame_symbol(st, esi, degree))->Ok_0) matches Ok((m, s))
            && d0.ingested(d1, m.esi, s, degree, kind),
    ensures
        d1.sound_for(st.encoder.symbols),
{
    law_sender_packet_reads_back(st, esi, frame_symbol(st, esi, degree));
    crate::lt::law_encoder_frame_keeps_sound(d0, d1, st.encoder.symbols, esi, degree, kind);
}

/// The filename schedule: a frame whose symbol id is below 6 or a multiple of 8 carries
/// the sender's filename whenever the named packet fits [`CAMERA_PACKET_CAP`]; every
/// other frame carries no filename.
pub proof fn law_name_schedule(st: TxState, esi: u32, symbol: Seq<u8>)
    ensures
        (esi < 6 || esi % 8 == 0) && encode_result(frame_meta(st, esi, st.filename), symbol) is Ok
            && encode_result(frame_meta(st, esi, st.filename), symbol)->Ok_0.len() <= CAMERA_PACKET_CAP
            ==> (frame_packet(st, esi, symbol) is Ok && (decode_result(frame_packet(st, esi, symbol)->Ok_0) matches Ok((m, s))
                && m.filename == st.filename && s == symbol)),
        !(esi < 6 || esi % 8 == 0) && frame_packet(st, esi, symbol) is Ok
            ==> (decode_result(frame_packet(st, esi, symbol)->Ok_0) matches Ok((m, s))
                && m.filename.len() == 0 && s == symbol),
{
    let named = frame_meta(st, esi, st.filename);
    let lean = frame_meta(st, esi, Seq::empty());
    if encode_result(named, symbol) is Ok {
        crate::packet::law_packet_roundtrip(named, symbol);
    }
    if encode_result(lean, symbol) is Ok {
        crate::packet::law_packet_roundtrip(lean, symbol);
    }
}

/// A displayed file id reads back as the same file: parsing the 16 hex digits that
/// [`TxSession::file_id`] shows gives the id, so [`format_pair_code`] of it is the
/// session's pair code.
pub proof fn law_file_id_reads_back(file_id: u64)
    ensures
        parse_hex_u64(trim(hex_text(file_id, 16))) == Some(file_id),
        pair_code_chars(
            match parse_hex_u64(trim(hex_text(file_id, 16))) {
                Some(v) => v,
                None => 0,
            },
        ) == pair_code_chars(file_id),
{
    crate::text::lemma_hex_text_round_trip(file_id);
}

/// End to end: once the receiver's decoder is complete and sound for the source symbols
/// of `data` (as frames of a sender of `data` keep it, see
/// [`crate::lt::law_encoder_frame_keeps_sound`]) and the announced CRC is that of
/// `data`, the file handed out is exactly `data`.
pub proof fn law_received_file(data: Seq<u8>, sym: nat, rx: RxState)
    requires
        sym >= 1,
        rx.decoder is Some,
        rx.decoder->0.wf(),
        rx.decoder->0.k == symbol_count(data.len(), sym),
        rx.decoder->0.symbol_size == sym,
        rx.decoder->0.total_len == data.len(),
        rx.decoder->0.sound_for(source_symbols(data, sym)),
        rx.decoder->0.complete(),
        rx.expected_crc == crc32_of(data),
    ensures
        rx.decoder->0.assembled() == data,
        crc32_of(rx.decoder->0.assembled()) == rx.expected_crc,
{
    crate::lt::law_roundtrip(data, sym, rx.decoder->0);
}

} // verus!
