use fountain_core::lt::neighbor_rng;
use fountain_core::packet::{encode_packet, pair_code, PacketMeta};
use fountain_core::qr::decode_luma_bytes;
use fountain_core::rng::XorShift64;
use fountain_core::session::{
    fit_symbol_size, format_pair_code, qr_capacity, symbol_count_fits, Accepted, FrameStep,
    IngestError,
    IngestStatus, RxSession, TakeError, TxSession,
};

fn robust_soliton_degree(rng: &mut XorShift64, k: u32) -> u32 {
    if k <= 1 {
        return 1;
    }
    let k_f = k as f64;
    let c = 0.1;
    let delta = 0.5;
    let r = (c * (k_f / delta).ln() * k_f.sqrt()).max(1.0);
    let bound = (k_f / r).floor() as u32;
    let mut mu = vec![0.0f64; (k + 1) as usize];
    let mut z = 0.0;
    for d in 1..=k {
        let rho = if d == 1 { 1.0 / k_f } else { 1.0 / (d as f64 * (d as f64 - 1.0)) };
        let tau = if d < bound {
            r / (d as f64 * k_f)
        } else if d == bound {
            (r * (r / delta).ln()) / k_f
        } else {
            0.0
        };
        mu[d as usize] = rho + tau;
        z += mu[d as usize];
    }
    for d in 1..=k {
        mu[d as usize] /= z;
    }
    let u = (rng.next_u64() as f64) / (u64::MAX as f64);
    let mut acc = 0.0;
    for d in 1..=k {
        acc += mu[d as usize];
        if u <= acc {
            return d;
        }
    }
    1
}

fn degree(file_id: u64, esi: u32, k: u32) -> u32 {
    let mut rng = neighbor_rng(file_id, esi);
    robust_soliton_degree(&mut rng, k)
}

fn render(size: u32, modules: &[u8], scale: usize) -> (u32, Vec<u8>) {
    let w = size as usize;
    let side = (w + 8) * scale;
    let mut img = vec![255u8; side * side];
    for y in 0..w {
        for x in 0..w {
            let i = y * w + x;
            if (modules[i / 8] >> (7 - (i % 8))) & 1 == 1 {
                for dy in 0..scale {
                    for dx in 0..scale {
                        img[((y + 4) * scale + dy) * side + (x + 4) * scale + dx] = 0;
                    }
                }
            }
        }
    }
    (side as u32, img)
}

fn feed(rx: &mut RxSession, packet: &[u8]) -> IngestStatus {
    match rx.accept_packet(packet) {
        Accepted::Stop(s) => s,
        Accepted::Symbol { file_id, k, esi, symbol } => {
            rx.ingest_symbol(esi, &symbol, degree(file_id, esi, k))
        }
    }
}

#[test]
fn transfer_through_qr_frames() {
    let data: Vec<u8> = (0..1000u32).map(|i| (i * 31 % 251) as u8).collect();
    let mut tx = TxSession::new(&data, "docs/hello.txt");
    assert_eq!(tx.filename(), "hello.txt");
    assert_eq!(tx.symbol_size(), 400);
    assert_eq!(tx.k(), 3);
    assert_eq!(tx.dwell_ms(), 160);
    assert_eq!(tx.file_id().len(), 16);
    assert_eq!(tx.pair_code(), pair_code(tx.file_id_value()));
    let mut rx = RxSession::new();
    rx.set_expected_pair(&tx.pair_code().to_lowercase());
    let mut status = IngestStatus::NoCode;
    let mut frames = 0;
    while status != IngestStatus::Complete && frames < 60 {
        let d = degree(tx.file_id_value(), tx.next_esi(), tx.k());
        let frame = match tx.next_frame(d, 1) {
            FrameStep::Emit(f) => f,
            _ => panic!("no frame"),
        };
        frames += 1;
        let (side, img) = render(frame.size, &frame.modules, 3);
        let packet = decode_luma_bytes(side, side, &img).unwrap();
        assert_eq!(packet.len() as u32, frame.packet_len);
        status = feed(&mut rx, &packet);
        assert!(rx.locked());
    }
    assert_eq!(status, IngestStatus::Complete);
    assert_eq!(tx.frames_emitted(), frames);
    assert_eq!(rx.filename(), "hello.txt");
    assert_eq!(rx.recovered(), 3);
    assert!(rx.complete());
    assert_eq!(rx.useful_bytes(), 1200);
    let file = rx.take_file().ok().unwrap();
    assert_eq!(file.data, data);
    assert_eq!(file.filename, "hello.txt");
    assert_eq!(file.pair_code, tx.pair_code());
}

fn packet_for(file_id: u64, k: u32, esi: u32, name: &str, symbol: &[u8]) -> Vec<u8> {
    let meta = PacketMeta {
        file_id,
        total_len: (k as u64) * (symbol.len() as u64),
        symbol_size: symbol.len() as u16,
        k,
        esi,
        crc32: 0,
        filename: name.to_string(),
    };
    encode_packet(&meta, symbol).unwrap()
}

#[test]
fn receiver_needs_matching_pair_code() {
    let mut rx = RxSession::new();
    let p = packet_for(1, 1, 0, "a.txt", &[9, 9]);
    assert_eq!(feed(&mut rx, &p), IngestStatus::NeedPair);
    assert_eq!(rx.pair_code(), "00001");
    assert!(!rx.locked());
    rx.set_expected_pair("00002");
    assert_eq!(feed(&mut rx, &p), IngestStatus::WrongPair);
    rx.set_expected_pair("0000-1");
    assert_eq!(rx.expected_pair(), "00001");
    assert_eq!(feed(&mut rx, &p), IngestStatus::Complete);
    assert_eq!(rx.filename(), "a.txt");
    assert_eq!(IngestStatus::NeedPair.text(), "need_pair");
    assert_eq!(IngestStatus::WrongPair.text(), "wrong_pair");
}

#[test]
fn receiver_rejects_other_file_and_bad_packets() {
    let mut rx = RxSession::new();
    rx.set_expected_pair("00001");
    let p1 = packet_for(1, 2, 0, "", &[1, 2]);
    feed(&mut rx, &p1);
    // file id 1 + 32^5 has the same pair code but is another file
    let p2 = packet_for(1 + (1u64 << 25), 2, 0, "", &[1, 2]);
    let s = feed(&mut rx, &p2);
    assert_eq!(s, IngestStatus::Error(IngestError::FileIdMismatch));
    assert_eq!(s.text(), "err:file_id_mismatch");
    let s = feed(&mut rx, &[1, 2, 3]);
    assert_eq!(s.text(), "err:truncated header");
    assert_eq!(feed(&mut rx, &p1), IngestStatus::Dup);
    assert_eq!(rx.dup_frames(), 1);
}

#[test]
fn take_file_reports_missing_and_mismatch() {
    let mut rx = RxSession::new();
    assert_eq!(rx.take_file().err(), Some(TakeError::NoSession));
    rx.set_expected_pair("00001");
    let p = packet_for(1, 2, 0, "", &[1, 2]);
    feed(&mut rx, &p);
    assert!(rx.recovered() < 2 || rx.complete());
    if !rx.complete() {
        assert_eq!(rx.take_file().err(), Some(TakeError::Incomplete));
    }
    let single = packet_for(1, 1, 0, "", &[4, 5]);
    let mut rx2 = RxSession::new();
    rx2.set_expected_pair("00001");
    assert_eq!(feed(&mut rx2, &single), IngestStatus::Complete);
    // the packet announced crc 0, which is not the checksum of [4, 5]
    match rx2.take_file().err() {
        Some(TakeError::CrcMismatch { got, expected }) => {
            assert_eq!(expected, 0);
            assert_eq!(got, fountain_core::packet::crc32(&[4, 5]));
        }
        _ => panic!("expected a crc mismatch"),
    }
}

#[test]
fn reset_keeps_entered_pair() {
    let mut rx = RxSession::new();
    rx.set_expected_pair("00001");
    let p = packet_for(1, 1, 0, "x", &[4, 5]);
    feed(&mut rx, &p);
    rx.reset();
    assert!(!rx.locked());
    assert_eq!(rx.filename(), "");
    assert_eq!(rx.k(), 0);
    assert_eq!(rx.pair_code(), "");
    assert_eq!(rx.expected_pair(), "00001");
}

#[test]
fn dwell_is_clamped() {
    let mut tx = TxSession::new(b"abc", "a");
    tx.set_dwell_ms(5);
    assert_eq!(tx.dwell_ms(), 40);
    tx.set_dwell_ms(99999);
    assert_eq!(tx.dwell_ms(), 2000);
    tx.set_dwell_ms(500);
    assert_eq!(tx.dwell_ms(), 500);
    assert_eq!(tx.qr_capacity(), 2953);
    assert_eq!(qr_capacity(), 2953);
    assert_eq!(tx.symbol_size(), 3);
}

#[test]
fn pair_code_from_hex_id() {
    assert_eq!(format_pair_code("  deadbeef "), pair_code(0xdeadbeef));
    assert_eq!(format_pair_code("DEADBEEF"), "AVFQF");
    assert_eq!(format_pair_code("+1"), "00001");
    assert_eq!(format_pair_code("zz"), "00000");
    assert_eq!(format_pair_code(""), "00000");
    assert_eq!(format_pair_code("1ffffffffffffffff"), "00000");
}

#[test]
fn symbol_size_fits_camera() {
    assert_eq!(fit_symbol_size("x", 10_000), 400);
    assert_eq!(fit_symbol_size("x", 0), 1);
    assert_eq!(fit_symbol_size("x", 57), 57);
}

#[test]
fn named_frames_follow_schedule() {
    let data = vec![7u8; 50];
    let mut tx = TxSession::new(&data, "n.bin");
    let mut lens = Vec::new();
    for _ in 0..9 {
        let d = degree(tx.file_id_value(), tx.next_esi(), tx.k());
        match tx.next_frame(d, 1) {
            FrameStep::Emit(f) => lens.push((f.esi, f.packet_len)),
            _ => panic!("no frame"),
        }
    }
    // esi 0..5 and 8 carry the 5-byte name; 6 and 7 are lean
    for (esi, len) in lens {
        let named = esi < 6 || esi % 8 == 0;
        assert_eq!(len, 37 + 50 + if named { 5 } else { 0 });
    }
}

#[test]
fn single_packet_of_one_symbol_file_completes() {
    let mut rx = RxSession::new();
    rx.set_expected_pair("00001");
    let meta = PacketMeta {
        file_id: 1,
        total_len: 3,
        symbol_size: 4,
        k: 1,
        esi: 0,
        crc32: 0,
        filename: "a".to_string(),
    };
    let p = encode_packet(&meta, &[1, 2, 3, 4]).unwrap();
    assert_eq!(feed(&mut rx, &p).text(), "complete");
    assert!(rx.complete());
    assert_eq!(rx.useful_bytes(), 4);
    assert!(rx.locked());
    assert_eq!(rx.filename(), "a");
    assert_eq!(rx.pair_code(), "00001");
    assert_eq!(rx.k(), 1);
    assert_eq!(rx.new_frames(), 1);
}

#[test]
fn symbol_count_bound_holds_for_ordinary_files() {
    assert!(symbol_count_fits(0));
    assert!(symbol_count_fits(10_000));
}
