use fountain_core::lt::{neighbor_rng, neighbors, Decoder, Encoder};
use fountain_core::xor::xor_into;
use fountain_core::rng::XorShift64;

/// Robust soliton degree drawn from `rng` (the sender's and receiver's shared rule).
fn robust_soliton_degree(rng: &mut XorShift64, k: u32) -> u32 {
    if k <= 1 {
        return 1;
    }
    let k_f = k as f64;
    let c = 0.1;
    let delta = 0.5;
    let r = c * (k_f / delta).ln() * k_f.sqrt();
    let r = r.max(1.0);
    let mut tau = vec![0.0f64; (k + 1) as usize];
    let mut rho = vec![0.0f64; (k + 1) as usize];
    let bound = (k_f / r).floor() as u32;
    for d in 1..=k {
        if d == 1 {
            rho[d as usize] = 1.0 / k_f;
        } else {
            rho[d as usize] = 1.0 / (d as f64 * (d as f64 - 1.0));
        }
    }
    for d in 1..=k {
        if d < bound {
            tau[d as usize] = r / (d as f64 * k_f);
        } else if d == bound {
            tau[d as usize] = (r * (r / delta).ln()) / k_f;
        }
    }
    let mut z = 0.0;
    let mut mu = vec![0.0f64; (k + 1) as usize];
    for d in 1..=k {
        mu[d as usize] = rho[d as usize] + tau[d as usize];
        z += mu[d as usize];
    }
    for d in 1..=k {
        mu[d as usize] /= z;
    }
    let u = (rng.next_u64() as f64) / (u64::MAX as f64);
    let mut acc = 0.0;
    for d in 1..=k {
        acc += mu[d as usize];
        if u <= acc {
            return d;
        }
    }
    1
}

fn degree(file_id: u64, esi: u32, k: u32) -> u32 {
    let mut rng = neighbor_rng(file_id, esi);
    robust_soliton_degree(&mut rng, k)
}

#[test]
fn roundtrip_small() {
    let data: Vec<u8> = (0u8..200).collect();
    let file_id = 0xDEADBEEFCAFEBABE;
    let mut enc = Encoder::new(file_id, &data, 32);
    let mut dec = Decoder::new(file_id, enc.k(), enc.symbol_size(), data.len() as u64);
    let mut n = 0;
    while !dec.is_complete() && n < enc.k() * 20 {
        let d = degree(file_id, enc.next_esi(), enc.k());
        let (esi, payload) = enc.encode_next(d);
        let d = degree(dec.file_id(), esi, dec.k());
        dec.ingest(esi, &payload, d);
        n += 1;
    }
    assert!(dec.is_complete(), "failed after {n} symbols, recovered {}", dec.recovered_count());
    assert_eq!(dec.assemble().unwrap(), data);
}

#[test]
fn xorshift_outputs_from_zero_seed() {
    let mut rng = XorShift64::new(0);
    assert_eq!(rng.next_u64(), 0x7403d1a28c9a2599);
    assert_eq!(rng.next_u64(), 0xdd70f339ab8ecb5e);
    assert_eq!(rng.next_u64(), 0x7d974833520ea11e);
}

#[test]
fn xorshift_u32_is_high_half() {
    let mut rng = XorShift64::new(12345);
    assert_eq!(rng.next_u32(), 0x248f9f53);
}

#[test]
fn gen_range_zero_draws_nothing() {
    let mut a = XorShift64::new(7);
    let mut b = XorShift64::new(7);
    assert_eq!(a.gen_range(0), 0);
    assert_eq!(a.next_u64(), b.next_u64());
    let v = a.gen_range(10);
    assert!(v < 10);
}

#[test]
fn neighbor_lists_match_reference_values() {
    assert_eq!(neighbors(0xDEADBEEFCAFEBABE, 0, 7, 3), vec![1, 3, 5]);
    assert_eq!(neighbors(0xDEADBEEFCAFEBABE, 5, 7, 100), vec![0, 1, 2, 3, 4, 5, 6]);
    assert_eq!(neighbors(1, 2, 0, 5), vec![0]);
    assert_eq!(neighbors(42, 9, 10, 1), vec![0]);
}

#[test]
fn neighbor_rng_is_seeded_from_file_and_symbol() {
    let mut a = neighbor_rng(42, 9);
    let mut b = XorShift64::new(0xe9256d0fd21b22e3);
    assert_eq!(a.next_u64(), b.next_u64());
}

#[test]
fn xor_into_twice_restores() {
    let mut dst = vec![1u8, 2, 3, 4];
    let src = vec![0xFFu8, 0x0F];
    xor_into(&mut dst, &src);
    assert_eq!(dst, vec![0xFE, 0x0D, 3, 4]);
    xor_into(&mut dst, &src);
    assert_eq!(dst, vec![1, 2, 3, 4]);
}

#[test]
fn encoder_pads_last_symbol() {
    let data = vec![1u8, 2, 3, 4, 5];
    let mut enc = Encoder::new(9, &data, 2);
    assert_eq!(enc.k(), 3);
    assert_eq!(enc.symbol_size(), 2);
    assert_eq!(enc.file_id(), 9);
    // degree 100 clamps to k = 3: every symbol XOR-ed together
    let (esi, payload) = enc.encode_next(100);
    assert_eq!(esi, 0);
    assert_eq!(payload, vec![1 ^ 3 ^ 5, 2 ^ 4 ^ 0]);
    assert_eq!(enc.next_esi(), 1);
}

#[test]
fn encoder_empty_file_has_one_symbol() {
    let enc = Encoder::new(1, &[], 0);
    assert_eq!(enc.k(), 1);
    assert_eq!(enc.symbol_size(), 1);
}

#[test]
fn decoder_counts_duplicates_and_redundant_frames() {
    let data: Vec<u8> = (0u8..10).collect();
    let mut enc = Encoder::new(5, &data, 10);
    assert_eq!(enc.k(), 1);
    let mut dec = Decoder::new(5, 1, 10, 10);
    let (esi, payload) = enc.encode_next(1);
    assert_eq!(dec.ingest(esi, &payload, 1), 2);
    assert!(dec.is_complete());
    assert_eq!(dec.recovered_count(), 1);
    assert_eq!(dec.ingest(esi, &payload, 1), 0);
    assert_eq!(dec.dup_count(), 1);
    let (esi2, payload2) = enc.encode_next(1);
    assert_eq!(dec.ingest(esi2, &payload2, 1), 1);
    assert_eq!(dec.red_count(), 1);
    assert_eq!(dec.new_count(), 1);
    assert_eq!(dec.assemble().unwrap(), data);
}

#[test]
fn decoder_incomplete_assembles_nothing() {
    let dec = Decoder::new(5, 3, 10, 30);
    assert!(!dec.is_complete());
    assert_eq!(dec.recovered_count(), 0);
    assert_eq!(dec.assemble(), None);
}

#[test]
fn decoder_peels_pairs() {
    // two source symbols; frames: s0 ^ s1 first (degree 2), then s0 (degree 1 on a lucky esi)
    let data = vec![10u8, 20, 30, 40];
    let file_id = 77;
    let mut enc = Encoder::new(file_id, &data, 2);
    let mut dec = Decoder::new(file_id, 2, 2, 4);
    let mut esi_count = 0;
    while !dec.is_complete() && esi_count < 100 {
        let d = if esi_count == 0 { 2 } else { 1 };
        let (esi, payload) = enc.encode_next(d);
        dec.ingest(esi, &payload, d);
        esi_count += 1;
    }
    assert!(dec.is_complete());
    assert_eq!(dec.assemble().unwrap(), data);
}

#[test]
fn decoder_truncates_to_total_len() {
    let data = vec![1u8, 2, 3];
    let mut enc = Encoder::new(3, &data, 2);
    let mut dec = Decoder::new(3, enc.k(), 2, 3);
    let mut n = 0;
    while !dec.is_complete() && n < 200 {
        let (esi, payload) = enc.encode_next(1);
        dec.ingest(esi, &payload, 1);
        n += 1;
    }
    assert_eq!(dec.assemble().unwrap(), vec![1, 2, 3]);
    assert_eq!(dec.total_len(), 3);
}

#[test]
fn degree_one_frame_recovers_its_symbol_and_peels() {
    let data = vec![10u8, 20, 30, 40];
    let file_id = 77;
    let mut enc = Encoder::new(file_id, &data, 2);
    let mut dec = Decoder::new(file_id, 2, 2, 4);
    assert_eq!(neighbors(file_id, 0, 2, 2), vec![0, 1]);
    let (esi, payload) = enc.encode_next(2);
    assert_eq!(dec.ingest(esi, &payload, 2), 2);
    assert_eq!(dec.recovered_count(), 0);
    let (esi, payload) = enc.encode_next(1);
    assert_eq!(neighbors(file_id, esi, 2, 1).len(), 1);
    assert_eq!(dec.ingest(esi, &payload, 1), 2);
    assert_eq!(dec.recovered_count(), 2);
    assert_eq!(dec.assemble().unwrap(), data);
}

#[test]
fn one_symbol_decoder_counts_new_dup_red() {
    let mut d = Decoder::new(7, 1, 4, 3);
    assert_eq!(d.assemble(), None);
    assert_eq!(d.ingest(0, &[1, 2, 3, 4], 1), 2);
    assert!(d.is_complete());
    assert_eq!(d.new_count(), 1);
    assert_eq!(d.ingest(0, &[1, 2, 3, 4], 1), 0);
    assert_eq!(d.dup_count(), 1);
    assert_eq!(d.ingest(1, &[5, 5, 5, 5], 3), 1);
    assert_eq!(d.red_count(), 1);
    assert_eq!(d.assemble(), Some(vec![1, 2, 3]));
}

#[test]
fn short_payload_is_zero_padded() {
    let mut d = Decoder::new(7, 1, 3, 3);
    assert_eq!(d.ingest(0, &[9], 1), 2);
    assert_eq!(d.assemble(), Some(vec![9, 0, 0]));
    let empty = Decoder::new(1, 0, 4, 0);
    assert_eq!(empty.assemble(), Some(vec![]));
}

#[test]
fn neighbor_lists_are_never_empty() {
    for esi in 0..50u32 {
        for degree in [0u32, 1, 2, 5] {
            let v = neighbors(0xABCD, esi, 9, degree);
            assert!(!v.is_empty());
            assert!(v.len() <= std::cmp::max(1, std::cmp::min(degree, 9)) as usize);
            assert!(v.iter().all(|&x| x < 9));
        }
    }
}
