use spack::model_coder::{Coder, Decoder, CONTEXTS};
use spack::monitor::Monitor;
use spack::mov_model::{
    decode, decode_shared_with_progress, decode_with_progress, encode, encode_shared_with_progress,
    encode_with_cancel, encode_with_progress, SharedContext, LIMIT, MAGIC, SHARED_MAGIC,
};
use spack::plane::pack_plane;
use spack::source_rc::{Dec, Enc};

struct Ask<F> {
    answer: F,
    refused: bool,
}

fn ask<F: FnMut() -> bool>(answer: F) -> Ask<F> {
    Ask { answer, refused: false }
}

impl<F: FnMut() -> bool> Monitor for Ask<F> {
    /// Contracts alone speak of it.
    fn stopped(&self) -> bool {
        unreachable!()
    }

    /// Contracts alone speak of it.
    fn told(&self, _done: u64, _total: u64, _go: bool, _after: &Self) -> bool {
        unreachable!()
    }

    fn report(&mut self, _done: u64, _total: u64) -> bool {
        self.refused = (self.answer)();
        !self.refused
    }

    fn halted(&self) -> bool {
        self.refused
    }
}

struct Watch<F> {
    answer: F,
    refused: bool,
}

fn watch<F: FnMut(u64, u64) -> bool>(answer: F) -> Watch<F> {
    Watch { answer, refused: false }
}

impl<F: FnMut(u64, u64) -> bool> Monitor for Watch<F> {
    /// Contracts alone speak of it.
    fn stopped(&self) -> bool {
        unreachable!()
    }

    /// Contracts alone speak of it.
    fn told(&self, _done: u64, _total: u64, _go: bool, _after: &Self) -> bool {
        unreachable!()
    }

    fn report(&mut self, done: u64, total: u64) -> bool {
        self.refused = !((self.answer)(done, total));
        !self.refused
    }

    fn halted(&self) -> bool {
        self.refused
    }
}

fn movie_fixture() -> Vec<u8> {
    let mut mdat = Vec::new();
    for frame_number in 0..20 {
        let mut coefficients = vec![0i16; 256];
        for (i, value) in coefficients.iter_mut().enumerate() {
            *value = if i < 4 {
                (frame_number * 97 % 2000) as i16 - 1000
            } else {
                ((i * 19) % 43) as i16 - 21
            };
        }
        coefficients[255] = -3;
        let mut plane = pack_plane(&coefficients, 4, 4096).unwrap();
        plane.truncate(plane.iter().rposition(|&x| x != 0).unwrap() + 1);
        let slice_len = 8 + 3 * plane.len() + 16;
        let picture_len = 10 + slice_len;
        let frame_len = 28 + picture_len + 7;
        let mut frame = vec![0; 28];
        frame[..4].copy_from_slice(&(frame_len as u32).to_be_bytes());
        frame[4..8].copy_from_slice(b"icpf");
        frame[8..10].copy_from_slice(&20u16.to_be_bytes());
        frame[16..18].copy_from_slice(&16u16.to_be_bytes());
        frame[18..20].copy_from_slice(&16u16.to_be_bytes());
        frame[20] = 0xc0;
        frame.push(0x40);
        frame.extend_from_slice(&(picture_len as u32).to_be_bytes());
        frame.extend_from_slice(&[0, 1, 0]);
        frame.extend_from_slice(&(slice_len as u16).to_be_bytes());
        frame.extend_from_slice(&[0x40, 1]);
        for _ in 0..3 {
            frame.extend_from_slice(&(plane.len() as u16).to_be_bytes());
        }
        for _ in 0..3 {
            frame.extend_from_slice(&plane);
        }
        frame.extend_from_slice(&[0xaa; 16]);
        frame.extend_from_slice(&[0xf1; 7]);
        mdat.extend_from_slice(&frame);
        mdat.extend_from_slice(&[0; 13]);
    }
    let mut raw = Vec::new();
    for (kind, data) in [
        (b"ftyp", b"qt  ".as_slice()),
        (b"moov", b"unknown metadata".as_slice()),
        (b"mdat", mdat.as_slice()),
        (b"free", b"tail padding".as_slice()),
    ] {
        raw.extend_from_slice(&((data.len() + 8) as u32).to_be_bytes());
        raw.extend_from_slice(kind);
        raw.extend_from_slice(data);
    }
    raw
}

#[test]
fn complete_movie_round_trip_and_progress() {
    let raw = movie_fixture();
    let mut progress = Vec::new();
    let encoded = encode_with_progress(&raw, &mut watch(|d, t| {
        progress.push((d, t));
        true
    }))
    .unwrap();
    assert_eq!(decode(&encoded).unwrap(), raw);
    assert!(encoded.len() < raw.len());
    let &(done, total) = progress.last().unwrap();
    assert_eq!(done, total);
    assert!(total > 1);
}

#[test]
fn shared_records_reconstruct_in_order_with_cross_file_references() {
    let first = movie_fixture();
    let mut second = first.clone();
    second[20] ^= 1;
    let mut encoder = SharedContext::default();
    let a = encode_shared_with_progress(&first, &mut encoder, &mut watch(|_, _| true)).unwrap();
    let b = encode_shared_with_progress(&second, &mut encoder, &mut watch(|_, _| true)).unwrap();
    assert_eq!(encoder.files, 2);
    assert!(!encoder.dictionary.values.is_empty());
    let mut decoder = SharedContext::default();
    assert!(decode_shared_with_progress(&b, &mut decoder, &mut watch(|_, _| true)).is_err());
    assert_eq!(decoder.files, 0);
    assert_eq!(
        decode_shared_with_progress(&a, &mut decoder, &mut watch(|_, _| true)).unwrap(),
        first
    );
    assert_eq!(
        decode_shared_with_progress(&b, &mut decoder, &mut watch(|_, _| true)).unwrap(),
        second
    );
    assert_eq!(encoder.probabilities, decoder.probabilities);
    assert_eq!(encoder.dictionary.values, decoder.dictionary.values);
    assert_eq!(encoder.dictionary.hashes, decoder.dictionary.hashes);
    assert_eq!(encoder.dictionary.next, decoder.dictionary.next);
    assert!(b.len() < a.len());
}

#[test]
fn cancelled_shared_encode_does_not_advance_state() {
    let mut state = SharedContext::default();
    let mut calls = 0;
    assert!(
        encode_shared_with_progress(&movie_fixture(), &mut state, &mut watch(|_, _| {
            calls += 1;
            calls < 3
        }))
        .is_err()
    );
    assert_eq!(state.files, 0);
    assert!(state.dictionary.values.is_empty());
    assert!(state.probabilities.iter().all(|&p| p == 2048));
}

#[test]
fn random_shared_references_do_not_panic_or_change_state() {
    let mut seed = 89u32;
    for _ in 0..1000 {
        let mut encoded = Vec::from(SHARED_MAGIC);
        encoded.extend_from_slice(&128u64.to_le_bytes());
        encoded.extend_from_slice(&1u32.to_le_bytes());
        encoded.extend_from_slice(&64u64.to_le_bytes());
        encoded.extend_from_slice(&0u64.to_le_bytes());
        encoded.extend_from_slice(&0u64.to_le_bytes());
        encoded.extend_from_slice(&32u16.to_le_bytes());
        encoded.extend_from_slice(&[1, 1]);
        for _ in 0..160 {
            seed ^= seed << 13;
            seed ^= seed >> 17;
            seed ^= seed << 5;
            encoded.push(seed as u8);
        }
        let mut state = SharedContext::default();
        if decode_shared_with_progress(&encoded, &mut state, &mut watch(|_, _| true)).is_err() {
            assert_eq!(state.files, 0);
            assert!(state.dictionary.values.is_empty());
        }
    }
}

#[test]
fn truncated_or_overlapping_model_is_rejected() {
    let encoded = encode(&movie_fixture()).unwrap();
    for len in [0, 27, 28, 39, encoded.len() / 2, encoded.len() - 1] {
        assert!(decode(&encoded[..len]).is_err());
    }
    let mut overlap = encoded.clone();
    let first_offset = overlap[28..36].to_vec();
    overlap[40..48].copy_from_slice(&first_offset);
    assert!(decode(&overlap).is_err());
    let mut too_many = encoded;
    too_many[16..20].copy_from_slice(&u32::MAX.to_le_bytes());
    assert!(decode(&too_many).is_err());
}

#[test]
fn cancellation_inside_encode_and_decode() {
    let raw = movie_fixture();
    let mut calls = 0;
    assert!(encode_with_progress(&raw, &mut watch(|_, _| {
        calls += 1;
        calls < 2
    }))
    .unwrap_err()
    .contains("error.cancelled"));
    let encoded = encode(&raw).unwrap();
    calls = 0;
    assert!(decode_with_progress(&encoded, &mut watch(|_, _| {
        calls += 1;
        calls < 2
    }))
    .unwrap_err()
    .contains("error.cancelled"));
}

#[test]
fn cancellation_during_mdat_scan_reaches_model_caller() {
    let mut raw = vec![0; 1024 * 1024];
    let len = raw.len() as u32;
    raw[..4].copy_from_slice(&len.to_be_bytes());
    raw[4..8].copy_from_slice(b"mdat");
    let mut calls = 0;
    let error = encode_with_progress(&raw, &mut watch(|_, _| {
        calls += 1;
        calls != 5
    }))
    .unwrap_err();
    assert_eq!(error, "error.cancelled");
    assert_eq!(calls, 5);
}

#[test]
fn short_range_is_rejected_before_descriptors_or_output_allocation() {
    for shared in [false, true] {
        for range_len in 0u64..5 {
            let mut encoded = Vec::from(if shared { SHARED_MAGIC } else { MAGIC });
            encoded.extend_from_slice(&(LIMIT as u64).to_le_bytes());
            encoded.extend_from_slice(&1u32.to_le_bytes());
            encoded.extend_from_slice(&range_len.to_le_bytes());
            if shared {
                encoded.extend_from_slice(&0u64.to_le_bytes());
            }
            encoded.extend_from_slice(&[0; 12]);
            encoded.resize(encoded.len() + range_len as usize, 0);
            let mut state = SharedContext::default();
            let error = if shared {
                decode_shared_with_progress(&encoded, &mut state, &mut watch(|_, _| true))
            } else {
                decode(&encoded)
            }
            .unwrap_err();
            assert_eq!(error, "truncated ProRes model range stream");
            assert_eq!(state.files, 0);
            assert!(state.dictionary.values.is_empty());
        }
    }
}

#[test]
fn random_range_payloads_do_not_panic() {
    let mut seed = 137u32;
    for _ in 0..2000 {
        let mut encoded = Vec::from(MAGIC);
        encoded.extend_from_slice(&128u64.to_le_bytes());
        encoded.extend_from_slice(&1u32.to_le_bytes());
        encoded.extend_from_slice(&64u64.to_le_bytes());
        encoded.extend_from_slice(&0u64.to_le_bytes());
        encoded.extend_from_slice(&32u16.to_le_bytes());
        encoded.extend_from_slice(&[1, 1]);
        for _ in 0..160 {
            seed ^= seed << 13;
            seed ^= seed >> 17;
            seed ^= seed << 5;
            encoded.push(seed as u8);
        }
        let _ = decode(&encoded);
    }
}
#[test]
fn arithmetic_round_trip_including_extreme_probabilities() {
    let mut coder = Coder { slots: vec![2048; CONTEXTS], enc: Enc::new() };
    let mut bits = Vec::new();
    let mut seed = 23u32;
    for i in 0..100_000 {
        seed ^= seed << 13;
        seed ^= seed >> 17;
        seed ^= seed << 5;
        let bit = match i / 25000 {
            0 => false,
            1 => true,
            2 => i % 101 == 0,
            _ => seed & 1 != 0,
        };
        bits.push(bit);
        coder.bit(i % 37, bit);
    }
    let encoded = coder.enc.finish();
    let mut decoder = Decoder { slots: vec![2048; CONTEXTS], dec: Dec::new(&encoded) };
    for (i, bit) in bits.into_iter().enumerate() {
        assert_eq!(decoder.bit(i % 37).unwrap(), bit);
    }
}
#[test]
fn rejects_invalid_input_and_honors_cancel() {
    assert!(encode(b"bad MOV").is_err());
    assert!(decode(b"bad model").is_err());
    assert!(encode_with_cancel(&[], &mut ask(|| true))
        .unwrap_err()
        .contains("error.cancelled"));
    let mut data = Vec::from(MAGIC);
    data.extend_from_slice(&u64::MAX.to_le_bytes());
    data.extend_from_slice(&1u32.to_le_bytes());
    data.extend_from_slice(&5u64.to_le_bytes());
    assert!(decode(&data).is_err());
}
