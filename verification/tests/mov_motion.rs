use spack::monitor::{Monitor, Share};
use spack::motion_pixels::{moved_block, FRAME, H, PIXELS, PLANE, W};
use spack::motion_scan::{geometry, scan, RAW_LIMIT};
use spack::motion_search::sad;
use spack::mov_motion::{
    decode_side, decode_with_cancel, decode_with_progress, encode_with_progress, Unfitted, HEADER,
    MAGIC,
};
use spack::plane::pack_plane;
use spack::transform::{dct, idct};

struct Ask<F> {
    answer: F,
    refused: bool,
}

fn ask<F: FnMut() -> bool>(answer: F) -> Ask<F> {
    Ask { answer, refused: false }
}

impl<F: FnMut() -> bool> Monitor for Ask<F> {
    /// Contracts alone speak of it.
    fn stopped(&self) -> bool {
        unreachable!()
    }

    /// Contracts alone speak of it.
    fn told(&self, _done: u64, _total: u64, _go: bool, _after: &Self) -> bool {
        unreachable!()
    }

    fn report(&mut self, _done: u64, _total: u64) -> bool {
        self.refused = (self.answer)();
        !self.refused
    }

    fn halted(&self) -> bool {
        self.refused
    }
}

struct Watch<F> {
    answer: F,
    refused: bool,
}

fn watch<F: FnMut(u64, u64) -> bool>(answer: F) -> Watch<F> {
    Watch { answer, refused: false }
}

impl<F: FnMut(u64, u64) -> bool> Monitor for Watch<F> {
    /// Contracts alone speak of it.
    fn stopped(&self) -> bool {
        unreachable!()
    }

    /// Contracts alone speak of it.
    fn told(&self, _done: u64, _total: u64, _go: bool, _after: &Self) -> bool {
        unreachable!()
    }

    fn report(&mut self, done: u64, total: u64) -> bool {
        self.refused = !((self.answer)(done, total));
        !self.refused
    }

    fn halted(&self) -> bool {
        self.refused
    }
}

fn synthetic_movie() -> Vec<u8> {
    let mut slices = Vec::new();
    for slice in 0..630 {
        let (_, _, blocks) = geometry(slice);
        let planes: Vec<Vec<u8>> = (0..3)
            .map(|ch| {
                let mut values = vec![0i16; blocks * 64];
                for (i, dc) in values[..blocks].iter_mut().enumerate() {
                    *dc = ((i * 19 + ch * 7) % 43) as i16 - 21;
                }
                values[blocks + ch] = 3 - ch as i16;
                let mut bytes = pack_plane(&values, blocks, 4096).unwrap();
                let used = bytes.iter().rposition(|&x| x != 0).unwrap() + 1;
                bytes.truncate(used);
                bytes
            })
            .collect();
        let mut bytes = vec![0x40, 1];
        for plane in &planes {
            bytes.extend_from_slice(&(plane.len() as u16).to_be_bytes());
        }
        for plane in planes {
            bytes.extend_from_slice(&plane);
        }
        slices.push(bytes);
    }
    let picture_len = 8 + 630 * 2 + slices.iter().map(Vec::len).sum::<usize>();
    let mut frame = vec![0u8; 92];
    frame[..4].copy_from_slice(&((92 + picture_len) as u32).to_be_bytes());
    frame[4..8].copy_from_slice(b"icpf");
    frame[8..10].copy_from_slice(&84u16.to_be_bytes());
    frame[16..18].copy_from_slice(&1000u16.to_be_bytes());
    frame[18..20].copy_from_slice(&1000u16.to_be_bytes());
    frame[20] = 0xc0;
    frame[27] = 2;
    frame[28..92].fill(8);
    frame.push(0x40);
    frame.extend_from_slice(&(picture_len as u32).to_be_bytes());
    frame.extend_from_slice(&630u16.to_be_bytes());
    frame.push(0x30);
    for slice in &slices {
        frame.extend_from_slice(&(slice.len() as u16).to_be_bytes());
    }
    for slice in slices {
        frame.extend_from_slice(&slice);
    }
    let mut raw = ((frame.len() * 2 + 8) as u32).to_be_bytes().to_vec();
    raw.extend_from_slice(b"mdat");
    raw.extend_from_slice(&frame);
    raw.extend_from_slice(&frame);
    raw
}

#[test]
fn complete_movie_round_trip_and_scan_cancel() {
    let raw = synthetic_movie();
    let (quant, _) = scan(&raw, &mut watch(|_, _| true)).unwrap();
    assert_eq!(quant, vec![[[8u8; 64]; 3]; 2]);
    let mut calls = 0;
    assert_eq!(
        encode_with_progress(&raw, &mut Unfitted, &mut watch(|_, _| {
            calls += 1;
            calls != 5
        }))
        .unwrap_err(),
        "error.cancelled"
    );
    assert_eq!(calls, 5);
    let encoded = encode_with_progress(&raw, &mut Unfitted, &mut watch(|_, _| true)).unwrap();
    assert_eq!(decode_with_cancel(&encoded, &mut ask(|| false)).unwrap(), raw);
    assert_eq!(
        decode_with_cancel(&encoded, &mut ask(|| true)).unwrap_err(),
        "error.cancelled"
    );
}

fn share() -> Share {
    Share { base: 0, span: 1_000_000, whole: 1_000_000 }
}

#[test]
fn side_requires_exact_length_and_single_zstd_frame() {
    let compressed = zstd::bulk::compress(b"side", 1).unwrap();
    assert_eq!(
        decode_side(&compressed, 4, &mut watch(|_, _| true), &share()).unwrap(),
        b"side"
    );
    for expected in [3, 5] {
        assert!(decode_side(&compressed, expected, &mut watch(|_, _| true), &share()).is_err());
    }
    let tails = [
        zstd::bulk::compress(b"", 1).unwrap(),
        vec![0x50, 0x2a, 0x4d, 0x18, 0, 0, 0, 0],
        vec![0],
    ];
    for tail in tails {
        let mut invalid = compressed.clone();
        invalid.extend_from_slice(&tail);
        assert_eq!(
            decode_side(&invalid, 4, &mut watch(|_, _| true), &share()).unwrap_err(),
            "Trailing MOV motion side bytes"
        );
    }
}

#[test]
fn integer_sad_matches_bilinear_path_at_edges_and_limits() {
    let current: Vec<i32> = (0..FRAME)
        .map(|i| ((i * 31 % 131071) as i32 - 65535) * 256)
        .collect();
    let previous: Vec<i32> = (0..FRAME)
        .map(|i| ((i * 13 % 65537) as i32 - 32768) * 256)
        .collect();
    for (by, bx) in [
        (0, 0),
        (0, W - 1),
        (H - 1, 0),
        (H - 1, W - 1),
        (H / 2, W / 2),
    ] {
        for dy in -4..=4 {
            for dx in -4..=4 {
                for limit in [0, 1, 100_000_000, u64::MAX] {
                    let mut expected = 0;
                    'channels: for ch in 0..3 {
                        let block = moved_block(&previous, ch, by, bx, dy * 4, dx * 4);
                        for y in 0..8 {
                            let at = ch * PLANE + (by * 8 + y) * PIXELS + bx * 8;
                            for x in 0..8 {
                                expected += (current[at + x] as i64 - block[y * 8 + x] as i64)
                                    .unsigned_abs();
                            }
                            if expected >= limit {
                                break 'channels;
                            }
                        }
                    }
                    assert_eq!(
                        sad(&current, &previous, by, bx, dy * 4, dx * 4, limit),
                        expected
                    );
                }
            }
        }
    }
}

#[test]
fn fixed_transform_rounding_and_extremes() {
    for value in [i16::MIN, -3584, -1, 0, 1, 3426, i16::MAX] {
        let mut c = [0i16; 64];
        c[0] = value;
        let q = [255u8; 64];
        let pixels = idct(&c, &q);
        assert!(pixels.iter().all(|&v| v == pixels[0]));
        let recovered = dct(&pixels, &q);
        assert!((recovered[0] as i32 - value as i32).abs() <= 2);
    }
    for sign in [-1i16, 1] {
        let c = [sign * 32767; 64];
        let q = [255; 64];
        let pixels = idct(&c, &q);
        let _ = dct(&pixels, &q);
    }
}
#[test]
fn negative_quarter_vectors_use_floor_coordinates() {
    let mut pixels = vec![0i32; FRAME];
    for y in 0..PIXELS {
        for x in 0..PIXELS {
            pixels[y * PIXELS + x] = (x * 256) as i32;
        }
    }
    let block = moved_block(&pixels, 0, 0, 1, 0, -1);
    assert_eq!(block[0], 7 * 256 + 192);
    let edge = moved_block(&pixels, 0, 0, 0, -1, -1);
    assert_eq!(edge[0], 0);
}
#[test]
fn unsupported_and_cancelled_inputs_are_errors() {
    assert!(encode_with_progress(b"unsupported", &mut Unfitted, &mut watch(|_, _| true)).is_err());
    assert_eq!(
        encode_with_progress(b"unsupported", &mut Unfitted, &mut watch(|_, _| false)).unwrap_err(),
        "error.cancelled"
    );
    assert!(decode_with_progress(b"bad", &mut watch(|_, _| true)).is_err());
}
#[test]
fn short_entropy_rejected_before_allocations() {
    for n in 0u64..5 {
        let mut b = vec![0u8; HEADER];
        b[..8].copy_from_slice(&MAGIC);
        b[8..16].copy_from_slice(&(RAW_LIMIT as u64).to_le_bytes());
        b[16..20].copy_from_slice(&1u32.to_le_bytes());
        b[20..24].copy_from_slice(&1u32.to_le_bytes());
        b[24..32].copy_from_slice(&n.to_le_bytes());
        assert_eq!(
            decode_with_progress(&b, &mut watch(|_, _| true)).unwrap_err(),
            "Invalid MOV motion limits"
        );
    }
}

#[test]
fn broken_sides_are_reported_as_far_as_they_go() {
    let mut seed = 11u64;
    let plain: Vec<u8> = (0..200_000)
        .map(|_| {
            seed = seed.wrapping_mul(6364136223846793005).wrapping_add(1442695040888963407);
            (seed >> 56) as u8
        })
        .collect();
    let mut packed = zstd::bulk::compress(&plain, 12).unwrap();
    packed.truncate(packed.len() / 2);
    let share = Share { base: 0, span: 1_000_000, whole: 1_000_000 };
    let mut seen = Vec::new();
    let broken = decode_side(&packed, plain.len(), &mut watch(|done, total| {
        seen.push((done, total));
        true
    }), &share);
    assert_ne!(broken.unwrap_err(), "error.cancelled");
    assert_eq!(seen, [(40_000, 1_000_000); 2]);
    let mut count = 0;
    let stopped = decode_side(&packed, plain.len(), &mut watch(|_, _| {
        count += 1;
        count < 2
    }), &share);
    assert_eq!(stopped.unwrap_err(), "error.cancelled");
}
