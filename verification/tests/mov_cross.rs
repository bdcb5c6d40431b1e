use spack::monitor::Monitor;
use spack::mov_cross::{decode, encode, Slopes, MAGIC, SCAN};

struct Ask<F> {
    answer: F,
    refused: bool,
}

fn ask<F: FnMut() -> bool>(answer: F) -> Ask<F> {
    Ask { answer, refused: false }
}

impl<F: FnMut() -> bool> Monitor for Ask<F> {
    /// Contracts alone speak of it.
    fn stopped(&self) -> bool {
        unreachable!()
    }

    /// Contracts alone speak of it.
    fn told(&self, _done: u64, _total: u64, _go: bool, _after: &Self) -> bool {
        unreachable!()
    }

    fn report(&mut self, _done: u64, _total: u64) -> bool {
        self.refused = (self.answer)();
        !self.refused
    }

    fn halted(&self) -> bool {
        self.refused
    }
}

fn slope(numerator: f64, denominator: f64) -> i16 {
    if !numerator.is_finite() || !denominator.is_finite() || denominator <= 0.0 {
        0
    } else {
        (32.0 * numerator / denominator).round().clamp(-256.0, 256.0) as i16
    }
}

/// Fits the slopes of every block by least squares.
fn fit(values: &[i16], shape: [usize; 3], quant: &[[[u8; 64]; 3]]) -> Vec<Slopes> {
    let blocks = shape[1] * shape[2];
    let plane = blocks * 64;
    let mut all = Vec::new();
    for (f, frame_quant) in quant.iter().enumerate() {
        for ch in 0..3 {
            for block in 0..blocks {
                let y_at = f * 3 * plane + block * 64;
                let u_at = y_at + plane;
                let at = y_at + ch * plane;
                let (mut xx, mut uu, mut xu, mut xv, mut uv) = (0.0, 0.0, 0.0, 0.0, 0.0);
                for k in 1..64 {
                    let natural = SCAN[k];
                    let q = f64::from(frame_quant[ch][natural]);
                    let x = f64::from(values[y_at + k]) * f64::from(frame_quant[0][natural]) / q;
                    let u = f64::from(values[u_at + k]) * f64::from(frame_quant[1][natural]) / q;
                    let v = f64::from(values[at + k]);
                    xx += x * x;
                    uu += u * u;
                    xu += x * u;
                    xv += x * v;
                    uv += u * v;
                }
                let det = xx * uu - xu * xu;
                let joint = if det > 1.0 {
                    (slope(xv * uu - uv * xu, det), slope(uv * xx - xv * xu, det))
                } else {
                    (0, 0)
                };
                all.push(Slopes {
                    luma: slope(xv, xx),
                    chroma: slope(uv, uu),
                    joint_luma: joint.0,
                    joint_chroma: joint.1,
                });
            }
        }
    }
    all
}

fn sample() -> (Vec<i16>, [usize; 3], Vec<[[u8; 64]; 3]>) {
    let shape = [2, 2, 3];
    let plane = shape[1] * shape[2] * 64;
    let mut v = vec![0i16; shape[0] * 3 * plane];
    for f in 0..shape[0] {
        for i in 0..plane {
            let y = ((i * 37 + f * 11) % 257) as i16 - 128;
            v[f * 3 * plane + i] = y * 4;
            v[f * 3 * plane + plane + i] = y * 2;
            v[f * 3 * plane + 2 * plane + i] = -y;
        }
    }
    (v, shape, vec![[[4; 64]; 3]; shape[0]])
}

#[test]
fn correlated_channels_round_trip_and_reduce_magnitudes() {
    let (a, shape, q) = sample();
    let slopes = fit(&a, shape, &q);
    let (c, side) = encode(&a, shape, &q, &slopes, &mut ask(|| false)).unwrap();
    assert!(c.iter().filter(|&&v| v != 0).count() < a.iter().filter(|&&v| v != 0).count());
    assert_eq!(decode(c, &side, shape, &q, &mut ask(|| false)).unwrap(), a);
}

#[test]
fn quantization_alignment_and_extreme_values_round_trip() {
    let (mut a, shape, mut q) = sample();
    for (i, v) in a.iter_mut().enumerate() {
        if i % 17 == 0 {
            *v = i16::MIN;
        }
        if i % 19 == 0 {
            *v = i16::MAX;
        }
    }
    for f in &mut q {
        for (ch, p) in f.iter_mut().enumerate() {
            for (k, v) in p.iter_mut().enumerate() {
                *v = (1 + (k * 11 + ch * 31) % 255) as u8;
            }
        }
    }
    let slopes = fit(&a, shape, &q);
    let (c, s) = encode(&a, shape, &q, &slopes, &mut ask(|| false)).unwrap();
    assert_eq!(decode(c, &s, shape, &q, &mut ask(|| false)).unwrap(), a);
}

#[test]
fn rejects_bad_shapes_streams_parameters_and_cancellation() {
    let (a, shape, q) = sample();
    let slopes = fit(&a, shape, &q);
    assert!(encode(&a, [usize::MAX, 1, 1], &q, &slopes, &mut ask(|| false)).is_err());
    assert_eq!(
        encode(&a, shape, &q, &slopes, &mut ask(|| true)).unwrap_err(),
        "error.cancelled"
    );
    let (c, side) = encode(&a, shape, &q, &slopes, &mut ask(|| false)).unwrap();
    assert!(decode(c.clone(), &side[..8], shape, &q, &mut ask(|| false)).is_err());
    let count = a.len() / 64;
    let mut raw = zstd::bulk::decompress(&side[8..], count * 5).unwrap();
    raw[0] = 4;
    let mut bad = Vec::from(MAGIC);
    bad.extend_from_slice(&zstd::bulk::compress(&raw, 1).unwrap());
    assert!(decode(c, &bad, shape, &q, &mut ask(|| false)).is_err());
}

#[test]
fn rejects_concatenated_empty_and_skippable_zstd_frames() {
    let values = vec![0i16; 192];
    let shape = [1, 1, 1];
    let q = [[[4u8; 64]; 3]];
    let slopes = fit(&values, shape, &q);
    let (coded, side) = encode(&values, shape, &q, &slopes, &mut ask(|| false)).unwrap();
    let mut empty = side.clone();
    empty.extend_from_slice(&zstd::bulk::compress(&[], 1).unwrap());
    assert!(decode(coded.clone(), &empty, shape, &q, &mut ask(|| false)).is_err());
    let mut skipped = side;
    skipped.extend_from_slice(&0x184d2a50u32.to_le_bytes());
    skipped.extend_from_slice(&4u32.to_le_bytes());
    skipped.extend_from_slice(b"junk");
    assert!(decode(coded, &skipped, shape, &q, &mut ask(|| false)).is_err());
}

#[test]
fn cross_channel_errors_name_their_cause() {
    let (a, shape, q) = sample();
    let slopes = fit(&a, shape, &q);
    let mut go = ask(|| false);
    let fail = |values: &[i16], shape, q: &[[[u8; 64]; 3]], s: &[Slopes]| {
        encode(values, shape, q, s, &mut ask(|| false)).unwrap_err()
    };
    assert_eq!(
        fail(&a, [0, 2, 3], &q, &slopes),
        "invalid MOV cross-channel dimensions"
    );
    assert_eq!(
        fail(&a, [2, usize::MAX, 3], &q, &slopes),
        "MOV cross-channel size overflow"
    );
    let mut zero = q.clone();
    zero[1][2][63] = 0;
    assert_eq!(
        fail(&a, shape, &zero, &slopes),
        "invalid MOV cross-channel coefficients or quantization"
    );
    assert_eq!(
        fail(&a, shape, &q, &slopes[1..]),
        "invalid MOV cross-channel slopes"
    );
    let (c, side) = encode(&a, shape, &q, &slopes, &mut go).unwrap();
    assert_eq!(
        decode(c.clone(), &side[..8], shape, &q, &mut go).unwrap_err(),
        "invalid MOV cross-channel parameter stream"
    );
    let mut broken = side.clone();
    broken[8] ^= 255;
    let text = decode(c.clone(), &broken, shape, &q, &mut go).unwrap_err();
    assert!(text.starts_with("{\"code\":\"codec.mov_cross_channel_parameters\",\"args\":[\""));
    let mut short = Vec::from(MAGIC);
    short.extend_from_slice(&zstd::bulk::compress(&[0; 9], 1).unwrap());
    assert_eq!(
        decode(c.clone(), &short, shape, &q, &mut go).unwrap_err(),
        "MOV cross-channel parameter length mismatch"
    );
    let mut long = side;
    long.push(0);
    assert_eq!(
        decode(c, &long, shape, &q, &mut go).unwrap_err(),
        "trailing MOV cross-channel parameter bytes"
    );
}

#[test]
fn stored_parameters_are_compressed() {
    let (a, shape, q) = sample();
    let slopes = fit(&a, shape, &q);
    let (_, side) = encode(&a, shape, &q, &slopes, &mut ask(|| false)).unwrap();
    assert_eq!(side[..8], MAGIC);
    let raw = zstd::bulk::decompress(&side[8..], 1 << 16).unwrap();
    assert_eq!(raw.len(), a.len() / 64 * 5);
    assert!(raw[..a.len() / 64].iter().any(|&mode| mode == 2));
}
