use spack::monitor::Monitor;
use spack::mov_motion_entropy::{decode, encode};

struct Ask<F> {
    answer: F,
    refused: bool,
}

fn ask<F: FnMut() -> bool>(answer: F) -> Ask<F> {
    Ask { answer, refused: false }
}

impl<F: FnMut() -> bool> Monitor for Ask<F> {
    /// Contracts alone speak of it.
    fn stopped(&self) -> bool {
        unreachable!()
    }

    /// Contracts alone speak of it.
    fn told(&self, _done: u64, _total: u64, _go: bool, _after: &Self) -> bool {
        unreachable!()
    }

    fn report(&mut self, _done: u64, _total: u64) -> bool {
        self.refused = (self.answer)();
        !self.refused
    }

    fn halted(&self) -> bool {
        self.refused
    }
}

#[test]
fn dynamic_shapes_and_extreme_coefficients_round_trip() {
    for shape in [[1, 1, 1], [3, 2, 3], [4, 1, 5]] {
        let n = shape.iter().product::<usize>() * 3 * 64;
        let mut a = vec![0i16; n];
        for (i, v) in a.iter_mut().enumerate() {
            if i % 5 == 0 {
                *v = (i as i16).wrapping_mul(797);
            }
        }
        a[0] = i16::MIN;
        a[1] = i16::MAX;
        let modes = (0..n / 192).map(|i| (i % 3) as u8).collect::<Vec<_>>();
        let encoded = encode(&a, shape, &modes, &mut ask(|| false)).unwrap();
        assert_eq!(decode(&encoded, shape, &modes, &mut ask(|| false)).unwrap(), a);
        for len in [0, 4, encoded.len() - 1] {
            assert!(decode(&encoded[..len], shape, &modes, &mut ask(|| false)).is_err());
        }
        let mut extra = encoded;
        extra.push(0);
        assert!(decode(&extra, shape, &modes, &mut ask(|| false)).is_err());
    }
}

#[test]
fn validates_dimensions_modes_and_cancellation() {
    assert!(encode(&[], [usize::MAX, 2, 2], &[], &mut ask(|| false)).is_err());
    assert!(encode(&[0; 192], [1, 1, 1], &[3], &mut ask(|| false)).is_err());
    assert_eq!(
        encode(&[0; 192], [1, 1, 1], &[0], &mut ask(|| true)).unwrap_err(),
        "error.cancelled"
    );
    assert!(decode(&[0; 5], [0, 1, 1], &[], &mut ask(|| false)).is_err());
}

#[test]
fn malformed_streams_do_not_panic() {
    let mut state = 21u32;
    for n in 5..128 {
        let mut b = vec![0; n];
        for v in b.iter_mut().skip(1) {
            state ^= state << 13;
            state ^= state >> 17;
            state ^= state << 5;
            *v = state as u8;
        }
        let _ = decode(&b, [2, 1, 2], &[0; 4], &mut ask(|| false));
    }
}

#[test]
fn entropy_errors_name_their_cause() {
    let mut go = ask(|| false);
    assert_eq!(
        encode(&[], [0, 1, 1], &[], &mut go).unwrap_err(),
        "invalid MOV motion dimensions"
    );
    assert_eq!(
        encode(&[], [usize::MAX, 2, 2], &[], &mut go).unwrap_err(),
        "MOV motion size overflow"
    );
    assert_eq!(
        encode(&[0; 192], [1, 1, 1], &[], &mut go).unwrap_err(),
        "invalid MOV motion modes or coefficient limit"
    );
    assert_eq!(
        encode(&[0; 191], [1, 1, 1], &[0], &mut go).unwrap_err(),
        "MOV motion coefficient length mismatch"
    );
    assert_eq!(
        decode(&[0; 4], [1, 1, 1], &[0], &mut go).unwrap_err(),
        "truncated ProRes model range stream"
    );
    let mut long = encode(&[0; 192], [1, 1, 1], &[0], &mut go).unwrap();
    long.push(0);
    assert_eq!(
        decode(&long, [1, 1, 1], &[0], &mut go).unwrap_err(),
        "trailing MOV motion entropy bytes"
    );
}
