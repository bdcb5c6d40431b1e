use spack::monitor::Unwatched;
use spack::mov_source::encode;
use spack::prores_bits::{Decoded, Planes as Levels};
use spack::prores_frame::{Contents, Frame};
use spack::source_decode::decode;
use spack::source_frames::{Bytes, Expectation, Expected, Painter};
use spack::source_planes::{Image, Planes};
use spack::source_pool::Pool;
use spack::source_record::MAGIC;

/// Paints every frame black and expects nothing of it.
struct Plain;

impl Painter for Plain {
    /// Contracts alone speak of it.
    fn paints(&self, _d: Levels, _frame: Contents, _colours: Bytes, _after: &Self) -> bool {
        unreachable!()
    }

    /// Contracts alone speak of it.
    fn expects(&self, _p: Image, _frame: Contents, _qmb: Bytes, _e: Expectation, _after: &Self) -> bool {
        unreachable!()
    }

    fn paint(&mut self, d: &Decoded, _frame: &Frame) -> Vec<u8> {
        vec![0; 3 * d.wp * d.hp]
    }

    fn expect(&mut self, picture: &Planes, _frame: &Frame, _qmb: &[u8]) -> Expected {
        let n = 3 * picture.w * picture.h;
        Expected { levels: vec![0; n], strength: vec![0; n], negative: vec![false; n] }
    }
}

#[test]
fn non_prores_input_is_rejected() {
    let raw = vec![0u8; 4096];
    assert!(encode(&raw, &Pool::default(), false, &mut Plain, &mut Unwatched).is_err());
}

#[test]
fn malformed_records_are_errors_not_panics() {
    let mut seed = 5u64;
    let mut next = || {
        seed = seed.wrapping_mul(6364136223846793005).wrapping_add(1);
        (seed >> 33) as u8
    };
    for len in [0usize, 8, 12, 64, 1000] {
        let mut data: Vec<u8> = (0..len).map(|_| next()).collect();
        if len >= 12 {
            data[..8].copy_from_slice(&MAGIC);
            data[8..12].copy_from_slice(&3u32.to_le_bytes());
        }
        assert!(decode(&data, &Pool::default(), true, &mut Plain, &mut Unwatched).is_err());
    }
    let mut data = MAGIC.to_vec();
    data.extend_from_slice(&1u32.to_le_bytes());
    for _ in 0..7 {
        data.extend_from_slice(&0u64.to_le_bytes());
    }
    assert!(decode(&data, &Pool::default(), true, &mut Plain, &mut Unwatched).is_err());
}
