use spack::alpha::{pack_alpha, unpack_alpha};
use spack::loose::{pack_plane, unpack_plane};
use spack::prores_bits::decode;
use spack::prores_frame::{frames, parse_head};

fn lcg(seed: &mut u64) -> u64 {
    *seed = seed
        .wrapping_mul(6364136223846793005)
        .wrapping_add(1442695040888963407);
    *seed >> 33
}

#[test]
fn coefficient_planes_round_trip() {
    let mut seed = 7;
    for blocks in [4usize, 8, 16, 32] {
        let mut c = vec![0i16; blocks * 64];
        for v in c.iter_mut() {
            if lcg(&mut seed) % 5 == 0 {
                *v = (lcg(&mut seed) % 81) as i16 - 40;
            }
        }
        let packed = pack_plane(&c, blocks);
        assert_eq!(unpack_plane(&packed, blocks).unwrap(), c);
    }
}

#[test]
fn alpha_round_trips_with_runs_and_jumps() {
    let mut seed = 11;
    let mut v = Vec::new();
    for _ in 0..3000 {
        let a = match lcg(&mut seed) % 4 {
            0 => 0,
            1 => 65535,
            _ => (lcg(&mut seed) % 256) as u16 * 257,
        };
        for _ in 0..(lcg(&mut seed) % 40) {
            v.push(a);
        }
    }
    v.truncate(2048);
    assert_eq!(unpack_alpha(&pack_alpha(&v), v.len()), v);
}

#[test]
fn malformed_frames_are_errors() {
    let mut seed = 3;
    for len in [0usize, 7, 28, 200, 4096] {
        let mut raw: Vec<u8> = (0..len).map(|_| lcg(&mut seed) as u8).collect();
        if len >= 8 {
            raw[4..8].copy_from_slice(b"icpf");
        }
        assert!(
            frames(&raw).is_empty()
                || frames(&raw)
                    .iter()
                    .all(|f| decode(&raw, f).is_ok() || decode(&raw, f).is_err())
        );
        assert!(parse_head(&raw, raw.len()).is_err() || len >= 28);
    }
}
