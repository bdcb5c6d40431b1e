use spack::gif_film::mov_frames;
use spack::gif_predict::{decode, encode, HEADER, TOTAL};
use spack::gif_split::split;
use spack::monitor::{Monitor, Share};
use spack::plane::pack_plane;
use spack::wire::read_le64;

struct Watch<F> {
    answer: F,
    refused: bool,
}

fn watch<F: FnMut(u64, u64) -> bool>(answer: F) -> Watch<F> {
    Watch { answer, refused: false }
}

impl<F: FnMut(u64, u64) -> bool> Monitor for Watch<F> {
    /// Contracts alone speak of it.
    fn stopped(&self) -> bool {
        unreachable!()
    }

    /// Contracts alone speak of it.
    fn told(&self, _done: u64, _total: u64, _go: bool, _after: &Self) -> bool {
        unreachable!()
    }

    fn report(&mut self, done: u64, total: u64) -> bool {
        self.refused = !((self.answer)(done, total));
        !self.refused
    }

    fn halted(&self) -> bool {
        self.refused
    }
}

fn gif_fixture() -> Vec<u8> {
    let mut raw=b"GIF89a\x2c\x01\x2c\x01\x80\0\0\0\0\0\xff\xff\xff\x21\xf9\x04\x01\0\0\0\0\x2c\0\0\0\0\x2c\x01\x2c\x01\0\x02".to_vec();
    let mut bits = vec![0u8; (90_000 * 6 + 3_usize).div_ceil(8)];
    let mut at = 0;
    for code in (0..90_000).flat_map(|_| [4u8, 0]).chain([5]) {
        for bit in 0..3 {
            bits[at / 8] |= ((code >> bit) & 1) << (at % 8);
            at += 1;
        }
    }
    for block in bits.chunks(255) {
        raw.push(block.len() as u8);
        raw.extend_from_slice(block)
    }
    raw.extend_from_slice(&[0, 0x3b, 0xaa]);
    raw
}
fn mov_fixture() -> Vec<u8> {
    let mut picture = vec![0u8; 8 + 630 * 2];
    picture[0] = 8 << 3;
    picture[5..7].copy_from_slice(&630u16.to_be_bytes());
    picture[7] = 0x30;
    let mut table = 0;
    for _ in 0..63 {
        for mbs in [8, 8, 8, 8, 8, 8, 8, 4, 2, 1] {
            let blocks = mbs * 4;
            let mut encoded = Vec::new();
            for ch in 0..3 {
                let mut c = vec![0i16; blocks * 64];
                if ch == 0 {
                    c[..blocks].fill(-3584)
                }
                let b = (1..256)
                    .find_map(|n| pack_plane(&c, blocks, n).ok())
                    .unwrap();
                encoded.push(b)
            }
            let mut slice = vec![8 << 3, 1];
            for b in &encoded {
                slice.extend_from_slice(&(b.len() as u16).to_be_bytes())
            }
            for b in encoded {
                slice.extend(b)
            }
            picture[8 + table * 2..10 + table * 2]
                .copy_from_slice(&(slice.len() as u16).to_be_bytes());
            picture.extend(slice);
            table += 1;
        }
    }
    let n = picture.len() as u32;
    picture[1..5].copy_from_slice(&n.to_be_bytes());
    let mut frame = vec![0u8; 28];
    frame[4..8].copy_from_slice(b"icpf");
    frame[8..10].copy_from_slice(&20u16.to_be_bytes());
    frame[16..18].copy_from_slice(&1000u16.to_be_bytes());
    frame[18..20].copy_from_slice(&1000u16.to_be_bytes());
    frame[20] = 3 << 6;
    frame.extend(picture);
    let n = frame.len() as u32;
    frame[..4].copy_from_slice(&n.to_be_bytes());
    let mut mov = vec![];
    mov.extend_from_slice(&((frame.len() + 8) as u32).to_be_bytes());
    mov.extend_from_slice(b"mdat");
    mov.extend(frame);
    mov
}

#[test]
fn companion_round_trip_binding_bounds_and_cancellation() {
    let gif = gif_fixture();
    let mov = mov_fixture();
    let mut last = 0;
    let record = encode(&gif, &mov, &mut watch(|done, total| {
        assert!(done >= last && done <= total);
        last = done;
        true
    }))
    .unwrap();
    assert_eq!(last, TOTAL);
    assert!(record.len() < gif.len() / 4);
    assert_eq!(decode(&record, &mov, &mut watch(|_, _| true)).unwrap(), gif);
    let mut wrong = mov.clone();
    wrong[20] ^= 1;
    assert!(decode(&record, &wrong, &mut watch(|_, _| true)).is_err());
    for end in [0, 7, HEADER - 1, HEADER, record.len() - 1] {
        assert!(decode(&record[..end], &mov, &mut watch(|_, _| true)).is_err())
    }
    for pos in [8, 16, 24, 32, 40, 48, 52, 56, 88, 120, 152, HEADER] {
        let mut bad = record.clone();
        bad[pos] ^= 255;
        assert!(decode(&bad, &mov, &mut watch(|_, _| true)).is_err())
    }
    let mut extra = record.clone();
    extra.push(0);
    assert!(decode(&extra, &mov, &mut watch(|_, _| true)).is_err());
    let n = read_le64(&extra, 40) + 1;
    extra[40..48].copy_from_slice(&n.to_le_bytes());
    let hash = blake3::hash(&extra[HEADER..]);
    extra[152..184].copy_from_slice(hash.as_bytes());
    assert!(decode(&extra, &mov, &mut watch(|_, _| true)).is_err());
    assert!(encode(&gif, &mov, &mut watch(|_, _| false)).is_err());
    assert!(decode(&record, &mov, &mut watch(|_, _| false)).is_err());
    let mut cancelled = false;
    assert!(encode(&gif, &mov, &mut watch(|done, _| {
        if done > 2000 && !cancelled {
            cancelled = true;
            false
        } else {
            true
        }
    }))
    .is_err());
    assert!(cancelled);
}

#[test]
fn malformed_side_inputs_are_bounded() {
    let sgif = spack::gif_exact::encode(&gif_fixture()).unwrap();
    let (side, _) = split(&sgif, true).unwrap();
    for n in 0..side.len().min(1024) {
        assert!(split(&side[..n], false).is_err())
    }
    let mut extra = side.clone();
    extra.push(0);
    assert!(split(&extra, false).is_err());
    for i in (0..side.len()).step_by(11) {
        let mut changed = side.clone();
        changed[i] ^= 255;
        let _ = split(&changed, false);
    }
}

fn whole() -> Share {
    Share { base: 0, span: TOTAL, whole: TOTAL }
}

#[test]
fn long_mdat_scan_observes_one_shot_cancellation() {
    let mut mov = vec![0u8; 2 << 20];
    let n = mov.len() as u32;
    mov[..4].copy_from_slice(&n.to_be_bytes());
    mov[4..8].copy_from_slice(b"mdat");
    let mut calls = 0;
    let result = mov_frames(&mov, &mut watch(|_, _| {
        calls += 1;
        calls != 5
    }), &whole());
    assert_eq!(result.err().as_deref(), Some("error.cancelled"));
    assert_eq!(calls, 5);

    let frame = mov_fixture();
    let mut padded = vec![0u8; 8 + (64 << 10) - 5];
    padded.extend_from_slice(&frame[8..]);
    let n = padded.len() as u32;
    padded[..4].copy_from_slice(&n.to_be_bytes());
    padded[4..8].copy_from_slice(b"mdat");
    assert_eq!(mov_frames(&padded, &mut watch(|_, _| true), &whole()).unwrap().len(), 1);
}
