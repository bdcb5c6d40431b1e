use spack::gif_model::{
    decode, decode_transform, decode_with_progress, encode, encode_transformed_with_progress, CHUNK,
    HEADER,
};
use spack::monitor::Monitor;

struct Watch<F> {
    answer: F,
    refused: bool,
}

fn watch<F: FnMut(u64, u64) -> bool>(answer: F) -> Watch<F> {
    Watch { answer, refused: false }
}

impl<F: FnMut(u64, u64) -> bool> Monitor for Watch<F> {
    /// Contracts alone speak of it.
    fn stopped(&self) -> bool {
        unreachable!()
    }

    /// Contracts alone speak of it.
    fn told(&self, _done: u64, _total: u64, _go: bool, _after: &Self) -> bool {
        unreachable!()
    }

    fn report(&mut self, done: u64, total: u64) -> bool {
        self.refused = !((self.answer)(done, total));
        !self.refused
    }

    fn halted(&self) -> bool {
        self.refused
    }
}

fn fixture() -> Vec<u8> {
    b"GIF89a\x02\0\x02\0\x80\0\0\0\0\0\xff\xff\xff\x2c\0\0\0\0\x02\0\x02\0\0\x02\x03\x44\x10\x05\0\x3b".to_vec()
}

#[test]
fn gif_model_preserves_original_bytes() {
    let original = fixture();
    let encoded = encode(&original).unwrap();
    assert_eq!(decode(&encoded).unwrap(), original);
}

#[test]
fn malformed_and_truncated_models_fail_before_publication() {
    let encoded = encode(&fixture()).unwrap();
    for end in 0..encoded.len() {
        assert!(decode(&encoded[..end]).is_err());
    }
    for pos in [8, 16, 17, 18, 20, 28, 60, HEADER] {
        let mut changed = encoded.clone();
        changed[pos] ^= 255;
        assert!(decode(&changed).is_err());
    }
    let mut extra = encoded.clone();
    extra.push(0);
    assert!(decode(&extra).is_err());
}

#[test]
fn checksummed_extra_coded_bytes_are_not_silently_accepted() {
    let mut encoded = encode(&fixture()).unwrap();
    encoded.extend_from_slice(&[0; 8]);
    let length = (encoded.len() - HEADER) as u64;
    encoded[20..28].copy_from_slice(&length.to_le_bytes());
    let hash = blake3::hash(&encoded[HEADER..]);
    encoded[60..92].copy_from_slice(hash.as_bytes());
    assert!(decode(&encoded).is_err());
}

#[test]
fn progress_is_bounded_and_cancellable() {
    let sgif = spack::gif_exact::encode(&fixture()).unwrap();
    assert!(encode_transformed_with_progress(&sgif, &mut watch(|_, _| false)).is_err());
    let mut last = 0;
    let model = encode_transformed_with_progress(&sgif, &mut watch(|done, total| {
        assert!(done >= last && done <= total);
        last = done;
        true
    }))
    .unwrap();
    assert_eq!(last, sgif.len() as u64 * 2);
    assert!(decode_with_progress(&model, &mut watch(|_, _| false)).is_err());
    assert_eq!(
        decode_with_progress(&model, &mut watch(|_, _| true)).unwrap(),
        fixture()
    );
}

#[test]
fn long_forms_are_reported_in_chunks() {
    let mut original = fixture();
    original.pop();
    original.extend_from_slice(b"\x21\xfe");
    for k in 0..600usize {
        original.push(255);
        original.extend((0..255usize).map(|i| (i * 7 + k) as u8));
    }
    original.extend_from_slice(b"\0\x3b");
    let sgif = spack::gif_exact::encode(&original).unwrap();
    let n = sgif.len() as u64;
    assert!(n > 2 * CHUNK && n <= 3 * CHUNK);
    let encoded = encode(&original).unwrap();
    let mut seen = Vec::new();
    let mut all = watch(|done, total| {
        seen.push((done, total));
        true
    });
    assert_eq!(decode_transform(&encoded, &mut all).unwrap(), sgif);
    assert_eq!(seen, [(0, n), (CHUNK, n), (2 * CHUNK, n), (n, n)]);
    let mut some = watch(|done, _| done < CHUNK);
    assert_eq!(decode_transform(&encoded, &mut some).unwrap_err(), "error.cancelled");
}

#[test]
fn broken_streams_are_reported_as_far_as_they_go() {
    let mut original = fixture();
    original.pop();
    original.extend_from_slice(b"\x21\xfe");
    let mut seed = 7u64;
    for _ in 0..600usize {
        original.push(255);
        original.extend((0..255usize).map(|_| {
            seed = seed.wrapping_mul(6364136223846793005).wrapping_add(1442695040888963407);
            (seed >> 56) as u8
        }));
    }
    original.extend_from_slice(b"\0\x3b");
    let encoded = encode(&original).unwrap();
    let n = u64::from_le_bytes(encoded[8..16].try_into().unwrap());
    assert!(n > 2 * CHUNK && n <= 3 * CHUNK);
    let half = HEADER + (encoded.len() - HEADER) / 2;
    for cut in [false, true] {
        let mut changed = encoded.clone();
        if cut {
            changed.truncate(half);
        } else {
            changed[half..].fill(255);
        }
        let length = (changed.len() - HEADER) as u64;
        changed[20..28].copy_from_slice(&length.to_le_bytes());
        let hash = blake3::hash(&changed[HEADER..]);
        changed[60..92].copy_from_slice(hash.as_bytes());
        let mut seen = Vec::new();
        let broken = decode_with_progress(&changed, &mut watch(|done, total| {
            seen.push((done, total));
            true
        }));
        assert_ne!(broken.unwrap_err(), "error.cancelled");
        assert_eq!(seen[..2], [(0, n), (CHUNK, n)]);
        assert!(seen.is_sorted());
        let stopped = decode_with_progress(&changed, &mut watch(|done, _| done < CHUNK));
        assert_eq!(stopped.unwrap_err(), "error.cancelled");
    }
}
