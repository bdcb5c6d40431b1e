use spack::codeword::{Bits, Writer};
use spack::monitor::Monitor;
use spack::mov_exact::{decode, encode, MAGIC};
use spack::plane::{pack_plane, unpack_plane};
use spack::scanning::{find_segments, find_segments_with_cancel};

struct Ask<F> {
    answer: F,
    refused: bool,
}

fn ask<F: FnMut() -> bool>(answer: F) -> Ask<F> {
    Ask { answer, refused: false }
}

impl<F: FnMut() -> bool> Monitor for Ask<F> {
    /// Contracts alone speak of it.
    fn stopped(&self) -> bool {
        unreachable!()
    }

    /// Contracts alone speak of it.
    fn told(&self, _done: u64, _total: u64, _go: bool, _after: &Self) -> bool {
        unreachable!()
    }

    fn report(&mut self, _done: u64, _total: u64) -> bool {
        self.refused = (self.answer)();
        !self.refused
    }

    fn halted(&self) -> bool {
        self.refused
    }
}

#[test]
fn cancellation_during_unrecognized_mdat_scan() {
    let mut raw = vec![0; 1024 * 1024];
    let len = raw.len() as u32;
    raw[..4].copy_from_slice(&len.to_be_bytes());
    raw[4..8].copy_from_slice(b"mdat");
    let mut calls = 0;
    let result = find_segments_with_cancel(&raw, &mut ask(|| {
        calls += 1;
        calls == 4
    }));
    assert_eq!(result.err().as_deref(), Some("error.cancelled"));
    assert_eq!(calls, 4);
}

#[test]
fn one_shot_cancellation_inside_slice_table_is_not_swallowed() {
    let count = 256usize;
    let picture_len = 8 + count * 12;
    let frame_len = 28 + picture_len;
    let mut frame = vec![0; 28];
    frame[..4].copy_from_slice(&(frame_len as u32).to_be_bytes());
    frame[4..8].copy_from_slice(b"icpf");
    frame[8..10].copy_from_slice(&20u16.to_be_bytes());
    frame[16..18].copy_from_slice(&128u16.to_be_bytes());
    frame[18..20].copy_from_slice(&4096u16.to_be_bytes());
    frame[20] = 0xc0;
    frame.push(0x40);
    frame.extend_from_slice(&(picture_len as u32).to_be_bytes());
    frame.extend_from_slice(&(count as u16).to_be_bytes());
    frame.push(0x30);
    for _ in 0..count {
        frame.extend_from_slice(&10u16.to_be_bytes());
    }
    for _ in 0..count {
        frame.extend_from_slice(&[0x40, 1, 0, 2, 0, 0, 0, 0, 0, 0]);
    }
    let mut raw = Vec::new();
    raw.extend_from_slice(&((frame.len() + 8) as u32).to_be_bytes());
    raw.extend_from_slice(b"mdat");
    raw.extend_from_slice(&frame);
    assert_eq!(find_segments(&raw).unwrap().len(), count);
    for cancel_at in [4, 5] {
        let mut calls = 0;
        let result = find_segments_with_cancel(&raw, &mut ask(|| {
            calls += 1;
            calls == cancel_at
        }));
        assert_eq!(result.err().as_deref(), Some("error.cancelled"));
        assert_eq!(calls, cancel_at);
    }
}

#[test]
fn every_search_asks_as_often_as_it_must() {
    for (len, expected) in [(8, 2), (16, 3), (16384 + 15, 3), (16384 + 16, 4), (1024 * 1024, 66)] {
        let mut raw = vec![0; len];
        raw[..4].copy_from_slice(&(len as u32).to_be_bytes());
        raw[4..8].copy_from_slice(b"mdat");
        let mut calls = 0;
        let result = find_segments_with_cancel(&raw, &mut ask(|| {
            calls += 1;
            false
        }));
        assert_eq!(result.err().as_deref(), Some("MOV has no supported ProRes frames"));
        assert_eq!(calls, expected, "{len}");
    }
}

#[test]
fn entropy_coefficients_round_trip() {
    for blocks in [1, 2, 4, 8, 16, 32] {
        let mut c = vec![0i16; blocks * 64];
        for (i, cell) in c.iter_mut().enumerate() {
            if i < blocks || i % 5 == 1 {
                *cell = ((i * 19) % 43) as i16 - 21;
            }
        }
        let b = pack_plane(&c, blocks, 6000).unwrap();
        let used = b.iter().rposition(|&x| x != 0).unwrap() + 1;
        let restored = unpack_plane(&b[..used], blocks).unwrap();
        assert_eq!(c, restored);
        assert_eq!(&b[..used], &pack_plane(&restored, blocks, used).unwrap());
    }
}
#[test]
fn rejects_invalid_input() {
    assert!(encode(b"not a movie").is_err());
    assert!(decode(b"not a transform").is_err());
    let mut b = Vec::from(MAGIC);
    b.extend_from_slice(&u64::MAX.to_le_bytes());
    b.extend_from_slice(&1u32.to_le_bytes());
    assert!(decode(&b).is_err());
}
#[test]
fn codewords_round_trip() {
    for book in [0xb8, 0x04, 0x28, 0x4d, 0x70, 0x06, 0x05, 0x29, 0x4c, 0x0a] {
        for value in 0..10000u32 {
            let mut writer = Writer {
                data: vec![0; 8],
                pos: 0,
            };
            writer.word(value, book).unwrap();
            let mut bits = Bits {
                data: &writer.data,
                pos: 0,
            };
            assert_eq!(value, bits.word(book).unwrap());
            assert_eq!(writer.pos, bits.pos);
        }
    }
}
#[test]
fn scattered_planes_preserve_container_and_reject_overlap() {
    let c = vec![0i16; 4 * 64];
    let plane = pack_plane(&c, 4, 32).unwrap();
    let mut expected = vec![0x77; 130];
    expected[5..37].copy_from_slice(&plane);
    expected[80..112].copy_from_slice(&plane);
    let mut transformed = Vec::from(MAGIC);
    transformed.extend_from_slice(&130u64.to_le_bytes());
    transformed.extend_from_slice(&2u32.to_le_bytes());
    for offset in [5u64, 80] {
        transformed.extend_from_slice(&offset.to_le_bytes());
        transformed.extend_from_slice(&32u32.to_le_bytes());
        transformed.extend_from_slice(&[4, 3, 0, 0]);
    }
    transformed.resize(transformed.len() + 1024, 0);
    transformed.extend_from_slice(&[0x77; 66]);
    assert_eq!(decode(&transformed).unwrap(), expected);
    assert!(decode(&transformed[..transformed.len() - 1]).is_err());
    transformed[36..44].copy_from_slice(&10u64.to_le_bytes());
    assert!(decode(&transformed).is_err());
}

#[test]
fn malformed_bytes_do_not_panic() {
    let mut state = 19u32;
    for len in 0..512 {
        let mut bytes = vec![0; len];
        for b in &mut bytes {
            state ^= state << 13;
            state ^= state >> 17;
            state ^= state << 5;
            *b = state as u8;
        }
        assert!(encode(&bytes).is_err());
        assert!(decode(&bytes).is_err());
        let _ = unpack_plane(&bytes, 32);
    }
}

#[test]
fn movie_round_trip_preserves_unknown_atoms_alpha_and_padding() {
    let mut mdat = Vec::new();
    for frame_number in 0..64 {
        let mut coefficients = vec![0i16; 256];
        for (i, c) in coefficients.iter_mut().enumerate() {
            *c = if i < 4 {
                (frame_number * 97 % 2000) as i16 - 1000
            } else {
                ((i * 19) % 43) as i16 - 21
            };
        }
        coefficients[255] = -3;
        let mut plane = pack_plane(&coefficients, 4, 4096).unwrap();
        plane.truncate(plane.iter().rposition(|&x| x != 0).unwrap() + 1);
        let slice_len = 8 + 3 * plane.len() + 16;
        let picture_len = 10 + slice_len;
        let frame_len = 28 + picture_len + 7;
        let mut frame = vec![0; 28];
        frame[..4].copy_from_slice(&(frame_len as u32).to_be_bytes());
        frame[4..8].copy_from_slice(b"icpf");
        frame[8..10].copy_from_slice(&20u16.to_be_bytes());
        frame[16..18].copy_from_slice(&16u16.to_be_bytes());
        frame[18..20].copy_from_slice(&16u16.to_be_bytes());
        frame[20] = 0xc0;
        frame.extend_from_slice(&[0x40]);
        frame.extend_from_slice(&(picture_len as u32).to_be_bytes());
        frame.extend_from_slice(&[0, 1, 0]);
        frame.extend_from_slice(&(slice_len as u16).to_be_bytes());
        frame.extend_from_slice(&[0x40, 4]);
        for _ in 0..3 {
            frame.extend_from_slice(&(plane.len() as u16).to_be_bytes());
        }
        for _ in 0..3 {
            frame.extend_from_slice(&plane);
        }
        frame.extend_from_slice(&[0xaa; 16]);
        frame.extend_from_slice(&[0xf1; 7]);
        mdat.extend_from_slice(&frame);
        mdat.extend_from_slice(&[0; 13]);
    }
    let mut raw = Vec::new();
    for (kind, data) in [
        (b"ftyp", b"qt  ".as_slice()),
        (b"moov", b"unknown metadata".as_slice()),
        (b"mdat", mdat.as_slice()),
        (b"free", b"tail padding".as_slice()),
    ] {
        raw.extend_from_slice(&((data.len() + 8) as u32).to_be_bytes());
        raw.extend_from_slice(kind);
        raw.extend_from_slice(data);
    }
    let encoded = encode(&raw).expect("synthetic correlated ProRes must select a transform");
    assert_eq!(decode(&encoded).unwrap(), raw);
    for end in [0, 19, 20, 63, encoded.len() / 2, encoded.len() - 1] {
        assert!(decode(&encoded[..end]).is_err());
    }
}
