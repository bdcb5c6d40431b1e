use spack::loose::pack_plane;
use spack::monitor::{Monitor, Unwatched};
use spack::mov_source::{encode, pool_of};
use spack::prores_bits::{decode as read_frame, Decoded, Planes as Levels};
use spack::prores_frame::{frames, Contents, Frame};
use spack::records::{try_mov_source, weigh};
use spack::source_decode::decode;
use spack::source_frames::{Bytes, Expectation, Expected, Painter, Unpainted};
use spack::source_likeness::shares_content;
use spack::source_planes::{Image, Planes};
use spack::source_pool::Pool;
use spack::source_record::{get_section, put_section, uses_pool};

/// Paints with the levels of the first coefficients, and some texture.
struct Flat;

impl Painter for Flat {
    /// Contracts alone speak of it.
    fn paints(&self, _d: Levels, _frame: Contents, _colours: Bytes, _after: &Self) -> bool {
        unreachable!()
    }

    /// Contracts alone speak of it.
    fn expects(&self, _p: Image, _frame: Contents, _qmb: Bytes, _e: Expectation, _after: &Self) -> bool {
        unreachable!()
    }

    fn paint(&mut self, d: &Decoded, _frame: &Frame) -> Vec<u8> {
        let n = d.wp * d.hp;
        let mut out = vec![0u8; 3 * n];
        for (k, plane) in [&d.luma, &d.red, &d.blue].into_iter().enumerate() {
            for y in 0..d.hp {
                for x in 0..d.wp {
                    let dc = plane[(y / 8 * 8) * d.wp + x / 8 * 8];
                    let texture = (x % 8) * (y % 8) % 5;
                    let level = 128 + i32::from(dc) / 8 + texture as i32;
                    out[k * n + y * d.wp + x] = level.clamp(0, 255) as u8;
                }
            }
        }
        out
    }

    fn expect(&mut self, picture: &Planes, _frame: &Frame, _qmb: &[u8]) -> Expected {
        let (w, h) = (picture.w, picture.h);
        let n = w * h;
        let mut e = Expected {
            levels: vec![0; 3 * n],
            strength: vec![3; 3 * n],
            negative: vec![false; 3 * n],
        };
        for (k, c) in [(0, 1), (1, 3), (2, 2)] {
            for y in (0..h).step_by(8) {
                for x in (0..w).step_by(8) {
                    e.levels[k * n + y * w + x] = (i16::from(picture.get(c, y, x)) - 128) * 8;
                }
            }
        }
        e
    }
}

/// A film of 32 by 16 pixels.
fn film(shift: i32, count: i32) -> Vec<u8> {
    let mut mdat = Vec::new();
    for f in 0..count {
        let mut slices = Vec::new();
        for mb in 0..2i32 {
            let planes: Vec<Vec<u8>> = (0..3)
                .map(|ch| {
                    let mut c = vec![0i16; 256];
                    for (i, v) in c.iter_mut().enumerate() {
                        let i = i as i32;
                        if i < 4 {
                            *v = ((i * 57 + ch * 31 + mb * 77 + f * 5 + shift) % 200 - 100) as i16;
                        } else if i % 9 == ch {
                            *v = ((i + f) % 5 - 2) as i16;
                        }
                    }
                    pack_plane(&c, 4)
                })
                .collect();
            let mut slice = vec![64, 2];
            for p in &planes {
                slice.extend_from_slice(&(p.len() as u16).to_be_bytes());
            }
            for p in planes {
                slice.extend(p);
            }
            slices.push(slice);
        }
        let body: usize = slices.iter().map(Vec::len).sum();
        let picture = 8 + 4 + body;
        let mut frame = vec![0u8; 28];
        frame[..4].copy_from_slice(&((28 + picture) as u32).to_be_bytes());
        frame[4..8].copy_from_slice(b"icpf");
        frame[8..10].copy_from_slice(&20u16.to_be_bytes());
        frame[16..18].copy_from_slice(&32u16.to_be_bytes());
        frame[18..20].copy_from_slice(&16u16.to_be_bytes());
        frame[20] = 0xc0;
        frame.push(64);
        frame.extend_from_slice(&(picture as u32).to_be_bytes());
        frame.extend_from_slice(&2u16.to_be_bytes());
        frame.push(0);
        for s in &slices {
            frame.extend_from_slice(&(s.len() as u16).to_be_bytes());
        }
        for s in slices {
            frame.extend(s);
        }
        mdat.extend(frame);
    }
    let mut raw = ((mdat.len() + 8) as u32).to_be_bytes().to_vec();
    raw.extend_from_slice(b"mdat");
    raw.extend(mdat);
    raw.extend_from_slice(&12u32.to_be_bytes());
    raw.extend_from_slice(b"freeTAIL");
    raw
}

#[test]
fn films_come_back_from_pictures_and_errors() {
    let raw = film(0, 6);
    let found = frames(&raw);
    assert_eq!(found.len(), 6);
    assert_eq!((found[0].width, found[0].height, found[0].slices.len()), (32, 16, 2));
    assert!(read_frame(&raw, &found[0]).is_ok());
    for light in [false, true] {
        let data = encode(&raw, &Pool::default(), light, &mut Flat, &mut Unwatched).unwrap();
        assert!(!uses_pool(&data).unwrap());
        let (back, kept) = decode(&data, &Pool::default(), true, &mut Flat, &mut Unwatched).unwrap();
        assert_eq!(back, raw);
        assert_eq!(kept.frames.len(), 6);
        for end in [0, 7, 12, data.len() / 2, data.len() - 1] {
            assert!(decode(&data[..end], &Pool::default(), false, &mut Flat, &mut Unwatched).is_err());
        }
    }
}

/// Paints too little, and expects too much.
struct Careless;

impl Painter for Careless {
    /// Contracts alone speak of it.
    fn paints(&self, _d: Levels, _frame: Contents, _colours: Bytes, _after: &Self) -> bool {
        unreachable!()
    }

    /// Contracts alone speak of it.
    fn expects(&self, _p: Image, _frame: Contents, _qmb: Bytes, _e: Expectation, _after: &Self) -> bool {
        unreachable!()
    }

    fn paint(&mut self, _d: &Decoded, _frame: &Frame) -> Vec<u8> {
        vec![9; 5]
    }

    fn expect(&mut self, picture: &Planes, _frame: &Frame, _qmb: &[u8]) -> Expected {
        let n = 3 * picture.w * picture.h;
        Expected { levels: vec![1; 7], strength: Vec::new(), negative: vec![true; n + 3] }
    }
}

#[test]
fn a_careless_painter_is_made_to_fit() {
    let raw = film(0, 3);
    let data = encode(&raw, &Pool::default(), true, &mut Careless, &mut Unwatched).unwrap();
    assert_eq!(decode(&data, &Pool::default(), false, &mut Careless, &mut Unwatched).unwrap().0, raw);
}

#[test]
fn a_film_that_names_no_frames_comes_back_beside_any() {
    let (first, second) = (film(0, 6), film(3, 4));
    let data = encode(&second, &Pool::default(), false, &mut Flat, &mut Unwatched).unwrap();
    assert!(!uses_pool(&data).unwrap());
    let pool = pool_of(&first, &mut Flat).unwrap();
    assert_eq!(decode(&data, &pool, false, &mut Flat, &mut Unwatched).unwrap().0, second);
    assert_eq!(decode(&data, &Pool::default(), false, &mut Flat, &mut Unwatched).unwrap().0, second);
}

#[test]
fn a_film_finds_the_frames_of_the_film_before() {
    let (first, second) = (film(0, 6), film(0, 5));
    assert!(shares_content(&second, &first, &mut Flat));
    assert!(!shares_content(&second, b"nothing", &mut Flat));
    let pool = pool_of(&first, &mut Flat).unwrap();
    assert_eq!(pool.frames.len(), 6);
    assert!(pool_of(b"nothing", &mut Flat).is_err());
    let data = encode(&second, &pool, false, &mut Flat, &mut Unwatched).unwrap();
    assert!(uses_pool(&data).unwrap());
    assert_eq!(decode(&data, &pool, false, &mut Flat, &mut Unwatched).unwrap().0, second);
    assert!(decode(&data, &Pool::default(), false, &mut Flat, &mut Unwatched).is_err());
    let alone = encode(&second, &Pool::default(), false, &mut Flat, &mut Unwatched).unwrap();
    assert!(data.len() < alone.len());
}

struct Never(bool);

impl Monitor for Never {
    /// Contracts alone speak of it.
    fn stopped(&self) -> bool {
        unreachable!()
    }

    /// Contracts alone speak of it.
    fn told(&self, _done: u64, _total: u64, _go: bool, _after: &Self) -> bool {
        unreachable!()
    }

    fn report(&mut self, _done: u64, _total: u64) -> bool {
        self.0 = true;
        false
    }

    fn halted(&self) -> bool {
        self.0
    }
}

#[test]
fn records_are_taken_only_if_they_give_the_film_back_and_are_smaller() {
    let raw = film(0, 30);
    let data = try_mov_source(&raw, &Pool::default(), "max", &mut Flat, &mut Unwatched).unwrap().unwrap();
    assert!(data.len() < raw.len());
    assert_eq!(decode(&data, &Pool::default(), false, &mut Flat, &mut Unwatched).unwrap().0, raw);
    assert_eq!(try_mov_source(b"x", &Pool::default(), "max", &mut Flat, &mut Unwatched).unwrap(), None);
    assert_eq!(
        try_mov_source(&raw, &Pool::default(), "max", &mut Flat, &mut Never(false)).unwrap_err(),
        "error.cancelled"
    );
    let back = |b: &[u8]| Ok((b.to_vec(), Pool::default()));
    assert_eq!(weigh(b"abc", vec![1], back(b"abc")).unwrap(), Some(vec![1]));
    assert_eq!(weigh(b"abc", vec![1], back(b"abd")).unwrap(), None);
    assert_eq!(weigh(b"abc", vec![1, 2, 3], back(b"abc")).unwrap(), None);
    assert_eq!(weigh(b"abc", vec![1], Err("other".into())).unwrap(), None);
    assert!(weigh(b"abc", vec![1], Err("error.cancelled".into())).is_err());
}

#[test]
fn sections_are_read_as_they_were_written() {
    let mut out = Vec::new();
    put_section(&mut out, b"first");
    put_section(&mut out, b"");
    let mut at = 0;
    assert_eq!(get_section(&out, &mut at).unwrap(), b"first");
    assert_eq!(get_section(&out, &mut at).unwrap(), b"");
    assert_eq!(at, out.len());
    assert!(get_section(&out, &mut at).is_err());
    assert!(uses_pool(b"SPMS").is_err());
}

#[test]
fn films_come_back_with_steady_painters() {
    let (first, second) = (film(0, 6), film(0, 5));
    let alone = encode(&first, &Pool::default(), false, &mut Unpainted, &mut Unwatched).unwrap();
    assert_eq!(decode(&alone, &Pool::default(), false, &mut Unpainted, &mut Unwatched).unwrap().0, first);
    let pool = pool_of(&first, &mut Unpainted).unwrap();
    let after = encode(&second, &pool, false, &mut Unpainted, &mut Unwatched).unwrap();
    let again = pool_of(&first, &mut Unpainted).unwrap();
    assert_eq!(decode(&after, &again, false, &mut Unpainted, &mut Unwatched).unwrap().0, second);
}
