use spack::alpha::{pack_alpha, unpack_alpha};
use spack::codeword::{Bits, Writer};
use spack::gif_exact::{encode as encode_gif, pack_lzw, unpack_lzw};
use spack::gif_split::{join, split};
use spack::index::Index;
use spack::lzw::Dict;
use spack::model_coder::BlockDictionary;
use spack::monitor::{Monitor, Phases, Share, Unwatched, UNITS};
use spack::mov_motion_entropy;
use spack::order::sort;
use spack::paths::{extension, name_of, parent_of, stem_of};
use spack::plane::{pack_plane, unpack_plane};
use spack::records::{choose_form, wins_clearly};
use spack::source_codec::{Decoder, Encoder};
use spack::source_planes::Planes;
use spack::source_rc::{Dec, Enc, ResidualModel};
use spack::splice::{check_apart, fill_gaps, put_gaps};
use spack::streams::{bundle, part, STREAMS};
use spack::text::{letters, parse_number, text, trim};
use spack::wire::{floor_div, overwrite, put_le, put_signed16, read_le32, read_le64, read_signed16};

#[test]
fn numbers_come_back_from_their_bytes() {
    let mut out = Vec::new();
    put_le(0x0102_0304_0506_0708, 8, &mut out);
    assert_eq!(out, [8, 7, 6, 5, 4, 3, 2, 1]);
    assert_eq!(read_le64(&out, 0), 0x0102_0304_0506_0708);
    assert_eq!(read_le32(&out, 4), 0x0102_0304);
    for v in [i16::MIN, -1, 0, 1, i16::MAX] {
        let mut b = Vec::new();
        put_signed16(v, &mut b);
        assert_eq!(b, v.to_le_bytes());
        assert_eq!(read_signed16(&b, 0), v);
    }
    assert_eq!(floor_div(-7, 2), -4);
    overwrite(&mut out, 2, &[0, 0]);
    assert_eq!(out, [8, 7, 0, 0, 4, 3, 2, 1]);
}

#[test]
fn a_file_comes_back_from_its_ranges_and_gaps() {
    let raw: Vec<u8> = (0..40).collect();
    let ranges = sort(&[(30, 4), (3, 5), (10, 2)]);
    assert_eq!(ranges, [(3, 5), (10, 2), (30, 4)]);
    assert!(check_apart(&ranges, 40));
    assert!(!check_apart(&[(3, 5), (7, 2)], 40));
    let mut gaps = Vec::new();
    put_gaps(&raw, &ranges, &mut gaps);
    assert_eq!(gaps.len(), 29);
    let mut coded = vec![0; 40];
    for (at, n) in &ranges {
        let (at, n) = (*at as usize, *n as usize);
        coded[at..at + n].copy_from_slice(&raw[at..at + n]);
    }
    assert_eq!(fill_gaps(&coded, &ranges, &gaps), raw);
}

#[test]
fn bundled_streams_come_apart() {
    let parts: Vec<Vec<u8>> = (0..STREAMS).map(|i| vec![i as u8; i * 3]).collect();
    let data = bundle(&parts);
    let back = part(&data, "short", "bad").unwrap();
    assert_eq!(back, parts.iter().map(Vec::as_slice).collect::<Vec<_>>());
    assert!(part(&data[..3], "short", "bad").is_err());
    assert!(part(&data[..data.len() - 1], "short", "bad").is_err());
}

#[test]
fn residuals_come_back_from_the_range_coder() {
    let values: Vec<i32> = (0..3000).map(|i: i32| (i * i * 31 % 4001 - 2000) >> (i % 11)).collect();
    let mut e = Enc::new();
    let mut m = ResidualModel::new(5);
    for (i, &v) in values.iter().enumerate() {
        m.encode(&mut e, i % 5, v);
    }
    let data = e.finish();
    let mut d = Dec::new(&data);
    let mut m = ResidualModel::new(5);
    for (i, &v) in values.iter().enumerate() {
        assert_eq!(m.decode(&mut d, i % 5), v);
    }
}

#[test]
fn pictures_come_back_from_the_picture_coder() {
    let mut pictures = Vec::new();
    for k in 0..3usize {
        let mut p = Planes::new(32, 16);
        for c in 0..4 {
            for y in 0..16 {
                for x in 0..32 {
                    p.set(c, y, x, (c * 40 + (x + k) * 3 + y * 5) as u8);
                }
            }
        }
        pictures.push(p);
    }
    let mut e = Encoder::new(false);
    for p in &pictures {
        e.frame_extra(p, &[]);
    }
    let data = e.finish();
    let mut d = Decoder::new(&data).unwrap();
    for p in &pictures {
        assert_eq!(d.frame_extra(32, 16, &[]).px, p.px);
    }
    assert!(Decoder::new(&[]).is_err());
}

#[test]
fn lzw_streams_come_back_from_pixels_and_exceptions() {
    let mut dict = Dict::new(2).unwrap();
    assert_eq!((dict.clear, dict.next, dict.width), (4, 6, 3));
    assert_eq!(dict.apply(1).unwrap(), 1);
    assert_eq!(dict.apply(6).unwrap(), 2);
    let mut phrase = vec![0; 4096];
    assert_eq!(dict.expand(6, &mut phrase), 2);
    assert_eq!(dict.phrase_info(6).unwrap(), (2, 1));
    assert!(dict.apply(4000).is_err());
    assert!(Dict::new(0).is_err());
    let packed = [0x44, 0x10, 0x05];
    let image = unpack_lzw(&packed, 2, 4).unwrap();
    assert_eq!(image.pixels, [0, 1, 0, 1]);
    let again = pack_lzw(2, &image.pixels, &image.exceptions, image.events, &image.tail, 3);
    assert_eq!(again.unwrap(), packed);
}

#[test]
fn pixels_split_off_a_gif_come_back() {
    let gif = b"GIF89a\x2c\x01\x2c\x01\x80\0\0\0\0\0\xff\xff\xff\x2c\0\0\0\0\x02\0\x02\0\0\x02\x03\x44\x10\x05\0\x3b";
    let exact = encode_gif(gif).unwrap();
    let (side, frames) = split(&exact, true).unwrap();
    assert_eq!(frames.len(), 1);
    assert_eq!(frames[0].pixels.len(), 4);
    assert_eq!(join(&side, &frames).unwrap(), exact);
}

#[test]
fn planes_and_alpha_have_fixed_codes() {
    let plane = pack_plane(&[0; 64], 1, 4).unwrap();
    assert_eq!(unpack_plane(&plane, 1).unwrap(), vec![0; 64]);
    assert!(pack_plane(&[0; 64], 3, 4).is_err());
    assert!(pack_plane(&[0; 64], 1, 0).is_err());
    let alpha = [0u16, 0, 0, 65535, 257, 257];
    assert_eq!(unpack_alpha(&pack_alpha(&alpha), 6), alpha);
    let mut w = Writer { data: vec![0; 4], pos: 0 };
    w.put(5, 3).unwrap();
    assert_eq!(w.data[0], 0b1010_0000);
    let mut b = Bits { data: &w.data, pos: 0 };
    assert_eq!(b.get(3).unwrap(), 5);
    assert!(b.zero_tail());
    assert!(b.get(30).is_err());
}

#[test]
fn dictionaries_remember() {
    let mut d = BlockDictionary::new();
    let block: Vec<i16> = (0..64).collect();
    assert_eq!(d.find(&block), None);
    d.insert(block.clone());
    assert_eq!(d.find(&block), Some(0));
    d.insert(block.clone());
    assert_eq!(d.values.len(), 1);
    let mut i = Index::new();
    i.push("a".into());
    i.push("b".into());
    assert_eq!(i.find("b"), Some(1));
    assert_eq!(i.find("c"), None);
}

#[test]
fn the_smaller_form_is_chosen() {
    assert!(wins_clearly(Some(59), 100));
    assert!(!wins_clearly(Some(60), 100));
    assert!(!wins_clearly(None, 100));
    let name = |plain, predicted, model| choose_form(plain, predicted, model).name();
    assert_eq!(name(100, Some(50), None), "gif-predict");
    assert_eq!(name(100, Some(50), Some(40)), "gif-model");
    assert_eq!(name(100, Some(30), Some(40)), "gif-predict");
    assert_eq!(name(100, Some(120), None), "gif-exact");
    assert_eq!(name(100, None, None), "gif-exact");
}

#[test]
fn reports_stand_for_shares_of_the_whole() {
    let s = Share { base: 100, span: 300, whole: 1000 };
    assert!(s.report(&mut Unwatched, 1, 2));
    let p = Phases::new(Unwatched, 1500, 8000);
    assert_eq!(p.point(1, 2), 5500);
    assert_eq!(p.point(0, 0), 1500);
    assert_eq!(Phases::new(Unwatched, 9500, 800).point(1, 1), UNITS);
}

struct Count(u64);

impl Monitor for Count {
    /// Contracts alone speak of it.
    fn stopped(&self) -> bool {
        unreachable!()
    }

    /// Contracts alone speak of it.
    fn told(&self, _done: u64, _total: u64, _go: bool, _after: &Self) -> bool {
        unreachable!()
    }

    fn report(&mut self, _done: u64, _total: u64) -> bool {
        self.0 += 1;
        self.0 < 2
    }

    fn halted(&self) -> bool {
        self.0 >= 2
    }
}

#[test]
fn nothing_more_is_reported_after_the_end() {
    let mut p = Phases::new(Count(0), 0, 100);
    assert!(p.report(0, 1));
    assert!(!p.halted());
    assert!(!p.report(1, 1));
    assert!(p.halted());
    assert_eq!(p.inner.0, 2);
    assert!(!Unwatched.halted());
    let coded = mov_motion_entropy::encode(&[0; 192], [1, 1, 1], &[0], &mut Unwatched).unwrap();
    assert_eq!(
        mov_motion_entropy::decode(&coded, [1, 1, 1], &[0], &mut Unwatched).unwrap(),
        vec![0; 192]
    );
}

#[test]
fn texts_are_taken_apart() {
    assert_eq!(text(&trim(&letters("  a b \t"))), "a b");
    assert_eq!(parse_number(&letters("+42"), 100), Some(42));
    assert_eq!(parse_number(&letters("101"), 100), None);
    assert_eq!(parse_number(&letters(""), 100), None);
    assert_eq!(extension("a/b.GIF"), "gif");
    assert_eq!(extension(".gif"), "");
    assert_eq!(name_of(&letters("a/b.c")).map(|v| text(&v)).as_deref(), Some("b.c"));
    assert_eq!(stem_of(&letters("a/b.c.d")).map(|v| text(&v)).as_deref(), Some("b.c"));
    assert_eq!(text(&parent_of(&letters("a/b/c"))), "a/b");
}
