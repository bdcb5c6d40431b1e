use spack::companions::{pair_mov_sources, TRANSFORM_LIMIT};
use spack::container::{next_film, place, sum_up, Placing};
use spack::manifest::{hash_text, Entry, Manifest, Method};
use spack::monitor::{Phases, Unwatched};
use spack::mov_motion::Unfitted;
use spack::packing::{
    films_first, prepare_film, prepare_picture, previous_film, way, Packing, Prepared, Step, Way,
};
use spack::prores_bits::{Decoded, Planes as Levels};
use spack::prores_frame::{Contents, Frame};
use spack::restoring::{plan_task, restore_record, Task};
use spack::scan::Source;
use spack::source_frames::{Bytes, Expectation, Expected, Painter};
use spack::source_planes::{Image, Planes};

struct Plain;

impl Painter for Plain {
    /// Contracts alone speak of it.
    fn paints(&self, _d: Levels, _frame: Contents, _colours: Bytes, _after: &Self) -> bool {
        unreachable!()
    }

    /// Contracts alone speak of it.
    fn expects(&self, _p: Image, _frame: Contents, _qmb: Bytes, _e: Expectation, _after: &Self) -> bool {
        unreachable!()
    }

    fn paint(&mut self, d: &Decoded, _frame: &Frame) -> Vec<u8> {
        vec![0; 3 * d.wp * d.hp]
    }

    fn expect(&mut self, picture: &Planes, _frame: &Frame, _qmb: &[u8]) -> Expected {
        let n = 3 * picture.w * picture.h;
        Expected { levels: vec![0; n], strength: vec![0; n], negative: vec![false; n] }
    }
}

fn sources(paths: &[&str]) -> Vec<Source> {
    paths
        .iter()
        .map(|path| Source { path: (*path).into(), name: (*path).into(), bytes: 10 })
        .collect()
}

#[test]
fn companion_selection_respects_set_and_folder_identity() {
    let input = sources(&[
        "mov/set/wave.mov",
        "mov/V4/wave.mov",
        "mixed/jump.MOV",
        "gif/set/wave.gif",
        "gif/V4/wave.gif",
        "mixed/jump.gif",
        "unrelated/wave.gif",
        "other/jump.gif",
        "gif/missing.gif",
    ]);
    assert_eq!(
        pair_mov_sources(&input),
        vec![None, None, None, Some(0), Some(1), Some(2), None, Some(2), None]
    );
    let same_folder = sources(&["a/set/wave.mov", "b/set/wave.mov", "b/set/wave.gif"]);
    assert_eq!(pair_mov_sources(&same_folder)[2], Some(1));
    let ambiguous = sources(&["a/set/wave.mov", "b/set/wave.mov", "c/set/wave.gif"]);
    assert_eq!(pair_mov_sources(&ambiguous)[2], None);
}

#[test]
fn companions_must_precede_gif_and_fit_memory_limit() {
    let mut input = sources(&["set/a.mov", "set/b.gif", "set/b.mov", "set/a.gif"]);
    input[0].bytes = TRANSFORM_LIMIT + 1;
    assert_eq!(pair_mov_sources(&input), vec![None; 4]);
}

#[test]
fn films_come_first_and_see_the_film_before() {
    let input = sources(&["a.gif", "b.mov", "c.png", "d.MOV"]);
    assert_eq!(films_first(&input), vec![1, 3, 0, 2]);
    assert_eq!(previous_film(&input, 1), None);
    assert_eq!(previous_film(&input, 2), Some(1));
    let mut long = input.clone();
    long[1].bytes = TRANSFORM_LIMIT + 1;
    assert_eq!(previous_film(&long, 2), None);
    assert_eq!(way(&long[1], false, "max"), Way::Late);
    assert_eq!(way(&input[1], false, "max"), Way::Film);
    assert_eq!(way(&input[1], false, "fast"), Way::Plain);
    assert_eq!(way(&input[1], true, "max"), Way::Plain);
    assert_eq!(way(&input[0], true, "max"), Way::Picture);
}

#[test]
fn records_are_kept_unless_the_film_before_has_changed() {
    let film = Some(Method::MovSource);
    assert_eq!(place(film, None, Some(3), true), Placing::Keep);
    assert_eq!(place(film, Some(3), Some(3), true), Placing::Keep);
    assert_eq!(place(film, Some(3), None, true), Placing::Again);
    assert_eq!(place(None, None, None, true), Placing::Alone);
    assert_eq!(place(None, Some(1), None, true), Placing::Again);
    assert_eq!(place(Some(Method::GifExact), None, Some(1), false), Placing::Keep);
    assert_eq!(next_film(Some(1), false, Method::Raw, 2), Some(1));
    assert_eq!(next_film(Some(1), true, Method::MovSource, 2), Some(2));
    assert_eq!(next_film(Some(1), true, Method::Raw, 2), None);
}

#[test]
fn a_selection_becomes_a_valid_table_of_contents() {
    let mut input = sources(&["a.mov", "b.mov", "c.png", "d.png", "e.png"]);
    input[4].bytes = TRANSFORM_LIMIT + 1;
    let made = |text: &[u8], method| Prepared {
        hash: hash_text(text),
        made: Some((method, text.to_vec())),
        after: None,
        paired_hash: None,
    };
    let mut p = Packing::new();
    let first = made(b"0123456789", Method::MovSource);
    assert_eq!(p.decide(&input[0], &first), Step::Keep);
    p.add_record(&input, Method::MovSource, 5, first.hash, None);
    assert_eq!(p.last, Some(0));
    let late = Prepared { made: None, ..made(b"abcdefghij", Method::Raw) };
    assert_eq!(p.decide(&input[1], &late), Step::Again);
    p.add_record(&input, Method::Raw, 10, late.hash, None);
    assert_eq!(p.last, None);
    let third = made(b"klmnopqrst", Method::Raw);
    assert_eq!(p.decide(&input[2], &third), Step::Keep);
    p.add_record(&input, Method::Raw, 10, third.hash, None);
    let twin = made(b"klmnopqrst", Method::Raw);
    assert_eq!(p.decide(&input[3], &twin), Step::Twin(2));
    p.add_twin(&input, twin.hash, 2);
    p.add_large(&input, hash_text(b"long"));
    let total = input.iter().map(|s| s.bytes).sum();
    let m = p.finish("set".into(), total, "max".into()).unwrap();
    assert_eq!(m.files.len(), 5);
    assert_eq!(m.files[3].method, Method::Duplicate);
    assert_eq!(m.files[3].reference, Some(2));
    assert_eq!(plan_task(&m.files, 3, &[]).unwrap(), Task::Twin(2));
    assert_eq!(plan_task(&m.files, 2, &[]).unwrap(), Task::Plain);
    assert!(plan_task(&m.files, 0, &[]).is_err());
}

#[test]
fn a_film_that_changed_is_noticed() {
    let input = sources(&["a.mov", "a.gif"]);
    let mut p = Packing::new();
    p.add_record(&input, Method::Raw, 10, hash_text(b"film"), None);
    let with = |hash: String| Prepared {
        hash: String::new(),
        made: None,
        after: None,
        paired_hash: Some(hash),
    };
    assert!(p.check_companion(&input, Some(0), &with(hash_text(b"film"))).is_ok());
    assert!(p.check_companion(&input, None, &with(hash_text(b"other"))).is_ok());
    let e = p.check_companion(&input, Some(0), &with(hash_text(b"other"))).unwrap_err();
    assert!(e.contains("error.source_changed_pack") && e.contains("a.mov"), "{e}");
    assert_eq!(
        Packing::new().finish("set".into(), 0, "max".into()).err().unwrap(),
        "error.invalid_archive"
    );
}

fn gif() -> Vec<u8> {
    let mut raw = b"GIF89a\x40\0\x40\0\x80\0\0\0\0\0\xff\xff\xff\x2c\0\0\0\0\x40\0\x40\0\0\x02".to_vec();
    let mut bits = vec![0u8; (4096 * 6 + 3usize).div_ceil(8)];
    let mut at = 0;
    for code in (0..4096).flat_map(|i| [4u8, u8::from(i % 7 == 0)]).chain([5]) {
        for bit in 0..3 {
            bits[at / 8] |= ((code >> bit) & 1) << (at % 8);
            at += 1;
        }
    }
    for block in bits.chunks(255) {
        raw.push(block.len() as u8);
        raw.extend_from_slice(block);
    }
    raw.extend_from_slice(&[0, 0x3b]);
    raw
}

#[test]
fn pictures_come_back_from_their_records() {
    for preset in ["fast", "balanced", "max"] {
        let raw = gif();
        let mut progress = Phases::new(Unwatched, 0, 0);
        let p = prepare_picture(&raw, "gif", false, preset, None, &mut Unfitted, &mut progress).unwrap();
        assert_eq!(p.hash, hash_text(&raw));
        let (method, data) = p.made.unwrap();
        assert_ne!(method, Method::Raw);
        let back = restore_record(method, &data, None, None, &mut Plain, &mut Unwatched).unwrap();
        assert_eq!(back, raw);
    }
    let mut progress = Phases::new(Unwatched, 0, 0);
    let p = prepare_picture(b"png", "png", false, "max", Some(b"film"), &mut Unfitted, &mut progress).unwrap();
    assert_eq!(p.made.unwrap(), (Method::Raw, b"png".to_vec()));
    assert_eq!(p.paired_hash.unwrap(), hash_text(b"film"));
}

#[test]
fn what_is_no_film_gets_no_record() {
    let p = prepare_film(b"not a film", Some(b"nor this"), 4, "max", &mut Plain, &mut Unwatched).unwrap();
    assert!(p.made.is_none());
    assert_eq!(p.after, None);
    assert_eq!(p.hash, hash_text(b"not a film"));
    assert_eq!(
        restore_record(Method::Raw, b"x", None, None, &mut Plain, &mut Unwatched).unwrap_err(),
        "error.invalid_archive"
    );
    assert_eq!(
        restore_record(Method::GifPredict, b"x", None, None, &mut Plain, &mut Unwatched).unwrap_err(),
        "error.invalid_archive"
    );
}

#[test]
fn packed_files_are_unpacked_with_the_bytes_that_they_had() {
    let raws = [gif(), b"a picture".to_vec(), gif()];
    let mut input = sources(&["a.gif", "b.png", "c.gif"]);
    for (s, raw) in input.iter_mut().zip(&raws) {
        s.bytes = raw.len() as u64;
    }
    let mut packing = Packing::new();
    let mut records: Vec<Vec<u8>> = Vec::new();
    for (s, raw) in input.iter().zip(&raws) {
        let ext = spack::paths::extension(&s.name);
        let mut progress = Phases::new(Unwatched, 0, 0);
        let p = prepare_picture(raw, &ext, false, "max", None, &mut Unfitted, &mut progress).unwrap();
        match packing.decide(s, &p) {
            Step::Twin(k) => {
                packing.add_twin(&input, p.hash, k);
                records.push(Vec::new());
            }
            _ => {
                let (method, data) = p.made.unwrap();
                packing.add_record(&input, method, data.len() as u64, p.hash, None);
                records.push(data);
            }
        }
    }
    let total = input.iter().map(|s| s.bytes).sum();
    let m = packing.finish("set".into(), total, "max".into()).unwrap();
    let mut done: Vec<Vec<u8>> = Vec::new();
    for (i, data) in records.iter().enumerate() {
        let raw = match plan_task(&m.files, i, data).unwrap() {
            Task::Plain => data.clone(),
            Task::Twin(k) => done[k].clone(),
            Task::Record(None, None) => {
                restore_record(m.files[i].method, data, None, None, &mut Plain, &mut Unwatched).unwrap()
            }
            other => panic!("{other:?}"),
        };
        assert!(spack::container::check_restored(&m.files[i], &raw).is_ok());
        done.push(raw);
    }
    assert_eq!(done, raws);
    assert_eq!(m.files[2].reference, Some(0));
}

#[test]
fn a_result_sums_up_its_parts() {
    let parts: Vec<String> = vec!["a.spk.001".into(), "a.spk.002".into(), "a.spk.003".into()];
    let file = |k: u64| Entry {
        name: format!("{k}.png"),
        method: Method::Raw,
        size: 80,
        stored: 80,
        hash: String::new(),
        reference: None,
    };
    let m = Manifest {
        version: 2,
        dir_name: "set".into(),
        src_bytes: 400,
        source_hash: String::new(),
        preset: "max".into(),
        files: (0..5).map(file).collect(),
    };
    let r = sum_up(parts.clone(), &[70, 70, 11], &m);
    assert_eq!(r.pack_path, "a.spk.001");
    assert_eq!(r.parts, parts);
    assert_eq!((r.src_bytes, r.packed_bytes, r.n_files), (400, 151, 5));
}
