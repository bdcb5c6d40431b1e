use spack::gif_model;
use spack::manifest::Method;
use spack::mov_motion::{check_side, keep_record};
use spack::mov_source::seal_packed;
use spack::records::{choose_movie, keep_form, pick_form, take_shorter};
use spack::source_frames::Seen;
use spack::source_planes::Planes;
use spack::source_pool::PoolFrame;
use spack::source_record::{check_section, MAGIC};

#[test]
fn shorter_forms_are_taken() {
    assert_eq!(take_shorter(Ok(vec![1, 2]), 3), Some(vec![1, 2]));
    assert_eq!(take_shorter(Ok(vec![1, 2]), 2), None);
    assert_eq!(take_shorter(Err("x".into()), 9), None);
}

#[test]
fn the_smallest_form_of_a_picture_is_picked() {
    let most = usize::MAX;
    let (e, p, m) = (Some(vec![1]), Some(vec![2]), Some(vec![3]));
    assert_eq!(pick_form(e.clone(), 9, p.clone(), 7, m.clone(), 8), Some((Method::GifPredict, vec![2])));
    assert_eq!(pick_form(e.clone(), 9, p.clone(), 8, m.clone(), 8), Some((Method::GifModel, vec![3])));
    assert_eq!(pick_form(e.clone(), 9, p.clone(), 9, None, most), Some((Method::GifExact, vec![1])));
    assert_eq!(pick_form(e, 9, None, most, None, most), Some((Method::GifExact, vec![1])));
    assert_eq!(pick_form(None, most, p.clone(), 5, None, most), Some((Method::GifPredict, vec![2])));
    assert_eq!(pick_form(None, most, p, most, None, most), None);
    assert_eq!(pick_form(None, most, None, most, None, most), None);
}

#[test]
fn the_smaller_form_of_a_movie_is_chosen() {
    let shared = || Some((Method::MovShared, vec![1]));
    assert_eq!(choose_movie(shared(), Ok(vec![2]), 9, 8), Some((Method::MovMotion, vec![2])));
    assert_eq!(choose_movie(shared(), Ok(vec![2]), 8, 8), shared());
    assert_eq!(choose_movie(shared(), Err("x".into()), 9, 1), shared());
    assert_eq!(choose_movie(None, Ok(vec![2]), 0, 8), Some((Method::MovMotion, vec![2])));
    assert_eq!(choose_movie(None, Ok(vec![2]), 0, usize::MAX), None);
}

#[test]
fn forms_are_kept_if_they_are_good_and_smaller() {
    let form = || Some((Method::GifExact, vec![1]));
    assert_eq!(keep_form(b"raw", form(), true, 3, 2), (Method::GifExact, vec![1]));
    assert_eq!(keep_form(b"raw", form(), true, 3, 3), (Method::Raw, b"raw".to_vec()));
    assert_eq!(keep_form(b"raw", form(), false, 3, 2), (Method::Raw, b"raw".to_vec()));
    assert_eq!(keep_form(b"raw", None, true, 3, 2), (Method::Raw, b"raw".to_vec()));
}

#[test]
fn sections_have_limits() {
    assert_eq!(check_section(Ok(vec![1, 2]), 2).unwrap(), [1, 2]);
    assert_eq!(check_section(Ok(vec![1, 2]), 1).unwrap_err(), "source record section too large");
    assert_eq!(check_section(Err("x".into()), 1).unwrap_err(), "x");
}

#[test]
fn records_are_sealed_from_what_compressing_yields() {
    let five = || (1..=5u8).map(|k| Ok(vec![k; k as usize])).collect::<Vec<Result<Vec<u8>, String>>>();
    let mut expected = MAGIC.to_vec();
    expected.extend_from_slice(&7u32.to_le_bytes());
    let mut parts: Vec<Vec<u8>> = (1..=5u8).map(|k| vec![k; k as usize]).collect();
    parts.push(vec![8, 8]);
    parts.push(vec![9]);
    for p in parts {
        expected.extend_from_slice(&(p.len() as u64).to_le_bytes());
        expected.extend_from_slice(&p);
    }
    assert_eq!(seal_packed(7, five(), &vec![8, 8], &vec![9]).unwrap(), expected);
    let mut bad = five();
    bad[2] = Err("third".into());
    bad[4] = Err("fifth".into());
    assert_eq!(seal_packed(7, bad, &vec![8], &vec![9]).unwrap_err(), "third");
}

#[test]
fn frames_are_kept_and_recalled() {
    let n = 16 * 16;
    let seen = Seen {
        picture: Planes { w: 16, h: 16, px: vec![5; 4 * n] },
        resid: vec![-3; 3 * n],
        qmb: vec![4],
    };
    let f = PoolFrame::keep(&seen, Ok(vec![1]), Err("x".into()));
    assert_eq!((f.wp, f.hp), (16, 16));
    assert_eq!(f.planes, [1]);
    assert!(f.resid.is_empty());
    assert_eq!(f.qmb, [4]);
    let errors: Vec<u8> = (0..3 * n).flat_map(|_| (-3i16).to_le_bytes()).collect();
    let again = f.recall(Ok(vec![5; 4 * n]), Ok(errors.clone())).ok().unwrap();
    assert_eq!(again.picture.px, seen.picture.px);
    assert_eq!(again.resid, seen.resid);
    assert_eq!(f.recall(Ok(vec![5; 4]), Ok(errors)).err().unwrap(), "invalid reference frame");
    assert_eq!(f.recall(Err("a".into()), Err("b".into())).err().unwrap(), "a");
    assert_eq!(f.recall(Ok(vec![5; 4 * n]), Err("b".into())).err().unwrap(), "b");
    let loaded = PoolFrame::new(&seen).load().ok().unwrap();
    assert_eq!(loaded.picture.px, seen.picture.px);
    assert_eq!(loaded.resid, seen.resid);
}

#[test]
fn sides_have_their_length_and_nothing_behind() {
    assert_eq!(check_side(Ok((vec![1, 2], 0)), 2).unwrap(), [1, 2]);
    assert_eq!(check_side(Ok((vec![1, 2], 0)), 3).unwrap_err(), "MOV motion side length mismatch");
    assert_eq!(check_side(Ok((vec![1, 2], 1)), 2).unwrap_err(), "Trailing MOV motion side bytes");
    assert_eq!(check_side(Err("x".into()), 2).unwrap_err(), "x");
    assert_eq!(keep_record(b"ab", vec![1], Ok(b"ab".to_vec())).unwrap(), [1]);
    assert_eq!(
        keep_record(b"ab", vec![1], Ok(b"ac".to_vec())).unwrap_err(),
        "MOV motion byte-exact verification failed"
    );
    assert_eq!(keep_record(b"ab", vec![1], Err("x".into())).unwrap_err(), "x");
}

#[test]
fn models_are_checked_by_what_comes_out() {
    assert_eq!(
        gif_model::check_record(b"short", Ok(vec![1]), Err("x".into())).unwrap_err(),
        "Invalid or excessive SGIF model input"
    );
    let mut sgif = spack::gif_exact::MAGIC.to_vec();
    sgif.extend_from_slice(b"0123456789");
    assert_eq!(gif_model::check_record(&sgif, Err("p".into()), Err("r".into())).unwrap_err(), "p");
    assert_eq!(gif_model::check_record(&sgif, Ok(vec![1, 2]), Err("r".into())).unwrap_err(), "r");
    let record = gif_model::check_record(&sgif, Ok(vec![1, 2]), Ok((sgif.clone(), 0))).unwrap();
    assert_eq!(gif_model::check_read(&record, Ok((sgif.clone(), 0))).unwrap(), sgif);
    assert_eq!(
        gif_model::check_read(&record, Ok((sgif.clone(), 1))).unwrap_err(),
        "GIF probability-model length or checksum mismatch"
    );
    assert_eq!(
        gif_model::check_read(&record, Ok((sgif[1..].to_vec(), 0))).unwrap_err(),
        "Truncated GIF probability-model output"
    );
    for at in [0, 8, 17, 18, 19, 20, 28, 60] {
        let mut changed = record.clone();
        changed[at] ^= 1;
        assert!(gif_model::check_read(&changed, Ok((sgif.clone(), 0))).is_err(), "{at}");
    }
}
