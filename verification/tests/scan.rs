use spack::scan::{validate_names, Filter, Source};

fn sources(names: &[&str]) -> Vec<Source> {
    names
        .iter()
        .map(|name| Source {
            name: (*name).into(),
            path: (*name).into(),
            bytes: 0,
        })
        .collect()
}

#[test]
fn selection_rejects_internal_case_and_file_directory_conflicts() {
    for names in [
        vec!["set/a.gif", "set/A.GIF"],
        vec!["set/clip.gif", "set/CLIP.GIF/a.mov"],
        vec!["set/CLIP.GIF/a.mov", "set/clip.gif"],
        vec!["set/Model/a.gif", "set/model/b.mov"],
        vec!["Set/nested/a.gif", "set/nested/b.mov"],
    ] {
        assert!(validate_names(&sources(&names)).is_err(), "{names:?}");
    }
    assert!(validate_names(&sources(&[
        "set/model/a.gif",
        "set/model/b.mov",
        "set/clip.gif/a.png",
        "set/clip.gif.other"
    ]))
    .is_ok());
}

#[test]
fn selection() {
    assert!(Filter::All.accepts("png"));
    assert!(!Filter::All.accepts("exe"));
    assert!(!Filter::NoMov.accepts("mov"));
    assert!(Filter::NoMov.accepts("webp"));
    assert!(Filter::Gif.accepts("gif"));
    assert!(!Filter::Gif.accepts("png"));
    assert!(!Filter::NoGif.accepts("gif"));
    assert!(Filter::NoGif.accepts("mov"));
}
