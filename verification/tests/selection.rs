use spack::packing::root_name;
use spack::paths::{extension, safe_base};
use spack::roots::{keep_first, keep_outermost, root_prefixes, Parts};
use spack::scan::{is_video, order_files, sort_key, tally, validate_names, Filter, Source, Stats};

/// A file or folder that is selected, in a tree of files.
#[derive(Clone, Debug, PartialEq)]
struct Root {
    path: String,
    folder: bool,
}

fn file(path: &str) -> Root {
    Root { path: path.into(), folder: false }
}

fn folder(path: &str) -> Root {
    Root { path: path.into(), folder: true }
}

fn parts(path: &str) -> Parts {
    path.split('/').map(str::to_string).collect()
}

fn outermost(roots: &[Root]) -> Vec<Root> {
    let mut once: Vec<Root> = Vec::new();
    for r in roots {
        if !once.contains(r) {
            once.push(r.clone());
        }
    }
    let paths: Vec<Parts> = once.iter().map(|r| parts(&r.path)).collect();
    let folders: Vec<bool> = once.iter().map(|r| r.folder).collect();
    let keep = keep_outermost(&paths, &folders);
    let mut kept: Vec<Root> = once.into_iter().zip(keep).filter(|x| x.1).map(|x| x.0).collect();
    kept.sort_by(|a, b| a.path.cmp(&b.path));
    kept
}

/// The files of a tree that a selection takes.
fn collect(tree: &[(&str, u64)], roots: &[Root], filter: Filter) -> (Vec<Source>, Stats) {
    let kept = outermost(roots);
    let paths: Vec<Parts> = kept.iter().map(|r| parts(&r.path)).collect();
    let prefixes = root_prefixes(&paths, kept.len() == 1 && kept[0].folder).unwrap();
    let mut files = Vec::new();
    for (root, prefix) in kept.iter().zip(prefixes) {
        for (path, bytes) in tree {
            let name = if !root.folder {
                if *path != root.path {
                    continue;
                }
                prefix.clone()
            } else {
                let Some(rest) = path.strip_prefix(&format!("{}/", root.path)) else {
                    continue;
                };
                if prefix.is_empty() {
                    rest.to_string()
                } else {
                    format!("{prefix}/{rest}")
                }
            };
            if filter.accepts(&extension(&name)) {
                files.push(Source { name, path: (*path).into(), bytes: *bytes });
            }
        }
    }
    files.sort_by_cached_key(|f| sort_key(&f.name));
    validate_names(&files).unwrap();
    let stats = tally(&files).unwrap();
    (files, stats)
}

fn order_independent(tree: &[(&str, u64)], roots: &[Root], filter: Filter) -> (Vec<String>, Stats) {
    let (files, stats) = collect(tree, roots, filter);
    let names: Vec<String> = files.iter().map(|f| f.name.clone()).collect();
    for reverse in [false, true] {
        let mut reordered = roots.to_vec();
        if reverse {
            reordered.reverse();
        }
        for _ in 0..reordered.len() {
            reordered.rotate_left(1);
            let (again, same) = collect(tree, &reordered, filter);
            assert_eq!(again.iter().map(|f| f.name.clone()).collect::<Vec<_>>(), names);
            assert_eq!(same, stats);
        }
    }
    (names, stats)
}

fn same_names(mut names: Vec<String>, expected: &[&str]) {
    let mut expected: Vec<String> = expected.iter().map(|s| s.to_string()).collect();
    names.sort();
    expected.sort();
    assert_eq!(names, expected);
}

fn counts(s: &Stats) -> (usize, u64, usize, usize, usize, usize) {
    (s.files, s.bytes, s.gif, s.mov, s.png, s.webp)
}

#[test]
fn a_single_file_uses_basename_and_repeated_paths_are_one_selection() {
    let tree = [("tmp/parent/素材/笑.GIF", 16)];
    let one = file("tmp/parent/素材/笑.GIF");
    let (names, stats) = order_independent(&tree, &[one.clone(), one.clone(), one], Filter::All);
    same_names(names, &["笑.GIF"]);
    assert_eq!(counts(&stats), (1, 16, 1, 0, 0, 0));
}

#[test]
fn selected_ancestors_cover_explicit_files_and_subdirectories_in_any_order() {
    let tree = [
        ("tmp/素材/a.gif", 3),
        ("tmp/素材/nested/b.MOV", 5),
        ("tmp/素材/nested/deep/c.webp", 4),
        ("tmp/素材/nested/ignored.txt", 7),
    ];
    let (names, stats) = order_independent(
        &tree,
        &[
            folder("tmp/素材/nested"),
            file("tmp/素材/nested/b.MOV"),
            folder("tmp/素材"),
            file("tmp/素材/a.gif"),
            folder("tmp/素材/nested/deep"),
            folder("tmp/素材"),
        ],
        Filter::All,
    );
    same_names(names, &["a.gif", "nested/b.MOV", "nested/deep/c.webp"]);
    assert_eq!(counts(&stats), (3, 12, 1, 1, 0, 1));
}

#[test]
fn mixed_file_and_directory_roots_keep_unique_paths_and_stable_names() {
    let tree = [
        ("tmp/素材/跳.gif", 3),
        ("tmp/素材/nested/跳.mov", 3),
        ("tmp/other/one.png", 5),
    ];
    let (names, stats) = order_independent(
        &tree,
        &[
            file("tmp/素材/跳.gif"),
            file("tmp/other/one.png"),
            folder("tmp/素材/nested"),
            folder("tmp/素材"),
            file("tmp/other/one.png"),
        ],
        Filter::All,
    );
    same_names(names, &["素材/跳.gif", "素材/nested/跳.mov", "one.png"]);
    assert_eq!(counts(&stats), (3, 11, 1, 1, 1, 0));
}

#[test]
fn same_named_files_use_the_shortest_unique_parent_suffix() {
    let tree = [
        ("tmp/A/共用/笑.gif", 5),
        ("tmp/B/共用/笑.gif", 6),
        ("tmp/C/另名/笑.gif", 5),
        ("tmp/D/单独.gif", 6),
    ];
    let roots: Vec<Root> = tree.iter().map(|f| file(f.0)).collect();
    let (names, stats) = order_independent(&tree, &roots, Filter::All);
    same_names(names, &["A/共用/笑.gif", "B/共用/笑.gif", "另名/笑.gif", "单独.gif"]);
    assert_eq!(stats.files, 4);
}

#[test]
fn case_only_filename_collisions_are_disambiguated_for_portable_extraction() {
    let tree = [("tmp/A/Smile.GIF", 5), ("tmp/B/smile.gif", 6)];
    let roots: Vec<Root> = tree.iter().map(|f| file(f.0)).collect();
    let (names, stats) = order_independent(&tree, &roots, Filter::All);
    same_names(names, &["A/Smile.GIF", "B/smile.gif"]);
    assert_eq!(stats.files, 2);
}

#[test]
fn same_named_directories_preserve_the_existing_parent_suffix_layout() {
    let tree = [("tmp/GIF/素材/笑.gif", 3), ("tmp/MOV/素材/笑.mov", 3)];
    let (names, stats) =
        order_independent(&tree, &[folder("tmp/GIF/素材"), folder("tmp/MOV/素材")], Filter::All);
    same_names(names, &["GIF/素材/笑.gif", "MOV/素材/笑.mov"]);
    assert_eq!(counts(&stats), (2, 6, 1, 1, 0, 0));
}

#[test]
fn expanded_root_prefixes_cannot_cover_another_selected_file() {
    for name in ["clip.gif", "CLIP.GIF"] {
        let nested = format!("tmp/B/{name}/set");
        let inner = format!("{nested}/a.mov");
        let tree = [("tmp/A/clip.gif", 19), (inner.as_str(), 25), ("tmp/C/set/b.mov", 26)];
        let (names, stats) = order_independent(
            &tree,
            &[file("tmp/A/clip.gif"), folder(&nested), folder("tmp/C/set")],
            Filter::All,
        );
        same_names(names, &["A/clip.gif", &format!("B/{name}/set/a.mov"), "C/set/b.mov"]);
        assert_eq!(stats.files, 3);
    }
}

#[test]
fn archive_folder_name_uses_normalized_roots() {
    let (one, all) = (file("tmp/素材/笑.gif"), folder("tmp/素材"));
    for (expected, selections) in [
        ("笑", vec![vec![one.clone()], vec![one.clone(), one.clone()]]),
        ("素材", vec![vec![all.clone()], vec![one.clone(), all.clone(), all]]),
    ] {
        for selection in selections {
            let kept = outermost(&selection);
            assert_eq!(kept.len(), 1);
            let name = parts(&kept[0].path).pop().unwrap();
            let stem = name.split('.').next().map(str::to_string);
            let dir = root_name(stem, &[Some(name)], !kept[0].folder);
            assert_eq!(safe_base(&dir), expected);
        }
    }
    let two = [Some("a".to_string()), Some("b".to_string())];
    assert_eq!(root_name(None, &two, false), "media");
    let alike = [Some("a".to_string()), Some("a".to_string())];
    assert_eq!(root_name(None, &alike, false), "a");
    assert_eq!(root_name(None, &[None], false), "media");
    assert_eq!(root_name(None, &alike, true), "media");
}

#[test]
fn unsupported_direct_files_are_ignored_and_filters_keep_other_valid_sources() {
    let tree = [
        ("tmp/notes.txt", 9),
        ("tmp/g.GIF", 1),
        ("tmp/m.mov", 2),
        ("tmp/p.png", 3),
        ("tmp/w.webp", 4),
    ];
    let roots: Vec<Root> = tree.iter().map(|f| file(f.0)).collect();
    for (filter, selected, summary) in [
        (Filter::All, vec!["g.GIF", "m.mov", "p.png", "w.webp"], (4, 10, 1, 1, 1, 1)),
        (Filter::Gif, vec!["g.GIF"], (1, 1, 1, 0, 0, 0)),
        (Filter::Mov, vec!["m.mov"], (1, 2, 0, 1, 0, 0)),
        (Filter::NoGif, vec!["m.mov", "p.png", "w.webp"], (3, 9, 0, 1, 1, 1)),
        (Filter::NoMov, vec!["g.GIF", "p.png", "w.webp"], (3, 8, 1, 0, 1, 1)),
    ] {
        let (names, actual) = order_independent(&tree, &roots, filter);
        same_names(names, &selected);
        assert_eq!(counts(&actual), summary);
    }
    let (files, actual) = collect(&tree, &roots[..1], Filter::All);
    assert!(files.is_empty());
    assert_eq!(actual.files, 0);
}

#[test]
fn common_video_filters_and_statistics_preserve_mov_semantics() {
    let video_extensions = [
        "mov", "mp4", "m4v", "mkv", "webm", "avi", "wmv", "flv", "mpg", "mpeg", "m2v", "ts", "mts",
        "m2ts", "3gp", "3g2", "ogv", "vob", "mxf",
    ];
    let mut tree: Vec<(String, u64)> = Vec::new();
    for e in video_extensions {
        tree.push((
            format!("source/clip.{}", e.to_ascii_uppercase()),
            (format!("video fixture: {e}\0").len() + 256) as u64,
        ));
    }
    for e in ["gif", "png", "webp"] {
        tree.push((format!("source/still.{e}"), e.len() as u64));
    }
    tree.push(("source/notes.txt".into(), 8));
    let tree: Vec<(&str, u64)> = tree.iter().map(|f| (f.0.as_str(), f.1)).collect();
    for e in video_extensions {
        assert!(is_video(&e.to_ascii_uppercase()));
        assert!(Filter::Video.accepts(e));
        assert!(!Filter::NoVideo.accepts(e));
        assert_eq!(Filter::Mov.accepts(e), e == "mov");
        assert_eq!(Filter::NoMov.accepts(e), e != "mov");
    }
    assert!(!is_video("gif"));
    assert!(!Filter::Video.accepts("txt"));
    assert!(!Filter::NoVideo.accepts("txt"));
    assert_eq!(Filter::parse("video").unwrap(), Filter::Video);
    assert_eq!(Filter::parse("no-video").unwrap(), Filter::NoVideo);
    assert!(Filter::parse("nothing").is_err());
    let count = video_extensions.len();
    for (filter, files, video, mov) in [
        (Filter::All, count + 3, count, 1),
        (Filter::Video, count, count, 1),
        (Filter::NoVideo, 3, 0, 0),
        (Filter::Mov, 1, 1, 1),
        (Filter::NoMov, count + 2, count - 1, 0),
        (Filter::Gif, 1, 0, 0),
        (Filter::NoGif, count + 2, count, 1),
    ] {
        let (selected, stats) = collect(&tree, &[folder("source")], filter);
        assert_eq!((stats.files, stats.video, stats.mov), (files, video, mov));
        assert_eq!(stats.bytes, selected.iter().map(|f| f.bytes).sum::<u64>());
        assert_eq!(stats.files, stats.video + stats.gif + stats.png + stats.webp);
    }
}

#[test]
fn roots_that_cannot_be_told_apart_are_refused() {
    let alike = vec![parts("tmp/a"), parts("tmp/a")];
    assert_eq!(root_prefixes(&alike, false).unwrap_err(), "error.selection_ambiguous");
    assert_eq!(
        root_prefixes(&vec![Vec::new(), parts("a")], false).unwrap_err(),
        "error.multiple_disk_roots"
    );
}

#[test]
fn lengths_that_overflow_are_refused() {
    let source = |bytes| Source { name: "a.gif".into(), path: "a.gif".into(), bytes };
    assert_eq!(tally(&[source(u64::MAX), source(1)]).unwrap_err(), "error.source_size_overflow");
}

#[test]
fn files_are_put_in_order() {
    let names: Vec<String> =
        ["b/z.png", "a/b.mov", "a/a.mov", "c.gif", "a/c.png", "", "a/a.mov", "b/é.png", "b/zz.png"]
            .iter()
            .map(|s| s.to_string())
            .collect();
    let mut expected: Vec<usize> = (0..names.len()).collect();
    expected.sort_by_key(|i| sort_key(&names[*i]));
    assert_eq!(order_files(&names), expected);
    assert!(order_files(&Vec::new()).is_empty());
}

#[test]
fn repeated_paths_are_dropped() {
    let paths: Vec<String> = ["/a", "/b", "/a", "/c", "/b"].iter().map(|s| s.to_string()).collect();
    assert_eq!(keep_first(&paths), [true, true, false, true, false]);
}

#[test]
fn kept_roots_do_not_depend_on_order_or_repetition() {
    let one = [folder("a"), file("a/b"), folder("c/d"), folder("c")];
    let other = [folder("c"), file("a/b"), folder("a"), folder("c/d"), folder("a"), file("a/b")];
    assert_eq!(outermost(&one), outermost(&other));
}

#[test]
fn each_file_is_counted_as_of_one_kind() {
    let names = ["a.mov", "b.MP4", "c.gif", "d.PNG", "e.webp", "f.webm", "g.WMV"];
    let files: Vec<Source> = names
        .iter()
        .map(|name| Source { path: (*name).into(), name: (*name).into(), bytes: 3 })
        .collect();
    let s = tally(&files).unwrap();
    assert_eq!((s.video, s.mov, s.gif, s.png, s.webp), (4, 1, 1, 1, 1));
    assert_eq!(s.video + s.gif + s.png + s.webp, s.files);
}
