use spack::container::{
    archive_info, candidate_name, check_mark, check_restored, file_name, manifest_length, numbered_name, preset, read_manifest, target_name,
    record_level, verify, write_head, Fingerprint, HEAD, MAGIC, MAX_MANIFEST,
};
use spack::manifest::{hash_text, source_hash, to_hex, validate_manifest, Entry, Manifest, Method};
use spack::paths::{safe_base, safe_rel_path};

fn raw_entry(name: &str, bytes: &[u8]) -> Entry {
    Entry {
        name: name.into(),
        method: Method::Raw,
        size: bytes.len() as u64,
        stored: bytes.len() as u64,
        hash: blake3::hash(bytes).to_hex().to_string(),
        reference: None,
    }
}

fn manifest(entries: Vec<Entry>) -> Manifest {
    let mut source = blake3::Hasher::new();
    for e in &entries {
        source.update(&(e.name.len() as u64).to_le_bytes());
        source.update(e.name.as_bytes());
        source.update(&e.size.to_le_bytes());
        source.update(e.hash.as_bytes());
    }
    Manifest {
        version: 2,
        dir_name: "restored".into(),
        src_bytes: entries.iter().fold(0u64, |n, e| n.wrapping_add(e.size)),
        source_hash: source.finalize().to_hex().to_string(),
        preset: "fast".into(),
        files: entries,
    }
}

#[test]
fn path_names_are_portable() {
    for name in [
        "../a", "a/../b", "/absolute", "C:/x", "a\\b", "a:", "a.", "a ", "NUL.gif", "x/COM1.png", "a//b",
        "",
    ] {
        assert!(safe_rel_path(name).is_err(), "{name}");
    }
    assert!(safe_rel_path("素材/笑.webp").is_ok());
}

#[test]
fn gif_predict_references_must_be_prior_bounded_mov_entries() {
    for variant in 0..7 {
        let mut mov = raw_entry("set/action.mov", b"mov");
        let mut gif = raw_entry("set/action.gif", b"gif");
        gif.method = Method::GifPredict;
        gif.reference = Some(0);
        match variant {
            0 => gif.reference = None,
            1 => gif.reference = Some(1),
            2 => gif.reference = Some(2),
            3 => mov.name = "set/action.png".into(),
            4 => {
                mov.size = (256 << 20) + 1;
                mov.stored = mov.size;
            }
            5 => gif.name = "set/action.webp".into(),
            _ => gif.stored = (512 << 20) + 1,
        }
        let expected = if variant < 3 { "error.invalid_gif_reference" } else { "error.invalid_gif_record" };
        assert_eq!(validate_manifest(&manifest(vec![mov, gif])).unwrap_err(), expected);
    }
    let mov = raw_entry("set/action.mov", b"mov");
    let mut gif = raw_entry("set/action.gif", b"gif");
    gif.method = Method::GifPredict;
    gif.reference = Some(0);
    assert!(validate_manifest(&manifest(vec![mov, gif])).is_ok());
}

#[test]
fn invalid_duplicate_references_are_rejected_before_writing() {
    for variant in 0..5 {
        let mut a = raw_entry("a.png", b"image");
        let mut b = raw_entry("b.png", b"image");
        b.method = Method::Duplicate;
        b.stored = 0;
        b.reference = Some(0);
        match variant {
            0 => b.reference = Some(1),
            1 => b.reference = Some(99),
            2 => b.stored = 1,
            3 => b.hash = blake3::hash(b"other").to_hex().to_string(),
            _ => {
                a.method = Method::Duplicate;
                a.stored = 0;
                a.reference = Some(1);
            }
        }
        let expected = if variant == 2 || variant == 3 {
            "error.duplicate_mismatch"
        } else {
            "error.invalid_duplicate_reference"
        };
        assert_eq!(validate_manifest(&manifest(vec![a, b])).unwrap_err(), expected);
    }
}

#[test]
fn excessive_record_lengths_and_total_overflow_are_rejected() {
    for variant in 0..3 {
        let mut a = raw_entry("a.gif", b"x");
        let (entries, expected) = match variant {
            0 => {
                a.method = Method::GifExact;
                a.stored = (512 << 20) + 1;
                (vec![a], "error.record_limit")
            }
            1 => {
                a.method = Method::GifExact;
                a.size = (256 << 20) + 1;
                (vec![a], "error.record_limit")
            }
            _ => {
                a.size = u64::MAX;
                a.stored = u64::MAX;
                (vec![a, raw_entry("b.png", b"x")], "error.file_size_overflow")
            }
        };
        assert_eq!(validate_manifest(&manifest(entries)).unwrap_err(), expected);
    }
}

#[test]
fn file_directory_alias_and_case_alias_are_rejected() {
    for (name, expected) in [
        ("a.png/child.webp", "error.path_conflict"),
        ("A.PNG", "error.duplicate_manifest_path"),
    ] {
        let m = manifest(vec![raw_entry("a.png", b"x"), raw_entry(name, b"y")]);
        assert_eq!(validate_manifest(&m).unwrap_err(), expected);
    }
}

#[test]
fn traversal_and_windows_aliases_in_rehashed_manifests_are_rejected() {
    for name in [
        "../escape.png",
        "nested/../../escape.png",
        "/absolute.png",
        "C:/escape.png",
        "\\\\server\\share\\escape.png",
        "a.png:stream",
        "nested//a.png",
        "NUL.png",
        "nested/COM1.png",
        "nested./a.png",
    ] {
        let m = manifest(vec![raw_entry(name, b"x")]);
        assert!(validate_manifest(&m).unwrap_err().contains("error.unsafe_path"), "{name}");
    }
}

#[test]
fn every_other_fault_of_a_manifest_is_named() {
    let good = || manifest(vec![raw_entry("a.png", b"x")]);
    assert!(validate_manifest(&good()).is_ok());
    let mut m = good();
    m.version = 1;
    assert_eq!(validate_manifest(&m).unwrap_err(), "error.invalid_archive");
    assert_eq!(validate_manifest(&manifest(vec![])).unwrap_err(), "error.invalid_archive");
    let mut m = good();
    m.dir_name = "a/b".into();
    assert_eq!(validate_manifest(&m).unwrap_err(), "error.invalid_output_name");
    let mut m = good();
    m.files[0].hash = "xyz".into();
    assert_eq!(validate_manifest(&m).unwrap_err(), "error.invalid_file_hash");
    let mut m = good();
    m.files[0].stored = 2;
    assert_eq!(validate_manifest(&m).unwrap_err(), "error.raw_length_mismatch");
    let mut m = good();
    m.src_bytes = 2;
    assert_eq!(validate_manifest(&m).unwrap_err(), "error.source_manifest_checksum");
    let mut m = good();
    m.files[0].name = String::new();
    assert_eq!(validate_manifest(&m).unwrap_err(), "error.invalid_path");
}

#[test]
fn checksums_are_those_of_the_hash_function() {
    assert_eq!(hash_text(b"abc"), blake3::hash(b"abc").to_hex().to_string());
    assert_eq!(to_hex(&[0, 15, 160, 255]), "000fa0ff");
    let m = manifest(vec![raw_entry("素.png", b"x"), raw_entry("b.png", b"yz")]);
    assert_eq!(source_hash(&m.files), m.source_hash);
}

#[test]
fn a_head_is_read_as_it_was_written() {
    let json = b"{\"version\":2}";
    let mut data = write_head(json).unwrap();
    assert_eq!(data.len(), HEAD + json.len());
    assert_eq!(&data[..8], &MAGIC);
    assert_eq!(manifest_length(&data).unwrap(), json.len());
    data.extend_from_slice(b"records");
    assert_eq!(read_manifest(&data).unwrap(), json);
    let mut bad = data.clone();
    bad[HEAD] ^= 1;
    assert_eq!(read_manifest(&bad).unwrap_err(), "error.manifest_checksum");
    bad[0] ^= 1;
    assert_eq!(read_manifest(&bad).unwrap_err(), "error.unsupported_archive_version");
    let mut empty = data.clone();
    empty[8..12].copy_from_slice(&0u32.to_le_bytes());
    assert_eq!(read_manifest(&empty).unwrap_err(), "error.invalid_manifest_length");
    assert!(read_manifest(&data[..HEAD + 3]).is_err());
    assert_eq!(read_manifest(&data[..7]).unwrap_err(), "failed to fill whole buffer");
    assert_eq!(read_manifest(&bad[..8]).unwrap_err(), "error.unsupported_archive_version");
    assert_eq!(read_manifest(&data[..11]).unwrap_err(), "failed to fill whole buffer");
    assert_eq!(read_manifest(&empty[..12]).unwrap_err(), "error.invalid_manifest_length");
    assert_eq!(read_manifest(&data[..HEAD - 1]).unwrap_err(), "failed to fill whole buffer");
    assert!(check_mark(&data).is_ok());
    assert_eq!(write_head(&vec![0; MAX_MANIFEST + 1]).unwrap_err(), "error.manifest_too_large");
}

#[test]
fn the_first_free_name_is_taken() {
    assert_eq!(candidate_name("a", 0), "a");
    assert_eq!(candidate_name("a", 1), "a (2)");
    assert_eq!(target_name("a", &[]), None);
    assert_eq!(target_name("a", &[false]).unwrap(), "a");
    assert_eq!(target_name("a", &[true, true, false, false]).unwrap(), "a (3)");
    assert_eq!(target_name("a", &[true, true]), None);
}

#[test]
fn restored_files_are_checked() {
    let e = raw_entry("a.png", b"image");
    assert!(check_restored(&e, b"image").is_ok());
    assert!(check_restored(&e, b"imagf").unwrap_err().contains("error.file_checksum"));
    assert!(check_restored(&e, b"imag").unwrap_err().contains("error.reconstruction_length"));
}

#[test]
fn folders_are_compared_file_by_file() {
    let f = |name: &str, bytes: u64, hash: &str| Fingerprint { name: name.into(), bytes, hash: hash.into() };
    let a = || vec![f("a", 1, "x"), f("b", 2, "y")];
    assert_eq!(verify(&a(), &a()).unwrap(), 2);
    assert_eq!(verify(&a(), &a()[..1]).unwrap_err(), "error.file_count_mismatch");
    assert_eq!(verify(&[], &[]).unwrap_err(), "error.file_count_mismatch");
    let changed = vec![f("a", 1, "x"), f("b", 2, "z")];
    let e = verify(&a(), &changed).unwrap_err();
    assert!(e.contains("error.verify_file") && e.contains("\"b\""), "{e}");
}

#[test]
fn presets_and_names_are_fixed() {
    assert_eq!(preset("fast").unwrap(), (6, 27));
    assert_eq!(preset("balanced").unwrap(), (19, 28));
    assert_eq!(preset("max").unwrap(), (22, 30));
    assert_eq!(preset("other").unwrap_err(), "error.invalid_preset");
    assert_eq!(record_level(Method::MovSource, 19), 1);
    assert_eq!(record_level(Method::GifExact, 19), 19);
    let m = manifest(vec![raw_entry("a.png", b"x")]);
    let short = &m.source_hash[..12];
    assert_eq!(file_name(&m, "max", true), format!("restored.{short}.max.raw.spk"));
    assert_eq!(file_name(&m, "fast", false), format!("restored.{short}.fast.spk"));
    assert_eq!(numbered_name("set", 12), "set (12)");
    assert_eq!(safe_base("a:b?"), "a_b_");
    assert_eq!(safe_base("..."), "media");
    let i = archive_info(&m, 3);
    assert_eq!((i.files, i.bytes, i.dir_name.as_str(), i.parts), (1, 1, "restored", 3));
}
