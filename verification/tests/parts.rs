use spack::volumes::{
    base_from_part, check_set, part_path, plan_parts, write_decimal, Header, Split, HEADER,
};

fn header(index: u32, count: u32, total: u64, len: u64) -> Header {
    Header { index, count, total, len, archive: [7; 32], hash: [9; 32] }
}

#[test]
fn headers_are_read_as_they_were_written() {
    let h = header(2, 3, 1000, 333);
    let b = h.write();
    assert_eq!(b.len() as u64, HEADER);
    let r = Header::read(&b, 333 + HEADER).unwrap();
    assert_eq!((r.index, r.count, r.total, r.len), (2, 3, 1000, 333));
    assert_eq!((r.archive, r.hash), ([7; 32], [9; 32]));
    assert_eq!(Header::read(&b, 333).err().unwrap(), "error.invalid_volume_header");
    let mut other = b.clone();
    other[0] ^= 1;
    assert_eq!(Header::read(&other, 333 + HEADER).err().unwrap(), "error.not_volume");
    let huge = header(1, 2, u64::MAX, u64::MAX).write();
    assert_eq!(Header::read(&huge, 0).err().unwrap(), "error.part_length_overflow");
    for bad in [header(0, 3, 10, 5), header(4, 3, 10, 5), header(1, 1, 10, 5), header(1, 3, 4, 5)] {
        assert_eq!(
            Header::read(&bad.write(), bad.len + HEADER).err().unwrap(),
            "error.invalid_volume_header"
        );
    }
}

#[test]
fn parts_hold_the_archive() {
    assert_eq!(plan_parts(10, &Split::Whole).unwrap(), None);
    assert_eq!(plan_parts(10, &Split::Count(3)).unwrap(), Some(vec![4, 3, 3]));
    assert_eq!(plan_parts(100, &Split::Size(1000)).unwrap(), None);
    assert_eq!(plan_parts(1000, &Split::Size(HEADER + 400)).unwrap(), Some(vec![400, 400, 200]));
    assert_eq!(plan_parts(2, &Split::Count(3)).unwrap_err(), "error.part_count_exceeds_data");
    assert_eq!(plan_parts(10, &Split::Count(1)).unwrap_err(), "error.part_count_range");
    assert_eq!(plan_parts(10, &Split::Size(HEADER)).unwrap_err(), "error.part_size_min");
    assert!(Split::Count(10_001).validate().is_err());
    assert!(Split::Whole.validate().is_ok());
}

#[test]
fn part_names_carry_their_numbers() {
    assert_eq!(part_path("a.spk", 7), "a.spk.007");
    assert_eq!(part_path("a.spk", 42), "a.spk.042");
    assert_eq!(part_path("a.spk", 1234), "a.spk.1234");
    assert_eq!(write_decimal(u64::MAX), u64::MAX.to_string());
    assert_eq!(base_from_part("a.spk.007", 7).unwrap(), "a.spk");
    assert_eq!(base_from_part("a.SPACK.012", 12).unwrap(), "a.SPACK");
    assert_eq!(base_from_part("a.spk.007", 8).unwrap_err(), "error.part_name_mismatch");
    assert_eq!(base_from_part("a.zip.007", 7).unwrap_err(), "error.invalid_volume_extension");
    assert_eq!(base_from_part("aspk", 7).unwrap_err(), "error.missing_part_number");
}

#[test]
fn sets_of_parts_are_checked() {
    let all = [header(1, 2, 10, 6), header(2, 2, 10, 4)];
    let names = ["a.001".to_string(), "a.002".to_string()];
    assert_eq!(check_set(&all[0], &all, &names).unwrap(), 10);
    let short = [header(1, 2, 10, 6), header(2, 2, 10, 3)];
    assert_eq!(check_set(&short[0], &short, &names).unwrap_err(), "error.parts_length_mismatch");
    let mut foreign = all;
    foreign[1].archive = [8; 32];
    let e = check_set(&all[0], &foreign, &names).unwrap_err();
    assert!(e.contains("error.volume_set_at") && e.contains("a.002"), "{e}");
    assert!(all[1].is_part(2, &all[0]));
    assert!(!all[1].is_part(1, &all[0]));
}

#[test]
fn checksums_of_parts_and_archive_are_compared() {
    let h = header(2, 3, 1000, 333);
    assert!(h.check(2, &[9; 32]).is_ok());
    assert_eq!(
        h.check(2, &[8; 32]).unwrap_err(),
        "{\"code\":\"error.volume_checksum\",\"args\":[\"2\"]}"
    );
    assert!(h.check_archive(&[7; 32]).is_ok());
    assert_eq!(h.check_archive(&[9; 32]).unwrap_err(), "error.archive_checksum");
}

#[test]
fn planned_parts_are_accepted() {
    for split in [Split::Count(3), Split::Size(400)] {
        let lengths = plan_parts(1000, &split).unwrap().unwrap();
        let n = lengths.len() as u32;
        let all: Vec<Header> =
            lengths.iter().enumerate().map(|(i, len)| header(i as u32 + 1, n, 1000, *len)).collect();
        let names: Vec<String> = all.iter().map(|h| h.index.to_string()).collect();
        for first in &all {
            assert_eq!(check_set(first, &all, &names).unwrap(), 1000);
        }
    }
}

#[test]
fn part_names_lead_back_to_the_archive() {
    for n in [1, 9, 10, 99, 100, 999, 1000, 10_000] {
        let name = part_path("box 1.spk", n);
        assert_eq!(base_from_part(&name, n).unwrap(), "box 1.spk");
        assert!(base_from_part(&name, n + 1).is_err());
    }
}

#[test]
fn parts_out_of_place_are_refused() {
    let all = [header(1, 3, 10, 4), header(2, 3, 10, 3), header(3, 3, 10, 3)];
    let names: Vec<String> = (1..=3).map(|i| part_path("a.spk", i)).collect();
    assert_eq!(check_set(&all[2], &all, &names).unwrap(), 10);
    let swapped = [header(1, 3, 10, 4), header(3, 3, 10, 3), header(2, 3, 10, 3)];
    assert!(check_set(&all[0], &swapped, &names).is_err());
    let missing = [header(1, 3, 10, 4), header(2, 3, 10, 3)];
    assert!(check_set(&all[0], &missing, &names[..2]).is_err());
    let mut changed = header(2, 3, 10, 3);
    changed.archive[0] ^= 1;
    assert!(check_set(&all[0], &[header(1, 3, 10, 4), changed, header(3, 3, 10, 3)], &names).is_err());
}
