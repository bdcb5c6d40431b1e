use spack::agent::{choose_split, parse_size, SizeArgument};
use spack::cli::{
    command, exit_code, language_options, output_options, parse_options, worth_showing, Command,
};
use spack::locale::{
    fill, find_text, message, messages, normalize_error, render, render_error, Messages,
};
use spack::mcp::{agree, request, Meter, Request};
use spack::scan::Filter;
use spack::volumes::Split;

fn texts(list: &[&str]) -> Vec<String> {
    list.iter().map(|s| s.to_string()).collect()
}

fn catalog(list: &[(&str, &str)]) -> Messages {
    list.iter().map(|(a, b)| (a.to_string(), b.to_string())).collect()
}

fn english() -> Messages {
    catalog(&[
        ("codec.bad", "Invalid GIF LZW phrase code"),
        ("error.cancelled", "Operation cancelled"),
        ("error.path_case_conflict", "Folder paths differ only by case: {0} / {1}"),
        ("error.system", "System error: {0}"),
    ])
}

#[test]
fn language_option_preserves_literal_paths_after_separator() {
    let input = texts(&["--lang", "zh-CN", "pack", "--", "--lang", "en"]);
    let mut lang = "en".into();
    assert_eq!(language_options(&input, &mut lang).unwrap(), ["pack", "--", "--lang", "en"]);
    assert_eq!(lang, "zh-CN");
    assert!(language_options(&["--lang".into()], &mut lang).is_err());
    assert!(language_options(&["--lang=".into()], &mut lang).is_err());
    assert_eq!(language_options(&texts(&["--lang=fr", "scan"]), &mut lang).unwrap(), ["scan"]);
    assert_eq!(lang, "fr");
}

#[test]
fn language_read_before_an_error_is_kept() {
    let mut lang: String = "en".into();
    assert!(language_options(&texts(&["--lang", "zh", "scan", "--lang="]), &mut lang).is_err());
    assert_eq!(lang, "zh");
    assert!(language_options(&texts(&["--lang=fr", "--lang"]), &mut lang).is_err());
    assert_eq!(lang, "fr");
}

#[test]
fn language_fallback_and_path_parameters_are_stable() {
    let (en, zh) = (english(), catalog(&[("error.cancelled", "操作已取消")]));
    assert_eq!(render("fr", "error.cancelled", &[], &en, &zh), "Operation cancelled");
    assert_eq!(render("zh_CN", "error.cancelled", &[], &en, &zh), "操作已取消");
    let args = texts(&["{1}/a", "B"]);
    assert_eq!(
        message("error.path_case_conflict", &args),
        "{\"code\":\"error.path_case_conflict\",\"args\":[\"{1}/a\",\"B\"]}"
    );
    assert_eq!(
        render_error(
            "en",
            &message("error.path_case_conflict", &args),
            Some(("error.path_case_conflict".into(), args.clone())),
            &en,
            &zh
        ),
        "Folder paths differ only by case: {1}/a / B"
    );
    assert_eq!(
        render_error("en", "some external diagnostic", None, &en, &zh),
        "System error: some external diagnostic"
    );
    let other = normalize_error("some external diagnostic".into(), false, &en);
    assert_eq!(other, message("error.system", &texts(&["some external diagnostic"])));
    assert_eq!(
        render("en", "error.system", &texts(&["some external diagnostic"]), &en, &zh),
        "System error: some external diagnostic"
    );
}

#[test]
fn texts_are_found_and_filled() {
    let (en, zh) = (english(), catalog(&[("error.cancelled", "操作已取消")]));
    assert_eq!(find_text(&en, "error.cancelled").unwrap(), "Operation cancelled");
    assert!(find_text(&en, "error.none").is_none());
    let all = messages("zh", &en, &zh);
    assert_eq!(find_text(&all, "error.cancelled").unwrap(), "操作已取消");
    assert_eq!(find_text(&all, "codec.bad").unwrap(), "Invalid GIF LZW phrase code");
    assert_eq!(all.len(), en.len());
    assert_eq!(messages("fr", &en, &zh).len(), en.len());
    assert_eq!(fill("a {0} {9} {x} {", &texts(&["b"])), "a b {9} {x} {");
    assert_eq!(normalize_error("invalid gif lzw PHRASE code".into(), false, &en), "codec.bad");
    assert_eq!(normalize_error("error.cancelled".into(), false, &en), "error.cancelled");
    assert_eq!(normalize_error("{\"code\":\"x\"}".into(), true, &en), "{\"code\":\"x\"}");
    assert_eq!(message("a\"b", &texts(&["\n\\"])), "{\"code\":\"a\\\"b\",\"args\":[\"\\n\\\\\"]}");
}

#[test]
fn options_are_read_as_they_are_given() {
    let o = parse_options(&texts(&[
        "pack", "-o", "out", "--filter", "gif", "--preset", "max", "--parts", "3", "--raw", "a", "--", "-b",
    ]))
    .unwrap();
    assert_eq!(o.paths, ["a", "-b"]);
    assert_eq!(o.pack.out_dir.as_deref(), Some("out"));
    assert_eq!(o.pack.filter, Filter::Gif);
    assert_eq!(o.pack.preset, "max");
    assert!(matches!(o.pack.split, Split::Count(3)));
    assert!(o.pack.raw);
    let o = parse_options(&texts(&["unpack", "-d", "to", "--part-size", "2MiB"])).unwrap();
    assert_eq!(o.target.as_deref(), Some("to"));
    assert!(matches!(o.pack.split, Split::Size(2_097_152)));
    for (args, expected) in [
        (vec!["pack", "--parts", "3", "--part-size", "9"], "error.split_conflict"),
        (vec!["pack", "--parts", "x"], "error.invalid_parts"),
        (vec!["pack", "--part-size", "x"], "error.invalid_size"),
        (vec!["pack", "--filter", "x"], "error.unsupported_filter"),
        (vec!["pack", "-o"], "error.missing_option_value"),
        (vec!["pack", "--other"], "error.unknown_option"),
    ] {
        assert!(parse_options(&texts(&args)).err().unwrap().contains(expected), "{args:?}");
    }
    let (rest, mode) = output_options(&texts(&["--json", "scan", "-q", "--", "--json"]));
    assert_eq!(rest, ["scan", "--", "--json"]);
    assert!(mode.json && mode.quiet);
}

#[test]
fn commands_need_their_paths() {
    assert!(matches!(command("pack", 0).unwrap(), Command::Pack));
    assert!(matches!(command("unpack", 1).unwrap(), Command::Unpack));
    assert!(matches!(command("verify", 2).unwrap(), Command::Verify));
    assert_eq!(command("verify", 1).err().unwrap(), "error.usage");
    assert_eq!(command("other", 1).err().unwrap(), "error.usage");
    let en = catalog(&[("error.usage", "Usage"), ("error.cancelled", "Operation cancelled")]);
    assert_eq!(exit_code("error.cancelled", false, &en), 130);
    assert_eq!(exit_code(&message("error.cancelled", &[]), true, &en), 130);
    assert_eq!(exit_code("error.usage", false, &en), 2);
    assert_eq!(exit_code("error.system", false, &en), 1);
    assert!(!worth_showing(true, true, true, 1, 1));
    assert!(worth_showing(false, false, false, 1, 1));
}

#[test]
fn sizes_carry_units() {
    assert_eq!(parse_size(" 3 KiB ").unwrap(), 3072);
    assert_eq!(parse_size("1gib").unwrap(), 1 << 30);
    assert_eq!(parse_size("17").unwrap(), 17);
    assert_eq!(parse_size("").unwrap_err(), "error.invalid_size");
    assert_eq!(parse_size("18446744073709551615KiB").unwrap_err(), "error.invalid_size");
    assert!(matches!(choose_split(None, None).unwrap(), Split::Whole));
    assert!(matches!(choose_split(Some(Some(4)), None).unwrap(), Split::Count(4)));
    assert!(matches!(choose_split(Some(Some(1)), None).unwrap(), Split::Whole));
    assert!(matches!(choose_split(None, Some(SizeArgument::Number(Some(9)))).unwrap(), Split::Size(9)));
    assert_eq!(choose_split(Some(None), None).unwrap_err(), "error.invalid_parts");
    assert_eq!(choose_split(None, Some(SizeArgument::Other)).unwrap_err(), "error.invalid_size");
    assert_eq!(
        choose_split(Some(Some(2)), Some(SizeArgument::Text("9".into()))).unwrap_err(),
        "error.split_conflict"
    );
}

#[test]
fn servers_agree_on_a_version_and_report_forward() {
    assert_eq!(agree(Some("2024-11-05")), "2024-11-05");
    assert_eq!(agree(Some("1999-01-01")), "2025-06-18");
    assert_eq!(agree(None), "2025-06-18");
    assert!(matches!(request("initialize", true), Request::Initialize));
    assert!(matches!(request("initialize", false), Request::Ignored));
    assert!(matches!(request("notifications/cancelled", false), Request::Cancel));
    assert!(matches!(request("other", true), Request::Unknown));
    let mut m = Meter::new();
    assert_eq!(m.take("scan", 0, 0, true), None);
    assert_eq!(m.take("transform", 1, 4, true), Some(1250));
    assert_eq!(m.take("transform", 2, 4, false), None);
    assert_eq!(m.take("transform", 4, 4, false), Some(2000));
    assert_eq!(m.take("scan", 1, 1, true), None);
}
