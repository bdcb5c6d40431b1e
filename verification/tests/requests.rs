use spack::agent::{error_code, error_value, is_cancelled, read_job, Job};
use spack::json::{find_code, find_string};
use spack::locale::{message, render_error, Messages};
use spack::mcp::{action, read_request, Action, Request};
use spack::scan::Filter;
use spack::volumes::Split;

fn catalog(list: &[(&str, &str)]) -> Messages {
    list.iter().map(|(a, b)| (a.to_string(), b.to_string())).collect()
}

fn english() -> Messages {
    catalog(&[
        ("codec.bad", "Invalid GIF LZW phrase code"),
        ("error.cancelled", "Operation cancelled"),
        ("error.file_exists", "File exists: {0}"),
        ("error.system", "System error: {0}"),
    ])
}

#[test]
fn only_cancelled_operations_are_cancelled() {
    let en = english();
    assert!(is_cancelled("error.cancelled", false, &en));
    assert!(is_cancelled(&message("error.cancelled", &[]), true, &en));
    assert!(!is_cancelled("some external diagnostic", false, &en));
    assert!(!is_cancelled("codec: error.cancelled", false, &en));
    assert!(!is_cancelled(&message("error.file_exists", &["error.cancelled".into()]), true, &en));
}

#[test]
fn errors_have_a_code_and_a_text() {
    let en = english();
    let args = vec!["a \"b\"".to_string()];
    let carried = message("error.file_exists", &args);
    assert_eq!(error_code(&carried, true, &en), "error.file_exists");
    assert_eq!(
        error_value(&carried, Some(("error.file_exists".into(), args)), &en),
        ("error.file_exists".to_string(), "File exists: a \"b\"".to_string())
    );
    assert_eq!(
        error_value("invalid gif lzw PHRASE code", None, &en),
        ("codec.bad".to_string(), "Invalid GIF LZW phrase code".to_string())
    );
    assert_eq!(
        error_value("odd", None, &en),
        ("error.system".to_string(), "System error: odd".to_string())
    );
    assert_eq!(render_error("en", "error.cancelled", None, &en, &Vec::new()), "Operation cancelled");
}

#[test]
fn members_are_found_by_their_keys() {
    assert_eq!(find_string("{\"a\":\"x\\ny\"}", "a").unwrap(), "x\ny");
    assert!(find_string("{\"a\":1}", "a").is_none());
    assert!(find_string("{\"a\":\"x\"}", "b").is_none());
    assert!(find_string("[\"a\"]", "a").is_none());
    assert!(find_string("{", "a").is_none());
    assert_eq!(find_code("{\"code\":\"x\",\"args\":[]}".into()), "x");
    assert_eq!(find_code("plain".into()), "plain");
}

#[test]
fn requests_are_read_from_lines() {
    assert!(read_request("  \t").unwrap().is_none());
    let (m, q) = read_request("{\"jsonrpc\":\"2.0\",\"id\":7,\"method\":\"ping\"}").unwrap().unwrap();
    assert_eq!(m.id.as_deref(), Some("7"));
    assert_eq!(m.method, "ping");
    assert_eq!(m.params, "{}");
    assert_eq!(q, Request::Ping);
    let (m, q) = read_request("{\"method\":\"ping\"}").unwrap().unwrap();
    assert!(m.id.is_none());
    assert_eq!(q, Request::Ignored);
    assert!(read_request("{\"id\":").is_err());
}

#[test]
fn lines_are_answered() {
    assert!(matches!(action(""), Action::Nothing));
    match action("nonsense") {
        Action::Fail { id, code, message } => {
            assert_eq!(id, "null");
            assert_eq!(code, -32700);
            assert!(message.starts_with("parse error: "));
        }
        _ => panic!(),
    }
    match action("{\"id\":\"a\",\"method\":\"initialize\",\"params\":{\"protocolVersion\":\"2024-11-05\"}}") {
        Action::Initialize { id, version } => {
            assert_eq!(id, "\"a\"");
            assert_eq!(version, "2024-11-05");
        }
        _ => panic!(),
    }
    assert!(matches!(action("{\"id\":1,\"method\":\"ping\"}"), Action::Ping { .. }));
    assert!(matches!(action("{\"id\":1,\"method\":\"tools/list\"}"), Action::ListTools { .. }));
    let call = "{\"id\":3,\"method\":\"tools/call\",\"params\":{\"name\":\"scan\",\"arguments\":{\"paths\":[\"/a\"]},\"_meta\":{\"progressToken\":5}}}";
    match action(call) {
        Action::Call { id, name, args, token } => {
            assert_eq!(id, "3");
            assert_eq!(name, "scan");
            assert_eq!(args, "{\"paths\":[\"/a\"]}");
            assert_eq!(token.as_deref(), Some("5"));
        }
        _ => panic!(),
    }
    match action("{\"id\":3,\"method\":\"tools/call\",\"params\":{}}") {
        Action::Fail { code, message, .. } => {
            assert_eq!(code, -32602);
            assert_eq!(message, "missing tool name");
        }
        _ => panic!(),
    }
    match action("{\"id\":3,\"method\":\"other\"}") {
        Action::Fail { code, message, .. } => {
            assert_eq!(code, -32601);
            assert_eq!(message, "method not found: other");
        }
        _ => panic!(),
    }
    match action("{\"method\":\"notifications/cancelled\",\"params\":{\"requestId\":9}}") {
        Action::Cancel { id } => assert_eq!(id, "9"),
        _ => panic!(),
    }
    assert!(matches!(action("{\"method\":\"notifications/initialized\"}"), Action::Nothing));
}

#[test]
fn jobs_are_read_from_arguments() {
    match read_job("scan", "{\"paths\":[\"/a\",\"/b\"],\"filter\":\"gif\"}").ok().unwrap() {
        Job::Scan { paths, filter } => {
            assert_eq!(paths, ["/a", "/b"]);
            assert_eq!(filter, Filter::Gif);
        }
        _ => panic!(),
    }
    let pack = "{\"paths\":[\"/a\"],\"output_dir\":\"/o\",\"preset\":\"max\",\"parts\":1,\"raw\":true}";
    match read_job("pack", pack).ok().unwrap() {
        Job::Pack { paths, options } => {
            assert_eq!(paths, ["/a"]);
            assert_eq!(options.out_dir.as_deref(), Some("/o"));
            assert_eq!(options.preset, "max");
            assert!(options.raw);
            assert!(matches!(options.split, Split::Whole));
        }
        _ => panic!(),
    }
    match read_job("pack", "{\"paths\":[\"/a\"],\"output_dir\":\"/o\",\"part_size\":\"2MiB\"}").ok().unwrap() {
        Job::Pack { options, .. } => assert!(matches!(options.split, Split::Size(2_097_152))),
        _ => panic!(),
    }
    match read_job("info", "{\"archive\":\"/a.spk\",\"include_files\":true}").ok().unwrap() {
        Job::Info { archive, entries } => {
            assert_eq!(archive, "/a.spk");
            assert!(entries);
        }
        _ => panic!(),
    }
    match read_job("unpack", "{\"archive\":\"/a.spk\"}").ok().unwrap() {
        Job::Unpack { archive, target } => {
            assert_eq!(archive, "/a.spk");
            assert!(target.is_none());
        }
        _ => panic!(),
    }
    let error = |tool: &str, args: &str| read_job(tool, args).err().unwrap();
    assert_eq!(error("scan", "{}"), "missing array argument 'paths'");
    assert_eq!(error("scan", "{\"paths\":[1]}"), "'paths' must contain strings");
    assert_eq!(error("scan", "{\"paths\":[]}"), "'paths' must not be empty");
    assert_eq!(error("info", "{}"), "missing string argument 'archive'");
    assert_eq!(error("other", "{}"), "unknown tool 'other'");
    assert_eq!(
        error("pack", "{\"paths\":[\"/a\"],\"output_dir\":\"/o\",\"parts\":2,\"part_size\":9}"),
        "error.split_conflict"
    );
}
