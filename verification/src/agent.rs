//! What tools are called with, and what their errors mean.

use crate::container::PackOptions;
use crate::json::{find_code, find_string, items, member, natural, string, truth};
use crate::locale::{normalize_error, render_error, Messages};
use crate::manifest::{Entry, Manifest, Method};
use crate::scan::Filter;
use crate::text::{ends_with, letters, lower, parse_number, same_text, trim};
use crate::volumes::Split;
use crate::wire::{fail, Outcome};
use vstd::prelude::*;

verus! {

/// The code of an error. `carries` says whether its text carries one.
pub open spec fn code_for(error: Seq<char>, carries: bool, english: Seq<(String, String)>) -> Seq<char> {
    crate::json::code_of(crate::locale::normalized(error, carries, english))
}

/// Finds the code of an error.
pub fn error_code(error: &str, carries: bool, english: &Messages) -> (r: String)
    ensures
        r@ == code_for(error@, carries, english@),
        forall|code: Seq<char>, args: Seq<Seq<char>>|
            carries && error@ == #[trigger] crate::locale::coded_message(code, args) ==> r@ == code,
{
    find_code(normalize_error(error.to_owned(), carries, english))
}

/// Whether an error says that the operation was cancelled, by its bare code or by a message that
/// carries the code.
pub fn is_cancelled(error: &str, carries: bool, english: &Messages) -> (r: bool)
    ensures
        r == (code_for(error@, carries, english@) == "error.cancelled"@),
        forall|code: Seq<char>, args: Seq<Seq<char>>|
            carries && error@ == #[trigger] crate::locale::coded_message(code, args) ==> r == (code
                == "error.cancelled"@),
{
    same_text(&error_code(error, carries, english), "error.cancelled")
}

/// A text without its last three characters, and what they multiply by.
pub open spec fn scaled(s: Seq<char>) -> (Seq<char>, int) {
    if crate::text::ends(s, "gib"@) {
        (s.take(s.len() - 3), 0x4000_0000)
    } else if crate::text::ends(s, "mib"@) {
        (s.take(s.len() - 3), 0x10_0000)
    } else if crate::text::ends(s, "kib"@) {
        (s.take(s.len() - 3), 0x400)
    } else {
        (s, 1)
    }
}

/// The size that a text gives, in bytes or in units of 1024, 1024 squared or 1024 cubed bytes.
pub open spec fn size_in(s: Seq<char>) -> Option<int> {
    let (digits, unit) = scaled(crate::text::lowered(crate::text::trimmed(s)));
    match crate::text::number(crate::text::trimmed(digits), u64::MAX as int) {
        Some(n) if n * unit <= u64::MAX => Some(n * unit),
        _ => None,
    }
}

/// Reads a size.
pub fn parse_size(s: &str) -> (r: Result<u64, String>)
    ensures
        match r {
            Ok(n) => size_in(s@) == Some(n as int),
            Err(e) => size_in(s@) is None && e@ == "error.invalid_size"@,
        },
{
    let v = lower(&trim(&letters(s)));
    proof {
        reveal_strlit("gib");
        reveal_strlit("mib");
        reveal_strlit("kib");
    }
    let unit: u64 = if ends_with(&v, "gib") {
        0x4000_0000
    } else if ends_with(&v, "mib") {
        0x10_0000
    } else if ends_with(&v, "kib") {
        0x400
    } else {
        1
    };
    let end: usize = if unit == 1 {
        v.len()
    } else {
        v.len() - 3
    };
    assert(v@.subrange(0, end as int) =~= scaled(v@).0);
    match parse_number(&trim(&v.as_slice()[0..end]), u64::MAX) {
        None => Err(fail("error.invalid_size")),
        Some(n) => match n.checked_mul(unit) {
            None => Err(fail("error.invalid_size")),
            Some(bytes) => Ok(bytes),
        },
    }
}

/// A size as a tool was given it.
pub enum SizeArgument {
    /// A number, if it is a natural one that fits.
    Number(Option<u64>),
    Text(String),
    Other,
}

/// How an archive is split, by the number of parts and by their size, as a tool was given them. One part
/// is the whole archive.
pub open spec fn split_of(parts: Option<Option<u64>>, size: Option<SizeArgument>) -> Outcome<Split> {
    match (parts, size) {
        (Some(_), Some(_)) => Err("error.split_conflict"@),
        (Some(n), None) => match n {
            Some(1) => Ok(Split::Whole),
            Some(n) if n <= u32::MAX => Ok(Split::Count(n as u32)),
            _ => Err("error.invalid_parts"@),
        },
        (None, Some(s)) => match s {
            SizeArgument::Number(Some(n)) => Ok(Split::Size(n)),
            SizeArgument::Text(t) => match size_in(t@) {
                Some(n) => Ok(Split::Size(n as u64)),
                None => Err("error.invalid_size"@),
            },
            _ => Err("error.invalid_size"@),
        },
        (None, None) => Ok(Split::Whole),
    }
}

/// Decides how an archive is split.
pub fn choose_split(parts: Option<Option<u64>>, size: Option<SizeArgument>) -> (r: Result<Split, String>)
    ensures
        crate::wire::plain(r) == split_of(parts, size),
{
    match (parts, size) {
        (Some(_), Some(_)) => Err(fail("error.split_conflict")),
        (Some(n), None) => match n {
            Some(n) => if n == 1 {
                Ok(Split::Whole)
            } else if n <= 0xffff_ffff {
                Ok(Split::Count(n as u32))
            } else {
                Err(fail("error.invalid_parts"))
            },
            None => Err(fail("error.invalid_parts")),
        },
        (None, Some(s)) => match s {
            SizeArgument::Number(Some(n)) => Ok(Split::Size(n)),
            SizeArgument::Text(t) => match parse_size(&t) {
                Ok(n) => Ok(Split::Size(n)),
                Err(e) => Err(e),
            },
            _ => Err(fail("error.invalid_size")),
        },
        (None, None) => Ok(Split::Whole),
    }
}

/// How many of the first `n` files are stored by a method.
pub open spec fn uses(files: Seq<Entry>, m: Method, n: int) -> int
    decreases n,
{
    if n <= 0 {
        0
    } else {
        uses(files, m, n - 1) + crate::scan::one(files[n - 1].method == m)
    }
}

/// Counts the files that are stored by a method.
pub fn count_method(m: &Manifest, method: Method) -> (r: usize)
    ensures
        r == uses(m.files@, method, m.files@.len() as int),
{
    let mut r: usize = 0;
    let mut i: usize = 0;
    while i < m.files.len()
        invariant
            i <= m.files.len(),
            r <= i,
            r == uses(m.files@, method, i as int),
        decreases m.files.len() - i,
    {
        if m.files[i].method == method {
            r += 1;
        }
        i += 1;
    }
    r
}

/// How long the records of the first `n` files are.
pub open spec fn stored(files: Seq<Entry>, n: int) -> int
    decreases n,
{
    if n <= 0 {
        0
    } else {
        stored(files, n - 1) + files[n - 1].stored
    }
}

proof fn lemma_stored(files: Seq<Entry>, m: int, n: int)
    requires
        m <= n,
    ensures
        stored(files, m) <= stored(files, n),
    decreases n - m,
{
    if m < n {
        lemma_stored(files, m, n - 1);
        if n <= 0 {
            assert(stored(files, n) == 0 && stored(files, n - 1) == 0);
        }
    }
}

/// Adds up how long the records are, if the sum is below two to the power of 64.
pub fn stored_bytes(m: &Manifest) -> (r: Option<u64>)
    ensures
        match r {
            Some(n) => n == stored(m.files@, m.files@.len() as int),
            None => stored(m.files@, m.files@.len() as int) > u64::MAX,
        },
{
    let mut sum: u64 = 0;
    let mut i: usize = 0;
    while i < m.files.len()
        invariant
            i <= m.files.len(),
            sum == stored(m.files@, i as int),
        decreases m.files.len() - i,
    {
        match sum.checked_add(m.files[i].stored) {
            None => {
                proof {
                    lemma_stored(m.files@, i + 1, m.files@.len() as int);
                }
                return None;
            },
            Some(n) => {
                sum = n;
            },
        }
        i += 1;
    }
    Some(sum)
}

/// What is said of an error: its code, and a text in English.
pub fn error_value(
    error: &str,
    carried: Option<(String, Vec<String>)>,
    english: &Messages,
) -> (r: (String, String))
    ensures
        r.0@ == code_for(error@, carried is Some, english@),
        r.1@ == crate::locale::error_text(
            "en"@,
            error@,
            crate::locale::carried_in(carried),
            english@,
            english@,
        ),
{
    let code = error_code(error, carried.is_some(), english);
    (code, render_error("en", error, carried, english, english))
}

/// What a tool is asked to do.
pub enum Job {
    Scan { paths: Vec<String>, filter: Filter },
    Pack { paths: Vec<String>, options: PackOptions },
    Unpack { archive: String, target: Option<String> },
    Info { archive: String, entries: bool },
    Verify { original: String, restored: String, filter: Filter },
}

/// What a tool is asked to do, in terms of texts.
#[verifier::ext_equal]
pub enum Deed {
    Scan { paths: Seq<Seq<char>>, filter: Filter },
    Pack {
        paths: Seq<Seq<char>>,
        filter: Filter,
        preset: Seq<char>,
        out_dir: Option<Seq<char>>,
        split: Split,
        raw: bool,
    },
    Unpack { archive: Seq<char>, target: Option<Seq<char>> },
    Info { archive: Seq<char>, entries: bool },
    Verify { original: Seq<char>, restored: Seq<char>, filter: Filter },
}

impl View for Job {
    type V = Deed;

    open spec fn view(&self) -> Deed {
        match *self {
            Job::Scan { paths, filter } => Deed::Scan { paths: crate::locale::texts(paths@), filter },
            Job::Pack { paths, options } => Deed::Pack {
                paths: crate::locale::texts(paths@),
                filter: options.filter,
                preset: options.preset@,
                out_dir: crate::json::text_in(options.out_dir),
                split: options.split,
                raw: options.raw,
            },
            Job::Unpack { archive, target } => Deed::Unpack {
                archive: archive@,
                target: crate::json::text_in(target),
            },
            Job::Info { archive, entries } => Deed::Info { archive: archive@, entries },
            Job::Verify { original, restored, filter } => Deed::Verify {
                original: original@,
                restored: restored@,
                filter,
            },
        }
    }
}

/// The texts that a list of JSON texts stands for, if each is a string.
pub open spec fn strings_of(list: Seq<Seq<char>>, n: int) -> Option<Seq<Seq<char>>>
    decreases n,
{
    if n <= 0 {
        Some(Seq::empty())
    } else {
        match (strings_of(list, n - 1), crate::json::string_in(list[n - 1])) {
            (Some(done), Some(s)) => Some(done.push(s)),
            _ => None,
        }
    }
}

/// What an object has under a key.
pub open spec fn under(args: Seq<char>, key: Seq<char>) -> Option<Seq<char>> {
    match crate::json::member_in(args, key) {
        Ok(m) => m,
        Err(_) => None,
    }
}

fn look(args: &str, key: &str) -> (r: Option<String>)
    ensures
        crate::json::text_in(r) == under(args@, key@),
{
    match member(args, key) {
        Ok(m) => m,
        Err(_) => None,
    }
}

/// A message about an argument.
pub open spec fn about(before: Seq<char>, key: Seq<char>, after: Seq<char>) -> Seq<char> {
    before + key + after
}

fn tell(before: &str, key: &str, after: &str) -> (r: String)
    ensures
        r@ == about(before@, key@, after@),
{
    let mut r = before.to_owned();
    r.append(key);
    r.append(after);
    r
}

/// The paths that a tool is given.
pub open spec fn paths_for(args: Seq<char>, key: Seq<char>) -> Outcome<Seq<Seq<char>>> {
    let list = match under(args, key) {
        Some(m) => crate::json::items_in(m),
        None => None,
    };
    match list {
        None => Err(about("missing array argument '"@, key, "'"@)),
        Some(list) => match strings_of(list, list.len() as int) {
            None => Err(about("'"@, key, "' must contain strings"@)),
            Some(all) => if all.len() == 0 {
                Err(about("'"@, key, "' must not be empty"@))
            } else {
                Ok(all)
            },
        },
    }
}

proof fn lemma_strings_fail(list: Seq<Seq<char>>, k: int, n: int)
    requires
        0 <= k <= n,
        strings_of(list, k) is None,
    ensures
        strings_of(list, n) is None,
    decreases n - k,
{
    if k < n {
        lemma_strings_fail(list, k, n - 1);
    }
}

proof fn lemma_strings_len(list: Seq<Seq<char>>, n: int)
    requires
        0 <= n,
    ensures
        strings_of(list, n) matches Some(all) ==> all.len() == n,
    decreases n,
{
    if n > 0 {
        lemma_strings_len(list, n - 1);
    }
}

fn paths(args: &str, key: &str) -> (r: Result<Vec<String>, String>)
    ensures
        crate::roots::texts_of(r) == paths_for(args@, key@),
{
    let found = look(args, key);
    let list = match &found {
        Some(m) => items(m),
        None => None,
    };
    let list = match list {
        Some(list) => list,
        None => {
            return Err(tell("missing array argument '", key, "'"));
        },
    };
    let ghost all = crate::locale::texts(list@);
    let mut out: Vec<String> = Vec::new();
    let mut i: usize = 0;
    assert(crate::locale::texts(out@) =~= Seq::empty());
    while i < list.len()
        invariant
            i <= list.len(),
            all == crate::locale::texts(list@),
            strings_of(all, i as int) == Some(crate::locale::texts(out@)),
            paths_for(args@, key@) == (match strings_of(all, all.len() as int) {
                None => Err::<Seq<Seq<char>>, Seq<char>>(about("'"@, key@, "' must contain strings"@)),
                Some(v) => if v.len() == 0 {
                    Err(about("'"@, key@, "' must not be empty"@))
                } else {
                    Ok(v)
                },
            }),
        decreases list.len() - i,
    {
        assert(all[i as int] == list@[i as int]@);
        let ghost done = crate::locale::texts(out@);
        match string(&list[i]) {
            Some(s) => {
                out.push(s);
                assert(crate::locale::texts(out@) =~= done.push(s@));
            },
            None => {
                proof {
                    lemma_strings_fail(all, i + 1, all.len() as int);
                }
                return Err(tell("'", key, "' must contain strings"));
            },
        }
        i += 1;
    }
    proof {
        lemma_strings_len(all, all.len() as int);
    }
    if out.len() == 0 {
        return Err(tell("'", key, "' must not be empty"));
    }
    Ok(out)
}

/// The path that a tool is given.
pub open spec fn path_for(args: Seq<char>, key: Seq<char>) -> Outcome<Seq<char>> {
    match crate::json::string_under(args, key) {
        Some(s) => Ok(s),
        None => Err(about("missing string argument '"@, key, "'"@)),
    }
}

pub open spec fn words_of(r: Result<String, String>) -> Outcome<Seq<char>> {
    match r {
        Ok(s) => Ok(s@),
        Err(e) => Err(e@),
    }
}

fn path(args: &str, key: &str) -> (r: Result<String, String>)
    ensures
        words_of(r) == path_for(args@, key@),
{
    match find_string(args, key) {
        Some(s) => Ok(s),
        None => Err(tell("missing string argument '", key, "'")),
    }
}

/// The filter that a tool is given.
pub open spec fn filter_for(args: Seq<char>) -> Outcome<Filter> {
    match crate::json::string_under(args, "filter"@) {
        Some(s) => match Filter::named(s) {
            Some(f) => Ok(f),
            None => Err(crate::locale::coded_message("error.unsupported_filter"@, seq![s])),
        },
        None => Ok(Filter::All),
    }
}

fn filter(args: &str) -> (r: Result<Filter, String>)
    ensures
        crate::wire::plain(r) == filter_for(args@),
{
    match find_string(args, "filter") {
        Some(s) => Filter::parse(&s),
        None => Ok(Filter::All),
    }
}

/// Whether an argument is given and true.
pub open spec fn flag_for(args: Seq<char>, key: Seq<char>) -> bool {
    match under(args, key) {
        Some(m) => crate::json::truth_in(m) == Some(true),
        None => false,
    }
}

fn flag(args: &str, key: &str) -> (r: bool)
    ensures
        r == flag_for(args@, key@),
{
    match look(args, key) {
        Some(m) => match truth(&m) {
            Some(b) => b,
            None => false,
        },
        None => false,
    }
}

/// How a tool is asked to split an archive.
pub open spec fn split_for(args: Seq<char>) -> Outcome<Split> {
    match (under(args, "parts"@), under(args, "part_size"@)) {
        (Some(_), Some(_)) => Err("error.split_conflict"@),
        (Some(n), None) => match crate::json::natural_in(n) {
            Some(1) => Ok(Split::Whole),
            Some(n) if n <= u32::MAX => Ok(Split::Count(n as u32)),
            _ => Err("error.invalid_parts"@),
        },
        (None, Some(s)) => match (crate::json::natural_in(s), crate::json::string_in(s)) {
            (Some(n), _) => Ok(Split::Size(n)),
            (None, Some(t)) => match size_in(t) {
                Some(n) => Ok(Split::Size(n as u64)),
                None => Err("error.invalid_size"@),
            },
            (None, None) => Err("error.invalid_size"@),
        },
        (None, None) => Ok(Split::Whole),
    }
}

fn split(args: &str) -> (r: Result<Split, String>)
    ensures
        crate::wire::plain(r) == split_for(args@),
{
    let parts = match look(args, "parts") {
        Some(m) => Some(natural(&m)),
        None => None,
    };
    let size = match look(args, "part_size") {
        Some(m) => match natural(&m) {
            Some(n) => Some(SizeArgument::Number(Some(n))),
            None => match string(&m) {
                Some(t) => Some(SizeArgument::Text(t)),
                None => Some(SizeArgument::Other),
            },
        },
        None => None,
    };
    choose_split(parts, size)
}

/// What the tool for packing is asked to do.
pub open spec fn packing_for(args: Seq<char>) -> Outcome<Deed> {
    match (filter_for(args), path_for(args, "output_dir"@)) {
        (Err(e), _) => Err(e),
        (Ok(_), Err(e)) => Err(e),
        (Ok(filter), Ok(dir)) => match split_for(args) {
            Err(e) => Err(e),
            Ok(split) => match paths_for(args, "paths"@) {
                Err(e) => Err(e),
                Ok(paths) => Ok(
                    Deed::Pack {
                        paths,
                        filter,
                        preset: match crate::json::string_under(args, "preset"@) {
                            Some(p) => p,
                            None => "balanced"@,
                        },
                        out_dir: Some(dir),
                        split,
                        raw: flag_for(args, "raw"@),
                    },
                ),
            },
        },
    }
}

fn packing(args: &str) -> (r: Result<Job, String>)
    ensures
        job_of(r) == packing_for(args@),
{
    let filter = filter(args)?;
    let dir = path(args, "output_dir")?;
    let preset = match find_string(args, "preset") {
        Some(p) => p,
        None => "balanced".to_owned(),
    };
    let raw = flag(args, "raw");
    let split = split(args)?;
    let paths = paths(args, "paths")?;
    Ok(Job::Pack { paths, options: PackOptions { filter, preset, out_dir: Some(dir), split, raw } })
}

pub open spec fn job_of(r: Result<Job, String>) -> Outcome<Deed> {
    match r {
        Ok(j) => Ok(j@),
        Err(e) => Err(e@),
    }
}

/// What a tool is asked to do, by its name and by the JSON text of its arguments.
pub open spec fn job_for(tool: Seq<char>, args: Seq<char>) -> Outcome<Deed> {
    if tool == "scan"@ {
        match (paths_for(args, "paths"@), filter_for(args)) {
            (Err(e), _) => Err(e),
            (Ok(_), Err(e)) => Err(e),
            (Ok(paths), Ok(filter)) => Ok(Deed::Scan { paths, filter }),
        }
    } else if tool == "pack"@ {
        packing_for(args)
    } else if tool == "unpack"@ {
        match path_for(args, "archive"@) {
            Err(e) => Err(e),
            Ok(archive) => Ok(
                Deed::Unpack { archive, target: crate::json::string_under(args, "output_dir"@) },
            ),
        }
    } else if tool == "info"@ {
        match path_for(args, "archive"@) {
            Err(e) => Err(e),
            Ok(archive) => Ok(Deed::Info { archive, entries: flag_for(args, "include_files"@) }),
        }
    } else if tool == "verify"@ {
        match (path_for(args, "original"@), path_for(args, "restored"@), filter_for(args)) {
            (Err(e), _, _) => Err(e),
            (Ok(_), Err(e), _) => Err(e),
            (Ok(_), Ok(_), Err(e)) => Err(e),
            (Ok(original), Ok(restored), Ok(filter)) => Ok(
                Deed::Verify { original, restored, filter },
            ),
        }
    } else {
        Err(about("unknown tool '"@, tool, "'"@))
    }
}

/// Reads what a tool is asked to do.
pub fn read_job(tool: &str, args: &str) -> (r: Result<Job, String>)
    ensures
        job_of(r) == job_for(tool@, args@),
{
    if same_text(tool, "scan") {
        let paths = paths(args, "paths")?;
        let filter = filter(args)?;
        Ok(Job::Scan { paths, filter })
    } else if same_text(tool, "pack") {
        packing(args)
    } else if same_text(tool, "unpack") {
        let archive = path(args, "archive")?;
        Ok(Job::Unpack { archive, target: find_string(args, "output_dir") })
    } else if same_text(tool, "info") {
        let archive = path(args, "archive")?;
        Ok(Job::Info { archive, entries: flag(args, "include_files") })
    } else if same_text(tool, "verify") {
        let original = path(args, "original")?;
        let restored = path(args, "restored")?;
        let filter = filter(args)?;
        Ok(Job::Verify { original, restored, filter })
    } else {
        Err(tell("unknown tool '", tool, "'"))
    }
}

}
