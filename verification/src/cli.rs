//! The command line: its options, its commands, and the codes that the program ends with.

use crate::agent::{error_code, parse_size};
use crate::container::PackOptions;
use crate::locale::{message_with, Messages};
use crate::scan::Filter;
use crate::text::{letters, parse_number, same_text, starts_with, text};
use crate::volumes::Split;
use crate::wire::{fail, Outcome};
use vstd::prelude::*;

verus! {

/// How results are shown.
#[derive(Clone, Copy, Debug, PartialEq, Eq, Structural)]
pub struct Mode {
    pub json: bool,
    pub quiet: bool,
}

/// The code that the program ends with, by the code of an error.
pub open spec fn exit_for(code: Seq<char>) -> int {
    if code == "error.cancelled"@ {
        130
    } else if code == "error.usage"@ || code == "error.unknown_option"@ || code
        == "error.missing_option_value"@ || code == "error.split_conflict"@ || code
        == "error.invalid_parts"@ || code == "error.invalid_size"@ || code == "error.invalid_filter"@ {
        2
    } else {
        1
    }
}

/// The code that the program ends with after an error. `carries` says whether its text carries a code.
pub fn exit_code(error: &str, carries: bool, english: &Messages) -> (r: i32)
    ensures
        r == exit_for(crate::agent::code_for(error@, carries, english@)),
        forall|code: Seq<char>, args: Seq<Seq<char>>|
            carries && error@ == #[trigger] crate::locale::coded_message(code, args) ==> r == exit_for(code),
{
    let code = error_code(error, carries, english);
    end_code(&code)
}

fn end_code(code: &str) -> (r: i32)
    ensures
        r == exit_for(code@),
{
    if same_text(code, "error.cancelled") {
        130
    } else if same_text(code, "error.usage") || same_text(code, "error.unknown_option") || same_text(
        code,
        "error.missing_option_value",
    ) || same_text(code, "error.split_conflict") || same_text(code, "error.invalid_parts") || same_text(
        code,
        "error.invalid_size",
    ) || same_text(code, "error.invalid_filter") {
        2
    } else {
        1
    }
}

/// The arguments from number `i` on without the options that say how results are shown, and those
/// options. All that follows two hyphens is kept.
pub open spec fn shown_from(args: Seq<Seq<char>>, i: int, kept: Seq<Seq<char>>, mode: Mode) -> (
    Seq<Seq<char>>,
    Mode,
)
    decreases args.len() - i,
{
    if i >= args.len() {
        (kept, mode)
    } else if args[i] == "--"@ {
        (kept + args.skip(i), mode)
    } else if args[i] == "--json"@ {
        shown_from(args, i + 1, kept, Mode { json: true, ..mode })
    } else if args[i] == "--quiet"@ || args[i] == "-q"@ {
        shown_from(args, i + 1, kept, Mode { quiet: true, ..mode })
    } else {
        shown_from(args, i + 1, kept.push(args[i]), mode)
    }
}

fn push_rest(out: &mut Vec<String>, args: &[String], from: usize)
    requires
        from <= args@.len(),
    ensures
        crate::locale::texts(final(out)@) == crate::locale::texts(old(out)@) + crate::locale::texts(
            args@,
        ).skip(from as int),
{
    let ghost (all, start) = (crate::locale::texts(args@), crate::locale::texts(out@));
    let mut i: usize = from;
    assert(crate::locale::texts(out@) =~= start + all.subrange(from as int, from as int));
    while i < args.len()
        invariant
            from <= i <= args.len(),
            all == crate::locale::texts(args@),
            crate::locale::texts(out@) == start + all.subrange(from as int, i as int),
        decreases args.len() - i,
    {
        let ghost before = crate::locale::texts(out@);
        out.push(args[i].clone());
        assert(crate::locale::texts(out@) =~= before.push(all[i as int]));
        i += 1;
        assert(crate::locale::texts(out@) =~= start + all.subrange(from as int, i as int));
    }
    assert(all.subrange(from as int, i as int) =~= all.skip(from as int));
}

/// Takes the options that say how results are shown out of the arguments.
pub fn output_options(args: &[String]) -> (r: (Vec<String>, Mode))
    ensures
        (crate::locale::texts(r.0@), r.1) == shown_from(
            crate::locale::texts(args@),
            0,
            Seq::empty(),
            (Mode { json: false, quiet: false }),
        ),
{
    let ghost all = crate::locale::texts(args@);
    let mut mode = Mode { json: false, quiet: false };
    let ghost whole = shown_from(all, 0, Seq::empty(), mode);
    let mut out: Vec<String> = Vec::new();
    assert(crate::locale::texts(out@) =~= Seq::empty());
    let mut i: usize = 0;
    while i < args.len()
        invariant
            i <= args.len(),
            all == crate::locale::texts(args@),
            whole == shown_from(all, 0, Seq::empty(), (Mode { json: false, quiet: false })),
            whole == shown_from(all, i as int, crate::locale::texts(out@), mode),
        decreases args.len() - i,
    {
        let a = args[i].as_str();
        assert(all[i as int] == a@);
        if same_text(a, "--") {
            push_rest(&mut out, args, i);
            return (out, mode);
        }
        if same_text(a, "--json") {
            mode.json = true;
        } else if same_text(a, "--quiet") || same_text(a, "-q") {
            mode.quiet = true;
        } else {
            let ghost before = crate::locale::texts(out@);
            out.push(args[i].clone());
            assert(crate::locale::texts(out@) =~= before.push(all[i as int]));
        }
        i += 1;
    }
    (out, mode)
}

/// The arguments from number `i` on without the language, and the last language that was read.
pub open spec fn language_from(args: Seq<Seq<char>>, i: int, kept: Seq<Seq<char>>, lang: Seq<char>) -> (
    Outcome<Seq<Seq<char>>>,
    Seq<char>,
)
    decreases args.len() - i,
{
    if i >= args.len() {
        (Ok(kept), lang)
    } else if args[i] == "--"@ {
        (Ok(kept + args.skip(i)), lang)
    } else if args[i] == "--lang"@ {
        if i + 1 >= args.len() {
            (Err("error.missing_option_value"@), lang)
        } else {
            language_from(args, i + 2, kept, args[i + 1])
        }
    } else if crate::text::starts(args[i], "--lang="@) {
        let value = args[i].skip(7);
        if value.len() == 0 {
            (Err("error.missing_option_value"@), lang)
        } else {
            language_from(args, i + 1, kept, value)
        }
    } else {
        language_from(args, i + 1, kept.push(args[i]), lang)
    }
}

pub open spec fn texts_outcome(r: Result<Vec<String>, String>) -> Outcome<Seq<Seq<char>>> {
    match r {
        Ok(v) => Ok(crate::locale::texts(v@)),
        Err(e) => Err(e@),
    }
}

/// Takes the language out of the arguments. Where a value is missing, the language is the last one before.
pub fn language_options(args: &[String], lang: &mut String) -> (r: Result<Vec<String>, String>)
    ensures
        (texts_outcome(r), final(lang)@) == language_from(
            crate::locale::texts(args@),
            0,
            Seq::empty(),
            old(lang)@,
        ),
{
    let ghost all = crate::locale::texts(args@);
    let ghost whole = language_from(all, 0, Seq::empty(), lang@);
    let mut out: Vec<String> = Vec::new();
    assert(crate::locale::texts(out@) =~= Seq::empty());
    let mut i: usize = 0;
    while i < args.len()
        invariant
            i <= args.len(),
            all == crate::locale::texts(args@),
            whole == language_from(all, 0, Seq::empty(), old(lang)@),
            whole == language_from(all, i as int, crate::locale::texts(out@), lang@),
        decreases args.len() - i,
    {
        let v = letters(&args[i]);
        assert(all[i as int] == v@);
        if same_text(&args[i], "--") {
            push_rest(&mut out, args, i);
            return Ok(out);
        }
        if same_text(&args[i], "--lang") {
            i += 1;
            if i >= args.len() {
                return Err(fail("error.missing_option_value"));
            }
            *lang = args[i].clone();
        } else if starts_with(&v, "--lang=") {
            proof {
                reveal_strlit("--lang=");
                assert("--lang="@.len() == 7);
            }
            assert(v@.subrange(7, v@.len() as int) =~= v@.skip(7));
            if v.len() == 7 {
                return Err(fail("error.missing_option_value"));
            }
            *lang = text(&v.as_slice()[7..v.len()]);
        } else {
            let ghost before = crate::locale::texts(out@);
            out.push(args[i].clone());
            assert(crate::locale::texts(out@) =~= before.push(all[i as int]));
        }
        i += 1;
    }
    Ok(out)
}

/// What the options of a command say.
pub struct Options {
    pub paths: Vec<String>,
    pub pack: PackOptions,
    pub target: Option<String>,
}

/// What the options of a command say.
#[verifier::ext_equal]
pub struct Chosen {
    pub paths: Seq<Seq<char>>,
    pub filter: Filter,
    pub preset: Seq<char>,
    pub out_dir: Option<Seq<char>>,
    pub split: Split,
    pub raw: bool,
    pub target: Option<Seq<char>>,
}

pub open spec fn words(o: Option<String>) -> Option<Seq<char>> {
    match o {
        Some(s) => Some(s@),
        None => None,
    }
}

impl View for Options {
    type V = Chosen;

    open spec fn view(&self) -> Chosen {
        Chosen {
            paths: crate::locale::texts(self.paths@),
            filter: self.pack.filter,
            preset: self.pack.preset@,
            out_dir: words(self.pack.out_dir),
            split: self.pack.split,
            raw: self.pack.raw,
            target: words(self.target),
        }
    }
}

/// What the options from number `i` on say, after those before.
pub open spec fn options_from(args: Seq<Seq<char>>, i: int, o: Chosen, split: bool) -> Outcome<Chosen>
    decreases args.len() - i,
{
    if i >= args.len() {
        Ok(o)
    } else {
        let a = args[i];
        let valued = a == "-o"@ || a == "-d"@ || a == "--filter"@ || a == "--preset"@ || a == "--parts"@
            || a == "--part-size"@;
        if (a == "--parts"@ || a == "--part-size"@) && split {
            Err("error.split_conflict"@)
        } else if valued && i + 1 >= args.len() {
            Err("error.missing_option_value"@)
        } else if valued {
            let v = args[i + 1];
            if a == "-o"@ {
                options_from(args, i + 2, Chosen { out_dir: Some(v), ..o }, split)
            } else if a == "-d"@ {
                options_from(args, i + 2, Chosen { target: Some(v), ..o }, split)
            } else if a == "--filter"@ {
                match Filter::named(v) {
                    Some(filter) => options_from(args, i + 2, Chosen { filter, ..o }, split),
                    None => Err(crate::locale::coded_message("error.unsupported_filter"@, seq![v])),
                }
            } else if a == "--preset"@ {
                options_from(args, i + 2, Chosen { preset: v, ..o }, split)
            } else if a == "--parts"@ {
                match crate::text::number(v, u32::MAX as int) {
                    Some(n) => options_from(
                        args,
                        i + 2,
                        Chosen { split: Split::Count(n as u32), ..o },
                        true,
                    ),
                    None => Err("error.invalid_parts"@),
                }
            } else {
                match crate::agent::size_in(v) {
                    Some(n) => options_from(
                        args,
                        i + 2,
                        Chosen { split: Split::Size(n as u64), ..o },
                        true,
                    ),
                    None => Err("error.invalid_size"@),
                }
            }
        } else if a == "--raw"@ {
            options_from(args, i + 1, Chosen { raw: true, ..o }, split)
        } else if a == "--"@ {
            Ok(Chosen { paths: o.paths + args.skip(i + 1), ..o })
        } else if crate::text::starts(a, "-"@) {
            Err(crate::locale::coded_message("error.unknown_option"@, seq![a]))
        } else {
            options_from(args, i + 1, Chosen { paths: o.paths.push(a), ..o }, split)
        }
    }
}

pub open spec fn unchosen() -> Chosen {
    Chosen {
        paths: Seq::empty(),
        filter: Filter::All,
        preset: "balanced"@,
        out_dir: None,
        split: Split::Whole,
        raw: false,
        target: None,
    }
}

pub open spec fn chosen_of(r: Result<Options, String>) -> Outcome<Chosen> {
    match r {
        Ok(o) => Ok(o@),
        Err(e) => Err(e@),
    }
}

/// Sets an option that has a value.
fn set_option(o: &mut Options, split: &mut bool, name: &str, value: &String) -> (r: Result<(), String>)
    requires
        name@ == "-o"@ || name@ == "-d"@ || name@ == "--filter"@ || name@ == "--preset"@ || name@
            == "--parts"@ || name@ == "--part-size"@,
    ensures
        ({
            let (v, c) = (value@, old(o)@);
            let bare = *final(split) == *old(split);
            if name@ == "-o"@ {
                r is Ok && final(o)@ == (Chosen { out_dir: Some(v), ..c }) && bare
            } else if name@ == "-d"@ {
                r is Ok && final(o)@ == (Chosen { target: Some(v), ..c }) && bare
            } else if name@ == "--filter"@ {
                match Filter::named(v) {
                    Some(filter) => r is Ok && final(o)@ == (Chosen { filter, ..c }) && bare,
                    None => r matches Err(e) && e@ == crate::locale::coded_message(
                        "error.unsupported_filter"@,
                        seq![v],
                    ),
                }
            } else if name@ == "--preset"@ {
                r is Ok && final(o)@ == (Chosen { preset: v, ..c }) && bare
            } else if name@ == "--parts"@ {
                match crate::text::number(v, u32::MAX as int) {
                    Some(n) => r is Ok && final(o)@ == (Chosen { split: Split::Count(n as u32), ..c })
                        && *final(split),
                    None => r matches Err(e) && e@ == "error.invalid_parts"@,
                }
            } else {
                match crate::agent::size_in(v) {
                    Some(n) => r is Ok && final(o)@ == (Chosen { split: Split::Size(n as u64), ..c })
                        && *final(split),
                    None => r matches Err(e) && e@ == "error.invalid_size"@,
                }
            }
        }),
{
    if same_text(name, "-o") {
        o.pack.out_dir = Some(value.clone());
    } else if same_text(name, "-d") {
        o.target = Some(value.clone());
    } else if same_text(name, "--filter") {
        match Filter::parse(value) {
            Ok(f) => {
                o.pack.filter = f;
            },
            Err(e) => {
                return Err(e);
            },
        }
    } else if same_text(name, "--preset") {
        o.pack.preset = value.clone();
    } else if same_text(name, "--parts") {
        match parse_number(&letters(value), 0xffff_ffff) {
            Some(n) => {
                o.pack.split = Split::Count(n as u32);
                *split = true;
            },
            None => {
                return Err(fail("error.invalid_parts"));
            },
        }
    } else {
        match parse_size(value) {
            Ok(n) => {
                o.pack.split = Split::Size(n);
                *split = true;
            },
            Err(e) => {
                return Err(e);
            },
        }
    }
    Ok(())
}

/// Reads the options of a command, which follow its name.
#[verifier::spinoff_prover]
#[verifier::rlimit(40)]
pub fn parse_options(args: &[String]) -> (r: Result<Options, String>)
    ensures
        chosen_of(r) == options_from(crate::locale::texts(args@), 1, unchosen(), false),
{
    let ghost all = crate::locale::texts(args@);
    let mut o = Options { paths: Vec::new(), pack: PackOptions::default(), target: None };
    let mut split = false;
    assert(o@ =~= unchosen());
    let ghost whole = options_from(all, 1, unchosen(), false);
    let mut i: usize = 1;
    while i < args.len()
        invariant
            i >= 1,
            all == crate::locale::texts(args@),
            whole == options_from(all, 1, unchosen(), false),
            whole == options_from(all, i as int, o@, split),
        decreases args.len() - i,
    {
        let a = args[i].as_str();
        assert(all[i as int] == a@);
        let parted: bool = same_text(a, "--parts") || same_text(a, "--part-size");
        let valued: bool = parted || same_text(a, "-o") || same_text(a, "-d") || same_text(a, "--filter")
            || same_text(a, "--preset");
        if parted && split {
            return Err(fail("error.split_conflict"));
        }
        if valued {
            if i >= args.len() - 1 {
                return Err(fail("error.missing_option_value"));
            }
            assert(all[i + 1] == args@[i + 1]@);
            match set_option(&mut o, &mut split, a, &args[i + 1]) {
                Err(e) => {
                    return Err(e);
                },
                Ok(_) => {},
            }
            i += 2;
        } else if same_text(a, "--raw") {
            let ghost before = o@;
            o.pack.raw = true;
            assert(o@ =~= (Chosen { raw: true, ..before }));
            i += 1;
        } else if same_text(a, "--") {
            let ghost before = o@;
            push_rest(&mut o.paths, args, i + 1);
            assert(o@ =~= (Chosen { paths: before.paths + all.skip(i + 1), ..before }));
            return Ok(o);
        } else if starts_with(&letters(a), "-") {
            return Err(message_with("error.unknown_option", args[i].clone()));
        } else {
            let ghost before = o@;
            o.paths.push(args[i].clone());
            assert(o@ =~= (Chosen { paths: before.paths.push(all[i as int]), ..before }));
            i += 1;
        }
    }
    Ok(o)
}

/// What the program does.
#[derive(Clone, Copy, Debug, PartialEq, Eq, Structural)]
pub enum Command {
    Pack,
    Unpack,
    Scan,
    Info,
    Verify,
}

/// What a command with a number of paths does.
pub open spec fn command_of(name: Seq<char>, paths: int) -> Option<Command> {
    if name == "pack"@ {
        Some(Command::Pack)
    } else if name == "unpack"@ && paths == 1 {
        Some(Command::Unpack)
    } else if name == "scan"@ {
        Some(Command::Scan)
    } else if name == "info"@ && paths == 1 {
        Some(Command::Info)
    } else if name == "verify"@ && paths == 2 {
        Some(Command::Verify)
    } else {
        None
    }
}

/// Finds what a command does.
pub fn command(name: &str, paths: usize) -> (r: Result<Command, String>)
    ensures
        match r {
            Ok(c) => command_of(name@, paths as int) == Some(c),
            Err(e) => command_of(name@, paths as int) is None && e@ == "error.usage"@,
        },
{
    if same_text(name, "pack") {
        Ok(Command::Pack)
    } else if same_text(name, "unpack") && paths == 1 {
        Ok(Command::Unpack)
    } else if same_text(name, "scan") {
        Ok(Command::Scan)
    } else if same_text(name, "info") && paths == 1 {
        Ok(Command::Info)
    } else if same_text(name, "verify") && paths == 2 {
        Ok(Command::Verify)
    } else {
        Err(fail("error.usage"))
    }
}

/// Whether a report is shown: of a new phase, after a while, or when a phase is done.
pub fn worth_showing(quiet: bool, new_phase: bool, late: bool, done: u64, total: u64) -> (r: bool)
    ensures
        r == (!quiet && (new_phase || late || done == total)),
{
    !quiet && (new_phase || late || done == total)
}

}
