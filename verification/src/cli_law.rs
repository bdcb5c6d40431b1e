//! What holds of the command line.

use crate::cli::{Chosen, Command, Mode};
use crate::scan::Filter;
use crate::volumes::Split;
use vstd::prelude::*;

verus! {

/// The program ends with 130 where it was cancelled, with 2 where it was called wrongly, and with 1 after any other
/// error.
pub proof fn law_exit_codes(code: Seq<char>)
    ensures
        crate::cli::exit_for(code) == 130 <==> code == "error.cancelled"@,
        crate::cli::exit_for(code) == 2 <==> code == "error.usage"@ || code == "error.unknown_option"@ || code
            == "error.missing_option_value"@ || code == "error.split_conflict"@ || code == "error.invalid_parts"@ || code
            == "error.invalid_size"@ || code == "error.invalid_filter"@,
        crate::cli::exit_for(code) == 130 || crate::cli::exit_for(code) == 2 || crate::cli::exit_for(code) == 1,
{
    reveal_strlit("error.cancelled");
    reveal_strlit("error.usage");
    reveal_strlit("error.unknown_option");
    reveal_strlit("error.missing_option_value");
    reveal_strlit("error.split_conflict");
    reveal_strlit("error.invalid_parts");
    reveal_strlit("error.invalid_size");
    reveal_strlit("error.invalid_filter");
    assert("error.cancelled"@[6] == 'c' && "error.usage"@[6] == 'u' && "error.unknown_option"@[6] == 'u'
        && "error.missing_option_value"@[6] == 'm' && "error.split_conflict"@[6] == 's' && "error.invalid_parts"@[6]
        == 'i' && "error.invalid_size"@[6] == 'i' && "error.invalid_filter"@[6] == 'i');
}

/// The commands are these, and some take a number of paths of their own: an archive is unpacked or told of alone, and
/// two folders are compared.
pub proof fn law_commands(name: Seq<char>, paths: int)
    ensures
        crate::cli::command_of(name, paths) == Some(Command::Pack) <==> name == "pack"@,
        crate::cli::command_of(name, paths) == Some(Command::Scan) <==> name == "scan"@,
        crate::cli::command_of(name, paths) == Some(Command::Unpack) <==> name == "unpack"@ && paths == 1,
        crate::cli::command_of(name, paths) == Some(Command::Info) <==> name == "info"@ && paths == 1,
        crate::cli::command_of(name, paths) == Some(Command::Verify) <==> name == "verify"@ && paths == 2,
{
    reveal_strlit("scan");
    reveal_strlit("pack");
    reveal_strlit("unpack");
    reveal_strlit("info");
    reveal_strlit("verify");
    assert("scan"@[0] == 's' && "pack"@[0] == 'p' && "unpack"@[0] == 'u' && "info"@[0] == 'i' && "verify"@[0] == 'v');
}

/// What is left of some arguments, and how results are shown.
pub open spec fn shown(args: Seq<Seq<char>>) -> (Seq<Seq<char>>, Mode) {
    crate::cli::shown_from(args, 0, Seq::empty(), Mode { json: false, quiet: false })
}

proof fn lemma_shown(args: Seq<Seq<char>>, i: int, kept: Seq<Seq<char>>, mode: Mode)
    requires
        0 <= i <= args.len(),
    ensures
        ({
            let (k, m) = crate::cli::shown_from(args, i, kept, mode);
            let (l, n) = shown(args.skip(i));
            &&& k == kept + l
            &&& m.json == (mode.json || n.json)
            &&& m.quiet == (mode.quiet || n.quiet)
        }),
    decreases args.len() - i,
{
    let rest = args.skip(i);
    let none = Mode { json: false, quiet: false };
    if i < args.len() {
        assert(rest[0] == args[i]);
        assert(rest.skip(1) =~= args.skip(i + 1));
        assert(rest.skip(0) =~= rest);
        if args[i] == "--"@ {
            assert(Seq::<Seq<char>>::empty() + rest =~= rest);
        } else if args[i] == "--json"@ {
            lemma_shown(args, i + 1, kept, Mode { json: true, ..mode });
            lemma_shown(rest, 1, Seq::empty(), Mode { json: true, ..none });
            assert(Seq::<Seq<char>>::empty() + shown(rest.skip(1)).0 =~= shown(rest.skip(1)).0);
        } else if args[i] == "--quiet"@ || args[i] == "-q"@ {
            lemma_shown(args, i + 1, kept, Mode { quiet: true, ..mode });
            lemma_shown(rest, 1, Seq::empty(), Mode { quiet: true, ..none });
            assert(Seq::<Seq<char>>::empty() + shown(rest.skip(1)).0 =~= shown(rest.skip(1)).0);
        } else {
            lemma_shown(args, i + 1, kept.push(args[i]), mode);
            lemma_shown(rest, 1, Seq::<Seq<char>>::empty().push(args[i]), none);
            let l = shown(rest.skip(1)).0;
            assert(kept.push(args[i]) + l =~= kept + (Seq::<Seq<char>>::empty().push(args[i]) + l));
        }
    } else {
        assert(rest.len() == 0);
        assert(kept + Seq::<Seq<char>>::empty() =~= kept);
    }
}

/// The options that say how results are shown may stand anywhere before two hyphens, and are taken out of the
/// arguments. All others are left, in their order, and so is all that follows two hyphens.
pub proof fn law_output_options(first: Seq<char>, rest: Seq<Seq<char>>)
    ensures
        shown(Seq::empty()) == (Seq::<Seq<char>>::empty(), Mode { json: false, quiet: false }),
        ({
            let (kept, mode) = shown(seq![first] + rest);
            let (l, m) = shown(rest);
            &&& first == "--"@ ==> kept == seq![first] + rest && !mode.json && !mode.quiet
            &&& first == "--json"@ ==> kept == l && mode.json && mode.quiet == m.quiet
            &&& first == "--quiet"@ || first == "-q"@ ==> kept == l && mode.quiet && mode.json == m.json
            &&& first != "--"@ && first != "--json"@ && first != "--quiet"@ && first != "-q"@ ==> kept == seq![first] + l
                && mode == m
        }),
{
    reveal_strlit("--");
    reveal_strlit("--json");
    reveal_strlit("--quiet");
    reveal_strlit("-q");
    assert("--"@.len() == 2 && "--json"@.len() == 6 && "--quiet"@.len() == 7 && "-q"@.len() == 2 && "--"@[1] == '-'
        && "-q"@[1] == 'q');
    let all = seq![first] + rest;
    let none = Mode { json: false, quiet: false };
    assert(all[0] == first);
    assert(all.skip(1) =~= rest);
    assert(all.skip(0) =~= all);
    assert(Seq::<Seq<char>>::empty() + all =~= all);
    lemma_shown(all, 1, Seq::empty(), Mode { json: true, ..none });
    lemma_shown(all, 1, Seq::empty(), Mode { quiet: true, ..none });
    lemma_shown(all, 1, Seq::<Seq<char>>::empty().push(first), none);
    assert(Seq::<Seq<char>>::empty() + shown(rest).0 =~= shown(rest).0);
    assert(Seq::<Seq<char>>::empty().push(first) =~= seq![first]);
}

proof fn lemma_language(args: Seq<Seq<char>>, i: int, kept: Seq<Seq<char>>, lang: Seq<char>)
    requires
        0 <= i <= args.len(),
    ensures
        ({
            let (k, m) = crate::cli::language_from(args, i, kept, lang);
            let (l, n) = crate::cli::language_from(args.skip(i), 0, Seq::empty(), lang);
            &&& m == n
            &&& l matches Err(e) ==> k == Err::<Seq<Seq<char>>, Seq<char>>(e)
            &&& l matches Ok(v) ==> k == Ok::<Seq<Seq<char>>, Seq<char>>(kept + v)
        }),
    decreases args.len() - i,
{
    let rest = args.skip(i);
    if i < args.len() {
        assert(rest[0] == args[i]);
        assert(rest.skip(1) =~= args.skip(i + 1));
        assert(rest.skip(0) =~= rest);
        if args[i] == "--"@ {
            assert(Seq::<Seq<char>>::empty() + rest =~= rest);
        } else if args[i] == "--lang"@ {
            if i + 1 < args.len() {
                assert(rest[1] == args[i + 1]);
                assert(rest.skip(2) =~= args.skip(i + 2));
                lemma_language(args, i + 2, kept, args[i + 1]);
                lemma_language(rest, 2, Seq::empty(), args[i + 1]);
                let l = crate::cli::language_from(rest.skip(2), 0, Seq::empty(), args[i + 1]).0;
                if let Ok(v) = l {
                    assert(Seq::<Seq<char>>::empty() + v =~= v);
                }
            }
        } else if crate::text::starts(args[i], "--lang="@) {
            let value = args[i].skip(7);
            if value.len() > 0 {
                lemma_language(args, i + 1, kept, value);
                lemma_language(rest, 1, Seq::empty(), value);
                let l = crate::cli::language_from(rest.skip(1), 0, Seq::empty(), value).0;
                if let Ok(v) = l {
                    assert(Seq::<Seq<char>>::empty() + v =~= v);
                }
            }
        } else {
            lemma_language(args, i + 1, kept.push(args[i]), lang);
            lemma_language(rest, 1, Seq::<Seq<char>>::empty().push(args[i]), lang);
            let l = crate::cli::language_from(rest.skip(1), 0, Seq::empty(), lang).0;
            if let Ok(v) = l {
                assert(kept.push(args[i]) + v =~= kept + (Seq::<Seq<char>>::empty().push(args[i]) + v));
            }
        }
    } else {
        assert(kept + Seq::<Seq<char>>::empty() =~= kept);
    }
}

/// The language may be asked for anywhere before two hyphens, in one argument or in two, and the last one counts. A
/// missing value is an error. All other arguments are left, in their order, and so is all that follows two hyphens.
#[verifier::spinoff_prover]
pub proof fn law_language_options(first: Seq<char>, value: Seq<char>, rest: Seq<Seq<char>>, lang: Seq<char>)
    ensures
        crate::cli::language_from(Seq::empty(), 0, Seq::empty(), lang) == (
            Ok::<Seq<Seq<char>>, Seq<char>>(Seq::empty()),
            lang,
        ),
        crate::cli::language_from(seq!["--lang"@], 0, Seq::empty(), lang).0 == Err::<Seq<Seq<char>>, Seq<char>>(
            "error.missing_option_value"@,
        ),
        crate::cli::language_from(seq!["--lang"@, value] + rest, 0, Seq::empty(), lang) == crate::cli::language_from(
            rest,
            0,
            Seq::empty(),
            value,
        ),
        value.len() > 0 ==> crate::cli::language_from(seq!["--lang="@ + value] + rest, 0, Seq::empty(), lang)
            == crate::cli::language_from(rest, 0, Seq::empty(), value),
        crate::cli::language_from(seq!["--lang="@] + rest, 0, Seq::empty(), lang).0 == Err::<Seq<Seq<char>>, Seq<char>>(
            "error.missing_option_value"@,
        ),
        crate::cli::language_from(seq!["--"@] + rest, 0, Seq::empty(), lang) == (
            Ok::<Seq<Seq<char>>, Seq<char>>(seq!["--"@] + rest),
            lang,
        ),
        first != "--"@ && first != "--lang"@ && !crate::text::starts(first, "--lang="@) ==> {
            let (k, m) = crate::cli::language_from(seq![first] + rest, 0, Seq::empty(), lang);
            let (l, n) = crate::cli::language_from(rest, 0, Seq::empty(), lang);
            &&& m == n
            &&& l matches Err(e) ==> k == Err::<Seq<Seq<char>>, Seq<char>>(e)
            &&& l matches Ok(v) ==> k == Ok::<Seq<Seq<char>>, Seq<char>>(seq![first] + v)
        },
{
    reveal_strlit("--");
    reveal_strlit("--lang");
    reveal_strlit("--lang=");
    let none = Seq::<Seq<char>>::empty();
    assert("--"@.len() == 2 && "--lang"@.len() == 6 && "--lang="@.len() == 7);
    let two = seq!["--lang"@, value] + rest;
    assert(two[0] == "--lang"@ && two[1] == value);
    assert(two.skip(2) =~= rest);
    lemma_language(two, 2, none, value);
    if let Ok(v) = crate::cli::language_from(rest, 0, none, value).0 {
        assert(none + v =~= v);
    }
    let word = "--lang="@ + value;
    let one = seq![word] + rest;
    assert(one[0] == word);
    assert(word.take(7) =~= "--lang="@);
    assert(word.skip(7) =~= value);
    assert(one.skip(1) =~= rest);
    assert(word.len() == 7 + value.len());
    lemma_language(one, 1, none, value);
    let bare = seq!["--lang="@] + rest;
    assert(bare[0] == "--lang="@);
    assert("--lang="@.take(7) =~= "--lang="@);
    assert("--lang="@.skip(7).len() == 0);
    let stop = seq!["--"@] + rest;
    assert(stop[0] == "--"@);
    assert(none + stop.skip(0) =~= stop);
    let all = seq![first] + rest;
    assert(all[0] == first);
    assert(all.skip(1) =~= rest);
    lemma_language(all, 1, none.push(first), lang);
    assert(none.push(first) =~= seq![first]);
}

/// What options say where nothing is asked for: all files, the middle preset, the archive in one piece beside what is
/// packed.
pub open spec fn plainly(paths: Seq<Seq<char>>) -> Chosen {
    Chosen {
        paths,
        filter: Filter::All,
        preset: "balanced"@,
        out_dir: None,
        split: Split::Whole,
        raw: false,
        target: None,
    }
}

/// Whether options were read, and none of them was two hyphens.
pub open spec fn read_as(args: Seq<Seq<char>>, c: Chosen) -> bool {
    &&& args.len() >= 1
    &&& crate::cli::options_from(args, 1, crate::cli::unchosen(), false) == Ok::<Chosen, Seq<char>>(c)
    &&& forall|k: int| 1 <= k < args.len() ==> #[trigger] args[k] != "--"@
}

/// What options say goes on from what those before them say.
#[verifier::spinoff_prover]
#[verifier::rlimit(60)]
proof fn lemma_options_on(args: Seq<Seq<char>>, more: Seq<Seq<char>>, i: int, o: Chosen, split: bool, c: Chosen)
    requires
        0 <= i <= args.len(),
        split == !(o.split is Whole),
        crate::cli::options_from(args, i, o, split) == Ok::<Chosen, Seq<char>>(c),
        forall|k: int| i <= k < args.len() ==> #[trigger] args[k] != "--"@,
    ensures
        crate::cli::options_from(args + more, i, o, split) == crate::cli::options_from(
            args + more,
            args.len() as int,
            c,
            !(c.split is Whole),
        ),
    decreases args.len() - i,
{
    let all = args + more;
    if i < args.len() {
        assert(all[i] == args[i]);
        let a = args[i];
        assert(a != "--"@);
        let valued = a == "-o"@ || a == "-d"@ || a == "--filter"@ || a == "--preset"@ || a == "--parts"@ || a
            == "--part-size"@;
        if valued {
            assert(i + 1 < args.len());
            let v = args[i + 1];
            assert(all[i + 1] == v);
            if a == "-o"@ {
                lemma_options_on(args, more, i + 2, Chosen { out_dir: Some(v), ..o }, split, c);
            } else if a == "-d"@ {
                lemma_options_on(args, more, i + 2, Chosen { target: Some(v), ..o }, split, c);
            } else if a == "--filter"@ {
                let filter = Filter::named(v)->Some_0;
                lemma_options_on(args, more, i + 2, Chosen { filter, ..o }, split, c);
            } else if a == "--preset"@ {
                lemma_options_on(args, more, i + 2, Chosen { preset: v, ..o }, split, c);
            } else if a == "--parts"@ {
                let n = crate::text::number(v, u32::MAX as int)->Some_0;
                lemma_options_on(args, more, i + 2, Chosen { split: Split::Count(n as u32), ..o }, true, c);
            } else {
                let n = crate::agent::size_in(v)->Some_0;
                lemma_options_on(args, more, i + 2, Chosen { split: Split::Size(n as u64), ..o }, true, c);
            }
        } else if a == "--raw"@ {
            lemma_options_on(args, more, i + 1, Chosen { raw: true, ..o }, split, c);
        } else {
            lemma_options_on(args, more, i + 1, Chosen { paths: o.paths.push(a), ..o }, split, c);
        }
    }
}

/// What options say, if they can be read.
pub open spec fn options(args: Seq<Seq<char>>) -> crate::wire::Outcome<Chosen> {
    crate::cli::options_from(args, 1, crate::cli::unchosen(), false)
}

/// Where there are no options, all files are taken, with the middle preset and in one piece.
pub proof fn law_options_may_be_left_out(name: Seq<char>)
    ensures
        options(Seq::empty()) == Ok::<Chosen, Seq<char>>(plainly(Seq::empty())),
        options(seq![name]) == Ok::<Chosen, Seq<char>>(plainly(Seq::empty())),
{
}

#[verifier::spinoff_prover]
proof fn lemma_dir(args: Seq<Seq<char>>, v: Seq<char>, c: Chosen)
    requires
        read_as(args, c),
    ensures
        options(args + seq!["-o"@, v]) == Ok::<Chosen, Seq<char>>(Chosen { out_dir: Some(v), ..c }),
{
    lemma_names();
    let n = args.len() as int;
    let all = args + seq!["-o"@, v];
    lemma_options_on(args, seq!["-o"@, v], 1, crate::cli::unchosen(), false, c);
    assert(all.len() == n + 2 && all[n] == "-o"@ && all[n + 1] == v);
    let next = Chosen { out_dir: Some(v), ..c };
    assert(crate::cli::options_from(all, n + 2, next, !(c.split is Whole)) == Ok::<Chosen, Seq<char>>(next));
}

#[verifier::spinoff_prover]
proof fn lemma_target(args: Seq<Seq<char>>, v: Seq<char>, c: Chosen)
    requires
        read_as(args, c),
    ensures
        options(args + seq!["-d"@, v]) == Ok::<Chosen, Seq<char>>(Chosen { target: Some(v), ..c }),
{
    lemma_names();
    let n = args.len() as int;
    let all = args + seq!["-d"@, v];
    lemma_options_on(args, seq!["-d"@, v], 1, crate::cli::unchosen(), false, c);
    assert(all.len() == n + 2 && all[n] == "-d"@ && all[n + 1] == v);
    let next = Chosen { target: Some(v), ..c };
    assert(crate::cli::options_from(all, n + 2, next, !(c.split is Whole)) == Ok::<Chosen, Seq<char>>(next));
}

#[verifier::spinoff_prover]
proof fn lemma_preset(args: Seq<Seq<char>>, v: Seq<char>, c: Chosen)
    requires
        read_as(args, c),
    ensures
        options(args + seq!["--preset"@, v]) == Ok::<Chosen, Seq<char>>(Chosen { preset: v, ..c }),
{
    lemma_names();
    let n = args.len() as int;
    let all = args + seq!["--preset"@, v];
    lemma_options_on(args, seq!["--preset"@, v], 1, crate::cli::unchosen(), false, c);
    assert(all.len() == n + 2 && all[n] == "--preset"@ && all[n + 1] == v);
    let next = Chosen { preset: v, ..c };
    assert(crate::cli::options_from(all, n + 2, next, !(c.split is Whole)) == Ok::<Chosen, Seq<char>>(next));
}

#[verifier::spinoff_prover]
proof fn lemma_filter(args: Seq<Seq<char>>, v: Seq<char>, c: Chosen)
    requires
        read_as(args, c),
    ensures
        Filter::named(v) matches Some(f) ==> options(args + seq!["--filter"@, v]) == Ok::<Chosen, Seq<char>>(
            Chosen { filter: f, ..c },
        ),
        Filter::named(v) is None ==> options(args + seq!["--filter"@, v]) == Err::<Chosen, Seq<char>>(
            crate::locale::coded_message("error.unsupported_filter"@, seq![v]),
        ),
{
    lemma_names();
    let n = args.len() as int;
    let all = args + seq!["--filter"@, v];
    lemma_options_on(args, seq!["--filter"@, v], 1, crate::cli::unchosen(), false, c);
    assert(all.len() == n + 2 && all[n] == "--filter"@ && all[n + 1] == v);
    if let Some(f) = Filter::named(v) {
        let next = Chosen { filter: f, ..c };
        assert(crate::cli::options_from(all, n + 2, next, !(c.split is Whole)) == Ok::<Chosen, Seq<char>>(next));
    }
}

#[verifier::spinoff_prover]
proof fn lemma_parts(args: Seq<Seq<char>>, v: Seq<char>, c: Chosen)
    requires
        read_as(args, c),
    ensures
        c.split is Whole ==> options(args + seq!["--parts"@, v]) == match crate::text::number(v, 4_294_967_295) {
            Some(n) => Ok::<Chosen, Seq<char>>(Chosen { split: Split::Count(n as u32), ..c }),
            None => Err("error.invalid_parts"@),
        },
        !(c.split is Whole) ==> options(args + seq!["--parts"@, v]) == Err::<Chosen, Seq<char>>("error.split_conflict"@),
{
    lemma_names();
    let n = args.len() as int;
    let all = args + seq!["--parts"@, v];
    lemma_options_on(args, seq!["--parts"@, v], 1, crate::cli::unchosen(), false, c);
    assert(all.len() == n + 2 && all[n] == "--parts"@ && all[n + 1] == v);
    if let Some(m) = crate::text::number(v, 4_294_967_295) {
        let next = Chosen { split: Split::Count(m as u32), ..c };
        assert(crate::cli::options_from(all, n + 2, next, true) == Ok::<Chosen, Seq<char>>(next));
    }
}

#[verifier::spinoff_prover]
proof fn lemma_part_size(args: Seq<Seq<char>>, v: Seq<char>, c: Chosen)
    requires
        read_as(args, c),
    ensures
        c.split is Whole ==> options(args + seq!["--part-size"@, v]) == match crate::agent::size_in(v) {
            Some(n) => Ok::<Chosen, Seq<char>>(Chosen { split: Split::Size(n as u64), ..c }),
            None => Err("error.invalid_size"@),
        },
        !(c.split is Whole) ==> options(args + seq!["--part-size"@, v]) == Err::<Chosen, Seq<char>>("error.split_conflict"@),
{
    lemma_names();
    let n = args.len() as int;
    let all = args + seq!["--part-size"@, v];
    lemma_options_on(args, seq!["--part-size"@, v], 1, crate::cli::unchosen(), false, c);
    assert(all.len() == n + 2 && all[n] == "--part-size"@ && all[n + 1] == v);
    if let Some(m) = crate::agent::size_in(v) {
        let next = Chosen { split: Split::Size(m as u64), ..c };
        assert(crate::cli::options_from(all, n + 2, next, true) == Ok::<Chosen, Seq<char>>(next));
    }
}

/// One more option behind others changes what it is for, and nothing else: the filter, the preset, where the archive
/// or the files are written, how the archive is split, whether files are stored as they are. What does not begin with
/// a hyphen, or stands behind two of them, is one more path.
#[verifier::spinoff_prover]
#[verifier::rlimit(60)]
pub proof fn law_options_say_one_thing_each(args: Seq<Seq<char>>, v: Seq<char>, rest: Seq<Seq<char>>, c: Chosen)
    requires
        read_as(args, c),
    ensures
        options(args + seq!["-o"@, v]) == Ok::<Chosen, Seq<char>>(Chosen { out_dir: Some(v), ..c }),
        options(args + seq!["-d"@, v]) == Ok::<Chosen, Seq<char>>(Chosen { target: Some(v), ..c }),
        options(args + seq!["--preset"@, v]) == Ok::<Chosen, Seq<char>>(Chosen { preset: v, ..c }),
        options(args + seq!["--raw"@]) == Ok::<Chosen, Seq<char>>(Chosen { raw: true, ..c }),
        Filter::named(v) matches Some(f) ==> options(args + seq!["--filter"@, v]) == Ok::<Chosen, Seq<char>>(
            Chosen { filter: f, ..c },
        ),
        Filter::named(v) is None ==> options(args + seq!["--filter"@, v]) == Err::<Chosen, Seq<char>>(
            crate::locale::coded_message("error.unsupported_filter"@, seq![v]),
        ),
        c.split is Whole ==> options(args + seq!["--parts"@, v]) == match crate::text::number(v, 4_294_967_295) {
            Some(n) => Ok::<Chosen, Seq<char>>(Chosen { split: Split::Count(n as u32), ..c }),
            None => Err("error.invalid_parts"@),
        },
        c.split is Whole ==> options(args + seq!["--part-size"@, v]) == match crate::agent::size_in(v) {
            Some(n) => Ok::<Chosen, Seq<char>>(Chosen { split: Split::Size(n as u64), ..c }),
            None => Err("error.invalid_size"@),
        },
        !(c.split is Whole) ==> options(args + seq!["--parts"@, v]) == Err::<Chosen, Seq<char>>("error.split_conflict"@)
            && options(args + seq!["--part-size"@, v]) == Err::<Chosen, Seq<char>>("error.split_conflict"@),
        options(args + seq!["--"@] + rest) == Ok::<Chosen, Seq<char>>(Chosen { paths: c.paths + rest, ..c }),
        !crate::text::starts(v, seq!['-']) ==> options(args + seq![v]) == Ok::<Chosen, Seq<char>>(
            Chosen { paths: c.paths.push(v), ..c },
        ),
{
    lemma_names();
    lemma_dir(args, v, c);
    lemma_target(args, v, c);
    lemma_preset(args, v, c);
    lemma_filter(args, v, c);
    lemma_parts(args, v, c);
    lemma_part_size(args, v, c);
    let u = crate::cli::unchosen();
    let n = args.len() as int;
    lemma_options_on(args, seq!["--raw"@], 1, u, false, c);
    let raw = args + seq!["--raw"@];
    assert(raw[n] == "--raw"@);
    assert(crate::cli::options_from(raw, n + 1, Chosen { raw: true, ..c }, !(c.split is Whole)) == Ok::<
        Chosen,
        Seq<char>,
    >(Chosen { raw: true, ..c }));
    lemma_options_on(args, seq![v], 1, u, false, c);
    let path = args + seq![v];
    assert(path[n] == v);
    let more = Chosen { paths: c.paths.push(v), ..c };
    assert(crate::cli::options_from(path, n + 1, more, !(c.split is Whole)) == Ok::<Chosen, Seq<char>>(more));
    let stop = args + seq!["--"@] + rest;
    assert(stop =~= args + (seq!["--"@] + rest));
    lemma_options_on(args, seq!["--"@] + rest, 1, u, false, c);
    assert(stop[n] == "--"@);
    assert(stop.skip(n + 1) =~= rest);
}

#[verifier::spinoff_prover]
proof fn lemma_names()
    ensures
        "-"@ == seq!['-'],
        "-o"@ != "-d"@,
        "-o"@ != "--preset"@,
        "-o"@ != "--filter"@,
        "-o"@ != "--parts"@,
        "-o"@ != "--part-size"@,
        "-o"@ != "--raw"@,
        "-o"@ != "--"@,
        "-d"@ != "--preset"@,
        "-d"@ != "--filter"@,
        "-d"@ != "--parts"@,
        "-d"@ != "--part-size"@,
        "-d"@ != "--raw"@,
        "-d"@ != "--"@,
        "--preset"@ != "--filter"@,
        "--preset"@ != "--parts"@,
        "--preset"@ != "--part-size"@,
        "--preset"@ != "--raw"@,
        "--preset"@ != "--"@,
        "--filter"@ != "--parts"@,
        "--filter"@ != "--part-size"@,
        "--filter"@ != "--raw"@,
        "--filter"@ != "--"@,
        "--parts"@ != "--part-size"@,
        "--parts"@ != "--raw"@,
        "--parts"@ != "--"@,
        "--part-size"@ != "--raw"@,
        "--part-size"@ != "--"@,
        "--raw"@ != "--"@,
        crate::text::starts("-o"@, seq!['-']),
        crate::text::starts("-d"@, seq!['-']),
        crate::text::starts("--preset"@, seq!['-']),
        crate::text::starts("--filter"@, seq!['-']),
        crate::text::starts("--parts"@, seq!['-']),
        crate::text::starts("--part-size"@, seq!['-']),
        crate::text::starts("--raw"@, seq!['-']),
        crate::text::starts("--"@, seq!['-']),
{
    reveal_strlit("-");
    reveal_strlit("-o");
    reveal_strlit("-d");
    reveal_strlit("--preset");
    reveal_strlit("--filter");
    reveal_strlit("--parts");
    reveal_strlit("--part-size");
    reveal_strlit("--raw");
    reveal_strlit("--");
    assert("-"@ =~= seq!['-']);
    assert("-o"@.len() == 2 && "-o"@[0] == '-' && "-o"@[1] == 'o');
    assert("-d"@.len() == 2 && "-d"@[0] == '-' && "-d"@[1] == 'd');
    assert("--preset"@.len() == 8 && "--preset"@[0] == '-' && "--preset"@[1] == '-' && "--preset"@[2] == 'p');
    assert("--filter"@.len() == 8 && "--filter"@[0] == '-' && "--filter"@[1] == '-' && "--filter"@[2] == 'f');
    assert("--parts"@.len() == 7 && "--parts"@[0] == '-' && "--parts"@[1] == '-' && "--parts"@[2] == 'p');
    assert("--part-size"@.len() == 11 && "--part-size"@[0] == '-' && "--part-size"@[1] == '-' && "--part-size"@[2] == 'p');
    assert("--raw"@.len() == 5 && "--raw"@[0] == '-' && "--raw"@[1] == '-' && "--raw"@[2] == 'r');
    assert("--"@.len() == 2 && "--"@[0] == '-' && "--"@[1] == '-');
    assert("-o"@.take(1) =~= seq!['-']);
    assert("-d"@.take(1) =~= seq!['-']);
    assert("--preset"@.take(1) =~= seq!['-']);
    assert("--filter"@.take(1) =~= seq!['-']);
    assert("--parts"@.take(1) =~= seq!['-']);
    assert("--part-size"@.take(1) =~= seq!['-']);
    assert("--raw"@.take(1) =~= seq!['-']);
    assert("--"@.take(1) =~= seq!['-']);
}

/// An option that needs a value is an error without one, and so is one that is not known.
#[verifier::spinoff_prover]
#[verifier::rlimit(60)]
pub proof fn law_wrong_options_are_told(args: Seq<Seq<char>>, v: Seq<char>, c: Chosen)
    requires
        read_as(args, c),
    ensures
        v == "-o"@ || v == "-d"@ || v == "--filter"@ || v == "--preset"@ || (c.split is Whole && (v == "--parts"@ || v
            == "--part-size"@)) ==> options(args + seq![v]) == Err::<Chosen, Seq<char>>("error.missing_option_value"@),
        crate::text::starts(v, seq!['-']) && v != "-o"@ && v != "-d"@ && v != "--filter"@ && v != "--preset"@ && v
            != "--parts"@ && v != "--part-size"@ && v != "--raw"@ && v != "--"@ ==> options(args + seq![v]) == Err::<
            Chosen,
            Seq<char>,
        >(crate::locale::coded_message("error.unknown_option"@, seq![v])),
{
    lemma_names();
    lemma_options_on(args, seq![v], 1, crate::cli::unchosen(), false, c);
    assert((args + seq![v])[args.len() as int] == v);
}

}
