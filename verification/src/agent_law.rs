//! What holds of what tools are asked and of what they tell.

use crate::agent::{Deed, SizeArgument};
use crate::manifest::{Entry, Method};
use crate::scan::Filter;
use crate::volumes::Split;
use vstd::prelude::*;

verus! {

proof fn lemma_stored_first(files: Seq<Entry>, e: Entry, n: int)
    requires
        n <= files.len(),
    ensures
        crate::agent::stored(files.push(e), n) == crate::agent::stored(files, n),
    decreases n,
{
    if n > 0 {
        lemma_stored_first(files, e, n - 1);
    }
}

/// The records of an archive take up what each of them takes up: nothing where there are none, and one more file adds
/// the length of its record, whatever its own length. A twin, which has no record, adds nothing.
pub proof fn law_records_add_up(files: Seq<Entry>, e: Entry)
    ensures
        crate::agent::stored(Seq::empty(), 0) == 0,
        crate::agent::stored(files.push(e), files.len() as int + 1) == crate::agent::stored(files, files.len() as int)
            + e.stored,
        e.stored == 0 ==> crate::agent::stored(files.push(e), files.len() as int + 1) == crate::agent::stored(
            files,
            files.len() as int,
        ),
{
    lemma_stored_first(files, e, files.len() as int);
}

/// What the records of an archive take up is the sum of the lengths that its table of contents notes for them.
pub proof fn law_records_are_summed(files: Seq<Entry>)
    ensures
        crate::agent::stored(files, files.len() as int) == files.map_values(|e: Entry| e.stored as int).fold_left(
            0int,
            |sum: int, n: int| sum + n,
        ),
    decreases files.len(),
{
    let f = |e: Entry| e.stored as int;
    let g = |sum: int, n: int| sum + n;
    if files.len() > 0 {
        let front = files.drop_last();
        law_records_are_summed(front);
        assert(files =~= front.push(files.last()));
        lemma_stored_first(front, files.last(), front.len() as int);
        assert(files.map_values(f).drop_last() =~= front.map_values(f));
        assert(files.map_values(f).last() == files.last().stored);
        assert(files.map_values(f).fold_left(0int, g) == files.map_values(f).drop_last().fold_left(0int, g)
            + files.last().stored);
    }
}

proof fn lemma_uses_first(files: Seq<Entry>, e: Entry, m: Method, n: int)
    requires
        n <= files.len(),
    ensures
        crate::agent::uses(files.push(e), m, n) == crate::agent::uses(files, m, n),
    decreases n,
{
    if n > 0 {
        lemma_uses_first(files, e, m, n - 1);
    }
}

/// Files are counted by how they are stored: one more counts with those that are stored like it, and with no others.
pub proof fn law_methods_are_counted(files: Seq<Entry>, e: Entry, m: Method)
    ensures
        crate::agent::uses(Seq::empty(), m, 0) == 0,
        e.method == m ==> crate::agent::uses(files.push(e), m, files.len() as int + 1) == crate::agent::uses(
            files,
            m,
            files.len() as int,
        ) + 1,
        e.method != m ==> crate::agent::uses(files.push(e), m, files.len() as int + 1) == crate::agent::uses(
            files,
            m,
            files.len() as int,
        ),
{
    lemma_uses_first(files, e, m, files.len() as int);
}

proof fn lemma_plain_digits(n: int)
    requires
        0 <= n,
    ensures
        ({
            let d = crate::volumes::decimal(n);
            &&& d.len() > 0
            &&& crate::text::lowered(d) == d
            &&& crate::text::trimmed(d) == d
        }),
{
    let d = crate::volumes::decimal(n);
    crate::text_law::law_numbers_come_back(n, n);
    assert forall|i: int| 0 <= i < d.len() implies crate::text::small(#[trigger] d[i]) == d[i] by {}
    assert(crate::text::lowered(d) =~= d);
    assert(48 <= d[0] as int <= 57 && 48 <= d[d.len() - 1] as int <= 57);
    assert(!crate::text::blank(d[0]) && !crate::text::blank(d.last()));
    crate::text_law::law_trimmed(Seq::empty(), d, Seq::empty());
    assert(Seq::<char>::empty() + d + Seq::<char>::empty() =~= d);
}

proof fn lemma_unit(n: int, u: Seq<char>, l: Seq<char>)
    requires
        0 <= n,
        u.len() == 3,
        l == crate::text::lowered(u),
        forall|i: int| 0 <= i < 3 ==> 97 <= #[trigger] l[i] as int <= 122,
    ensures
        ({
            let d = crate::volumes::decimal(n);
            let s = crate::text::lowered(crate::text::trimmed(d + u));
            &&& s == d + l
            &&& s.take(s.len() - 3) == d
            &&& s.skip(s.len() - 3) == l
        }),
{
    let d = crate::volumes::decimal(n);
    crate::text_law::law_numbers_come_back(n, n);
    lemma_plain_digits(n);
    let t = d + u;
    assert(t[0] == d[0]);
    assert(t.last() == u[2]);
    assert(l[2] == crate::text::small(u[2]));
    assert(48 <= d[0] as int <= 57);
    assert(97 <= l[2] as int <= 122);
    assert(!crate::text::blank(t[0]) && !crate::text::blank(t.last()));
    crate::text_law::law_trimmed(Seq::empty(), t, Seq::empty());
    assert(Seq::<char>::empty() + t + Seq::<char>::empty() =~= t);
    assert(crate::text::lowered(t) =~= crate::text::lowered(d) + l);
    let s = d + l;
    assert(s.take(s.len() - 3) =~= d);
    assert(s.skip(s.len() - 3) =~= l);
}

/// A size is a number of bytes, or of kibibytes, mebibytes or gibibytes, which are written behind it in capitals or in
/// small letters. One that 64 bits cannot hold is refused.
#[verifier::spinoff_prover]
pub proof fn law_sizes_are_read(n: int, u: Seq<char>)
    requires
        0 <= n <= u64::MAX,
    ensures
        crate::agent::size_in(crate::volumes::decimal(n)) == Some(n),
        crate::text::lowered(u) == seq!['k', 'i', 'b'] ==> crate::agent::size_in(crate::volumes::decimal(n) + u) == if n
            * 1024 <= u64::MAX {
            Some(n * 1024)
        } else {
            None
        },
        crate::text::lowered(u) == seq!['m', 'i', 'b'] ==> crate::agent::size_in(crate::volumes::decimal(n) + u) == if n
            * 1_048_576 <= u64::MAX {
            Some(n * 1_048_576)
        } else {
            None
        },
        crate::text::lowered(u) == seq!['g', 'i', 'b'] ==> crate::agent::size_in(crate::volumes::decimal(n) + u) == if n
            * 1_073_741_824 <= u64::MAX {
            Some(n * 1_073_741_824)
        } else {
            None
        },
{
    let d = crate::volumes::decimal(n);
    reveal_strlit("gib");
    reveal_strlit("mib");
    reveal_strlit("kib");
    assert("gib"@ =~= seq!['g', 'i', 'b']);
    assert("mib"@ =~= seq!['m', 'i', 'b']);
    assert("kib"@ =~= seq!['k', 'i', 'b']);
    crate::text_law::law_numbers_come_back(n, u64::MAX as int);
    lemma_plain_digits(n);
    assert(d.len() >= 3 ==> d.skip(d.len() - 3)[2] == d.last());
    assert(seq!['g', 'i', 'b'][2] == 'b' && seq!['m', 'i', 'b'][2] == 'b' && seq!['k', 'i', 'b'][2] == 'b');
    assert(seq!['g', 'i', 'b'][0] == 'g' && seq!['m', 'i', 'b'][0] == 'm' && seq!['k', 'i', 'b'][0] == 'k');
    assert(crate::agent::scaled(d) == (d, 1int));
    assert(crate::text::number(crate::text::trimmed(d), u64::MAX as int) == Some(n));
    assert(n * 1 == n);
    assert(crate::agent::size_in(d) == Some(n));
    let l = crate::text::lowered(u);
    if l == seq!['k', 'i', 'b'] || l == seq!['m', 'i', 'b'] || l == seq!['g', 'i', 'b'] {
        assert(l.len() == u.len());
        lemma_unit(n, u, l);
    }
}

/// White space around a size does not matter.
pub proof fn law_sizes_stand_alone(front: Seq<char>, s: Seq<char>, back: Seq<char>)
    requires
        forall|i: int| 0 <= i < front.len() ==> crate::text::blank(#[trigger] front[i]),
        forall|i: int| 0 <= i < back.len() ==> crate::text::blank(#[trigger] back[i]),
        s.len() > 0 ==> !crate::text::blank(s[0]) && !crate::text::blank(s.last()),
    ensures
        crate::agent::size_in(front + s + back) == crate::agent::size_in(s),
{
    crate::text_law::law_trimmed(front, s, back);
    crate::text_law::law_trimmed(Seq::empty(), s, Seq::empty());
    assert(Seq::<char>::empty() + s + Seq::<char>::empty() =~= s);
}

/// An archive is split by the number of its parts or by their size, and not by both. One part is the whole archive, as
/// is what nobody asks to split.
pub proof fn law_splits_are_asked_for(n: u64, size: u64, t: String, other: SizeArgument, parts: Option<u64>)
    ensures
        crate::agent::split_of(None, None) == Ok::<Split, Seq<char>>(Split::Whole),
        crate::agent::split_of(Some(parts), Some(other)) == Err::<Split, Seq<char>>("error.split_conflict"@),
        crate::agent::split_of(Some(Some(1)), None) == Ok::<Split, Seq<char>>(Split::Whole),
        n != 1 && n <= 4_294_967_295 ==> crate::agent::split_of(Some(Some(n)), None) == Ok::<Split, Seq<char>>(
            Split::Count(n as u32),
        ),
        n > 4_294_967_295 ==> crate::agent::split_of(Some(Some(n)), None) == Err::<Split, Seq<char>>(
            "error.invalid_parts"@,
        ),
        crate::agent::split_of(Some(None), None) == Err::<Split, Seq<char>>("error.invalid_parts"@),
        crate::agent::split_of(None, Some(SizeArgument::Number(Some(size)))) == Ok::<Split, Seq<char>>(
            Split::Size(size),
        ),
        crate::agent::split_of(None, Some(SizeArgument::Number(None))) == Err::<Split, Seq<char>>("error.invalid_size"@),
        crate::agent::split_of(None, Some(SizeArgument::Other)) == Err::<Split, Seq<char>>("error.invalid_size"@),
        crate::agent::split_of(None, Some(SizeArgument::Text(t))) == match crate::agent::size_in(t@) {
            Some(b) => Ok::<Split, Seq<char>>(Split::Size(b as u64)),
            None => Err("error.invalid_size"@),
        },
{
}

proof fn lemma_strings(list: Seq<Seq<char>>, n: int)
    requires
        0 <= n <= list.len(),
    ensures
        crate::agent::strings_of(list, n) is Some <==> forall|i: int|
            0 <= i < n ==> crate::json::string_in(#[trigger] list[i]) is Some,
        crate::agent::strings_of(list, n) matches Some(all) ==> all.len() == n && forall|i: int|
            0 <= i < n ==> crate::json::string_in(#[trigger] list[i]) == Some(all[i]),
    decreases n,
{
    if n > 0 {
        lemma_strings(list, n - 1);
        if let (Some(done), Some(s)) = (
            crate::agent::strings_of(list, n - 1),
            crate::json::string_in(list[n - 1]),
        ) {
            let all = done.push(s);
            assert forall|i: int| 0 <= i < n implies crate::json::string_in(#[trigger] list[i]) == Some(all[i]) by {
                if i < n - 1 {
                    assert(all[i] == done[i]);
                }
            }
        }
    }
}

/// A tool takes the paths that it is given, all of them, in their order: a list of strings, which is not empty.
pub proof fn law_tools_take_all_paths(args: Seq<char>, key: Seq<char>, all: Seq<Seq<char>>)
    ensures
        crate::agent::paths_for(args, key) == Ok::<Seq<Seq<char>>, Seq<char>>(all) <==> {
            &&& all.len() > 0
            &&& crate::json::member_in(args, key) matches Ok(Some(m)) && crate::json::items_in(m) matches Some(list)
                && list.len() == all.len() && forall|i: int|
                0 <= i < all.len() ==> crate::json::string_in(#[trigger] list[i]) == Some(all[i])
        },
{
    if let Ok(Some(m)) = crate::json::member_in(args, key) {
        if let Some(list) = crate::json::items_in(m) {
            lemma_strings(list, list.len() as int);
            if let Some(got) = crate::agent::strings_of(list, list.len() as int) {
                if list.len() == all.len() && forall|i: int|
                    0 <= i < all.len() ==> crate::json::string_in(#[trigger] list[i]) == Some(all[i]) {
                    assert forall|i: int| 0 <= i < all.len() implies got[i] == all[i] by {
                        assert(crate::json::string_in(list[i]) == Some(got[i]));
                    }
                    assert(got =~= all);
                }
            }
        }
    }
}

/// There are five tools. Each does what its name says with the arguments that it is given, and what is not said is
/// left at what the command line has too: all files, the middle preset, the archive in one piece, nothing raw.
#[verifier::spinoff_prover]
pub proof fn law_tools_do_what_they_are_asked(tool: Seq<char>, args: Seq<char>)
    ensures
        ({
            let r = crate::agent::job_for(tool, args);
            let filter = crate::agent::filter_for(args);
            &&& r is Ok ==> tool == "scan"@ || tool == "pack"@ || tool == "unpack"@ || tool == "info"@ || tool
                == "verify"@
            &&& r matches Ok(Deed::Scan { paths, filter: f }) ==> {
                &&& tool == "scan"@
                &&& crate::agent::paths_for(args, "paths"@) == Ok::<Seq<Seq<char>>, Seq<char>>(paths)
                &&& filter == Ok::<Filter, Seq<char>>(f)
            }
            &&& r matches Ok(Deed::Pack { paths, filter: f, preset, out_dir, split, raw }) ==> {
                &&& tool == "pack"@
                &&& crate::agent::paths_for(args, "paths"@) == Ok::<Seq<Seq<char>>, Seq<char>>(paths)
                &&& filter == Ok::<Filter, Seq<char>>(f)
                &&& crate::json::string_under(args, "preset"@) matches Some(p) ==> preset == p
                &&& crate::json::string_under(args, "preset"@) is None ==> preset == "balanced"@
                &&& out_dir is Some && out_dir == crate::json::string_under(args, "output_dir"@)
                &&& crate::agent::split_for(args) == Ok::<Split, Seq<char>>(split)
                &&& raw == (crate::json::member_in(args, "raw"@) matches Ok(Some(m)) && crate::json::truth_in(m) == Some(
                    true,
                ))
            }
            &&& r matches Ok(Deed::Unpack { archive, target }) ==> {
                &&& tool == "unpack"@
                &&& crate::json::string_under(args, "archive"@) == Some(archive)
                &&& target == crate::json::string_under(args, "output_dir"@)
            }
            &&& r matches Ok(Deed::Info { archive, entries }) ==> {
                &&& tool == "info"@
                &&& crate::json::string_under(args, "archive"@) == Some(archive)
                &&& entries == (crate::json::member_in(args, "include_files"@) matches Ok(Some(m))
                    && crate::json::truth_in(m) == Some(true))
            }
            &&& r matches Ok(Deed::Verify { original, restored, filter: f }) ==> {
                &&& tool == "verify"@
                &&& crate::json::string_under(args, "original"@) == Some(original)
                &&& crate::json::string_under(args, "restored"@) == Some(restored)
                &&& filter == Ok::<Filter, Seq<char>>(f)
            }
            &&& tool == "scan"@ && crate::agent::paths_for(args, "paths"@) is Ok && filter is Ok ==> r is Ok
            &&& tool == "pack"@ && crate::agent::paths_for(args, "paths"@) is Ok && filter is Ok
                && crate::agent::split_for(args) is Ok && crate::json::string_under(args, "output_dir"@) is Some
                ==> r is Ok
            &&& tool == "unpack"@ && crate::json::string_under(args, "archive"@) is Some ==> r is Ok
            &&& tool == "info"@ && crate::json::string_under(args, "archive"@) is Some ==> r is Ok
            &&& tool == "verify"@ && crate::json::string_under(args, "original"@) is Some && crate::json::string_under(
                args,
                "restored"@,
            ) is Some && filter is Ok ==> r is Ok
        }),
{
    reveal_strlit("scan");
    reveal_strlit("pack");
    reveal_strlit("unpack");
    reveal_strlit("info");
    reveal_strlit("verify");
    assert("scan"@[0] == 's' && "pack"@[0] == 'p' && "unpack"@[0] == 'u' && "info"@[0] == 'i' && "verify"@[0] == 'v');
}

/// A tool filters by the name that it is given, and takes all files where it is given none.
pub proof fn law_tools_filter(args: Seq<char>)
    ensures
        crate::json::string_under(args, "filter"@) is None ==> crate::agent::filter_for(args) == Ok::<Filter, Seq<char>>(
            Filter::All,
        ),
        crate::json::string_under(args, "filter"@) matches Some(s) ==> {
            &&& crate::agent::filter_for(args) matches Ok(f) ==> Filter::named(s) == Some(f)
            &&& crate::agent::filter_for(args) matches Err(e) ==> Filter::named(s) is None && e
                == crate::locale::coded_message("error.unsupported_filter"@, seq![s])
        },
{
}

/// A tool splits an archive by the number of parts or by their size, under these names, and not by both.
pub proof fn law_tools_split(args: Seq<char>, p: Seq<char>, z: Seq<char>)
    ensures
        ({
            let r = crate::agent::split_for(args);
            let (parts, size) = (crate::json::member_in(args, "parts"@), crate::json::member_in(args, "part_size"@));
            &&& !(parts matches Ok(Some(_))) && !(size matches Ok(Some(_))) ==> r == Ok::<Split, Seq<char>>(Split::Whole)
            &&& (parts matches Ok(Some(_))) && (size matches Ok(Some(_))) ==> r == Err::<Split, Seq<char>>(
                "error.split_conflict"@,
            )
            &&& parts == Ok::<Option<Seq<char>>, Seq<char>>(Some(p)) && !(size matches Ok(Some(_))) ==> r == match crate::json::natural_in(
                p,
            ) {
                Some(n) => if n == 1 {
                    Ok::<Split, Seq<char>>(Split::Whole)
                } else if n <= 4_294_967_295 {
                    Ok(Split::Count(n as u32))
                } else {
                    Err("error.invalid_parts"@)
                },
                None => Err("error.invalid_parts"@),
            }
            &&& size == Ok::<Option<Seq<char>>, Seq<char>>(Some(z)) && !(parts matches Ok(Some(_))) ==> r == match crate::json::natural_in(
                z,
            ) {
                Some(n) => Ok::<Split, Seq<char>>(Split::Size(n)),
                None => match crate::json::string_in(z) {
                    Some(t) => match crate::agent::size_in(t) {
                        Some(n) => Ok(Split::Size(n as u64)),
                        None => Err("error.invalid_size"@),
                    },
                    None => Err("error.invalid_size"@),
                },
            }
        }),
{
}

}
