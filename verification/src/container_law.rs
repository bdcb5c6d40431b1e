//! What holds of archives and of the files in them.

use crate::container::{Fingerprint, Placing};
use crate::manifest::{Entry, Method};
use vstd::prelude::*;

verus! {

proof fn lemma_difference(a: Seq<Fingerprint>, b: Seq<Fingerprint>, i: int)
    requires
        0 <= i <= a.len(),
        a.len() == b.len(),
    ensures
        ({
            let d = crate::container::first_difference(a, b, i);
            &&& i <= d <= a.len()
            &&& d < a.len() ==> !(a[d].name@ == b[d].name@ && a[d].bytes == b[d].bytes && a[d].hash@ == b[d].hash@)
            &&& forall|k: int|
                i <= k < d ==> (#[trigger] a[k]).name@ == b[k].name@ && a[k].bytes == b[k].bytes && a[k].hash@ == b[k].hash@
        }),
    decreases a.len() - i,
{
    if i < a.len() {
        assert(crate::container::same_file(a[i], b[i]) == (a[i].name@ == b[i].name@ && a[i].bytes == b[i].bytes
            && a[i].hash@ == b[i].hash@));
        if crate::container::same_file(a[i], b[i]) {
            lemma_difference(a, b, i + 1);
        }
    }
}

/// Two folders hold the same if and only if they hold as many files, at least one, and every file of the one has the
/// name, the length and the checksum of the file of the other in its place. The answer is how many there are. Where
/// there are as many, the first file that differs is named, and where there are not, their number is at fault.
pub proof fn law_folders_are_compared_file_by_file(a: Seq<Fingerprint>, b: Seq<Fingerprint>)
    ensures
        ({
            let r = crate::container::compared(a, b);
            let same = forall|i: int|
                0 <= i < a.len() ==> (#[trigger] a[i]).name@ == b[i].name@ && a[i].bytes == b[i].bytes && a[i].hash@
                    == b[i].hash@;
            &&& r is Ok <==> a.len() == b.len() && a.len() > 0 && same
            &&& r matches Ok(n) ==> n == a.len()
            &&& a.len() != b.len() || a.len() == 0 ==> r == Err::<int, Seq<char>>("error.file_count_mismatch"@)
            &&& a.len() == b.len() && a.len() > 0 && !same ==> exists|i: int|
                0 <= i < a.len() && !((#[trigger] a[i]).name@ == b[i].name@ && a[i].bytes == b[i].bytes && a[i].hash@
                    == b[i].hash@) && (forall|k: int|
                    0 <= k < i ==> (#[trigger] a[k]).name@ == b[k].name@ && a[k].bytes == b[k].bytes && a[k].hash@
                        == b[k].hash@) && r == Err::<int, Seq<char>>(
                    crate::locale::coded_message("error.verify_file"@, seq![a[i].name@]),
                )
        }),
{
    if a.len() == b.len() {
        lemma_difference(a, b, 0);
        let d = crate::container::first_difference(a, b, 0);
        if d < a.len() {
            assert(!(a[d].name@ == b[d].name@ && a[d].bytes == b[d].bytes && a[d].hash@ == b[d].hash@));
        }
    }
}

/// A part of some bytes is in proportion, rounded down: none of them before anything is done, all of them when
/// everything is, never less when more is done.
pub proof fn law_portions_are_in_proportion(size: int, done: int, more: int, total: int)
    requires
        0 <= size,
        0 <= done <= more,
        0 <= total,
    ensures
        0 <= crate::container::portion(size, done, total) <= crate::container::portion(size, more, total) <= size,
        total == 0 ==> crate::container::portion(size, done, total) == 0,
        total > 0 && done >= total ==> crate::container::portion(size, done, total) == size,
        0 < total && done < total ==> crate::container::portion(size, done, total) * total <= size * done < (
        crate::container::portion(size, done, total) + 1) * total,
{
    if total > 0 {
        assert(0 <= size * done <= size * more) by (nonlinear_arith)
            requires
                0 <= size,
                0 <= done <= more,
        ;
        vstd::arithmetic::div_mod::lemma_div_is_ordered(size * done, size * more, total);
        vstd::arithmetic::div_mod::lemma_div_is_ordered(0, size * done, total);
        vstd::arithmetic::div_mod::lemma_fundamental_div_mod(size * done, total);
        vstd::arithmetic::div_mod::lemma_mod_bound(size * done, total);
        assert(0int / total == 0) by (nonlinear_arith)
            requires
                total > 0,
        ;
        let q = size * done / total;
        assert(q * total <= size * done < (q + 1) * total) by (nonlinear_arith)
            requires
                size * done == total * q + (size * done) % total,
                0 <= (size * done) % total < total,
        ;
        if more < total {
            assert(size * more <= size * total) by (nonlinear_arith)
                requires
                    0 <= size,
                    more <= total,
            ;
            vstd::arithmetic::div_mod::lemma_div_is_ordered(size * more, size * total, total);
            vstd::arithmetic::div_mod::lemma_div_multiples_vanish(size, total);
        } else if done < total {
            assert(size * done <= size * total) by (nonlinear_arith)
                requires
                    0 <= size,
                    done <= total,
            ;
            vstd::arithmetic::div_mod::lemma_div_is_ordered(size * done, size * total, total);
            vstd::arithmetic::div_mod::lemma_div_multiples_vanish(size, total);
        }
    }
}

/// There are three presets. The stronger one is, the higher is the level of the compressor, and the wider the window
/// that it looks back in.
pub proof fn law_there_are_three_presets(p: Seq<char>)
    ensures
        crate::container::preset_of(p) is Some <==> p == "fast"@ || p == "balanced"@ || p == "max"@,
        crate::container::preset_of("fast"@) == Some((6int, 27int)),
        crate::container::preset_of("balanced"@) == Some((19int, 28int)),
        crate::container::preset_of("max"@) == Some((22int, 30int)),
{
    reveal_strlit("fast");
    reveal_strlit("balanced");
    reveal_strlit("max");
    assert("fast"@.len() == 4 && "balanced"@.len() == 8 && "max"@.len() == 3);
}

/// Records that were coded with a model are compressed at the lowest level, all others at the level of the preset.
pub proof fn law_coded_records_are_hardly_compressed(m: Method, level: int)
    ensures
        crate::container::level_of(m, level) == if m == Method::Raw || m == Method::Duplicate || m == Method::GifExact || m
            == Method::MovExact {
            level
        } else {
            1
        },
{
}

/// An archive begins with its mark, the length of its table of contents in four bytes, the lowest first, and the
/// checksum of the table. The table follows. It has at most 64 mebibytes.
pub proof fn law_archives_begin_with_their_contents(json: Seq<u8>)
    requires
        crate::compression::checksum(json).len() == 32,
    ensures
        crate::container::head(json) is Ok <==> json.len() <= 67_108_864,
        crate::container::head(json) matches Err(e) ==> e == "error.manifest_too_large"@,
        crate::container::head(json) matches Ok(h) ==> {
            &&& h.len() == 44 + json.len()
            &&& h.take(8) == seq![83u8, 80, 65, 67, 75, 0, 2, 0]
            &&& h[8] + 256 * h[9] + 65536 * h[10] + 16777216 * h[11] == json.len()
            &&& h.subrange(12, 44) == crate::compression::checksum(json)
            &&& h.skip(44) == json
        },
{
    reveal_with_fuel(crate::wire::le_bytes, 5);
    if let Ok(h) = crate::container::head(json) {
        let n = json.len() as int;
        let l = crate::wire::le_bytes(n, 4);
        assert(l.len() == 4);
        assert(l[0] == n % 256 && l[1] == (n / 256) % 256 && l[2] == (n / 256 / 256) % 256 && l[3] == (n / 256 / 256
            / 256) % 256);
        assert(crate::container::MAGIC@ =~= seq![83u8, 80, 65, 67, 75, 0, 2, 0]);
        assert(h.take(8) =~= crate::container::MAGIC@);
        assert(h[8] == l[0] && h[9] == l[1] && h[10] == l[2] && h[11] == l[3]);
        assert(h.subrange(12, 44) =~= crate::compression::checksum(json));
        assert(h.skip(44) =~= json);
    }
}

/// The table of contents is read from the start of an archive if and only if it stands there: behind the mark, its
/// length and its checksum, and not empty.
pub proof fn law_contents_are_read_where_they_stand(data: Seq<u8>, json: Seq<u8>)
    ensures
        crate::container::contents_in(data) == Ok::<Seq<u8>, Seq<char>>(json) <==> {
            &&& data.len() >= 44 + json.len()
            &&& 1 <= json.len() <= 67_108_864
            &&& data.take(8) == seq![83u8, 80, 65, 67, 75, 0, 2, 0]
            &&& data[8] + 256 * data[9] + 65536 * data[10] + 16777216 * data[11] == json.len()
            &&& data.subrange(12, 44) == crate::compression::checksum(json)
            &&& data.subrange(44, 44 + json.len() as int) == json
        },
{
    assert(crate::container::MAGIC@ =~= seq![83u8, 80, 65, 67, 75, 0, 2, 0]);
}

/// An archive is named after its folder, the first twelve digits of the checksum of its files, and the preset.
pub proof fn law_archives_are_named(dir: Seq<char>, hash: Seq<char>, preset: Seq<char>)
    requires
        hash.len() >= 12,
    ensures
        crate::container::archive_name(dir, hash, preset, false) == dir + seq!['.'] + hash.subrange(0, 12) + seq!['.']
            + preset + seq!['.', 's', 'p', 'k'],
        crate::container::archive_name(dir, hash, preset, true) == dir + seq!['.'] + hash.subrange(0, 12) + seq!['.']
            + preset + seq!['.', 'r', 'a', 'w', '.', 's', 'p', 'k'],
{
    reveal_strlit(".");
    reveal_strlit(".raw");
    reveal_strlit(".spk");
    assert("."@ =~= seq!['.']);
    assert(".raw"@ =~= seq!['.', 'r', 'a', 'w']);
    assert(".spk"@ =~= seq!['.', 's', 'p', 'k']);
    assert(hash.take(12) =~= hash.subrange(0, 12));
    assert(crate::container::archive_name(dir, hash, preset, false) =~= dir + seq!['.'] + hash.subrange(0, 12) + seq!['.']
        + preset + seq!['.', 's', 'p', 'k']);
    assert(crate::container::archive_name(dir, hash, preset, true) =~= dir + seq!['.'] + hash.subrange(0, 12) + seq!['.']
        + preset + seq!['.', 'r', 'a', 'w', '.', 's', 'p', 'k']);
}

/// The first name that is tried for a folder is its own, and the others have a number behind it in brackets, from two
/// on. No name is tried twice.
pub proof fn law_other_names_are_numbered(name: Seq<char>, i: int, j: int)
    requires
        0 <= i,
        0 <= j,
    ensures
        crate::container::candidate(name, 0) == name,
        i > 0 ==> crate::container::candidate(name, i) == name + seq![' ', '('] + crate::volumes::decimal(i + 1) + seq![
            ')',
        ],
        i != j ==> crate::container::candidate(name, i) != crate::container::candidate(name, j),
{
    reveal_strlit(" (");
    reveal_strlit(")");
    assert(" ("@ =~= seq![' ', '(']);
    assert(")"@ =~= seq![')']);
    if i != j {
        let (a, b) = (crate::container::candidate(name, i), crate::container::candidate(name, j));
        let n = name.len() as int;
        if i > 0 && j > 0 && a == b {
            let (x, y) = (crate::volumes::decimal(i + 1), crate::volumes::decimal(j + 1));
            assert(a.len() == n + 3 + x.len() && b.len() == n + 3 + y.len());
            assert(a.subrange(n + 2, n + 2 + x.len() as int) =~= x);
            assert(b.subrange(n + 2, n + 2 + y.len() as int) =~= y);
            crate::text_law::law_numbers_come_back(i + 1, i + j + 2);
            crate::text_law::law_numbers_come_back(j + 1, i + j + 2);
        } else if i == 0 {
            assert(b.len() > n);
        } else if j == 0 {
            assert(a.len() > n);
        }
    }
}

/// What was made of a file in advance is kept, unless it is a film whose pictures were predicted from another film
/// than the last one, which is then coded again. A film of which nothing was made is coded again only where it was
/// tried after another film than the last one.
pub proof fn law_what_was_made_is_kept(
    made: Option<Method>,
    after: Option<usize>,
    last: Option<usize>,
    film: bool,
)
    ensures
        ({
            let p = crate::container::placed(made, after, last, film);
            let stale = film && made == Some(Method::MovSource) && after is Some && after != last;
            &&& p == Placing::Keep <==> made is Some && !stale
            &&& p == Placing::Again <==> stale || (made is None && after != last)
            &&& p == Placing::Alone <==> made is None && after == last
        }),
{
}

/// The last film that pictures can be predicted from is the last one, and only where it was stored by its pictures.
pub proof fn law_last_film(last: Option<usize>, method: Method, i: usize)
    ensures
        crate::container::last_film(last, false, method, i) == last,
        crate::container::last_film(last, true, method, i) == Some(i) <== method == Method::MovSource,
        crate::container::last_film(last, true, method, i) is None <== method != Method::MovSource,
{
}

/// A film that names frames of the film before needs it, and that has to be the file right before, stored by its
/// pictures too. Any other file needs the one that it refers to.
pub proof fn law_what_files_need(files: Seq<Entry>, i: int, pool: bool)
    requires
        0 <= i < files.len(),
        files.len() <= usize::MAX,
    ensures
        ({
            let r = crate::container::needs(files, i, pool);
            let named = pool && files[i].method == Method::MovSource;
            let there = i > 0 && files[i - 1].method == Method::MovSource;
            &&& r is Err <==> named && !there
            &&& r matches Err(e) ==> e == "error.invalid_archive"@
            &&& named && there ==> r == Ok::<(Option<usize>, Option<usize>), Seq<char>>(
                (Some((i - 1) as usize), Some((i - 1) as usize)),
            )
            &&& !named ==> r == Ok::<(Option<usize>, Option<usize>), Seq<char>>((files[i].reference, None))
        }),
{
}

/// A restored file is accepted if and only if it has the length and the checksum that were noted for it.
pub proof fn law_restored_files_are_the_same(e: Entry, raw: Seq<u8>)
    ensures
        ({
            let r = crate::container::restored_well(e, raw);
            let (long, sum) = (raw.len() == e.size, crate::manifest::hex(crate::compression::checksum(raw)) == e.hash@);
            &&& r is Ok <==> long && sum
            &&& !long ==> r == Err::<(), Seq<char>>(
                crate::locale::coded_message("error.reconstruction_length"@, seq![e.name@]),
            )
            &&& long && !sum ==> r == Err::<(), Seq<char>>(
                crate::locale::coded_message("error.file_checksum"@, seq![e.name@]),
            )
        }),
{
}

/// The parts of an archive are as long together as each of them: one more part adds its length, and none leave
/// nothing.
pub proof fn law_lengths_of_parts_add_up(sizes: Seq<u64>, more: u64)
    ensures
        crate::container::sizes_sum(Seq::empty(), 0) == 0,
        crate::container::sizes_sum(sizes.push(more), sizes.len() as int + 1) == crate::container::sizes_sum(
            sizes,
            sizes.len() as int,
        ) + more,
{
    lemma_sizes_first(sizes, more, sizes.len() as int);
}

proof fn lemma_sizes_first(sizes: Seq<u64>, more: u64, n: int)
    requires
        n <= sizes.len(),
    ensures
        crate::container::sizes_sum(sizes.push(more), n) == crate::container::sizes_sum(sizes, n),
    decreases n,
{
    if n > 0 {
        lemma_sizes_first(sizes, more, n - 1);
    }
}

}
