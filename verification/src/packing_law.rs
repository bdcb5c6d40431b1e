//! What holds of the order in which files are packed.

use crate::packing::{Step, Way};
use crate::scan::Source;
use vstd::prelude::*;

verus! {

/// Whether a file is a QuickTime movie, by its extension.
pub open spec fn movie(s: Source) -> bool {
    crate::paths::extension_of(s.name@) == seq!['m', 'o', 'v']
}

proof fn lemma_movie(s: Source)
    ensures
        crate::packing::is_film(s) == movie(s),
{
    reveal_strlit("mov");
    assert("mov"@ =~= seq!['m', 'o', 'v']);
}

proof fn lemma_chosen(s: Seq<Source>, films: bool, n: int)
    requires
        0 <= n <= s.len(),
        s.len() <= usize::MAX,
    ensures
        ({
            let c = crate::packing::chosen(s, films, n);
            &&& c.len() <= n
            &&& forall|i: int| 0 <= i < c.len() ==> (#[trigger] c[i]) < n && movie(s[c[i] as int]) == films
            &&& forall|i: int, j: int| 0 <= i < j < c.len() ==> #[trigger] c[i] < #[trigger] c[j]
            &&& forall|k: int| 0 <= k < n && movie(#[trigger] s[k]) == films ==> c.contains(k as usize)
        }),
    decreases n,
{
    if n > 0 {
        lemma_chosen(s, films, n - 1);
        lemma_movie(s[n - 1]);
        let b = crate::packing::chosen(s, films, n - 1);
        let c = crate::packing::chosen(s, films, n);
        assert forall|k: int| 0 <= k < n && movie(#[trigger] s[k]) == films implies c.contains(k as usize) by {
            if k < n - 1 {
                assert(b.contains(k as usize));
                let i = choose|i: int| 0 <= i < b.len() && b[i] == k as usize;
                assert(c[i] == k as usize);
            } else {
                assert(c[c.len() - 1] == k as usize);
            }
        }
    }
}

proof fn lemma_both(s: Seq<Source>, n: int)
    requires
        0 <= n <= s.len(),
    ensures
        crate::packing::chosen(s, true, n).len() + crate::packing::chosen(s, false, n).len() == n,
    decreases n,
{
    if n > 0 {
        lemma_both(s, n - 1);
    }
}

/// Every file is packed once. Movies come before all other files, and among movies, as among other files, the order
/// stays as it was.
#[verifier::spinoff_prover]
pub proof fn law_movies_are_packed_first(s: Seq<Source>)
    requires
        s.len() <= usize::MAX,
    ensures
        ({
            let o = crate::packing::films_lead(s);
            &&& o.len() == s.len()
            &&& forall|i: int| 0 <= i < o.len() ==> (#[trigger] o[i]) < s.len()
            &&& forall|k: int| 0 <= k < s.len() ==> o.contains(#[trigger] (k as usize))
            &&& forall|i: int, j: int|
                0 <= i < j < o.len() ==> (movie(s[#[trigger] o[i] as int]) && !movie(s[#[trigger] o[j] as int])) || (
                movie(s[o[i] as int]) == movie(s[o[j] as int]) && o[i] < o[j])
        }),
{
    let n = s.len() as int;
    let (a, b) = (crate::packing::chosen(s, true, n), crate::packing::chosen(s, false, n));
    let o = crate::packing::films_lead(s);
    lemma_chosen(s, true, n);
    lemma_chosen(s, false, n);
    lemma_both(s, n);
    assert(forall|i: int| 0 <= i < a.len() ==> o[i] == a[i]);
    assert(forall|i: int| a.len() <= i < o.len() ==> o[i] == b[i - a.len()]);
    assert forall|k: int| 0 <= k < s.len() implies o.contains(#[trigger] (k as usize)) by {
        if movie(s[k]) {
            assert(a.contains(k as usize));
            let i = choose|i: int| 0 <= i < a.len() && a[i] == k as usize;
            assert(o[i] == k as usize);
        } else {
            assert(b.contains(k as usize));
            let i = choose|i: int| 0 <= i < b.len() && b[i] == k as usize;
            assert(o[a.len() + i] == k as usize);
        }
    }
    assert forall|i: int, j: int| 0 <= i < j < o.len() implies (movie(s[#[trigger] o[i] as int])
        && !movie(s[#[trigger] o[j] as int])) || (movie(s[o[i] as int]) == movie(s[o[j] as int]) && o[i] < o[j]) by {
        if j < a.len() {
            assert(o[i] == a[i] && o[j] == a[j]);
        } else if i >= a.len() {
            assert(o[i] == b[i - a.len()] && o[j] == b[j - a.len()]);
        } else {
            assert(o[i] == a[i] && o[j] == b[j - a.len()]);
        }
    }
}

/// The film that the frames of a movie are kept of is the file right before, if it is a movie of at most 256
/// mebibytes.
pub proof fn law_the_film_before(s: Seq<Source>, i: int)
    requires
        0 <= i < s.len(),
        s.len() <= usize::MAX,
    ensures
        crate::packing::film_before(s, i) is Some <==> i > 0 && movie(s[i - 1]) && s[i - 1].bytes <= 268_435_456,
        crate::packing::film_before(s, i) matches Some(k) ==> k == i - 1,
{
    if i > 0 {
        lemma_movie(s[i - 1]);
    }
}

/// Files of more than 256 mebibytes are not prepared. Of the others, a movie is stored as it is where that is wanted,
/// or where speed is, and is coded as a film else. All other files are coded as pictures.
pub proof fn law_how_files_are_prepared(s: Source, raw: bool, preset: Seq<char>)
    ensures
        ({
            let w = crate::packing::way_for(s, raw, preset);
            let plain = raw || preset == "fast"@;
            &&& w == Way::Late <==> s.bytes > 268_435_456
            &&& w == Way::Picture <==> s.bytes <= 268_435_456 && !movie(s)
            &&& w == Way::Plain <==> s.bytes <= 268_435_456 && movie(s) && plain
            &&& w == Way::Film <==> s.bytes <= 268_435_456 && movie(s) && !plain
        }),
{
    lemma_movie(s);
}

/// A file is taken for the twin of another if and only if one with its checksum and its length has been noted.
pub proof fn law_twins_are_found(p: crate::packing::Packing, sources: Seq<Source>, s: Source, hash: Seq<char>, after: Option<usize>)
    requires
        p.wf(sources),
    ensures
        ({
            let step = p.step(s, hash, None, after);
            &&& step matches Step::Twin(k) ==> k < p.entries@.len() && p.entries@[k as int].hash@ == hash
                && p.entries@[k as int].size == s.bytes
            &&& (exists|j: int|
                0 <= j < p.twins.places@.len() && p.entries@[#[trigger] p.twins.places@[j] as int].hash@ == hash
                    && p.entries@[p.twins.places@[j] as int].size == s.bytes) ==> step is Twin
        }),
{
    let key = crate::container::contents_key(hash, s.bytes as int);
    let all = p.twins.index@;
    if all.contains(key) {
        let j = all.index_of(key);
        assert(all[j] == key);
        let k = p.twins.places@[j] as int;
        crate::container::law_twins_agree(
            hash,
            s.bytes as int,
            p.entries@[k].hash@,
            p.entries@[k].size as int,
        );
    }
    if exists|j: int|
        0 <= j < p.twins.places@.len() && p.entries@[#[trigger] p.twins.places@[j] as int].hash@ == hash
            && p.entries@[p.twins.places@[j] as int].size == s.bytes {
        let j = choose|j: int|
            0 <= j < p.twins.places@.len() && p.entries@[#[trigger] p.twins.places@[j] as int].hash@ == hash
                && p.entries@[p.twins.places@[j] as int].size == s.bytes;
        assert(all[j] == key);
        assert(all.contains(key));
    }
}

/// An archive is called like the one file in it, without its extension, or like the folders in it, if all are called
/// the same. Else it is called media.
pub proof fn law_archives_are_called(stem: Option<Seq<char>>, names: Seq<Option<Seq<char>>>, name: Seq<char>)
    ensures
        stem == Some(name) ==> crate::packing::root_named(stem, names, true) == name,
        stem is None ==> crate::packing::root_named(stem, names, true) == seq!['m', 'e', 'd', 'i', 'a'],
        names.len() > 0 && (forall|i: int| 0 <= i < names.len() ==> #[trigger] names[i] == Some(name))
            ==> crate::packing::root_named(stem, names, false) == name,
        names.len() == 0 || (exists|i: int| 0 <= i < names.len() && #[trigger] names[i] != names[0]) || names[0] is None
            ==> crate::packing::root_named(stem, names, false) == seq!['m', 'e', 'd', 'i', 'a'],
{
    reveal_strlit("media");
    assert("media"@ =~= seq!['m', 'e', 'd', 'i', 'a']);
    if names.len() > 0 {
        assert(names[0] == names[0]);
    }
}

/// The files of a selection are as long together as each of them.
pub proof fn law_selections_add_up(sources: Seq<Source>, s: Source)
    ensures
        crate::packing::bytes_sum(Seq::empty(), 0) == 0,
        crate::packing::bytes_sum(sources.push(s), sources.len() as int + 1) == crate::packing::bytes_sum(
            sources,
            sources.len() as int,
        ) + s.bytes,
{
    lemma_bytes_first(sources, s, sources.len() as int);
}

proof fn lemma_bytes_first(sources: Seq<Source>, s: Source, n: int)
    requires
        n <= sources.len(),
    ensures
        crate::packing::bytes_sum(sources.push(s), n) == crate::packing::bytes_sum(sources, n),
    decreases n,
{
    if n > 0 {
        lemma_bytes_first(sources, s, n - 1);
    }
}

}
