//! What holds of the files that are taken, and of their names.

use crate::scan::{being, count, counted, distinct_from, films, folded, folders_from, names_checked, one, total, video};
use crate::scan::{Filter, Source, Stats};
use vstd::prelude::*;

verus! {

proof fn lemma_filter_names()
    ensures
        "all"@.len() == 3 && "gif"@.len() == 3 && "mov"@.len() == 3,
        "video"@.len() == 5 && "no-gif"@.len() == 6 && "no-mov"@.len() == 6 && "no-video"@.len() == 8,
        "all"@[0] == 'a' && "gif"@[0] == 'g' && "mov"@[0] == 'm' && "no-gif"@[3] == 'g' && "no-mov"@[3] == 'm',
{
    reveal_strlit("all");
    reveal_strlit("gif");
    reveal_strlit("mov");
    reveal_strlit("video");
    reveal_strlit("no-gif");
    reveal_strlit("no-mov");
    reveal_strlit("no-video");
}

/// Each filter has one name, and no other text is the name of a filter.
pub proof fn law_filters_have_names(s: Seq<char>)
    ensures
        Filter::named(s) == Some(Filter::All) <==> s == "all"@,
        Filter::named(s) == Some(Filter::Gif) <==> s == "gif"@,
        Filter::named(s) == Some(Filter::Video) <==> s == "video"@,
        Filter::named(s) == Some(Filter::Mov) <==> s == "mov"@,
        Filter::named(s) == Some(Filter::NoGif) <==> s == "no-gif"@,
        Filter::named(s) == Some(Filter::NoVideo) <==> s == "no-video"@,
        Filter::named(s) == Some(Filter::NoMov) <==> s == "no-mov"@,
        Filter::named(s) is None <==> s != "all"@ && s != "gif"@ && s != "video"@ && s != "mov"@ && s != "no-gif"@ && s
            != "no-video"@ && s != "no-mov"@,
{
    lemma_filter_names();
}

/// A filter takes some of the files that are taken without one, and the filter with the opposite name takes the
/// others. Case does not count.
pub proof fn law_filters_part_files(e: Seq<char>)
    ensures
        Filter::Gif.takes(e) <==> crate::text::lowered(e) == "gif"@,
        Filter::Mov.takes(e) <==> crate::text::lowered(e) == "mov"@,
        Filter::Video.takes(e) <==> Filter::All.takes(e) && crate::text::lowered(e) != "gif"@ && crate::text::lowered(e)
            != "png"@ && crate::text::lowered(e) != "webp"@,
        Filter::NoGif.takes(e) <==> Filter::All.takes(e) && !Filter::Gif.takes(e),
        Filter::NoVideo.takes(e) <==> Filter::All.takes(e) && !Filter::Video.takes(e),
        Filter::NoMov.takes(e) <==> Filter::All.takes(e) && !Filter::Mov.takes(e),
{
    lemma_pictures(crate::text::lowered(e));
}

/// Videos, GIF, PNG and WebP files are taken, by the extensions that they have in lower case, and no others.
pub proof fn law_media_files_are_taken(e: Seq<char>)
    ensures
        Filter::All.takes(e) <==> {
            let x = crate::text::lowered(e);
            ||| x == "gif"@ || x == "png"@ || x == "webp"@
            ||| x == "mov"@ || x == "mp4"@ || x == "m4v"@ || x == "mkv"@ || x == "webm"@ || x == "avi"@ || x == "wmv"@
            ||| x == "flv"@ || x == "mpg"@ || x == "mpeg"@ || x == "m2v"@ || x == "ts"@ || x == "mts"@ || x == "m2ts"@
            ||| x == "3gp"@ || x == "3g2"@ || x == "ogv"@ || x == "vob"@ || x == "mxf"@
        },
{
}

proof fn lemma_pictures(x: Seq<char>)
    ensures
        video(x) ==> x != "gif"@ && x != "png"@ && x != "webp"@,
        video("mov"@),
{
    reveal_strlit("gif");
    reveal_strlit("png");
    reveal_strlit("webp");
    reveal_strlit("mov");
    reveal_strlit("mp4");
    reveal_strlit("m4v");
    reveal_strlit("mkv");
    reveal_strlit("webm");
    reveal_strlit("avi");
    reveal_strlit("wmv");
    reveal_strlit("flv");
    reveal_strlit("mpg");
    reveal_strlit("mpeg");
    reveal_strlit("m2v");
    reveal_strlit("ts");
    reveal_strlit("mts");
    reveal_strlit("m2ts");
    reveal_strlit("3gp");
    reveal_strlit("3g2");
    reveal_strlit("ogv");
    reveal_strlit("vob");
    reveal_strlit("mxf");
    assert("gif"@[0] == 'g' && "png"@[0] == 'p' && "webp"@[0] == 'w' && "webp"@[1] == 'e' && "webp"@[3] == 'p');
    assert("mov"@[0] == 'm' && "mp4"@[0] == 'm' && "m4v"@[0] == 'm' && "mkv"@[0] == 'm' && "webm"@[3] == 'm');
    assert("webm"@[0] == 'w' && "avi"@[0] == 'a' && "wmv"@[1] == 'm' && "wmv"@[0] == 'w' && "flv"@[0] == 'f');
    assert("mpg"@[0] == 'm' && "mpeg"@[0] == 'm' && "m2v"@[0] == 'm' && "ts"@[0] == 't' && "mts"@[0] == 'm');
    assert("m2ts"@[0] == 'm' && "3gp"@[0] == '3' && "3g2"@[0] == '3' && "ogv"@[0] == 'o' && "vob"@[0] == 'v');
    assert("mxf"@[0] == 'm');
}

proof fn lemma_count(files: Seq<Source>, f: Source, n: int, p: spec_fn(Seq<char>) -> bool)
    requires
        n <= files.len(),
    ensures
        count(files.push(f), n, p) == count(files, n, p),
        total(files.push(f), n) == total(files, n),
    decreases n,
{
    if n > 0 {
        lemma_count(files, f, n - 1, p);
    }
}

/// One more file is counted once, adds its length, and is counted as what its extension says.
pub proof fn law_files_are_counted(files: Seq<Source>, f: Source, a: Stats, b: Stats)
    requires
        counted(files, files.len() as int, a),
        counted(files.push(f), files.len() as int + 1, b),
    ensures
        b.files == a.files + 1,
        b.bytes == a.bytes + f.bytes,
        ({
            let e = crate::paths::extension_of(f.name@);
            &&& b.gif == a.gif + one(e == "gif"@)
            &&& b.mov == a.mov + one(e == "mov"@)
            &&& b.png == a.png + one(e == "png"@)
            &&& b.webp == a.webp + one(e == "webp"@)
            &&& b.video == a.video + one(Filter::Video.takes(e))
        }),
{
    let n = files.len() as int;
    lemma_count(files, f, n, being("gif"@));
    lemma_count(files, f, n, being("mov"@));
    lemma_count(files, f, n, being("png"@));
    lemma_count(files, f, n, being("webp"@));
    lemma_count(files, f, n, films());
    assert(files.push(f)[n] == f);
}

/// No files count as none, and have no length.
pub proof fn law_no_files(s: Stats)
    ensures
        counted(Seq::empty(), 0, s) <==> s.files == 0 && s.bytes == 0 && s.gif == 0 && s.video == 0 && s.mov == 0
            && s.png == 0 && s.webp == 0,
{
}

/// Whether a name has a slash at a place, so that what stands before it is a folder.
pub open spec fn folder_at(names: Seq<Seq<char>>, a: int, b: int) -> bool {
    0 <= a < names.len() && 0 <= b < names[a].len() && names[a][b] == '/'
}

/// The folder before a slash.
pub open spec fn folder(names: Seq<Seq<char>>, a: int, b: int) -> Seq<char> {
    names[a].take(b)
}

spec fn from(i: int, p: int, a: int, b: int) -> bool {
    a > i || (a == i && b >= p)
}

spec fn no_file(names: Seq<Seq<char>>, i: int, p: int) -> bool {
    forall|a: int, b: int|
        #[trigger] folder_at(names, a, b) && from(i, p, a, b) ==> !folded(names).contains(
            crate::text::lowercase(folder(names, a, b)),
        )
}

spec fn as_seen(names: Seq<Seq<char>>, i: int, p: int, keys: Seq<Seq<char>>, seen: Seq<Seq<char>>) -> bool {
    forall|a: int, b: int, k: int|
        #[trigger] folder_at(names, a, b) && from(i, p, a, b) && 0 <= k < keys.len() && #[trigger] keys[k]
            == crate::text::lowercase(folder(names, a, b)) ==> seen[k] == folder(names, a, b)
}

spec fn one_way(names: Seq<Seq<char>>, i: int, p: int) -> bool {
    forall|a: int, b: int, c: int, d: int|
        #[trigger] folder_at(names, a, b) && from(i, p, a, b) && #[trigger] folder_at(names, c, d) && from(i, p, c, d)
            && crate::text::lowercase(folder(names, a, b)) == crate::text::lowercase(folder(names, c, d)) ==> folder(
            names,
            a,
            b,
        ) == folder(names, c, d)
}

spec fn good(names: Seq<Seq<char>>, i: int, p: int, keys: Seq<Seq<char>>, seen: Seq<Seq<char>>) -> bool {
    no_file(names, i, p) && as_seen(names, i, p, keys, seen) && one_way(names, i, p)
}

spec fn places(keys: Seq<Seq<char>>, seen: Seq<Seq<char>>) -> bool {
    &&& keys.len() == seen.len()
    &&& forall|k: int| 0 <= k < keys.len() ==> #[trigger] keys[k] == crate::text::lowercase(seen[k])
}

proof fn lemma_same_from(names: Seq<Seq<char>>, i: int, p: int, j: int, q: int, keys: Seq<Seq<char>>, seen: Seq<Seq<char>>)
    requires
        forall|a: int, b: int| #[trigger] folder_at(names, a, b) ==> from(i, p, a, b) == from(j, q, a, b),
    ensures
        good(names, i, p, keys, seen) == good(names, j, q, keys, seen),
{
    assert(no_file(names, i, p) == no_file(names, j, q));
    assert(as_seen(names, i, p, keys, seen) == as_seen(names, j, q, keys, seen));
    assert(one_way(names, i, p) == one_way(names, j, q));
}

proof fn lemma_known(names: Seq<Seq<char>>, i: int, p: int, keys: Seq<Seq<char>>, seen: Seq<Seq<char>>, n: int)
    requires
        folder_at(names, i, p),
        places(keys, seen),
        0 <= n < keys.len(),
        seen[n] == folder(names, i, p),
        keys[n] == crate::text::lowercase(folder(names, i, p)),
        !folded(names).contains(keys[n]),
        forall|m: int| 0 <= m < keys.len() && #[trigger] keys[m] == keys[n] ==> m == n,
    ensures
        good(names, i, p, keys, seen) == good(names, i, p + 1, keys, seen),
{
    if good(names, i, p + 1, keys, seen) {
        assert forall|a: int, b: int| #[trigger] folder_at(names, a, b) && from(i, p, a, b) implies !folded(names).contains(
            crate::text::lowercase(folder(names, a, b)),
        ) by {
            if !(a == i && b == p) {
                assert(from(i, p + 1, a, b));
            }
        }
        assert forall|a: int, b: int, k: int|
            #[trigger] folder_at(names, a, b) && from(i, p, a, b) && 0 <= k < keys.len() && #[trigger] keys[k]
                == crate::text::lowercase(folder(names, a, b)) implies seen[k] == folder(names, a, b) by {
            if !(a == i && b == p) {
                assert(from(i, p + 1, a, b));
            }
        }
        assert forall|a: int, b: int, c: int, d: int|
            #[trigger] folder_at(names, a, b) && from(i, p, a, b) && #[trigger] folder_at(names, c, d) && from(i, p, c, d)
                && crate::text::lowercase(folder(names, a, b)) == crate::text::lowercase(folder(names, c, d)) implies folder(
            names,
            a,
            b,
        ) == folder(names, c, d) by {
            if a == i && b == p {
                assert(c == i && d == p || from(i, p + 1, c, d));
            } else if c == i && d == p {
                assert(from(i, p + 1, a, b));
            } else {
                assert(from(i, p + 1, a, b) && from(i, p + 1, c, d));
            }
        }
    }
}

proof fn lemma_new(names: Seq<Seq<char>>, i: int, p: int, keys: Seq<Seq<char>>, seen: Seq<Seq<char>>)
    requires
        folder_at(names, i, p),
        places(keys, seen),
        !keys.contains(crate::text::lowercase(folder(names, i, p))),
        !folded(names).contains(crate::text::lowercase(folder(names, i, p))),
    ensures
        ({
            let t = folder(names, i, p);
            let (k, s) = (keys.push(crate::text::lowercase(t)), seen.push(t));
            &&& places(k, s)
            &&& good(names, i, p, keys, seen) == good(names, i, p + 1, k, s)
        }),
{
    let t = folder(names, i, p);
    let (ks, ss) = (keys.push(crate::text::lowercase(t)), seen.push(t));
    let n = keys.len() as int;
    assert(ks[n] == crate::text::lowercase(t) && ss[n] == t);
    assert(forall|m: int| 0 <= m < n ==> ks[m] == keys[m] && ss[m] == seen[m]);
    if good(names, i, p + 1, ks, ss) {
        assert forall|a: int, b: int| #[trigger] folder_at(names, a, b) && from(i, p, a, b) implies !folded(names).contains(
            crate::text::lowercase(folder(names, a, b)),
        ) by {
            if !(a == i && b == p) {
                assert(from(i, p + 1, a, b));
            }
        }
        assert forall|a: int, b: int, k: int|
            #[trigger] folder_at(names, a, b) && from(i, p, a, b) && 0 <= k < keys.len() && #[trigger] keys[k]
                == crate::text::lowercase(folder(names, a, b)) implies seen[k] == folder(names, a, b) by {
            assert(ks[k] == keys[k]);
            if a == i && b == p {
                assert(keys.contains(keys[k]));
            } else {
                assert(from(i, p + 1, a, b));
            }
        }
        assert forall|a: int, b: int, c: int, d: int|
            #[trigger] folder_at(names, a, b) && from(i, p, a, b) && #[trigger] folder_at(names, c, d) && from(i, p, c, d)
                && crate::text::lowercase(folder(names, a, b)) == crate::text::lowercase(folder(names, c, d)) implies folder(
            names,
            a,
            b,
        ) == folder(names, c, d) by {
            if a == i && b == p {
                assert(c == i && d == p || from(i, p + 1, c, d));
            } else if c == i && d == p {
                assert(from(i, p + 1, a, b));
            } else {
                assert(from(i, p + 1, a, b) && from(i, p + 1, c, d));
            }
        }
    }
    if good(names, i, p, keys, seen) {
        assert forall|a: int, b: int, k: int|
            #[trigger] folder_at(names, a, b) && from(i, p + 1, a, b) && 0 <= k < ks.len() && #[trigger] ks[k]
                == crate::text::lowercase(folder(names, a, b)) implies ss[k] == folder(names, a, b) by {
            assert(from(i, p, a, b) && from(i, p, i, p));
            if k < n {
                assert(ks[k] == keys[k]);
            }
        }
        assert(no_file(names, i, p + 1));
        assert(one_way(names, i, p + 1));
    }
}

spec fn distinct_keys(keys: Seq<Seq<char>>) -> bool {
    forall|a: int, b: int| 0 <= a < b < keys.len() ==> #[trigger] keys[a] != #[trigger] keys[b]
}

proof fn lemma_folders(names: Seq<Seq<char>>, i: int, p: int, keys: Seq<Seq<char>>, seen: Seq<Seq<char>>)
    requires
        0 <= i <= names.len(),
        0 <= p,
        places(keys, seen),
        distinct_keys(keys),
    ensures
        folders_from(names, i, p, keys, seen) is Ok <==> good(names, i, p, keys, seen),
    decreases names.len() - i, names[i].len() - p,
{
    if i >= names.len() {
    } else if p >= names[i].len() {
        lemma_folders(names, i + 1, 0, keys, seen);
        lemma_same_from(names, i, p, i + 1, 0, keys, seen);
    } else if names[i][p] != '/' {
        lemma_folders(names, i, p + 1, keys, seen);
        lemma_same_from(names, i, p, i, p + 1, keys, seen);
    } else {
        assert(folder_at(names, i, p));
        let t = folder(names, i, p);
        let key = crate::text::lowercase(t);
        if folded(names).contains(key) {
            assert(from(i, p, i, p));
            assert(!no_file(names, i, p));
        } else if keys.contains(key) {
            let n = keys.index_of(key);
            assert(keys[n] == key);
            if seen[n] == t {
                lemma_folders(names, i, p + 1, keys, seen);
                lemma_known(names, i, p, keys, seen, n);
            } else {
                assert(from(i, p, i, p));
                assert(!as_seen(names, i, p, keys, seen));
            }
        } else {
            lemma_new(names, i, p, keys, seen);
            assert forall|a: int, b: int| 0 <= a < b < keys.push(key).len() implies #[trigger] keys.push(key)[a]
                != #[trigger] keys.push(key)[b] by {
                if b == keys.len() {
                    assert(keys.contains(keys[a]));
                }
            }
            lemma_folders(names, i, p + 1, keys.push(key), seen.push(t));
        }
    }
}

proof fn lemma_distinct(names: Seq<Seq<char>>, i: int)
    requires
        0 <= i <= names.len(),
    ensures
        distinct_from(names, i) is Ok <==> {
            &&& forall|j: int| i <= j < names.len() ==> crate::paths::checked(#[trigger] names[j]) is Ok
            &&& forall|j: int, k: int|
                i <= j < names.len() && 0 <= k < j ==> crate::text::lowercase(#[trigger] names[j])
                    != crate::text::lowercase(#[trigger] names[k])
        },
    decreases names.len() - i,
{
    if i < names.len() {
        lemma_distinct(names, i + 1);
        let key = crate::text::lowercase(names[i]);
        let before = folded(names).take(i);
        if before.contains(key) {
            let k = choose|k: int| 0 <= k < before.len() && before[k] == key;
            assert(crate::text::lowercase(names[k]) == key);
        } else {
            assert forall|k: int| 0 <= k < i implies crate::text::lowercase(#[trigger] names[k]) != key by {
                assert(before[k] == crate::text::lowercase(names[k]));
            }
        }
    }
}

/// Files can stand in one archive if and only if all their names are safe, no two of them differ in case alone, none
/// is also a folder of another, and no two folders differ in case alone.
#[verifier::spinoff_prover]
pub proof fn law_names_can_stand_in_one_archive(names: Seq<Seq<char>>)
    ensures
        names_checked(names) is Ok <==> {
            &&& forall|i: int| 0 <= i < names.len() ==> crate::paths::checked(#[trigger] names[i]) is Ok
            &&& forall|i: int, j: int|
                0 <= i < names.len() && 0 <= j < i ==> crate::text::lowercase(#[trigger] names[i])
                    != crate::text::lowercase(#[trigger] names[j])
            &&& forall|a: int, b: int, j: int|
                #[trigger] folder_at(names, a, b) && 0 <= j < names.len() ==> crate::text::lowercase(folder(names, a, b))
                    != crate::text::lowercase(#[trigger] names[j])
            &&& forall|a: int, b: int, c: int, d: int|
                #[trigger] folder_at(names, a, b) && #[trigger] folder_at(names, c, d) && crate::text::lowercase(
                    folder(names, a, b),
                ) == crate::text::lowercase(folder(names, c, d)) ==> folder(names, a, b) == folder(names, c, d)
        },
{
    lemma_distinct(names, 0);
    lemma_folders(names, 0, 0, Seq::empty(), Seq::empty());
    assert(forall|a: int, b: int| #[trigger] folder_at(names, a, b) ==> from(0, 0, a, b));
    assert(as_seen(names, 0, 0, Seq::empty(), Seq::empty()));
    lemma_no_file(names);
}

proof fn lemma_no_file(names: Seq<Seq<char>>)
    ensures
        no_file(names, 0, 0) <==> (forall|a: int, b: int, j: int|
            #[trigger] folder_at(names, a, b) && 0 <= j < names.len() ==> crate::text::lowercase(folder(names, a, b))
                != crate::text::lowercase(#[trigger] names[j])),
{
    let f = folded(names);
    assert(forall|j: int| 0 <= j < names.len() ==> #[trigger] f[j] == crate::text::lowercase(names[j]));
    if no_file(names, 0, 0) {
        assert forall|a: int, b: int, j: int|
            #[trigger] folder_at(names, a, b) && 0 <= j < names.len() implies crate::text::lowercase(folder(names, a, b))
            != crate::text::lowercase(#[trigger] names[j]) by {
            assert(from(0, 0, a, b));
            assert(f[j] == crate::text::lowercase(names[j]));
            assert(f.contains(f[j]));
        }
    }
    if forall|a: int, b: int, j: int|
        #[trigger] folder_at(names, a, b) && 0 <= j < names.len() ==> crate::text::lowercase(folder(names, a, b))
            != crate::text::lowercase(#[trigger] names[j]) {
        assert forall|a: int, b: int| #[trigger] folder_at(names, a, b) && from(0, 0, a, b) implies !f.contains(
            crate::text::lowercase(folder(names, a, b)),
        ) by {
            if f.contains(crate::text::lowercase(folder(names, a, b))) {
                let j = choose|j: int| 0 <= j < f.len() && f[j] == crate::text::lowercase(folder(names, a, b));
                assert(crate::text::lowercase(names[j]) == crate::text::lowercase(folder(names, a, b)));
            }
        }
    }
}

/// Texts are sorted by the first place where they differ. One that another goes on from comes first.
pub proof fn law_texts_are_sorted_by_letters(a: Seq<char>, b: Seq<char>, k: int)
    requires
        0 <= k <= a.len(),
        k <= b.len(),
        forall|i: int| 0 <= i < k ==> a[i] == b[i],
    ensures
        k == a.len() ==> crate::scan::at_most(a, b),
        k == b.len() && k < a.len() ==> !crate::scan::at_most(a, b),
        k < a.len() && k < b.len() && a[k] < b[k] ==> crate::scan::at_most(a, b) && !crate::scan::at_most(b, a),
    decreases k,
{
    if k > 0 {
        assert forall|i: int| 0 <= i < k - 1 implies a.skip(1)[i] == b.skip(1)[i] by {
            assert(a[i + 1] == b[i + 1]);
        }
        assert(a[0] == b[0]);
        law_texts_are_sorted_by_letters(a.skip(1), b.skip(1), k - 1);
    }
}

/// Files are sorted by their extensions, those with one extension by their folders, and those in one folder by their
/// names.
pub proof fn law_files_are_sorted_by_extension(a: Seq<char>, b: Seq<char>)
    ensures
        ({
            let (x, y) = (crate::paths::extension_of(a), crate::paths::extension_of(b));
            let (f, g) = (crate::paths::parent(a), crate::paths::parent(b));
            &&& x != y ==> crate::scan::in_order(a, b) == crate::scan::at_most(x, y)
            &&& x == y && f != g ==> crate::scan::in_order(a, b) == crate::scan::at_most(f, g)
            &&& x == y && f == g ==> crate::scan::in_order(a, b) == crate::scan::at_most(a, b)
        }),
{
}

}
