//! The files and folders that a selection starts from, and the names they get in an archive.

use crate::text::{same_text, to_lower};
use crate::wire::{fail, Outcome};
use vstd::prelude::*;

verus! {

/// A path as the names of its folders and, last, of the file or folder itself.
pub type Parts = Vec<String>;

pub open spec fn paths_of(v: Seq<Parts>) -> Seq<Seq<Seq<char>>> {
    Seq::new(v.len(), |i: int| crate::locale::texts(v[i]@))
}

/// The last `n` parts of a path, with slashes between them.
pub open spec fn tail(parts: Seq<Seq<char>>, n: int) -> Seq<char>
    decreases n,
{
    if n <= 0 || n > parts.len() {
        Seq::empty()
    } else if n == 1 {
        parts[parts.len() - 1]
    } else {
        parts[parts.len() - n] + "/"@ + tail(parts, n - 1)
    }
}

/// Whether the last `m` parts of one path start with the last `n` parts of another, but for case.
pub open spec fn covers(a: Seq<Seq<char>>, m: int, b: Seq<Seq<char>>, n: int) -> bool {
    &&& n <= m
    &&& forall|k: int|
        0 <= k < n ==> crate::text::lowercase(#[trigger] b[b.len() - n + k]) == crate::text::lowercase(
            a[a.len() - m + k],
        )
}

/// Whether the names that two paths get are in each other's way.
pub open spec fn clash(paths: Seq<Seq<Seq<char>>>, depths: Seq<int>, i: int, j: int) -> bool {
    i != j && (covers(paths[i], depths[i], paths[j], depths[j]) || covers(
        paths[j],
        depths[j],
        paths[i],
        depths[i],
    ))
}

/// Whether the name that a path gets is in the way of another.
pub open spec fn clashes(paths: Seq<Seq<Seq<char>>>, depths: Seq<int>, i: int) -> bool {
    exists|j: int| 0 <= j < paths.len() && #[trigger] clash(paths, depths, i, j)
}

/// One more part for each name that is in the way of another.
pub open spec fn deeper(paths: Seq<Seq<Seq<char>>>, depths: Seq<int>) -> Seq<int> {
    Seq::new(
        depths.len(),
        |i: int|
            depths[i] + if clashes(paths, depths, i) {
                1int
            } else {
                0
            },
    )
}

/// Depths that paths can have.
pub open spec fn fitting(paths: Seq<Seq<Seq<char>>>, depths: Seq<int>) -> bool {
    &&& depths.len() == paths.len()
    &&& forall|i: int| 0 <= i < depths.len() ==> 1 <= #[trigger] depths[i] <= paths[i].len()
}

/// How many parts the first `n` names have left.
pub open spec fn slack(paths: Seq<Seq<Seq<char>>>, depths: Seq<int>, n: int) -> int
    decreases n,
{
    if n <= 0 {
        0
    } else {
        slack(paths, depths, n - 1) + paths[n - 1].len() - depths[n - 1]
    }
}

/// The names that paths get: as few of their last parts as keep them apart.
pub open spec fn names_from(paths: Seq<Seq<Seq<char>>>, depths: Seq<int>) -> Outcome<Seq<Seq<char>>>
    decreases slack(paths, depths, paths.len() as int),
    when fitting(paths, depths)
    via names_from_ends
{
    if forall|i: int| 0 <= i < paths.len() ==> !#[trigger] clashes(paths, depths, i) {
        Ok(Seq::new(paths.len(), |i: int| tail(paths[i], depths[i])))
    } else if exists|i: int|
        0 <= i < paths.len() && #[trigger] clashes(paths, depths, i) && depths[i] == paths[i].len() {
        Err("error.selection_ambiguous"@)
    } else {
        names_from(paths, deeper(paths, depths))
    }
}

#[via_fn]
proof fn names_from_ends(paths: Seq<Seq<Seq<char>>>, depths: Seq<int>) {
    if !(forall|i: int| 0 <= i < paths.len() ==> !#[trigger] clashes(paths, depths, i)) && !(exists|
        i: int,
    |
        0 <= i < paths.len() && #[trigger] clashes(paths, depths, i) && depths[i] == paths[i].len()) {
        let at = choose|i: int| 0 <= i < paths.len() && #[trigger] clashes(paths, depths, i);
        lemma_slack(paths, depths, paths.len() as int, at);
    }
}

proof fn lemma_slack(paths: Seq<Seq<Seq<char>>>, depths: Seq<int>, n: int, at: int)
    requires
        fitting(paths, depths),
        0 <= n <= paths.len(),
        forall|i: int|
            0 <= i < paths.len() && #[trigger] clashes(paths, depths, i) ==> depths[i] < paths[i].len(),
        0 <= at < paths.len(),
        clashes(paths, depths, at),
    ensures
        0 <= slack(paths, deeper(paths, depths), n) <= slack(paths, depths, n),
        at < n ==> slack(paths, deeper(paths, depths), n) < slack(paths, depths, n),
    decreases n,
{
    if n > 0 {
        lemma_slack(paths, depths, n - 1, at);
        assert(clashes(paths, depths, n - 1) ==> depths[n - 1] < paths[n - 1].len());
        assert(depths[n - 1] <= paths[n - 1].len());
    }
}

/// The names that the roots of a selection get. A single folder gets none.
pub open spec fn prefixes(paths: Seq<Seq<Seq<char>>>, single: bool) -> Outcome<Seq<Seq<char>>> {
    if single {
        Ok(seq![Seq::empty()])
    } else if exists|i: int| 0 <= i < paths.len() && (#[trigger] paths[i]).len() == 0 {
        Err("error.multiple_disk_roots"@)
    } else {
        names_from(paths, Seq::new(paths.len(), |i: int| 1int))
    }
}

pub open spec fn ints(v: Seq<usize>) -> Seq<int> {
    Seq::new(v.len(), |i: int| v[i] as int)
}

fn find_cover(a: &Parts, m: usize, b: &Parts, n: usize) -> (r: bool)
    requires
        m <= a.len(),
        n <= b.len(),
    ensures
        r == covers(crate::locale::texts(a@), m as int, crate::locale::texts(b@), n as int),
{
    let ghost (x, y) = (crate::locale::texts(a@), crate::locale::texts(b@));
    if n > m {
        return false;
    }
    let mut k: usize = 0;
    while k < n
        invariant
            k <= n,
            n <= m,
            m <= a.len(),
            n <= b.len(),
            x == crate::locale::texts(a@),
            y == crate::locale::texts(b@),
            forall|i: int|
                0 <= i < k ==> crate::text::lowercase(#[trigger] y[y.len() - n + i])
                    == crate::text::lowercase(x[x.len() - m + i]),
        decreases n - k,
    {
        let p = to_lower(&b[b.len() - n + k]);
        let q = to_lower(&a[a.len() - m + k]);
        if !same_text(&p, &q) {
            assert(crate::text::lowercase(y[y.len() - n + k]) != crate::text::lowercase(
                x[x.len() - m + k],
            ));
            return false;
        }
        k += 1;
    }
    true
}

fn find_clash(paths: &Vec<Parts>, depths: &Vec<usize>, i: usize) -> (r: bool)
    requires
        fitting(paths_of(paths@), ints(depths@)),
        i < paths@.len(),
    ensures
        r == clashes(paths_of(paths@), ints(depths@), i as int),
{
    let ghost (all, deep) = (paths_of(paths@), ints(depths@));
    let mut j: usize = 0;
    while j < paths.len()
        invariant
            j <= paths.len(),
            i < paths@.len(),
            all == paths_of(paths@),
            deep == ints(depths@),
            fitting(all, deep),
            forall|k: int| 0 <= k < j ==> !#[trigger] clash(all, deep, i as int, k),
        decreases paths.len() - j,
    {
        assert(deep[i as int] <= all[i as int].len() && deep[j as int] <= all[j as int].len());
        if i != j && (find_cover(&paths[i], depths[i], &paths[j], depths[j]) || find_cover(
            &paths[j],
            depths[j],
            &paths[i],
            depths[i],
        )) {
            assert(clash(all, deep, i as int, j as int));
            return true;
        }
        j += 1;
    }
    false
}

fn join(parts: &Parts, n: usize) -> (s: String)
    requires
        1 <= n <= parts.len(),
    ensures
        s@ == tail(crate::locale::texts(parts@), n as int),
{
    let ghost all = crate::locale::texts(parts@);
    let mut s = String::new();
    let mut left: usize = n;
    while left > 1
        invariant
            1 <= left <= n <= parts.len(),
            all == crate::locale::texts(parts@),
            s@ + tail(all, left as int) == tail(all, n as int),
        decreases left,
    {
        let ghost before = s@;
        s.append(parts[parts.len() - left].as_str());
        s.append("/");
        assert(before + tail(all, left as int) =~= s@ + tail(all, left - 1));
        left -= 1;
    }
    s.append(parts[parts.len() - 1].as_str());
    s
}

pub open spec fn texts_of(r: Result<Vec<String>, String>) -> Outcome<Seq<Seq<char>>> {
    match r {
        Ok(v) => Ok(crate::locale::texts(v@)),
        Err(e) => Err(e@),
    }
}

fn join_all(paths: &Vec<Parts>, depths: &Vec<usize>) -> (out: Vec<String>)
    requires
        fitting(paths_of(paths@), ints(depths@)),
    ensures
        crate::locale::texts(out@) == Seq::new(
            paths@.len(),
            |i: int| tail(paths_of(paths@)[i], ints(depths@)[i]),
        ),
{
    let ghost (all, deep) = (paths_of(paths@), ints(depths@));
    let mut out: Vec<String> = Vec::new();
    let mut i: usize = 0;
    while i < paths.len()
        invariant
            i <= paths.len(),
            all == paths_of(paths@),
            deep == ints(depths@),
            fitting(all, deep),
            out@.len() == i,
            forall|k: int| 0 <= k < i ==> (#[trigger] out@[k])@ == tail(all[k], deep[k]),
        decreases paths.len() - i,
    {
        assert(1 <= deep[i as int] <= all[i as int].len());
        out.push(join(&paths[i], depths[i]));
        i += 1;
    }
    assert(crate::locale::texts(out@) =~= Seq::new(paths@.len(), |i: int| tail(all[i], deep[i])));
    out
}

/// Gives the roots of a selection names that keep them apart.
pub fn root_prefixes(paths: &Vec<Parts>, single: bool) -> (r: Result<Vec<String>, String>)
    ensures
        texts_of(r) == prefixes(paths_of(paths@), single),
{
    let ghost all = paths_of(paths@);
    if single {
        let mut out: Vec<String> = Vec::new();
        out.push(String::new());
        assert(crate::locale::texts(out@) =~= seq![Seq::empty()]);
        return Ok(out);
    }
    let mut depths: Vec<usize> = Vec::new();
    let mut i: usize = 0;
    while i < paths.len()
        invariant
            i <= paths.len(),
            all == paths_of(paths@),
            depths@.len() == i,
            !single,
            forall|k: int| 0 <= k < i ==> #[trigger] depths@[k] == 1 && all[k].len() >= 1,
        decreases paths.len() - i,
    {
        if paths[i].len() == 0 {
            assert(all[i as int].len() == 0);
            return Err(fail("error.multiple_disk_roots"));
        }
        assert(all[i as int].len() >= 1);
        depths.push(1);
        i += 1;
    }
    assert(ints(depths@) =~= Seq::new(all.len(), |i: int| 1int));
    let ghost whole = names_from(all, ints(depths@));
    assert(prefixes(all, single) == whole) by {
        assert forall|i: int| 0 <= i < all.len() implies (#[trigger] all[i]).len() != 0 by {
            assert(depths@[i] == 1);
        }
    }
    assert forall|i: int| 0 <= i < all.len() implies 1 <= #[trigger] ints(depths@)[i] <= all[i].len() by {
        assert(depths@[i] == 1);
    }
    loop
        invariant
            all == paths_of(paths@),
            fitting(all, ints(depths@)),
            whole == names_from(all, ints(depths@)),
            prefixes(all, single) == whole,
        decreases slack(all, ints(depths@), all.len() as int),
    {
        let ghost deep = ints(depths@);
        let mut next: Vec<usize> = Vec::new();
        let mut any = false;
        let mut stuck = false;
        let mut i: usize = 0;
        while i < paths.len()
            invariant
                i <= paths.len(),
                all == paths_of(paths@),
                deep == ints(depths@),
                fitting(all, deep),
                next@.len() == i,
                any == exists|k: int| 0 <= k < i && #[trigger] clashes(all, deep, k),
                stuck == exists|k: int|
                    0 <= k < i && #[trigger] clashes(all, deep, k) && deep[k] == all[k].len(),
                !stuck ==> ints(next@) == deeper(all, deep).take(i as int),
            decreases paths.len() - i,
        {
            let hit = find_clash(paths, &depths, i);
            assert(1 <= deep[i as int] <= all[i as int].len());
            let mut depth: usize = depths[i];
            if hit {
                any = true;
                if depth == paths[i].len() {
                    stuck = true;
                } else {
                    depth = depth + 1;
                }
            }
            let ghost before = ints(next@);
            next.push(depth);
            assert(ints(next@) =~= before.push(depth as int));
            proof {
                if !stuck {
                    assert(deeper(all, deep).take(i + 1) =~= deeper(all, deep).take(i as int).push(
                        deeper(all, deep)[i as int],
                    ));
                }
            }
            i += 1;
        }
        if !any {
            return Ok(join_all(paths, &depths));
        }
        if stuck {
            return Err(fail("error.selection_ambiguous"));
        }
        proof {
            assert(deeper(all, deep).take(i as int) =~= deeper(all, deep));
            let at = choose|k: int| 0 <= k < all.len() && #[trigger] clashes(all, deep, k);
            assert forall|k: int| 0 <= k < all.len() && #[trigger] clashes(all, deep, k) implies deep[k]
                < all[k].len() by {
                assert(deep[k] <= all[k].len());
            }
            lemma_slack(all, deep, all.len() as int, at);
            assert forall|k: int| 0 <= k < all.len() implies 1 <= #[trigger] ints(next@)[k]
                <= all[k].len() by {
                assert(1 <= deep[k] <= all[k].len());
                assert(clashes(all, deep, k) ==> deep[k] < all[k].len());
            }
        }
        depths = next;
    }
}

/// Whether a path lies in a folder.
pub open spec fn within(path: Seq<Seq<char>>, folder: Seq<Seq<char>>) -> bool {
    folder.len() < path.len() && path.take(folder.len() as int) == folder
}

fn is_within(path: &Parts, folder: &Parts) -> (r: bool)
    ensures
        r == within(crate::locale::texts(path@), crate::locale::texts(folder@)),
{
    let ghost (p, f) = (crate::locale::texts(path@), crate::locale::texts(folder@));
    if folder.len() >= path.len() {
        return false;
    }
    let mut k: usize = 0;
    while k < folder.len()
        invariant
            k <= folder.len(),
            folder.len() < path.len(),
            p == crate::locale::texts(path@),
            f == crate::locale::texts(folder@),
            forall|i: int| 0 <= i < k ==> p[i] == #[trigger] f[i],
        decreases folder.len() - k,
    {
        if !same_text(&path[k], &folder[k]) {
            assert(p.take(f.len() as int)[k as int] != f[k as int]);
            return false;
        }
        k += 1;
    }
    assert(p.take(f.len() as int) =~= f);
    true
}

/// Whether a root lies in no folder among the roots.
pub open spec fn outermost(paths: Seq<Seq<Seq<char>>>, folders: Seq<bool>, i: int) -> bool {
    forall|j: int|
        0 <= j < paths.len() && #[trigger] folders[j] ==> !within(paths[i], paths[j])
}

/// Which roots of a selection to keep: those that lie in no folder that is selected too.
pub fn keep_outermost(paths: &Vec<Parts>, folders: &Vec<bool>) -> (keep: Vec<bool>)
    requires
        folders@.len() == paths@.len(),
    ensures
        keep@ == Seq::new(
            paths@.len(),
            |i: int| outermost(paths_of(paths@), folders@, i),
        ),
{
    let ghost all = paths_of(paths@);
    let mut keep: Vec<bool> = Vec::new();
    let mut i: usize = 0;
    while i < paths.len()
        invariant
            i <= paths.len(),
            folders@.len() == paths@.len(),
            all == paths_of(paths@),
            keep@.len() == i,
            forall|k: int| 0 <= k < i ==> #[trigger] keep@[k] == outermost(all, folders@, k),
        decreases paths.len() - i,
    {
        let mut alone = true;
        let mut j: usize = 0;
        while j < paths.len()
            invariant
                j <= paths.len(),
                i < paths.len(),
                folders@.len() == paths@.len(),
                all == paths_of(paths@),
                alone == (forall|k: int|
                    0 <= k < j && #[trigger] folders@[k] ==> !within(all[i as int], all[k])),
            decreases paths.len() - j,
        {
            if folders[j] && is_within(&paths[i], &paths[j]) {
                assert(folders@[j as int]);
                alone = false;
            }
            j += 1;
        }
        keep.push(alone);
        i += 1;
    }
    assert(keep@ =~= Seq::new(paths@.len(), |i: int| outermost(all, folders@, i)));
    keep
}

/// Whether one selection holds whatever another does.
pub open spec fn holds_all(
    paths: Seq<Seq<Seq<char>>>,
    folders: Seq<bool>,
    others: Seq<Seq<Seq<char>>>,
    other_folders: Seq<bool>,
) -> bool {
    forall|j: int|
        0 <= j < others.len() && #[trigger] other_folders[j] ==> exists|i: int|
            0 <= i < paths.len() && #[trigger] folders[i] && paths[i] == others[j]
}

/// Which roots are kept depends neither on the order of a selection nor on repetitions in it.
pub proof fn law_outermost_whatever_the_order(
    paths: Seq<Seq<Seq<char>>>,
    folders: Seq<bool>,
    others: Seq<Seq<Seq<char>>>,
    other_folders: Seq<bool>,
    i: int,
    j: int,
)
    requires
        folders.len() == paths.len(),
        other_folders.len() == others.len(),
        holds_all(paths, folders, others, other_folders),
        holds_all(others, other_folders, paths, folders),
        0 <= i < paths.len(),
        0 <= j < others.len(),
        paths[i] == others[j],
    ensures
        outermost(paths, folders, i) == outermost(others, other_folders, j),
{
    if outermost(paths, folders, i) {
        assert forall|k: int| 0 <= k < others.len() && #[trigger] other_folders[k] implies !within(
            others[j],
            others[k],
        ) by {
            let at = choose|at: int| 0 <= at < paths.len() && #[trigger] folders[at] && paths[at] == others[k];
            assert(!within(paths[i], paths[at]));
        }
    }
    if outermost(others, other_folders, j) {
        assert forall|k: int| 0 <= k < paths.len() && #[trigger] folders[k] implies !within(
            paths[i],
            paths[k],
        ) by {
            let at = choose|at: int|
                0 <= at < others.len() && #[trigger] other_folders[at] && others[at] == paths[k];
            assert(!within(others[j], others[at]));
        }
    }
}

/// Whether a text does not occur before number `i`.
pub open spec fn first_of(v: Seq<Seq<char>>, i: int) -> bool {
    forall|k: int| 0 <= k < i ==> #[trigger] v[k] != v[i]
}

/// Which paths of a selection do not repeat an earlier one.
pub fn keep_first(paths: &Vec<String>) -> (keep: Vec<bool>)
    ensures
        keep@ == Seq::new(paths@.len(), |i: int| first_of(crate::locale::texts(paths@), i)),
{
    let ghost all = crate::locale::texts(paths@);
    let mut keep: Vec<bool> = Vec::new();
    let mut i: usize = 0;
    while i < paths.len()
        invariant
            i <= paths.len(),
            all == crate::locale::texts(paths@),
            keep@.len() == i,
            forall|k: int| 0 <= k < i ==> #[trigger] keep@[k] == first_of(all, k),
        decreases paths.len() - i,
    {
        let mut first = true;
        let mut k: usize = 0;
        while k < i
            invariant
                k <= i < paths.len(),
                all == crate::locale::texts(paths@),
                first == (forall|j: int| 0 <= j < k ==> #[trigger] all[j] != all[i as int]),
            decreases i - k,
        {
            assert(all[k as int] == paths@[k as int]@ && all[i as int] == paths@[i as int]@);
            if same_text(&paths[k], &paths[i]) {
                first = false;
            }
            k += 1;
        }
        keep.push(first);
        i += 1;
    }
    assert(keep@ =~= Seq::new(paths@.len(), |i: int| first_of(all, i)));
    keep
}

/// The roots of a selection stay apart: each is named by some of its last parts, and no name is, but
/// for case, that of another or of a folder that another lies in.
pub proof fn law_roots_stay_apart(paths: Seq<Seq<Seq<char>>>)
    ensures
        prefixes(paths, false) matches Ok(names) ==> exists|depths: Seq<int>| #[trigger]
            fitting(paths, depths) && names == Seq::new(paths.len(), |i: int| tail(paths[i], depths[i])) && (
            forall|i: int, j: int|
                0 <= i < paths.len() && 0 <= j < paths.len() ==> !#[trigger] clash(paths, depths, i, j)),
{
    if prefixes(paths, false) is Ok {
        let first = Seq::new(paths.len(), |i: int| 1int);
        assert(fitting(paths, first)) by {
            assert forall|i: int| 0 <= i < first.len() implies 1 <= #[trigger] first[i] <= paths[i].len() by {
                assert(paths[i].len() != 0);
            }
        }
        lemma_apart(paths, first);
    }
}

proof fn lemma_apart(paths: Seq<Seq<Seq<char>>>, depths: Seq<int>)
    requires
        fitting(paths, depths),
        names_from(paths, depths) is Ok,
    ensures
        exists|d: Seq<int>| #[trigger]
            fitting(paths, d) && names_from(paths, depths)->Ok_0 == Seq::new(
                paths.len(),
                |i: int| tail(paths[i], d[i]),
            ) && (forall|i: int, j: int|
                0 <= i < paths.len() && 0 <= j < paths.len() ==> !#[trigger] clash(paths, d, i, j)),
    decreases slack(paths, depths, paths.len() as int),
{
    if forall|i: int| 0 <= i < paths.len() ==> !#[trigger] clashes(paths, depths, i) {
        assert forall|i: int, j: int|
            0 <= i < paths.len() && 0 <= j < paths.len() implies !#[trigger] clash(paths, depths, i, j) by {
            assert(!clashes(paths, depths, i));
        }
    } else {
        let next = deeper(paths, depths);
        let at = choose|i: int| 0 <= i < paths.len() && #[trigger] clashes(paths, depths, i);
        lemma_slack(paths, depths, paths.len() as int, at);
        assert forall|i: int| 0 <= i < next.len() implies 1 <= #[trigger] next[i] <= paths[i].len() by {
            assert(1 <= depths[i] <= paths[i].len());
            assert(clashes(paths, depths, i) ==> depths[i] < paths[i].len());
        }
        lemma_apart(paths, next);
    }
}

}
