//! What holds of the files and folders that are selected.

use crate::roots::{clash, clashes, first_of, names_from, outermost, prefixes, tail, within};
use vstd::prelude::*;

verus! {

/// What is selected twice is kept once: of all that are the same, the first.
pub proof fn law_each_path_is_kept_once(v: Seq<Seq<char>>, i: int, j: int)
    requires
        0 <= i < v.len(),
        0 <= j < v.len(),
    ensures
        exists|k: int| 0 <= k <= i && #[trigger] v[k] == v[i] && first_of(v, k),
        first_of(v, i) && first_of(v, j) && v[i] == v[j] ==> i == j,
    decreases i,
{
    if first_of(v, i) {
        assert(v[i] == v[i]);
    } else {
        let m = choose|m: int| 0 <= m < i && #[trigger] v[m] == v[i];
        law_each_path_is_kept_once(v, m, j);
        let k = choose|k: int| 0 <= k <= m && #[trigger] v[k] == v[m] && first_of(v, k);
        assert(v[k] == v[i]);
    }
}

/// A selected file or folder is left out if and only if some selected folder has a path that its own begins with,
/// part by part, and goes on from.
pub proof fn law_what_lies_in_folders_is_left_out(paths: Seq<Seq<Seq<char>>>, folders: Seq<bool>, i: int)
    requires
        0 <= i < paths.len(),
        folders.len() == paths.len(),
    ensures
        !outermost(paths, folders, i) <==> exists|j: int|
            0 <= j < paths.len() && #[trigger] folders[j] && paths[j].len() < paths[i].len() && (forall|k: int|
                0 <= k < paths[j].len() ==> #[trigger] paths[j][k] == paths[i][k]),
{
    assert forall|j: int| 0 <= j < paths.len() implies within(paths[i], #[trigger] paths[j]) == (paths[j].len()
        < paths[i].len() && (forall|k: int| 0 <= k < paths[j].len() ==> #[trigger] paths[j][k] == paths[i][k])) by {
        lemma_within(paths[i], paths[j]);
    }
    if !outermost(paths, folders, i) {
        let j = choose|j: int| 0 <= j < paths.len() && #[trigger] folders[j] && within(paths[i], paths[j]);
        lemma_within(paths[i], paths[j]);
        assert(folders[j]);
    }
}

proof fn lemma_within(path: Seq<Seq<char>>, folder: Seq<Seq<char>>)
    ensures
        within(path, folder) == (folder.len() < path.len() && (forall|k: int|
            0 <= k < folder.len() ==> #[trigger] folder[k] == path[k])),
{
    if folder.len() < path.len() {
        if path.take(folder.len() as int) == folder {
            assert forall|k: int| 0 <= k < folder.len() implies #[trigger] folder[k] == path[k] by {
                assert(path.take(folder.len() as int)[k] == path[k]);
            }
        }
        if forall|k: int| 0 <= k < folder.len() ==> #[trigger] folder[k] == path[k] {
            assert(path.take(folder.len() as int) =~= folder);
        }
    }
}

/// What one folder holds needs no name before it.
pub proof fn law_a_single_folder_has_no_name(paths: Seq<Seq<Seq<char>>>)
    ensures
        prefixes(paths, true) == Ok::<Seq<Seq<char>>, Seq<char>>(seq![Seq::empty()]),
{
}

/// Where a whole disk is selected with others, no names are given.
pub proof fn law_disks_are_refused(paths: Seq<Seq<Seq<char>>>, i: int)
    requires
        0 <= i < paths.len(),
        paths[i].len() == 0,
    ensures
        prefixes(paths, false) == Err::<Seq<Seq<char>>, Seq<char>>("error.multiple_disk_roots"@),
{
}

/// Where the last parts of all paths differ in more than case, these are the names.
pub proof fn law_paths_that_differ_are_named_by_their_ends(paths: Seq<Seq<Seq<char>>>)
    requires
        forall|i: int| 0 <= i < paths.len() ==> (#[trigger] paths[i]).len() > 0,
        forall|i: int, j: int|
            0 <= i < j < paths.len() ==> crate::text::lowercase((#[trigger] paths[i]).last()) != crate::text::lowercase(
                (#[trigger] paths[j]).last(),
            ),
    ensures
        prefixes(paths, false) matches Ok(names) && names.len() == paths.len() && forall|i: int|
            0 <= i < paths.len() ==> #[trigger] names[i] == paths[i].last(),
{
    let one = Seq::new(paths.len(), |i: int| 1int);
    assert(crate::roots::fitting(paths, one)) by {
        assert forall|i: int| 0 <= i < one.len() implies 1 <= #[trigger] one[i] <= paths[i].len() by {
            assert(paths[i].len() > 0);
        }
    }
    assert forall|i: int| 0 <= i < paths.len() implies !#[trigger] clashes(paths, one, i) by {
        assert forall|j: int| 0 <= j < paths.len() implies !#[trigger] clash(paths, one, i, j) by {
            if i != j {
                assert(paths[i].len() > 0 && paths[j].len() > 0);
                let (a, b) = (paths[i], paths[j]);
                assert(a[a.len() - 1 + 0] == a.last() && b[b.len() - 1 + 0] == b.last());
                assert(crate::text::lowercase(a.last()) != crate::text::lowercase(b.last())) by {
                    if i < j {
                        assert(crate::text::lowercase(paths[i].last()) != crate::text::lowercase(paths[j].last()));
                    } else {
                        assert(crate::text::lowercase(paths[j].last()) != crate::text::lowercase(paths[i].last()));
                    }
                }
            }
        }
    }
    let names = names_from(paths, one)->Ok_0;
    assert forall|i: int| 0 <= i < paths.len() implies #[trigger] names[i] == paths[i].last() by {
        assert(names[i] == tail(paths[i], 1));
        assert(paths[i].len() > 0);
    }
}

/// The last parts of a path are written one after another, with a slash before each but the first.
pub proof fn law_ends_are_joined_by_slashes(parts: Seq<Seq<char>>, n: int)
    requires
        1 <= n < parts.len(),
    ensures
        tail(parts, 1) == parts.last(),
        tail(parts, n + 1) == parts[parts.len() - n - 1] + seq!['/'] + tail(parts, n),
{
    reveal_strlit("/");
    assert("/"@ =~= seq!['/']);
}

}
