//! What holds of the films that animated pictures are predicted from.

use crate::companions::{companion, film, first_film, near, nearest, title};
use crate::scan::Source;
use vstd::prelude::*;

verus! {

/// Whether a file is a film before another, with its title, and as near to it as is asked for.
pub open spec fn candidate(s: Seq<Source>, i: int, tier: int, j: int) -> bool {
    &&& 0 <= j < i
    &&& crate::paths::extension_of(s[j].name@) == seq!['m', 'o', 'v']
    &&& s[j].bytes <= 268_435_456
    &&& crate::paths::file_stem(s[j].path@) matches Some(a) && crate::paths::file_stem(s[i].path@) matches Some(b)
        && crate::text::lowercase(a) == crate::text::lowercase(b)
    &&& tier == 0 ==> crate::paths::parent(s[j].path@) == crate::paths::parent(s[i].path@)
    &&& tier == 1 ==> crate::paths::file_name(crate::paths::parent(s[j].path@)) == crate::paths::file_name(
        crate::paths::parent(s[i].path@),
    )
}

proof fn lemma_candidate(s: Seq<Source>, i: int, tier: int, j: int)
    requires
        0 <= j < i,
    ensures
        candidate(s, i, tier, j) == (film(s[j]) && title(s[j]) == title(s[i]) && near(s[j], s[i], tier)),
{
    reveal_strlit("mov");
    assert("mov"@ =~= seq!['m', 'o', 'v']);
}

proof fn lemma_first(s: Seq<Source>, i: int, tier: int, j: int)
    requires
        0 <= j,
    ensures
        first_film(s, i, tier, j) matches Some(k) ==> j <= k && candidate(s, i, tier, k),
        first_film(s, i, tier, j) matches Some(k) ==> forall|m: int| j <= m < k ==> !candidate(s, i, tier, m),
        first_film(s, i, tier, j) is None ==> forall|m: int| j <= m ==> !candidate(s, i, tier, m),
    decreases i - j,
{
    if j < i {
        lemma_candidate(s, i, tier, j);
        lemma_first(s, i, tier, j + 1);
    }
}

proof fn lemma_one(s: Seq<Source>, i: int, tier: int, k: int)
    requires
        0 <= tier < 3,
    ensures
        candidate(s, i, tier, k) && (forall|m: int| candidate(s, i, tier, m) ==> m == k) ==> nearest(s, i, tier) == Some(
            k,
        ),
        (forall|m: int| !candidate(s, i, tier, m)) ==> nearest(s, i, tier) == nearest(s, i, tier + 1),
        nearest(s, i, tier) == Some(k) && (exists|m: int| candidate(s, i, tier, m)) ==> candidate(s, i, tier, k)
            && forall|m: int| candidate(s, i, tier, m) ==> m == k,
{
    lemma_first(s, i, tier, 0);
    match first_film(s, i, tier, 0) {
        None => {
            assert forall|m: int| !candidate(s, i, tier, m) by {
                if m >= 0 {
                    assert(!candidate(s, i, tier, m));
                }
            }
        },
        Some(j) => {
            lemma_first(s, i, tier, j + 1);
            assert(candidate(s, i, tier, j));
            match first_film(s, i, tier, j + 1) {
                None => {
                    assert forall|m: int| candidate(s, i, tier, m) implies m == j by {
                        if m > j {
                            assert(!candidate(s, i, tier, m));
                        } else if 0 <= m < j {
                            assert(!candidate(s, i, tier, m));
                        }
                    }
                },
                Some(n) => {
                    assert(candidate(s, i, tier, n));
                },
            }
        },
    }
}

/// Whether a file is the one film of all that lie so near.
pub open spec fn only(s: Seq<Source>, i: int, tier: int, k: int) -> bool {
    candidate(s, i, tier, k) && forall|m: int| #[trigger] candidate(s, i, tier, m) ==> m == k
}

/// Whether no film lies so near.
pub open spec fn none_so_near(s: Seq<Source>, i: int, tier: int) -> bool {
    forall|m: int| !(#[trigger] candidate(s, i, tier, m))
}

/// An animated picture is predicted from a film if and only if that is the one film with its title in the folder of
/// the picture; or, where there is none there, the one in folders of that name; or, where there is none there either,
/// the one among all files before. Other files are not predicted.
#[verifier::spinoff_prover]
pub proof fn law_pictures_come_from_the_nearest_film(s: Seq<Source>, i: int, k: int)
    requires
        0 <= i < s.len(),
    ensures
        companion(s, i) == Some(k) <==> crate::paths::extension_of(s[i].name@) == seq!['g', 'i', 'f'] && (only(s, i, 0, k)
            || (none_so_near(s, i, 0) && only(s, i, 1, k)) || (none_so_near(s, i, 0) && none_so_near(s, i, 1) && only(
            s,
            i,
            2,
            k,
        ))),
{
    reveal_strlit("gif");
    assert("gif"@ =~= seq!['g', 'i', 'f']);
    lemma_one(s, i, 0, k);
    lemma_one(s, i, 1, k);
    lemma_one(s, i, 2, k);
    assert(nearest(s, i, 3) is None);
    if none_so_near(s, i, 0) && none_so_near(s, i, 1) && none_so_near(s, i, 2) {
        assert(nearest(s, i, 0) is None);
    }
    if !none_so_near(s, i, 0) {
        let m = choose|m: int| candidate(s, i, 0, m);
        assert(candidate(s, i, 0, m));
    }
    if !none_so_near(s, i, 1) {
        let m = choose|m: int| candidate(s, i, 1, m);
        assert(candidate(s, i, 1, m));
    }
    if !none_so_near(s, i, 2) {
        let m = choose|m: int| candidate(s, i, 2, m);
        assert(candidate(s, i, 2, m));
    }
}

}
