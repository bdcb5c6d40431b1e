//! Which film an animated picture was made from.

use crate::paths::{extension, name_of, parent_of, stem_of};
use crate::scan::Source;
use crate::text::{equal, letters, same_text, text, to_lower};
use vstd::prelude::*;

verus! {

/// The longest file that is transformed.
pub const TRANSFORM_LIMIT: u64 = 0x1000_0000;

/// What a file is called, but for case and extension.
pub open spec fn title(s: Source) -> Option<Seq<char>> {
    match crate::paths::file_stem(s.path@) {
        None => None,
        Some(stem) => Some(crate::text::lowercase(stem)),
    }
}

/// Whether a file is a film that others can be predicted from.
pub open spec fn film(s: Source) -> bool {
    crate::paths::extension_of(s.name@) == "mov"@ && s.bytes <= TRANSFORM_LIMIT && title(s) is Some
}

/// Whether two files lie near each other: in one folder, in folders of one name, or anywhere.
pub open spec fn near(a: Source, b: Source, tier: int) -> bool {
    if tier == 0 {
        crate::paths::parent(a.path@) == crate::paths::parent(b.path@)
    } else if tier == 1 {
        crate::paths::file_name(crate::paths::parent(a.path@)) == crate::paths::file_name(
            crate::paths::parent(b.path@),
        )
    } else {
        true
    }
}

/// The first film from number `j` on, before file number `i`, that has its title and lies near it.
pub open spec fn first_film(s: Seq<Source>, i: int, tier: int, j: int) -> Option<int>
    decreases i - j,
{
    if j >= i {
        None
    } else if film(s[j]) && title(s[j]) == title(s[i]) && near(s[j], s[i], tier) {
        Some(j)
    } else {
        first_film(s, i, tier, j + 1)
    }
}

/// The one film that lies nearest to a file, or none, if there are several.
pub open spec fn nearest(s: Seq<Source>, i: int, tier: int) -> Option<int>
    decreases 3 - tier,
{
    if tier >= 3 {
        None
    } else {
        match first_film(s, i, tier, 0) {
            None => nearest(s, i, tier + 1),
            Some(j) => if first_film(s, i, tier, j + 1) is None {
                Some(j)
            } else {
                None
            },
        }
    }
}

/// The film that an animated picture is predicted from.
pub open spec fn companion(s: Seq<Source>, i: int) -> Option<int> {
    if crate::paths::extension_of(s[i].name@) == "gif"@ && title(s[i]) is Some {
        nearest(s, i, 0)
    } else {
        None
    }
}

/// What is known of a file, so that it need not be found again and again.
struct Known {
    title: Option<Vec<char>>,
    film: bool,
    parent: Vec<char>,
    folder: Option<Vec<char>>,
}

spec fn text_in(v: Option<Vec<char>>) -> Option<Seq<char>> {
    match v {
        None => None,
        Some(v) => Some(v@),
    }
}

spec fn knows(k: Known, s: Source) -> bool {
    &&& text_in(k.title) == title(s)
    &&& k.film == film(s)
    &&& k.parent@ == crate::paths::parent(s.path@)
    &&& text_in(k.folder) == crate::paths::file_name(crate::paths::parent(s.path@))
}

spec fn all_known(k: Seq<Known>, s: Seq<Source>) -> bool {
    k.len() == s.len() && forall|i: int| 0 <= i < k.len() ==> knows(#[trigger] k[i], s[i])
}

fn learn(s: &Source) -> (k: Known)
    ensures
        knows(k, *s),
{
    let path = letters(&s.path);
    let title = match stem_of(&path) {
        None => None,
        Some(stem) => Some(letters(&to_lower(&text(&stem)))),
    };
    let film = same_text(&extension(&s.name), "mov") && s.bytes <= TRANSFORM_LIMIT && title.is_some();
    let parent = parent_of(&path);
    let folder = name_of(&parent);
    Known { title, film, parent, folder }
}

fn same_words(a: &Option<Vec<char>>, b: &Option<Vec<char>>) -> (r: bool)
    ensures
        r == (text_in(*a) == text_in(*b)),
{
    match (a, b) {
        (None, None) => true,
        (Some(x), Some(y)) => equal(x, y),
        _ => false,
    }
}

fn find_film(known: &Vec<Known>, i: usize, tier: usize, from: usize, Ghost(s): Ghost<Seq<Source>>) -> (r:
    Option<usize>)
    requires
        all_known(known@, s),
        i < known@.len(),
    ensures
        match r {
            Some(j) => first_film(s, i as int, tier as int, from as int) == Some(j as int) && j < i,
            None => first_film(s, i as int, tier as int, from as int) is None,
        },
{
    let mut j: usize = from;
    while j < i
        invariant
            all_known(known@, s),
            i < known@.len(),
            from <= j,
            first_film(s, i as int, tier as int, from as int) == first_film(
                s,
                i as int,
                tier as int,
                j as int,
            ),
        decreases i - j,
    {
        assert(knows(known@[j as int], s[j as int]) && knows(known@[i as int], s[i as int]));
        let (a, b) = (&known[j], &known[i]);
        if a.film && same_words(&a.title, &b.title) && (if tier == 0 {
            equal(&a.parent, &b.parent)
        } else if tier == 1 {
            same_words(&a.folder, &b.folder)
        } else {
            true
        }) {
            return Some(j);
        }
        j += 1;
    }
    None
}

fn find_nearest(known: &Vec<Known>, i: usize, Ghost(s): Ghost<Seq<Source>>) -> (r: Option<usize>)
    requires
        all_known(known@, s),
        i < known@.len(),
    ensures
        match r {
            Some(j) => nearest(s, i as int, 0) == Some(j as int) && j < i,
            None => nearest(s, i as int, 0) is None,
        },
{
    let mut tier: usize = 0;
    while tier < 3
        invariant
            tier <= 3,
            all_known(known@, s),
            i < known@.len(),
            nearest(s, i as int, 0) == nearest(s, i as int, tier as int),
        decreases 3 - tier,
    {
        match find_film(known, i, tier, 0, Ghost(s)) {
            None => {},
            Some(j) => {
                return match find_film(known, i, tier, j + 1, Ghost(s)) {
                    None => Some(j),
                    Some(_) => None,
                };
            },
        }
        tier += 1;
    }
    None
}

/// Finds the film for each animated picture among files.
pub fn pair_mov_sources(sources: &[Source]) -> (out: Vec<Option<usize>>)
    ensures
        out@.len() == sources@.len(),
        forall|i: int|
            0 <= i < out@.len() ==> match #[trigger] out@[i] {
                Some(j) => companion(sources@, i) == Some(j as int) && j < i,
                None => companion(sources@, i) is None,
            },
{
    let mut known: Vec<Known> = Vec::new();
    let mut i: usize = 0;
    while i < sources.len()
        invariant
            i <= sources.len(),
            known@.len() == i,
            forall|k: int| 0 <= k < i ==> knows(#[trigger] known@[k], sources@[k]),
        decreases sources.len() - i,
    {
        known.push(learn(&sources[i]));
        i += 1;
    }
    let mut out: Vec<Option<usize>> = Vec::new();
    let mut n: usize = 0;
    while n < sources.len()
        invariant
            n <= sources.len(),
            all_known(known@, sources@),
            out@.len() == n,
            forall|i: int|
                0 <= i < n ==> match #[trigger] out@[i] {
                    Some(j) => companion(sources@, i) == Some(j as int) && j < i,
                    None => companion(sources@, i) is None,
                },
        decreases sources.len() - n,
    {
        assert(knows(known@[n as int], sources@[n as int]));
        let r = if same_text(&extension(&sources[n].name), "gif") && known[n].title.is_some() {
            find_nearest(&known, n, Ghost(sources@))
        } else {
            None
        };
        out.push(r);
        n += 1;
    }
    out
}

proof fn lemma_first(s: Seq<Source>, i: int, tier: int, j: int)
    requires
        0 <= j,
    ensures
        first_film(s, i, tier, j) matches Some(k) ==> j <= k < i && film(s[k]) && title(s[k]) == title(
            s[i],
        ),
    decreases i - j,
{
    if j < i {
        lemma_first(s, i, tier, j + 1);
    }
}

proof fn lemma_nearest(s: Seq<Source>, i: int, tier: int)
    ensures
        nearest(s, i, tier) matches Some(k) ==> 0 <= k < i && film(s[k]) && title(s[k]) == title(s[i]),
    decreases 3 - tier,
{
    if tier < 3 {
        lemma_first(s, i, tier, 0);
        lemma_nearest(s, i, tier + 1);
    }
}

/// A companion comes before the picture, is a film within the limit, and has the picture's title.
pub proof fn law_companions_come_first(s: Seq<Source>, i: int)
    ensures
        companion(s, i) matches Some(k) ==> 0 <= k < i && film(s[k]) && title(s[k]) == title(s[i]),
{
    lemma_nearest(s, i, 0);
}

}
