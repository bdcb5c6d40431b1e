//! Which names files can have.

use vstd::prelude::*;

verus! {

/// Whether a part of a name stands between places `i` and `j`.
pub open spec fn part_at(s: Seq<char>, i: int, j: int) -> bool {
    &&& 0 <= i <= j <= s.len()
    &&& i == 0 || s[i - 1] == '/'
    &&& j == s.len() || s[j] == '/'
    &&& forall|k: int| i <= k < j ==> #[trigger] s[k] != '/'
}

/// Whether a word is another, in capitals, in small letters or in both.
pub open spec fn spelt(t: Seq<char>, w: Seq<char>) -> bool {
    &&& t.len() == w.len()
    &&& forall|k: int| 0 <= k < t.len() ==> #[trigger] t[k] == w[k] || (65 <= t[k] as int <= 90 && t[k] as int + 32 == w[k] as int)
}

/// Whether a word is what systems call a device.
pub open spec fn names_device(t: Seq<char>) -> bool {
    ||| spelt(t, seq!['c', 'o', 'n'])
    ||| spelt(t, seq!['p', 'r', 'n'])
    ||| spelt(t, seq!['a', 'u', 'x'])
    ||| spelt(t, seq!['n', 'u', 'l'])
    ||| t.len() == 4 && 48 <= t[3] as int <= 57 && (spelt(t.take(3), seq!['c', 'o', 'm']) || spelt(
        t.take(3),
        seq!['l', 'p', 't'],
    ))
}

/// Whether the part of a name between places `i` and `j` is one that every system can hold: it is not empty, ends
/// neither in a dot nor in a space, has no control character and none that means something else to some system, and
/// what stands before its first dot is no device.
pub open spec fn portable(s: Seq<char>, i: int, j: int) -> bool {
    &&& i < j
    &&& s[j - 1] != '.'
    &&& s[j - 1] != ' '
    &&& forall|k: int|
        i <= k < j ==> (#[trigger] s[k] as u32) >= 32 && s[k] != '\\' && s[k] != ':' && s[k] != '*' && s[k] != '?' && s[k]
            != '"' && s[k] != '<' && s[k] != '>' && s[k] != '|'
    &&& forall|k: int|
        #![trigger s.subrange(i, k)]
        i <= k <= j && (k == j || s[k] == '.') && (forall|x: int| i <= x < k ==> #[trigger] s[x] != '.')
            ==> !names_device(s.subrange(i, k))
}

proof fn lemma_spelt(t: Seq<char>, w: Seq<char>)
    requires
        forall|k: int| 0 <= k < w.len() ==> 97 <= #[trigger] w[k] as int <= 122,
    ensures
        crate::text::lowered(t) == w <==> spelt(t, w),
{
    let l = crate::text::lowered(t);
    if l == w {
        assert forall|k: int| 0 <= k < t.len() implies #[trigger] t[k] == w[k] || (65 <= t[k] as int <= 90 && t[k] as int
            + 32 == w[k] as int) by {
            assert(l[k] == crate::text::small(t[k]));
        }
    }
    if spelt(t, w) {
        assert forall|k: int| 0 <= k < t.len() implies l[k] == w[k] by {
            assert(t[k] == w[k] || (65 <= t[k] as int <= 90 && t[k] as int + 32 == w[k] as int));
            assert(97 <= w[k] as int <= 122);
        }
        assert(l =~= w);
    }
}

#[verifier::spinoff_prover]
proof fn lemma_device(t: Seq<char>)
    ensures
        crate::paths::device(crate::text::lowered(t)) <==> names_device(t),
{
    reveal_strlit("con");
    reveal_strlit("prn");
    reveal_strlit("aux");
    reveal_strlit("nul");
    reveal_strlit("com");
    reveal_strlit("lpt");
    assert("con"@ =~= seq!['c', 'o', 'n']);
    assert("prn"@ =~= seq!['p', 'r', 'n']);
    assert("aux"@ =~= seq!['a', 'u', 'x']);
    assert("nul"@ =~= seq!['n', 'u', 'l']);
    assert("com"@ =~= seq!['c', 'o', 'm']);
    assert("lpt"@ =~= seq!['l', 'p', 't']);
    lemma_spelt(t, seq!['c', 'o', 'n']);
    lemma_spelt(t, seq!['p', 'r', 'n']);
    lemma_spelt(t, seq!['a', 'u', 'x']);
    lemma_spelt(t, seq!['n', 'u', 'l']);
    if t.len() == 4 {
        lemma_spelt(t.take(3), seq!['c', 'o', 'm']);
        lemma_spelt(t.take(3), seq!['l', 'p', 't']);
        assert(crate::text::lowered(t).take(3) =~= crate::text::lowered(t.take(3)));
        assert(crate::text::lowered(t)[3] == crate::text::small(t[3]));
    }
}

proof fn lemma_part(s: Seq<char>, i: int, j: int)
    requires
        part_at(s, i, j),
    ensures
        crate::paths::fine(s.subrange(i, j)) <==> portable(s, i, j),
{
    let p = s.subrange(i, j);
    let e = crate::text::find(p, '.', 0);
    crate::text::lemma_find(p, '.', 0);
    assert(p.take(e) =~= s.subrange(i, i + e));
    lemma_device(p.take(e));
    assert forall|x: int| i <= x < i + e implies #[trigger] s[x] != '.' by {
        assert(p[x - i] == s[x]);
    }
    assert(forall|k: int| i <= k < j ==> #[trigger] s[k] == p[k - i]);
    if crate::paths::fine(p) {
        assert(i + e == j || s[i + e] == '.');
        assert forall|k: int|
            #![trigger s.subrange(i, k)]
            i <= k <= j && (k == j || s[k] == '.') && (forall|x: int| i <= x < k ==> #[trigger] s[x] != '.')
                implies !names_device(s.subrange(i, k)) by {
            if k < i + e {
                assert(s[k] != '.');
            } else if k > i + e {
                assert(s[i + e] != '.');
            }
        }
        assert forall|k: int| i <= k < j implies (#[trigger] s[k] as u32) >= 32 && s[k] != '\\' && s[k] != ':' && s[k]
            != '*' && s[k] != '?' && s[k] != '"' && s[k] != '<' && s[k] != '>' && s[k] != '|' by {
            assert(!crate::paths::forbidden(p[k - i]));
        }
    }
    if portable(s, i, j) {
        assert(!names_device(s.subrange(i, i + e)));
        assert forall|k: int| 0 <= k < p.len() implies !crate::paths::forbidden(#[trigger] p[k]) by {
            assert((s[i + k] as u32) >= 32);
        }
    }
}

proof fn lemma_parts(s: Seq<char>, i: int)
    requires
        0 <= i <= s.len(),
        i == 0 || s[i - 1] == '/',
    ensures
        crate::paths::all_fine(s, i) <==> forall|a: int, b: int|
            i <= a && #[trigger] part_at(s, a, b) ==> portable(s, a, b),
    decreases s.len() - i,
{
    let end = crate::text::find(s, '/', i);
    crate::text::lemma_find(s, '/', i);
    assert(part_at(s, i, end));
    lemma_part(s, i, end);
    if end < s.len() {
        lemma_parts(s, end + 1);
        if crate::paths::all_fine(s, i) {
            assert forall|a: int, b: int| i <= a && #[trigger] part_at(s, a, b) implies portable(s, a, b) by {
                if a <= end {
                    if a > i {
                        assert(s[a - 1] == '/');
                    }
                    if b < end {
                        assert(s[b] == '/');
                    } else if b > end {
                        assert(s[end] != '/');
                    }
                }
            }
        }
    } else if portable(s, i, end) {
        assert forall|a: int, b: int| i <= a && #[trigger] part_at(s, a, b) implies portable(s, a, b) by {
            if a > i {
                assert(s[a - 1] == '/');
            }
            if b < end {
                assert(s[b] == '/');
            }
        }
    }
}

/// A name can be used if and only if it has from 1 to 32760 bytes and every system can hold each of its parts. It is
/// used as it is. An empty name and one that is too long are told apart from one that some system cannot hold.
pub proof fn law_portable_names_are_used(s: Seq<char>)
    ensures
        ({
            let long = vstd::utf8::encode_utf8(s).len() > 32760;
            let held = forall|i: int, j: int| #[trigger] part_at(s, i, j) ==> portable(s, i, j);
            &&& crate::paths::checked(s) == Ok::<Seq<char>, Seq<char>>(s) <==> s.len() > 0 && !long && held
            &&& crate::paths::checked(s) is Ok <==> s.len() > 0 && !long && held
            &&& crate::paths::checked(s) == Err::<Seq<char>, Seq<char>>("error.invalid_path"@) <== s.len() == 0 || long
            &&& s.len() > 0 && !long && !held ==> crate::paths::checked(s) == Err::<Seq<char>, Seq<char>>(
                crate::locale::coded_message("error.unsafe_path"@, seq![s]),
            )
            &&& crate::paths::safe(s) <==> s.len() > 0 && !long && held
        }),
{
    lemma_parts(s, 0);
}

proof fn lemma_bare_front(s: Seq<char>, k: int)
    requires
        0 <= k <= s.len(),
        forall|i: int| 0 <= i < k ==> #[trigger] s[i] == '.' || s[i] == ' ',
    ensures
        crate::paths::bare_front(s) == crate::paths::bare_front(s.skip(k)),
    decreases k,
{
    if k > 0 {
        lemma_bare_front(s.skip(1), k - 1);
        assert(s.skip(1).skip(k - 1) =~= s.skip(k));
    } else {
        assert(s.skip(0) =~= s);
    }
}

proof fn lemma_bare_back(s: Seq<char>, k: int)
    requires
        0 <= k <= s.len(),
        forall|i: int| k <= i < s.len() ==> #[trigger] s[i] == '.' || s[i] == ' ',
    ensures
        crate::paths::bare_back(s) == crate::paths::bare_back(s.take(k)),
    decreases s.len() - k,
{
    if k < s.len() {
        lemma_bare_back(s.drop_last(), k);
        assert(s.drop_last().take(k) =~= s.take(k));
    } else {
        assert(s.take(k) =~= s);
    }
}

/// A folder is named after a text: without the dots and spaces around it, and with an underscore for every slash and
/// every character that some system cannot hold. Only where no system could hold that, it is named media.
pub proof fn law_folders_are_named_after_texts(front: Seq<char>, s: Seq<char>, back: Seq<char>, t: Seq<char>)
    requires
        forall|i: int| 0 <= i < front.len() ==> #[trigger] front[i] == '.' || front[i] == ' ',
        forall|i: int| 0 <= i < back.len() ==> #[trigger] back[i] == '.' || back[i] == ' ',
        s.len() > 0 ==> s[0] != '.' && s[0] != ' ' && s.last() != '.' && s.last() != ' ',
        t.len() == s.len(),
        forall|i: int|
            0 <= i < s.len() ==> #[trigger] t[i] == if (s[i] as u32) < 32 || s[i] == '/' || s[i] == '\\' || s[i] == ':'
                || s[i] == '*' || s[i] == '?' || s[i] == '"' || s[i] == '<' || s[i] == '>' || s[i] == '|' {
                '_'
            } else {
                s[i]
            },
    ensures
        crate::paths::base_name(front + s + back) == if crate::paths::checked(t) is Ok {
            t
        } else {
            seq!['m', 'e', 'd', 'i', 'a']
        },
{
    reveal_strlit("media");
    assert("media"@ =~= seq!['m', 'e', 'd', 'i', 'a']);
    let all = front + s + back;
    let r = crate::paths::replaced(all);
    assert forall|i: int| 0 <= i < r.len() implies #[trigger] r[i] == (if i < front.len() {
        front[i]
    } else if i < front.len() + s.len() {
        t[i - front.len()]
    } else {
        back[i - front.len() - s.len()]
    }) by {
        if i < front.len() {
            assert(all[i] == front[i]);
        } else if i < front.len() + s.len() {
            assert(all[i] == s[i - front.len()]);
        } else {
            assert(all[i] == back[i - front.len() - s.len()]);
        }
    }
    assert(r =~= front + t + back);
    lemma_bare_front(r, front.len() as int);
    let u = r.skip(front.len() as int);
    assert(u =~= t + back);
    if s.len() > 0 {
        assert(u[0] == t[0]);
        assert(crate::paths::bare_front(u) == u);
        lemma_bare_back(u, t.len() as int);
        assert(u.take(t.len() as int) =~= t);
        assert(t.last() == t[s.len() - 1]);
        assert(crate::paths::bare_back(t) == t);
    } else {
        assert(u =~= back);
        lemma_bare_front(u, u.len() as int);
        assert(u.skip(u.len() as int) =~= t);
        assert(crate::paths::bare_front(t) == t);
        assert(crate::paths::bare_back(t) == t);
    }
}

/// The last part of a path is the name of a file, in whatever folder it lies, and what lies before it is the path of
/// the folder.
pub proof fn law_paths_end_in_names(folder: Seq<char>, name: Seq<char>)
    requires
        name.len() > 0,
        forall|i: int| 0 <= i < name.len() ==> #[trigger] name[i] != '/',
        name != seq!['.'],
        name != seq!['.', '.'],
    ensures
        crate::paths::file_name(name) == Some(name),
        crate::paths::parent(name) == Seq::<char>::empty(),
        crate::paths::file_name(folder + seq!['/'] + name) == Some(name),
        crate::paths::parent(folder + seq!['/'] + name) == crate::paths::unended(folder),
        folder.len() > 0 && folder.last() != '/' && folder.last() != '.' ==> crate::paths::unended(folder) == folder,
{
    reveal_strlit(".");
    reveal_strlit("..");
    assert("."@ =~= seq!['.']);
    assert(".."@ =~= seq!['.', '.']);
    let s = folder + seq!['/'] + name;
    let n = folder.len() as int;
    assert(s.last() == name.last());
    if name.len() == 1 && name[0] == '.' {
        assert(name =~= seq!['.']);
    }
    if name.len() > 1 {
        assert(s[s.len() - 2] == name[name.len() - 2]);
    }
    assert(crate::paths::unended(s) == s);
    assert(crate::paths::unended(name) == name);
    assert(s[n] == '/');
    assert forall|k: int| n < k < s.len() implies #[trigger] s[k] != '/' by {
        assert(s[k] == name[k - n - 1]);
    }
    crate::text_law::law_last_place(s, '/', s.len() as int, n);
    crate::text_law::law_last_place(name, '/', name.len() as int, -1);
    assert(s.skip(n + 1) =~= name);
    assert(name.skip(0) =~= name);
    assert(s.take(n) =~= folder);
}

/// The extension of a file is what follows the last dot of its name, in small letters, whatever its folder. A name
/// that has no dot, or only one in front, has none. The name without the extension is what stands before that dot.
pub proof fn law_names_end_in_extensions(folder: Seq<char>, stem: Seq<char>, ext: Seq<char>)
    requires
        stem.len() > 0,
        ext.len() > 0,
        forall|i: int| 0 <= i < stem.len() ==> #[trigger] stem[i] != '/',
        forall|i: int| 0 <= i < ext.len() ==> #[trigger] ext[i] != '/' && ext[i] != '.',
    ensures
        crate::paths::extension_of(folder + seq!['/'] + (stem + seq!['.'] + ext)) == crate::text::lowered(ext),
        crate::paths::extension_of(stem + seq!['.'] + ext) == crate::text::lowered(ext),
        crate::paths::file_stem(stem + seq!['.'] + ext) == Some(stem),
        crate::paths::file_stem(folder + seq!['/'] + (stem + seq!['.'] + ext)) == Some(stem),
        crate::paths::extension_of(ext) == Seq::<char>::empty(),
        crate::paths::extension_of(seq!['.'] + ext) == Seq::<char>::empty(),
        crate::paths::file_stem(ext) == Some(ext),
{
    let name = stem + seq!['.'] + ext;
    let n = stem.len() as int;
    assert forall|k: int| 0 <= k < name.len() implies #[trigger] name[k] != '/' by {
        if k < n {
            assert(name[k] == stem[k]);
        } else if k > n {
            assert(name[k] == ext[k - n - 1]);
        }
    }
    assert(name[n] == '.');
    assert(name.len() >= 3);
    law_paths_end_in_names(folder, name);
    assert forall|k: int| n < k < name.len() implies #[trigger] name[k] != '.' by {
        assert(name[k] == ext[k - n - 1]);
    }
    crate::text_law::law_last_place(name, '.', name.len() as int, n);
    assert(name.skip(n + 1) =~= ext);
    assert(name.take(n) =~= stem);
    assert(ext[0] != '.');
    law_paths_end_in_names(folder, ext);
    crate::text_law::law_last_place(ext, '.', ext.len() as int, -1);
    assert(crate::text::lowered(ext.skip(ext.len() as int)) =~= Seq::<char>::empty());
    let dotted = seq!['.'] + ext;
    assert(dotted[1] == ext[0]);
    assert forall|k: int| 0 <= k < dotted.len() implies #[trigger] dotted[k] != '/' by {
        if k > 0 {
            assert(dotted[k] == ext[k - 1]);
        }
    }
    law_paths_end_in_names(folder, dotted);
    assert forall|k: int| 0 < k < dotted.len() implies #[trigger] dotted[k] != '.' by {
        assert(dotted[k] == ext[k - 1]);
    }
    crate::text_law::law_last_place(dotted, '.', dotted.len() as int, 0);
    assert(crate::text::lowered(dotted.skip(dotted.len() as int)) =~= Seq::<char>::empty());
}

}
