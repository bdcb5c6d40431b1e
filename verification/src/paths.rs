//! Names of files in archives: relative paths with slashes that every system can hold.

use crate::locale::message_with;
use crate::text::{after_last, find_from, letters, lower, spells, text};
use crate::wire::{fail, Outcome};
use vstd::prelude::*;
use vstd::string::*;

verus! {

/// How many bytes a name can have.
pub const MAX_NAME: usize = 32760;

/// Whether a character cannot stand in a part of a name.
pub open spec fn forbidden(c: char) -> bool {
    (c as u32) < 32 || c == '\\' || c == ':' || c == '*' || c == '?' || c == '"' || c == '<' || c == '>'
        || c == '|'
}

/// The part of a name before its first dot.
pub open spec fn stem(part: Seq<char>) -> Seq<char> {
    part.take(crate::text::find(part, '.', 0))
}

/// Whether a word, in lower case, is the name of a device.
pub open spec fn device(s: Seq<char>) -> bool {
    ||| s == "con"@
    ||| s == "prn"@
    ||| s == "aux"@
    ||| s == "nul"@
    ||| s.len() == 4 && (s.take(3) == "com"@ || s.take(3) == "lpt"@) && '0' <= s[3] <= '9'
}

/// Whether a part of a name can be used everywhere.
pub open spec fn fine(part: Seq<char>) -> bool {
    &&& part.len() > 0
    &&& part[part.len() - 1] != '.'
    &&& part[part.len() - 1] != ' '
    &&& forall|i: int| 0 <= i < part.len() ==> !forbidden(#[trigger] part[i])
    &&& !device(crate::text::lowered(stem(part)))
}

/// Whether all parts of a name from place `i` on can be used everywhere.
pub open spec fn all_fine(s: Seq<char>, i: int) -> bool
    decreases s.len() - i,
{
    if 0 <= i <= s.len() {
        let end = crate::text::find(s, '/', i);
        &&& fine(s.subrange(i, end))
        &&& i <= end < s.len() ==> all_fine(s, end + 1)
    } else {
        true
    }
}

/// Whether a name has a length that it can have.
pub open spec fn measured(s: Seq<char>) -> bool {
    s.len() > 0 && vstd::utf8::encode_utf8(s).len() <= MAX_NAME
}

/// Whether a name is a relative path that every system can hold.
pub open spec fn safe(s: Seq<char>) -> bool {
    measured(s) && all_fine(s, 0)
}

/// The name, or why it cannot be used.
pub open spec fn checked(s: Seq<char>) -> Outcome<Seq<char>> {
    if !measured(s) {
        Err("error.invalid_path"@)
    } else if !all_fine(s, 0) {
        Err(crate::locale::coded_message("error.unsafe_path"@, seq![s]))
    } else {
        Ok(s)
    }
}

pub open spec fn string_of(r: Result<String, String>) -> Outcome<Seq<char>> {
    match r {
        Ok(s) => Ok(s@),
        Err(e) => Err(e@),
    }
}

fn is_forbidden(c: char) -> (r: bool)
    ensures
        r == forbidden(c),
{
    (c as u32) < 32 || c == '\\' || c == ':' || c == '*' || c == '?' || c == '"' || c == '<' || c == '>'
        || c == '|'
}

fn is_device(v: &[char]) -> (r: bool)
    ensures
        r == device(v@),
{
    if spells(v, "con") || spells(v, "prn") || spells(v, "aux") || spells(v, "nul") {
        return true;
    }
    if v.len() != 4 {
        return false;
    }
    assert(v@.subrange(0, 3) =~= v@.take(3));
    (spells(&v[0..3], "com") || spells(&v[0..3], "lpt")) && '0' <= v[3] && v[3] <= '9'
}

fn is_fine(part: &[char]) -> (r: bool)
    ensures
        r == fine(part@),
{
    if part.len() == 0 || part[part.len() - 1] == '.' || part[part.len() - 1] == ' ' {
        return false;
    }
    let mut i: usize = 0;
    while i < part.len()
        invariant
            i <= part.len(),
            forall|k: int| 0 <= k < i ==> !forbidden(#[trigger] part@[k]),
        decreases part.len() - i,
    {
        if is_forbidden(part[i]) {
            return false;
        }
        i += 1;
    }
    let end = find_from(part, '.', 0);
    assert(part@.subrange(0, end as int) =~= part@.take(end as int));
    !is_device(&lower(&part[0..end]))
}

/// Whether every part of a name can be used everywhere.
fn are_fine(v: &[char]) -> (r: bool)
    ensures
        r == all_fine(v@, 0),
{
    let mut i: usize = 0;
    loop
        invariant
            i <= v.len(),
            all_fine(v@, 0) == all_fine(v@, i as int),
        decreases v.len() - i,
    {
        let end = find_from(v, '/', i);
        if !is_fine(&v[i..end]) {
            return false;
        }
        if end == v.len() {
            return true;
        }
        i = end + 1;
    }
}

/// Whether a name is a relative path that every system can hold.
pub fn is_safe(name: &str) -> (r: bool)
    ensures
        r == safe(name@),
{
    let v = letters(name);
    v.len() > 0 && name.as_bytes().len() <= MAX_NAME && are_fine(&v)
}

/// Checks that a name is a relative path that every system can hold, and returns it.
pub fn safe_rel_path(name: &str) -> (r: Result<String, String>)
    ensures
        string_of(r) == checked(name@),
{
    let v = letters(name);
    if v.len() == 0 || name.as_bytes().len() > MAX_NAME {
        return Err(fail("error.invalid_path"));
    }
    if !are_fine(&v) {
        return Err(message_with("error.unsafe_path", name.to_owned()));
    }
    Ok(name.to_owned())
}

/// A text with an underscore for each character that cannot stand in a part of a name.
pub open spec fn replaced(s: Seq<char>) -> Seq<char> {
    s.map_values(
        |c: char|
            if forbidden(c) || c == '/' {
                '_'
            } else {
                c
            },
    )
}

/// A text without the dots and spaces it starts with.
pub open spec fn bare_front(s: Seq<char>) -> Seq<char>
    decreases s.len(),
{
    if s.len() > 0 && (s[0] == '.' || s[0] == ' ') {
        bare_front(s.skip(1))
    } else {
        s
    }
}

/// A text without the dots and spaces it ends with.
pub open spec fn bare_back(s: Seq<char>) -> Seq<char>
    decreases s.len(),
{
    if s.len() > 0 && (s[s.len() - 1] == '.' || s[s.len() - 1] == ' ') {
        bare_back(s.drop_last())
    } else {
        s
    }
}

/// A name for a folder, as near to a text as can be.
pub open spec fn base_name(s: Seq<char>) -> Seq<char> {
    let name = bare_back(bare_front(replaced(s)));
    if safe(name) {
        name
    } else {
        "media"@
    }
}

/// Makes a name for a folder out of a text.
pub fn safe_base(s: &str) -> (r: String)
    ensures
        r@ == base_name(s@),
{
    let v = letters(s);
    let mut out: Vec<char> = Vec::new();
    let mut i: usize = 0;
    while i < v.len()
        invariant
            i <= v.len(),
            v@ == s@,
            out@ == replaced(s@).take(i as int),
        decreases v.len() - i,
    {
        out.push(
            if is_forbidden(v[i]) || v[i] == '/' {
                '_'
            } else {
                v[i]
            },
        );
        i += 1;
        assert(out@ =~= replaced(s@).take(i as int));
    }
    assert(out@ =~= replaced(s@));
    let mut from: usize = 0;
    assert(out@.skip(0) =~= out@);
    while from < out.len() && (out[from] == '.' || out[from] == ' ')
        invariant
            from <= out.len(),
            bare_front(out@) == bare_front(out@.skip(from as int)),
        decreases out.len() - from,
    {
        assert(out@.skip(from as int).skip(1) =~= out@.skip(from + 1));
        from += 1;
    }
    let ghost front = out@.skip(from as int);
    let mut to: usize = out.len();
    assert(front =~= out@.subrange(from as int, to as int));
    while to > from && (out[to - 1] == '.' || out[to - 1] == ' ')
        invariant
            from <= to <= out.len(),
            front == out@.skip(from as int),
            bare_back(front) == bare_back(out@.subrange(from as int, to as int)),
        decreases to,
    {
        assert(out@.subrange(from as int, to as int).drop_last() =~= out@.subrange(
            from as int,
            to - 1,
        ));
        to -= 1;
    }
    let name = text(&out.as_slice()[from..to]);
    if is_safe(&name) {
        name
    } else {
        "media".to_owned()
    }
}

/// A safe name has no empty part, stays below where it starts, and holds no character that is
/// forbidden.
pub proof fn law_safe_names_stay_below(s: Seq<char>)
    requires
        safe(s),
    ensures
        s[0] != '/',
        s[s.len() - 1] != '/',
        s[s.len() - 1] != '.',
        forall|i: int| 0 <= i < s.len() - 1 ==> !(#[trigger] s[i] == '/' && s[i + 1] == '/'),
        forall|i: int| 0 <= i < s.len() - 1 ==> !(#[trigger] s[i] == '.' && s[i + 1] == '/'),
        forall|i: int| 0 <= i < s.len() ==> !forbidden(#[trigger] s[i]),
{
    lemma_fine_from(s, 0);
    crate::text::lemma_find(s, '/', 0);
}

proof fn lemma_fine_from(s: Seq<char>, i: int)
    requires
        0 <= i <= s.len(),
        all_fine(s, i),
    ensures
        i < s.len(),
        s[i] != '/',
        s[s.len() - 1] != '/',
        s[s.len() - 1] != '.',
        forall|k: int| i <= k < s.len() - 1 ==> !(#[trigger] s[k] == '/' && s[k + 1] == '/'),
        forall|k: int| i <= k < s.len() - 1 ==> !(#[trigger] s[k] == '.' && s[k + 1] == '/'),
        forall|k: int| i <= k < s.len() ==> !forbidden(#[trigger] s[k]),
    decreases s.len() - i,
{
    let end = crate::text::find(s, '/', i);
    crate::text::lemma_find(s, '/', i);
    let part = s.subrange(i, end);
    assert(part[part.len() - 1] == s[end - 1]);
    assert forall|k: int| i <= k < end implies !forbidden(#[trigger] s[k]) by {
        assert(part[k - i] == s[k]);
    }
    if end < s.len() {
        lemma_fine_from(s, end + 1);
    }
}

/// A folder's name is always a safe one without a slash.
pub proof fn law_base_names_are_safe(s: Seq<char>)
    ensures
        safe(base_name(s)),
        forall|i: int| 0 <= i < base_name(s).len() ==> #[trigger] base_name(s)[i] != '/',
{
    let name = bare_back(bare_front(replaced(s)));
    lemma_no_slash(s);
    if !safe(name) {
        reveal_strlit("media");
        let m = "media"@;
        assert(m.len() == 5);
        assert(m[0] == 'm' && m[1] == 'e' && m[2] == 'd' && m[3] == 'i' && m[4] == 'a');
        vstd::utf8::is_ascii_chars_encode_utf8(m);
        crate::text::lemma_find(m, '/', 0);
        crate::text::lemma_find(m, '.', 0);
        assert(m.subrange(0, 5) =~= m);
        assert(stem(m) =~= m);
        let low = crate::text::lowered(m);
        assert(low.len() == 5);
        reveal_strlit("con");
        reveal_strlit("prn");
        reveal_strlit("aux");
        reveal_strlit("nul");
        assert(!device(low));
        assert(fine(m));
    }
}

proof fn lemma_bare(s: Seq<char>)
    requires
        forall|i: int| 0 <= i < s.len() ==> #[trigger] s[i] != '/',
    ensures
        forall|i: int| 0 <= i < bare_front(s).len() ==> #[trigger] bare_front(s)[i] != '/',
    decreases s.len(),
{
    if s.len() > 0 && (s[0] == '.' || s[0] == ' ') {
        assert forall|i: int| 0 <= i < s.skip(1).len() implies #[trigger] s.skip(1)[i] != '/' by {
            assert(s.skip(1)[i] == s[i + 1]);
        }
        lemma_bare(s.skip(1));
        assert(bare_front(s) == bare_front(s.skip(1)));
    } else {
        assert(bare_front(s) == s);
    }
}

proof fn lemma_bare_back(s: Seq<char>)
    requires
        forall|i: int| 0 <= i < s.len() ==> #[trigger] s[i] != '/',
    ensures
        forall|i: int| 0 <= i < bare_back(s).len() ==> #[trigger] bare_back(s)[i] != '/',
    decreases s.len(),
{
    if s.len() > 0 && (s[s.len() - 1] == '.' || s[s.len() - 1] == ' ') {
        assert forall|i: int| 0 <= i < s.drop_last().len() implies #[trigger] s.drop_last()[i] != '/' by {
            assert(s.drop_last()[i] == s[i]);
        }
        lemma_bare_back(s.drop_last());
        assert(bare_back(s) == bare_back(s.drop_last()));
    } else {
        assert(bare_back(s) == s);
    }
}

proof fn lemma_no_slash(s: Seq<char>)
    ensures
        forall|i: int|
            0 <= i < bare_back(bare_front(replaced(s))).len() ==> #[trigger] bare_back(
                bare_front(replaced(s)),
            )[i] != '/',
{
    lemma_bare(replaced(s));
    lemma_bare_back(bare_front(replaced(s)));
}

/// A path without slashes, and without single dots, at its end.
pub open spec fn unended(s: Seq<char>) -> Seq<char>
    decreases s.len(),
{
    if s.len() > 0 && s[s.len() - 1] == '/' {
        unended(s.drop_last())
    } else if s.len() > 1 && s[s.len() - 1] == '.' && s[s.len() - 2] == '/' {
        unended(s.drop_last())
    } else {
        s
    }
}

/// The last part of a path, unless it ends in two dots or names no file.
pub open spec fn file_name(s: Seq<char>) -> Option<Seq<char>> {
    let t = unended(s);
    let name = t.skip(crate::text::last_before(t, '/', t.len() as int) + 1);
    if name.len() == 0 || name == "."@ || name == ".."@ {
        None
    } else {
        Some(name)
    }
}

/// Where the extension of a file's name starts, or its end, if it has none.
pub open spec fn extension_at(name: Seq<char>) -> int {
    let dot = crate::text::last_before(name, '.', name.len() as int);
    if dot <= 0 {
        name.len() as int
    } else {
        dot + 1
    }
}

/// The extension of a path, in lower case.
pub open spec fn extension_of(s: Seq<char>) -> Seq<char> {
    match file_name(s) {
        None => Seq::empty(),
        Some(name) => crate::text::lowered(name.skip(extension_at(name))),
    }
}

/// The name of a file without its extension.
pub open spec fn file_stem(s: Seq<char>) -> Option<Seq<char>> {
    match file_name(s) {
        None => None,
        Some(name) => {
            let dot = crate::text::last_before(name, '.', name.len() as int);
            Some(
                if dot <= 0 {
                    name
                } else {
                    name.take(dot)
                },
            )
        },
    }
}

/// The last part of a path.
pub fn name_of(path: &[char]) -> (r: Option<Vec<char>>)
    ensures
        match r {
            Some(v) => file_name(path@) == Some(v@),
            None => file_name(path@) is None,
        },
{
    let t = unend(path);
    let from = after_last(&t, '/');
    assert(t@.subrange(from as int, t@.len() as int) =~= t@.skip(from as int));
    let name = &t.as_slice()[from..t.len()];
    if name.len() == 0 || spells(name, ".") || spells(name, "..") {
        return None;
    }
    let mut v: Vec<char> = Vec::new();
    v.extend_from_slice(name);
    Some(v)
}

/// The extension of a path, in lower case.
pub fn extension(name: &str) -> (r: String)
    ensures
        r@ == extension_of(name@),
{
    match name_of(&letters(name)) {
        None => String::new(),
        Some(v) => {
            let from = after_last(&v, '.');
            let at: usize = if from <= 1 {
                v.len()
            } else {
                from
            };
            assert(v@.subrange(at as int, v@.len() as int) =~= v@.skip(at as int));
            text(&lower(&v.as_slice()[at..v.len()]))
        },
    }
}

/// The name of a file without its extension.
pub fn stem_of(path: &[char]) -> (r: Option<Vec<char>>)
    ensures
        match r {
            Some(v) => file_stem(path@) == Some(v@),
            None => file_stem(path@) is None,
        },
{
    match name_of(path) {
        None => None,
        Some(v) => {
            let mut v = v;
            let from = after_last(&v, '.');
            let ghost name = v@;
            if from > 1 {
                v.truncate(from - 1);
                assert(v@ =~= name.take(from - 1));
            }
            Some(v)
        },
    }
}

/// The folder that a path lies in.
pub open spec fn parent(s: Seq<char>) -> Seq<char> {
    let t = unended(s);
    let at = crate::text::last_before(t, '/', t.len() as int);
    if at < 0 {
        Seq::empty()
    } else {
        unended(t.take(at))
    }
}

/// The folder that a path lies in.
pub fn parent_of(path: &[char]) -> (r: Vec<char>)
    ensures
        r@ == parent(path@),
{
    let t = unend(path);
    let from = after_last(&t, '/');
    if from == 0 {
        return Vec::new();
    }
    assert(t@.subrange(0, from - 1) =~= t@.take(from - 1));
    unend(&t.as_slice()[0..from - 1])
}

fn unend(path: &[char]) -> (r: Vec<char>)
    ensures
        r@ == unended(path@),
{
    let mut end: usize = path.len();
    assert(path@.take(end as int) =~= path@);
    while end > 0 && (path[end - 1] == '/' || (end > 1 && path[end - 1] == '.' && path[end - 2] == '/'))
        invariant
            end <= path.len(),
            unended(path@) == unended(path@.take(end as int)),
        decreases end,
    {
        assert(path@.take(end as int).drop_last() =~= path@.take(end - 1));
        end -= 1;
    }
    assert(path@.subrange(0, end as int) =~= path@.take(end as int));
    let mut v: Vec<char> = Vec::new();
    v.extend_from_slice(&path[0..end]);
    v
}

}
