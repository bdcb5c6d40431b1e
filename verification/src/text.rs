//! Text as sequences of characters.

use vstd::prelude::*;

verus! {

/// `String::push` appends one character.
pub assume_specification[ String::push ](s: &mut String, c: char)
    ensures
        final(s)@ == old(s)@.push(c),
;

/// What `str::to_lowercase` makes of a text.
pub uninterp spec fn lowercase(s: Seq<char>) -> Seq<char>;

/// Calls `str::to_lowercase`, which goes by the Unicode character data and by no locale.
#[verifier::external_body]
pub(crate) fn to_lower(s: &str) -> (r: String)
    ensures
        r@ == lowercase(s@),
{
    s.to_lowercase()
}

/// The characters of a text.
pub fn letters(s: &str) -> (v: Vec<char>)
    ensures
        v@ == s@,
{
    broadcast use {vstd::string::axiom_spec_iter, vstd::string::next_postcondition};

    let mut v: Vec<char> = Vec::new();
    for c in it: s.chars()
        invariant
            it.seq() == s@,
            v@ == it.seq().take(it.index()),
    {
        v.push(c);
        assert(v@ =~= it.seq().take(it.index() + 1));
    }
    assert(v@ =~= s@);
    v
}

/// The text that characters make up.
pub fn text(v: &[char]) -> (s: String)
    ensures
        s@ == v@,
{
    let mut s = String::new();
    let mut i: usize = 0;
    while i < v.len()
        invariant
            i <= v.len(),
            s@ == v@.take(i as int),
        decreases v.len() - i,
    {
        s.push(v[i]);
        i += 1;
        assert(s@ =~= v@.take(i as int));
    }
    assert(v@.take(i as int) =~= v@);
    s
}

/// Whether characters are the same.
pub fn equal(a: &[char], b: &[char]) -> (r: bool)
    ensures
        r == (a@ == b@),
{
    if a.len() != b.len() {
        return false;
    }
    let mut i: usize = 0;
    while i < a.len()
        invariant
            i <= a.len(),
            a@.len() == b@.len(),
            forall|k: int| 0 <= k < i ==> a@[k] == b@[k],
        decreases a.len() - i,
    {
        if a[i] != b[i] {
            return false;
        }
        i += 1;
    }
    assert(a@ =~= b@);
    true
}

/// Whether characters make up a text.
pub fn spells(a: &[char], b: &str) -> (r: bool)
    ensures
        r == (a@ == b@),
{
    equal(a, &letters(b))
}

/// Whether two texts are the same.
pub fn same_text(a: &str, b: &str) -> (r: bool)
    ensures
        r == (a@ == b@),
{
    equal(&letters(a), &letters(b))
}

/// A character in lower case, if it is an ASCII letter.
pub open spec fn small(c: char) -> char {
    if 'A' <= c <= 'Z' {
        (c as u32 + 32) as char
    } else {
        c
    }
}

/// A text with its ASCII letters in lower case.
pub open spec fn lowered(s: Seq<char>) -> Seq<char> {
    s.map_values(|c: char| small(c))
}

pub fn small_letter(c: char) -> (r: char)
    ensures
        r == small(c),
{
    if 'A' <= c && c <= 'Z' {
        (c as u8 + 32) as char
    } else {
        c
    }
}

/// Puts ASCII letters into lower case.
pub fn lower(v: &[char]) -> (r: Vec<char>)
    ensures
        r@ == lowered(v@),
{
    let mut r: Vec<char> = Vec::with_capacity(v.len());
    let mut i: usize = 0;
    while i < v.len()
        invariant
            i <= v.len(),
            r@.len() == i,
            forall|k: int| 0 <= k < i ==> #[trigger] r@[k] == small(v@[k]),
        decreases v.len() - i,
    {
        r.push(small_letter(v[i]));
        i += 1;
    }
    assert(r@ =~= lowered(v@));
    r
}

/// The first place at or after `i` of a character in a text, or its end.
pub open spec fn find(s: Seq<char>, c: char, i: int) -> int
    decreases s.len() - i,
{
    if i >= s.len() {
        s.len() as int
    } else if s[i] == c {
        i
    } else {
        find(s, c, i + 1)
    }
}

pub proof fn lemma_find(s: Seq<char>, c: char, i: int)
    requires
        0 <= i <= s.len(),
    ensures
        i <= find(s, c, i) <= s.len(),
        find(s, c, i) < s.len() ==> s[find(s, c, i)] == c,
        forall|k: int| i <= k < find(s, c, i) ==> s[k] != c,
    decreases s.len() - i,
{
    if i < s.len() && s[i] != c {
        lemma_find(s, c, i + 1);
    }
}

/// Finds the first place of a character at or after `from`.
pub fn find_from(v: &[char], c: char, from: usize) -> (r: usize)
    requires
        from <= v.len(),
    ensures
        r == find(v@, c, from as int),
        from <= r <= v.len(),
{
    let mut i: usize = from;
    while i < v.len()
        invariant
            from <= i <= v.len(),
            find(v@, c, from as int) == find(v@, c, i as int),
        decreases v.len() - i,
    {
        if v[i] == c {
            return i;
        }
        i += 1;
    }
    i
}

/// The last place of a character in the first `n` of a text, or -1.
pub open spec fn last_before(s: Seq<char>, c: char, n: int) -> int
    decreases n,
{
    if n <= 0 {
        -1
    } else if s[n - 1] == c {
        n - 1
    } else {
        last_before(s, c, n - 1)
    }
}

/// The place after the last one of a character.
pub fn after_last(v: &[char], c: char) -> (r: usize)
    ensures
        r == last_before(v@, c, v@.len() as int) + 1,
        r <= v.len(),
{
    let mut i: usize = v.len();
    while i > 0
        invariant
            i <= v.len(),
            last_before(v@, c, v@.len() as int) == last_before(v@, c, i as int),
        decreases i,
    {
        if v[i - 1] == c {
            return i;
        }
        i -= 1;
    }
    0
}

/// Whether a text starts with another.
pub open spec fn starts(s: Seq<char>, p: Seq<char>) -> bool {
    s.len() >= p.len() && s.take(p.len() as int) == p
}

/// Whether a text ends with another.
pub open spec fn ends(s: Seq<char>, p: Seq<char>) -> bool {
    s.len() >= p.len() && s.skip(s.len() - p.len()) == p
}

pub fn starts_with(v: &[char], p: &str) -> (r: bool)
    ensures
        r == starts(v@, p@),
{
    let p = letters(p);
    if v.len() < p.len() {
        return false;
    }
    assert(v@.subrange(0, p@.len() as int) =~= v@.take(p@.len() as int));
    equal(&v[0..p.len()], &p)
}

pub fn ends_with(v: &[char], p: &str) -> (r: bool)
    ensures
        r == ends(v@, p@),
{
    let p = letters(p);
    if v.len() < p.len() {
        return false;
    }
    assert(v@.subrange(v@.len() - p@.len(), v@.len() as int) =~= v@.skip(v@.len() - p@.len()));
    equal(&v[v.len() - p.len()..v.len()], &p)
}

/// Whether a character is white space.
pub open spec fn blank(c: char) -> bool {
    let n = c as u32;
    ||| 9 <= n <= 13
    ||| n == 0x20
    ||| n == 0x85
    ||| n == 0xa0
    ||| n == 0x1680
    ||| 0x2000 <= n <= 0x200a
    ||| n == 0x2028
    ||| n == 0x2029
    ||| n == 0x202f
    ||| n == 0x205f
    ||| n == 0x3000
}

pub fn is_blank(c: char) -> (r: bool)
    ensures
        r == blank(c),
{
    let n: u32 = c as u32;
    (9 <= n && n <= 13) || n == 0x20 || n == 0x85 || n == 0xa0 || n == 0x1680 || (0x2000 <= n && n
        <= 0x200a) || n == 0x2028 || n == 0x2029 || n == 0x202f || n == 0x205f || n == 0x3000
}

/// A text without the white space it starts with.
pub open spec fn trim_front(s: Seq<char>) -> Seq<char>
    decreases s.len(),
{
    if s.len() > 0 && blank(s[0]) {
        trim_front(s.skip(1))
    } else {
        s
    }
}

/// A text without the white space it ends with.
pub open spec fn trim_back(s: Seq<char>) -> Seq<char>
    decreases s.len(),
{
    if s.len() > 0 && blank(s[s.len() - 1]) {
        trim_back(s.drop_last())
    } else {
        s
    }
}

pub open spec fn trimmed(s: Seq<char>) -> Seq<char> {
    trim_back(trim_front(s))
}

/// Takes away the white space around a text.
pub fn trim(v: &[char]) -> (r: Vec<char>)
    ensures
        r@ == trimmed(v@),
{
    let mut from: usize = 0;
    assert(v@.skip(0) =~= v@);
    while from < v.len() && is_blank(v[from])
        invariant
            from <= v.len(),
            trim_front(v@) == trim_front(v@.skip(from as int)),
        decreases v.len() - from,
    {
        assert(v@.skip(from as int).skip(1) =~= v@.skip(from + 1));
        from += 1;
    }
    let ghost front = v@.skip(from as int);
    let mut to: usize = v.len();
    assert(front =~= v@.subrange(from as int, to as int));
    while to > from && is_blank(v[to - 1])
        invariant
            from <= to <= v.len(),
            front == v@.skip(from as int),
            trim_back(front) == trim_back(v@.subrange(from as int, to as int)),
        decreases to,
    {
        assert(v@.subrange(from as int, to as int).drop_last() =~= v@.subrange(from as int, to - 1));
        to -= 1;
    }
    let mut r: Vec<char> = Vec::new();
    r.extend_from_slice(&v[from..to]);
    r
}

/// A decimal number of at most `max`, read after `n` from place `i` on.
pub open spec fn digits_from(s: Seq<char>, i: int, n: int, max: int) -> Option<int>
    decreases s.len() - i,
{
    if i >= s.len() {
        Some(n)
    } else if !('0' <= s[i] <= '9') {
        None
    } else {
        let next = n * 10 + (s[i] as u32 - 48);
        if next > max {
            None
        } else {
            digits_from(s, i + 1, next, max)
        }
    }
}

/// The number of at most `max` that a text spells in decimal digits, after a plus sign or none.
pub open spec fn number(s: Seq<char>, max: int) -> Option<int> {
    let from = if s.len() > 0 && s[0] == '+' {
        1int
    } else {
        0
    };
    if s.len() <= from {
        None
    } else {
        digits_from(s, from, 0, max)
    }
}

/// Reads a decimal number of at most `max`.
pub fn parse_number(v: &[char], max: u64) -> (r: Option<u64>)
    ensures
        match r {
            Some(n) => number(v@, max as int) == Some(n as int) && n <= max,
            None => number(v@, max as int) is None,
        },
{
    let from: usize = if v.len() > 0 && v[0] == '+' {
        1
    } else {
        0
    };
    if v.len() <= from {
        return None;
    }
    let mut n: u64 = 0;
    let mut i: usize = from;
    while i < v.len()
        invariant
            from <= i <= v.len(),
            n <= max,
            digits_from(v@, from as int, 0, max as int) == digits_from(
                v@,
                i as int,
                n as int,
                max as int,
            ),
            number(v@, max as int) == digits_from(v@, from as int, 0, max as int),
        decreases v.len() - i,
    {
        let c = v[i];
        if !('0' <= c && c <= '9') {
            return None;
        }
        let d: u64 = (c as u32 - 48) as u64;
        if n > (u64::MAX - d) / 10 {
            return None;
        }
        let next: u64 = n * 10 + d;
        if next > max {
            return None;
        }
        n = next;
        i += 1;
    }
    Some(n)
}

}
