//! What holds of texts.

use vstd::prelude::*;

verus! {

/// The first place of a character is the only one at which it stands with none before.
pub proof fn law_first_place(s: Seq<char>, c: char, from: int, at: int)
    requires
        0 <= from <= at <= s.len(),
    ensures
        crate::text::find(s, c, from) == at <==> {
            &&& at < s.len() ==> s[at] == c
            &&& forall|k: int| from <= k < at ==> #[trigger] s[k] != c
        },
{
    crate::text::lemma_find(s, c, from);
    let f = crate::text::find(s, c, from);
    if f < at {
        assert(s[f] == c);
    } else if at < f {
        assert(s[at] != c);
    }
}

/// The last place of a character is the only one at which it stands with none behind, or there is none.
pub proof fn law_last_place(s: Seq<char>, c: char, n: int, at: int)
    requires
        -1 <= at < n <= s.len(),
    ensures
        crate::text::last_before(s, c, n) == at <==> {
            &&& at >= 0 ==> s[at] == c
            &&& forall|k: int| at < k < n ==> #[trigger] s[k] != c
        },
    decreases n,
{
    if n == 0 {
    } else if at == n - 1 {
        if s[n - 1] != c {
            lemma_last_below(s, c, n - 1);
        }
    } else {
        if s[n - 1] != c {
            law_last_place(s, c, n - 1, at);
        }
    }
}

proof fn lemma_last_below(s: Seq<char>, c: char, n: int)
    requires
        0 <= n,
    ensures
        -1 <= crate::text::last_before(s, c, n) < n || n == 0,
        n == 0 ==> crate::text::last_before(s, c, n) == -1,
    decreases n,
{
    if n > 0 {
        lemma_last_below(s, c, n - 1);
    }
}

/// A text starts with another if and only if it is that text and something behind it.
pub proof fn law_starts(s: Seq<char>, p: Seq<char>)
    ensures
        crate::text::starts(s, p) <==> exists|rest: Seq<char>| s == p + rest,
{
    if crate::text::starts(s, p) {
        assert(s =~= p + s.skip(p.len() as int));
    }
    if exists|rest: Seq<char>| s == p + rest {
        let rest = choose|rest: Seq<char>| s == p + rest;
        assert((p + rest).take(p.len() as int) =~= p);
    }
}

/// A text ends with another if and only if it is something and that text behind it.
pub proof fn law_ends(s: Seq<char>, p: Seq<char>)
    ensures
        crate::text::ends(s, p) <==> exists|front: Seq<char>| s == front + p,
{
    if crate::text::ends(s, p) {
        assert(s =~= s.take(s.len() - p.len()) + p);
    }
    if exists|front: Seq<char>| s == front + p {
        let front = choose|front: Seq<char>| s == front + p;
        assert((front + p).skip(front.len() as int) =~= p);
    }
}

/// Only the capitals of the English alphabet change when a text is put into lower case, each into its own small
/// letter.
pub proof fn law_lower_case(s: Seq<char>)
    ensures
        crate::text::lowered(s).len() == s.len(),
        forall|i: int|
            0 <= i < s.len() ==> #[trigger] crate::text::lowered(s)[i] as int == if 65 <= s[i] as int <= 90 {
                s[i] as int + 32
            } else {
                s[i] as int
            },
        crate::text::lowered(crate::text::lowered(s)) == crate::text::lowered(s),
{
    assert(crate::text::lowered(crate::text::lowered(s)) =~= crate::text::lowered(s));
}

/// White space is what the Unicode character data call so.
pub proof fn law_white_space(c: char)
    ensures
        crate::text::blank(c) <==> (9 <= c as int <= 13 || c as int == 32 || c as int == 133 || c as int == 160 || c as int
            == 5760 || 8192 <= c as int <= 8202 || c as int == 8232 || c as int == 8233 || c as int == 8239 || c as int
            == 8287 || c as int == 12288),
{
}

proof fn lemma_trim_front(s: Seq<char>) -> (a: int)
    ensures
        0 <= a <= s.len(),
        crate::text::trim_front(s) == s.skip(a),
        forall|i: int| 0 <= i < a ==> crate::text::blank(#[trigger] s[i]),
        a < s.len() ==> !crate::text::blank(s[a]),
    decreases s.len(),
{
    if s.len() > 0 && crate::text::blank(s[0]) {
        let t = s.skip(1);
        let a = lemma_trim_front(t);
        assert(t.skip(a) =~= s.skip(a + 1));
        assert forall|i: int| 0 <= i < a + 1 implies crate::text::blank(#[trigger] s[i]) by {
            if i > 0 {
                assert(t[i - 1] == s[i]);
            }
        }
        a + 1
    } else {
        assert(s.skip(0) =~= s);
        0
    }
}

proof fn lemma_trim_back(s: Seq<char>) -> (b: int)
    ensures
        0 <= b <= s.len(),
        crate::text::trim_back(s) == s.take(b),
        forall|i: int| b <= i < s.len() ==> crate::text::blank(#[trigger] s[i]),
        b > 0 ==> !crate::text::blank(s[b - 1]),
    decreases s.len(),
{
    if s.len() > 0 && crate::text::blank(s[s.len() - 1]) {
        let t = s.drop_last();
        let b = lemma_trim_back(t);
        assert(t.take(b) =~= s.take(b));
        assert forall|i: int| b <= i < s.len() implies crate::text::blank(#[trigger] s[i]) by {
            if i < s.len() - 1 {
                assert(t[i] == s[i]);
            }
        }
        b
    } else {
        assert(s.take(s.len() as int) =~= s);
        s.len() as int
    }
}

/// Taking away the white space around a text leaves what stands between the first and the last character that is
/// none.
pub proof fn law_trimmed(front: Seq<char>, s: Seq<char>, back: Seq<char>)
    requires
        forall|i: int| 0 <= i < front.len() ==> crate::text::blank(#[trigger] front[i]),
        forall|i: int| 0 <= i < back.len() ==> crate::text::blank(#[trigger] back[i]),
        s.len() > 0 ==> !crate::text::blank(s[0]) && !crate::text::blank(s.last()),
    ensures
        crate::text::trimmed(front + s + back) == s,
{
    let t = front + s + back;
    let a = lemma_trim_front(t);
    let u = t.skip(a);
    let b = lemma_trim_back(u);
    if s.len() > 0 {
        assert(t[front.len() as int] == s[0]);
        if a < front.len() {
            assert(t[a] == front[a]);
        }
        if a > front.len() {
            assert(crate::text::blank(t[front.len() as int]));
        }
        assert(a == front.len());
        assert(u =~= s + back);
        assert(u[s.len() - 1] == s.last());
        if b > s.len() {
            assert(u[b - 1] == back[b - 1 - s.len()]);
        }
        if b < s.len() {
            assert(crate::text::blank(u[s.len() - 1]));
        }
        assert(u.take(b) =~= s);
    } else {
        if a < t.len() {
            if a < front.len() {
                assert(t[a] == front[a]);
            } else {
                assert(t[a] == back[a - front.len()]);
            }
        }
        assert(u.len() == 0);
        assert(u.take(b) =~= s);
    }
}

proof fn lemma_digits_on(s: Seq<char>, i: int, n: int, max: int, c: char)
    requires
        0 <= i <= s.len(),
        0 <= n <= max,
    ensures
        crate::text::digits_from(s.push(c), i, n, max) == match crate::text::digits_from(s, i, n, max) {
            None => None::<int>,
            Some(m) => if '0' <= c <= '9' && m * 10 + (c as int - 48) <= max {
                Some(m * 10 + (c as int - 48))
            } else {
                None
            },
        },
        crate::text::digits_from(s, i, n, max) matches Some(m) ==> n <= m <= max,
    decreases s.len() - i,
{
    let t = s.push(c);
    if i < s.len() {
        assert(t[i] == s[i]);
        if '0' <= s[i] <= '9' {
            let next = n * 10 + (s[i] as u32 - 48);
            if next <= max {
                lemma_digits_on(s, i + 1, next, max, c);
            }
        }
    } else {
        assert(t[i] == c);
        reveal_with_fuel(crate::text::digits_from, 2);
    }
}

/// A number is read by its decimal digits, the first standing for most, after a plus sign or none: one digit stands
/// for itself, one more behind a number makes ten times the number and the digit, nothing else is a number, and none
/// is greater than the greatest that is wanted.
pub proof fn law_numbers_are_decimal(s: Seq<char>, c: char, max: int)
    requires
        0 <= max,
    ensures
        crate::text::number(Seq::empty(), max) is None,
        crate::text::number(seq!['+'], max) is None,
        crate::text::number(seq![c], max) == if 48 <= c as int <= 57 && c as int - 48 <= max {
            Some(c as int - 48)
        } else {
            None::<int>
        },
        s.len() > 0 && s != seq!['+'] ==> crate::text::number(s.push(c), max) == match crate::text::number(s, max) {
            None => None::<int>,
            Some(m) => if 48 <= c as int <= 57 && m * 10 + (c as int - 48) <= max {
                Some(m * 10 + (c as int - 48))
            } else {
                None
            },
        },
        s.len() > 0 && s[0] != '+' ==> crate::text::number(seq!['+'] + s, max) == crate::text::number(s, max),
{
    reveal_with_fuel(crate::text::digits_from, 2);
    if s.len() > 0 && s != seq!['+'] {
        let from = if s[0] == '+' {
            1int
        } else {
            0
        };
        assert(s.push(c)[0] == s[0]);
        if s[0] == '+' && s.len() == 1 {
            assert(s =~= seq!['+']);
        }
        lemma_digits_on(s, from, 0, max, c);
    }
    if s.len() > 0 && s[0] != '+' {
        lemma_digits_shift(seq!['+'], s, 0, 0, max);
    }
}

proof fn lemma_digits_shift(p: Seq<char>, s: Seq<char>, i: int, n: int, max: int)
    requires
        0 <= i <= s.len(),
    ensures
        crate::text::digits_from(p + s, p.len() + i, n, max) == crate::text::digits_from(s, i, n, max),
    decreases s.len() - i,
{
    if i < s.len() {
        assert((p + s)[p.len() + i] == s[i]);
        lemma_digits_shift(p, s, i + 1, n * 10 + (s[i] as u32 - 48), max);
    }
}

/// A number that is written in decimal digits is read as itself.
pub proof fn law_numbers_come_back(n: int, max: int)
    requires
        0 <= n <= max,
    ensures
        crate::text::number(crate::volumes::decimal(n), max) == Some(n),
        forall|i: int|
            0 <= i < crate::volumes::decimal(n).len() ==> 48 <= #[trigger] crate::volumes::decimal(n)[i] as int <= 57,
        n >= 10 ==> crate::volumes::decimal(n)[0] != '0',
    decreases n,
{
    let d = crate::volumes::decimal(n);
    if n >= 10 {
        law_numbers_come_back(n / 10, max);
        let e = crate::volumes::decimal(n / 10);
        let c = (48 + n % 10) as char;
        assert(d == e.push(c));
        assert(e.len() > 0);
        assert(e[0] as int >= 48);
        assert(e != seq!['+']) by {
            assert(seq!['+'][0] == '+');
        }
        law_numbers_are_decimal(e, c, max);
        assert forall|i: int| 0 <= i < d.len() implies 48 <= #[trigger] d[i] as int <= 57 by {
            if i < e.len() {
                assert(d[i] == e[i]);
            }
        }
    } else {
        law_numbers_are_decimal(Seq::empty(), (48 + n) as char, max);
        assert(d =~= seq![(48 + n) as char]);
    }
}

}
