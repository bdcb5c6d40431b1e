//! What holds of messages for people.

use vstd::prelude::*;

verus! {

/// The text of a code is the first that is listed for it.
pub proof fn law_first_text_counts(m: Seq<(String, String)>, code: Seq<char>)
    ensures
        crate::locale::text_for(m, code) is None <==> forall|i: int| 0 <= i < m.len() ==> (#[trigger] m[i]).0@ != code,
        crate::locale::text_for(m, code) matches Some(t) ==> exists|i: int|
            0 <= i < m.len() && (#[trigger] m[i]).0@ == code && m[i].1@ == t && forall|k: int|
                0 <= k < i ==> (#[trigger] m[k]).0@ != code,
{
    lemma_lookup(m, code, m.len() as int);
}

proof fn lemma_lookup(m: Seq<(String, String)>, code: Seq<char>, n: int)
    requires
        0 <= n <= m.len(),
    ensures
        crate::locale::lookup(m, code, n) is None <==> forall|i: int| 0 <= i < n ==> (#[trigger] m[i]).0@ != code,
        crate::locale::lookup(m, code, n) matches Some(t) ==> exists|i: int|
            0 <= i < n && (#[trigger] m[i]).0@ == code && m[i].1@ == t && forall|k: int|
                0 <= k < i ==> (#[trigger] m[k]).0@ != code,
    decreases n,
{
    if n > 0 {
        lemma_lookup(m, code, n - 1);
        if crate::locale::lookup(m, code, n - 1) is None && m[n - 1].0@ == code {
            assert(m[n - 1].0@ == code);
        }
    }
}

/// Whether a tag is a word of small letters and hyphens, in capitals or not, with underscores for hyphens or not.
pub open spec fn tagged(lang: Seq<char>, w: Seq<char>) -> bool {
    &&& lang.len() == w.len()
    &&& forall|k: int|
        0 <= k < w.len() ==> {
            ||| #[trigger] lang[k] == w[k]
            ||| w[k] == '-' && lang[k] == '_'
            ||| 97 <= w[k] as int <= 122 && lang[k] as int + 32 == w[k] as int
        }
}

proof fn lemma_tagged(lang: Seq<char>, w: Seq<char>)
    requires
        forall|k: int| 0 <= k < w.len() ==> #[trigger] w[k] == '-' || 97 <= w[k] as int <= 122,
    ensures
        crate::locale::tag(lang) == w <==> tagged(lang, w),
{
    let t = crate::locale::tag(lang);
    assert(t.len() == lang.len());
    assert forall|k: int| 0 <= k < t.len() implies #[trigger] t[k] == crate::text::small(
        if lang[k] == '_' {
            '-'
        } else {
            lang[k]
        },
    ) by {}
    if t == w {
        assert forall|k: int| 0 <= k < w.len() implies {
            ||| #[trigger] lang[k] == w[k]
            ||| w[k] == '-' && lang[k] == '_'
            ||| 97 <= w[k] as int <= 122 && lang[k] as int + 32 == w[k] as int
        } by {
            assert(t[k] == w[k]);
        }
    }
    if tagged(lang, w) {
        assert forall|k: int| 0 <= k < w.len() implies t[k] == w[k] by {
            assert(lang[k] == w[k] || (w[k] == '-' && lang[k] == '_') || (97 <= w[k] as int <= 122 && lang[k] as int + 32
                == w[k] as int));
            assert(w[k] == '-' || 97 <= w[k] as int <= 122);
        }
        assert(t =~= w);
    }
}

/// Simplified Chinese goes by four tags. Every other language is taken for English.
#[verifier::spinoff_prover]
pub proof fn law_four_tags_are_chinese(lang: Seq<char>)
    ensures
        crate::locale::chinese(lang) <==> tagged(lang, seq!['z', 'h']) || tagged(lang, seq!['z', 'h', '-', 'c', 'n'])
            || tagged(lang, seq!['z', 'h', '-', 's', 'g']) || tagged(lang, seq!['z', 'h', '-', 'h', 'a', 'n', 's']),
{
    reveal_strlit("zh");
    reveal_strlit("zh-cn");
    reveal_strlit("zh-sg");
    reveal_strlit("zh-hans");
    assert("zh"@ =~= seq!['z', 'h']);
    assert("zh-cn"@ =~= seq!['z', 'h', '-', 'c', 'n']);
    assert("zh-sg"@ =~= seq!['z', 'h', '-', 's', 'g']);
    assert("zh-hans"@ =~= seq!['z', 'h', '-', 'h', 'a', 'n', 's']);
    lemma_tagged(lang, seq!['z', 'h']);
    lemma_tagged(lang, seq!['z', 'h', '-', 'c', 'n']);
    lemma_tagged(lang, seq!['z', 'h', '-', 's', 'g']);
    lemma_tagged(lang, seq!['z', 'h', '-', 'h', 'a', 'n', 's']);
}

/// A message is in the language that is asked for where it has a text there, else in English, else it is its code.
pub proof fn law_messages_fall_back(
    lang: Seq<char>,
    code: Seq<char>,
    args: Seq<Seq<char>>,
    english: Seq<(String, String)>,
    other: Seq<(String, String)>,
)
    ensures
        ({
            let (a, b) = (crate::locale::text_for(english, code), crate::locale::text_for(other, code));
            let r = crate::locale::rendered(lang, code, args, english, other);
            &&& crate::locale::chinese(lang) && b is Some ==> r == crate::locale::filled_from(b->Some_0, args, 0)
            &&& (!crate::locale::chinese(lang) || b is None) && a is Some ==> r == crate::locale::filled_from(
                a->Some_0,
                args,
                0,
            )
            &&& (!crate::locale::chinese(lang) || b is None) && a is None ==> r == crate::locale::filled_from(code, args, 0)
        }),
{
}

proof fn lemma_filled_shift(p: Seq<char>, s: Seq<char>, args: Seq<Seq<char>>, i: int)
    requires
        0 <= i <= s.len(),
    ensures
        crate::locale::filled_from(p + s, args, p.len() + i) == crate::locale::filled_from(s, args, i),
    decreases s.len() - i,
{
    let t = p + s;
    let n = p.len() as int;
    if i < s.len() {
        assert(t[n + i] == s[i]);
        crate::text::lemma_find(s, '}', i);
        let e = crate::text::find(s, '}', i);
        assert forall|k: int| n + i <= k < n + e implies #[trigger] t[k] != '}' by {
            assert(t[k] == s[k - n]);
        }
        crate::text_law::law_first_place(t, '}', n + i, n + e);
        if s[i] != '{' {
            lemma_filled_shift(p, s, args, i + 1);
        } else {
            if e < s.len() {
                assert(t.subrange(n + i + 1, n + e) =~= s.subrange(i + 1, e));
            }
            match crate::locale::slot_at(s, i, args.len() as int) {
                Some((k, end)) if end >= i => {
                    lemma_filled_shift(p, s, args, end + 1);
                },
                _ => {
                    lemma_filled_shift(p, s, args, i + 1);
                },
            }
        }
    }
}

/// A text is filled from left to right: its characters stay, but a number in braces gives way to the argument of that
/// number, counted from zero, if there is one.
#[verifier::spinoff_prover]
pub proof fn law_arguments_take_their_places(c: char, k: int, rest: Seq<char>, args: Seq<Seq<char>>)
    requires
        0 <= k <= usize::MAX,
    ensures
        crate::locale::filled_from(Seq::empty(), args, 0) == Seq::<char>::empty(),
        c != '{' ==> crate::locale::filled_from(seq![c] + rest, args, 0) == seq![c] + crate::locale::filled_from(
            rest,
            args,
            0,
        ),
        k < args.len() ==> crate::locale::filled_from(seq!['{'] + crate::volumes::decimal(k) + seq!['}'] + rest, args, 0)
            == args[k] + crate::locale::filled_from(rest, args, 0),
        k >= args.len() ==> crate::locale::filled_from(seq!['{'] + crate::volumes::decimal(k) + seq!['}'] + rest, args, 0)
            == seq!['{'] + crate::locale::filled_from(crate::volumes::decimal(k) + seq!['}'] + rest, args, 0),
{
    let one = seq![c] + rest;
    lemma_filled_shift(seq![c], rest, args, 0);
    assert(one[0] == c);
    let d = crate::volumes::decimal(k);
    crate::text_law::law_numbers_come_back(k, usize::MAX as int);
    let s = seq!['{'] + d + seq!['}'] + rest;
    let n = d.len() as int;
    assert(s[0] == '{' && s[n + 1] == '}');
    assert forall|i: int| 0 <= i < n + 1 implies #[trigger] s[i] != '}' by {
        if i > 0 {
            assert(s[i] == d[i - 1]);
        }
    }
    crate::text_law::law_first_place(s, '}', 0, n + 1);
    assert(s.subrange(1, n + 1) =~= d);
    let front = seq!['{'] + d + seq!['}'];
    lemma_filled_shift(front, rest, args, 0);
    assert(front.len() == n + 2);
    let tail = d + seq!['}'] + rest;
    assert(s =~= seq!['{'] + tail);
    lemma_filled_shift(seq!['{'], tail, args, 0);
}

proof fn lemma_codec(m: Seq<(String, String)>, error: Seq<char>, i: int)
    requires
        0 <= i <= m.len(),
    ensures
        crate::locale::codec_code(m, error, i) is None <==> forall|k: int|
            i <= k < m.len() ==> !(crate::text::starts((#[trigger] m[k]).0@, seq!['c', 'o', 'd', 'e', 'c', '.'])
                && crate::text::lowered(m[k].1@) == crate::text::lowered(error)),
        crate::locale::codec_code(m, error, i) matches Some(c) ==> exists|k: int|
            i <= k < m.len() && (#[trigger] m[k]).0@ == c && crate::text::starts(c, seq!['c', 'o', 'd', 'e', 'c', '.'])
                && crate::text::lowered(m[k].1@) == crate::text::lowered(error),
    decreases m.len() - i,
{
    reveal_strlit("codec.");
    assert("codec."@ =~= seq!['c', 'o', 'd', 'e', 'c', '.']);
    if i < m.len() {
        lemma_codec(m, error, i + 1);
        if crate::text::starts(m[i].0@, "codec."@) && crate::text::lowered(m[i].1@) == crate::text::lowered(error) {
            assert(m[i].0@ == m[i].0@);
        }
    }
}

/// An error is known by its code: the one that it carries, the one that it is, or that of a codec whose English text
/// it is but for case. Any other is one of the system, and stays readable as its argument.
pub proof fn law_errors_have_codes(error: Seq<char>, english: Seq<(String, String)>)
    ensures
        ({
            let r = crate::locale::normalized(error, false, english);
            let known = exists|i: int| 0 <= i < english.len() && (#[trigger] english[i]).0@ == error;
            let codec = exists|k: int|
                0 <= k < english.len() && crate::text::starts(
                    (#[trigger] english[k]).0@,
                    seq!['c', 'o', 'd', 'e', 'c', '.'],
                ) && crate::text::lowered(english[k].1@) == crate::text::lowered(error);
            &&& crate::locale::normalized(error, true, english) == error
            &&& known ==> r == error
            &&& !known && codec ==> exists|k: int|
                0 <= k < english.len() && (#[trigger] english[k]).0@ == r && crate::text::lowered(english[k].1@)
                    == crate::text::lowered(error)
            &&& !known && !codec ==> r == crate::locale::coded_message("error.system"@, seq![error])
        }),
{
    law_first_text_counts(english, error);
    lemma_codec(english, error, 0);
}

/// What is said of an error is the message of its code, with the arguments that it carries. One of the system is said
/// as it is.
pub proof fn law_errors_are_said(
    lang: Seq<char>,
    error: Seq<char>,
    code: Seq<char>,
    args: Seq<Seq<char>>,
    english: Seq<(String, String)>,
    other: Seq<(String, String)>,
)
    ensures
        crate::locale::error_text(lang, error, Some((code, args)), english, other) == crate::locale::rendered(
            lang,
            code,
            args,
            english,
            other,
        ),
        crate::locale::normalized(error, false, english) == crate::locale::coded_message("error.system"@, seq![error])
            && crate::locale::text_for(english, error) is None && crate::locale::codec_code(english, error, 0) is None
            ==> crate::locale::error_text(lang, error, None, english, other) == crate::locale::rendered(
            lang,
            "error.system"@,
            seq![error],
            english,
            other,
        ),
        crate::locale::text_for(english, error) is Some || crate::locale::codec_code(english, error, 0) is Some
            ==> crate::locale::error_text(lang, error, None, english, other) == crate::locale::rendered(
            lang,
            crate::locale::normalized(error, false, english),
            Seq::empty(),
            english,
            other,
        ),
{
}

/// A message that carries a code is a JSON object with the code and the list of its arguments.
pub proof fn law_messages_are_objects(code: Seq<char>, args: Seq<Seq<char>>, a: Seq<char>)
    ensures
        crate::locale::coded_message(code, args) == seq!['{', '"', 'c', 'o', 'd', 'e', '"', ':']
            + crate::locale::quoted(code) + seq![',', '"', 'a', 'r', 'g', 's', '"', ':', '['] + crate::locale::listed(args)
            + seq![']', '}'],
        crate::locale::listed(Seq::empty()) == Seq::<char>::empty(),
        crate::locale::listed(seq![a]) == crate::locale::quoted(a),
        args.len() > 0 ==> crate::locale::listed(args.push(a)) == crate::locale::listed(args) + seq![',']
            + crate::locale::quoted(a),
{
    reveal_strlit("{\"code\":");
    reveal_strlit(",\"args\":[");
    reveal_strlit("]}");
    reveal_strlit(",");
    assert("{\"code\":"@ =~= seq!['{', '"', 'c', 'o', 'd', 'e', '"', ':']);
    assert(",\"args\":["@ =~= seq![',', '"', 'a', 'r', 'g', 's', '"', ':', '[']);
    assert("]}"@ =~= seq![']', '}']);
    assert(","@ =~= seq![',']);
    assert(args.push(a).drop_last() =~= args);
}

}
