//! Messages for people: error codes with arguments, and the text of a message in a language.

use crate::text::{equal, find_from, letters, lower, parse_number, same_text, spells, starts_with, text};
use vstd::prelude::*;

verus! {

/// A string as a JSON string literal, with its quotation marks.
pub uninterp spec fn quoted(text: Seq<char>) -> Seq<char>;

/// Calls `serde_json::to_string` on a string. It cannot fail: only maps with odd keys and
/// `Serialize` implementations of one's own can. The literal depends on the text alone.
#[verifier::external_body]
fn quote(text: &str) -> (r: String)
    ensures
        r@ == quoted(text@),
{
    serde_json::to_string(text).expect("a string serializes")
}

/// The literals of several strings, with commas between them.
pub open spec fn listed(args: Seq<Seq<char>>) -> Seq<char>
    decreases args.len(),
{
    if args.len() == 0 {
        Seq::empty()
    } else if args.len() == 1 {
        quoted(args[0])
    } else {
        listed(args.drop_last()) + ","@ + quoted(args.last())
    }
}

/// The JSON text that carries an error code and its arguments.
pub open spec fn coded_message(code: Seq<char>, args: Seq<Seq<char>>) -> Seq<char> {
    "{\"code\":"@ + quoted(code) + ",\"args\":["@ + listed(args) + "]}"@
}

pub open spec fn texts(args: Seq<String>) -> Seq<Seq<char>> {
    Seq::new(args.len(), |i: int| args[i]@)
}

/// Carries an error code and its arguments in one string.
pub fn message(code: &str, args: &[String]) -> (r: String)
    ensures
        r@ == coded_message(code@, texts(args@)),
{
    let mut out = "{\"code\":".to_owned();
    out.append(quote(code).as_str());
    out.append(",\"args\":[");
    let ghost head = out@;
    let mut i: usize = 0;
    while i < args.len()
        invariant
            i <= args.len(),
            out@ == head + listed(texts(args@).take(i as int)),
        decreases args.len() - i,
    {
        let ghost part = texts(args@).take(i as int + 1);
        assert(part.drop_last() =~= texts(args@).take(i as int));
        if i > 0 {
            out.append(",");
        }
        out.append(quote(args[i].as_str()).as_str());
        assert(out@ =~= head + listed(part));
        i += 1;
    }
    assert(texts(args@).take(args@.len() as int) =~= texts(args@));
    out.append("]}");
    out
}

/// Carries an error code with one argument.
pub fn message_with(code: &str, arg: String) -> (r: String)
    ensures
        r@ == coded_message(code@, seq![arg@]),
{
    let args: Vec<String> = vec![arg];
    assert(texts(args@) =~= seq![arg@]);
    message(code, &args)
}

/// Texts by their codes.
pub type Messages = Vec<(String, String)>;

/// The text of a code, if there is one.
pub open spec fn lookup(m: Seq<(String, String)>, code: Seq<char>, n: int) -> Option<Seq<char>>
    decreases n,
{
    if n <= 0 {
        None
    } else {
        match lookup(m, code, n - 1) {
            Some(t) => Some(t),
            None => if m[n - 1].0@ == code {
                Some(m[n - 1].1@)
            } else {
                None
            },
        }
    }
}

/// The text of a code.
pub open spec fn text_for(m: Seq<(String, String)>, code: Seq<char>) -> Option<Seq<char>> {
    lookup(m, code, m.len() as int)
}

/// Finds the text of a code.
pub fn find_text(m: &Messages, code: &str) -> (r: Option<String>)
    ensures
        match r {
            Some(t) => text_for(m@, code@) == Some(t@),
            None => text_for(m@, code@) is None,
        },
{
    let mut i: usize = 0;
    while i < m.len()
        invariant
            i <= m.len(),
            lookup(m@, code@, i as int) is None,
        decreases m.len() - i,
    {
        if same_text(&m[i].0, code) {
            proof {
                lemma_lookup(m@, code@, i + 1, m@.len() as int);
            }
            return Some(m[i].1.clone());
        }
        i += 1;
    }
    None
}

proof fn lemma_lookup(m: Seq<(String, String)>, code: Seq<char>, i: int, n: int)
    requires
        i <= n,
        lookup(m, code, i) is Some,
    ensures
        lookup(m, code, n) == lookup(m, code, i),
    decreases n - i,
{
    if i < n {
        lemma_lookup(m, code, i, n - 1);
    }
}

/// A language tag in lower case, with hyphens.
pub open spec fn tag(lang: Seq<char>) -> Seq<char> {
    crate::text::lowered(
        lang.map_values(
            |c: char|
                if c == '_' {
                    '-'
                } else {
                    c
                },
        ),
    )
}

/// Whether a language is Chinese. Every other is taken for English.
pub open spec fn chinese(lang: Seq<char>) -> bool {
    let t = tag(lang);
    t == "zh"@ || t == "zh-cn"@ || t == "zh-hans"@ || t == "zh-sg"@
}

/// Whether a language is Chinese.
pub fn is_chinese(lang: &str) -> (r: bool)
    ensures
        r == chinese(lang@),
{
    let v = letters(lang);
    let mut w: Vec<char> = Vec::new();
    let mut i: usize = 0;
    let ghost hyphened = lang@.map_values(
        |c: char|
            if c == '_' {
                '-'
            } else {
                c
            },
    );
    while i < v.len()
        invariant
            i <= v.len(),
            v@ == lang@,
            w@.len() == i,
            forall|k: int|
                0 <= k < i ==> #[trigger] w@[k] == (if v@[k] == '_' {
                    '-'
                } else {
                    v@[k]
                }),
        decreases v.len() - i,
    {
        w.push(
            if v[i] == '_' {
                '-'
            } else {
                v[i]
            },
        );
        i += 1;
    }
    assert(w@ =~= hyphened);
    let t = lower(&w);
    spells(&t, "zh") || spells(&t, "zh-cn") || spells(&t, "zh-hans") || spells(&t, "zh-sg")
}

/// The text of a code in a language, or in English.
pub open spec fn template(
    lang: Seq<char>,
    code: Seq<char>,
    english: Seq<(String, String)>,
    other: Seq<(String, String)>,
) -> Option<Seq<char>> {
    if chinese(lang) {
        match text_for(other, code) {
            Some(t) => Some(t),
            None => text_for(english, code),
        }
    } else {
        text_for(english, code)
    }
}

/// Whether no code occurs twice.
pub open spec fn distinct(m: Seq<(String, String)>) -> bool {
    forall|i: int, j: int| 0 <= i < j < m.len() ==> (#[trigger] m[i]).0@ != (#[trigger] m[j]).0@
}

/// The texts of all codes in a language, those without one in English. Each code occurs once.
pub fn messages(lang: &str, english: &Messages, other: &Messages) -> (out: Messages)
    ensures
        forall|code: Seq<char>|
            #[trigger] text_for(out@, code) == template(lang@, code, english@, other@),
        distinct(out@),
{
    let mut out: Messages = Vec::new();
    if is_chinese(lang) {
        add_missing(&mut out, other);
    }
    add_missing(&mut out, english);
    out
}

/// Adds the texts of the codes that have none.
fn add_missing(out: &mut Messages, m: &Messages)
    requires
        distinct(old(out)@),
    ensures
        distinct(final(out)@),
        forall|code: Seq<char>| #[trigger]
            text_for(final(out)@, code) == match text_for(old(out)@, code) {
                Some(t) => Some(t),
                None => text_for(m@, code),
            },
{
    let ghost start = out@;
    let mut i: usize = 0;
    while i < m.len()
        invariant
            i <= m.len(),
            start == old(out)@,
            distinct(out@),
            forall|code: Seq<char>| #[trigger]
                text_for(out@, code) == match text_for(start, code) {
                    Some(t) => Some(t),
                    None => lookup(m@, code, i as int),
                },
        decreases m.len() - i,
    {
        let ghost before = out@;
        if find_text(out, m[i].0.as_str()).is_none() {
            let entry: (String, String) = (m[i].0.clone(), m[i].1.clone());
            out.push(entry);
            proof {
                assert(out@ =~= before + seq![entry]);
                lemma_unknown(before, m@[i as int].0@, before.len() as int);
                assert forall|code: Seq<char>| #[trigger]
                    text_for(out@, code) == (match text_for(start, code) {
                    Some(t) => Some(t),
                    None => lookup(m@, code, i + 1),
                }) by {
                    lemma_lookup_first(before, seq![entry], code, before.len() as int);
                    assert(text_for(before, code) == match text_for(start, code) {
                        Some(t) => Some(t),
                        None => lookup(m@, code, i as int),
                    });
                }
            }
        } else {
            proof {
                assert forall|code: Seq<char>| #[trigger]
                    text_for(out@, code) == (match text_for(start, code) {
                    Some(t) => Some(t),
                    None => lookup(m@, code, i + 1),
                }) by {}
            }
        }
        i += 1;
    }
}

proof fn lemma_unknown(m: Seq<(String, String)>, code: Seq<char>, n: int)
    requires
        0 <= n <= m.len(),
        lookup(m, code, n) is None,
    ensures
        forall|k: int| 0 <= k < n ==> (#[trigger] m[k]).0@ != code,
    decreases n,
{
    if n > 0 {
        lemma_unknown(m, code, n - 1);
    }
}

proof fn lemma_lookup_first(a: Seq<(String, String)>, b: Seq<(String, String)>, code: Seq<char>, n: int)
    requires
        0 <= n <= a.len(),
    ensures
        lookup(a + b, code, n) == lookup(a, code, n),
    decreases n,
{
    if n > 0 {
        lemma_lookup_first(a, b, code, n - 1);
        assert((a + b)[n - 1] == a[n - 1]);
    }
}

/// Whether an argument of a text stands in braces at a place: which one, and where the braces end.
pub open spec fn slot_at(s: Seq<char>, i: int, n: int) -> Option<(int, int)> {
    let end = crate::text::find(s, '}', i);
    if end >= s.len() {
        None
    } else {
        match crate::text::number(s.subrange(i + 1, end), usize::MAX as int) {
            Some(k) if k < n => Some((k, end)),
            _ => None,
        }
    }
}

/// A text from place `i` on, with its arguments in place of the numbers in braces.
pub open spec fn filled_from(s: Seq<char>, args: Seq<Seq<char>>, i: int) -> Seq<char>
    decreases s.len() - i,
{
    if i < 0 || i >= s.len() {
        Seq::empty()
    } else if s[i] != '{' {
        seq![s[i]] + filled_from(s, args, i + 1)
    } else {
        match slot_at(s, i, args.len() as int) {
            Some((k, end)) if end >= i => args[k] + filled_from(s, args, end + 1),
            _ => seq!['{'] + filled_from(s, args, i + 1),
        }
    }
}

/// Puts arguments in place of the numbers in braces.
pub fn fill(s: &str, args: &[String]) -> (r: String)
    ensures
        r@ == filled_from(s@, texts(args@), 0),
{
    let v = letters(s);
    let ghost all = texts(args@);
    let ghost whole = filled_from(s@, all, 0);
    let mut out = String::new();
    let mut i: usize = 0;
    assert(out@ + filled_from(v@, all, 0) =~= whole);
    while i < v.len()
        invariant
            i <= v.len(),
            v@ == s@,
            all == texts(args@),
            out@ + filled_from(v@, all, i as int) == whole,
        decreases v.len() - i,
    {
        let ghost before = out@;
        let mut next: usize = i + 1;
        let mut plain = true;
        if v[i] == '{' {
            proof {
                crate::text::lemma_find(v@, '}', i as int);
            }
            let end = find_from(&v, '}', i);
            if end < v.len() {
                match parse_number(&v.as_slice()[i + 1..end], usize::MAX as u64) {
                    Some(k) => {
                        if k < args.len() as u64 {
                            out.append(&args[k as usize]);
                            assert(all[k as int] == args@[k as int]@);
                            next = end + 1;
                            plain = false;
                        }
                    },
                    None => {},
                }
            }
        }
        if plain {
            out.push(v[i]);
            assert(before + (seq![v@[i as int]] + filled_from(v@, all, i + 1)) =~= out@
                + filled_from(v@, all, next as int));
        } else {
            assert(before + filled_from(v@, all, i as int) =~= out@ + filled_from(
                v@,
                all,
                next as int,
            ));
        }
        i = next;
    }
    assert(out@ + Seq::<char>::empty() =~= out@);
    out
}

/// The text of a message.
pub open spec fn rendered(
    lang: Seq<char>,
    code: Seq<char>,
    args: Seq<Seq<char>>,
    english: Seq<(String, String)>,
    other: Seq<(String, String)>,
) -> Seq<char> {
    filled_from(
        match template(lang, code, english, other) {
            Some(t) => t,
            None => code,
        },
        args,
        0,
    )
}

/// Writes a message in a language. A code without a text stands for itself.
pub fn render(lang: &str, code: &str, args: &[String], english: &Messages, other: &Messages) -> (r: String)
    ensures
        r@ == rendered(lang@, code@, texts(args@), english@, other@),
{
    let found = if is_chinese(lang) {
        match find_text(other, code) {
            Some(t) => Some(t),
            None => find_text(english, code),
        }
    } else {
        find_text(english, code)
    };
    match found {
        Some(t) => fill(&t, args),
        None => fill(code, args),
    }
}

/// The first code of a codec, from number `i` on, whose text is a text but for case.
pub open spec fn codec_code(m: Seq<(String, String)>, error: Seq<char>, i: int) -> Option<Seq<char>>
    decreases m.len() - i,
{
    if i >= m.len() {
        None
    } else if crate::text::starts(m[i].0@, "codec."@) && crate::text::lowered(m[i].1@)
        == crate::text::lowered(error) {
        Some(m[i].0@)
    } else {
        codec_code(m, error, i + 1)
    }
}

/// An error as a code, or as a message that carries one. `carries` says whether it does already.
pub open spec fn normalized(error: Seq<char>, carries: bool, english: Seq<(String, String)>) -> Seq<char> {
    if carries || text_for(english, error) is Some {
        error
    } else {
        match codec_code(english, error, 0) {
            Some(code) => code,
            None => coded_message("error.system"@, seq![error]),
        }
    }
}

/// Finds the code of a codec whose text is a text but for case.
fn find_codec(english: &Messages, error: &str) -> (r: Option<String>)
    ensures
        r matches Some(c) ==> codec_code(english@, error@, 0) == Some(c@),
        r is None ==> codec_code(english@, error@, 0) is None,
{
    let low = lower(&letters(error));
    let mut i: usize = 0;
    while i < english.len()
        invariant
            i <= english.len(),
            low@ == crate::text::lowered(error@),
            codec_code(english@, error@, 0) == codec_code(english@, error@, i as int),
        decreases english.len() - i,
    {
        if starts_with(&letters(&english[i].0), "codec.") && equal(
            &lower(&letters(&english[i].1)),
            &low,
        ) {
            return Some(english[i].0.clone());
        }
        i += 1;
    }
    None
}

/// Turns an error into a code, or into a message that carries one.
pub fn normalize_error(error: String, carries: bool, english: &Messages) -> (r: String)
    ensures
        r@ == normalized(error@, carries, english@),
{
    if carries || find_text(english, &error).is_some() {
        return error;
    }
    match find_codec(english, &error) {
        Some(code) => code,
        None => message_with("error.system", error),
    }
}

/// What is said of an error in a language. `carried` is the code with its arguments that the text of the
/// error carries, if it does.
pub open spec fn error_text(
    lang: Seq<char>,
    error: Seq<char>,
    carried: Option<(Seq<char>, Seq<Seq<char>>)>,
    english: Seq<(String, String)>,
    other: Seq<(String, String)>,
) -> Seq<char> {
    match carried {
        Some((code, args)) => rendered(lang, code, args, english, other),
        None => if text_for(english, error) is Some {
            rendered(lang, error, Seq::empty(), english, other)
        } else {
            match codec_code(english, error, 0) {
                Some(code) => rendered(lang, code, Seq::empty(), english, other),
                None => rendered(lang, "error.system"@, seq![error], english, other),
            }
        },
    }
}

pub open spec fn carried_in(carried: Option<(String, Vec<String>)>) -> Option<(Seq<char>, Seq<Seq<char>>)> {
    match carried {
        Some((code, args)) => Some((code@, texts(args@))),
        None => None,
    }
}

/// Writes an error in a language.
pub fn render_error(
    lang: &str,
    error: &str,
    carried: Option<(String, Vec<String>)>,
    english: &Messages,
    other: &Messages,
) -> (r: String)
    ensures
        r@ == error_text(lang@, error@, carried_in(carried), english@, other@),
{
    let none: Vec<String> = Vec::new();
    assert(texts(none@) =~= Seq::empty());
    match carried {
        Some((code, args)) => render(lang, &code, &args, english, other),
        None => {
            if find_text(english, error).is_some() {
                return render(lang, error, &none, english, other);
            }
            match find_codec(english, error) {
                Some(code) => render(lang, &code, &none, english, other),
                None => {
                    let mut one: Vec<String> = Vec::new();
                    one.push(error.to_owned());
                    assert(texts(one@) =~= seq![error@]);
                    render(lang, "error.system", &one, english, other)
                },
            }
        },
    }
}

}
