//! Which files are taken into an archive, and under what names.

use crate::index::Index;
use crate::locale::{message, message_with};
use crate::paths::{extension, parent_of, safe_rel_path};
use crate::text::{letters, lower, same_text, spells, text, to_lower};
use crate::wire::{fail, Outcome};
use vstd::prelude::*;

verus! {

/// Whether a word in lower case is the extension of a film.
pub open spec fn video(ext: Seq<char>) -> bool {
    ||| ext == "mov"@
    ||| ext == "mp4"@
    ||| ext == "m4v"@
    ||| ext == "mkv"@
    ||| ext == "webm"@
    ||| ext == "avi"@
    ||| ext == "wmv"@
    ||| ext == "flv"@
    ||| ext == "mpg"@
    ||| ext == "mpeg"@
    ||| ext == "m2v"@
    ||| ext == "ts"@
    ||| ext == "mts"@
    ||| ext == "m2ts"@
    ||| ext == "3gp"@
    ||| ext == "3g2"@
    ||| ext == "ogv"@
    ||| ext == "vob"@
    ||| ext == "mxf"@
}

/// Whether an extension, in capitals or not, is that of a film.
pub fn is_video(extension: &str) -> (r: bool)
    ensures
        r == video(crate::text::lowered(extension@)),
{
    let e = lower(&letters(extension));
    spells(&e, "mov") || spells(&e, "mp4") || spells(&e, "m4v") || spells(&e, "mkv") || spells(
        &e,
        "webm",
    ) || spells(&e, "avi") || spells(&e, "wmv") || spells(&e, "flv") || spells(&e, "mpg") || spells(
        &e,
        "mpeg",
    ) || spells(&e, "m2v") || spells(&e, "ts") || spells(&e, "mts") || spells(&e, "m2ts") || spells(
        &e,
        "3gp",
    ) || spells(&e, "3g2") || spells(&e, "ogv") || spells(&e, "vob") || spells(&e, "mxf")
}

/// Which kinds of files are taken.
#[derive(Debug, Clone, Copy, PartialEq, Eq, Structural)]
pub enum Filter {
    All,
    Gif,
    Video,
    Mov,
    NoGif,
    NoVideo,
    NoMov,
}

impl Default for Filter {
    fn default() -> (f: Self)
        ensures
            f == Filter::All,
    {
        Filter::All
    }
}

impl Filter {
    /// The filter with a name.
    pub open spec fn named(s: Seq<char>) -> Option<Filter> {
        if s == "all"@ {
            Some(Filter::All)
        } else if s == "gif"@ {
            Some(Filter::Gif)
        } else if s == "video"@ {
            Some(Filter::Video)
        } else if s == "mov"@ {
            Some(Filter::Mov)
        } else if s == "no-gif"@ {
            Some(Filter::NoGif)
        } else if s == "no-video"@ {
            Some(Filter::NoVideo)
        } else if s == "no-mov"@ {
            Some(Filter::NoMov)
        } else {
            None
        }
    }

    /// Reads the name of a filter.
    pub fn parse(s: &str) -> (r: Result<Self, String>)
        ensures
            match r {
                Ok(f) => Filter::named(s@) == Some(f),
                Err(e) => Filter::named(s@) is None && e@ == crate::locale::coded_message(
                    "error.unsupported_filter"@,
                    seq![s@],
                ),
            },
    {
        if same_text(s, "all") {
            Ok(Filter::All)
        } else if same_text(s, "gif") {
            Ok(Filter::Gif)
        } else if same_text(s, "video") {
            Ok(Filter::Video)
        } else if same_text(s, "mov") {
            Ok(Filter::Mov)
        } else if same_text(s, "no-gif") {
            Ok(Filter::NoGif)
        } else if same_text(s, "no-video") {
            Ok(Filter::NoVideo)
        } else if same_text(s, "no-mov") {
            Ok(Filter::NoMov)
        } else {
            Err(message_with("error.unsupported_filter", s.to_owned()))
        }
    }

    /// Whether files with an extension are taken.
    pub open spec fn takes(self, extension: Seq<char>) -> bool {
        let e = crate::text::lowered(extension);
        &&& video(e) || e == "gif"@ || e == "png"@ || e == "webp"@
        &&& match self {
            Filter::All => true,
            Filter::Gif => e == "gif"@,
            Filter::Video => video(e),
            Filter::Mov => e == "mov"@,
            Filter::NoGif => e != "gif"@,
            Filter::NoVideo => !video(e),
            Filter::NoMov => e != "mov"@,
        }
    }

    /// Whether files with an extension are taken.
    pub fn accepts(self, extension: &str) -> (r: bool)
        ensures
            r == self.takes(extension@),
    {
        let e = lower(&letters(extension));
        let film = is_video(extension);
        if !film && !spells(&e, "gif") && !spells(&e, "png") && !spells(&e, "webp") {
            return false;
        }
        match self {
            Filter::All => true,
            Filter::Gif => spells(&e, "gif"),
            Filter::Video => film,
            Filter::Mov => spells(&e, "mov"),
            Filter::NoGif => !spells(&e, "gif"),
            Filter::NoVideo => !film,
            Filter::NoMov => !spells(&e, "mov"),
        }
    }
}

/// How many files of each kind there are, and how long they are together.
#[derive(Debug, Clone, Copy, PartialEq, Eq, Structural)]
pub struct Stats {
    pub files: usize,
    pub bytes: u64,
    pub gif: usize,
    pub video: usize,
    pub mov: usize,
    pub png: usize,
    pub webp: usize,
}

/// A file that is taken: its name in the archive, where it lies, and its length.
#[derive(Debug, Clone)]
pub struct Source {
    pub name: String,
    pub path: String,
    pub bytes: u64,
}

pub open spec fn one(b: bool) -> int {
    if b {
        1
    } else {
        0
    }
}

/// How many of the first `n` files have an extension that a predicate holds of.
pub open spec fn count(files: Seq<Source>, n: int, f: spec_fn(Seq<char>) -> bool) -> int
    decreases n,
{
    if n <= 0 {
        0
    } else {
        count(files, n - 1, f) + one(f(crate::paths::extension_of(files[n - 1].name@)))
    }
}

/// How long the first `n` files are together.
pub open spec fn total(files: Seq<Source>, n: int) -> int
    decreases n,
{
    if n <= 0 {
        0
    } else {
        total(files, n - 1) + files[n - 1].bytes
    }
}

/// The statistics of the first `n` files.
pub open spec fn counted(files: Seq<Source>, n: int, s: Stats) -> bool {
    &&& s.files == n
    &&& s.bytes == total(files, n)
    &&& s.gif == count(files, n, being("gif"@))
    &&& s.video == count(files, n, films())
    &&& s.mov == count(files, n, being("mov"@))
    &&& s.png == count(files, n, being("png"@))
    &&& s.webp == count(files, n, being("webp"@))
}

/// Whether an extension is a given one.
pub open spec fn being(name: Seq<char>) -> spec_fn(Seq<char>) -> bool {
    |e: Seq<char>| e == name
}

/// Whether an extension is that of a video.
pub open spec fn films() -> spec_fn(Seq<char>) -> bool {
    |e: Seq<char>| video(crate::text::lowered(e))
}

/// An extension that is taken is of one kind alone.
proof fn lemma_one_kind(filter: Filter, e: Seq<char>)
    requires
        filter.takes(e),
        crate::text::lowered(e) == e,
    ensures
        one(films()(e)) + one(being("gif"@)(e)) + one(being("png"@)(e)) + one(being("webp"@)(e)) == 1,
        one(being("mov"@)(e)) <= one(films()(e)),
{
    reveal_strlit("gif");
    reveal_strlit("png");
    reveal_strlit("webp");
    reveal_strlit("mov");
    reveal_strlit("mp4");
    reveal_strlit("m4v");
    reveal_strlit("mkv");
    reveal_strlit("webm");
    reveal_strlit("avi");
    reveal_strlit("wmv");
    reveal_strlit("flv");
    reveal_strlit("mpg");
    reveal_strlit("mpeg");
    reveal_strlit("m2v");
    reveal_strlit("ts");
    reveal_strlit("mts");
    reveal_strlit("m2ts");
    reveal_strlit("3gp");
    reveal_strlit("3g2");
    reveal_strlit("ogv");
    reveal_strlit("vob");
    reveal_strlit("mxf");
    assert("gif"@[0] == 'g' && "png"@[0] == 'p' && "webp"@[0] == 'w' && "webp"@[3] == 'p' && "webm"@[3] == 'm');
    assert("mov"@[0] == 'm'
        && "mp4"@[0] == 'm'
        && "m4v"@[0] == 'm'
        && "mkv"@[0] == 'm'
        && "webm"@[0] == 'w'
        && "avi"@[0] == 'a'
        && "wmv"@[0] == 'w'
        && "flv"@[0] == 'f'
        && "mpg"@[0] == 'm'
        && "mpeg"@[0] == 'm'
        && "m2v"@[0] == 'm'
        && "ts"@[0] == 't'
        && "mts"@[0] == 'm'
        && "m2ts"@[0] == 'm'
        && "3gp"@[0] == '3'
        && "3g2"@[0] == '3'
        && "ogv"@[0] == 'o'
        && "vob"@[0] == 'v'
        && "mxf"@[0] == 'm');
}

/// The lower case of an extension is the extension.
proof fn lemma_lowered(s: Seq<char>)
    ensures
        crate::text::lowered(crate::paths::extension_of(s)) == crate::paths::extension_of(s),
{
    let e = crate::paths::extension_of(s);
    assert forall|i: int| 0 <= i < e.len() implies crate::text::small(e[i]) == #[trigger] e[i] by {
        let name = crate::paths::file_name(s)->Some_0;
        let c = name.skip(crate::paths::extension_at(name))[i];
        assert(e[i] == crate::text::small(c));
    }
    assert(crate::text::lowered(e) =~= e);
}

/// Where only files were scanned that a filter takes, each is counted as a video, a GIF file, a PNG file or a
/// WebP file, and as one of these alone. Those in QuickTime form are counted among the videos.
pub proof fn law_each_file_is_of_one_kind(filter: Filter, files: Seq<Source>, n: int, s: Stats)
    requires
        0 <= n <= files.len(),
        counted(files, n, s),
        forall|i: int|
            0 <= i < n ==> filter.takes(crate::paths::extension_of((#[trigger] files[i]).name@)),
    ensures
        s.video + s.gif + s.png + s.webp == s.files,
        s.mov <= s.video,
{
    lemma_kinds(filter, files, n);
}

proof fn lemma_kinds(filter: Filter, files: Seq<Source>, n: int)
    requires
        0 <= n <= files.len(),
        forall|i: int|
            0 <= i < n ==> filter.takes(crate::paths::extension_of((#[trigger] files[i]).name@)),
    ensures
        count(files, n, films()) + count(files, n, being("gif"@)) + count(files, n, being("png"@)) + count(
            files,
            n,
            being("webp"@),
        ) == n,
        count(files, n, being("mov"@)) <= count(files, n, films()),
    decreases n,
{
    if n > 0 {
        lemma_kinds(filter, files, n - 1);
        let e = crate::paths::extension_of(files[n - 1].name@);
        lemma_lowered(files[n - 1].name@);
        lemma_one_kind(filter, e);
    }
}

proof fn lemma_total(files: Seq<Source>, m: int, n: int)
    requires
        0 <= m <= n,
    ensures
        total(files, m) <= total(files, n),
    decreases n - m,
{
    if m < n {
        lemma_total(files, m, n - 1);
    }
}

/// Counts files and adds up their lengths.
pub fn tally(files: &[Source]) -> (r: Result<Stats, String>)
    ensures
        match r {
            Ok(s) => counted(files@, files@.len() as int, s),
            Err(e) => total(files@, files@.len() as int) > u64::MAX && e@ == "error.source_size_overflow"@,
        },
{
    let mut s = Stats { files: 0, bytes: 0, gif: 0, video: 0, mov: 0, png: 0, webp: 0 };
    let mut i: usize = 0;
    while i < files.len()
        invariant
            i <= files.len(),
            counted(files@, i as int, s),
            s.gif <= i,
            s.video <= i,
            s.mov <= i,
            s.png <= i,
            s.webp <= i,
        decreases files.len() - i,
    {
        match s.bytes.checked_add(files[i].bytes) {
            None => {
                proof {
                    lemma_total(files@, i + 1, files@.len() as int);
                }
                return Err(fail("error.source_size_overflow"));
            },
            Some(n) => {
                s.bytes = n;
            },
        }
        let ext = extension(&files[i].name);
        let e = letters(&ext);
        s.files = s.files + 1;
        if is_video(&ext) {
            s.video = s.video + 1;
        }
        if spells(&e, "gif") {
            s.gif = s.gif + 1;
        }
        if spells(&e, "mov") {
            s.mov = s.mov + 1;
        }
        if spells(&e, "png") {
            s.png = s.png + 1;
        }
        if spells(&e, "webp") {
            s.webp = s.webp + 1;
        }
        i += 1;
    }
    Ok(s)
}

/// What files are sorted by: the extension, the folder, and the name.
pub fn sort_key(name: &str) -> (key: (String, String, String))
    ensures
        key.0@ == crate::paths::extension_of(name@),
        key.1@ == crate::paths::parent(name@),
        key.2@ == name@,
{
    (extension(name), text(&parent_of(&letters(name))), name.to_owned())
}

/// Whether a text comes before another in a list, or is the same.
pub open spec fn at_most(a: Seq<char>, b: Seq<char>) -> bool
    decreases a.len(),
{
    if a.len() == 0 {
        true
    } else if b.len() == 0 {
        false
    } else if a[0] == b[0] {
        at_most(a.skip(1), b.skip(1))
    } else {
        a[0] < b[0]
    }
}

/// What a file is sorted by: the extension, the folder, and the name.
pub open spec fn key_of(name: Seq<char>) -> (Seq<char>, Seq<char>, Seq<char>) {
    (crate::paths::extension_of(name), crate::paths::parent(name), name)
}

/// Whether a file comes before another in an archive, or has the same name.
pub open spec fn in_order(a: Seq<char>, b: Seq<char>) -> bool {
    let (x, y) = (key_of(a), key_of(b));
    if x.0 != y.0 {
        at_most(x.0, y.0)
    } else if x.1 != y.1 {
        at_most(x.1, y.1)
    } else {
        at_most(a, b)
    }
}

proof fn lemma_either(a: Seq<char>, b: Seq<char>)
    ensures
        at_most(a, b) || at_most(b, a),
    decreases a.len(),
{
    if a.len() > 0 && b.len() > 0 {
        lemma_either(a.skip(1), b.skip(1));
    }
}

proof fn lemma_same(a: Seq<char>, b: Seq<char>)
    requires
        at_most(a, b),
        at_most(b, a),
    ensures
        a == b,
    decreases a.len(),
{
    if a.len() > 0 && b.len() > 0 {
        lemma_same(a.skip(1), b.skip(1));
        assert(a =~= seq![a[0]] + a.skip(1));
        assert(b =~= seq![b[0]] + b.skip(1));
    } else {
        assert(a =~= b);
    }
}

proof fn lemma_on(a: Seq<char>, b: Seq<char>, c: Seq<char>)
    requires
        at_most(a, b),
        at_most(b, c),
    ensures
        at_most(a, c),
    decreases a.len(),
{
    if a.len() > 0 && b.len() > 0 && c.len() > 0 && a[0] == b[0] && b[0] == c[0] {
        lemma_on(a.skip(1), b.skip(1), c.skip(1));
    }
}

/// Of two files one comes before the other.
pub proof fn law_order_is_total(a: Seq<char>, b: Seq<char>)
    ensures
        in_order(a, b) || in_order(b, a),
        in_order(a, b) && in_order(b, a) ==> a == b,
{
    let (x, y) = (key_of(a), key_of(b));
    lemma_either(x.0, y.0);
    lemma_either(x.1, y.1);
    lemma_either(a, b);
    if in_order(a, b) && in_order(b, a) {
        if x.0 != y.0 {
            lemma_same(x.0, y.0);
        } else if x.1 != y.1 {
            lemma_same(x.1, y.1);
        } else {
            lemma_same(a, b);
        }
    }
}

/// A file that comes before one that comes before a third comes before the third.
pub proof fn law_order_goes_on(a: Seq<char>, b: Seq<char>, c: Seq<char>)
    requires
        in_order(a, b),
        in_order(b, c),
    ensures
        in_order(a, c),
{
    let (x, y, z) = (key_of(a), key_of(b), key_of(c));
    if x.0 != y.0 && y.0 != z.0 {
        lemma_on(x.0, y.0, z.0);
        if x.0 == z.0 {
            lemma_same(x.0, y.0);
        }
    } else if x.0 == y.0 && y.0 == z.0 {
        if x.1 != y.1 && y.1 != z.1 {
            lemma_on(x.1, y.1, z.1);
            if x.1 == z.1 {
                lemma_same(x.1, y.1);
            }
        } else if x.1 == y.1 && y.1 == z.1 {
            lemma_on(a, b, c);
        }
    }
}

fn text_at_most(a: &Vec<char>, b: &Vec<char>) -> (r: bool)
    ensures
        r == at_most(a@, b@),
{
    let mut i: usize = 0;
    assert(a@.skip(0) =~= a@ && b@.skip(0) =~= b@);
    while i < a.len()
        invariant
            i <= a.len(),
            i <= b.len(),
            at_most(a@, b@) == at_most(a@.skip(i as int), b@.skip(i as int)),
        decreases a.len() - i,
    {
        if i >= b.len() {
            return false;
        }
        if a[i] != b[i] {
            return a[i] < b[i];
        }
        assert(a@.skip(i as int).skip(1) =~= a@.skip(i + 1));
        assert(b@.skip(i as int).skip(1) =~= b@.skip(i + 1));
        i += 1;
    }
    true
}

/// What a file is sorted by, letter by letter.
struct Key {
    ext: Vec<char>,
    folder: Vec<char>,
    name: Vec<char>,
}

impl Key {
    spec fn of(&self, name: Seq<char>) -> bool {
        (self.ext@, self.folder@, self.name@) == key_of(name)
    }

    fn new(name: &str) -> (k: Self)
        ensures
            k.of(name@),
    {
        let (ext, folder, name) = sort_key(name);
        Key { ext: letters(&ext), folder: letters(&folder), name: letters(&name) }
    }

    fn comes_first(&self, other: &Key, Ghost(a): Ghost<Seq<char>>, Ghost(b): Ghost<Seq<char>>) -> (r: bool)
        requires
            self.of(a),
            other.of(b),
        ensures
            r == in_order(a, b),
    {
        if !equal(&self.ext, &other.ext) {
            text_at_most(&self.ext, &other.ext)
        } else if !equal(&self.folder, &other.folder) {
            text_at_most(&self.folder, &other.folder)
        } else {
            text_at_most(&self.name, &other.name)
        }
    }
}

fn equal(a: &Vec<char>, b: &Vec<char>) -> (r: bool)
    ensures
        r == (a@ == b@),
{
    let forward = text_at_most(a, b);
    let backward = text_at_most(b, a);
    proof {
        lemma_either(a@, a@);
        if forward && backward {
            lemma_same(a@, b@);
        }
    }
    forward && backward
}

/// Whether files stand in order: each comes before those behind it, and of files with one name the one that
/// was found first.
pub open spec fn ordered(names: Seq<Seq<char>>, order: Seq<usize>) -> bool {
    &&& forall|i: int| 0 <= i < order.len() ==> (#[trigger] order[i]) < names.len()
    &&& forall|i: int, j: int|
        0 <= i < j < order.len() ==> in_order(
            names[(#[trigger] order[i]) as int],
            names[(#[trigger] order[j]) as int],
        ) && order[i] != order[j] && (names[order[i] as int] == names[order[j] as int] ==> order[i] < order[j])
}

proof fn lemma_inserted(names: Seq<Seq<char>>, order: Seq<usize>, p: int, x: usize)
    requires
        ordered(names, order),
        0 <= p <= order.len(),
        x < names.len(),
        forall|k: int| 0 <= k < order.len() ==> #[trigger] order[k] < x,
        p > 0 ==> in_order(names[order[p - 1] as int], names[x as int]),
        forall|k: int|
            p <= k < order.len() ==> !in_order(names[(#[trigger] order[k]) as int], names[x as int]),
    ensures
        ordered(names, order.insert(p, x)),
{
    let v = order.insert(p, x);
    assert forall|i: int, j: int| 0 <= i < j < v.len() implies in_order(
        names[(#[trigger] v[i]) as int],
        names[(#[trigger] v[j]) as int],
    ) && v[i] != v[j] && (names[v[i] as int] == names[v[j] as int] ==> v[i] < v[j]) by {
        if j < p {
            assert(v[i] == order[i] && v[j] == order[j]);
        } else if j == p {
            assert(v[i] == order[i]);
            if i < p - 1 {
                assert(in_order(names[order[i] as int], names[order[p - 1] as int]));
                law_order_goes_on(
                    names[order[i] as int],
                    names[order[p - 1] as int],
                    names[x as int],
                );
            }
        } else if i == p {
            assert(v[j] == order[j - 1]);
            law_order_is_total(names[order[j - 1] as int], names[x as int]);
        } else if i < p {
            assert(v[i] == order[i] && v[j] == order[j - 1]);
        } else {
            assert(v[i] == order[i - 1] && v[j] == order[j - 1]);
        }
    }
}

/// Puts files in the order that they have in an archive: the numbers of all files, each once.
pub fn order_files(names: &Vec<String>) -> (order: Vec<usize>)
    ensures
        order@.len() == names@.len(),
        ordered(crate::locale::texts(names@), order@),
{
    let ghost all = crate::locale::texts(names@);
    let mut keys: Vec<Key> = Vec::new();
    let mut order: Vec<usize> = Vec::new();
    let mut i: usize = 0;
    while i < names.len()
        invariant
            i <= names.len(),
            all == crate::locale::texts(names@),
            order@.len() == i,
            keys@.len() == i,
            forall|k: int| 0 <= k < i ==> (#[trigger] keys@[k]).of(all[k]),
            ordered(all, order@),
            forall|k: int| 0 <= k < i ==> #[trigger] order@[k] < i,
        decreases names.len() - i,
    {
        assert(all[i as int] == names@[i as int]@);
        let key = Key::new(&names[i]);
        let ghost here = all[i as int];
        let mut lo: usize = 0;
        let mut hi: usize = i;
        while lo < hi
            invariant
                lo <= hi <= i < names.len(),
                all == crate::locale::texts(names@),
                all.len() == names@.len(),
                here == all[i as int],
                key.of(here),
                order@.len() == i,
                keys@.len() == i,
                forall|k: int| 0 <= k < i ==> (#[trigger] keys@[k]).of(all[k]),
                ordered(all, order@),
                forall|k: int| 0 <= k < i ==> #[trigger] order@[k] < i,
                lo > 0 ==> in_order(all[order@[lo - 1] as int], here),
                forall|k: int| hi <= k < i ==> !in_order(all[(#[trigger] order@[k]) as int], here),
            decreases hi - lo,
        {
            let mid: usize = lo + (hi - lo) / 2;
            let at: usize = order[mid];
            if keys[at].comes_first(&key, Ghost(all[at as int]), Ghost(here)) {
                lo = mid + 1;
            } else {
                assert forall|k: int| mid <= k < i implies !in_order(
                    all[(#[trigger] order@[k]) as int],
                    here,
                ) by {
                    if k > mid && in_order(all[order@[k] as int], here) {
                        assert(in_order(all[order@[mid as int] as int], all[order@[k] as int]));
                        law_order_goes_on(all[at as int], all[order@[k] as int], here);
                    }
                }
                hi = mid;
            }
        }
        proof {
            lemma_inserted(all, order@, lo as int, i);
        }
        order.insert(lo, i);
        keys.push(key);
        i += 1;
    }
    order
}

/// Names in lower case.
pub open spec fn folded(names: Seq<Seq<char>>) -> Seq<Seq<char>> {
    names.map_values(|s: Seq<char>| crate::text::lowercase(s))
}

/// Whether the names from number `i` on are safe, and differ from all before in more than case.
pub open spec fn distinct_from(names: Seq<Seq<char>>, i: int) -> Outcome<()>
    decreases names.len() - i,
{
    if i >= names.len() {
        Ok(())
    } else {
        match crate::paths::checked(names[i]) {
            Err(e) => Err(e),
            Ok(_) => if folded(names).take(i).contains(crate::text::lowercase(names[i])) {
                Err(crate::locale::coded_message("error.duplicate_target"@, seq![names[i]]))
            } else {
                distinct_from(names, i + 1)
            },
        }
    }
}

/// Whether the folders of the names, from place `p` of name number `i` on, are no files, and each is
/// always written in one way. `keys` are those seen so far in lower case, `seen` as they were written.
pub open spec fn folders_from(
    names: Seq<Seq<char>>,
    i: int,
    p: int,
    keys: Seq<Seq<char>>,
    seen: Seq<Seq<char>>,
) -> Outcome<()>
    decreases names.len() - i, names[i].len() - p,
{
    if i >= names.len() {
        Ok(())
    } else if p >= names[i].len() {
        folders_from(names, i + 1, 0, keys, seen)
    } else if names[i][p] != '/' {
        folders_from(names, i, p + 1, keys, seen)
    } else {
        let folder = names[i].take(p);
        let key = crate::text::lowercase(folder);
        if folded(names).contains(key) {
            Err(crate::locale::coded_message("error.path_conflict_at"@, seq![folder]))
        } else if keys.contains(key) {
            let before = seen[keys.index_of(key)];
            if before == folder {
                folders_from(names, i, p + 1, keys, seen)
            } else {
                Err(crate::locale::coded_message("error.path_case_conflict"@, seq![before, folder]))
            }
        } else {
            folders_from(names, i, p + 1, keys.push(key), seen.push(folder))
        }
    }
}

/// Whether names can stand in one archive.
pub open spec fn names_checked(names: Seq<Seq<char>>) -> Outcome<()> {
    match distinct_from(names, 0) {
        Err(e) => Err(e),
        Ok(_) => folders_from(names, 0, 0, Seq::empty(), Seq::empty()),
    }
}

pub open spec fn names_of(files: Seq<Source>) -> Seq<Seq<char>> {
    files.map_values(|f: Source| f.name@)
}

pub open spec fn unit_of(r: Result<(), String>) -> Outcome<()> {
    match r {
        Ok(_) => Ok(()),
        Err(e) => Err(e@),
    }
}

fn check_folders(files: &[Source], names: &Index) -> (r: Result<(), String>)
    requires
        names.wf(),
        names@ == folded(names_of(files@)),
    ensures
        unit_of(r) == folders_from(names_of(files@), 0, 0, Seq::empty(), Seq::empty()),
{
    let ghost all = names_of(files@);
    let ghost whole = folders_from(all, 0, 0, Seq::empty(), Seq::empty());
    let mut keys = Index::new();
    let mut seen: Vec<String> = Vec::new();
    assert(keys@ =~= Seq::empty());
    assert(crate::locale::texts(seen@) =~= Seq::empty());
    let mut i: usize = 0;
    while i < files.len()
        invariant
            i <= files.len(),
            all == names_of(files@),
            names.wf(),
            names@ == folded(all),
            keys.wf(),
            keys@.len() == seen@.len(),
            whole == folders_from(all, 0, 0, Seq::empty(), Seq::empty()),
            whole == folders_from(all, i as int, 0, keys@, crate::locale::texts(seen@)),
        decreases files.len() - i,
    {
        assert(all[i as int] == files@[i as int].name@);
        let name = letters(&files[i].name);
        let mut p: usize = 0;
        while p < name.len()
            invariant
                p <= name.len(),
                i < files.len(),
                all == names_of(files@),
                name@ == all[i as int],
                names.wf(),
                names@ == folded(all),
                keys.wf(),
                keys@.len() == seen@.len(),
                whole == folders_from(all, 0, 0, Seq::empty(), Seq::empty()),
                whole == folders_from(all, i as int, p as int, keys@, crate::locale::texts(seen@)),
            decreases name.len() - p,
        {
            if name[p] == '/' {
                assert(name@.subrange(0, p as int) =~= name@.take(p as int));
                let folder = text(&name.as_slice()[0..p]);
                let key = to_lower(&folder);
                match names.find(&key) {
                    Some(k) => {
                        assert(names@.contains(key@));
                        return Err(message_with("error.path_conflict_at", folder));
                    },
                    None => {},
                }
                match keys.find(&key) {
                    Some(k) => {
                        proof {
                            assert(keys@.contains(key@));
                            let n = keys@.index_of(key@);
                            assert(keys@[n] == key@ && keys@[k as int] == key@);
                            assert(n == k);
                            assert(crate::locale::texts(seen@)[k as int] == seen@[k as int]@);
                        }
                        if !same_text(&seen[k], &folder) {
                            let args: Vec<String> = vec![seen[k].clone(), folder];
                            assert(crate::locale::texts(args@) =~= seq![seen@[k as int]@, folder@]);
                            return Err(message("error.path_case_conflict", &args));
                        }
                    },
                    None => {
                        let ghost before = crate::locale::texts(seen@);
                        keys.push(key);
                        seen.push(folder);
                        assert(crate::locale::texts(seen@) =~= before.push(folder@));
                    },
                }
            }
            p += 1;
        }
        i += 1;
    }
    Ok(())
}

/// Checks that files can stand in one archive: their names are safe, no two are the same but for
/// case, no file is a folder, and every folder is written in one way.
pub fn validate_names(files: &[Source]) -> (r: Result<(), String>)
    ensures
        unit_of(r) == names_checked(names_of(files@)),
{
    let ghost all = names_of(files@);
    let ghost whole = distinct_from(all, 0);
    let mut names = Index::new();
    assert(names@ =~= folded(all).take(0));
    let mut i: usize = 0;
    while i < files.len()
        invariant
            i <= files.len(),
            all == names_of(files@),
            names.wf(),
            names@ == folded(all).take(i as int),
            whole == distinct_from(all, 0),
            whole == distinct_from(all, i as int),
        decreases files.len() - i,
    {
        assert(all[i as int] == files@[i as int].name@);
        match safe_rel_path(&files[i].name) {
            Err(e) => {
                return Err(e);
            },
            Ok(_) => {},
        }
        let key = to_lower(&files[i].name);
        match names.find(&key) {
            Some(k) => {
                assert(names@.contains(key@));
                return Err(message_with("error.duplicate_target", files[i].name.clone()));
            },
            None => {},
        }
        names.push(key);
        i += 1;
        assert(names@ =~= folded(all).take(i as int));
    }
    assert(folded(all).take(i as int) =~= folded(all));
    check_folders(files, &names)
}

}
