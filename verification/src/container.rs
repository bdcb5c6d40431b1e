//! Archives: their head, the order in which files are packed and unpacked, and what is reported.

use crate::compression::hash;
use crate::index::Index;
use crate::locale::message_with;
use crate::manifest::{Entry, Manifest, Method};
use crate::monitor::Unwatched;
use crate::scan::Filter;
use crate::text::same_text;
use crate::volumes::{write_decimal, Split};
use crate::wire::{fail, put_le, read_le32, same, Outcome};
use vstd::prelude::*;
use vstd::string::*;

verus! {

pub const MAGIC: [u8; 8] = [83, 80, 65, 67, 75, 0, 2, 0];

/// The longest table of contents.
pub const MAX_MANIFEST: usize = 0x400_0000;

/// The length of what stands before the table of contents.
pub const HEAD: usize = 44;

/// What is reported of a long operation.
#[derive(Clone)]
pub struct Progress {
    pub phase: String,
    pub done: u64,
    pub total: u64,
    pub detail: String,
}

/// Someone who watches a long operation, and may cancel it at any time.
pub trait Watcher {
    /// Whether the operation has to end.
    spec fn ended(&self) -> bool;

    /// Whether asking, with the answer `c`, can leave the watcher as `after`.
    spec fn asked(&self, c: bool, after: &Self) -> bool;

    /// Whether a report with the answer `go` can leave the watcher as `after`.
    spec fn shown(&self, p: Progress, go: bool, after: &Self) -> bool;

    /// Whether the operation has been cancelled.
    fn cancelled(&mut self) -> (c: bool)
        ensures
            final(self).ended() == (old(self).ended() || c),
            old(self).asked(c, final(self)),
    ;

    /// Shows a report. The answer `false` asks for the operation to end.
    fn show(&mut self, p: Progress) -> (go: bool)
        ensures
            final(self).ended() == (old(self).ended() || !go),
            old(self).shown(p, go, final(self)),
    ;
}

impl Watcher for Unwatched {
    open spec fn ended(&self) -> bool {
        false
    }

    open spec fn asked(&self, c: bool, after: &Self) -> bool {
        !c
    }

    open spec fn shown(&self, p: Progress, go: bool, after: &Self) -> bool {
        go
    }

    fn cancelled(&mut self) -> (c: bool) {
        false
    }

    fn show(&mut self, p: Progress) -> (go: bool) {
        true
    }
}

/// Whether a report says this.
pub open spec fn says(p: Progress, phase: Seq<char>, done: u64, total: u64, detail: Seq<char>) -> bool {
    p.phase@ == phase && p.done == done && p.total == total && p.detail@ == detail
}

/// Whether a watcher can be `after` when it has been asked, which leaves it as `a`, has been shown a
/// report, which leaves it as `b`, and has been asked again, as far as it let this come.
pub open spec fn ticked<W: Watcher>(w: W, p: Progress, a: W, b: W, after: W, ok: bool) -> bool {
    ||| w.asked(true, &a) && after == a && !ok
    ||| w.asked(false, &a) && a.shown(p, false, &b) && after == b && !ok
    ||| w.asked(false, &a) && a.shown(p, true, &b) && b.asked(!ok, &after)
}

/// Shows a report, unless the operation has been cancelled before or is while it is shown.
pub fn tick<W: Watcher>(watcher: &mut W, phase: &str, done: u64, total: u64, detail: &str) -> (r: Result<
    (),
    String,
>)
    requires
        !old(watcher).ended(),
    ensures
        crate::scan::unit_of(r) == crate::wire::unless(final(watcher).ended(), Ok(())),
        exists|p: Progress, a: W, b: W| #[trigger]
            ticked(*old(watcher), p, a, b, *final(watcher), r is Ok) && says(
                p,
                phase@,
                done,
                total,
                detail@,
            ),
{
    let ghost w = *watcher;
    let p = Progress { phase: phase.to_owned(), done, total, detail: detail.to_owned() };
    let ghost report = p;
    assert(says(report, phase@, done, total, detail@));
    if watcher.cancelled() {
        assert(ticked(w, report, *watcher, *watcher, *watcher, false));
        return Err(fail("error.cancelled"));
    }
    let ghost a = *watcher;
    if !watcher.show(p) {
        assert(ticked(w, report, a, *watcher, *watcher, false));
        return Err(fail("error.cancelled"));
    }
    let ghost b = *watcher;
    if watcher.cancelled() {
        assert(ticked(w, report, a, b, *watcher, false));
        return Err(fail("error.cancelled"));
    }
    assert(ticked(w, report, a, b, *watcher, true));
    Ok(())
}

/// How many of `size` bytes are done, where `done` of `total` units are.
pub open spec fn portion(size: int, done: int, total: int) -> int {
    if total == 0 {
        0
    } else if done < total {
        size * done / total
    } else {
        size
    }
}

/// How many of `size` bytes are done, where `done` of `total` units are.
pub fn portion_of(size: u64, done: u64, total: u64) -> (n: u64)
    ensures
        n == portion(size as int, done as int, total as int),
        n <= size,
{
    if total == 0 {
        return 0;
    }
    if done >= total {
        return size;
    }
    assert(0 <= size * done <= 0xffff_ffff_ffff_ffff * 0xffff_ffff_ffff_ffff && size * done / (
    total as int) <= size) by (nonlinear_arith)
        requires
            0 <= size <= 0xffff_ffff_ffff_ffff,
            0 <= done < total,
            total <= 0xffff_ffff_ffff_ffff,
    ;
    (size as u128 * done as u128 / total as u128) as u64
}

/// What files are packed with.
#[derive(Clone, Debug)]
pub struct PackOptions {
    pub filter: Filter,
    pub preset: String,
    pub out_dir: Option<String>,
    pub split: Split,
    pub raw: bool,
}

impl Default for PackOptions {
    fn default() -> (o: Self)
        ensures
            o.filter == Filter::All,
            o.preset@ == "balanced"@,
            o.out_dir is None,
            o.split == Split::Whole,
            !o.raw,
    {
        PackOptions {
            filter: Filter::All,
            preset: "balanced".to_owned(),
            out_dir: None,
            split: Split::Whole,
            raw: false,
        }
    }
}

/// What came of packing.
#[derive(Debug)]
pub struct PackResult {
    pub pack_path: String,
    pub parts: Vec<String>,
    pub src_bytes: u64,
    pub packed_bytes: u64,
    pub n_files: usize,
}

/// The sum of the first `n` of some sizes.
pub open spec fn sizes_sum(sizes: Seq<u64>, n: int) -> int
    decreases n,
{
    if n <= 0 {
        0
    } else {
        sizes_sum(sizes, n - 1) + sizes[n - 1]
    }
}

/// Whether a result tells of an archive with the given table of contents and parts. The archive goes by its
/// first part.
pub open spec fn tells(r: PackResult, parts: Seq<String>, sizes: Seq<u64>, m: Manifest) -> bool {
    &&& r.pack_path@ == parts[0]@
    &&& r.parts@ == parts
    &&& r.src_bytes == m.src_bytes
    &&& r.packed_bytes == sizes_sum(sizes, sizes.len() as int)
    &&& r.n_files == m.files@.len()
}

/// Says what came of packing files with a table of contents into parts of the given sizes.
pub fn sum_up(parts: Vec<String>, sizes: &[u64], m: &Manifest) -> (r: PackResult)
    requires
        parts@.len() >= 1,
        sizes@.len() == parts@.len(),
        sizes_sum(sizes@, sizes@.len() as int) <= u64::MAX,
    ensures
        tells(r, parts@, sizes@, *m),
{
    let mut packed_bytes: u64 = 0;
    let mut i: usize = 0;
    while i < sizes.len()
        invariant
            i <= sizes.len(),
            packed_bytes == sizes_sum(sizes@, i as int),
            sizes_sum(sizes@, sizes@.len() as int) <= u64::MAX,
        decreases sizes.len() - i,
    {
        proof {
            lemma_sizes_grow(sizes@, i + 1, sizes@.len() as int);
        }
        packed_bytes = packed_bytes + sizes[i];
        i += 1;
    }
    let pack_path = parts[0].clone();
    PackResult { pack_path, parts, src_bytes: m.src_bytes, packed_bytes, n_files: m.files.len() }
}

proof fn lemma_sizes_grow(sizes: Seq<u64>, n: int, m: int)
    requires
        0 <= n <= m,
    ensures
        sizes_sum(sizes, n) <= sizes_sum(sizes, m),
    decreases m - n,
{
    if n < m {
        lemma_sizes_grow(sizes, n, m - 1);
    }
}

/// What came of unpacking.
#[derive(Debug)]
pub struct UnpackResult {
    pub dir: String,
    pub n_files: usize,
    pub bytes_written: u64,
}

/// What an archive holds.
pub struct ArchiveInfo {
    pub files: usize,
    pub bytes: u64,
    pub dir_name: String,
    pub parts: usize,
}

/// The level and the window of the compressor, by the name of a preset.
pub open spec fn preset_of(p: Seq<char>) -> Option<(int, int)> {
    if p == "fast"@ {
        Some((6, 27))
    } else if p == "balanced"@ {
        Some((19, 28))
    } else if p == "max"@ {
        Some((22, 30))
    } else {
        None
    }
}

/// The level and the window of the compressor, by the name of a preset.
pub fn preset(p: &str) -> (r: Result<(i32, u32), String>)
    ensures
        match r {
            Ok((level, window)) => preset_of(p@) == Some((level as int, window as int)),
            Err(e) => preset_of(p@) is None && e@ == "error.invalid_preset"@,
        },
{
    if same_text(p, "fast") {
        Ok((6, 27))
    } else if same_text(p, "balanced") {
        Ok((19, 28))
    } else if same_text(p, "max") {
        Ok((22, 30))
    } else {
        Err(fail("error.invalid_preset"))
    }
}

/// The level at which a record is compressed: those that are coded already are hardly compressed.
pub open spec fn level_of(method: Method, level: int) -> int {
    match method {
        Method::MovModel | Method::MovShared | Method::MovMotion | Method::MovSource | Method::GifModel | Method::GifPredict =>
        1,
        _ => level,
    }
}

pub fn record_level(method: Method, level: i32) -> (r: i32)
    ensures
        r == level_of(method, level as int),
{
    match method {
        Method::MovModel | Method::MovShared | Method::MovMotion | Method::MovSource | Method::GifModel | Method::GifPredict =>
        1,
        _ => level,
    }
}

/// The start of an archive with a table of contents.
pub open spec fn head(json: Seq<u8>) -> Outcome<Seq<u8>> {
    if json.len() > MAX_MANIFEST {
        Err("error.manifest_too_large"@)
    } else {
        Ok(
            MAGIC@ + crate::wire::le_bytes(json.len() as int, 4) + crate::compression::checksum(json)
                + json,
        )
    }
}

/// Writes the start of an archive.
pub fn write_head(json: &[u8]) -> (r: Result<Vec<u8>, String>)
    ensures
        crate::wire::bytes_of(r) == head(json@),
{
    if json.len() > MAX_MANIFEST {
        return Err(fail("error.manifest_too_large"));
    }
    let mut out: Vec<u8> = Vec::new();
    out.extend_from_slice(&MAGIC);
    put_le(json.len() as u64, 4, &mut out);
    out.extend_from_slice(&hash(json));
    out.extend_from_slice(json);
    assert(out@ =~= MAGIC@ + crate::wire::le_bytes(json@.len() as int, 4) + crate::compression::checksum(
        json@,
    ) + json@);
    Ok(out)
}

/// What is wrong with the mark at the start of an archive.
pub open spec fn mark_fault(start: Seq<u8>) -> Outcome<()> {
    if start.take(8) != MAGIC@ {
        Err("error.unsupported_archive_version"@)
    } else {
        Ok(())
    }
}

/// Checks the mark at the start of an archive.
pub fn check_mark(start: &[u8]) -> (r: Result<(), String>)
    requires
        start@.len() >= 8,
    ensures
        crate::scan::unit_of(r) == mark_fault(start@),
{
    assert(start@.subrange(0, 8) =~= start@.take(8));
    if !same(&start[0..8], &MAGIC) {
        return Err(fail("error.unsupported_archive_version"));
    }
    Ok(())
}

/// The length of the table of contents, by what stands before it.
pub open spec fn length_in(head: Seq<u8>) -> Outcome<int> {
    let n = crate::wire::le32(head, 8);
    if head.take(8) != MAGIC@ {
        Err("error.unsupported_archive_version"@)
    } else if n == 0 || n > MAX_MANIFEST {
        Err("error.invalid_manifest_length"@)
    } else {
        Ok(n)
    }
}

/// Reads the length of the table of contents.
pub fn manifest_length(head: &[u8]) -> (r: Result<usize, String>)
    requires
        head@.len() >= 12,
    ensures
        match r {
            Ok(n) => length_in(head@) == Ok::<int, Seq<char>>(n as int),
            Err(e) => length_in(head@) == Err::<int, Seq<char>>(e@),
        },
{
    check_mark(head)?;
    let n = read_le32(head, 8) as usize;
    if n == 0 || n > MAX_MANIFEST {
        return Err(fail("error.invalid_manifest_length"));
    }
    Ok(n)
}

/// The table of contents at the start of an archive: its mark is read first, then its length, then its
/// checksum, then the table itself.
pub open spec fn contents_in(data: Seq<u8>) -> Outcome<Seq<u8>> {
    if data.len() < 8 {
        Err("failed to fill whole buffer"@)
    } else {
        match mark_fault(data) {
            Err(e) => Err(e),
            Ok(_) => if data.len() < 12 {
                Err("failed to fill whole buffer"@)
            } else {
                match length_in(data) {
                    Err(e) => Err(e),
                    Ok(n) => if data.len() < HEAD + n {
                        Err("failed to fill whole buffer"@)
                    } else {
                        let json = data.subrange(HEAD as int, HEAD + n);
                        if crate::compression::checksum(json) != data.subrange(12, 44) {
                            Err("error.manifest_checksum"@)
                        } else {
                            Ok(json)
                        }
                    },
                }
            },
        }
    }
}

/// Reads the table of contents at the start of an archive.
pub fn read_manifest(data: &[u8]) -> (r: Result<Vec<u8>, String>)
    ensures
        crate::wire::bytes_of(r) == contents_in(data@),
{
    if data.len() < 8 {
        return Err(fail("failed to fill whole buffer"));
    }
    check_mark(data)?;
    if data.len() < 12 {
        return Err(fail("failed to fill whole buffer"));
    }
    let n: usize = manifest_length(data)?;
    if data.len() < HEAD || data.len() - HEAD < n {
        return Err(fail("failed to fill whole buffer"));
    }
    let json = &data[HEAD..HEAD + n];
    if !same(&hash(json), &data[12..44]) {
        return Err(fail("error.manifest_checksum"));
    }
    let mut out: Vec<u8> = Vec::new();
    out.extend_from_slice(json);
    assert(out@ =~= data@.subrange(HEAD as int, HEAD + n));
    Ok(out)
}

/// What was written at the start of an archive is read from it again, whatever follows.
pub proof fn law_head_is_read(json: Seq<u8>, rest: Seq<u8>)
    requires
        1 <= json.len() <= MAX_MANIFEST,
    ensures
        crate::compression::checksum(json).len() == 32 ==> (head(json) matches Ok(h) && contents_in(
            h + rest,
        ) == Ok::<Seq<u8>, Seq<char>>(json)),
{
    reveal_with_fuel(crate::wire::le_bytes, 5);
    let sum = crate::compression::checksum(json);
    let h = MAGIC@ + crate::wire::le_bytes(json.len() as int, 4) + sum + json;
    let data = h + rest;
    if sum.len() == 32 {
        assert(data.take(8) =~= MAGIC@);
        assert(data.subrange(12, 44) =~= sum);
        assert(data.subrange(44, 44 + json.len() as int) =~= json);
        assert(data.subrange(8, 12) =~= crate::wire::le_bytes(json.len() as int, 4));
        assert(crate::wire::le32(data, 8) == crate::wire::le32(data.subrange(8, 12), 0));
    }
}

/// What an archive with a table of contents, in a number of parts, holds.
pub fn archive_info(m: &Manifest, parts: usize) -> (i: ArchiveInfo)
    ensures
        i.files == m.files@.len(),
        i.bytes == m.src_bytes,
        i.dir_name@ == m.dir_name@,
        i.parts == parts,
{
    ArchiveInfo {
        files: m.files.len(),
        bytes: m.src_bytes,
        dir_name: m.dir_name.clone(),
        parts,
    }
}

/// What two files are compared by.
pub struct Fingerprint {
    pub name: String,
    pub bytes: u64,
    pub hash: String,
}

pub open spec fn same_file(a: Fingerprint, b: Fingerprint) -> bool {
    a.name@ == b.name@ && a.bytes == b.bytes && a.hash@ == b.hash@
}

/// The first file from number `i` on that is not the same in two lists.
pub open spec fn first_difference(a: Seq<Fingerprint>, b: Seq<Fingerprint>, i: int) -> int
    decreases a.len() - i,
{
    if i >= a.len() || !same_file(a[i], b[i]) {
        i
    } else {
        first_difference(a, b, i + 1)
    }
}

/// Whether two folders hold the same files, and how many.
pub open spec fn compared(a: Seq<Fingerprint>, b: Seq<Fingerprint>) -> Outcome<int> {
    if a.len() != b.len() || a.len() == 0 {
        Err("error.file_count_mismatch"@)
    } else {
        let i = first_difference(a, b, 0);
        if i < a.len() {
            Err(crate::locale::coded_message("error.verify_file"@, seq![a[i].name@]))
        } else {
            Ok(a.len() as int)
        }
    }
}

/// Compares the files of two folders.
pub fn verify(original: &[Fingerprint], restored: &[Fingerprint]) -> (r: Result<usize, String>)
    ensures
        match r {
            Ok(n) => compared(original@, restored@) == Ok::<int, Seq<char>>(n as int),
            Err(e) => compared(original@, restored@) == Err::<int, Seq<char>>(e@),
        },
{
    if original.len() != restored.len() || original.len() == 0 {
        return Err(fail("error.file_count_mismatch"));
    }
    let mut i: usize = 0;
    while i < original.len()
        invariant
            i <= original.len(),
            original@.len() == restored@.len(),
            original@.len() > 0,
            first_difference(original@, restored@, 0) == first_difference(
                original@,
                restored@,
                i as int,
            ),
        decreases original.len() - i,
    {
        let (a, b) = (&original[i], &restored[i]);
        if !same_text(&a.name, &b.name) || a.bytes != b.bytes || !same_text(&a.hash, &b.hash) {
            return Err(message_with("error.verify_file", a.name.clone()));
        }
        i += 1;
    }
    Ok(original.len())
}

/// The name of the file that an archive is written to.
pub open spec fn archive_name(dir: Seq<char>, hash: Seq<char>, preset: Seq<char>, raw: bool) -> Seq<char> {
    dir + "."@ + hash.take(12) + "."@ + preset + (if raw {
        ".raw"@
    } else {
        Seq::empty()
    }) + ".spk"@
}

/// The name of the file that an archive is written to.
pub fn file_name(m: &Manifest, preset: &str, raw: bool) -> (s: String)
    requires
        m.source_hash@.len() >= 12,
    ensures
        s@ == archive_name(m.dir_name@, m.source_hash@, preset@, raw),
{
    let mut s = m.dir_name.clone();
    s.append(".");
    let letters = crate::text::letters(&m.source_hash);
    assert(letters@.subrange(0, 12) =~= letters@.take(12));
    s.append(&crate::text::text(&letters.as_slice()[0..12]));
    s.append(".");
    s.append(preset);
    if raw {
        s.append(".raw");
    }
    s.append(".spk");
    assert(s@ =~= archive_name(m.dir_name@, m.source_hash@, preset@, raw));
    s
}

/// A name with a number behind it.
pub open spec fn numbered(name: Seq<char>, n: int) -> Seq<char> {
    name + " ("@ + crate::volumes::decimal(n) + ")"@
}

/// A name for a folder where others of that name exist already.
pub fn numbered_name(name: &str, n: u64) -> (s: String)
    ensures
        s@ == numbered(name@, n as int),
{
    let mut s = name.to_owned();
    s.append(" (");
    s.append(&write_decimal(n));
    s.append(")");
    s
}

/// The name that is tried at the `i`th attempt, counted from zero.
pub open spec fn candidate(name: Seq<char>, i: int) -> Seq<char> {
    if i <= 0 {
        name
    } else {
        numbered(name, i + 1)
    }
}

/// The name that is tried at the `i`th attempt, counted from zero.
pub fn candidate_name(name: &str, i: u32) -> (s: String)
    ensures
        s@ == candidate(name@, i as int),
{
    if i == 0 {
        name.to_owned()
    } else {
        numbered_name(name, i as u64 + 1)
    }
}

/// Whether the `i`th name is the first that is not taken.
pub open spec fn first_free(taken: Seq<bool>, i: int) -> bool {
    0 <= i < taken.len() && !taken[i] && forall|k: int| 0 <= k < i ==> #[trigger] taken[k]
}

/// The first name that is not taken, where `taken` says of each name, in turn, whether it is. There is none
/// where all of them are.
pub fn target_name(name: &str, taken: &[bool]) -> (r: Option<String>)
    requires
        taken@.len() <= u32::MAX,
    ensures
        match r {
            Some(s) => exists|i: int| #[trigger] first_free(taken@, i) && s@ == candidate(name@, i),
            None => forall|i: int| 0 <= i < taken@.len() ==> #[trigger] taken@[i],
        },
{
    let mut i: usize = 0;
    while i < taken.len()
        invariant
            i <= taken.len(),
            taken@.len() <= u32::MAX,
            forall|k: int| 0 <= k < i ==> #[trigger] taken@[k],
        decreases taken.len() - i,
    {
        if !taken[i] {
            assert(first_free(taken@, i as int));
            return Some(candidate_name(name, i as u32));
        }
        i += 1;
    }
    None
}

/// What is done with a file that has been looked at in advance.
#[derive(Clone, Copy, Debug, PartialEq, Eq, Structural)]
pub enum Placing {
    /// Its record is taken as it is.
    Keep,
    /// It is coded again, after the film before it.
    Again,
    /// It is coded without the film before it.
    Alone,
}

/// What is done with a file whose record, if there is one, was made by a method and after a film,
/// where the last film that can be predicted from is `last`.
pub open spec fn placed(made: Option<Method>, after: Option<usize>, last: Option<usize>, film: bool) -> Placing {
    match made {
        Some(Method::MovSource) if after is None || after == last => Placing::Keep,
        Some(m) if !film || m != Method::MovSource => Placing::Keep,
        _ => if made is Some || after != last {
            Placing::Again
        } else {
            Placing::Alone
        },
    }
}

/// Decides what is done with a file that has been looked at in advance.
pub fn place(made: Option<Method>, after: Option<usize>, last: Option<usize>, film: bool) -> (p: Placing)
    ensures
        p == placed(made, after, last, film),
{
    let same_film: bool = match (after, last) {
        (None, None) => true,
        (Some(a), Some(b)) => a == b,
        _ => false,
    };
    match made {
        Some(m) => {
            if m == Method::MovSource && (after.is_none() || same_film) {
                Placing::Keep
            } else if !film || m != Method::MovSource {
                Placing::Keep
            } else {
                Placing::Again
            }
        },
        None => if !same_film {
            Placing::Again
        } else {
            Placing::Alone
        },
    }
}

/// The film that the next one can be predicted from.
pub open spec fn last_film(last: Option<usize>, film: bool, method: Method, i: usize) -> Option<usize> {
    if !film {
        last
    } else if method == Method::MovSource {
        Some(i)
    } else {
        None
    }
}

pub fn next_film(last: Option<usize>, film: bool, method: Method, i: usize) -> (r: Option<usize>)
    ensures
        r == last_film(last, film, method, i),
{
    if !film {
        last
    } else if method == Method::MovSource {
        Some(i)
    } else {
        None
    }
}

/// Which files have been packed, so that a second one with the same contents need not be.
pub struct Twins {
    pub index: Index,
    pub places: Vec<usize>,
}

/// What files with the same contents have in common.
pub open spec fn contents_key(hash: Seq<char>, size: int) -> Seq<char> {
    hash + ":"@ + crate::volumes::decimal(size)
}

proof fn lemma_digits(n: int, i: int)
    requires
        0 <= n,
        0 <= i < crate::volumes::decimal(n).len(),
    ensures
        '0' <= crate::volumes::decimal(n)[i] <= '9',
    decreases n,
{
    if n >= 10 && i < crate::volumes::decimal(n).len() - 1 {
        lemma_digits(n / 10, i);
    }
}

proof fn lemma_decimal(a: int, b: int)
    requires
        0 <= a,
        0 <= b,
        crate::volumes::decimal(a) == crate::volumes::decimal(b),
    ensures
        a == b,
    decreases a,
{
    let (x, y) = (crate::volumes::decimal(a), crate::volumes::decimal(b));
    assert(x.last() == y.last());
    if a >= 10 && b >= 10 {
        assert(x.drop_last() =~= crate::volumes::decimal(a / 10));
        assert(y.drop_last() =~= crate::volumes::decimal(b / 10));
        lemma_decimal(a / 10, b / 10);
    } else if a >= 10 {
        assert(crate::volumes::decimal(a / 10).len() > 0) by {
            reveal_with_fuel(crate::volumes::decimal, 1);
        }
    } else if b >= 10 {
        assert(crate::volumes::decimal(b / 10).len() > 0) by {
            reveal_with_fuel(crate::volumes::decimal, 1);
        }
    }
}

/// Files that are taken for twins have the same checksum and length.
pub proof fn law_twins_agree(a: Seq<char>, m: int, b: Seq<char>, n: int)
    requires
        0 <= m,
        0 <= n,
        contents_key(a, m) == contents_key(b, n),
    ensures
        a == b,
        m == n,
{
    let (x, y) = (crate::volumes::decimal(m), crate::volumes::decimal(n));
    let (p, q) = (contents_key(a, m), contents_key(b, n));
    reveal_strlit(":");
    assert(p.len() == a.len() + 1 + x.len());
    assert(q.len() == b.len() + 1 + y.len());
    if x.len() < y.len() {
        assert(p[a.len() as int] == ':');
        assert(q[a.len() as int] == y[a.len() - b.len() - 1]);
        lemma_digits(n, a.len() - b.len() - 1);
    } else if y.len() < x.len() {
        assert(q[b.len() as int] == ':');
        assert(p[b.len() as int] == x[b.len() - a.len() - 1]);
        lemma_digits(m, b.len() - a.len() - 1);
    }
    assert(a.len() == b.len());
    assert(a =~= p.take(a.len() as int));
    assert(b =~= q.take(b.len() as int));
    assert(x =~= p.skip(a.len() as int + 1));
    assert(y =~= q.skip(b.len() as int + 1));
    lemma_decimal(m, n);
}

impl Twins {
    pub open spec fn wf(&self) -> bool {
        self.index.wf() && self.index@.len() == self.places@.len()
    }

    /// The place of each contents that has been packed.
    pub open spec fn place(&self, hash: Seq<char>, size: int) -> Option<usize> {
        let key = contents_key(hash, size);
        if self.index@.contains(key) {
            Some(self.places@[self.index@.index_of(key)])
        } else {
            None
        }
    }

    pub fn new() -> (t: Self)
        ensures
            t.wf(),
            t.places@.len() == 0,
            forall|h: Seq<char>, n: int| #[trigger] t.place(h, n) is None,
    {
        let t = Twins { index: Index::new(), places: Vec::new() };
        assert forall|h: Seq<char>, n: int| #[trigger] t.place(h, n) is None by {
            assert(!t.index@.contains(contents_key(h, n)));
        }
        t
    }

    fn key(hash: &str, size: u64) -> (s: String)
        ensures
            s@ == contents_key(hash@, size as int),
    {
        let mut s = hash.to_owned();
        s.append(":");
        s.append(&write_decimal(size));
        s
    }

    /// Finds a file with the same contents.
    pub fn find(&self, hash: &str, size: u64) -> (r: Option<usize>)
        requires
            self.wf(),
        ensures
            r == self.place(hash@, size as int),
    {
        let key = Twins::key(hash, size);
        match self.index.find(&key) {
            None => None,
            Some(i) => {
                proof {
                    let all = self.index@;
                    assert(all.contains(key@));
                    let n = all.index_of(key@);
                    assert(all[n] == key@ && all[i as int] == key@);
                }
                Some(self.places[i])
            },
        }
    }

    /// Remembers where a file stands.
    pub fn add_file(&mut self, hash: &str, size: u64, at: usize)
        requires
            old(self).wf(),
            old(self).place(hash@, size as int) is None,
        ensures
            final(self).wf(),
            final(self).place(hash@, size as int) == Some(at),
            final(self).index@ == old(self).index@.push(contents_key(hash@, size as int)),
            final(self).places@ == old(self).places@.push(at),
    {
        let key = Twins::key(hash, size);
        let ghost before = self.index@;
        self.index.push(key);
        self.places.push(at);
        proof {
            let all = self.index@;
            let last = before.len() as int;
            assert(all[last] == key@);
            assert(all.contains(key@));
            let n = all.index_of(key@);
            assert(all[n] == key@);
            assert(n == last);
        }
    }
}

/// What a record needs to be read: the file that has to be restored before, and the film whose
/// pictures it is predicted from.
pub open spec fn needs(files: Seq<Entry>, i: int, pool: bool) -> Outcome<(Option<usize>, Option<usize>)> {
    if files[i].method == Method::MovSource && pool {
        if i > 0 && files[i - 1].method == Method::MovSource {
            Ok((Some((i - 1) as usize), Some((i - 1) as usize)))
        } else {
            Err("error.invalid_archive"@)
        }
    } else {
        Ok((files[i].reference, None))
    }
}

/// Finds out what a record needs to be read, where `pool` says whether it refers to the film before.
pub fn record_needs(files: &[Entry], i: usize, pool: bool) -> (r: Result<(Option<usize>, Option<usize>), String>)
    requires
        i < files@.len(),
    ensures
        match r {
            Ok(n) => needs(files@, i as int, pool) == Ok::<(Option<usize>, Option<usize>), Seq<char>>(n),
            Err(e) => needs(files@, i as int, pool) == Err::<(Option<usize>, Option<usize>), Seq<char>>(e@),
        },
{
    if files[i].method == Method::MovSource && pool {
        if i > 0 && files[i - 1].method == Method::MovSource {
            Ok((Some(i - 1), Some(i - 1)))
        } else {
            Err(fail("error.invalid_archive"))
        }
    } else {
        Ok((files[i].reference, None))
    }
}

/// Why a restored file is not the one that was packed, if it is not.
pub open spec fn restored_well(e: Entry, raw: Seq<u8>) -> Outcome<()> {
    if raw.len() != e.size {
        Err(crate::locale::coded_message("error.reconstruction_length"@, seq![e.name@]))
    } else if crate::manifest::hex(crate::compression::checksum(raw)) != e.hash@ {
        Err(crate::locale::coded_message("error.file_checksum"@, seq![e.name@]))
    } else {
        Ok(())
    }
}

/// Checks a restored file against its entry.
pub fn check_restored(e: &Entry, raw: &[u8]) -> (r: Result<(), String>)
    ensures
        crate::scan::unit_of(r) == restored_well(*e, raw@),
{
    if raw.len() as u64 != e.size {
        return Err(message_with("error.reconstruction_length", e.name.clone()));
    }
    if !same_text(&crate::manifest::hash_text(raw), &e.hash) {
        return Err(message_with("error.file_checksum", e.name.clone()));
    }
    Ok(())
}

}
