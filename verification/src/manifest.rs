//! The table of contents of an archive, and what it has to meet.

use crate::companions::TRANSFORM_LIMIT;
use crate::compression::hash;
use crate::index::Index;
use crate::paths::{extension, safe_rel_path};
use crate::text::{find_from, letters, same_text, text, to_lower};
use crate::wire::{fail, put_le, Outcome};
use vstd::prelude::*;
use vstd::string::*;

verus! {

/// The longest record of a file that is not stored as it is.
pub const MAX_RECORD: u64 = 0x2000_0000;

/// The most files that an archive can hold.
pub const MAX_FILES: usize = 1_000_000;

/// How a file is stored.
#[derive(Clone, Copy, Debug, PartialEq, Eq, Structural)]
pub enum Method {
    Raw,
    GifExact,
    GifModel,
    GifPredict,
    MovExact,
    MovModel,
    MovShared,
    MovMotion,
    MovSource,
    Duplicate,
}

impl Method {
    /// The name of a method.
    pub open spec fn word(self) -> Seq<char> {
        match self {
            Method::Raw => "raw"@,
            Method::GifExact => "gif-exact"@,
            Method::GifModel => "gif-model"@,
            Method::GifPredict => "gif-predict"@,
            Method::MovExact => "mov-exact"@,
            Method::MovModel => "mov-model"@,
            Method::MovShared => "mov-shared"@,
            Method::MovMotion => "mov-motion"@,
            Method::MovSource => "mov-source"@,
            Method::Duplicate => "duplicate"@,
        }
    }

    /// The name of a method.
    pub fn name(self) -> (s: String)
        ensures
            s@ == self.word(),
    {
        match self {
            Method::Raw => "raw".to_owned(),
            Method::GifExact => "gif-exact".to_owned(),
            Method::GifModel => "gif-model".to_owned(),
            Method::GifPredict => "gif-predict".to_owned(),
            Method::MovExact => "mov-exact".to_owned(),
            Method::MovModel => "mov-model".to_owned(),
            Method::MovShared => "mov-shared".to_owned(),
            Method::MovMotion => "mov-motion".to_owned(),
            Method::MovSource => "mov-source".to_owned(),
            Method::Duplicate => "duplicate".to_owned(),
        }
    }
}

/// A file in an archive: its name, how it is stored, how long it and its record are, its checksum,
/// and the file that it is restored from, if there is one.
#[derive(Clone, Debug)]
pub struct Entry {
    pub name: String,
    pub method: Method,
    pub size: u64,
    pub stored: u64,
    pub hash: String,
    pub reference: Option<usize>,
}

/// The table of contents of an archive.
#[derive(Clone, Debug)]
pub struct Manifest {
    pub version: u32,
    pub dir_name: String,
    pub src_bytes: u64,
    pub source_hash: String,
    pub preset: String,
    pub files: Vec<Entry>,
}

/// A number below sixteen as a hexadecimal digit.
pub open spec fn hex_digit(n: int) -> char {
    if n < 10 {
        (48 + n) as char
    } else {
        (87 + n) as char
    }
}

/// Bytes in hexadecimal digits.
pub open spec fn hex(b: Seq<u8>) -> Seq<char>
    decreases b.len(),
{
    if b.len() == 0 {
        Seq::empty()
    } else {
        hex(b.drop_last()).push(hex_digit(b.last() as int / 16)).push(hex_digit(b.last() as int % 16))
    }
}

fn digit(n: u8) -> (c: char)
    requires
        n < 16,
    ensures
        c == hex_digit(n as int),
{
    if n < 10 {
        (48 + n) as char
    } else {
        (87 + n) as char
    }
}

/// Writes bytes in hexadecimal digits.
pub fn to_hex(b: &[u8]) -> (s: String)
    ensures
        s@ == hex(b@),
{
    let mut s = String::new();
    let mut i: usize = 0;
    assert(b@.take(0) =~= Seq::empty());
    while i < b.len()
        invariant
            i <= b.len(),
            s@ == hex(b@.take(i as int)),
        decreases b.len() - i,
    {
        assert(b@.take(i + 1).drop_last() =~= b@.take(i as int));
        s.push(digit(b[i] / 16));
        s.push(digit(b[i] % 16));
        i += 1;
    }
    assert(b@.take(i as int) =~= b@);
    s
}

/// The checksum of a file, in hexadecimal digits.
pub fn hash_text(data: &[u8]) -> (s: String)
    ensures
        s@ == hex(crate::compression::checksum(data@)),
{
    to_hex(&hash(data))
}

/// What the checksum of a table of contents is taken of: the names, lengths and checksums of the
/// first `n` files.
pub open spec fn listing(files: Seq<Entry>, n: int) -> Seq<u8>
    decreases n,
{
    if n <= 0 {
        Seq::empty()
    } else {
        let e = files[n - 1];
        let name = vstd::utf8::encode_utf8(e.name@);
        listing(files, n - 1) + crate::wire::le_bytes(name.len() as int, 8) + name
            + crate::wire::le_bytes(e.size as int, 8) + vstd::utf8::encode_utf8(e.hash@)
    }
}

/// The checksum of the files of an archive.
pub open spec fn listing_hash(files: Seq<Entry>) -> Seq<char> {
    hex(crate::compression::checksum(listing(files, files.len() as int)))
}

/// The checksum of the files of an archive.
pub fn source_hash(entries: &[Entry]) -> (s: String)
    ensures
        s@ == listing_hash(entries@),
{
    let mut bytes: Vec<u8> = Vec::new();
    let mut i: usize = 0;
    while i < entries.len()
        invariant
            i <= entries.len(),
            bytes@ == listing(entries@, i as int),
        decreases entries.len() - i,
    {
        let e = &entries[i];
        let name = e.name.as_str().as_bytes();
        put_le(name.len() as u64, 8, &mut bytes);
        bytes.extend_from_slice(name);
        put_le(e.size, 8, &mut bytes);
        bytes.extend_from_slice(e.hash.as_str().as_bytes());
        i += 1;
        assert(bytes@ =~= listing(entries@, i as int));
    }
    to_hex(&hash(&bytes))
}

pub open spec fn entry_names(files: Seq<Entry>) -> Seq<Seq<char>> {
    files.map_values(|e: Entry| e.name@)
}

pub open spec fn is_hex(c: char) -> bool {
    '0' <= c <= '9' || 'a' <= c <= 'f' || 'A' <= c <= 'F'
}

/// Whether a text is a checksum.
pub open spec fn checksum_text(s: Seq<char>) -> bool {
    s.len() == 64 && forall|i: int| 0 <= i < 64 ==> is_hex(#[trigger] s[i])
}

/// Whether a file is stored in a way that it can be stored in.
pub open spec fn stored_well(files: Seq<Entry>, i: int) -> Outcome<()> {
    let e = files[i];
    match e.method {
        Method::Duplicate => match e.reference {
            Some(r) if r < i => if e.stored != 0 || files[r as int].hash@ != e.hash@
                || files[r as int].size != e.size {
                Err("error.duplicate_mismatch"@)
            } else {
                Ok(())
            },
            _ => Err("error.invalid_duplicate_reference"@),
        },
        Method::Raw => if e.stored != e.size || e.reference is Some {
            Err("error.raw_length_mismatch"@)
        } else {
            Ok(())
        },
        Method::GifPredict => match e.reference {
            Some(r) if r < i => if crate::paths::extension_of(e.name@) != "gif"@
                || crate::paths::extension_of(files[r as int].name@) != "mov"@ || files[r as int].size
                > TRANSFORM_LIMIT || e.stored > MAX_RECORD || e.size > TRANSFORM_LIMIT {
                Err("error.invalid_gif_record"@)
            } else {
                Ok(())
            },
            _ => Err("error.invalid_gif_reference"@),
        },
        _ => if e.stored > MAX_RECORD || e.size > TRANSFORM_LIMIT || e.reference is Some {
            Err("error.record_limit"@)
        } else {
            Ok(())
        },
    }
}

/// What the files from number `i` on have to meet, where those before are `bytes` long. The result
/// is how long all are.
pub open spec fn entries_from(files: Seq<Entry>, i: int, bytes: int) -> Outcome<int>
    decreases files.len() - i,
{
    if i >= files.len() {
        Ok(bytes)
    } else {
        let e = files[i];
        let names = entry_names(files);
        match crate::paths::checked(e.name@) {
            Err(f) => Err(f),
            Ok(_) => if crate::scan::folded(names).take(i).contains(crate::text::lowercase(e.name@)) {
                Err("error.duplicate_manifest_path"@)
            } else if !checksum_text(e.hash@) {
                Err("error.invalid_file_hash"@)
            } else if bytes + e.size > u64::MAX {
                Err("error.file_size_overflow"@)
            } else {
                match stored_well(files, i) {
                    Err(f) => Err(f),
                    Ok(_) => entries_from(files, i + 1, bytes + e.size),
                }
            },
        }
    }
}

/// Whether a folder of one name is another name.
pub open spec fn tangled(names: Seq<Seq<char>>) -> bool {
    exists|i: int, p: int|
        0 <= i < names.len() && 0 <= p < names[i].len() && #[trigger] names[i][p] == '/' && names.contains(
            names[i].take(p),
        )
}

/// What a table of contents has to meet.
pub open spec fn manifest_checked(m: Manifest) -> Outcome<()> {
    let files = m.files@;
    if m.version != 2 || files.len() == 0 || files.len() > MAX_FILES {
        Err("error.invalid_archive"@)
    } else {
        match crate::paths::checked(m.dir_name@) {
            Err(e) => Err(e),
            Ok(dir) => if crate::text::find(dir, '/', 0) < dir.len() {
                Err("error.invalid_output_name"@)
            } else {
                match entries_from(files, 0, 0) {
                    Err(e) => Err(e),
                    Ok(bytes) => if tangled(crate::scan::folded(entry_names(files))) {
                        Err("error.path_conflict"@)
                    } else if bytes != m.src_bytes || listing_hash(files) != m.source_hash@ {
                        Err("error.source_manifest_checksum"@)
                    } else {
                        Ok(())
                    },
                }
            },
        }
    }
}

/// How long the first `n` files are together.
pub open spec fn size_sum(files: Seq<Entry>, n: int) -> int
    decreases n,
{
    if n <= 0 {
        0
    } else {
        size_sum(files, n - 1) + files[n - 1].size
    }
}

proof fn lemma_sum(files: Seq<Entry>, i: int, bytes: int)
    requires
        0 <= i <= files.len(),
        bytes == size_sum(files, i),
    ensures
        entries_from(files, i, bytes) matches Ok(all) ==> all == size_sum(files, files.len() as int),
    decreases files.len() - i,
{
    if i < files.len() {
        lemma_sum(files, i + 1, bytes + files[i].size);
    }
}

/// A table of contents that meets what it has to says how long all files are together.
pub proof fn law_contents_add_up(m: Manifest)
    requires
        manifest_checked(m) is Ok,
    ensures
        m.src_bytes == size_sum(m.files@, m.files@.len() as int),
{
    lemma_sum(m.files@, 0, 0);
}

fn is_checksum(s: &str) -> (r: bool)
    ensures
        r == checksum_text(s@),
{
    let v = letters(s);
    if v.len() != 64 {
        return false;
    }
    let mut i: usize = 0;
    while i < 64
        invariant
            i <= 64,
            v@ == s@,
            v@.len() == 64,
            forall|k: int| 0 <= k < i ==> is_hex(#[trigger] v@[k]),
        decreases 64 - i,
    {
        let c = v[i];
        if !(('0' <= c && c <= '9') || ('a' <= c && c <= 'f') || ('A' <= c && c <= 'F')) {
            return false;
        }
        i += 1;
    }
    true
}

fn check_stored(files: &[Entry], i: usize) -> (r: Result<(), String>)
    requires
        i < files@.len(),
    ensures
        crate::scan::unit_of(r) == stored_well(files@, i as int),
{
    let e = &files[i];
    match e.method {
        Method::Duplicate => match e.reference {
            Some(r) if r < i => {
                if e.stored != 0 || !same_text(&files[r].hash, &e.hash) || files[r].size != e.size {
                    return Err(fail("error.duplicate_mismatch"));
                }
                Ok(())
            },
            _ => Err(fail("error.invalid_duplicate_reference")),
        },
        Method::Raw => {
            if e.stored != e.size || e.reference.is_some() {
                return Err(fail("error.raw_length_mismatch"));
            }
            Ok(())
        },
        Method::GifPredict => match e.reference {
            Some(r) if r < i => {
                if !same_text(&extension(&e.name), "gif") || !same_text(
                    &extension(&files[r].name),
                    "mov",
                ) || files[r].size > TRANSFORM_LIMIT || e.stored > MAX_RECORD || e.size
                    > TRANSFORM_LIMIT {
                    return Err(fail("error.invalid_gif_record"));
                }
                Ok(())
            },
            _ => Err(fail("error.invalid_gif_reference")),
        },
        _ => {
            if e.stored > MAX_RECORD || e.size > TRANSFORM_LIMIT || e.reference.is_some() {
                return Err(fail("error.record_limit"));
            }
            Ok(())
        },
    }
}

fn check_entries(files: &[Entry]) -> (r: Result<(u64, Index), String>)
    ensures
        match r {
            Ok((bytes, names)) => entries_from(files@, 0, 0) == Ok::<int, Seq<char>>(bytes as int)
                && names.wf() && names@ == crate::scan::folded(entry_names(files@)),
            Err(e) => entries_from(files@, 0, 0) == Err::<int, Seq<char>>(e@),
        },
{
    let ghost all = crate::scan::folded(entry_names(files@));
    let ghost whole = entries_from(files@, 0, 0);
    let mut names = Index::new();
    let mut bytes: u64 = 0;
    assert(names@ =~= all.take(0));
    let mut i: usize = 0;
    while i < files.len()
        invariant
            i <= files.len(),
            all == crate::scan::folded(entry_names(files@)),
            names.wf(),
            names@ == all.take(i as int),
            whole == entries_from(files@, 0, 0),
            whole == entries_from(files@, i as int, bytes as int),
        decreases files.len() - i,
    {
        match safe_rel_path(&files[i].name) {
            Err(e) => {
                return Err(e);
            },
            Ok(_) => {},
        }
        let key = to_lower(&files[i].name);
        match names.find(&key) {
            Some(k) => {
                assert(names@.contains(key@));
                return Err(fail("error.duplicate_manifest_path"));
            },
            None => {},
        }
        if !is_checksum(&files[i].hash) {
            return Err(fail("error.invalid_file_hash"));
        }
        let next: u64 = match bytes.checked_add(files[i].size) {
            None => {
                return Err(fail("error.file_size_overflow"));
            },
            Some(n) => n,
        };
        match check_stored(files, i) {
            Err(e) => {
                return Err(e);
            },
            Ok(_) => {},
        }
        names.push(key);
        bytes = next;
        i += 1;
        assert(names@ =~= all.take(i as int));
    }
    assert(all.take(i as int) =~= all);
    Ok((bytes, names))
}

fn is_tangled(names: &Index) -> (r: bool)
    requires
        names.wf(),
    ensures
        r == tangled(names@),
{
    let ghost all = names@;
    let mut i: usize = 0;
    while i < names.keys.len()
        invariant
            i <= names.keys.len(),
            names.wf(),
            all == names@,
            forall|k: int, p: int|
                0 <= k < i && 0 <= p < all[k].len() && #[trigger] all[k][p] == '/' ==> !all.contains(
                    all[k].take(p),
                ),
        decreases names.keys.len() - i,
    {
        let v = letters(&names.keys[i]);
        assert(v@ == all[i as int]);
        let mut p: usize = 0;
        while p < v.len()
            invariant
                p <= v.len(),
                i < names.keys.len(),
                names.wf(),
                all == names@,
                v@ == all[i as int],
                forall|q: int|
                    0 <= q < p && #[trigger] all[i as int][q] == '/' ==> !all.contains(
                        all[i as int].take(q),
                    ),
            decreases v.len() - p,
        {
            if v[p] == '/' {
                assert(v@.subrange(0, p as int) =~= v@.take(p as int));
                match names.find(&text(&v.as_slice()[0..p])) {
                    Some(k) => {
                        proof {
                            assert(all[k as int] == v@.take(p as int));
                            assert(all.contains(all[i as int].take(p as int)));
                            assert(all[i as int][p as int] == '/');
                        }
                        return true;
                    },
                    None => {},
                }
            }
            p += 1;
        }
        i += 1;
    }
    false
}

/// Checks a table of contents.
pub fn validate_manifest(m: &Manifest) -> (r: Result<(), String>)
    ensures
        crate::scan::unit_of(r) == manifest_checked(*m),
{
    if m.version != 2 || m.files.len() == 0 || m.files.len() > MAX_FILES {
        return Err(fail("error.invalid_archive"));
    }
    let dir = match safe_rel_path(&m.dir_name) {
        Err(e) => {
            return Err(e);
        },
        Ok(dir) => letters(&dir),
    };
    if find_from(&dir, '/', 0) < dir.len() {
        return Err(fail("error.invalid_output_name"));
    }
    let (bytes, names) = match check_entries(&m.files) {
        Err(e) => {
            return Err(e);
        },
        Ok(found) => found,
    };
    if is_tangled(&names) {
        return Err(fail("error.path_conflict"));
    }
    if bytes != m.src_bytes || !same_text(&source_hash(&m.files), &m.source_hash) {
        return Err(fail("error.source_manifest_checksum"));
    }
    Ok(())
}

proof fn lemma_entries(files: Seq<Entry>, i: int, bytes: int, k: int)
    requires
        0 <= i <= k < files.len(),
        entries_from(files, i, bytes) is Ok,
    ensures
        crate::paths::safe(files[k].name@),
        !crate::scan::folded(entry_names(files)).take(k).contains(
            crate::text::lowercase(files[k].name@),
        ),
        stored_well(files, k) is Ok,
    decreases k - i,
{
    if i < k {
        lemma_entries(files, i + 1, bytes + files[i].size, k);
    }
}

/// Where a table of contents meets what it has to, every file has a safe name, no two names are the
/// same but for case, and a file is only restored from one before it.
pub proof fn law_valid_manifests_are_safe(m: Manifest)
    requires
        manifest_checked(m) is Ok,
    ensures
        crate::paths::safe(m.dir_name@),
        forall|k: int| 0 <= k < m.files@.len() ==> crate::paths::safe((#[trigger] m.files@[k]).name@),
        forall|k: int|
            0 <= k < m.files@.len() ==> ((#[trigger] m.files@[k]).reference matches Some(r) ==> r < k),
        forall|j: int, k: int|
            0 <= j < k < m.files@.len() ==> crate::text::lowercase((#[trigger] m.files@[j]).name@)
                != crate::text::lowercase((#[trigger] m.files@[k]).name@),
{
    let files = m.files@;
    assert forall|k: int| 0 <= k < files.len() implies crate::paths::safe((#[trigger] files[k]).name@) && (
    files[k].reference matches Some(r) ==> r < k) by {
        lemma_entries(files, 0, 0, k);
    }
    assert forall|j: int, k: int| 0 <= j < k < files.len() implies crate::text::lowercase(
        (#[trigger] files[j]).name@,
    ) != crate::text::lowercase((#[trigger] files[k]).name@) by {
        lemma_entries(files, 0, 0, k);
        let f = crate::scan::folded(entry_names(files)).take(k);
        assert(f[j] == crate::text::lowercase(files[j].name@));
        assert(f.contains(f[j]));
    }
}

}
