//! The outer form of a record of pictures and errors: a number of frames, and sections.

use crate::compression::stream;
use crate::wire::{fail, put_le, read_le32, read_le64, same, Outcome};
use vstd::prelude::*;

verus! {

pub const MAGIC: [u8; 8] = [83, 80, 77, 83, 0, 0, 0, 2];

/// The most frames of a record.
pub const MAX_FRAMES: usize = 0x10_0000;

/// The longest movie.
pub const MAX_OUTPUT: usize = 0x2000_0000;

/// A section: its length, and its bytes.
pub open spec fn section(data: Seq<u8>) -> Seq<u8> {
    crate::wire::le_bytes(data.len() as int, 8) + data
}

/// The section that starts at `at`, and where it ends.
pub open spec fn section_at(data: Seq<u8>, at: int) -> Outcome<(Seq<u8>, int)> {
    if at + 8 > data.len() {
        Err("truncated source record"@)
    } else {
        let len = crate::wire::le64(data, at);
        if at + 8 + len > usize::MAX {
            Err("invalid source record"@)
        } else if at + 8 + len > data.len() {
            Err("truncated source record"@)
        } else {
            Ok((data.subrange(at + 8, at + 8 + len), at + 8 + len))
        }
    }
}

/// A section is read as it was written, whatever stands around it.
pub proof fn law_sections_come_back(before: Seq<u8>, data: Seq<u8>, after: Seq<u8>)
    requires
        before.len() + section(data).len() + after.len() <= usize::MAX,
    ensures
        section_at(before + section(data) + after, before.len() as int) == Ok::<(Seq<u8>, int), Seq<char>>(
            (data, (before.len() + section(data).len()) as int),
        ),
{
    let all = before + section(data) + after;
    let at = before.len() as int;
    reveal_with_fuel(crate::wire::le_bytes, 9);
    let head = crate::wire::le_bytes(data.len() as int, 8);
    assert(head.len() == 8);
    assert(data.len() <= u64::MAX);
    crate::wire::law_le64(data.len() as u64);
    assert forall|i: int| 0 <= i < 8 implies all[at + i] == head[i] by {}
    assert(crate::wire::le64(all, at) == crate::wire::le64(head, 0));
    assert(all.subrange(at + 8, at + 8 + data.len()) =~= data);
}

/// Appends a section.
pub fn put_section(out: &mut Vec<u8>, data: &[u8])
    ensures
        final(out)@ == old(out)@ + section(data@),
{
    let ghost before = out@;
    put_le(data.len() as u64, 8, out);
    out.extend_from_slice(data);
    assert(out@ =~= before + section(data@));
}

/// Reads a section.
pub fn get_section<'a>(data: &'a [u8], at: &mut usize) -> (r: Result<&'a [u8], String>)
    requires
        *old(at) <= data.len(),
    ensures
        match r {
            Ok(s) => section_at(data@, *old(at) as int) == Ok::<(Seq<u8>, int), Seq<char>>(
                (s@, *final(at) as int),
            ) && *final(at) <= data.len(),
            Err(e) => section_at(data@, *old(at) as int) == Err::<(Seq<u8>, int), Seq<char>>(e@),
        },
{
    let from: usize = *at;
    if data.len() - from < 8 {
        return Err(fail("truncated source record"));
    }
    let len: u64 = read_le64(data, from);
    if len > (usize::MAX - (from + 8)) as u64 {
        return Err(fail("invalid source record"));
    }
    let n: usize = len as usize;
    if n > data.len() - from - 8 {
        return Err(fail("truncated source record"));
    }
    *at = from + 8 + n;
    Ok(&data[from + 8..from + 8 + n])
}

/// The number of frames of a record.
pub open spec fn count_of(data: Seq<u8>) -> Outcome<int> {
    if data.len() < 8 || data.take(8) != MAGIC@ {
        Err("invalid source record"@)
    } else if data.len() < 12 {
        Err("truncated source record"@)
    } else if crate::wire::le32(data, 8) == 0 || crate::wire::le32(data, 8) > MAX_FRAMES {
        Err("invalid source record"@)
    } else {
        Ok(crate::wire::le32(data, 8))
    }
}

/// Reads the number of frames of a record.
pub(crate) fn read_count(data: &[u8]) -> (r: Result<usize, String>)
    ensures
        match r {
            Ok(n) => count_of(data@) == Ok::<int, Seq<char>>(n as int) && 1 <= n <= MAX_FRAMES && data.len()
                >= 12,
            Err(e) => count_of(data@) == Err::<int, Seq<char>>(e@),
        },
{
    assert(data@.len() >= 8 ==> data@.subrange(0, 8) =~= data@.take(8));
    if data.len() < 8 || !same(&data[0..8], &MAGIC) {
        return Err(fail("invalid source record"));
    }
    if data.len() < 12 {
        return Err(fail("truncated source record"));
    }
    let n: usize = read_le32(data, 8) as usize;
    if n == 0 || n > MAX_FRAMES {
        return Err(fail("invalid source record"));
    }
    Ok(n)
}

/// Section number `k` of a record, and where it ends.
pub open spec fn part_at(data: Seq<u8>, k: int) -> Outcome<(Seq<u8>, int)>
    decreases k,
{
    if k <= 0 {
        section_at(data, 12)
    } else {
        match part_at(data, k - 1) {
            Err(e) => Err(e),
            Ok((_, at)) => section_at(data, at),
        }
    }
}

/// The most bytes that section number `k` of a record of `n` frames may hold.
pub open spec fn room(n: int, k: int) -> int {
    if k == 1 {
        n * 12
    } else if k == 2 {
        n * 4096
    } else if k == 4 {
        n * 5
    } else {
        MAX_OUTPUT as int
    }
}

/// What reading a section yielded, if it is not too long.
pub open spec fn fitted(read: Outcome<Seq<u8>>, limit: int) -> Outcome<Seq<u8>> {
    match read {
        Err(e) => Err(e),
        Ok(b) => if b.len() > limit {
            Err("source record section too large"@)
        } else {
            Ok(b)
        },
    }
}

/// Takes what reading a section yielded, if it holds at most `limit` bytes.
pub fn check_section(read: Result<Vec<u8>, String>, limit: u64) -> (r: Result<Vec<u8>, String>)
    ensures
        crate::wire::bytes_of(r) == fitted(crate::wire::bytes_of(read), limit as int),
        r matches Ok(v) ==> v@.len() <= limit,
{
    let out = read?;
    if out.len() as u64 > limit {
        return Err(fail("source record section too large"));
    }
    Ok(out)
}

/// Reads a compressed section that may hold at most `limit` bytes.
pub(crate) fn unzstd(data: &[u8], limit: u64) -> (r: Result<Vec<u8>, String>)
    requires
        limit <= 0x1_0000_0000,
    ensures
        crate::wire::bytes_of(r) == fitted(crate::compression::streamed(data@, limit + 1), limit as int),
        r matches Ok(v) ==> v@.len() <= limit,
{
    check_section(stream(data, limit + 1), limit)
}

/// What the first `k` sections of a record hold, all of them compressed.
pub open spec fn opened(data: Seq<u8>, n: int, k: int) -> Outcome<Seq<Seq<u8>>>
    decreases k,
{
    if k <= 0 {
        Ok(Seq::empty())
    } else {
        match opened(data, n, k - 1) {
            Err(e) => Err(e),
            Ok(done) => match part_at(data, k - 1) {
                Err(e) => Err(e),
                Ok((s, _)) => match fitted(
                    crate::compression::streamed(s, room(n, k - 1) + 1),
                    room(n, k - 1),
                ) {
                    Err(e) => Err(e),
                    Ok(b) => Ok(done.push(b)),
                },
            },
        }
    }
}

proof fn lemma_opened_fails(data: Seq<u8>, n: int, k: int, m: int)
    requires
        0 <= k <= m,
        opened(data, n, k) is Err,
    ensures
        opened(data, n, m) == opened(data, n, k),
    decreases m - k,
{
    if k < m {
        lemma_opened_fails(data, n, k + 1, m);
    }
}

/// Reads the compressed sections of a record, and finds where they end.
pub(crate) fn open_parts(data: &[u8], n: usize) -> (r: Result<(Vec<Vec<u8>>, usize), String>)
    requires
        1 <= n <= MAX_FRAMES,
        data.len() >= 12,
    ensures
        match r {
            Ok((v, at)) => opened(data@, n as int, 5) == Ok::<Seq<Seq<u8>>, Seq<char>>(
                crate::prores_bits::each(v@),
            ) && (part_at(data@, 4) matches Ok((_, end)) && end == at),
            Err(e) => opened(data@, n as int, 5) == Err::<Seq<Seq<u8>>, Seq<char>>(e@),
        },
        r matches Ok((v, at)) ==> v@.len() == 5 && at <= data.len() && forall|k: int|
            0 <= k < 5 ==> (#[trigger] v@[k])@.len() <= room(n as int, k),
{
    let mut parts: Vec<Vec<u8>> = Vec::new();
    let mut at: usize = 12;
    let mut k: usize = 0;
    assert(crate::prores_bits::each(parts@) =~= Seq::empty());
    while k < 5
        invariant
            k <= 5,
            1 <= n <= MAX_FRAMES,
            parts@.len() == k,
            at <= data.len(),
            k == 0 ==> at == 12,
            k > 0 ==> (part_at(data@, k - 1) matches Ok((_, end)) && end == at),
            forall|j: int| 0 <= j < k ==> (#[trigger] parts@[j])@.len() <= room(n as int, j),
            opened(data@, n as int, k as int) == Ok::<Seq<Seq<u8>>, Seq<char>>(
                crate::prores_bits::each(parts@),
            ),
        decreases 5 - k,
    {
        let ghost done = crate::prores_bits::each(parts@);
        let limit: u64 = if k == 1 {
            n as u64 * 12
        } else if k == 2 {
            n as u64 * 4096
        } else if k == 4 {
            n as u64 * 5
        } else {
            MAX_OUTPUT as u64
        };
        let got = get_section(data, &mut at);
        proof {
            if got is Err {
                lemma_opened_fails(data@, n as int, k + 1, 5);
            }
        }
        let s = got?;
        let x = unzstd(s, limit);
        proof {
            if x is Err {
                lemma_opened_fails(data@, n as int, k + 1, 5);
            }
        }
        let b = x?;
        parts.push(b);
        assert(crate::prores_bits::each(parts@) =~= done.push(b@));
        k += 1;
    }
    Ok((parts, at))
}

/// The bytes of a record that name kept frames.
pub open spec fn names_in(data: Seq<u8>) -> Outcome<Seq<u8>> {
    match count_of(data) {
        Err(e) => Err(e),
        Ok(n) => match part_at(data, 4) {
            Err(e) => Err(e),
            Ok((s, _)) => fitted(crate::compression::streamed(s, room(n, 4) + 1), room(n, 4)),
        },
    }
}

/// Whether a record names kept frames.
pub open spec fn named(data: Seq<u8>) -> Outcome<bool> {
    match names_in(data) {
        Err(e) => Err(e),
        Ok(b) => Ok(exists|i: int| 0 <= i < b.len() && #[trigger] b[i] != 0),
    }
}

/// Tells whether a record names kept frames.
pub fn uses_pool(data: &[u8]) -> (r: Result<bool, String>)
    ensures
        match r {
            Ok(b) => named(data@) == Ok::<bool, Seq<char>>(b),
            Err(e) => named(data@) == Err::<bool, Seq<char>>(e@),
        },
{
    let n = read_count(data)?;
    let mut at: usize = 12;
    proof {
        reveal_with_fuel(part_at, 6);
    }
    get_section(data, &mut at)?;
    get_section(data, &mut at)?;
    get_section(data, &mut at)?;
    get_section(data, &mut at)?;
    let s = get_section(data, &mut at)?;
    let x = unzstd(s, n as u64 * 5);
    let refs = x?;
    let mut i: usize = 0;
    while i < refs.len()
        invariant
            i <= refs.len(),
            forall|k: int| 0 <= k < i ==> #[trigger] refs@[k] == 0,
            named(data@) == Ok::<bool, Seq<char>>(
                exists|i: int| 0 <= i < refs@.len() && #[trigger] refs@[i] != 0,
            ),
        decreases refs.len() - i,
    {
        if refs[i] > 0 {
            return Ok(true);
        }
        i += 1;
    }
    Ok(false)
}

}
