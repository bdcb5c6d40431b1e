//! Eight streams in one: their lengths, then the streams.

use crate::wire::{fail, put_le, read_le32, Outcome};
use vstd::prelude::*;

verus! {

/// How many streams are kept together.
pub const STREAMS: usize = 8;

/// The lengths of the first `n` streams.
pub open spec fn sizes(parts: Seq<Seq<u8>>, n: int) -> Seq<u8>
    decreases n,
{
    if n <= 0 {
        Seq::empty()
    } else {
        sizes(parts, n - 1) + crate::wire::le_bytes(parts[n - 1].len() as int, 4)
    }
}

/// Streams with their lengths before them.
pub open spec fn bundled(parts: Seq<Seq<u8>>) -> Seq<u8> {
    let n = parts.len() as int;
    sizes(parts, n) + crate::prores_bits::joined(parts, n)
}

/// Takes the streams from number `b` on, which starts at `at`, out of a bundle.
pub open spec fn parts_from(
    data: Seq<u8>,
    short: Seq<char>,
    bad: Seq<char>,
    b: int,
    at: int,
    done: Seq<Seq<u8>>,
) -> Outcome<Seq<Seq<u8>>>
    decreases STREAMS - b,
{
    if b >= STREAMS {
        if at == data.len() {
            Ok(done)
        } else {
            Err(bad)
        }
    } else if b * 4 + 4 > data.len() {
        Err(short)
    } else {
        let end = at + crate::wire::le32(data, b * 4);
        if end > usize::MAX {
            Err(bad)
        } else if end > data.len() {
            Err(short)
        } else {
            parts_from(data, short, bad, b + 1, end, done.push(data.subrange(at, end)))
        }
    }
}

/// The streams of a bundle, or the error `short` where it ends too early, or `bad` where it does not
/// end with the last stream.
pub open spec fn parted(data: Seq<u8>, short: Seq<char>, bad: Seq<char>) -> Outcome<Seq<Seq<u8>>> {
    parts_from(data, short, bad, 0, 4 * STREAMS, Seq::empty())
}

/// Puts streams into a bundle.
pub fn bundle(parts: &Vec<Vec<u8>>) -> (out: Vec<u8>)
    ensures
        out@ == bundled(crate::prores_bits::each(parts@)),
{
    let ghost all = crate::prores_bits::each(parts@);
    let mut out: Vec<u8> = Vec::new();
    let mut i: usize = 0;
    while i < parts.len()
        invariant
            i <= parts.len(),
            all == crate::prores_bits::each(parts@),
            out@ == sizes(all, i as int),
        decreases parts.len() - i,
    {
        assert(all[i as int] == parts@[i as int]@);
        put_le(parts[i].len() as u64, 4, &mut out);
        i += 1;
    }
    let ghost head = out@;
    let mut j: usize = 0;
    assert(out@ =~= head + crate::prores_bits::joined(all, 0));
    while j < parts.len()
        invariant
            j <= parts.len(),
            all == crate::prores_bits::each(parts@),
            out@ == head + crate::prores_bits::joined(all, j as int),
        decreases parts.len() - j,
    {
        out.extend_from_slice(parts[j].as_slice());
        j += 1;
        assert(out@ =~= head + crate::prores_bits::joined(all, j as int));
    }
    out
}

/// The sequences that slices hold.
pub open spec fn contents(v: Seq<&[u8]>) -> Seq<Seq<u8>> {
    Seq::new(v.len(), |i: int| v[i]@)
}

/// Takes the streams out of a bundle.
pub fn part<'a>(data: &'a [u8], short: &str, bad: &str) -> (r: Result<Vec<&'a [u8]>, String>)
    ensures
        match r {
            Ok(v) => parted(data@, short@, bad@) == Ok::<Seq<Seq<u8>>, Seq<char>>(contents(v@)) && v@.len()
                == STREAMS,
            Err(e) => parted(data@, short@, bad@) == Err::<Seq<Seq<u8>>, Seq<char>>(e@),
        },
{
    let ghost whole = parted(data@, short@, bad@);
    let mut out: Vec<&'a [u8]> = Vec::new();
    let mut at: usize = 4 * STREAMS;
    let mut b: usize = 0;
    assert(contents(out@) =~= Seq::empty());
    while b < STREAMS
        invariant
            b <= STREAMS,
            b == 0 || at <= data.len(),
            out@.len() == b,
            whole == parted(data@, short@, bad@),
            whole == parts_from(data@, short@, bad@, b as int, at as int, contents(out@)),
        decreases STREAMS - b,
    {
        if b * 4 + 4 > data.len() {
            return Err(fail(short));
        }
        let len = read_le32(data, b * 4) as usize;
        let end: usize = match at.checked_add(len) {
            None => {
                return Err(fail(bad));
            },
            Some(end) => end,
        };
        if end > data.len() {
            return Err(fail(short));
        }
        let ghost before = contents(out@);
        out.push(&data[at..end]);
        assert(contents(out@) =~= before.push(data@.subrange(at as int, end as int)));
        at = end;
        b += 1;
    }
    if at != data.len() {
        return Err(fail(bad));
    }
    Ok(out)
}

proof fn lemma_sizes(parts: Seq<Seq<u8>>, n: int)
    requires
        0 <= n,
    ensures
        sizes(parts, n).len() == 4 * n,
    decreases n,
{
    if n > 0 {
        lemma_sizes(parts, n - 1);
        reveal_with_fuel(crate::wire::le_bytes, 5);
    }
}

proof fn lemma_size_at(parts: Seq<Seq<u8>>, n: int, b: int)
    requires
        0 <= b < n,
        parts[b].len() < 0x1_0000_0000,
    ensures
        sizes(parts, n).len() == 4 * n,
        crate::wire::le32(sizes(parts, n), b * 4) == parts[b].len(),
    decreases n,
{
    lemma_sizes(parts, n);
    lemma_sizes(parts, n - 1);
    if b < n - 1 {
        lemma_size_at(parts, n - 1, b);
    } else {
        reveal_with_fuel(crate::wire::le_bytes, 5);
    }
}

proof fn lemma_joined(parts: Seq<Seq<u8>>, b: int, n: int)
    requires
        0 <= b < n,
    ensures
        ({
            let at = crate::prores_bits::joined(parts, b).len() as int;
            let all = crate::prores_bits::joined(parts, n);
            &&& at + parts[b].len() == crate::prores_bits::joined(parts, b + 1).len()
            &&& at + parts[b].len() <= all.len()
            &&& all.subrange(at, at + parts[b].len()) == parts[b]
        }),
    decreases n,
{
    let at = crate::prores_bits::joined(parts, b).len() as int;
    let all = crate::prores_bits::joined(parts, n);
    if b < n - 1 {
        lemma_joined(parts, b, n - 1);
        let less = crate::prores_bits::joined(parts, n - 1);
        assert(all.subrange(at, at + parts[b].len()) =~= less.subrange(at, at + parts[b].len()));
    }
    assert(all.subrange(at, at + parts[b].len()) =~= parts[b]);
}

proof fn lemma_parts_from(parts: Seq<Seq<u8>>, short: Seq<char>, bad: Seq<char>, b: int)
    requires
        parts.len() == STREAMS,
        0 <= b <= STREAMS,
        bundled(parts).len() <= usize::MAX,
        forall|i: int| 0 <= i < STREAMS ==> (#[trigger] parts[i]).len() < 0x1_0000_0000,
    ensures
        parts_from(
            bundled(parts),
            short,
            bad,
            b,
            32 + crate::prores_bits::joined(parts, b).len() as int,
            parts.take(b),
        ) == Ok::<Seq<Seq<u8>>, Seq<char>>(parts),
    decreases STREAMS - b,
{
    let data = bundled(parts);
    let n = STREAMS as int;
    lemma_sizes(parts, n);
    if b < STREAMS {
        lemma_size_at(parts, n, b);
        lemma_joined(parts, b, n);
        lemma_parts_from(parts, short, bad, b + 1);
        let at = 32 + crate::prores_bits::joined(parts, b).len() as int;
        let head = sizes(parts, n);
        let rest = crate::prores_bits::joined(parts, n);
        assert(crate::wire::le32(data, b * 4) == crate::wire::le32(head, b * 4));
        assert(data.subrange(at, at + parts[b].len()) =~= rest.subrange(
            at - 32,
            at - 32 + parts[b].len(),
        ));
        assert(parts.take(b + 1) =~= parts.take(b).push(parts[b]));
    } else {
        assert(parts.take(b) =~= parts);
    }
}

/// No stream is longer than the bundle.
pub proof fn lemma_part_len(parts: Seq<Seq<u8>>)
    ensures
        forall|i: int|
            0 <= i < parts.len() ==> (#[trigger] parts[i]).len() <= bundled(parts).len(),
{
    assert forall|i: int| 0 <= i < parts.len() implies (#[trigger] parts[i]).len() <= bundled(
        parts,
    ).len() by {
        lemma_joined(parts, i, parts.len() as int);
    }
}

/// What is put into a bundle comes out of it again.
pub proof fn law_part_undoes_bundle(parts: Seq<Seq<u8>>, short: Seq<char>, bad: Seq<char>)
    requires
        parts.len() == STREAMS,
        bundled(parts).len() <= usize::MAX,
        forall|i: int| 0 <= i < STREAMS ==> (#[trigger] parts[i]).len() < 0x1_0000_0000,
    ensures
        parted(bundled(parts), short, bad) == Ok::<Seq<Seq<u8>>, Seq<char>>(parts),
{
    lemma_parts_from(parts, short, bad, 0);
    assert(parts.take(0) =~= Seq::empty());
}

}
