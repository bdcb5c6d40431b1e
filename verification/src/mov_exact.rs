//! Movies whose ProRes planes are stored as coefficients.

use crate::compression::pack;
use crate::exact_groups::{collect, measure, Group};
use crate::mov_model::{group, places_of};
use crate::plane::pack_plane;
use crate::scanning::{find_segments, Segment};
use crate::wire::{fail, overwrite, put_le, read_le32, read_le64, same, Outcome};
use vstd::prelude::*;

verus! {

pub const MAGIC: [u8; 8] = [83, 80, 80, 82, 0, 0, 0, 1];

pub const MAX_RAW: usize = 536870912;

pub const MAX_EXPANDED: usize = 536870912;

/// A coded plane: where it lies, its blocks, and how its coefficients are stored. Bit 0 of `reset`
/// starts a new group, and bit 1 says that the coefficients are not differences.
#[verifier::ext_equal]
pub struct Descriptor {
    pub offset: usize,
    pub len: usize,
    pub blocks: usize,
    pub reset: u8,
}

pub open spec fn range_of(d: Descriptor) -> (u64, u64) {
    (d.offset as u64, d.len as u64)
}

/// The descriptor number `i`.
pub open spec fn descriptor_at(b: Seq<u8>, i: int, raw_len: int) -> Outcome<Descriptor> {
    let at = 20 + i * 16;
    let offset = crate::wire::le64(b, at);
    let len = crate::wire::le32(b, at + 8);
    let blocks = b[at + 12] as int;
    let reset = b[at + 13];
    if offset > usize::MAX {
        Err("MOV offset overflow"@)
    } else if !crate::plane::block_count(blocks) || len == 0 || len > 65535 || reset > 3 || b[at
        + 14] != 0 || b[at + 15] != 0 || (i == 0 && reset % 2 == 0) || offset + len > raw_len {
        Err("invalid ProRes segment descriptor"@)
    } else {
        Ok(
            Descriptor {
                offset: offset as usize,
                len: len as usize,
                blocks: blocks as usize,
                reset,
            },
        )
    }
}

/// The descriptors from number `i` on, when those before take `cursor` bytes in the transform, and
/// `used` in the movie.
pub open spec fn descriptors_from(
    b: Seq<u8>,
    i: int,
    count: int,
    raw_len: int,
    cursor: int,
    used: int,
) -> Outcome<Seq<Descriptor>>
    decreases count - i,
{
    if i >= count {
        if used > raw_len || cursor + raw_len - used != b.len() {
            Err("truncated or trailing ProRes transform data"@)
        } else {
            Ok(Seq::empty())
        }
    } else {
        match descriptor_at(b, i, raw_len) {
            Err(e) => Err(e),
            Ok(d) => if cursor + d.blocks * 128 > usize::MAX {
                Err("ProRes transform size overflow"@)
            } else if used + d.len > usize::MAX {
                Err("MOV segment size overflow"@)
            } else {
                match descriptors_from(
                    b,
                    i + 1,
                    count,
                    raw_len,
                    cursor + d.blocks * 128,
                    used + d.len,
                ) {
                    Err(e) => Err(e),
                    Ok(rest) => Ok(seq![d] + rest),
                }
            },
        }
    }
}

/// A number of sixteen bits with sign, as `v` wraps around.
pub open spec fn wrapped(v: int) -> i16 {
    ((v + 32768) % 65536 - 32768) as i16
}

/// The stored coefficients of a plane, low bytes first and then high bytes.
pub open spec fn stored_at(b: Seq<u8>, cursor: int, n: int, previous: Seq<i16>, direct: bool) -> Seq<
    i16,
> {
    Seq::new(
        n as nat,
        |i: int|
            {
                let value = crate::plane::unzig(b[cursor + i] + b[cursor + n + i] * 256);
                if direct {
                    value as i16
                } else {
                    wrapped(value + previous[i])
                }
            },
    )
}

/// Puts the bytes of the planes from number `k` on into `out`.
pub open spec fn planes_from(
    b: Seq<u8>,
    ds: Seq<Descriptor>,
    k: int,
    cursor: int,
    previous: Seq<i16>,
    out: Seq<u8>,
) -> Outcome<Seq<u8>>
    decreases ds.len() - k,
{
    if k >= ds.len() {
        Ok(out)
    } else {
        let d = ds[k];
        let n = d.blocks * 64;
        let previous = if d.reset % 2 == 1 {
            Seq::new(n as nat, |i: int| 0i16)
        } else {
            previous
        };
        if previous.len() != n {
            Err("incompatible ProRes prediction group"@)
        } else {
            let c = stored_at(b, cursor, n, previous, d.reset >= 2);
            match crate::plane::packed_plane(c, d.blocks as int, d.len as int) {
                Err(e) => Err(e),
                Ok(bytes) => planes_from(
                    b,
                    ds,
                    k + 1,
                    cursor + n * 2,
                    c,
                    crate::wire::overwritten(out, d.offset as int, bytes),
                ),
            }
        }
    }
}

/// The bytes that the coefficients of the planes from number `k` on take.
pub open spec fn stored_size(ds: Seq<Descriptor>, k: int) -> int
    decreases ds.len() - k,
{
    if k >= ds.len() {
        0
    } else {
        ds[k].blocks * 128 + stored_size(ds, k + 1)
    }
}

/// The movie that a transformed one stands for.
pub open spec fn restored(b: Seq<u8>) -> Outcome<Seq<u8>> {
    if b.len() < 20 || b.len() > MAX_EXPANDED || b.subrange(0, 8) != MAGIC@ {
        Err("invalid ProRes transform header"@)
    } else {
        let raw_len = crate::wire::le64(b, 8);
        let count = crate::wire::le32(b, 16);
        if raw_len > usize::MAX {
            Err("MOV size overflow"@)
        } else if raw_len > MAX_RAW || count == 0 || count > crate::scanning::MAX_SEGMENTS || count
            > (b.len() - 20) / 16 {
            Err("invalid ProRes transform limits"@)
        } else {
            match descriptors_from(b, 0, count, raw_len, 20 + count * 16, 0) {
                Err(e) => Err(e),
                Ok(ds) => {
                    let ranges = crate::order::sorted(ds.map_values(|d: Descriptor| range_of(d)));
                    if !crate::splice::apart(ranges, 0, 0) {
                        Err("overlapping ProRes segments"@)
                    } else {
                        match planes_from(
                            b,
                            ds,
                            0,
                            20 + count * 16,
                            Seq::empty(),
                            Seq::new(raw_len as nat, |i: int| 0u8),
                        ) {
                            Err(e) => Err(e),
                            Ok(coded) => Ok(
                                crate::splice::filled(
                                    coded,
                                    ranges,
                                    0,
                                    0,
                                    b.subrange(
                                        20 + count * 16 + stored_size(ds, 0),
                                        b.len() as int,
                                    ),
                                ),
                            ),
                        }
                    }
                },
            }
        }
    }
}

fn read_descriptor(b: &[u8], i: usize, raw_len: usize) -> (r: Result<Descriptor, String>)
    requires
        b@.len() <= MAX_EXPANDED,
        36 + i * 16 <= b.len(),
        raw_len <= MAX_RAW,
    ensures
        crate::wire::plain(r) == descriptor_at(b@, i as int, raw_len as int),
        r matches Ok(d) ==> crate::plane::block_count(d.blocks as int) && 1 <= d.len <= 65535
            && d.offset + d.len <= raw_len && d.reset <= 3,
{
    let at: usize = 20 + i * 16;
    let offset = read_le64(b, at);
    if offset > usize::MAX as u64 {
        return Err(fail("MOV offset overflow"));
    }
    let len: usize = read_le32(b, at + 8) as usize;
    let blocks: usize = b[at + 12] as usize;
    let reset: u8 = b[at + 13];
    if !crate::plane::power_of_two(blocks) || len == 0 || len > 65535 || reset > 3 || b[at + 14]
        != 0 || b[at + 15] != 0 || (i == 0 && reset % 2 == 0) || offset > raw_len as u64 || len as u64
        > raw_len as u64 - offset {
        return Err(fail("invalid ProRes segment descriptor"));
    }
    Ok(Descriptor { offset: offset as usize, len, blocks, reset })
}

fn read_descriptors(b: &[u8], count: usize, raw_len: usize) -> (r: Result<Vec<Descriptor>, String>)
    requires
        b@.len() <= MAX_EXPANDED,
        20 + count * 16 <= b.len(),
        raw_len <= MAX_RAW,
        count <= 1_000_000,
    ensures
        match descriptors_from(b@, 0, count as int, raw_len as int, 20 + count * 16, 0) {
            Ok(ds) => r matches Ok(v) && v@ == ds && v@.len() == count && (forall|k: int|
                0 <= k < v@.len() ==> (#[trigger] v@[k]).offset + v@[k].len <= raw_len
                    && crate::plane::block_count(v@[k].blocks as int) && 1 <= v@[k].len <= 65535)
                && 20 + count * 16 + stored_size(ds, 0) + raw_len - crate::splice::occupied(
                ds.map_values(|d: Descriptor| range_of(d)),
                0,
            ) == b@.len() && crate::splice::occupied(
                ds.map_values(|d: Descriptor| range_of(d)),
                0,
            ) <= raw_len,
            Err(e) => r matches Err(m) && m@ == e,
        },
{
    let mut ds: Vec<Descriptor> = Vec::new();
    let mut cursor: u64 = 20 + count as u64 * 16;
    let mut used: u64 = 0;
    let mut i: usize = 0;
    let ghost whole = descriptors_from(
        b@,
        0,
        count as int,
        raw_len as int,
        20 + count * 16,
        0,
    );
    while i < count
        invariant
            i <= count <= 1_000_000,
            ds@.len() == i,
            b@.len() <= MAX_EXPANDED,
            20 + count * 16 <= b.len(),
            raw_len <= MAX_RAW,
            cursor <= 20 + count * 16 + i * 4096,
            used <= i * 65535,
            cursor <= usize::MAX,
            used <= usize::MAX,
            whole == descriptors_from(b@, 0, count as int, raw_len as int, 20 + count * 16, 0),
            forall|k: int|
                0 <= k < i ==> (#[trigger] ds@[k]).offset + ds@[k].len <= raw_len
                    && crate::plane::block_count(ds@[k].blocks as int) && 1 <= ds@[k].len <= 65535,
            cursor == 20 + count * 16 + total_stored(ds@),
            used == total_len(ds@),
            match descriptors_from(
                b@,
                i as int,
                count as int,
                raw_len as int,
                cursor as int,
                used as int,
            ) {
                Ok(rest) => whole == Ok::<Seq<Descriptor>, Seq<char>>(ds@ + rest),
                Err(e) => whole == Err::<Seq<Descriptor>, Seq<char>>(e),
            },
        decreases count - i,
    {
        let d = read_descriptor(b, i, raw_len)?;
        if cursor + d.blocks as u64 * 128 > usize::MAX as u64 {
            return Err(fail("ProRes transform size overflow"));
        }
        if used + d.len as u64 > usize::MAX as u64 {
            return Err(fail("MOV segment size overflow"));
        }
        cursor = cursor + d.blocks as u64 * 128;
        used = used + d.len as u64;
        let ghost before = ds@;
        ds.push(d);
        proof {
            assert(ds@.drop_last() =~= before);
            match descriptors_from(
                b@,
                i + 1,
                count as int,
                raw_len as int,
                cursor as int,
                used as int,
            ) {
                Ok(rest) => {
                    assert(before + (seq![d] + rest) =~= ds@ + rest);
                },
                Err(_) => {},
            }
        }
        i += 1;
    }
    if used > raw_len as u64 || cursor + raw_len as u64 - used != b.len() as u64 {
        return Err(fail("truncated or trailing ProRes transform data"));
    }
    proof {
        assert(ds@ + Seq::<Descriptor>::empty() =~= ds@);
        lemma_totals(ds@, 0);
    }
    Ok(ds)
}

spec fn total_stored(ds: Seq<Descriptor>) -> int
    decreases ds.len(),
{
    if ds.len() == 0 {
        0
    } else {
        total_stored(ds.drop_last()) + ds.last().blocks * 128
    }
}

spec fn total_len(ds: Seq<Descriptor>) -> int
    decreases ds.len(),
{
    if ds.len() == 0 {
        0
    } else {
        total_len(ds.drop_last()) + ds.last().len
    }
}

proof fn lemma_totals(ds: Seq<Descriptor>, k: int)
    requires
        0 <= k <= ds.len(),
    ensures
        total_stored(ds) == total_stored(ds.subrange(0, k)) + stored_size(ds, k),
        total_len(ds) == total_len(ds.subrange(0, k)) + crate::splice::occupied(
            ds.map_values(|d: Descriptor| range_of(d)),
            k,
        ),
        k == 0 ==> total_stored(ds) == stored_size(ds, 0) && total_len(ds)
            == crate::splice::occupied(ds.map_values(|d: Descriptor| range_of(d)), 0),
    decreases ds.len() - k,
{
    if k < ds.len() {
        lemma_totals(ds, k + 1);
        assert(ds.subrange(0, k + 1).drop_last() =~= ds.subrange(0, k));
    } else {
        assert(ds.subrange(0, k) =~= ds);
    }
    assert(total_stored(ds.subrange(0, 0)) == 0);
    assert(total_len(ds.subrange(0, 0)) == 0);
}

fn ranges_of(ds: &Vec<Descriptor>) -> (v: Vec<(u64, u64)>)
    ensures
        v@ == ds@.map_values(|d: Descriptor| range_of(d)),
{
    let mut v: Vec<(u64, u64)> = Vec::new();
    let mut i: usize = 0;
    while i < ds.len()
        invariant
            i <= ds@.len(),
            v@ == ds@.map_values(|d: Descriptor| range_of(d)).subrange(0, i as int),
        decreases ds.len() - i,
    {
        v.push((ds[i].offset as u64, ds[i].len as u64));
        i += 1;
        assert(v@ =~= ds@.map_values(|d: Descriptor| range_of(d)).subrange(0, i as int));
    }
    assert(v@ =~= ds@.map_values(|d: Descriptor| range_of(d)));
    v
}

fn read_stored(b: &[u8], cursor: usize, n: usize, previous: &Vec<i16>, direct: bool) -> (c: Vec<i16>)
    requires
        cursor + n * 2 <= b.len(),
        previous@.len() == n,
        n <= 2048,
    ensures
        c@ == stored_at(b@, cursor as int, n as int, previous@, direct),
{
    let mut c: Vec<i16> = Vec::new();
    let mut i: usize = 0;
    while i < n
        invariant
            i <= n <= 2048,
            cursor + n * 2 <= b.len(),
            previous@.len() == n,
            c@ == stored_at(b@, cursor as int, n as int, previous@, direct).subrange(0, i as int),
        decreases n - i,
    {
        let zz: u32 = b[cursor + i] as u32 + b[cursor + n + i] as u32 * 256;
        let half: i32 = (zz / 2) as i32;
        let value: i32 = if zz % 2 == 0 { half } else { -half - 1 };
        let next: i32 = if direct {
            value
        } else {
            (value + previous[i] as i32 + 32768 + 65536) % 65536 - 32768
        };
        c.push(next as i16);
        i += 1;
        assert(c@ =~= stored_at(b@, cursor as int, n as int, previous@, direct).subrange(
            0,
            i as int,
        ));
    }
    assert(c@ =~= stored_at(b@, cursor as int, n as int, previous@, direct));
    c
}

/// Restores a movie from its transformed form.
pub fn decode(encoded: &[u8]) -> (r: Result<Vec<u8>, String>)
    ensures
        crate::wire::bytes_of(r) == restored(encoded@),
{
    if encoded.len() < 20 || encoded.len() > MAX_EXPANDED || !same(
        vstd::slice::slice_subrange(encoded, 0, 8),
        &MAGIC,
    ) {
        return Err(fail("invalid ProRes transform header"));
    }
    let raw_size = read_le64(encoded, 8);
    if raw_size > usize::MAX as u64 {
        return Err(fail("MOV size overflow"));
    }
    let raw_len: usize = raw_size as usize;
    let count: usize = read_le32(encoded, 16) as usize;
    if raw_len > MAX_RAW || count == 0 || count > crate::scanning::MAX_SEGMENTS || count > (
    encoded.len() - 20) / 16 {
        return Err(fail("invalid ProRes transform limits"));
    }
    let ds = read_descriptors(encoded, count, raw_len)?;
    let unsorted = ranges_of(&ds);
    let ranges = crate::order::sort(&unsorted);
    proof {
        lemma_ranges(ds@, raw_len as int);
    }
    if !crate::splice::check_apart(&ranges, raw_len as u64) {
        return Err(fail("overlapping ProRes segments"));
    }
    let mut out: Vec<u8> = vec![0u8; raw_len];
    let start: usize = 20 + count * 16;
    let mut cursor: usize = start;
    let mut previous: Vec<i16> = Vec::new();
    let mut k: usize = 0;
    let ghost result = restored(encoded@);
    let ghost rest = encoded@.subrange(start + stored_size(ds@, 0), encoded@.len() as int);
    assert(out@ =~= Seq::new(raw_len as nat, |i: int| 0u8));
    assert(previous@ =~= Seq::empty());
    while k < ds.len()
        invariant
            k <= ds@.len(),
            out@.len() == raw_len,
            cursor + stored_size(ds@, k as int) == start + stored_size(ds@, 0),
            start + stored_size(ds@, 0) <= encoded.len(),
            result == restored(encoded@),
            forall|j: int|
                0 <= j < ds@.len() ==> (#[trigger] ds@[j]).offset + ds@[j].len <= raw_len
                    && crate::plane::block_count(ds@[j].blocks as int) && 1 <= ds@[j].len <= 65535,
            match planes_from(
                encoded@,
                ds@,
                k as int,
                cursor as int,
                previous@,
                out@,
            ) {
                Ok(coded) => result == Ok::<Seq<u8>, Seq<char>>(
                    crate::splice::filled(coded, ranges@, 0, 0, rest),
                ),
                Err(e) => result == Err::<Seq<u8>, Seq<char>>(e),
            },
        decreases ds.len() - k,
    {
        proof {
            lemma_stored(ds@, k + 1);
        }
        let blocks: usize = ds[k].blocks;
        let n: usize = blocks * 64;
        if ds[k].reset % 2 == 1 {
            previous = vec![0i16; n];
            assert(previous@ =~= Seq::new(n as nat, |i: int| 0i16));
        }
        if previous.len() != n {
            return Err(fail("incompatible ProRes prediction group"));
        }
        let coefficients = read_stored(encoded, cursor, n, &previous, ds[k].reset >= 2);
        cursor = cursor + n * 2;
        let packed = pack_plane(&coefficients, blocks, ds[k].len)?;
        overwrite(&mut out, ds[k].offset, &packed);
        previous = coefficients;
        k += 1;
    }
    let tail = vstd::slice::slice_subrange(encoded, cursor, encoded.len());
    Ok(crate::splice::fill_gaps(&out, &ranges, tail))
}

proof fn lemma_stored(ds: Seq<Descriptor>, k: int)
    requires
        0 <= k,
    ensures
        stored_size(ds, k) >= 0,
    decreases ds.len() - k,
{
    if k < ds.len() {
        lemma_stored(ds, k + 1);
    }
}

/// What sorting keeps of the ranges.
proof fn lemma_ranges(ds: Seq<Descriptor>, raw_len: int)
    requires
        forall|k: int| 0 <= k < ds.len() ==> (#[trigger] ds[k]).offset + ds[k].len <= raw_len,
    ensures
        ({
            let all = ds.map_values(|d: Descriptor| range_of(d));
            let ranges = crate::order::sorted(all);
            &&& crate::splice::within(ranges, raw_len)
            &&& crate::splice::occupied(ranges, 0) == crate::splice::occupied(all, 0)
        }),
{
    let all = ds.map_values(|d: Descriptor| range_of(d));
    let ranges = crate::order::sorted(all);
    crate::order::law_sorted_keeps(all);
    assert forall|i: int| 0 <= i < ranges.len() implies #[trigger] ranges[i].0 + ranges[i].1
        <= raw_len by {
        assert(ranges.contains(ranges[i]));
        crate::order::law_sorted_members(all, ranges[i]);
        let k = choose|k: int| 0 <= k < all.len() && all[k] == ranges[i];
        assert(ds[k].offset + ds[k].len <= raw_len);
    }
    crate::splice::lemma_same_occupied(all, ranges);
}


/// What the compressor makes of the bytes of a group, of its coefficients, and of the differences
/// between those.
pub struct Scores {
    pub verbatim: Outcome<Seq<u8>>,
    pub direct: Outcome<Seq<u8>>,
    pub temporal: Outcome<Seq<u8>>,
}

/// What compressing a group yields.
pub open spec fn scores_of(g: Group) -> Scores {
    Scores {
        verbatim: crate::compression::packed(g.verbatim, 6),
        direct: crate::compression::packed(g.direct, 6),
        temporal: crate::compression::packed(g.temporal, 6),
    }
}

/// The planes that are stored as coefficients, how they are, and how long the whole becomes.
pub struct Chosen {
    pub planes: Seq<Segment>,
    pub flags: Seq<u8>,
    pub payload: Seq<u8>,
    pub projected: int,
}

/// How the planes of a group are stored.
pub open spec fn flags_of(n: nat, temporal: bool) -> Seq<u8> {
    Seq::new(
        n,
        |i: int|
            ((if i == 0 {
                1int
            } else {
                0
            }) + (if temporal {
                0int
            } else {
                2
            })) as u8,
    )
}

/// Takes a group, if its coefficients compress better than its bytes by more than they cost.
pub open spec fn weighed(t: Chosen, g: Group, s: Scores) -> Outcome<Chosen> {
    match s.verbatim {
        Err(e) => Err(e),
        Ok(verbatim) => match s.direct {
            Err(e) => Err(e),
            Ok(direct) => match s.temporal {
                Err(e) => Err(e),
                Ok(temporal) => {
                    let n = g.planes.len();
                    let changing = temporal.len() < direct.len();
                    let best = if changing {
                        temporal.len()
                    } else {
                        direct.len()
                    };
                    let grown = t.projected + g.direct.len() + n * 16;
                    let next = grown - g.verbatim.len();
                    if best + 32 + n * 3 >= verbatim.len() {
                        Ok(t)
                    } else if grown > usize::MAX || next < 0 {
                        Err("MOV transform size overflow"@)
                    } else if next > MAX_EXPANDED {
                        Ok(t)
                    } else {
                        Ok(
                            Chosen {
                                planes: t.planes + g.planes,
                                flags: t.flags + flags_of(n, changing),
                                payload: t.payload + (if changing {
                                    g.temporal
                                } else {
                                    g.direct
                                }),
                                projected: next,
                            },
                        )
                    }
                },
            },
        },
    }
}

/// Takes, or leaves, the groups from the plane `begin` on.
pub open spec fn weighed_from(
    raw: Seq<u8>,
    v: Seq<Segment>,
    begin: int,
    t: Chosen,
) -> Outcome<Chosen>
    decreases v.len() - begin,
{
    let end = crate::exact_groups::kind_end(v, begin, begin + 1);
    if begin >= v.len() || end <= begin || end > v.len() {
        Ok(t)
    } else {
        let g = crate::exact_groups::group_at(raw, v, begin);
        if crate::exact_groups::room(v, begin, end) > 33554432 || g.planes.len() == 0 {
            weighed_from(raw, v, end, t)
        } else {
            match weighed(t, g, scores_of(g)) {
                Err(e) => Err(e),
                Ok(next) => weighed_from(raw, v, end, next),
            }
        }
    }
}

/// The sixteen bytes that describe a plane.
pub open spec fn descriptor_bytes(s: Segment, flag: u8) -> Seq<u8> {
    crate::wire::le_bytes(s.offset as int, 8) + crate::wire::le_bytes(s.len as int, 4) + seq![
        s.blocks as u8,
        flag,
        0u8,
        0u8,
    ]
}

pub open spec fn descriptors_bytes(v: Seq<Segment>, flags: Seq<u8>) -> Seq<u8>
    decreases v.len(),
{
    if v.len() == 0 {
        Seq::empty()
    } else {
        descriptors_bytes(v.drop_last(), flags) + descriptor_bytes(
            v.last(),
            flags[v.len() - 1],
        )
    }
}

/// A movie with the chosen planes stored as coefficients.
pub open spec fn record(raw: Seq<u8>, t: Chosen) -> Seq<u8> {
    MAGIC@ + crate::wire::le_bytes(raw.len() as int, 8) + crate::wire::le_bytes(
        t.planes.len() as int,
        4,
    ) + descriptors_bytes(t.planes, t.flags) + t.payload + crate::splice::gaps(
        raw,
        crate::order::sorted(crate::mov_model::places(t.planes)),
        0,
        0,
    )
}

/// The planes of a movie, those of one kind together.
pub open spec fn kinds(raw: Seq<u8>) -> Seq<Segment> {
    crate::mov_model::grouped(crate::scanning::segments_of(raw)->Ok_0)
}

/// The transformed form of a movie.
pub open spec fn coded(raw: Seq<u8>) -> Outcome<Seq<u8>> {
    let first = Chosen {
        planes: Seq::empty(),
        flags: Seq::empty(),
        payload: Seq::empty(),
        projected: raw.len() as int + 20,
    };
    if raw.len() > MAX_RAW {
        Err("MOV exceeds transform memory limit"@)
    } else {
        match crate::scanning::segments_of(raw) {
            Err(e) => Err(e),
            Ok(_) => match weighed_from(raw, kinds(raw), 0, first) {
                Err(e) => Err(e),
                Ok(t) => if t.planes.len() == 0 {
                    Err("ProRes coefficient transform has no measured gain"@)
                } else {
                    Ok(record(raw, t))
                },
            },
        }
    }
}

struct Taken {
    planes: Vec<Segment>,
    flags: Vec<u8>,
    payload: Vec<u8>,
    projected: usize,
}

impl Taken {
    spec fn is(&self, t: Chosen) -> bool {
        &&& t.planes == self.planes@
        &&& t.flags == self.flags@
        &&& t.payload == self.payload@
        &&& t.projected == self.projected
        &&& self.flags@.len() == self.planes@.len()
    }
}

fn put_flags(n: usize, changing: bool) -> (flags: Vec<u8>)
    ensures
        flags@ == flags_of(n as nat, changing),
{
    let mut flags: Vec<u8> = Vec::new();
    let mut i: usize = 0;
    while i < n
        invariant
            i <= n,
            flags@.len() == i,
            forall|j: int| 0 <= j < i ==> #[trigger] flags@[j] == flags_of(n as nat, changing)[j],
        decreases n - i,
    {
        flags.push((if i == 0 { 1u8 } else { 0u8 }) + (if changing { 0u8 } else { 2u8 }));
        i += 1;
    }
    assert(flags@ =~= flags_of(n as nat, changing));
    flags
}

/// Takes a group, if it is worth it.
fn weigh(t: &mut Taken, g: crate::exact_groups::Members, Ghost(before): Ghost<Chosen>) -> (r: Result<
    (),
    String,
>)
    requires
        old(t).is(before),
        g.direct@.len() <= 33554432,
        g.planes@.len() <= 1_000_000,
    ensures
        match weighed(before, g@, scores_of(g@)) {
            Ok(after) => r is Ok && final(t).is(after),
            Err(e) => r matches Err(m) && m@ == e,
        },
{
    let mut g = g;
    let verbatim: usize = pack(&g.verbatim, 6)?.len();
    let direct: usize = pack(&g.direct, 6)?.len();
    let temporal: usize = pack(&g.temporal, 6)?.len();
    let n: usize = g.planes.len();
    let changing: bool = temporal < direct;
    let best: usize = if changing { temporal } else { direct };
    if verbatim as u64 <= 32 + n as u64 * 3 || best as u64 >= verbatim as u64 - 32 - n as u64 * 3 {
        return Ok(());
    }
    let more: usize = g.direct.len() + n * 16;
    let grown: usize = match t.projected.checked_add(more) {
        None => {
            return Err(fail("MOV transform size overflow"));
        },
        Some(x) => x,
    };
    if grown < g.verbatim.len() {
        return Err(fail("MOV transform size overflow"));
    }
    let next: usize = grown - g.verbatim.len();
    if next > MAX_EXPANDED {
        return Ok(());
    }
    let mut flags = put_flags(n, changing);
    t.projected = next;
    t.planes.append(&mut g.planes);
    t.flags.append(&mut flags);
    if changing {
        t.payload.append(&mut g.temporal);
    } else {
        t.payload.append(&mut g.direct);
    }
    Ok(())
}


fn put_descriptors(planes: &Vec<Segment>, flags: &Vec<u8>, out: &mut Vec<u8>)
    requires
        planes@.len() == flags@.len(),
        forall|i: int| 0 <= i < planes@.len() ==> (#[trigger] planes@[i]).blocks <= 32,
    ensures
        final(out)@ == old(out)@ + descriptors_bytes(planes@, flags@),
{
    let ghost head = out@;
    let mut i: usize = 0;
    assert(out@ =~= head + descriptors_bytes(planes@.take(0), flags@));
    while i < planes.len()
        invariant
            i <= planes.len(),
            planes@.len() == flags@.len(),
            forall|i: int| 0 <= i < planes@.len() ==> (#[trigger] planes@[i]).blocks <= 32,
            out@ == head + descriptors_bytes(planes@.take(i as int), flags@),
        decreases planes.len() - i,
    {
        let ghost before = out@;
        put_le(planes[i].offset as u64, 8, out);
        put_le(planes[i].len as u64, 4, out);
        out.push(planes[i].blocks as u8);
        out.push(flags[i]);
        out.push(0);
        out.push(0);
        proof {
            let part = planes@.take(i as int + 1);
            assert(part.drop_last() =~= planes@.take(i as int));
            assert(out@ =~= before + descriptor_bytes(planes@[i as int], flags@[i as int]));
            assert(out@ =~= head + descriptors_bytes(part, flags@));
        }
        i += 1;
    }
    assert(planes@.take(planes@.len() as int) =~= planes@);
}

/// Stores the planes of a movie as coefficients, where that pays.
pub fn encode(raw: &[u8]) -> (r: Result<Vec<u8>, String>)
    ensures
        crate::wire::bytes_of(r) == coded(raw@),
{
    if raw.len() > MAX_RAW {
        return Err(fail("MOV exceeds transform memory limit"));
    }
    let found = find_segments(raw)?;
    let ghost v = kinds(raw@);
    proof {
        crate::scanning::law_segments_in_line(raw@);
        assert forall|i: int| 0 <= i < found@.len() implies (#[trigger] found@[i]).key.0 <= 16384
            && found@[i].key.1 <= 16384 && found@[i].key.2 <= 2 && found@[i].key.3 < 0x100_0000 by {
            assert(crate::scanning::proper(found@[i], raw@.len() as int));
        }
    }
    let segments = group(&found);
    proof {
        assert forall|i: int| 0 <= i < v.len() implies crate::scanning::proper(
            #[trigger] v[i],
            raw@.len() as int,
        ) by {
            assert(found@.contains(v[i]));
        }
    }
    let ghost first = Chosen {
        planes: Seq::empty(),
        flags: Seq::empty(),
        payload: Seq::empty(),
        projected: raw@.len() as int + 20,
    };
    let mut t = Taken {
        planes: Vec::new(),
        flags: Vec::new(),
        payload: Vec::new(),
        projected: raw.len() + 20,
    };
    let ghost mut now = first;
    let ghost mut at: Seq<int> = Seq::empty();
    let mut begin: usize = 0;
    assert(t.planes@ =~= first.planes);
    assert(t.flags@ =~= first.flags);
    assert(t.payload@ =~= first.payload);
    while begin < segments.len()
        invariant
            begin <= v.len(),
            segments@ == v,
            v == kinds(raw@),
            v.len() <= 1_000_000,
            raw.len() <= MAX_RAW,
            crate::scanning::segments_of(raw@) is Ok,
            forall|i: int|
                0 <= i < v.len() ==> crate::scanning::proper(#[trigger] v[i], raw@.len() as int),
            first == (Chosen {
                planes: Seq::empty(),
                flags: Seq::empty(),
                payload: Seq::empty(),
                projected: raw@.len() as int + 20,
            }),
            t.is(now),
            crate::exact_groups::picked(t.planes@, v, at, 0, begin as int),
            weighed_from(raw@, v, 0, first) == weighed_from(raw@, v, begin as int, now),
        decreases segments.len() - begin,
    {
        assert forall|i: int| 0 <= i < v.len() implies (#[trigger] v[i]).blocks <= 32 by {
            assert(crate::scanning::proper(v[i], raw@.len() as int));
        }
        let (end, size) = measure(&segments, begin);
        if size <= 33554432 {
            let g = collect(raw, &segments, begin, end);
            let ghost whole = g@;
            let ghost more = crate::exact_groups::lemma_joined_from(
                raw@,
                (Group {
                    planes: Seq::empty(),
                    verbatim: Seq::empty(),
                    direct: Seq::empty(),
                    temporal: Seq::empty(),
                    previous: Seq::new((v[begin as int].blocks * 64) as nat, |i: int| 0i16),
                }),
                v,
                begin as int,
                end as int,
                begin as int,
                Seq::empty(),
            );
            if g.planes.len() > 0 {
                let ghost before = t.planes@;
                let r = weigh(&mut t, g, Ghost(now));
                proof {
                    match weighed(now, whole, scores_of(whole)) {
                        Ok(next) => {
                            if next.planes != now.planes {
                                assert(t.planes@ =~= before + whole.planes);
                                assert(crate::exact_groups::picked(
                                    t.planes@,
                                    v,
                                    at + more,
                                    0,
                                    end as int,
                                ));
                                at = at + more;
                            }
                            now = next;
                        },
                        Err(_) => {},
                    }
                }
                r?;
            }
        }
        begin = end;
    }
    if t.planes.len() == 0 {
        return Err(fail("ProRes coefficient transform has no measured gain"));
    }
    let places = places_of(&t.planes);
    let ranges = crate::order::sort(&places);
    proof {
        let p = crate::mov_model::places(t.planes@);
        assert forall|i: int| 0 <= i < p.len() implies (#[trigger] p[i]).1 >= 1 && p[i].0 + p[i].1
            <= raw@.len() by {
            assert(crate::scanning::proper(v[at[i]], raw@.len() as int));
        }
        assert forall|i: int, j: int| 0 <= i < p.len() && 0 <= j < p.len() && i != j implies
            crate::splice::disjoint(#[trigger] p[i], #[trigger] p[j]) by {
            assert(at[i] != at[j]) by {
                if i < j {
                    assert(at[i] < at[j]);
                } else {
                    assert(at[j] < at[i]);
                }
            }
            crate::exact_groups::lemma_grouped_disjoint(
                found@,
                raw@.len() as int,
                at[i],
                at[j],
            );
        }
        crate::splice::law_sorted_apart(p);
        crate::order::law_sorted_keeps(p);
        assert forall|i: int| 0 <= i < ranges@.len() implies #[trigger] ranges@[i].0 + ranges@[i].1
            <= raw@.len() by {
            assert(ranges@.contains(ranges@[i]));
            crate::order::law_sorted_members(p, ranges@[i]);
            let j = choose|j: int| 0 <= j < p.len() && p[j] == ranges@[i];
            assert(p[j].0 + p[j].1 <= raw@.len());
        }
        assert forall|i: int| 0 <= i < t.planes@.len() implies (#[trigger] t.planes@[i]).blocks <= 32 by {
            assert(crate::scanning::proper(v[at[i]], raw@.len() as int));
        }
    }
    let mut out: Vec<u8> = Vec::new();
    out.extend_from_slice(&MAGIC);
    put_le(raw.len() as u64, 8, &mut out);
    put_le(t.planes.len() as u64, 4, &mut out);
    put_descriptors(&t.planes, &t.flags, &mut out);
    out.append(&mut t.payload);
    crate::splice::put_gaps(raw, &ranges, &mut out);
    assert(out@ =~= record(raw@, now));
    Ok(out)
}

}
