//! Movies whose frames are predicted from the frames before them.

use crate::compression::{hash, pack, unpack, WINDOW};
use crate::monitor::{Monitor, Share};
use crate::motion_frames::{decode_motion, encode_motion, MotionResidual, Residual};
use crate::motion_pixels::FRAME;
use crate::motion_scan::{
    geometry, has_zero, place_of, read_quant, scan, Plane, MAX_FRAMES, RAW_LIMIT,
};
use crate::motion_record::{put_side, read_coefficients};
use crate::mov_cross::{Quant, Slopes};
use crate::plane::pack_plane;
use crate::wire::{
    fail, put_le, read_le16, read_le32, read_le64, read_signed16, same, Outcome,
};
use vstd::prelude::*;

verus! {

broadcast use {
    crate::monitor::lemma_climbs_on,
    crate::monitor::lemma_climbs_join,
    crate::monitor::lemma_climbs_up,
};

pub const MAGIC: [u8; 8] = [83, 80, 77, 77, 0, 0, 0, 1];

pub const HEADER: usize = 88;

pub const RECORD_LIMIT: usize = 536870912;

pub const TOTAL: u64 = 1_000_000;

/// What the header of a record says: the length of the movie, how many frames and planes it has,
/// where the parts of the record end, and how long the expanded last part is.
pub struct Layout {
    pub raw_len: int,
    pub frames: int,
    pub count: int,
    pub range_end: int,
    pub cross_end: int,
    pub side_len: int,
}

/// How much of the last part comes before the bytes between the planes.
pub open spec fn prefix(frames: int, count: int) -> int {
    frames * 192 + count * 12 + frames * 15876 * 5
}

pub open spec fn layout_of(b: Seq<u8>) -> Outcome<Layout> {
    if b.len() < HEADER || b.len() > RECORD_LIMIT || b.take(8) != MAGIC@ {
        Err("Invalid MOV motion header"@)
    } else {
        let raw_len = crate::wire::le64(b, 8);
        let frames = crate::wire::le32(b, 16);
        let count = crate::wire::le32(b, 20);
        let range_len = crate::wire::le64(b, 24);
        let cross_len = crate::wire::le64(b, 32);
        let packed_len = crate::wire::le64(b, 40);
        let side_len = crate::wire::le64(b, 48);
        let range_end = HEADER + range_len;
        let cross_end = range_end + cross_len;
        if raw_len > usize::MAX || range_len > usize::MAX || cross_len > usize::MAX || packed_len
            > usize::MAX || side_len > usize::MAX {
            Err("MOV motion length overflow"@)
        } else if raw_len > RAW_LIMIT || frames == 0 || frames > MAX_FRAMES || count == 0 || count
            > frames * 1890 || range_len < 5 || cross_len > RECORD_LIMIT || packed_len > RECORD_LIMIT
            || side_len > RECORD_LIMIT {
            Err("Invalid MOV motion limits"@)
        } else if range_end > usize::MAX || cross_end > usize::MAX {
            Err("MOV motion length overflow"@)
        } else if cross_end + packed_len != b.len() {
            Err("MOV motion payload length mismatch"@)
        } else if side_len < prefix(frames, count) || side_len - prefix(frames, count) > raw_len {
            Err("Invalid MOV motion side length"@)
        } else {
            Ok(Layout { raw_len, frames, count, range_end, cross_end, side_len })
        }
    }
}

/// The last part, given what expanding it yields.
pub open spec fn side_of(read: Outcome<(Seq<u8>, int)>, expected: int) -> Outcome<Seq<u8>> {
    match read {
        Err(e) => Err(e),
        Ok((side, rest)) => if side.len() != expected {
            Err("MOV motion side length mismatch"@)
        } else if rest != 0 {
            Err("Trailing MOV motion side bytes"@)
        } else {
            Ok(side)
        },
    }
}

/// The weights of the frames.
pub open spec fn quants_of(side: Seq<u8>, frames: int) -> Outcome<Seq<Quant>> {
    if !crate::motion_scan::positive(side.take(frames * 192)) {
        Err("Invalid MOV motion quantization"@)
    } else {
        Ok(
            Seq::new(
                frames as nat,
                |f: int| crate::motion_scan::quant_of(side.subrange(f * 192, f * 192 + 192)),
            ),
        )
    }
}

/// The plane that twelve bytes at `at` describe.
pub open spec fn plane_at(side: Seq<u8>, at: int) -> Plane {
    Plane {
        offset: crate::wire::le32(side, at) as usize,
        len: crate::wire::le16(side, at + 4) as usize,
        frame: crate::wire::le16(side, at + 6) as usize,
        slice: crate::wire::le16(side, at + 8) as usize,
        channel: side[at + 10] as usize,
    }
}

pub open spec fn alike(a: Plane, b: Plane) -> bool {
    a.frame == b.frame && a.channel == b.channel && a.slice == b.slice
}

/// The planes from number `i` on, behind those read before, which end at `end`.
pub open spec fn planes_from(
    side: Seq<u8>,
    base: int,
    i: int,
    count: int,
    end: int,
    raw_len: int,
    frames: int,
    done: Seq<Plane>,
) -> Outcome<Seq<Plane>>
    decreases count - i,
{
    if i >= count {
        Ok(done)
    } else {
        let p = plane_at(side, base + 12 * i);
        if p.frame >= frames || p.channel >= 3 || p.slice >= 630 || side[base + 12 * i + 11] != 0
            || p.len == 0 || p.offset < end || p.offset + p.len > raw_len || exists|j: int|
            0 <= j < done.len() && alike(#[trigger] done[j], p) {
            Err("Invalid MOV motion descriptor"@)
        } else {
            planes_from(
                side,
                base,
                i + 1,
                count,
                p.offset + p.len,
                raw_len,
                frames,
                done.push(p),
            )
        }
    }
}

/// The lengths of planes.
pub open spec fn covered(v: Seq<Plane>) -> int
    decreases v.len(),
{
    if v.len() == 0 {
        0
    } else {
        covered(v.drop_last()) + v.last().len
    }
}

/// Whether block `i` may be predicted with this mode and vector.
pub open spec fn allowed(mode: int, dy: int, dx: int, i: int) -> bool {
    &&& mode <= 2
    &&& i < 15876 ==> mode == 0
    &&& crate::motion_search::short(dy, 18)
    &&& crate::motion_search::short(dx, 18)
    &&& mode != 2 ==> dy == 0 && dx == 0
}

pub open spec fn numbers_at(side: Seq<u8>, at: int, n: int) -> Seq<i16> {
    Seq::new(n as nat, |i: int| crate::wire::signed16(side, at + 2 * i) as i16)
}

/// The modes and vectors of `n` blocks, without the errors.
pub open spec fn motion_of(side: Seq<u8>, at: int, n: int) -> Outcome<Residual> {
    let r = Residual {
        errors: Seq::empty(),
        modes: side.subrange(at, at + n),
        mx: numbers_at(side, at + n, n),
        my: numbers_at(side, at + 3 * n, n),
    };
    if exists|i: int|
        0 <= i < n && !allowed(#[trigger] r.modes[i] as int, r.my[i] as int, r.mx[i] as int, i) {
        Err("Invalid MOV motion prediction mode or vector"@)
    } else {
        Ok(r)
    }
}

/// The coefficients of a plane, in coding order.
pub open spec fn values_of(c: Seq<i16>, p: Plane) -> Seq<i16> {
    let n = crate::motion_scan::blocks_of(p.slice as int);
    Seq::new(
        (n * 64) as nat,
        |i: int|
            c[crate::motion_scan::coefficient_at(
                p.frame as int,
                p.channel as int,
                p.slice as int,
                i % n,
                i / n,
            )],
    )
}

/// The bytes of a plane.
#[verifier::opaque]
pub open spec fn plane_bytes(c: Seq<i16>, p: Plane) -> Outcome<Seq<u8>> {
    crate::plane::packed_plane(
        values_of(c, p),
        crate::motion_scan::blocks_of(p.slice as int),
        p.len as int,
    )
}

/// A movie from `end` on: its planes from number `i` on, and between them the bytes of `rest`.
pub open spec fn rebuilt(c: Seq<i16>, planes: Seq<Plane>, i: int, end: int, rest: Seq<u8>) -> Outcome<
    Seq<u8>,
>
    decreases planes.len() - i,
{
    if i >= planes.len() {
        Ok(rest)
    } else {
        let p = planes[i];
        let n = p.offset - end;
        match plane_bytes(c, p) {
            Err(e) => Err(e),
            Ok(bytes) => match rebuilt(c, planes, i + 1, p.offset + p.len, rest.skip(n)) {
                Err(e) => Err(e),
                Ok(tail) => Ok(rest.take(n) + bytes + tail),
            },
        }
    }
}

/// The movie that the parts of a record stand for.
pub open spec fn assembled(
    b: Seq<u8>,
    l: Layout,
    side: Seq<u8>,
    params: Outcome<(Seq<u8>, int)>,
) -> Outcome<Seq<u8>> {
    let shape = (l.frames, 126int, 126int);
    let blocks = l.frames * 15876;
    let at = l.frames * 192 + l.count * 12;
    match quants_of(side, l.frames) {
        Err(e) => Err(e),
        Ok(quant) => match planes_from(
            side,
            l.frames * 192,
            0,
            l.count,
            0,
            l.raw_len,
            l.frames,
            Seq::empty(),
        ) {
            Err(e) => Err(e),
            Ok(planes) => if l.raw_len - covered(planes) != side.len() - prefix(
                l.frames,
                l.count,
            ) {
                Err("MOV motion skeleton length mismatch"@)
            } else {
                match motion_of(side, at, blocks) {
                    Err(e) => Err(e),
                    Ok(m) => match crate::mov_motion_entropy::decoded(
                        b.subrange(HEADER as int, l.range_end),
                        shape,
                        m.modes,
                    ) {
                        Err(e) => Err(e),
                        Ok(cross) => match crate::mov_cross::decoded(
                            cross,
                            b.subrange(l.range_end, l.cross_end),
                            shape,
                            quant,
                            params,
                        ) {
                            Err(e) => Err(e),
                            Ok(errors) => match crate::motion_frames::recovered(
                                (Residual { errors, ..m }),
                                quant,
                            ) {
                                Err(e) => Err(e),
                                Ok(c) => match rebuilt(
                                    c,
                                    planes,
                                    0,
                                    0,
                                    side.skip(prefix(l.frames, l.count)),
                                ) {
                                    Err(e) => Err(e),
                                    Ok(raw) => if crate::compression::checksum(raw) != b.subrange(
                                        56,
                                        88,
                                    ) {
                                        Err("MOV motion original BLAKE3 mismatch"@)
                                    } else {
                                        Ok(raw)
                                    },
                                },
                            },
                        },
                    },
                }
            },
        },
    }
}

/// The movie that a record stands for, given what expanding its last part and its parameters
/// yields.
pub open spec fn restored(
    b: Seq<u8>,
    side: Outcome<(Seq<u8>, int)>,
    params: Outcome<(Seq<u8>, int)>,
) -> Outcome<Seq<u8>> {
    match layout_of(b) {
        Err(e) => Err(e),
        Ok(l) => match side_of(side, l.side_len) {
            Err(e) => Err(e),
            Ok(bytes) => assembled(b, l, bytes, params),
        },
    }
}

/// What comes of expanding the last part of a record: at most one byte more than there should be.
pub open spec fn side_read(b: Seq<u8>) -> Outcome<(Seq<u8>, int)> {
    let l = layout_of(b)->Ok_0;
    crate::compression::unpacked(
        b.skip(l.cross_end),
        l.side_len + 1,
        crate::compression::WINDOW as int,
    )
}

/// What comes of expanding the parameters of a record.
pub open spec fn params_read(b: Seq<u8>) -> Outcome<(Seq<u8>, int)> {
    let l = layout_of(b)->Ok_0;
    crate::mov_cross::read_of(b.subrange(l.range_end, l.cross_end), l.frames * FRAME)
}

/// The movie that a record holds.
pub open spec fn decoded(b: Seq<u8>) -> Outcome<Seq<u8>> {
    restored(b, side_read(b), params_read(b))
}

fn read_layout(b: &[u8]) -> (r: Result<[usize; 6], String>)
    ensures
        match layout_of(b@) {
            Err(e) => r matches Err(m) && m@ == e,
            Ok(l) => r matches Ok(v) && v@[0] == l.raw_len && v@[1] == l.frames && v@[2] == l.count
                && v@[3] == l.range_end && v@[4] == l.cross_end && v@[5] == l.side_len
                && HEADER <= l.range_end <= l.cross_end <= b.len() && b.len() <= RECORD_LIMIT && 1
                <= l.frames <= MAX_FRAMES && 1 <= l.count <= l.frames * 1890 && l.raw_len <= RAW_LIMIT
                && prefix(l.frames, l.count) <= l.side_len <= RECORD_LIMIT,
        },
{
    if b.len() < HEADER || b.len() > RECORD_LIMIT || !same(&b[0..8], &MAGIC) {
        return Err(fail("Invalid MOV motion header"));
    }
    let most: u64 = usize::MAX as u64;
    let raw_len = read_le64(b, 8);
    let frames: usize = read_le32(b, 16) as usize;
    let count: usize = read_le32(b, 20) as usize;
    let range_len = read_le64(b, 24);
    let cross_len = read_le64(b, 32);
    let packed_len = read_le64(b, 40);
    let side_len = read_le64(b, 48);
    if raw_len > most || range_len > most || cross_len > most || packed_len > most || side_len > most {
        return Err(fail("MOV motion length overflow"));
    }
    let (raw_len, range_len, cross_len, packed_len, side_len) = (
        raw_len as usize,
        range_len as usize,
        cross_len as usize,
        packed_len as usize,
        side_len as usize,
    );
    if raw_len > RAW_LIMIT || frames == 0 || frames > MAX_FRAMES || count == 0 || count > frames * 1890
        || range_len < 5 || cross_len > RECORD_LIMIT || packed_len > RECORD_LIMIT || side_len
        > RECORD_LIMIT {
        return Err(fail("Invalid MOV motion limits"));
    }
    let range_end: usize = match HEADER.checked_add(range_len) {
        None => {
            return Err(fail("MOV motion length overflow"));
        },
        Some(n) => n,
    };
    let cross_end: usize = match range_end.checked_add(cross_len) {
        None => {
            return Err(fail("MOV motion length overflow"));
        },
        Some(n) => n,
    };
    if cross_end > b.len() || packed_len != b.len() - cross_end {
        return Err(fail("MOV motion payload length mismatch"));
    }
    let head: usize = frames * 192 + count * 12 + frames * 15876 * 5;
    if side_len < head || side_len - head > raw_len {
        return Err(fail("Invalid MOV motion side length"));
    }
    Ok([raw_len, frames, count, range_end, cross_end, side_len])
}

fn read_quants(side: &[u8], frames: usize) -> (r: Result<Vec<Quant>, String>)
    requires
        frames <= MAX_FRAMES,
        frames * 192 <= side.len(),
    ensures
        match quants_of(side@, frames as int) {
            Err(e) => r matches Err(m) && m@ == e,
            Ok(q) => r matches Ok(v) && v@ == q && v@.len() == frames
                && crate::motion_frames::all_weighed(v@) && crate::mov_cross::weighed(v@),
        },
{
    let head = &side[0..frames * 192];
    assert(head@ =~= side@.take(frames * 192));
    if has_zero(head) {
        return Err(fail("Invalid MOV motion quantization"));
    }
    let ghost whole = quants_of(side@, frames as int)->Ok_0;
    let mut v: Vec<Quant> = Vec::new();
    let mut f: usize = 0;
    while f < frames
        invariant
            f <= frames <= MAX_FRAMES,
            frames * 192 <= side.len(),
            crate::motion_scan::positive(side@.take(frames * 192)),
            whole.len() == frames,
            forall|g: int|
                0 <= g < frames ==> #[trigger] whole[g] == crate::motion_scan::quant_of(
                    side@.subrange(g * 192, g * 192 + 192),
                ),
            v@.len() == f,
            forall|g: int| 0 <= g < f ==> #[trigger] v@[g] == whole[g],
            forall|g: int| 0 <= g < f ==> crate::motion_search::weighed(#[trigger] v@[g]),
        decreases frames - f,
    {
        let at: usize = f * 192;
        let (y, u, w) = (&side[at..at + 64], &side[at + 64..at + 128], &side[at + 128..at + 192]);
        let q = read_quant(y, u, w);
        proof {
            let s = side@.subrange(f * 192, f * 192 + 192);
            assert(y@ + u@ + w@ =~= s);
            assert forall|i: int| 0 <= i < 192 implies #[trigger] s[i] > 0 by {
                assert(side@.take(frames * 192)[f * 192 + i] > 0);
            }
            crate::motion_scan::lemma_weighed(q);
        }
        v.push(q);
        f += 1;
    }
    proof {
        assert(v@ =~= whole);
        assert forall|g: int, ch: int, k: int|
            0 <= g < v@.len() && 0 <= ch < 3 && 0 <= k < 64 implies #[trigger] v@[g]@[ch]@[k] > 0 by {
            assert(crate::motion_search::weighed(v@[g]));
        }
    }
    Ok(v)
}

/// The number by which a plane is told apart.
spec fn key(p: Plane) -> int {
    (p.frame * 3 + p.channel) * 630 + p.slice
}

proof fn lemma_key(a: Plane, b: Plane)
    requires
        a.channel < 3,
        b.channel < 3,
        a.slice < 630,
        b.slice < 630,
    ensures
        key(a) == key(b) <==> alike(a, b),
{
}

fn read_planes<M: Monitor>(
    side: &[u8],
    frames: usize,
    count: usize,
    raw_len: usize,
    monitor: &mut M,
    share: &Share,
) -> (r: Result<Vec<Plane>, String>)
    requires
        1 <= frames <= MAX_FRAMES,
        count <= frames * 1890,
        raw_len <= RAW_LIMIT,
        frames * 192 + count * 12 <= side.len(),
        share.fits(),
        !old(monitor).stopped(),
    ensures
        crate::monitor::climbs(*old(monitor), share.at(60_000), share.at(60_000), share.whole, *final(monitor)),
        match crate::wire::unless(
            final(monitor).stopped(),
            planes_from(
                side@,
                frames * 192,
                0,
                count as int,
                0,
                raw_len as int,
                frames as int,
                Seq::empty(),
            ),
        ) {
            Err(e) => r matches Err(m) && m@ == e,
            Ok(planes) => r matches Ok(v) && v@ == planes && crate::motion_scan::lined(
                planes,
                raw_len as int,
                frames as int,
            ) && v@.len() == count,
        },
{
    proof {
        share.lemma_at(60_000, 60_000);
        crate::monitor::lemma_stays(*monitor, share.at(60_000), share.at(60_000), share.whole);
    }
    let base: usize = frames * 192;
    let ghost whole = planes_from(
        side@,
        base as int,
        0,
        count as int,
        0,
        raw_len as int,
        frames as int,
        Seq::empty(),
    );
    let mut planes: Vec<Plane> = Vec::new();
    let mut seen: Vec<bool> = vec![false; frames * 1890];
    let mut end: usize = 0;
    let mut i: usize = 0;
    while i < count
        invariant
            share.at(60_000) <= share.whole,
            crate::monitor::climbs(*old(monitor), share.at(60_000), share.at(60_000), share.whole, *monitor),
            1 <= frames <= MAX_FRAMES,
            i <= count <= frames * 1890,
            base == frames * 192,
            raw_len <= RAW_LIMIT,
            frames * 192 + count * 12 <= side.len(),
            share.fits(),
            !monitor.stopped(),
            end <= raw_len,
            planes@.len() == i,
            crate::motion_scan::lined(planes@, end as int, frames as int),
            seen@.len() == frames * 1890,
            forall|k: int|
                0 <= k < seen@.len() ==> #[trigger] seen@[k] == (exists|j: int|
                    0 <= j < planes@.len() && key(#[trigger] planes@[j]) == k),
            whole == planes_from(
                side@,
                base as int,
                0,
                count as int,
                0,
                raw_len as int,
                frames as int,
                Seq::empty(),
            ),
            whole == planes_from(
                side@,
                base as int,
                i as int,
                count as int,
                end as int,
                raw_len as int,
                frames as int,
                planes@,
            ),
        decreases count - i,
    {
        if i % 128 == 0 && !share.report(monitor, 60_000, 1_000_000) {
            return Err(fail("error.cancelled"));
        }
        let at: usize = base + 12 * i;
        let p = Plane {
            offset: read_le32(side, at) as usize,
            len: read_le16(side, at + 4) as usize,
            frame: read_le16(side, at + 6) as usize,
            slice: read_le16(side, at + 8) as usize,
            channel: side[at + 10] as usize,
        };
        assert(p == plane_at(side@, at as int));
        if p.frame >= frames || p.channel >= 3 || p.slice >= 630 || side[at + 11] != 0 || p.len == 0
            || p.offset < end || p.offset > raw_len || p.len > raw_len - p.offset {
            return Err(fail("Invalid MOV motion descriptor"));
        }
        let k: usize = (p.frame * 3 + p.channel) * 630 + p.slice;
        let ghost before = planes@;
        if seen[k] {
            proof {
                let j = choose|j: int| 0 <= j < planes@.len() && key(#[trigger] planes@[j]) == k;
                lemma_key(planes@[j], p);
                assert(alike(planes@[j], p));
            }
            return Err(fail("Invalid MOV motion descriptor"));
        }
        proof {
            assert forall|j: int| 0 <= j < before.len() implies !alike(#[trigger] before[j], p) by {
                lemma_key(before[j], p);
                assert(key(before[j]) != k);
            }
        }
        seen[k] = true;
        planes.push(p);
        proof {
            assert forall|m: int| 0 <= m < seen@.len() implies #[trigger] seen@[m] == (exists|j: int|
                0 <= j < planes@.len() && key(#[trigger] planes@[j]) == m) by {
                if m == k {
                    assert(key(planes@[i as int]) == k);
                } else {
                    if exists|j: int| 0 <= j < before.len() && key(#[trigger] before[j]) == m {
                        let j = choose|j: int| 0 <= j < before.len() && key(#[trigger] before[j]) == m;
                        assert(key(planes@[j]) == m);
                    }
                    if exists|j: int| 0 <= j < planes@.len() && key(#[trigger] planes@[j]) == m {
                        let j = choose|j: int|
                            0 <= j < planes@.len() && key(#[trigger] planes@[j]) == m;
                        assert(j < before.len());
                        assert(key(before[j]) == m);
                    }
                }
            }
        }
        end = p.offset + p.len;
        i += 1;
    }
    proof {
        crate::motion_scan::lemma_lined(
            planes@,
            end as int,
            raw_len as int,
            frames as int,
            frames as int,
        );
    }
    Ok(planes)
}


fn read_numbers(side: &[u8], at: usize, n: usize) -> (v: Vec<i16>)
    requires
        at + 2 * n <= side.len(),
    ensures
        v@ == numbers_at(side@, at as int, n as int),
{
    let mut v: Vec<i16> = Vec::new();
    let mut i: usize = 0;
    while i < n
        invariant
            i <= n,
            at + 2 * n <= side.len(),
            v@.len() == i,
            forall|j: int|
                0 <= j < i ==> #[trigger] v@[j] == crate::wire::signed16(side@, at + 2 * j),
        decreases n - i,
    {
        v.push(read_signed16(side, at + 2 * i));
        i += 1;
    }
    assert(v@ =~= numbers_at(side@, at as int, n as int));
    v
}

fn far(v: i16) -> (r: bool)
    ensures
        r == !crate::motion_search::short(v as int, 18),
{
    v < -18 || v > 18
}

fn read_motion(side: &[u8], at: usize, n: usize) -> (r: Result<MotionResidual, String>)
    requires
        at + 5 * n <= side.len(),
    ensures
        match motion_of(side@, at as int, n as int) {
            Err(e) => r matches Err(m) && m@ == e,
            Ok(x) => r matches Ok(m) && m@ == x && m.modes@.len() == n && m.mx@.len() == n && m.my@.len()
                == n && (forall|i: int| 0 <= i < n ==> #[trigger] m.modes@[i] <= 2) && (forall|i: int|
                0 <= i < n && i < 15876 ==> #[trigger] m.modes@[i] == 0),
        },
{
    let mut modes: Vec<u8> = Vec::new();
    modes.extend_from_slice(&side[at..at + n]);
    assert(modes@ =~= side@.subrange(at as int, at + n));
    let mx = read_numbers(side, at + n, n);
    let my = read_numbers(side, at + 3 * n, n);
    let errors: Vec<i16> = Vec::new();
    assert(errors@ =~= Seq::<i16>::empty());
    let ghost x = Residual { errors: Seq::empty(), modes: modes@, mx: mx@, my: my@ };
    let mut i: usize = 0;
    while i < n
        invariant
            i <= n,
            modes@.len() == n,
            mx@.len() == n,
            my@.len() == n,
            x.modes == modes@,
            x.mx == mx@,
            x.my == my@,
            motion_of(side@, at as int, n as int) == (if exists|j: int|
                0 <= j < n && !allowed(#[trigger] x.modes[j] as int, x.my[j] as int, x.mx[j] as int, j) {
                Err("Invalid MOV motion prediction mode or vector"@)
            } else {
                Ok(x)
            }),
            forall|j: int|
                0 <= j < i ==> allowed(
                    #[trigger] x.modes[j] as int,
                    x.my[j] as int,
                    x.mx[j] as int,
                    j,
                ),
        decreases n - i,
    {
        let mode: u8 = modes[i];
        if mode > 2 || (i < 15876 && mode != 0) || far(mx[i]) || far(my[i]) || (mode != 2 && (mx[i] != 0
            || my[i] != 0)) {
            assert(!allowed(x.modes[i as int] as int, x.my[i as int] as int, x.mx[i as int] as int, i as int));
            return Err(fail("Invalid MOV motion prediction mode or vector"));
        }
        i += 1;
    }
    proof {
        assert forall|j: int| 0 <= j < n implies #[trigger] modes@[j] <= 2 by {
            assert(allowed(x.modes[j] as int, x.my[j] as int, x.mx[j] as int, j));
        }
        assert forall|j: int| 0 <= j < n && j < 15876 implies #[trigger] modes@[j] == 0 by {
            assert(allowed(x.modes[j] as int, x.my[j] as int, x.mx[j] as int, j));
        }
    }
    let m = MotionResidual { errors, modes, mx, my };
    assert(m@ == x);
    Ok(m)
}

/// The coefficients of a plane.
fn gather(c: &[i16], p: &Plane) -> (v: Vec<i16>)
    requires
        p.frame < MAX_FRAMES,
        p.channel < 3,
        p.slice < 630,
        (p.frame + 1) * FRAME <= c.len(),
    ensures
        v@ == values_of(c@, *p),
{
    let (_, _, n) = geometry(p.slice);
    let ghost whole = values_of(c@, *p);
    let mut v: Vec<i16> = Vec::new();
    let mut i: usize = 0;
    while i < n * 64
        invariant
            4 <= n <= 32,
            i <= n * 64,
            n == crate::motion_scan::blocks_of(p.slice as int),
            p.frame < MAX_FRAMES,
            p.channel < 3,
            p.slice < 630,
            (p.frame + 1) * FRAME <= c.len(),
            whole == values_of(c@, *p),
            v@.len() == i,
            forall|j: int| 0 <= j < i ==> #[trigger] v@[j] == whole[j],
        decreases n * 64 - i,
    {
        let (b, k): (usize, usize) = (i % n, i / n);
        assert(k < 64) by (nonlinear_arith)
            requires
                k == i as int / n as int,
                i < n * 64,
                n >= 1,
        ;
        v.push(c[place_of(p.frame, p.channel, p.slice, b, k)]);
        i += 1;
    }
    assert(v@ =~= whole);
    v
}

/// Appends the bytes ahead of a plane and the plane.
fn put_plane(c: &[i16], p: &Plane, gap: &[u8], out: &mut Vec<u8>) -> (r: Result<(), String>)
    requires
        p.frame < MAX_FRAMES,
        p.channel < 3,
        p.slice < 630,
        (p.frame + 1) * FRAME <= c.len(),
    ensures
        match plane_bytes(c@, *p) {
            Ok(bytes) => r is Ok && final(out)@ == old(out)@ + gap@ + bytes,
            Err(e) => r matches Err(m) && m@ == e,
        },
{
    reveal(plane_bytes);
    let (_, _, blocks) = geometry(p.slice);
    let values = gather(c, p);
    let bytes = pack_plane(&values, blocks, p.len)?;
    out.extend_from_slice(gap);
    out.extend_from_slice(&bytes);
    assert(out@ =~= old(out)@ + gap@ + bytes@);
    Ok(())
}

/// Puts planes and the bytes between them together.
fn rebuild<M: Monitor>(
    c: &[i16],
    planes: &[Plane],
    raw_len: usize,
    rest: &[u8],
    monitor: &mut M,
    share: &Share,
) -> (r: Result<Vec<u8>, String>)
    requires
        crate::motion_scan::lined(planes@, raw_len as int, MAX_FRAMES as int),
        forall|i: int| 0 <= i < planes@.len() ==> (#[trigger] planes@[i].frame + 1) * FRAME <= c.len(),
        planes.len() <= 1_000_000,
        raw_len <= RAW_LIMIT,
        rest@.len() == raw_len - covered(planes@),
        share.fits(),
        !old(monitor).stopped(),
    ensures
        crate::monitor::climbs(*old(monitor), share.at(750_000), share.at(990_000), share.whole, *final(monitor)),
        crate::wire::bytes_of(r) == crate::wire::unless(
            final(monitor).stopped(),
            rebuilt(c@, planes@, 0, 0, rest@),
        ),
{
    proof {
        share.lemma_at(750_000, 990_000);
        assert(crate::monitor::goal(share.at(990_000)));
        crate::monitor::lemma_stays(*monitor, share.at(750_000), share.at(750_000), share.whole);
    }
    let count: usize = planes.len();
    let ghost whole = rebuilt(c@, planes@, 0, 0, rest@);
    let mut out: Vec<u8> = Vec::new();
    let mut end: usize = 0;
    let mut at: usize = 0;
    let ghost mut last: int = 0;
    let ghost mut part_done: int = 0;
    let mut i: usize = 0;
    proof {
        lemma_covered_from(planes@, 0);
        assert(rest@.skip(0) =~= rest@);
    }
    while i < count
        invariant
            0 <= last <= i,
            0 <= part_done <= 240_000,
            i == 0 ==> part_done == 0,
            i > 0 ==> last < i && part_done == last * 240_000 / count as int,
            crate::monitor::climbs(
                *old(monitor),
                share.at(750_000),
                share.at(750_000 + part_done),
                share.whole,
                *monitor,
            ),
            i <= count,
            count == planes.len(),
            crate::motion_scan::lined(planes@, raw_len as int, MAX_FRAMES as int),
            forall|j: int|
                0 <= j < planes@.len() ==> (#[trigger] planes@[j].frame + 1) * FRAME <= c.len(),
            planes.len() <= 1_000_000,
            raw_len <= RAW_LIMIT,
            share.fits(),
            !monitor.stopped(),
            at <= rest.len(),
            end <= raw_len,
            i == 0 ==> end == 0,
            i > 0 ==> end == planes@[i - 1].offset + planes@[i - 1].len,
            rest@.len() - at == raw_len - end - covered_from(planes@, i as int),
            whole == rebuilt(c@, planes@, 0, 0, rest@),
            match rebuilt(c@, planes@, i as int, end as int, rest@.skip(at as int)) {
                Ok(tail) => whole == Ok::<Seq<u8>, Seq<char>>(out@ + tail),
                Err(e) => whole == Err::<Seq<u8>, Seq<char>>(e),
            },
        decreases count - i,
    {
        if i % 128 == 0 {
            let part: u64 = i as u64 * 240_000 / count as u64;
            assert(part <= 240_000) by (nonlinear_arith)
                requires
                    part == (i as u64 * 240_000) / count as int,
                    i <= count,
                    count > 0,
            ;
            proof {
                assert(crate::monitor::goal(share.at(990_000)));
                crate::monitor::lemma_part(last, i as int, 240_000, count as int);
                share.lemma_at(750_000, 750_000 + part_done);
                share.lemma_at(750_000 + part_done, 750_000 + part);
                share.lemma_at(750_000 + part, 990_000);
                last = i as int;
                part_done = part as int;
            }
            if !share.report(monitor, 750_000 + part, 1_000_000) {
                return Err(fail("error.cancelled"));
            }
        }
        proof {
            assert(crate::monitor::goal(share.at(990_000)));
            share.lemma_at(750_000 + part_done, 990_000);
        }
        let p: Plane = planes[i];
        let ghost here = rest@.skip(at as int);
        proof {
            assert(planes@[i as int].frame + 1 >= 1);
            if i > 0 {
                assert(planes@[i - 1].offset + planes@[i - 1].len <= planes@[i as int].offset);
            }
            lemma_covered_room(planes@, i as int, raw_len as int);
        }
        let n: usize = p.offset - end;
        let ghost before = out@;
        put_plane(c, &p, &rest[at..at + n], &mut out)?;
        proof {
            let bytes = plane_bytes(c@, p)->Ok_0;
            assert(rest@.subrange(at as int, at + n) =~= here.take(n as int));
            assert(here.skip(n as int) =~= rest@.skip(at + n));
            if let Ok(tail) = rebuilt(c@, planes@, i + 1, p.offset + p.len, rest@.skip(at + n)) {
                assert(before + (here.take(n as int) + bytes + tail) =~= out@ + tail);
            }
        }
        at = at + n;
        end = p.offset + p.len;
        i += 1;
    }
    let ghost before = out@;
    out.extend_from_slice(&rest[at..rest.len()]);
    assert(rest@.subrange(at as int, rest@.len() as int) =~= rest@.skip(at as int));
    assert(out@ =~= before + rest@.skip(at as int));
    proof {
        share.lemma_at(750_000 + part_done, 990_000);
    }
    Ok(out)
}

spec fn covered_from(v: Seq<Plane>, i: int) -> int
    decreases v.len() - i,
{
    if i >= v.len() {
        0
    } else {
        v[i].len + covered_from(v, i + 1)
    }
}

proof fn lemma_covered_from(v: Seq<Plane>, i: int)
    requires
        0 <= i <= v.len(),
    ensures
        covered(v) == covered(v.take(i)) + covered_from(v, i),
    decreases v.len() - i,
{
    if i < v.len() {
        lemma_covered_from(v, i + 1);
        assert(v.take(i + 1).drop_last() =~= v.take(i));
    } else {
        assert(v.take(i) =~= v);
    }
    if i == 0 {
        assert(v.take(0) =~= Seq::<Plane>::empty());
    }
}

/// What lies ahead of a plane is not covered by those behind it.
proof fn lemma_covered_room(v: Seq<Plane>, i: int, len: int)
    requires
        crate::motion_scan::lined(v, len, MAX_FRAMES as int),
        0 <= i < v.len(),
    ensures
        v[i].offset + covered_from(v, i) <= len,
    decreases v.len() - i,
{
    if i + 1 < v.len() {
        lemma_covered_room(v, i + 1, len);
        assert(v[i].offset + v[i].len <= v[i + 1].offset);
    } else {
        reveal_with_fuel(covered_from, 2);
        assert(v[i].offset + v[i].len <= len);
    }
}


/// The marks of a step stand in order.
proof fn lemma_marks(share: Share)
    requires
        share.fits(),
    ensures
        share.at(0) <= share.at(40_000) <= share.at(50_000) <= share.at(60_000) <= share.at(100_000)
            <= share.at(200_000) <= share.at(300_000) <= share.at(750_000) <= share.at(990_000)
            <= share.at(1_000_000) <= share.whole,
        share.base <= share.at(0),
{
    share.lemma_at(0, 40_000);
    share.lemma_at(40_000, 50_000);
    share.lemma_at(50_000, 60_000);
    share.lemma_at(60_000, 100_000);
    share.lemma_at(100_000, 200_000);
    share.lemma_at(200_000, 300_000);
    share.lemma_at(300_000, 750_000);
    share.lemma_at(750_000, 990_000);
    share.lemma_at(990_000, 1_000_000);
}

/// The parts of a record, once its last part and the parameters are expanded.
fn assemble_parts<M: Monitor>(
    b: &[u8],
    l: [usize; 6],
    side: &[u8],
    params: Result<(Vec<u8>, usize), String>,
    monitor: &mut M,
    share: &Share,
) -> (r: Result<Vec<u8>, String>)
    requires
        ({
            let x = Layout {
                raw_len: l@[0] as int,
                frames: l@[1] as int,
                count: l@[2] as int,
                range_end: l@[3] as int,
                cross_end: l@[4] as int,
                side_len: l@[5] as int,
            };
            layout_of(b@) == Ok::<Layout, Seq<char>>(x)
        }),
        HEADER <= l@[3] <= l@[4] <= b.len(),
        1 <= l@[1] <= MAX_FRAMES,
        1 <= l@[2] <= l@[1] * 1890,
        l@[0] <= RAW_LIMIT,
        prefix(l@[1] as int, l@[2] as int) <= l@[5] <= RECORD_LIMIT,
        side.len() == l@[5],
        share.fits(),
        !old(monitor).stopped(),
    ensures
        crate::monitor::climbs(*old(monitor), share.at(50_000), share.at(1_000_000), share.whole, *final(monitor)),
        crate::wire::bytes_of(r) == crate::wire::unless(
            final(monitor).stopped(),
            assembled(
                b@,
                layout_of(b@)->Ok_0,
                side@,
                crate::compression::unpacked_outcome(params),
            ),
        ),
        r is Ok ==> crate::monitor::last_told(
            *final(monitor),
            (share.base + 1_000_000 * share.span / 1_000_000) as u64,
            share.whole,
        ),
{
    proof {
        lemma_marks(*share);
        assert(crate::monitor::goal(share.at(1_000_000)));
        crate::monitor::lemma_stays(*monitor, share.at(50_000), share.at(50_000), share.whole);
    }
    let (raw_len, frames, count) = (l[0], l[1], l[2]);
    let (range_end, cross_end, side_len) = (l[3], l[4], l[5]);
    let ghost x = layout_of(b@)->Ok_0;
    if !share.report(monitor, 50_000, 1_000_000) {
        return Err(fail("error.cancelled"));
    }
    let quant = read_quants(side, frames)?;
    let planes = read_planes(side, frames, count, raw_len, monitor, share)?;
    let blocks: usize = frames * 15876;
    let at: usize = frames * 192 + count * 12;
    let head: usize = at + blocks * 5;
    let mut used: usize = 0;
    let mut i: usize = 0;
    proof {
        lemma_covered_from(planes@, 0);
        assert(planes@.take(0) =~= Seq::<Plane>::empty());
        lemma_covered_room(planes@, 0, raw_len as int);
    }
    while i < planes.len()
        invariant
            i <= planes@.len(),
            used == covered(planes@.take(i as int)),
            covered(planes@) == used + covered_from(planes@, i as int),
            covered(planes@) <= raw_len,
            crate::motion_scan::lined(planes@, raw_len as int, frames as int),
        decreases planes.len() - i,
    {
        proof {
            lemma_covered_from(planes@, i as int + 1);
            lemma_covered_sign(planes@, i as int + 1);
            assert(planes@.take(i as int + 1).drop_last() =~= planes@.take(i as int));
        }
        used = used + planes[i].len;
        i += 1;
    }
    assert(planes@.take(i as int) =~= planes@);
    if raw_len - used != side_len - head {
        return Err(fail("MOV motion skeleton length mismatch"));
    }
    let mut m = read_motion(side, at, blocks)?;
    let ghost given = m@;
    let shape: [usize; 3] = [frames, 126, 126];
    assert(crate::mov_motion_entropy::extent(shape) == (frames as int, 126int, 126int));
    let cross = crate::mov_motion_entropy::decode_at(
        &b[HEADER..range_end],
        shape,
        &m.modes,
        monitor,
        share.point(100_000),
    )?;
    assert(cross@.len() == frames * FRAME);
    let point = share.point(200_000);
    if !monitor.report(point.0, point.1) {
        return Err(fail("error.cancelled"));
    }
    let errors = crate::mov_cross::apply_at(
        cross,
        &b[range_end..cross_end],
        shape,
        &quant,
        params,
        monitor,
        point,
    )?;
    m.errors = errors;
    assert(m@ == (Residual { errors: m.errors@, ..given }));
    let c = decode_motion(&m, &quant, monitor, share)?;
    proof {
        crate::motion_scan::lemma_lined(
            planes@,
            raw_len as int,
            raw_len as int,
            frames as int,
            MAX_FRAMES as int,
        );
        assert forall|i: int| 0 <= i < planes@.len() implies (#[trigger] planes@[i].frame + 1) * FRAME
            <= c@.len() by {
            assert(planes@[i].frame < frames);
        }
        assert(side@.subrange(head as int, side@.len() as int) =~= side@.skip(
            prefix(frames as int, count as int),
        ));
    }
    let raw = rebuild(&c, &planes, raw_len, &side[head..side.len()], monitor, share)?;
    if !same(&hash(&raw), &b[56..88]) {
        return Err(fail("MOV motion original BLAKE3 mismatch"));
    }
    let ghost before = *monitor;
    if !share.report(monitor, 1_000_000, 1_000_000) {
        return Err(fail("error.cancelled"));
    }
    assert(before.told(
        (share.base + 1_000_000 * share.span / 1_000_000) as u64,
        share.whole,
        true,
        monitor,
    ));
    Ok(raw)
}

/// The movie that the parts of a record stand for, by its last part and by what expanding the parameters
/// yielded.
pub fn assemble<M: Monitor>(
    encoded: &[u8],
    side: &[u8],
    params: Result<(Vec<u8>, usize), String>,
    monitor: &mut M,
    share: &Share,
) -> (r: Result<Vec<u8>, String>)
    requires
        layout_of(encoded@) matches Ok(l) ==> side.len() == l.side_len,
        share.fits(),
        !old(monitor).stopped(),
    ensures
        crate::monitor::climbs(*old(monitor), share.at(50_000), share.at(1_000_000), share.whole, *final(monitor)),
        crate::wire::bytes_of(r) == crate::wire::unless(
            final(monitor).stopped(),
            match layout_of(encoded@) {
                Err(e) => Err(e),
                Ok(l) => assembled(
                    encoded@,
                    l,
                    side@,
                    crate::compression::unpacked_outcome(params),
                ),
            },
        ),
        r is Ok ==> crate::monitor::last_told(
            *final(monitor),
            (share.base + 1_000_000 * share.span / 1_000_000) as u64,
            share.whole,
        ),
{
    proof {
        lemma_marks(*share);
        assert(crate::monitor::goal(share.at(1_000_000)));
        crate::monitor::lemma_stays(*monitor, share.at(50_000), share.at(50_000), share.whole);
    }
    let l = read_layout(encoded)?;
    assemble_parts(encoded, l, side, params, monitor, share)
}

proof fn lemma_covered_sign(v: Seq<Plane>, i: int)
    requires
        0 <= i <= v.len(),
    ensures
        0 <= covered_from(v, i),
    decreases v.len() - i,
{
    if i < v.len() {
        lemma_covered_sign(v, i + 1);
    }
}


/// The last part of a record of `expected` bytes, by what expanding it yielded.
pub fn check_side(read: Result<(Vec<u8>, usize), String>, expected: usize) -> (r: Result<Vec<u8>, String>)
    ensures
        crate::wire::bytes_of(r) == side_of(crate::compression::unpacked_outcome(read), expected as int),
{
    let (side, rest) = read?;
    if side.len() != expected {
        return Err(fail("MOV motion side length mismatch"));
    }
    if rest != 0 {
        return Err(fail("Trailing MOV motion side bytes"));
    }
    Ok(side)
}

/// How many bytes of the last part of a record stand between two reports.
pub const CHUNK: usize = 0x1_0000;

/// Whether the first `n` bytes that the last part of a record is to hold can be read from it.
pub open spec fn opens_with(encoded: Seq<u8>, n: int) -> bool {
    n <= 0 || (crate::compression::unpacked(encoded, n, crate::compression::WINDOW as int) matches Ok((bytes, _))
        && bytes.len() == n)
}

/// Whether the last part of a record, which is to hold `expected` bytes, can be read in chunks up to `n` bytes,
/// and not up to the chunk behind them.
pub open spec fn breaks_at(encoded: Seq<u8>, expected: int, n: int) -> bool {
    &&& 0 <= n <= expected
    &&& n == expected || n % CHUNK as int == 0
    &&& opens_with(encoded, n)
    &&& n == expected || !opens_with(encoded, crate::monitor::next_mark(expected, CHUNK as int, n))
}

/// Whether the first `n` bytes that the last part of a record is to hold can be read from it.
fn can_read(encoded: &[u8], n: usize) -> (r: bool)
    ensures
        r == opens_with(encoded@, n as int),
{
    n == 0 || match unpack(encoded, n as u64, WINDOW) {
        Ok((bytes, _)) => bytes.len() == n,
        Err(_) => false,
    }
}

/// Where chunk number `k` of `expected` bytes begins.
spec fn upto(expected: int, k: int) -> int {
    if k * CHUNK < expected {
        k * CHUNK
    } else {
        expected
    }
}

/// Finds out how far the broken last part of a record can be read in chunks.
fn readable(encoded: &[u8], expected: usize) -> (n: usize)
    requires
        expected <= RECORD_LIMIT,
    ensures
        breaks_at(encoded@, expected as int, n as int),
{
    let chunks: usize = (expected + (CHUNK - 1)) / CHUNK;
    let mut low: usize = 0;
    let mut high: usize = chunks + 1;
    while high - low > 1
        invariant
            expected <= RECORD_LIMIT,
            chunks == (expected + (CHUNK - 1)) / CHUNK as int,
            low < high <= chunks + 1,
            opens_with(encoded@, upto(expected as int, low as int)),
            high <= chunks ==> !opens_with(encoded@, upto(expected as int, high as int)),
        decreases high - low,
    {
        let mid: usize = low + (high - low) / 2;
        let n: usize = if mid * CHUNK < expected {
            mid * CHUNK
        } else {
            expected
        };
        if can_read(encoded, n) {
            low = mid;
        } else {
            high = mid;
        }
    }
    if low * CHUNK < expected {
        low * CHUNK
    } else {
        expected
    }
}

/// Expands the last part of a record of `expected` bytes, and reports before it, and behind it once for
/// every chunk, or for every chunk that can be read where the part is broken.
pub fn decode_side<M: Monitor>(
    encoded: &[u8],
    expected: usize,
    monitor: &mut M,
    share: &Share,
) -> (r: Result<Vec<u8>, String>)
    requires
        expected <= RECORD_LIMIT,
        share.fits(),
        !old(monitor).stopped(),
    ensures
        crate::monitor::climbs(*old(monitor), share.at(40_000), share.at(40_000), share.whole, *final(monitor)),
        crate::wire::bytes_of(r) == crate::wire::unless(
            final(monitor).stopped(),
            side_of(
                crate::compression::unpacked(
                    encoded@,
                    expected + 1,
                    crate::compression::WINDOW as int,
                ),
                expected as int,
            ),
        ),
        crate::monitor::heeds(*old(monitor), r),
{
    proof {
        share.lemma_at(40_000, 40_000);
        crate::monitor::lemma_stays(*monitor, share.at(40_000), share.at(40_000), share.whole);
    }
    if !share.report(monitor, 40_000, 1_000_000) {
        return Err(fail("error.cancelled"));
    }
    proof {
        let at = share.base + 40_000 * share.span / 1_000_000;
        crate::monitor::lemma_agreed(*old(monitor), at as u64, share.whole, *monitor);
    }
    let read = unpack(encoded, expected as u64 + 1, WINDOW);
    let mut left: usize = match &read {
        Ok((bytes, _)) => if bytes.len() < expected {
            bytes.len()
        } else {
            expected
        },
        Err(_) => readable(encoded, expected),
    };
    while left > 0
        invariant
            share.at(40_000) <= share.whole,
            crate::monitor::climbs(*old(monitor), share.at(40_000), share.at(40_000), share.whole, *monitor),
            share.fits(),
            !monitor.stopped(),
        decreases left,
    {
        if !share.report(monitor, 40_000, 1_000_000) {
            return Err(fail("error.cancelled"));
        }
        left = if left > CHUNK {
            left - CHUNK
        } else {
            0
        };
    }
    check_side(read, expected)
}

/// Expands the parameters of a record.
fn read_params(cross: &[u8], frames: usize) -> (r: Result<(Vec<u8>, usize), String>)
    requires
        1 <= frames <= MAX_FRAMES,
    ensures
        cross@.len() >= 9 ==> crate::compression::unpacked_outcome(r) == crate::mov_cross::read_of(
            cross@,
            frames * FRAME,
        ),
{
    if cross.len() < 9 {
        return Err(String::new());
    }
    assert(cross@.subrange(8, cross@.len() as int) =~= cross@.skip(8));
    unpack(&cross[8..cross.len()], 5 * (frames as u64 * 3 * 15876) + 1, WINDOW)
}

fn decode_within<M: Monitor>(encoded: &[u8], monitor: &mut M, share: &Share) -> (r: Result<
    Vec<u8>,
    String,
>)
    requires
        share.fits(),
        !old(monitor).stopped(),
    ensures
        crate::monitor::climbs(*old(monitor), share.at(0), share.at(1_000_000), share.whole, *final(monitor)),
        crate::wire::bytes_of(r) == crate::wire::unless(final(monitor).stopped(), decoded(encoded@)),
        crate::monitor::heeds(*old(monitor), r),
        r is Ok ==> crate::monitor::last_told(
            *final(monitor),
            (share.base + 1_000_000 * share.span / 1_000_000) as u64,
            share.whole,
        ),
{
    proof {
        lemma_marks(*share);
        assert(crate::monitor::goal(share.at(1_000_000)));
        crate::monitor::lemma_stays(*monitor, share.at(0), share.at(0), share.whole);
    }
    if !share.report(monitor, 0, 1_000_000) {
        return Err(fail("error.cancelled"));
    }
    proof {
        let at = share.base + 0 * share.span / 1_000_000;
        crate::monitor::lemma_agreed(*old(monitor), at as u64, share.whole, *monitor);
    }
    let l = read_layout(encoded)?;
    let ghost x = layout_of(encoded@)->Ok_0;
    let side = decode_side(&encoded[l[4]..encoded.len()], l[5], monitor, share);
    assert(encoded@.subrange(x.cross_end, encoded@.len() as int) =~= encoded@.skip(x.cross_end));
    let side = side?;
    let params = read_params(&encoded[l[3]..l[4]], l[1]);
    assert(encoded@.subrange(l@[3] as int, l@[4] as int) == encoded@.subrange(x.range_end, x.cross_end));
    proof {
        lemma_no_params(
            encoded@,
            x,
            side@,
            crate::compression::unpacked_outcome(params),
            params_read(encoded@),
        );
    }
    assemble(encoded, &side, params, monitor, share)
}

/// Where there is no room for parameters, what expanding them yielded does not matter.
proof fn lemma_no_params(
    b: Seq<u8>,
    l: Layout,
    side: Seq<u8>,
    first: Outcome<(Seq<u8>, int)>,
    second: Outcome<(Seq<u8>, int)>,
)
    requires
        b.subrange(l.range_end, l.cross_end).len() >= 9 ==> first == second,
    ensures
        assembled(b, l, side, first) == assembled(b, l, side, second),
{
}

/// Restores a movie and reports the progress.
pub fn decode_with_progress<M: Monitor>(encoded: &[u8], progress: &mut M) -> (r: Result<
    Vec<u8>,
    String,
>)
    requires
        !old(progress).stopped(),
    ensures
        crate::monitor::climbs(*old(progress), 0, 1_000_000, TOTAL, *final(progress)),
        crate::wire::bytes_of(r) == crate::wire::unless(final(progress).stopped(), decoded(encoded@)),
        crate::monitor::heeds(*old(progress), r),
        r is Ok ==> crate::monitor::last_told(*final(progress), TOTAL, TOTAL),
{
    decode_within(encoded, progress, &Share { base: 0, span: TOTAL, whole: TOTAL })
}

/// Restores a movie, unless the watcher stops it.
pub fn decode_with_cancel<M: Monitor>(encoded: &[u8], cancelled: &mut M) -> (r: Result<
    Vec<u8>,
    String,
>)
    requires
        !old(cancelled).stopped(),
    ensures
        crate::monitor::climbs(*old(cancelled), 0, 1_000_000, TOTAL, *final(cancelled)),
        crate::wire::bytes_of(r) == crate::wire::unless(final(cancelled).stopped(), decoded(encoded@)),
        crate::monitor::heeds(*old(cancelled), r),
        r is Ok ==> crate::monitor::last_told(*final(cancelled), TOTAL, TOTAL),
{
    decode_with_progress(encoded, cancelled)
}


/// Someone who fits slopes to the coefficients of blocks.
pub trait Fit {
    /// Whether these slopes can be fitted to the values and weights, and the fit is then as `after` is.
    spec fn fits(&self, values: Values, shape: [usize; 3], quant: Weights, slopes: Fitted, after: &Self) -> bool;

    /// The slopes of every block, by which its chroma may be predicted. Any slopes are good enough
    /// to restore the coefficients; the better ones make a record shorter.
    fn fit(&mut self, values: &[i16], shape: [usize; 3], quant: &[Quant]) -> (slopes: Vec<Slopes>)
        ensures
            old(self).fits(values@, shape, quant@, slopes@, final(self)),
    ;
}

/// Values that slopes are fitted to, as contracts speak of them.
pub type Values = Seq<i16>;

/// The weights of frames, as contracts speak of them.
pub type Weights = Seq<Quant>;

/// Slopes, as contracts speak of them.
pub type Fitted = Seq<Slopes>;

/// Someone who predicts no chroma.
pub struct Unfitted;

impl Fit for Unfitted {
    open spec fn fits(&self, values: Values, shape: [usize; 3], quant: Weights, slopes: Fitted, after: &Self) -> bool {
        &&& slopes.len() == values.len() / 64
        &&& forall|i: int|
            0 <= i < slopes.len() ==> #[trigger] slopes[i] == (Slopes {
                luma: 0,
                chroma: 0,
                joint_luma: 0,
                joint_chroma: 0,
            })
    }

    fn fit(&mut self, values: &[i16], shape: [usize; 3], quant: &[Quant]) -> (slopes: Vec<Slopes>) {
        vec![Slopes { luma: 0, chroma: 0, joint_luma: 0, joint_chroma: 0 }; values.len() / 64]
    }
}

/// Whether slopes were fitted to the errors that are left of coefficients.
pub open spec fn fitted<F: Fit>(c: Seq<i16>, q: Seq<Quant>, slopes: Seq<Slopes>, before: F, after: F) -> bool {
    exists|shape: [usize; 3]|
        crate::mov_motion_entropy::extent(shape) == (q.len() as int, 126int, 126int) && #[trigger] before.fits(
            crate::motion_frames::residual(c, q).errors,
            shape,
            q,
            slopes,
            &after,
        )
}

/// Whether slopes were fitted to a movie while it was encoded, if it came to that.
#[verifier::opaque]
pub open spec fn fit_asked<F: Fit>(raw: Seq<u8>, slopes: Seq<Slopes>, before: F, after: F, stopped: bool) -> bool {
    match crate::motion_scan::scanned(raw) {
        Err(_) => before == after,
        Ok((q, planes)) => match crate::motion_record::coefficients(raw, planes, q.len() as int) {
            Err(_) => before == after,
            Ok(c) => stopped && before == after || fitted(c, q, slopes, before, after),
        },
    }
}

/// What outside work yields while a movie is encoded: the slopes, the compressed parameters, and the
/// compressed last part.
pub struct Outside {
    pub slopes: Seq<Slopes>,
    pub params: Outcome<Seq<u8>>,
    pub side: Outcome<Seq<u8>>,
}

/// What comes of compressing the parts of a movie with the given weights, planes and coefficients, where
/// the slopes are those of a fit.
pub open spec fn outside(
    raw: Seq<u8>,
    q: Seq<Quant>,
    planes: Seq<Plane>,
    c: Seq<i16>,
    slopes: Seq<Slopes>,
) -> Outside {
    let m = crate::motion_frames::residual(c, q);
    Outside {
        slopes,
        params: crate::compression::packed(crate::mov_cross::parameters(m.errors, q, slopes, 15876), 12),
        side: crate::compression::packed(crate::motion_record::side_bytes(raw, q, planes, m), 12),
    }
}

/// A record.
pub open spec fn record(
    raw: Seq<u8>,
    frames: int,
    count: int,
    side_len: int,
    range: Seq<u8>,
    cross: Seq<u8>,
    packed: Seq<u8>,
) -> Seq<u8> {
    MAGIC@ + crate::wire::le_bytes(raw.len() as int, 8) + crate::wire::le_bytes(frames, 4)
        + crate::wire::le_bytes(count, 4) + crate::wire::le_bytes(range.len() as int, 8)
        + crate::wire::le_bytes(cross.len() as int, 8) + crate::wire::le_bytes(
        packed.len() as int,
        8,
    ) + crate::wire::le_bytes(side_len, 8) + crate::compression::checksum(raw) + range + cross
        + packed
}

/// The record of a movie with the given weights, planes and coefficients.
pub open spec fn recorded(
    raw: Seq<u8>,
    q: Seq<Quant>,
    planes: Seq<Plane>,
    c: Seq<i16>,
    o: Outside,
) -> Outcome<Seq<u8>> {
    let shape = (q.len() as int, 126int, 126int);
    let m = crate::motion_frames::residual(c, q);
    let side = crate::motion_record::side_bytes(raw, q, planes, m);
    match crate::mov_cross::coded(m.errors, shape, q, o.slopes, o.params) {
        Err(e) => Err(e),
        Ok((left, cross)) => match crate::mov_motion_entropy::coded(left, shape, m.modes) {
            Err(e) => Err(e),
            Ok(range) => if side.len() > RECORD_LIMIT {
                Err("MOV motion side exceeds limit"@)
            } else {
                match o.side {
                    Err(e) => Err(e),
                    Ok(packed) => if HEADER + range.len() + cross.len() + packed.len()
                        > RECORD_LIMIT {
                        Err("MOV motion record exceeds limit"@)
                    } else {
                        Ok(
                            record(
                                raw,
                                q.len() as int,
                                planes.len() as int,
                                side.len() as int,
                                range,
                                cross,
                                packed,
                            ),
                        )
                    },
                }
            },
        },
    }
}

/// The record of a movie, before it is tried out.
pub open spec fn transformed(raw: Seq<u8>, slopes: Seq<Slopes>) -> Outcome<Seq<u8>> {
    match crate::motion_scan::scanned(raw) {
        Err(e) => Err(e),
        Ok((q, planes)) => match crate::motion_record::coefficients(raw, planes, q.len() as int) {
            Err(e) => Err(e),
            Ok(c) => recorded(raw, q, planes, c, outside(raw, q, planes, c, slopes)),
        },
    }
}

/// The record of a movie, if it gives the movie back, where the slopes are those of a fit.
pub open spec fn encoded(raw: Seq<u8>, slopes: Seq<Slopes>) -> Outcome<Seq<u8>> {
    match transformed(raw, slopes) {
        Err(e) => Err(e),
        Ok(out) => kept(raw, out, decoded(out)),
    }
}

fn put_record(
    raw: &[u8],
    frames: usize,
    count: usize,
    side_len: usize,
    range: &[u8],
    cross: &[u8],
    packed: &[u8],
) -> (out: Vec<u8>)
    ensures
        out@ == record(
            raw@,
            frames as int,
            count as int,
            side_len as int,
            range@,
            cross@,
            packed@,
        ),
{
    let mut out: Vec<u8> = Vec::new();
    out.extend_from_slice(&MAGIC);
    put_le(raw.len() as u64, 8, &mut out);
    put_le(frames as u64, 4, &mut out);
    put_le(count as u64, 4, &mut out);
    put_le(range.len() as u64, 8, &mut out);
    put_le(cross.len() as u64, 8, &mut out);
    put_le(packed.len() as u64, 8, &mut out);
    put_le(side_len as u64, 8, &mut out);
    let sum = hash(raw);
    out.extend_from_slice(&sum);
    out.extend_from_slice(range);
    out.extend_from_slice(cross);
    out.extend_from_slice(packed);
    assert(out@ =~= record(
        raw@,
        frames as int,
        count as int,
        side_len as int,
        range@,
        cross@,
        packed@,
    ));
    out
}

/// The record of a movie that could be made, by what came of decoding it again.
pub open spec fn kept(raw: Seq<u8>, out: Seq<u8>, again: Outcome<Seq<u8>>) -> Outcome<Seq<u8>> {
    match again {
        Err(e) => Err(e),
        Ok(again) => if again != raw {
            Err("MOV motion byte-exact verification failed"@)
        } else {
            Ok(out)
        },
    }
}

/// Keeps the record of a movie only if decoding it gave the movie back.
pub fn keep_record(raw: &[u8], out: Vec<u8>, again: Result<Vec<u8>, String>) -> (r: Result<Vec<u8>, String>)
    ensures
        crate::wire::bytes_of(r) == kept(raw@, out@, crate::wire::bytes_of(again)),
{
    if !same(&again?, raw) {
        return Err(fail("MOV motion byte-exact verification failed"));
    }
    Ok(out)
}

/// The record that the parts of a movie make up, by what compressing the last one, of `side_len` bytes,
/// yielded.
pub open spec fn sealed(
    raw: Seq<u8>,
    frames: int,
    count: int,
    side_len: int,
    range: Seq<u8>,
    cross: Seq<u8>,
    packed: Outcome<Seq<u8>>,
) -> Outcome<Seq<u8>> {
    match packed {
        Err(e) => Err(e),
        Ok(packed) => if HEADER + range.len() + cross.len() + packed.len() > RECORD_LIMIT {
            Err("MOV motion record exceeds limit"@)
        } else {
            Ok(record(raw, frames, count, side_len, range, cross, packed))
        },
    }
}

/// Puts a record together.
pub fn seal(
    raw: &[u8],
    frames: usize,
    count: usize,
    side_len: usize,
    range: &[u8],
    cross: &[u8],
    packed: Result<Vec<u8>, String>,
) -> (r: Result<Vec<u8>, String>)
    ensures
        crate::wire::bytes_of(r) == sealed(
            raw@,
            frames as int,
            count as int,
            side_len as int,
            range@,
            cross@,
            crate::wire::bytes_of(packed),
        ),
{
    let packed = packed?;
    if packed.len() > RECORD_LIMIT || range.len() > RECORD_LIMIT || cross.len() > RECORD_LIMIT
        || HEADER as u64 + range.len() as u64 + cross.len() as u64 + packed.len() as u64
        > RECORD_LIMIT as u64 {
        return Err(fail("MOV motion record exceeds limit"));
    }
    Ok(put_record(raw, frames, count, side_len, range, cross, &packed))
}

/// Whether slopes were fitted, or a watcher had it stopped before.
#[verifier::opaque]
spec fn asked_once<F: Fit>(
    c: Seq<i16>,
    q: Seq<Quant>,
    slopes: Seq<Slopes>,
    before: F,
    after: F,
    stopped: bool,
) -> bool {
    stopped && before == after || fitted(c, q, slopes, before, after)
}

/// Makes the record of a movie with the given weights, planes and coefficients.
fn make_record<M: Monitor, F: Fit>(
    raw: &[u8],
    quant: &[Quant],
    planes: &[Plane],
    c: &[i16],
    fit: &mut F,
    monitor: &mut M,
) -> (r: Result<Vec<u8>, String>)
    requires
        1 <= quant@.len() <= MAX_FRAMES,
        c.len() == quant@.len() * FRAME,
        raw.len() <= RAW_LIMIT,
        crate::motion_scan::lined(planes@, raw@.len() as int, quant@.len() as int),
        crate::motion_scan::all_positive(quant@),
        !old(monitor).stopped(),
    ensures
        crate::monitor::climbs(*old(monitor), 200_000, 680_000, 1_000_000, *final(monitor)),
        exists|slopes: Seq<Slopes>|
            crate::wire::bytes_of(r) == crate::wire::unless(
                final(monitor).stopped(),
                recorded(
                    raw@,
                    quant@,
                    planes@,
                    c@,
                    outside(raw@, quant@, planes@, c@, slopes),
                ),
            ) && #[trigger] asked_once(c@, quant@, slopes, *old(fit), *final(fit), final(monitor).stopped()),
{
    proof {
        assert(crate::monitor::goal(680_000));
        crate::monitor::lemma_stays(*monitor, 200_000, 200_000, 1_000_000);
    }
    assert(asked_once(c@, quant@, Seq::empty(), *fit, *fit, true)) by {
        reveal(asked_once);
    }
    proof {
        assert forall|f: int| 0 <= f < quant@.len() implies crate::motion_search::weighed(
            #[trigger] quant@[f],
        ) by {
            crate::motion_scan::lemma_weighed(quant@[f]);
        }
    }
    let m = encode_motion(c, quant, monitor)?;
    let shape: [usize; 3] = [quant.len(), 126, 126];
    assert(crate::mov_motion_entropy::extent(shape) == (quant@.len() as int, 126int, 126int));
    let slopes = fit.fit(&m.errors, shape, quant);
    let coded = crate::mov_cross::encode_at(
        &m.errors,
        shape,
        quant,
        &slopes,
        monitor,
        (500_000, 1_000_000),
    );
    assert(m.errors@ == m@.errors);
    assert(fitted(c@, quant@, slopes@, *old(fit), *fit));
    proof {
        reveal(asked_once);
    }
    assert(asked_once(c@, quant@, slopes@, *old(fit), *fit, true));
    assert(asked_once(c@, quant@, slopes@, *old(fit), *fit, false));
    let (left, cross) = coded?;
    let range = crate::mov_motion_entropy::encode_at(
        &left,
        shape,
        &m.modes,
        monitor,
        (600_000, 1_000_000),
    )?;
    proof {
        crate::motion_scan::lemma_lined(
            planes@,
            raw@.len() as int,
            raw@.len() as int,
            quant@.len() as int,
            MAX_FRAMES as int,
        );
    }
    let side = put_side(raw, quant, planes, &m);
    if side.len() > RECORD_LIMIT {
        return Err(fail("MOV motion side exceeds limit"));
    }
    if !monitor.report(680_000, 1_000_000) {
        return Err(fail("error.cancelled"));
    }
    let packed = pack(&side, 12);
    seal(raw, quant.len(), planes.len(), side.len(), &range, &cross, packed)
}

proof fn lemma_fit_unasked<F: Fit>(raw: Seq<u8>, f: F)
    ensures
        fit_asked(raw, Seq::empty(), f, f, true),
        match crate::motion_scan::scanned(raw) {
            Err(_) => true,
            Ok((q, planes)) => crate::motion_record::coefficients(raw, planes, q.len() as int) is Err,
        } ==> fit_asked(raw, Seq::empty(), f, f, false),
{
    reveal(fit_asked);
}

proof fn lemma_fit_asked<F: Fit>(
    raw: Seq<u8>,
    q: Seq<Quant>,
    planes: Seq<Plane>,
    c: Seq<i16>,
    slopes: Seq<Slopes>,
    before: F,
    after: F,
    stopped: bool,
)
    requires
        crate::motion_scan::scanned(raw) == Ok::<(Seq<Quant>, Seq<Plane>), Seq<char>>((q, planes)),
        crate::motion_record::coefficients(raw, planes, q.len() as int) == Ok::<Seq<i16>, Seq<char>>(c),
        asked_once(c, q, slopes, before, after, stopped),
    ensures
        fit_asked(raw, slopes, before, after, true),
        fit_asked(raw, slopes, before, after, stopped),
{
    reveal(fit_asked);
    reveal(asked_once);
}

/// Encodes a movie and reports the progress. The record is decoded again before it is handed out.
#[verifier::spinoff_prover]
#[verifier::rlimit(30)]
pub fn encode_with_progress<M: Monitor, F: Fit>(raw: &[u8], fit: &mut F, progress: &mut M) -> (r:
    Result<Vec<u8>, String>)
    requires
        !old(progress).stopped(),
    ensures
        crate::monitor::climbs(*old(progress), 0, 1_000_000, 1_000_000, *final(progress)),
        exists|slopes: Seq<Slopes>|
            crate::wire::bytes_of(r) == crate::wire::unless(
                final(progress).stopped(),
                encoded(raw@, slopes),
            ) && #[trigger] fit_asked(raw@, slopes, *old(fit), *final(fit), final(progress).stopped()),
        r matches Ok(out) ==> decoded(out@) == Ok::<Seq<u8>, Seq<char>>(raw@),
        crate::monitor::heeds(*old(progress), r),
        r is Ok ==> crate::monitor::last_told(*final(progress), TOTAL, TOTAL),
{
    proof {
        assert(crate::monitor::goal(1_000_000));
        crate::monitor::lemma_stays(*progress, 0, 0, 1_000_000);
    }
    proof {
        lemma_fit_unasked(raw@, *fit);
    }
    if !progress.report(0, 1_000_000) {
        return Err(fail("error.cancelled"));
    }
    proof {
        crate::monitor::lemma_agreed(*old(progress), 0, 1_000_000, *progress);
    }
    let (quant, planes) = scan(raw, progress)?;
    proof {
        crate::motion_scan::lemma_lined_count(planes@, raw@.len() as int, quant@.len() as int);
    }
    let c = read_coefficients(raw, &planes, quant.len(), progress)?;
    assert(crate::monitor::climbs(*old(progress), 0, 200_000, 1_000_000, *progress));
    let made = make_record(raw, &quant, &planes, &c, fit, progress);
    let ghost slopes = choose|slopes: Seq<Slopes>|
        crate::wire::bytes_of(made) == crate::wire::unless(
            progress.stopped(),
            recorded(
                raw@,
                quant@,
                planes@,
                c@,
                outside(raw@, quant@, planes@, c@, slopes),
            ),
        ) && #[trigger] asked_once(c@, quant@, slopes, *old(fit), *fit, progress.stopped());
    proof {
        lemma_fit_asked(raw@, quant@, planes@, c@, slopes, *old(fit), *fit, progress.stopped());
    }
    let out = made?;
    assert(crate::monitor::climbs(*old(progress), 0, 680_000, 1_000_000, *progress));
    let again = decode_within(
        &out,
        progress,
        &Share { base: 700_000, span: 300_000, whole: 1_000_000 },
    );
    let out = keep_record(raw, out, again)?;
    let ghost before = *progress;
    if !progress.report(1_000_000, 1_000_000) {
        return Err(fail("error.cancelled"));
    }
    assert(before.told(TOTAL, TOTAL, true, progress));
    Ok(out)
}

/// An encoded movie comes back from its record, whatever slopes it was encoded with.
pub proof fn law_decode_undoes_encode(raw: Seq<u8>, slopes: Seq<Slopes>)
    ensures
        encoded(raw, slopes) matches Ok(out) ==> decoded(out) == Ok::<Seq<u8>, Seq<char>>(raw),
{
}

}
