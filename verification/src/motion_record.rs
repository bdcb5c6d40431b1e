//! The coefficients of a movie, and the record that keeps what is not a coefficient.

use crate::monitor::Monitor;
use crate::motion_pixels::FRAME;
use crate::motion_scan::{geometry, place_of, Plane, MAX_FRAMES, RAW_LIMIT};
use crate::mov_cross::Quant;
use crate::plane::{pack_plane, unpack_plane};
use crate::wire::{fail, put_le, put_signed16, same, Outcome};
use vstd::prelude::*;

verus! {

broadcast use {
    crate::monitor::lemma_climbs_on,
    crate::monitor::lemma_climbs_join,
    crate::monitor::lemma_climbs_up,
};

/// Coefficients with the first `j` of those of a plane put in place.
pub open spec fn placed(c: Seq<i16>, p: Plane, v: Seq<i16>, j: int) -> Seq<i16>
    decreases j,
{
    if j <= 0 {
        c
    } else {
        let (b, k) = ((j - 1) / 64, (j - 1) % 64);
        placed(c, p, v, j - 1).update(
            crate::motion_scan::coefficient_at(
                p.frame as int,
                p.channel as int,
                p.slice as int,
                b,
                k,
            ),
            v[k * crate::motion_scan::blocks_of(p.slice as int) + b],
        )
    }
}

/// Coefficients with those of a plane, which has to be coded in the usual way, put in place.
#[verifier::opaque]
pub open spec fn plane_in(raw: Seq<u8>, p: Plane, c: Seq<i16>) -> Outcome<Seq<i16>> {
    let bytes = raw.subrange(p.offset as int, p.offset + p.len);
    let n = crate::motion_scan::blocks_of(p.slice as int);
    match crate::plane::unpacked_plane(bytes, n) {
        Err(e) => Err(e),
        Ok(v) => match crate::plane::packed_plane(v, n, p.len as int) {
            Err(e) => Err(e),
            Ok(again) => if again != bytes {
                Err("Noncanonical ProRes motion plane"@)
            } else {
                Ok(placed(c, p, v, n * 64))
            },
        },
    }
}

/// Coefficients with those of all planes from number `i` on put in place.
pub open spec fn planes_in(raw: Seq<u8>, planes: Seq<Plane>, i: int, c: Seq<i16>) -> Outcome<Seq<i16>>
    decreases planes.len() - i,
{
    if i >= planes.len() {
        Ok(c)
    } else {
        match plane_in(raw, planes[i], c) {
            Err(e) => Err(e),
            Ok(next) => planes_in(raw, planes, i + 1, next),
        }
    }
}

/// The coefficients of a movie of `frames` frames.
pub open spec fn coefficients(raw: Seq<u8>, planes: Seq<Plane>, frames: int) -> Outcome<Seq<i16>> {
    planes_in(raw, planes, 0, Seq::new((frames * FRAME) as nat, |i: int| 0i16))
}

fn read_plane(raw: &[u8], p: &Plane, c: &mut Vec<i16>) -> (r: Result<(), String>)
    requires
        raw.len() <= RAW_LIMIT,
        p.offset + p.len <= raw.len(),
        p.len <= 65535,
        p.frame < MAX_FRAMES,
        p.channel < 3,
        p.slice < 630,
        (p.frame + 1) * FRAME <= old(c).len(),
    ensures
        final(c)@.len() == old(c)@.len(),
        match plane_in(raw@, *p, old(c)@) {
            Ok(next) => r is Ok && final(c)@ == next,
            Err(e) => r matches Err(m) && m@ == e,
        },
{
    reveal(plane_in);
    let (_, _, blocks) = geometry(p.slice);
    let bytes = &raw[p.offset..p.offset + p.len];
    let values = unpack_plane(bytes, blocks)?;
    let again = pack_plane(&values, blocks, p.len)?;
    if !same(&again, bytes) {
        return Err(fail("Noncanonical ProRes motion plane"));
    }
    let mut j: usize = 0;
    while j < blocks * 64
        invariant
            4 <= blocks <= 32,
            blocks == crate::motion_scan::blocks_of(p.slice as int),
            j <= blocks * 64,
            values@.len() == blocks * 64,
            values.len() == blocks * 64,
            p.frame < MAX_FRAMES,
            p.channel < 3,
            p.slice < 630,
            (p.frame + 1) * FRAME <= c.len(),
            c@.len() == old(c)@.len(),
            c@ == placed(old(c)@, *p, values@, j as int),
        decreases blocks * 64 - j,
    {
        let (b, k): (usize, usize) = (j / 64, j % 64);
        assert(k * blocks + b < blocks * 64 && k * blocks <= 63 * 32) by (nonlinear_arith)
            requires
                k < 64,
                b < blocks,
                blocks <= 32,
        ;
        let at = place_of(p.frame, p.channel, p.slice, b, k);
        let v: i16 = values[k * blocks + b];
        c[at] = v;
        j += 1;
    }
    Ok(())
}

/// Reads the coefficients of a movie.
pub fn read_coefficients<M: Monitor>(raw: &[u8], planes: &[Plane], frames: usize, monitor: &mut M) -> (r:
    Result<Vec<i16>, String>)
    requires
        raw.len() <= RAW_LIMIT,
        frames <= MAX_FRAMES,
        crate::motion_scan::lined(planes@, raw@.len() as int, frames as int),
        planes.len() <= 1_000_000_000,
        !old(monitor).stopped(),
    ensures
        crate::monitor::climbs(*old(monitor), 20_000, 200_000, 1_000_000, *final(monitor)),
        crate::mov_cross::numbers(r) == crate::wire::unless(
            final(monitor).stopped(),
            coefficients(raw@, planes@, frames as int),
        ),
        r matches Ok(c) ==> c@.len() == frames * FRAME,
        planes@.len() > 0 ==> crate::monitor::heeds(*old(monitor), r),
{
    proof {
        assert(crate::monitor::goal(200_000));
        crate::monitor::lemma_stays(*monitor, 20_000, 20_000, 1_000_000);
    }
    let mut c: Vec<i16> = vec![0i16; frames * FRAME];
    let count: usize = planes.len();
    assert(c@ =~= Seq::new((frames * FRAME) as nat, |i: int| 0i16));
    let ghost whole = coefficients(raw@, planes@, frames as int);
    let ghost mut top: int = 20_000;
    let ghost mut last: int = 0;
    let mut i: usize = 0;
    while i < count
        invariant
            20_000 <= top <= 200_000,
            0 <= last <= i,
            i == 0 ==> top == 20_000,
            i > 0 ==> 0 <= last < i && top == 20_000 + last * 180_000 / count as int,
            crate::monitor::climbs(*old(monitor), 20_000, top, 1_000_000, *monitor),
            i <= count,
            count == planes.len(),
            count <= 1_000_000_000,
            raw.len() <= RAW_LIMIT,
            frames <= MAX_FRAMES,
            crate::motion_scan::lined(planes@, raw@.len() as int, frames as int),
            !monitor.stopped(),
            c@.len() == frames * FRAME,
            whole == coefficients(raw@, planes@, frames as int),
            whole == planes_in(raw@, planes@, i as int, c@),
            i == 0 ==> *monitor == *old(monitor),
            i > 0 ==> !crate::monitor::refuses(*old(monitor)),
        decreases count - i,
    {
        if i % 128 == 0 {
            let part: u64 = i as u64 * 180_000 / count as u64;
            assert(part <= 180_000) by (nonlinear_arith)
                requires
                    part == (i as u64 * 180_000) / count as int,
                    i <= count,
                    count > 0,
            ;
            let ghost then = *monitor;
            proof {
                assert(crate::monitor::goal(200_000));
                crate::monitor::lemma_part(last, i as int, 180_000, count as int);
                last = i as int;
                top = 20_000 + part;
            }
            if !monitor.report(20_000 + part, 1_000_000) {
                return Err(fail("error.cancelled"));
            }
            proof {
                if i == 0 {
                    crate::monitor::lemma_agreed(then, (20_000 + part) as u64, 1_000_000, *monitor);
                }
            }
        }
        assert(planes@[i as int].frame < frames);
        assert(crate::monitor::goal(200_000));
        read_plane(raw, &planes[i], &mut c)?;
        i += 1;
    }
    Ok(c)
}

/// The weights of all frames.
pub open spec fn weights(q: Seq<Quant>) -> Seq<u8>
    decreases q.len(),
{
    if q.len() == 0 {
        Seq::empty()
    } else {
        weights(q.drop_last()) + crate::motion_scan::flat(q.last())
    }
}

/// The twelve bytes that describe a plane.
pub open spec fn described(p: Plane) -> Seq<u8> {
    crate::wire::le_bytes(p.offset as int, 4) + crate::wire::le_bytes(p.len as int, 2)
        + crate::wire::le_bytes(p.frame as int, 2) + crate::wire::le_bytes(p.slice as int, 2) + seq![
        p.channel as u8,
        0u8,
    ]
}

pub open spec fn descriptions(v: Seq<Plane>) -> Seq<u8>
    decreases v.len(),
{
    if v.len() == 0 {
        Seq::empty()
    } else {
        descriptions(v.drop_last()) + described(v.last())
    }
}

/// The bytes from `end` on that lie in none of the planes from number `i` on.
pub open spec fn between(raw: Seq<u8>, planes: Seq<Plane>, i: int, end: int) -> Seq<u8>
    decreases planes.len() - i,
{
    if i >= planes.len() {
        raw.subrange(end, raw.len() as int)
    } else {
        raw.subrange(end, planes[i].offset as int) + between(
            raw,
            planes,
            i + 1,
            planes[i].offset + planes[i].len,
        )
    }
}

/// What a record keeps beside the coefficients.
pub open spec fn side_bytes(
    raw: Seq<u8>,
    q: Seq<Quant>,
    planes: Seq<Plane>,
    m: crate::motion_frames::Residual,
) -> Seq<u8> {
    weights(q) + descriptions(planes) + m.modes + crate::mov_cross::pairs(
        crate::motion_search::wide(m.mx),
    ) + crate::mov_cross::pairs(crate::motion_search::wide(m.my)) + between(raw, planes, 0, 0)
}

fn put_weights(q: &[Quant], out: &mut Vec<u8>)
    ensures
        final(out)@ == old(out)@ + weights(q@),
{
    let ghost head = out@;
    let mut f: usize = 0;
    assert(head + weights(q@.take(0)) =~= head);
    while f < q.len()
        invariant
            f <= q.len(),
            out@ == head + weights(q@.take(f as int)),
        decreases q.len() - f,
    {
        let ghost before = out@;
        out.extend_from_slice(q[f][0].as_slice());
        out.extend_from_slice(q[f][1].as_slice());
        out.extend_from_slice(q[f][2].as_slice());
        proof {
            let x = q@[f as int];
            let s = x@[0]@ + x@[1]@ + x@[2]@;
            assert forall|i: int| 0 <= i < 192 implies s[i] == #[trigger] crate::motion_scan::flat(x)[i] by {
                assert(i / 64 == 0 || i / 64 == 1 || i / 64 == 2);
            }
            assert(s =~= crate::motion_scan::flat(x));
            assert(q@.take(f as int + 1).drop_last() =~= q@.take(f as int));
            assert(out@ =~= before + s);
            assert(out@ =~= head + weights(q@.take(f as int + 1)));
        }
        f += 1;
    }
    assert(q@.take(q@.len() as int) =~= q@);
}

fn put_descriptions(planes: &[Plane], out: &mut Vec<u8>)
    requires
        forall|i: int| 0 <= i < planes@.len() ==> (#[trigger] planes@[i]).channel < 3,
    ensures
        final(out)@ == old(out)@ + descriptions(planes@),
{
    let ghost head = out@;
    let mut i: usize = 0;
    assert(head + descriptions(planes@.take(0)) =~= head);
    while i < planes.len()
        invariant
            i <= planes.len(),
            forall|i: int| 0 <= i < planes@.len() ==> (#[trigger] planes@[i]).channel < 3,
            out@ == head + descriptions(planes@.take(i as int)),
        decreases planes.len() - i,
    {
        let ghost before = out@;
        let p: Plane = planes[i];
        put_le(p.offset as u64, 4, out);
        put_le(p.len as u64, 2, out);
        put_le(p.frame as u64, 2, out);
        put_le(p.slice as u64, 2, out);
        out.push(p.channel as u8);
        out.push(0);
        proof {
            assert(out@ =~= before + described(p));
            assert(planes@.take(i as int + 1).drop_last() =~= planes@.take(i as int));
            assert(out@ =~= head + descriptions(planes@.take(i as int + 1)));
        }
        i += 1;
    }
    assert(planes@.take(planes@.len() as int) =~= planes@);
}

fn put_numbers(v: &[i16], out: &mut Vec<u8>)
    ensures
        final(out)@ == old(out)@ + crate::mov_cross::pairs(crate::motion_search::wide(v@)),
{
    let ghost head = out@;
    let ghost w = crate::motion_search::wide(v@);
    let mut i: usize = 0;
    assert(head + crate::mov_cross::pairs(w.take(0)) =~= head);
    while i < v.len()
        invariant
            i <= v.len(),
            w == crate::motion_search::wide(v@),
            out@ == head + crate::mov_cross::pairs(w.take(i as int)),
        decreases v.len() - i,
    {
        let ghost part = w.take(i as int + 1);
        assert(part.drop_last() =~= w.take(i as int));
        put_signed16(v[i], out);
        assert(out@ =~= head + crate::mov_cross::pairs(part));
        i += 1;
    }
    assert(w.take(v@.len() as int) =~= w);
}

fn put_between(raw: &[u8], planes: &[Plane], out: &mut Vec<u8>)
    requires
        crate::motion_scan::lined(planes@, raw@.len() as int, MAX_FRAMES as int),
    ensures
        final(out)@ == old(out)@ + between(raw@, planes@, 0, 0),
{
    let ghost head = out@;
    let ghost whole = between(raw@, planes@, 0, 0);
    let mut end: usize = 0;
    let mut i: usize = 0;
    while i < planes.len()
        invariant
            i <= planes.len(),
            crate::motion_scan::lined(planes@, raw@.len() as int, MAX_FRAMES as int),
            end <= raw.len(),
            i == 0 ==> end == 0,
            i > 0 ==> end == planes@[i - 1].offset + planes@[i - 1].len,
            head + whole == out@ + between(raw@, planes@, i as int, end as int),
        decreases planes.len() - i,
    {
        let p: Plane = planes[i];
        let ghost before = out@;
        proof {
            if i > 0 {
                assert(planes@[i - 1].offset + planes@[i - 1].len <= planes@[i as int].offset);
            }
            assert(planes@[i as int].offset + planes@[i as int].len <= raw@.len());
        }
        out.extend_from_slice(&raw[end..p.offset]);
        proof {
            let gap = raw@.subrange(end as int, p.offset as int);
            let rest = between(raw@, planes@, i + 1, p.offset + p.len);
            assert(before + (gap + rest) =~= (before + gap) + rest);
            assert(out@ =~= before + gap);
        }
        end = p.offset + p.len;
        i += 1;
    }
    let ghost before = out@;
    out.extend_from_slice(&raw[end..raw.len()]);
    assert(out@ =~= before + raw@.subrange(end as int, raw@.len() as int));
}

/// Puts together what a record keeps beside the coefficients.
pub fn put_side(
    raw: &[u8],
    q: &[Quant],
    planes: &[Plane],
    m: &crate::motion_frames::MotionResidual,
) -> (out: Vec<u8>)
    requires
        crate::motion_scan::lined(planes@, raw@.len() as int, MAX_FRAMES as int),
    ensures
        out@ == side_bytes(raw@, q@, planes@, m@),
{
    let mut out: Vec<u8> = Vec::new();
    put_weights(q, &mut out);
    put_descriptions(planes, &mut out);
    out.extend_from_slice(&m.modes);
    put_numbers(&m.mx, &mut out);
    put_numbers(&m.my, &mut out);
    put_between(raw, planes, &mut out);
    assert(out@ =~= side_bytes(raw@, q@, planes@, m@));
    out
}

}
