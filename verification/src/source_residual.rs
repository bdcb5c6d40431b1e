//! How the errors of expected coefficients are coded: block by block, in the light of what the same
//! block of another frame had, or else of how strong the signal is.

use crate::source_codec::band_rows;
use crate::source_frames::{reuse, to_i16, Expectation, Expected, Seen, Sight};
use crate::source_planes::Image;
use crate::source_rc::{Dec, Enc, Reading, Residual, ResidualModel, Writing};
use vstd::prelude::*;

verus! {

/// How many contexts the strength of signals gives.
pub const STRENGTHS: usize = 768;

/// How many contexts other frames give.
pub const TIMES: usize = 6;

/// What is known of errors: those of blocks that nothing can be compared with, and the others.
#[verifier::ext_equal]
pub struct Lore {
    pub spatial: Residual,
    pub temporal: Residual,
}

impl Lore {
    pub open spec fn fresh() -> Lore {
        Lore { spatial: Residual::fresh(STRENGTHS as nat), temporal: Residual::fresh(TIMES as nat) }
    }
}

pub struct ResidualModels {
    pub spatial: ResidualModel,
    pub temporal: ResidualModel,
}

impl View for ResidualModels {
    type V = Lore;

    open spec fn view(&self) -> Lore {
        Lore { spatial: self.spatial@, temporal: self.temporal@ }
    }
}

impl ResidualModels {
    pub open spec fn wf(&self) -> bool {
        &&& self.spatial.wf()
        &&& self.temporal.wf()
        &&& self.spatial.ctxs == STRENGTHS
        &&& self.temporal.ctxs == TIMES
    }

    pub fn new() -> (m: Self)
        ensures
            m.wf(),
            m@ == Lore::fresh(),
    {
        ResidualModels { spatial: ResidualModel::new(STRENGTHS), temporal: ResidualModel::new(TIMES) }
    }
}

/// Where number `k` of the 192 coefficients of a block lies, in three planes of `n` that are `w` wide.
pub open spec fn place(w: int, n: int, by: int, bx: int, k: int) -> int {
    k / 64 * n + (by * 8 + k / 8 % 8) * w + bx * 8 + k % 8
}

/// The context of a coefficient whose block nothing can be compared with.
pub open spec fn strength_context(e: Expectation, at: int, k: int) -> int {
    let (u, v) = (k / 8 % 8, k % 8);
    let band = if u + v < 7 {
        u + v
    } else {
        7
    };
    let bucket = if u == 0 && v == 0 {
        0
    } else if e.strength[at] < 31 {
        e.strength[at] as int
    } else {
        31
    };
    (k / 64 * 8 + band) * 32 + bucket
}

/// The context of a coefficient whose block is compared with that of another frame.
pub open spec fn time_context(k: int) -> int {
    k / 64 * 2 + if k % 64 == 0 {
        1int
    } else {
        0
    }
}

/// A number, or its opposite.
pub open spec fn turned(v: int, negative: bool) -> int {
    if negative {
        -v
    } else {
        v
    }
}

/// A frame as the code of its errors sees it.
#[verifier::ext_equal]
pub struct Field {
    pub w: int,
    pub n: int,
    pub expected: Expectation,
}

/// Writes the errors of a block from number `k` on.
pub open spec fn put_block(
    m: Lore,
    s: Writing,
    f: Field,
    resid: Seq<i16>,
    hit: Option<Seq<i16>>,
    by: int,
    bx: int,
    k: int,
) -> (Lore, Writing)
    decreases 192 - k,
{
    if k >= 192 {
        (m, s)
    } else {
        let at = place(f.w, f.n, by, bx, k);
        match hit {
            Some(other) => {
                let (temporal, s1) = m.temporal.encode(s, time_context(k), resid[at] - other[at]);
                put_block(Lore { temporal, ..m }, s1, f, resid, hit, by, bx, k + 1)
            },
            None => {
                let (spatial, s1) = m.spatial.encode(
                    s,
                    strength_context(f.expected, at, k),
                    turned(resid[at] as int, f.expected.negative[at]),
                );
                put_block(Lore { spatial, ..m }, s1, f, resid, hit, by, bx, k + 1)
            },
        }
    }
}

/// Reads the errors of a block from number `k` on.
pub open spec fn get_block(
    m: Lore,
    s: Reading,
    f: Field,
    resid: Seq<i16>,
    hit: Option<Seq<i16>>,
    by: int,
    bx: int,
    k: int,
) -> (Lore, Reading, Seq<i16>)
    decreases 192 - k,
{
    if k >= 192 {
        (m, s, resid)
    } else {
        let at = place(f.w, f.n, by, bx, k);
        match hit {
            Some(other) => {
                let (v, temporal, s1) = m.temporal.decode(s, time_context(k));
                let r = crate::source_frames::wrap16(other[at] + v) as i16;
                get_block(Lore { temporal, ..m }, s1, f, resid.update(at, r), hit, by, bx, k + 1)
            },
            None => {
                let (v, spatial, s1) = m.spatial.decode(s, strength_context(f.expected, at, k));
                let r = crate::source_frames::wrap16(turned(v, f.expected.negative[at])) as i16;
                get_block(Lore { spatial, ..m }, s1, f, resid.update(at, r), hit, by, bx, k + 1)
            },
        }
    }
}

/// The errors that a block is compared with.
pub open spec fn hit_at(cands: Seq<Sight>, picture: Image, qmb: Seq<u8>, by: int, bx: int) -> Option<Seq<i16>> {
    match crate::source_frames::reused(cands, picture, qmb, by, bx, 0) {
        Some(i) => Some(cands[i].resid),
        None => None,
    }
}

/// Writes the errors of the blocks from row `by` and column `bx` on, up to row `end`.
pub open spec fn put_blocks(
    m: Lore,
    s: Writing,
    f: Field,
    cands: Seq<Sight>,
    now: Sight,
    end: int,
    by: int,
    bx: int,
) -> (Lore, Writing)
    decreases end - by, f.w / 8 - bx,
{
    if by >= end {
        (m, s)
    } else if bx >= f.w / 8 {
        put_blocks(m, s, f, cands, now, end, by + 1, 0)
    } else {
        let hit = hit_at(cands, now.picture, now.qmb, by, bx);
        let (m1, s1) = put_block(m, s, f, now.resid, hit, by, bx, 0);
        put_blocks(m1, s1, f, cands, now, end, by, bx + 1)
    }
}

/// Reads the errors of the blocks from row `by` and column `bx` on, up to row `end`.
pub open spec fn get_blocks(
    m: Lore,
    s: Reading,
    f: Field,
    cands: Seq<Sight>,
    now: Sight,
    end: int,
    by: int,
    bx: int,
) -> (Lore, Reading, Seq<i16>)
    decreases end - by, f.w / 8 - bx,
{
    if by >= end {
        (m, s, now.resid)
    } else if bx >= f.w / 8 {
        get_blocks(m, s, f, cands, now, end, by + 1, 0)
    } else {
        let hit = hit_at(cands, now.picture, now.qmb, by, bx);
        let (m1, s1, resid) = get_block(m, s, f, now.resid, hit, by, bx, 0);
        get_blocks(m1, s1, f, cands, Sight { resid, ..now }, end, by, bx + 1)
    }
}

/// What a frame lets expect.
pub open spec fn field_of(picture: Image, expected: Expectation) -> Field {
    Field { w: picture.w, n: picture.w * picture.h, expected }
}

/// A band after the errors of a frame were written to it.
pub open spec fn put_band(
    band: (Lore, Writing),
    expected: Expectation,
    cands: Seq<Sight>,
    now: Sight,
    b: int,
) -> (Lore, Writing) {
    let (b0, b1) = crate::source_band::rows_of(now.picture.h / 8, b);
    put_blocks(band.0, band.1, field_of(now.picture, expected), cands, now, b1, b0, 0)
}

/// All bands after the errors of a frame were written to them.
pub open spec fn put_frame(
    bands: Seq<(Lore, Writing)>,
    expected: Expectation,
    cands: Seq<Sight>,
    now: Sight,
) -> Seq<(Lore, Writing)> {
    Seq::new(bands.len(), |b: int| put_band(bands[b], expected, cands, now, b))
}

/// The bands from number `b` on after the errors of a frame were read from them, and the errors.
pub open spec fn get_frame(
    bands: Seq<(Lore, Reading)>,
    expected: Expectation,
    cands: Seq<Sight>,
    now: Sight,
    b: int,
) -> (Seq<(Lore, Reading)>, Seq<i16>)
    decreases bands.len() - b,
{
    if b < 0 || b >= bands.len() {
        (bands, now.resid)
    } else {
        let (b0, b1) = crate::source_band::rows_of(now.picture.h / 8, b);
        let (m, s, resid) = get_blocks(
            bands[b].0,
            bands[b].1,
            field_of(now.picture, expected),
            cands,
            now,
            b1,
            b0,
            0,
        );
        get_frame(bands.update(b, (m, s)), expected, cands, Sight { resid, ..now }, b + 1)
    }
}

/// Whether the errors of a block can be told apart: those of the frame, and what was expected.
spec fn ready(w: int, h: int, e: Expectation, len: int) -> bool {
    &&& 16 <= w <= 8192
    &&& 16 <= h <= 8192
    &&& len == 3 * (w * h)
    &&& e.fits(w * h)
}

pub proof fn lemma_place(w: int, h: int, by: int, bx: int, k: int)
    requires
        16 <= w <= 8192,
        16 <= h <= 8192,
        0 <= by,
        by * 8 + 8 <= h,
        0 <= bx,
        bx * 8 + 8 <= w,
        0 <= k < 192,
    ensures
        0 <= place(w, w * h, by, bx, k) < 3 * (w * h),
        0 <= (by * 8 + k / 8 % 8) * w < w * h,
        0 <= k / 64 * (w * h) <= 2 * (w * h),
        0 <= w * h <= 8192 * 8192,
{
    let y = by * 8 + k / 8 % 8;
    let x = bx * 8 + k % 8;
    let p = k / 64;
    assert(0 <= y * w && y * w + x < w * h) by (nonlinear_arith)
        requires
            0 <= y < h,
            0 <= x < w,
    ;
    assert(0 <= p * (w * h) <= 2 * (w * h) && 0 <= w * h <= 8192 * 8192) by (nonlinear_arith)
        requires
            0 <= p <= 2,
            0 <= w <= 8192,
            0 <= h <= 8192,
    ;
}

fn find_place(w: usize, h: usize, by: usize, bx: usize, k: usize) -> (at: usize)
    requires
        16 <= w <= 8192,
        16 <= h <= 8192,
        by * 8 + 8 <= h,
        bx * 8 + 8 <= w,
        k < 192,
    ensures
        at == place(w as int, w * h, by as int, bx as int, k as int),
        at < 3 * (w * h),
{
    proof {
        lemma_place(w as int, h as int, by as int, bx as int, k as int);
    }
    k / 64 * (w * h) + (by * 8 + k / 8 % 8) * w + bx * 8 + k % 8
}

fn find_strength(e: &Expected, at: usize, k: usize) -> (ctx: usize)
    requires
        at < e.strength@.len(),
        k < 192,
    ensures
        ctx == strength_context(e@, at as int, k as int),
        ctx < STRENGTHS,
{
    let (u, v) = (k / 8 % 8, k % 8);
    let band: usize = if u + v < 7 {
        u + v
    } else {
        7
    };
    let bucket: usize = if u == 0 && v == 0 {
        0
    } else if e.strength[at] < 31 {
        e.strength[at] as usize
    } else {
        31
    };
    (k / 64 * 8 + band) * 32 + bucket
}

fn find_time(k: usize) -> (ctx: usize)
    requires
        k < 192,
    ensures
        ctx == time_context(k as int),
        ctx < TIMES,
{
    k / 64 * 2 + if k % 64 == 0 {
        1
    } else {
        0
    }
}

/// Writes the errors of a block.
fn write_block(
    m: &mut ResidualModels,
    e: &mut Enc,
    expected: &Expected,
    w: usize,
    h: usize,
    resid: &Vec<i16>,
    hit: Option<&Vec<i16>>,
    by: usize,
    bx: usize,
)
    requires
        old(m).wf(),
        old(e)@.wf(),
        old(e).cache_size < 0x7000_0000_0000_0000,
        ready(w as int, h as int, expected@, resid@.len() as int),
        hit matches Some(o) ==> o@.len() == resid@.len(),
        by * 8 + 8 <= h,
        bx * 8 + 8 <= w,
    ensures
        final(m).wf(),
        final(e)@.wf(),
        final(e).cache_size <= old(e).cache_size + 13440,
        (final(m)@, final(e)@) == put_block(
            old(m)@,
            old(e)@,
            (Field { w: w as int, n: w * h, expected: expected@ }),
            resid@,
            (match hit {
                Some(o) => Some(o@),
                None => None,
            }),
            by as int,
            bx as int,
            0,
        ),
{
    let ghost f = Field { w: w as int, n: w * h, expected: expected@ };
    let ghost other = match hit {
        Some(o) => Some(o@),
        None => None,
    };
    let ghost whole = put_block(m@, e@, f, resid@, other, by as int, bx as int, 0);
    let mut k: usize = 0;
    while k < 192
        invariant
            k <= 192,
            m.wf(),
            e@.wf(),
            e.cache_size <= old(e).cache_size + 70 * k,
            old(e).cache_size < 0x7000_0000_0000_0000,
            ready(w as int, h as int, expected@, resid@.len() as int),
            hit matches Some(o) ==> o@.len() == resid@.len(),
            by * 8 + 8 <= h,
            bx * 8 + 8 <= w,
            f == (Field { w: w as int, n: w * h, expected: expected@ }),
            other == (match hit {
                Some(o) => Some(o@),
                None => None,
            }),
            whole == put_block(m@, e@, f, resid@, other, by as int, bx as int, k as int),
        decreases 192 - k,
    {
        let at = find_place(w, h, by, bx, k);
        let r: i32 = resid[at] as i32;
        match hit {
            Some(o) => {
                m.temporal.encode(e, find_time(k), r - o[at] as i32);
            },
            None => {
                let v: i32 = if expected.negative[at] {
                    -r
                } else {
                    r
                };
                m.spatial.encode(e, find_strength(expected, at, k), v);
            },
        }
        k += 1;
    }
}

/// Reads the errors of a block.
fn read_block(
    m: &mut ResidualModels,
    d: &mut Dec<'_>,
    expected: &Expected,
    w: usize,
    h: usize,
    resid: &mut Vec<i16>,
    hit: Option<&Vec<i16>>,
    by: usize,
    bx: usize,
)
    requires
        old(m).wf(),
        old(d)@.wf(),
        ready(w as int, h as int, expected@, old(resid)@.len() as int),
        hit matches Some(o) ==> o@.len() == old(resid)@.len(),
        by * 8 + 8 <= h,
        bx * 8 + 8 <= w,
    ensures
        final(m).wf(),
        final(d)@.wf(),
        final(d).data == old(d).data,
        final(resid)@.len() == old(resid)@.len(),
        (final(m)@, final(d)@, final(resid)@) == get_block(
            old(m)@,
            old(d)@,
            (Field { w: w as int, n: w * h, expected: expected@ }),
            old(resid)@,
            (match hit {
                Some(o) => Some(o@),
                None => None,
            }),
            by as int,
            bx as int,
            0,
        ),
{
    let ghost f = Field { w: w as int, n: w * h, expected: expected@ };
    let ghost other = match hit {
        Some(o) => Some(o@),
        None => None,
    };
    let ghost whole = get_block(m@, d@, f, resid@, other, by as int, bx as int, 0);
    let mut k: usize = 0;
    while k < 192
        invariant
            k <= 192,
            m.wf(),
            d@.wf(),
            d.data == old(d).data,
            resid@.len() == old(resid)@.len(),
            ready(w as int, h as int, expected@, resid@.len() as int),
            hit matches Some(o) ==> o@.len() == resid@.len(),
            by * 8 + 8 <= h,
            bx * 8 + 8 <= w,
            f == (Field { w: w as int, n: w * h, expected: expected@ }),
            other == (match hit {
                Some(o) => Some(o@),
                None => None,
            }),
            whole == get_block(m@, d@, f, resid@, other, by as int, bx as int, k as int),
        decreases 192 - k,
    {
        let at = find_place(w, h, by, bx, k);
        let v: i32 = match hit {
            Some(o) => o[at] as i32 + m.temporal.decode(d, find_time(k)),
            None => {
                let v: i32 = m.spatial.decode(d, find_strength(expected, at, k));
                if expected.negative[at] {
                    -v
                } else {
                    v
                }
            },
        };
        resid.set(at, to_i16(v));
        k += 1;
    }
}

/// A band that errors are written to.
pub struct Band {
    pub models: ResidualModels,
    pub enc: Enc,
}

impl View for Band {
    type V = (Lore, Writing);

    open spec fn view(&self) -> (Lore, Writing) {
        (self.models@, self.enc@)
    }
}

/// A band that errors are read from.
pub struct ReadBand<'a> {
    pub models: ResidualModels,
    pub dec: Dec<'a>,
}

impl<'a> View for ReadBand<'a> {
    type V = (Lore, Reading);

    open spec fn view(&self) -> (Lore, Reading) {
        (self.models@, self.dec@)
    }
}

/// The most bytes that the errors of a frame can hold back in a band.
pub const SWELL: u64 = 0x4_0000_0000;

/// Whether frames can be compared with a frame.
pub open spec fn comparable(cands: Seq<&Seen>, now: Seen, expected: Expectation) -> bool {
    &&& crate::source_frames::all_seen(cands)
    &&& now.wf()
    &&& expected.fits(now@.picture.w * now@.picture.h)
}

/// Writes the errors of a frame that lie in a band.
pub fn write_band(band: &mut Band, expected: &Expected, cands: &Vec<&Seen>, now: &Seen, b: usize)
    requires
        old(band).models.wf(),
        old(band).enc@.wf(),
        old(band).enc.cache_size < 0x6000_0000_0000_0000,
        comparable(cands@, *now, expected@),
        b < crate::streams::STREAMS,
    ensures
        final(band).models.wf(),
        final(band).enc@.wf(),
        final(band).enc.cache_size <= old(band).enc.cache_size + SWELL,
        final(band)@ == put_band(
            old(band)@,
            expected@,
            crate::source_frames::sights(cands@),
            now@,
            b as int,
        ),
{
    proof {
        now.picture.lemma_shape();
    }
    let (w, h) = (now.picture.w, now.picture.h);
    let (b0, b1) = band_rows(h / 8, b);
    let ghost all = crate::source_frames::sights(cands@);
    let ghost f = field_of(now@.picture, expected@);
    let ghost whole = put_blocks(band@.0, band@.1, f, all, now@, b1 as int, b0 as int, 0);
    let bw: usize = w / 8;
    let mut by: usize = b0;
    let mut bx: usize = 0;
    let ghost mut count: int = 0;
    while by < b1
        invariant
            b0 <= by <= b1 <= h / 8,
            bx <= bw,
            bw == w / 8,
            by == b1 ==> bx == 0,
            count == (by - b0) * bw + bx,
            count <= 1024 * 1024,
            band.models.wf(),
            band.enc@.wf(),
            band.enc.cache_size <= old(band).enc.cache_size + 13440 * count,
            old(band).enc.cache_size < 0x6000_0000_0000_0000,
            comparable(cands@, *now, expected@),
            w == now@.picture.w,
            h == now@.picture.h,
            w == now.picture.w,
            h == now.picture.h,
            all == crate::source_frames::sights(cands@),
            f == field_of(now@.picture, expected@),
            whole == put_blocks(
                band@.0,
                band@.1,
                f,
                all,
                now@,
                b1 as int,
                by as int,
                bx as int,
            ),
        decreases b1 - by, bw - bx,
    {
        if bx >= bw {
            proof {
                assert((by - b0) * bw + bw == (by + 1 - b0) * bw) by (nonlinear_arith);
            }
            by += 1;
            bx = 0;
        } else {
            let hit = reuse(cands, &now.picture, &now.qmb, by, bx);
            let other: Option<&Vec<i16>> = match hit {
                Some(i) => {
                    let c: &Seen = cands[i];
                    assert(cands@[i as int].wf());
                    Some(&c.resid)
                },
                None => None,
            };
            proof {
                assert(count + 1 <= 1024 * 1024) by (nonlinear_arith)
                    requires
                        count == (by - b0) * bw + bx,
                        0 <= by - b0,
                        by - b0 < 1024,
                        0 <= bx < bw,
                        bw <= 1024,
                ;
                count = count + 1;
            }
            write_block(&mut band.models, &mut band.enc, expected, w, h, &now.resid, other, by, bx);
            bx += 1;
        }
    }
}

/// Reads the errors of a frame that lie in a band.
pub fn read_band(band: &mut ReadBand<'_>, expected: &Expected, cands: &Vec<&Seen>, now: &mut Seen, b: usize)
    requires
        old(band).models.wf(),
        old(band).dec@.wf(),
        comparable(cands@, *old(now), expected@),
        b < crate::streams::STREAMS,
    ensures
        final(band).models.wf(),
        final(band).dec@.wf(),
        final(band).dec.data == old(band).dec.data,
        final(now).wf(),
        final(now)@.picture == old(now)@.picture,
        final(now)@.qmb == old(now)@.qmb,
        ({
            let (b0, b1) = crate::source_band::rows_of(old(now)@.picture.h / 8, b as int);
            let then = get_blocks(
                old(band)@.0,
                old(band)@.1,
                field_of(old(now)@.picture, expected@),
                crate::source_frames::sights(cands@),
                old(now)@,
                b1,
                b0,
                0,
            );
            final(band)@ == (then.0, then.1) && final(now)@.resid == then.2
        }),
{
    proof {
        now.picture.lemma_shape();
    }
    let (w, h) = (now.picture.w, now.picture.h);
    let (b0, b1) = band_rows(h / 8, b);
    let ghost start = now@;
    let ghost all = crate::source_frames::sights(cands@);
    let ghost f = field_of(now@.picture, expected@);
    let ghost whole = get_blocks(band@.0, band@.1, f, all, now@, b1 as int, b0 as int, 0);
    let bw: usize = w / 8;
    let mut by: usize = b0;
    let mut bx: usize = 0;
    while by < b1
        invariant
            b0 <= by <= b1 <= h / 8,
            bx <= bw,
            bw == w / 8,
            band.models.wf(),
            band.dec@.wf(),
            band.dec.data == old(band).dec.data,
            comparable(cands@, *now, expected@),
            now@.picture == start.picture,
            now@.qmb == start.qmb,
            w == now@.picture.w,
            h == now@.picture.h,
            w == now.picture.w,
            h == now.picture.h,
            all == crate::source_frames::sights(cands@),
            f == field_of(start.picture, expected@),
            whole == get_blocks(
                band@.0,
                band@.1,
                f,
                all,
                now@,
                b1 as int,
                by as int,
                bx as int,
            ),
        decreases b1 - by, bw - bx,
    {
        if bx >= bw {
            by += 1;
            bx = 0;
        } else {
            let hit = reuse(cands, &now.picture, &now.qmb, by, bx);
            let other: Option<&Vec<i16>> = match hit {
                Some(i) => {
                    let c: &Seen = cands[i];
                    assert(cands@[i as int].wf());
                    Some(&c.resid)
                },
                None => None,
            };
            let ghost before = now@;
            read_block(
                &mut band.models,
                &mut band.dec,
                expected,
                w,
                h,
                &mut now.resid,
                other,
                by,
                bx,
            );
            assert(now@ =~= (Sight { resid: now.resid@, ..before }));
            bx += 1;
        }
    }
    assert(now@ =~= (Sight { resid: now.resid@, ..start }));
}

}
