//! What a frame of a film says of the pixels of an animated picture: the film is scaled down, and
//! each pixel gets the colour of the palette that is nearest.

use crate::gif_film::{MovFrame, Strip};
use crate::gif_split::GifFrame;
use crate::plane::unpack_plane;
use crate::transform::idct;
use crate::wire::{floor_div, Outcome};
use std::collections::HashMap;
use vstd::prelude::*;

verus! {

/// The width and height of a frame of a film, padded to whole macroblocks.
pub const SIDE: usize = 1008;

pub const AREA: usize = 1_016_064;

/// A plane with the pixels of one block put in.
pub open spec fn stamped(plane: Seq<int>, x: int, y: int, px: Seq<int>) -> Seq<int> {
    Seq::new(
        plane.len(),
        |p: int|
            if x <= p % 1008 < x + 8 && y <= p / 1008 < y + 8 {
                px[(p / 1008 - y) * 8 + p % 1008 - x]
            } else {
                plane[p]
            },
    )
}

/// The coefficients of one of the blocks of a slice.
pub open spec fn block_of(c: Seq<i16>, blocks: int, b: int) -> Seq<i16> {
    Seq::new(64, |i: int| c[i * blocks + b])
}

/// Where a block lies in its row of macroblocks: by rows for luma, by columns for chroma.
pub open spec fn column_of(b: int, chroma: bool) -> int {
    b / 4 * 2 + if chroma {
        b % 4 / 2
    } else {
        b % 2
    }
}

pub open spec fn line_of(b: int, chroma: bool) -> int {
    if chroma {
        b % 2
    } else {
        b % 4 / 2
    }
}

/// A plane with the first `n` blocks of a slice put in.
pub open spec fn with_blocks(plane: Seq<int>, c: Seq<i16>, q: Seq<u8>, s: Strip, chroma: bool, n: int) -> Seq<int>
    decreases n,
{
    if n <= 0 {
        plane
    } else {
        let b = n - 1;
        stamped(
            with_blocks(plane, c, q, s, chroma, b),
            (s.x + column_of(b, chroma)) * 8,
            (s.y + line_of(b, chroma)) * 8,
            crate::transform::pixels_of(block_of(c, s.blocks as int, b), q),
        )
    }
}

/// A plane with a slice put in, whose coefficients lie at `at`.
pub open spec fn with_plane(
    plane: Seq<int>,
    raw: Seq<u8>,
    at: int,
    len: int,
    q: Seq<u8>,
    s: Strip,
    chroma: bool,
) -> Outcome<Seq<int>> {
    match crate::plane::unpacked_plane(raw.subrange(at, at + len), s.blocks as int) {
        Err(e) => Err(e),
        Ok(c) => Ok(with_blocks(plane, c, q, s, chroma, s.blocks as int)),
    }
}

/// The planes of a frame.
#[verifier::ext_equal]
pub struct Canvas {
    pub luma: Seq<int>,
    pub blue: Seq<int>,
    pub red: Seq<int>,
}

impl Canvas {
    pub open spec fn blank() -> Canvas {
        let zeros = Seq::new(AREA as nat, |i: int| 0int);
        Canvas { luma: zeros, blue: zeros, red: zeros }
    }
}

pub open spec fn with_strip(
    p: Canvas,
    raw: Seq<u8>,
    s: Strip,
    luma: Seq<u8>,
    chroma: Seq<u8>,
) -> Outcome<Canvas> {
    match with_plane(p.luma, raw, s.luma_at as int, s.luma_len as int, luma, s, false) {
        Err(e) => Err(e),
        Ok(a) => match with_plane(
            p.blue,
            raw,
            s.blue_at as int,
            s.blue_len as int,
            chroma,
            s,
            true,
        ) {
            Err(e) => Err(e),
            Ok(b) => match with_plane(
                p.red,
                raw,
                s.red_at as int,
                s.red_len as int,
                chroma,
                s,
                true,
            ) {
                Err(e) => Err(e),
                Ok(c) => Ok(Canvas { luma: a, blue: b, red: c }),
            },
        },
    }
}

/// The planes of a frame, where those of the slices before number `i` are there.
pub open spec fn painted_from(raw: Seq<u8>, m: crate::gif_film::Still, i: int, p: Canvas) -> Outcome<Canvas>
    decreases m.slices.len() - i,
{
    if i < 0 || i >= m.slices.len() {
        Ok(p)
    } else {
        match with_strip(p, raw, m.slices[i], m.luma, m.chroma) {
            Err(e) => Err(e),
            Ok(next) => painted_from(raw, m, i + 1, next),
        }
    }
}

/// The planes of a frame.
pub open spec fn painted(raw: Seq<u8>, m: crate::gif_film::Still) -> Outcome<Canvas> {
    painted_from(raw, m, 0, Canvas::blank())
}

/// Red, green or blue of a pixel, for `k` from 0 to 2.
pub open spec fn shade(p: Canvas, k: int, x: int, y: int) -> int {
    let at = y * 1008 + x;
    let base = (p.luma[at] + 57344) * 38155;
    let n = if k == 0 {
        base + p.red[at] * 58744
    } else if k == 1 {
        base - p.blue[at] * 6988 - p.red[at] * 17463
    } else {
        base + p.blue[at] * 69219
    };
    let v = (n + 0x80_0000) / 0x100_0000;
    if v < 0 {
        0
    } else if v > 255 {
        255
    } else {
        v
    }
}

/// How much of pixel `k` of the film, three units wide, lies in pixel `v`, ten units wide.
pub open spec fn overlap(v: int, k: int) -> int {
    let from = if 10 * v > 3 * k {
        10 * v
    } else {
        3 * k
    };
    let to = if 10 * v + 10 < 3 * k + 3 {
        10 * v + 10
    } else {
        3 * k + 3
    };
    if to > from {
        to - from
    } else {
        0
    }
}

/// One line of the film in the ten units of pixel `x`.
pub open spec fn along(p: Canvas, k: int, x: int, y: int) -> int {
    let s = 10 * x / 3;
    overlap(x, s) * shade(p, k, s, y) + overlap(x, s + 1) * shade(p, k, s + 1, y) + overlap(x, s + 2)
        * shade(p, k, s + 2, y) + overlap(x, s + 3) * shade(p, k, s + 3, y)
}

/// The mean of the film in pixel `x` of line `y`.
pub open spec fn mean(p: Canvas, k: int, x: int, y: int) -> int {
    let s = 10 * y / 3;
    (overlap(y, s) * along(p, k, x, s) + overlap(y, s + 1) * along(p, k, x, s + 1) + overlap(y, s + 2)
        * along(p, k, x, s + 2) + overlap(y, s + 3) * along(p, k, x, s + 3) + 50) / 100
}

/// How far a colour is from number `i` of a palette.
pub open spec fn distance(palette: Seq<u8>, i: int, r: int, g: int, b: int) -> int {
    (r - palette[3 * i]) * (r - palette[3 * i]) + (g - palette[3 * i + 1]) * (g - palette[3 * i + 1]) + (b
        - palette[3 * i + 2]) * (b - palette[3 * i + 2])
}

/// The first of the nearest among the first `n` colours of a palette.
pub open spec fn nearest(palette: Seq<u8>, n: int, r: int, g: int, b: int) -> int
    decreases n,
{
    if n <= 1 {
        0
    } else {
        let best = nearest(palette, n - 1, r, g, b);
        if distance(palette, n - 1, r, g, b) < distance(palette, best, r, g, b) {
            n - 1
        } else {
            best
        }
    }
}

/// No colour of a palette is nearer than the one that is chosen, and none before it is as near.
pub proof fn law_nearest_is_least(palette: Seq<u8>, n: int, r: int, g: int, b: int, i: int)
    requires
        0 <= i < n,
    ensures
        0 <= nearest(palette, n, r, g, b) < n,
        distance(palette, nearest(palette, n, r, g, b), r, g, b) <= distance(palette, i, r, g, b),
        i < nearest(palette, n, r, g, b) ==> distance(palette, nearest(palette, n, r, g, b), r, g, b)
            < distance(palette, i, r, g, b),
    decreases n,
{
    if n > 1 {
        if i < n - 1 {
            law_nearest_is_least(palette, n - 1, r, g, b, i);
        } else {
            law_nearest_is_least(palette, n - 1, r, g, b, 0);
        }
    }
}

/// What is predicted for pixel `x` of line `y`: nothing, where the film is black and the picture has
/// transparent pixels, else the nearest colour.
pub open spec fn guess(p: Canvas, f: crate::gif_split::Shot, x: int, y: int) -> u8 {
    let r = mean(p, 0, x, y);
    let g = mean(p, 1, x, y);
    let b = mean(p, 2, x, y);
    if r < 4 && g < 4 && b < 4 && f.transparent is Some {
        f.transparent->0
    } else {
        nearest(f.palette, f.palette.len() as int / 3, r, g, b) as u8
    }
}

/// What a frame of a film says of the pixels of a frame.
pub open spec fn predicted(raw: Seq<u8>, m: crate::gif_film::Still, f: crate::gif_split::Shot) -> Outcome<
    Seq<u8>,
> {
    match painted(raw, m) {
        Err(e) => Err(e),
        Ok(p) => Ok(
            Seq::new((f.w * f.h) as nat, |i: int| guess(p, f, f.x + i % f.w, f.y + i / f.w)),
        ),
    }
}

/// What a film says of the frames from number `i` on.
pub open spec fn predicted_from(
    raw: Seq<u8>,
    film: Seq<crate::gif_film::Still>,
    frames: Seq<crate::gif_split::Shot>,
    i: int,
    done: Seq<Seq<u8>>,
) -> Outcome<Seq<Seq<u8>>>
    decreases frames.len() - i,
{
    if i < 0 || i >= frames.len() {
        Ok(done)
    } else {
        match predicted(raw, film[i], frames[i]) {
            Err(e) => Err(e),
            Ok(px) => predicted_from(raw, film, frames, i + 1, done.push(px)),
        }
    }
}

fn gather(c: &[i16], blocks: usize, b: usize) -> (r: [i16; 64])
    requires
        c.len() == blocks * 64,
        b < blocks <= 32,
    ensures
        r@ == block_of(c@, blocks as int, b as int),
{
    let mut r: [i16; 64] = [0i16; 64];
    let mut i: usize = 0;
    while i < 64
        invariant
            i <= 64,
            c.len() == blocks * 64,
            b < blocks <= 32,
            forall|k: int| 0 <= k < i ==> #[trigger] r@[k] == c@[k * blocks + b],
        decreases 64 - i,
    {
        assert(i * blocks + b < blocks * 64) by (nonlinear_arith)
            requires
                i < 64,
                b < blocks,
        ;
        assert(i * blocks <= 64 * 32) by (nonlinear_arith)
            requires
                i < 64,
                blocks <= 32,
        ;
        r[i] = c[i * blocks + b];
        i += 1;
    }
    assert(r@ =~= block_of(c@, blocks as int, b as int));
    r
}

proof fn lemma_cell(p: int, x: int, y: int)
    requires
        0 <= x < 1008,
        p == y * 1008 + x,
    ensures
        p % 1008 == x,
        p / 1008 == y,
{
}

/// Puts the pixels of a block into a plane.
fn stamp(plane: &mut Vec<i32>, x: usize, y: usize, px: &[i32; 64])
    requires
        old(plane).len() == AREA,
        x + 8 <= SIDE,
        y + 8 <= SIDE,
    ensures
        final(plane).len() == AREA,
        crate::transform::ints(final(plane)@) == stamped(
            crate::transform::ints(old(plane)@),
            x as int,
            y as int,
            crate::transform::ints(px@),
        ),
{
    let ghost start = plane@;
    let mut i: usize = 0;
    while i < 64
        invariant
            i <= 64,
            plane.len() == AREA,
            start.len() == AREA,
            x + 8 <= SIDE,
            y + 8 <= SIDE,
            forall|p: int|
                0 <= p < AREA ==> #[trigger] plane@[p] == (if x <= p % 1008 < x + 8 && y <= p / 1008 < y + 8
                    && (p / 1008 - y) * 8 + p % 1008 - x < i {
                    px@[(p / 1008 - y) * 8 + p % 1008 - x]
                } else {
                    start[p]
                }),
        decreases 64 - i,
    {
        let at: usize = (y + i / 8) * SIDE + x + i % 8;
        proof {
            lemma_cell(at as int, x + i as int % 8, y + i as int / 8);
        }
        let ghost before = plane@;
        plane.set(at, px[i]);
        assert forall|p: int| 0 <= p < AREA implies #[trigger] plane@[p] == (if x <= p % 1008 < x + 8 && y
            <= p / 1008 < y + 8 && (p / 1008 - y) * 8 + p % 1008 - x < i + 1 {
            px@[(p / 1008 - y) * 8 + p % 1008 - x]
        } else {
            start[p]
        }) by {
            if p != at {
                assert(plane@[p] == before[p]);
            }
        }
        i += 1;
    }
    assert(crate::transform::ints(plane@) =~= stamped(
        crate::transform::ints(start),
        x as int,
        y as int,
        crate::transform::ints(px@),
    ));
}

/// Puts one plane of a slice in.
fn paint_plane(
    plane: &mut Vec<i32>,
    raw: &[u8],
    at: usize,
    len: usize,
    q: &[u8; 64],
    s: &Strip,
    chroma: bool,
) -> (r: Result<(), String>)
    requires
        old(plane).len() == AREA,
        at + len <= raw.len(),
        len <= 65535,
        crate::gif_film::strip_in(*s, raw@.len() as int),
    ensures
        final(plane).len() == AREA,
        match r {
            Ok(_) => with_plane(
                crate::transform::ints(old(plane)@),
                raw@,
                at as int,
                len as int,
                q@,
                *s,
                chroma,
            ) == Ok::<Seq<int>, Seq<char>>(crate::transform::ints(final(plane)@)),
            Err(e) => with_plane(
                crate::transform::ints(old(plane)@),
                raw@,
                at as int,
                len as int,
                q@,
                *s,
                chroma,
            ) == Err::<Seq<int>, Seq<char>>(e@),
        },
{
    let ghost start = crate::transform::ints(plane@);
    let c = unpack_plane(&raw[at..at + len], s.blocks)?;
    let mut b: usize = 0;
    while b < s.blocks
        invariant
            b <= s.blocks,
            plane.len() == AREA,
            c.len() == s.blocks * 64,
            crate::gif_film::strip_in(*s, raw@.len() as int),
            crate::transform::ints(plane@) == with_blocks(start, c@, q@, *s, chroma, b as int),
        decreases s.blocks - b,
    {
        let (bx, by): (usize, usize) = if chroma {
            (b % 4 / 2, b % 2)
        } else {
            (b % 2, b % 4 / 2)
        };
        let px = idct(&gather(&c, s.blocks, b), q);
        stamp(plane, (s.x + b / 4 * 2 + bx) * 8, (s.y + by) * 8, &px);
        b += 1;
    }
    Ok(())
}

/// The planes of a frame.
struct Sheets {
    luma: Vec<i32>,
    blue: Vec<i32>,
    red: Vec<i32>,
}

impl View for Sheets {
    type V = Canvas;

    closed spec fn view(&self) -> Canvas {
        Canvas {
            luma: crate::transform::ints(self.luma@),
            blue: crate::transform::ints(self.blue@),
            red: crate::transform::ints(self.red@),
        }
    }
}

impl Sheets {
    spec fn full(&self) -> bool {
        self.luma.len() == AREA && self.blue.len() == AREA && self.red.len() == AREA
    }
}

fn zeros() -> (v: Vec<i32>)
    ensures
        v.len() == AREA,
        crate::transform::ints(v@) == Seq::new(AREA as nat, |i: int| 0int),
{
    let v: Vec<i32> = vec![0i32; AREA];
    assert(crate::transform::ints(v@) =~= Seq::new(AREA as nat, |i: int| 0int));
    v
}

fn paint(raw: &[u8], m: &MovFrame) -> (r: Result<Sheets, String>)
    requires
        m@.wf(raw@.len() as int),
    ensures
        match r {
            Ok(p) => painted(raw@, m@) == Ok::<Canvas, Seq<char>>(p@) && p.full(),
            Err(e) => painted(raw@, m@) == Err::<Canvas, Seq<char>>(e@),
        },
{
    let mut p = Sheets { luma: zeros(), blue: zeros(), red: zeros() };
    let mut i: usize = 0;
    let ghost whole = painted(raw@, m@);
    assert(p@ =~= Canvas::blank());
    while i < m.slices.len()
        invariant
            i <= m.slices.len(),
            m@.wf(raw@.len() as int),
            p.full(),
            whole == painted(raw@, m@),
            whole == painted_from(raw@, m@, i as int, p@),
        decreases m.slices.len() - i,
    {
        let s: Strip = m.slices[i];
        assert(crate::gif_film::strip_in(m@.slices[i as int], raw@.len() as int));
        paint_plane(&mut p.luma, raw, s.luma_at, s.luma_len, &m.luma, &s, false)?;
        paint_plane(&mut p.blue, raw, s.blue_at, s.blue_len, &m.chroma, &s, true)?;
        paint_plane(&mut p.red, raw, s.red_at, s.red_len, &m.chroma, &s, true)?;
        i += 1;
    }
    Ok(p)
}

fn clamp_to_byte(n: i64) -> (v: u32)
    requires
        -0x10_0000_0000_0000 < n < 0x10_0000_0000_0000,
    ensures
        v == (if (n + 0x80_0000) / 0x100_0000 < 0 {
            0
        } else if (n + 0x80_0000) / 0x100_0000 > 255 {
            255
        } else {
            (n + 0x80_0000) / 0x100_0000
        }),
        v <= 255,
{
    let v: i64 = floor_div(n + 0x80_0000, 0x100_0000);
    if v < 0 {
        0
    } else if v > 255 {
        255
    } else {
        v as u32
    }
}

/// Red, green and blue of a pixel of the film.
fn shades(p: &Sheets, x: usize, y: usize) -> (v: (u32, u32, u32))
    requires
        p.full(),
        x < SIDE,
        y < SIDE,
    ensures
        v.0 == shade(p@, 0, x as int, y as int),
        v.1 == shade(p@, 1, x as int, y as int),
        v.2 == shade(p@, 2, x as int, y as int),
        v.0 <= 255,
        v.1 <= 255,
        v.2 <= 255,
{
    let at: usize = y * SIDE + x;
    let base: i64 = (p.luma[at] as i64 + 57344) * 38155;
    let u: i64 = p.blue[at] as i64;
    let v: i64 = p.red[at] as i64;
    (
        clamp_to_byte(base + v * 58744),
        clamp_to_byte(base - u * 6988 - v * 17463),
        clamp_to_byte(base + u * 69219),
    )
}

fn cover(v: usize, k: usize) -> (n: u32)
    requires
        v <= 1000,
        k <= 4000,
    ensures
        n == overlap(v as int, k as int),
        n <= 3,
{
    let from: usize = if 10 * v > 3 * k {
        10 * v
    } else {
        3 * k
    };
    let to: usize = if 10 * v + 10 < 3 * k + 3 {
        10 * v + 10
    } else {
        3 * k + 3
    };
    if to > from {
        (to - from) as u32
    } else {
        0
    }
}

/// The four pixels of the film from `10 * v / 3` on share out all ten units of pixel `v`.
proof fn lemma_shares(v: int)
    requires
        v >= 0,
    ensures
        overlap(v, 10 * v / 3) + overlap(v, 10 * v / 3 + 1) + overlap(v, 10 * v / 3 + 2) + overlap(
            v,
            10 * v / 3 + 3,
        ) == 10,
{
}

proof fn lemma_weighed(w: int, n: int, most: int)
    by (nonlinear_arith)
    requires
        0 <= w,
        0 <= n <= most,
    ensures
        0 <= w * n <= w * most,
{
}

/// One line of the film in the ten units of pixel `x`.
fn blend(p: &Sheets, x: usize, y: usize) -> (v: (u32, u32, u32))
    requires
        p.full(),
        x < 300,
        y < SIDE,
    ensures
        v.0 == along(p@, 0, x as int, y as int),
        v.1 == along(p@, 1, x as int, y as int),
        v.2 == along(p@, 2, x as int, y as int),
        v.0 <= 2550,
        v.1 <= 2550,
        v.2 <= 2550,
{
    let s: usize = 10 * x / 3;
    let (w0, w1, w2, w3) = (cover(x, s), cover(x, s + 1), cover(x, s + 2), cover(x, s + 3));
    let a = shades(p, s, y);
    let b = shades(p, s + 1, y);
    let c = shades(p, s + 2, y);
    let d = shades(p, s + 3, y);
    proof {
        lemma_shares(x as int);
        lemma_weighed(w0 as int, a.0 as int, 255);
        lemma_weighed(w0 as int, a.1 as int, 255);
        lemma_weighed(w0 as int, a.2 as int, 255);
        lemma_weighed(w1 as int, b.0 as int, 255);
        lemma_weighed(w1 as int, b.1 as int, 255);
        lemma_weighed(w1 as int, b.2 as int, 255);
        lemma_weighed(w2 as int, c.0 as int, 255);
        lemma_weighed(w2 as int, c.1 as int, 255);
        lemma_weighed(w2 as int, c.2 as int, 255);
        lemma_weighed(w3 as int, d.0 as int, 255);
        lemma_weighed(w3 as int, d.1 as int, 255);
        lemma_weighed(w3 as int, d.2 as int, 255);
    }
    (
        w0 * a.0 + w1 * b.0 + w2 * c.0 + w3 * d.0,
        w0 * a.1 + w1 * b.1 + w2 * c.1 + w3 * d.1,
        w0 * a.2 + w1 * b.2 + w2 * c.2 + w3 * d.2,
    )
}

/// The mean of the film in a pixel.
fn average(p: &Sheets, x: usize, y: usize) -> (v: (u32, u32, u32))
    requires
        p.full(),
        x < 300,
        y < 300,
    ensures
        v.0 == mean(p@, 0, x as int, y as int),
        v.1 == mean(p@, 1, x as int, y as int),
        v.2 == mean(p@, 2, x as int, y as int),
        v.0 <= 255,
        v.1 <= 255,
        v.2 <= 255,
{
    let s: usize = 10 * y / 3;
    let (w0, w1, w2, w3) = (cover(y, s), cover(y, s + 1), cover(y, s + 2), cover(y, s + 3));
    let a = blend(p, x, s);
    let b = blend(p, x, s + 1);
    let c = blend(p, x, s + 2);
    let d = blend(p, x, s + 3);
    proof {
        lemma_shares(y as int);
        lemma_weighed(w0 as int, a.0 as int, 2550);
        lemma_weighed(w0 as int, a.1 as int, 2550);
        lemma_weighed(w0 as int, a.2 as int, 2550);
        lemma_weighed(w1 as int, b.0 as int, 2550);
        lemma_weighed(w1 as int, b.1 as int, 2550);
        lemma_weighed(w1 as int, b.2 as int, 2550);
        lemma_weighed(w2 as int, c.0 as int, 2550);
        lemma_weighed(w2 as int, c.1 as int, 2550);
        lemma_weighed(w2 as int, c.2 as int, 2550);
        lemma_weighed(w3 as int, d.0 as int, 2550);
        lemma_weighed(w3 as int, d.1 as int, 2550);
        lemma_weighed(w3 as int, d.2 as int, 2550);
    }
    (
        (w0 * a.0 + w1 * b.0 + w2 * c.0 + w3 * d.0 + 50) / 100,
        (w0 * a.1 + w1 * b.1 + w2 * c.1 + w3 * d.1 + 50) / 100,
        (w0 * a.2 + w1 * b.2 + w2 * c.2 + w3 * d.2 + 50) / 100,
    )
}

fn apart(palette: &[u8], i: usize, r: u32, g: u32, b: u32) -> (n: i32)
    requires
        3 * i + 3 <= palette.len(),
        palette.len() <= 768,
        r <= 255,
        g <= 255,
        b <= 255,
    ensures
        n == distance(palette@, i as int, r as int, g as int, b as int),
{
    let dr: i32 = r as i32 - palette[3 * i] as i32;
    let dg: i32 = g as i32 - palette[3 * i + 1] as i32;
    let db: i32 = b as i32 - palette[3 * i + 2] as i32;
    proof {
        lemma_square(dr as int);
        lemma_square(dg as int);
        lemma_square(db as int);
    }
    dr * dr + dg * dg + db * db
}

proof fn lemma_square(d: int)
    by (nonlinear_arith)
    requires
        -255 <= d <= 255,
    ensures
        0 <= d * d <= 65025,
{
}

fn find_nearest(palette: &[u8], r: u32, g: u32, b: u32) -> (index: u8)
    requires
        6 <= palette.len() <= 768,
        palette.len() % 3 == 0,
        r <= 255,
        g <= 255,
        b <= 255,
    ensures
        index == nearest(palette@, palette@.len() as int / 3, r as int, g as int, b as int) as u8,
{
    let n: usize = palette.len() / 3;
    let mut best: usize = 0;
    let mut least: i32 = apart(palette, 0, r, g, b);
    let mut i: usize = 1;
    while i < n
        invariant
            1 <= i <= n,
            best < i,
            n == palette.len() / 3,
            palette.len() % 3 == 0,
            palette.len() <= 768,
            r <= 255,
            g <= 255,
            b <= 255,
            best == nearest(palette@, i as int, r as int, g as int, b as int),
            least == distance(palette@, best as int, r as int, g as int, b as int),
        decreases n - i,
    {
        let d = apart(palette, i, r, g, b);
        if d < least {
            best = i;
            least = d;
        }
        i += 1;
    }
    best as u8
}

/// Whether what is remembered of the nearest colours is right.
spec fn recalls(known: Map<u32, u8>, palette: Seq<u8>) -> bool {
    forall|k: u32| #[trigger]
        known.contains_key(k) ==> known[k] == nearest(
            palette,
            palette.len() as int / 3,
            k as int / 65536,
            k as int / 256 % 256,
            k as int % 256,
        ) as u8
}

/// Finds the nearest colour, and remembers it.
fn look_up(known: &mut HashMap<u32, u8>, palette: &[u8], r: u32, g: u32, b: u32) -> (index: u8)
    requires
        6 <= palette.len() <= 768,
        palette.len() % 3 == 0,
        r <= 255,
        g <= 255,
        b <= 255,
        recalls(old(known)@, palette@),
    ensures
        recalls(final(known)@, palette@),
        index == nearest(palette@, palette@.len() as int / 3, r as int, g as int, b as int) as u8,
{
    broadcast use vstd::std_specs::hash::group_hash_axioms;

    let key: u32 = r * 65536 + g * 256 + b;
    match known.get(&key) {
        Some(index) => {
            return *index;
        },
        None => {},
    }
    let index = find_nearest(palette, r, g, b);
    known.insert(key, index);
    index
}

/// What a frame of a film says of the pixels of a frame.
pub fn predict(raw: &[u8], m: &MovFrame, f: &GifFrame) -> (r: Result<Vec<u8>, String>)
    requires
        m@.wf(raw@.len() as int),
        f@.framed(),
    ensures
        crate::wire::bytes_of(r) == predicted(raw@, m@, f@),
        r matches Ok(v) ==> v@.len() == f@.w * f@.h,
{
    broadcast use vstd::std_specs::hash::group_hash_axioms;

    let p = paint(raw, m)?;
    let mut known: HashMap<u32, u8> = HashMap::new();
    assert(f.w * f.h <= 90000) by (nonlinear_arith)
        requires
            f.w <= 300,
            f.h <= 300,
    ;
    let n: usize = f.w * f.h;
    let mut out: Vec<u8> = Vec::with_capacity(n);
    let mut i: usize = 0;
    while i < n
        invariant
            i <= n,
            n == f.w * f.h,
            f@.framed(),
            p.full(),
            recalls(known@, f.palette@),
            out.len() == i,
            forall|k: int|
                0 <= k < i ==> #[trigger] out@[k] == guess(p@, f@, f.x + k % f@.w, f.y + k / f@.w),
        decreases n - i,
    {
        let y: usize = i / f.w;
        let x: usize = i % f.w;
        assert((i as int / f.w as int) < f.h) by (nonlinear_arith)
            requires
                0 <= i < f.w * f.h,
                f.w >= 1,
        ;
        let (r, g, b) = average(&p, f.x + x, f.y + y);
        let mut index: u8 = 0;
        if r < 4 && g < 4 && b < 4 && f.transparent.is_some() {
            match f.transparent {
                Some(t) => {
                    index = t;
                },
                None => {},
            }
        } else {
            index = look_up(&mut known, &f.palette, r, g, b);
        }
        out.push(index);
        i += 1;
    }
    assert(out@ =~= Seq::new((f@.w * f@.h) as nat, |i: int| guess(p@, f@, f@.x + i % f@.w, f@.y + i / f@.w)));
    Ok(out)
}

/// What a film says of all frames.
pub fn predictions(raw: &[u8], film: &[MovFrame], frames: &[GifFrame]) -> (r: Result<Vec<Vec<u8>>, String>)
    requires
        film@.len() == frames@.len(),
        crate::gif_film::all_wf(film@, raw@.len() as int),
        crate::gif_split::all_wf(frames@),
    ensures
        match r {
            Ok(v) => predicted_from(
                raw@,
                crate::gif_film::stills(film@),
                crate::gif_split::shots(frames@),
                0,
                Seq::empty(),
            ) == Ok::<Seq<Seq<u8>>, Seq<char>>(crate::prores_bits::each(v@)) && v@.len() == frames@.len()
                && forall|i: int|
                0 <= i < v@.len() ==> (#[trigger] v@[i])@.len() == frames@[i]@.w * frames@[i]@.h,
            Err(e) => predicted_from(
                raw@,
                crate::gif_film::stills(film@),
                crate::gif_split::shots(frames@),
                0,
                Seq::empty(),
            ) == Err::<Seq<Seq<u8>>, Seq<char>>(e@),
        },
{
    let ghost stills = crate::gif_film::stills(film@);
    let ghost shots = crate::gif_split::shots(frames@);
    let ghost whole = predicted_from(raw@, stills, shots, 0, Seq::empty());
    let mut out: Vec<Vec<u8>> = Vec::new();
    let mut i: usize = 0;
    assert(crate::prores_bits::each(out@) =~= Seq::empty());
    while i < frames.len()
        invariant
            i <= frames.len(),
            film@.len() == frames@.len(),
            crate::gif_film::all_wf(film@, raw@.len() as int),
            crate::gif_split::all_wf(frames@),
            stills == crate::gif_film::stills(film@),
            shots == crate::gif_split::shots(frames@),
            out.len() == i,
            forall|k: int| 0 <= k < i ==> (#[trigger] out@[k])@.len() == frames@[k]@.w * frames@[k]@.h,
            whole == predicted_from(raw@, stills, shots, 0, Seq::empty()),
            whole == predicted_from(raw@, stills, shots, i as int, crate::prores_bits::each(out@)),
        decreases frames.len() - i,
    {
        let px = predict(raw, &film[i], &frames[i])?;
        let ghost before = crate::prores_bits::each(out@);
        out.push(px);
        assert(crate::prores_bits::each(out@) =~= before.push(px@));
        i += 1;
    }
    Ok(out)
}

}
