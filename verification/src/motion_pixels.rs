//! The pixels of a frame, and blocks of pixels a vector away from a block.

use crate::codeword::{highest, power};
use crate::mov_cross::Quant;
use crate::transform::idct;
use crate::wire::floor_div;
use vstd::prelude::*;

verus! {

/// Block rows of a frame.
pub const H: usize = 126;

/// Blocks in a row.
pub const W: usize = 126;

/// Pixels in a row.
pub const PIXELS: usize = 1008;

/// Coefficients, and pixels, of a channel.
pub const PLANE: usize = 1016064;

/// Coefficients, and pixels, of a frame.
pub const FRAME: usize = 3048192;

/// The coefficients of one block of a channel.
pub open spec fn block(c: Seq<i16>, ch: int, by: int, bx: int) -> Seq<i16> {
    Seq::new(64, |k: int| c[ch * PLANE + (by * W + bx) * 64 + k])
}

/// The pixels that the coefficients of a frame stand for.
pub open spec fn rendered(c: Seq<i16>, q: Quant) -> Seq<int> {
    Seq::new(
        FRAME as nat,
        |i: int|
            {
                let ch = i / PLANE as int;
                let y = i % PLANE as int / PIXELS as int;
                let x = i % PIXELS as int;
                crate::transform::pixels_of(block(c, ch, y / 8, x / 8), q@[ch]@)[y % 8 * 8 + x % 8]
            },
    )
}

fn strip(c: &[i16], q: &Quant, s: usize) -> (v: Vec<[i32; 64]>)
    requires
        c.len() == FRAME,
        s < 378,
    ensures
        v@.len() == W,
        forall|bx: int|
            0 <= bx < W ==> crate::transform::ints(#[trigger] v@[bx]@)
                == crate::transform::pixels_of(
                block(c@, s as int / 126, s as int % 126, bx),
                q@[s as int / 126]@,
            ),
{
    let mut v: Vec<[i32; 64]> = Vec::new();
    let ch: usize = s / H;
    let by: usize = s % H;
    let mut bx: usize = 0;
    while bx < W
        invariant
            bx <= W,
            c.len() == FRAME,
            ch < 3,
            by < H,
            v@.len() == bx,
            forall|j: int|
                0 <= j < bx ==> crate::transform::ints(#[trigger] v@[j]@)
                    == crate::transform::pixels_of(block(c@, ch as int, by as int, j), q@[ch as int]@),
        decreases W - bx,
    {
        let at: usize = ch * PLANE + (by * W + bx) * 64;
        let part = &c[at..at + 64];
        assert(part@ =~= block(c@, ch as int, by as int, bx as int));
        let pixels = idct(part, &q[ch]);
        v.push(pixels);
        bx += 1;
    }
    v
}

proof fn lemma_pixel_place(s: int, k: int)
    requires
        0 <= s < 378,
        0 <= k < 8064,
    ensures
        (s * 8064 + k) / PLANE as int == s / 126,
        (s * 8064 + k) % PLANE as int / PIXELS as int == s % 126 * 8 + k / 1008,
        (s * 8064 + k) % PIXELS as int == k % 1008,
{
    assert((s * 8064 + k) % PLANE as int == s % 126 * 8064 + k);
}

/// The pixels of a frame.
#[verifier::rlimit(60)]
#[verifier::spinoff_prover]
pub fn render(c: &[i16], q: &Quant) -> (pixels: Vec<i32>)
    requires
        c.len() == FRAME,
    ensures
        crate::transform::ints(pixels@) == rendered(c@, *q),
{
    let ghost whole = rendered(c@, *q);
    let mut pixels: Vec<i32> = Vec::new();
    let mut s: usize = 0;
    while s < 378
        invariant
            s <= 378,
            c.len() == FRAME,
            whole == rendered(c@, *q),
            pixels@.len() == s * 8064,
            forall|i: int| 0 <= i < pixels@.len() ==> #[trigger] pixels@[i] == whole[i],
        decreases 378 - s,
    {
        let v = strip(c, q, s);
        let mut k: usize = 0;
        while k < 8064
            invariant
                s < 378,
                k <= 8064,
                whole == rendered(c@, *q),
                v@.len() == W,
                forall|bx: int|
                    0 <= bx < W ==> crate::transform::ints(#[trigger] v@[bx]@)
                        == crate::transform::pixels_of(
                        block(c@, s as int / 126, s as int % 126, bx),
                        q@[s as int / 126]@,
                    ),
                pixels@.len() == s * 8064 + k,
                forall|i: int| 0 <= i < pixels@.len() ==> #[trigger] pixels@[i] == whole[i],
            decreases 8064 - k,
        {
            let x: usize = k % PIXELS;
            let y: usize = k / PIXELS;
            let p: i32 = v[x / 8][y * 8 + x % 8];
            proof {
                let i = s * 8064 + k;
                lemma_pixel_place(s as int, k as int);
                assert(crate::transform::ints(v@[x as int / 8]@)[y * 8 + x as int % 8] == p);
            }
            pixels.push(p);
            k += 1;
        }
        s += 1;
    }
    assert(crate::transform::ints(pixels@) =~= whole);
    pixels
}

/// A coordinate, moved into the frame.
pub open spec fn inside(v: int) -> int {
    if v < 0 {
        0
    } else if v > 1007 {
        1007
    } else {
        v
    }
}

pub open spec fn pixel(p: Seq<int>, ch: int, y: int, x: int) -> int {
    p[ch * PLANE + inside(y) * PIXELS + inside(x)]
}

/// The pixel that lies a vector, in quarters of a pixel, away.
#[verifier::opaque]
pub open spec fn blended(p: Seq<int>, ch: int, y: int, x: int, fy: int, fx: int) -> int {
    ((4 - fy) * ((4 - fx) * pixel(p, ch, y, x) + fx * pixel(p, ch, y, x + 1)) + fy * ((4 - fx)
        * pixel(p, ch, y + 1, x) + fx * pixel(p, ch, y + 1, x + 1)) + 8) / 16
}

/// The block that lies a vector away from a block.
pub open spec fn moved(p: Seq<int>, ch: int, by: int, bx: int, dy: int, dx: int) -> Seq<int> {
    Seq::new(
        64,
        |i: int|
            blended(p, ch, by * 8 + dy / 4 + i / 8, bx * 8 + dx / 4 + i % 8, dy % 4, dx % 4),
    )
}

fn within(v: i32) -> (r: usize)
    ensures
        r == inside(v as int),
{
    if v < 0 {
        0
    } else if v > 1007 {
        1007
    } else {
        v as usize
    }
}

pub(crate) fn pixel_at(p: &[i32], ch: usize, y: i32, x: i32) -> (v: i64)
    requires
        p.len() == FRAME,
        ch < 3,
    ensures
        v == pixel(crate::transform::ints(p@), ch as int, y as int, x as int),
        -0x8000_0000 <= v <= 0x7fff_ffff,
{
    let at: usize = ch * PLANE + within(y) * PIXELS + within(x);
    assert(crate::transform::ints(p@)[at as int] == p@[at as int]);
    p[at] as i64
}

fn mix(a: i64, b: i64, f: i64) -> (r: i64)
    requires
        0 <= f <= 3,
        -0x2_0000_0000 <= a <= 0x1_ffff_fffc,
        -0x2_0000_0000 <= b <= 0x1_ffff_fffc,
    ensures
        r == (4 - f) * a + f * b,
        forall|low: int|
            low <= a && low <= b ==> #[trigger] (4 * low) <= r,
        forall|high: int|
            a <= high && b <= high ==> r <= #[trigger] (4 * high),
{
    proof {
        assert(f == 0 || f == 1 || f == 2 || f == 3);
        if f == 0 {
            assert((4 - f) * a == 4 * a && f * b == 0);
        } else if f == 1 {
            assert((4 - f) * a == 3 * a && f * b == b);
        } else if f == 2 {
            assert((4 - f) * a == 2 * a && f * b == 2 * b);
        } else {
            assert((4 - f) * a == a && f * b == 3 * b);
        }
    }
    (4 - f) * a + f * b
}

pub(crate) fn blend(p: &[i32], ch: usize, y: i32, x: i32, fy: i64, fx: i64) -> (r: i32)
    requires
        p.len() == FRAME,
        ch < 3,
        -100_000 <= y <= 100_000,
        -100_000 <= x <= 100_000,
        0 <= fy <= 3,
        0 <= fx <= 3,
    ensures
        r == blended(
            crate::transform::ints(p@),
            ch as int,
            y as int,
            x as int,
            fy as int,
            fx as int,
        ),
{
    reveal(blended);
    let a = pixel_at(p, ch, y, x);
    let b = pixel_at(p, ch, y, x + 1);
    let c = pixel_at(p, ch, y + 1, x);
    let d = pixel_at(p, ch, y + 1, x + 1);
    let low: i64 = -0x8000_0000;
    let high: i64 = 0x7fff_ffff;
    assert(4 * low == -0x2_0000_0000 && 4 * high == 0x1_ffff_fffc);
    let top = mix(a, b, fx);
    let bottom = mix(c, d, fx);
    assert(4 * (4 * low) == -0x8_0000_0000 && 4 * (4 * high) == 0x7_ffff_fff0);
    let sum = mix(top, bottom, fy);
    floor_div(sum + 8, 16) as i32
}

/// The block that lies a vector away from a block.
pub fn moved_block(p: &[i32], ch: usize, by: usize, bx: usize, dy: i16, dx: i16) -> (r: [i32; 64])
    requires
        p.len() == FRAME,
        ch < 3,
        by < H,
        bx < W,
    ensures
        crate::transform::ints(r@) == moved(
            crate::transform::ints(p@),
            ch as int,
            by as int,
            bx as int,
            dy as int,
            dx as int,
        ),
{
    let qy: i64 = floor_div(dy as i64, 4);
    let qx: i64 = floor_div(dx as i64, 4);
    let fy: i64 = dy as i64 - 4 * qy;
    let fx: i64 = dx as i64 - 4 * qx;
    let sy: i32 = by as i32 * 8 + qy as i32;
    let sx: i32 = bx as i32 * 8 + qx as i32;
    let ghost whole = moved(
        crate::transform::ints(p@),
        ch as int,
        by as int,
        bx as int,
        dy as int,
        dx as int,
    );
    let mut out: [i32; 64] = [0i32; 64];
    let mut i: usize = 0;
    while i < 64
        invariant
            i <= 64,
            p.len() == FRAME,
            ch < 3,
            0 <= fy <= 3,
            0 <= fx <= 3,
            fy == dy as int % 4,
            fx == dx as int % 4,
            sy == by * 8 + dy as int / 4,
            sx == bx * 8 + dx as int / 4,
            -10_000 <= sy <= 10_000,
            -10_000 <= sx <= 10_000,
            whole == moved(
                crate::transform::ints(p@),
                ch as int,
                by as int,
                bx as int,
                dy as int,
                dx as int,
            ),
            forall|j: int| 0 <= j < i ==> #[trigger] out@[j] == whole[j],
        decreases 64 - i,
    {
        let v = blend(p, ch, sy + (i / 8) as i32, sx + (i % 8) as i32, fy, fx);
        assert(whole[i as int] == v);
        out[i] = v;
        i += 1;
    }
    assert(crate::transform::ints(out@) =~= whole);
    out
}

/// What a difference costs: its binary logarithm, in units of 1/256, joined by straight lines.
pub open spec fn cost_of(v: int) -> int {
    let n = 1 + crate::transform::magnitude(v);
    let top = crate::codeword::top_bit(n);
    let base = crate::codeword::power2(top);
    top * 256 + (n - base) * 256 / base
}

/// What a difference costs.
pub fn cost(value: i32) -> (r: u64)
    requires
        -65536 <= value <= 65535,
    ensures
        r == cost_of(value as int),
        r <= 4608,
{
    let n: u32 = 1 + (if value < 0 { (-value) as u32 } else { value as u32 });
    proof {
        reveal_with_fuel(crate::codeword::power2, 18);
        crate::codeword::lemma_top_bit(n as int);
        crate::codeword::lemma_top_bit_below(n as int, 17);
    }
    let bits = highest(n);
    proof {
        crate::codeword::lemma_power2(bits as int);
        crate::codeword::lemma_power2_grows(bits as int, 17);
    }
    let base = power(bits);
    let rest: u64 = (n - base) as u64 * 256;
    assert(rest / (base as u64) < 256) by (nonlinear_arith)
        requires
            rest == (n - base) * 256,
            base <= n < 2 * base,
    ;
    bits as u64 * 256 + rest / base as u64
}


}
