//! The search for the best prediction of a block from the frame before.

use crate::motion_pixels::{blend, cost, moved_block, pixel_at, FRAME, H, PIXELS, PLANE, W};
use crate::mov_cross::Quant;
use crate::transform::dct;
use crate::wire::floor_div;
use vstd::prelude::*;

verus! {

pub open spec fn distance(a: int, b: int) -> int {
    crate::transform::magnitude(a - b)
}

/// By how much row `r` of the three channels of a block differs from the block a vector away, up to
/// column `x`.
pub open spec fn row_gap(
    cur: Seq<int>,
    prev: Seq<int>,
    by: int,
    bx: int,
    dy: int,
    dx: int,
    r: int,
    x: int,
) -> int
    decreases x,
{
    if x <= 0 {
        0
    } else {
        row_gap(cur, prev, by, bx, dy, dx, r, x - 1) + distance(
            cur[r / 8 * PLANE + (by * 8 + r % 8) * PIXELS + bx * 8 + x - 1],
            crate::motion_pixels::moved(prev, r / 8, by, bx, dy, dx)[r % 8 * 8 + x - 1],
        )
    }
}

/// By how much the first `r` rows of a block differ from those a vector away.
pub open spec fn gap(
    cur: Seq<int>,
    prev: Seq<int>,
    by: int,
    bx: int,
    dy: int,
    dx: int,
    r: int,
) -> int
    decreases r,
{
    if r <= 0 {
        0
    } else {
        gap(cur, prev, by, bx, dy, dx, r - 1) + row_gap(cur, prev, by, bx, dy, dx, r - 1, 8)
    }
}

/// By how much a block differs from the one a vector away, counted until the first row where the
/// count reaches `limit`.
pub open spec fn gap_until(
    cur: Seq<int>,
    prev: Seq<int>,
    by: int,
    bx: int,
    dy: int,
    dx: int,
    limit: int,
    r: int,
) -> int
    decreases 24 - r,
{
    let here = gap(cur, prev, by, bx, dy, dx, r);
    if r >= 24 || (r > 0 && here >= limit) {
        here
    } else {
        gap_until(cur, prev, by, bx, dy, dx, limit, r + 1)
    }
}

pub proof fn lemma_gap_grows(
    cur: Seq<int>,
    prev: Seq<int>,
    by: int,
    bx: int,
    dy: int,
    dx: int,
    r: int,
    s: int,
)
    requires
        0 <= r <= s,
    ensures
        0 <= gap(cur, prev, by, bx, dy, dx, r) <= gap(cur, prev, by, bx, dy, dx, s),
    decreases s,
{
    if s > 0 {
        lemma_row_gap(cur, prev, by, bx, dy, dx, s - 1, 8);
        if r < s {
            lemma_gap_grows(cur, prev, by, bx, dy, dx, r, s - 1);
        } else {
            lemma_gap_grows(cur, prev, by, bx, dy, dx, r - 1, s - 1);
        }
    }
}

proof fn lemma_row_gap(
    cur: Seq<int>,
    prev: Seq<int>,
    by: int,
    bx: int,
    dy: int,
    dx: int,
    r: int,
    x: int,
)
    ensures
        0 <= row_gap(cur, prev, by, bx, dy, dx, r, x),
    decreases x,
{
    if x > 0 {
        lemma_row_gap(cur, prev, by, bx, dy, dx, r, x - 1);
    }
}

/// Counting may stop early without a difference to which of two vectors is better: the count is
/// exact below the limit, and reaches the limit if the difference does.
pub proof fn law_gap_until(
    cur: Seq<int>,
    prev: Seq<int>,
    by: int,
    bx: int,
    dy: int,
    dx: int,
    limit: int,
    r: int,
)
    requires
        0 <= r <= 24,
    ensures
        ({
            let full = gap(cur, prev, by, bx, dy, dx, 24);
            let counted = gap_until(cur, prev, by, bx, dy, dx, limit, r);
            &&& counted < limit <==> full < limit
            &&& counted < limit ==> counted == full
        }),
    decreases 24 - r,
{
    let here = gap(cur, prev, by, bx, dy, dx, r);
    lemma_gap_grows(cur, prev, by, bx, dy, dx, r, 24);
    if r < 24 && !(r > 0 && here >= limit) {
        law_gap_until(cur, prev, by, bx, dy, dx, limit, r + 1);
    }
}

/// The block a vector away, where the vector has no fraction.
proof fn lemma_whole_vector(p: Seq<int>, ch: int, y: int, x: int)
    ensures
        crate::motion_pixels::blended(p, ch, y, x, 0, 0) == crate::motion_pixels::pixel(p, ch, y, x),
{
    reveal(crate::motion_pixels::blended);
}

/// How much a block differs from the one a vector away.
pub fn sad(
    current: &[i32],
    previous: &[i32],
    by: usize,
    bx: usize,
    dy: i16,
    dx: i16,
    limit: u64,
) -> (score: u64)
    requires
        current.len() == FRAME,
        previous.len() == FRAME,
        by < H,
        bx < W,
    ensures
        score == gap_until(
            crate::transform::ints(current@),
            crate::transform::ints(previous@),
            by as int,
            bx as int,
            dy as int,
            dx as int,
            limit as int,
            0,
        ),
        score <= 24 * 8 * 0x1_0000_0000,
{
    let ghost cur = crate::transform::ints(current@);
    let ghost prev = crate::transform::ints(previous@);
    let qy: i64 = floor_div(dy as i64, 4);
    let qx: i64 = floor_div(dx as i64, 4);
    let fy: i64 = dy as i64 - 4 * qy;
    let fx: i64 = dx as i64 - 4 * qx;
    let sy: i32 = by as i32 * 8 + qy as i32;
    let sx: i32 = bx as i32 * 8 + qx as i32;
    let flat: bool = fy == 0 && fx == 0;
    let mut score: u64 = 0;
    let mut r: usize = 0;
    let ghost whole = gap_until(
        cur,
        prev,
        by as int,
        bx as int,
        dy as int,
        dx as int,
        limit as int,
        0,
    );
    while r < 24
        invariant
            r <= 24,
            current.len() == FRAME,
            previous.len() == FRAME,
            by < H,
            bx < W,
            cur == crate::transform::ints(current@),
            prev == crate::transform::ints(previous@),
            0 <= fy <= 3,
            0 <= fx <= 3,
            flat == (fy == 0 && fx == 0),
            fy == dy as int % 4,
            fx == dx as int % 4,
            sy == by * 8 + dy as int / 4,
            sx == bx * 8 + dx as int / 4,
            -10_000 <= sy <= 10_000,
            -10_000 <= sx <= 10_000,
            score == gap(cur, prev, by as int, bx as int, dy as int, dx as int, r as int),
            score <= r * 8 * 0x1_0000_0000,
            whole == gap_until(
                cur,
                prev,
                by as int,
                bx as int,
                dy as int,
                dx as int,
                limit as int,
                0,
            ),
            whole == gap_until(
                cur,
                prev,
                by as int,
                bx as int,
                dy as int,
                dx as int,
                limit as int,
                r as int,
            ),
            r > 0 ==> score < limit,
        decreases 24 - r,
    {
        let ch: usize = r / 8;
        let y: usize = r % 8;
        let at: usize = ch * PLANE + (by * 8 + y) * PIXELS + bx * 8;
        let ghost before = score;
        let ghost m = crate::motion_pixels::moved(prev, ch as int, by as int, bx as int, dy as int, dx as int);
        let mut x: usize = 0;
        while x < 8
            invariant
                x <= 8,
                r < 24,
                ch == r / 8,
                y == r % 8,
                at == ch * PLANE + (by * 8 + y) * PIXELS + bx * 8,
                by < H,
                bx < W,
                current.len() == FRAME,
                previous.len() == FRAME,
                cur == crate::transform::ints(current@),
                prev == crate::transform::ints(previous@),
                0 <= fy <= 3,
                0 <= fx <= 3,
                flat == (fy == 0 && fx == 0),
                fy == dy as int % 4,
                fx == dx as int % 4,
                sy == by * 8 + dy as int / 4,
                sx == bx * 8 + dx as int / 4,
                -10_000 <= sy <= 10_000,
                -10_000 <= sx <= 10_000,
                m == crate::motion_pixels::moved(prev, ch as int, by as int, bx as int, dy as int, dx as int),
                before <= r * 8 * 0x1_0000_0000,
                score <= before + x * 0x1_0000_0000,
                score == before + row_gap(
                    cur,
                    prev,
                    by as int,
                    bx as int,
                    dy as int,
                    dx as int,
                    r as int,
                    x as int,
                ),
            decreases 8 - x,
        {
            let a: i64 = current[at + x] as i64;
            let b: i64 = if flat {
                proof {
                    lemma_whole_vector(prev, ch as int, sy + y, sx + x);
                }
                pixel_at(previous, ch, sy + y as i32, sx + x as i32)
            } else {
                blend(previous, ch, sy + y as i32, sx + x as i32, fy, fx) as i64
            };
            proof {
                assert(cur[at + x] == a);
                assert((y * 8 + x) as int / 8 == y && (y * 8 + x) as int % 8 == x);
                assert(m[y * 8 + x] == b);
            }
            score = score + (if a < b { (b - a) as u64 } else { (a - b) as u64 });
            x += 1;
        }
        proof {
            reveal_with_fuel(gap_until, 2);
        }
        r += 1;
        if score >= limit {
            return score;
        }
    }
    score
}

/// The coefficients of a block, channel after channel.
pub open spec fn triple(c: Seq<i16>, by: int, bx: int) -> Seq<int> {
    Seq::new(192, |i: int| c[i / 64 * PLANE + (by * W + bx) * 64 + i % 64] as int)
}

pub open spec fn nothing() -> Seq<int> {
    Seq::new(192, |i: int| 0)
}

/// The coefficients of the block a vector away.
pub open spec fn motion(pixels: Seq<int>, q: Quant, by: int, bx: int, dy: int, dx: int) -> Seq<int> {
    Seq::new(
        192,
        |i: int|
            crate::transform::coefficients_of(
                crate::motion_pixels::moved(pixels, i / 64, by, bx, dy, dx),
                q@[i / 64]@,
            )[i % 64],
    )
}

pub open spec fn spent(a: Seq<int>, b: Seq<int>, i: int) -> int
    decreases i,
{
    if i <= 0 {
        0
    } else {
        spent(a, b, i - 1) + crate::motion_pixels::cost_of(a[i - 1] - b[i - 1])
    }
}

/// Whether every difference can be stored.
pub open spec fn storable(a: Seq<int>, b: Seq<int>) -> bool {
    forall|i: int| 0 <= i < 192 ==> crate::mov_cross::fits(#[trigger] a[i] - b[i])
}

/// What storing the differences between a block and its prediction costs.
pub open spec fn price(a: Seq<int>, b: Seq<int>) -> Option<int> {
    if storable(a, b) {
        Some(spent(a, b, 192))
    } else {
        None
    }
}

pub open spec fn wide(s: Seq<i16>) -> Seq<int> {
    Seq::new(s.len(), |k: int| s[k] as int)
}

fn block_cost(cur: &Vec<i16>, pred: &Vec<i16>) -> (r: Option<u64>)
    requires
        cur.len() == 192,
        pred.len() == 192,
    ensures
        match r {
            Some(n) => price(wide(cur@), wide(pred@)) == Some(n as int) && n <= 192 * 4608,
            None => price(wide(cur@), wide(pred@)) is None,
        },
{
    let ghost (a, b) = (wide(cur@), wide(pred@));
    let mut total: u64 = 0;
    let mut i: usize = 0;
    while i < 192
        invariant
            i <= 192,
            cur.len() == 192,
            pred.len() == 192,
            a == wide(cur@),
            b == wide(pred@),
            forall|j: int| 0 <= j < i ==> crate::mov_cross::fits(#[trigger] a[j] - b[j]),
            total == spent(a, b, i as int),
            total <= i * 4608,
        decreases 192 - i,
    {
        let d: i32 = cur[i] as i32 - pred[i] as i32;
        assert(d == a[i as int] - b[i as int]);
        if d < -32768 || d > 32767 {
            return None;
        }
        total = total + cost(d);
        i += 1;
    }
    Some(total)
}

pub(crate) fn take_triple(c: &[i16], by: usize, bx: usize) -> (v: Vec<i16>)
    requires
        c.len() == FRAME,
        by < H,
        bx < W,
    ensures
        v@.len() == 192,
        wide(v@) == triple(c@, by as int, bx as int),
{
    let mut v: Vec<i16> = Vec::new();
    let mut i: usize = 0;
    while i < 192
        invariant
            i <= 192,
            c.len() == FRAME,
            by < H,
            bx < W,
            v@.len() == i,
            forall|j: int|
                0 <= j < i ==> #[trigger] v@[j] == triple(c@, by as int, bx as int)[j],
        decreases 192 - i,
    {
        v.push(c[i / 64 * PLANE + (by * W + bx) * 64 + i % 64]);
        i += 1;
    }
    assert(wide(v@) =~= triple(c@, by as int, bx as int));
    v
}

/// Whether no weight of a frame is zero.
pub open spec fn weighed(q: Quant) -> bool {
    forall|ch: int, k: int| 0 <= ch < 3 && 0 <= k < 64 ==> #[trigger] q@[ch]@[k] > 0
}

pub(crate) fn predict(pixels: &[i32], q: &Quant, by: usize, bx: usize, dy: i16, dx: i16) -> (v: Vec<i16>)
    requires
        pixels.len() == FRAME,
        by < H,
        bx < W,
        weighed(*q),
    ensures
        v@.len() == 192,
        forall|i: int|
            0 <= i < 192 ==> #[trigger] v@[i] == motion(
                crate::transform::ints(pixels@),
                *q,
                by as int,
                bx as int,
                dy as int,
                dx as int,
            )[i],
{
    let ghost whole = motion(
        crate::transform::ints(pixels@),
        *q,
        by as int,
        bx as int,
        dy as int,
        dx as int,
    );
    let mut v: Vec<i16> = Vec::new();
    let mut ch: usize = 0;
    while ch < 3
        invariant
            ch <= 3,
            pixels.len() == FRAME,
            by < H,
            bx < W,
            weighed(*q),
            whole == motion(
                crate::transform::ints(pixels@),
                *q,
                by as int,
                bx as int,
                dy as int,
                dx as int,
            ),
            v@.len() == ch * 64,
            forall|i: int| 0 <= i < ch * 64 ==> #[trigger] v@[i] == whole[i],
        decreases 3 - ch,
    {
        let b = moved_block(pixels, ch, by, bx, dy, dx);
        let channel: &[u8; 64] = &q[ch];
        assert forall|k: int| 0 <= k < 64 implies #[trigger] channel@[k] > 0 by {
            assert(q@[ch as int]@[k] > 0);
        }
        let c = dct(&b, channel);
        proof {
            let block = crate::motion_pixels::moved(
                crate::transform::ints(pixels@),
                ch as int,
                by as int,
                bx as int,
                dy as int,
                dx as int,
            );
            assert forall|j: int| 0 <= j < 64 implies #[trigger] c@[j] == whole[ch * 64 + j] by {
                assert((ch * 64 + j) / 64 == ch && (ch * 64 + j) % 64 == j);
                assert(whole[ch * 64 + j] == crate::transform::coefficients_of(
                    block,
                    q@[ch as int]@,
                )[j]);
            }
        }
        let mut k: usize = 0;
        while k < 64
            invariant
                k <= 64,
                ch < 3,
                v@.len() == ch * 64 + k,
                forall|i: int| 0 <= i < ch * 64 + k ==> #[trigger] v@[i] == whole[i],
                forall|j: int| 0 <= j < 64 ==> #[trigger] c@[j] == whole[ch * 64 + j],
            decreases 64 - k,
        {
            v.push(c[k]);
            k += 1;
        }
        ch += 1;
    }
    v
}


/// A vector of whole pixels, as a pair by which shorter vectors come first.
pub open spec fn key(y: int, x: int) -> (u64, u64) {
    (
        (crate::transform::magnitude(y) + crate::transform::magnitude(x)) as u64,
        ((y + 16) * 64 + x + 16) as u64,
    )
}

/// All vectors of up to four whole pixels in either direction.
pub open spec fn keys() -> Seq<(u64, u64)> {
    Seq::new(81, |i: int| key((i / 9 - 4) * 4, (i % 9 - 4) * 4))
}

pub open spec fn vector_of(k: (u64, u64)) -> (int, int) {
    (k.1 as int / 64 - 16, k.1 as int % 64 - 16)
}

/// The vectors to try, shorter ones first.
pub open spec fn offsets() -> Seq<(int, int)> {
    Seq::new(81, |i: int| vector_of(crate::order::sorted(keys())[i]))
}

pub open spec fn short(v: int, limit: int) -> bool {
    -limit <= v <= limit
}

proof fn lemma_offsets()
    ensures
        crate::order::sorted(keys()).len() == 81,
        forall|i: int|
            0 <= i < 81 ==> short((#[trigger] offsets()[i]).0, 16) && short(offsets()[i].1, 16),
{
    let t = crate::order::sorted(keys());
    crate::order::law_sorted_keeps(keys());
    assert forall|i: int| 0 <= i < 81 implies short((#[trigger] offsets()[i]).0, 16) && short(
        offsets()[i].1,
        16,
    ) by {
        let x = t[i];
        assert(t.contains(x));
        crate::order::law_sorted_members(keys(), x);
        let j = choose|j: int| 0 <= j < keys().len() && keys()[j] == x;
        assert(keys()[j] == key((j / 9 - 4) * 4, (j % 9 - 4) * 4));
    }
}

/// The vectors to try.
pub fn search_offsets() -> (v: Vec<(i16, i16)>)
    ensures
        v@.len() == 81,
        forall|i: int|
            0 <= i < 81 ==> (#[trigger] v@[i]).0 == offsets()[i].0 && v@[i].1 == offsets()[i].1,
{
    let mut all: Vec<(u64, u64)> = Vec::new();
    let mut i: usize = 0;
    while i < 81
        invariant
            i <= 81,
            all@.len() == i,
            forall|j: int| 0 <= j < i ==> #[trigger] all@[j] == keys()[j],
        decreases 81 - i,
    {
        let y: i64 = ((i / 9) as i64 - 4) * 4;
        let x: i64 = ((i % 9) as i64 - 4) * 4;
        let length: i64 = (if y < 0 { -y } else { y }) + (if x < 0 { -x } else { x });
        all.push((length as u64, ((y + 16) * 64 + x + 16) as u64));
        i += 1;
    }
    assert(all@ =~= keys());
    let t = crate::order::sort(&all);
    proof {
        lemma_offsets();
    }
    let mut v: Vec<(i16, i16)> = Vec::new();
    let mut k: usize = 0;
    while k < 81
        invariant
            k <= 81,
            t@.len() == 81,
            t@ == crate::order::sorted(keys()),
            forall|j: int|
                0 <= j < 81 ==> short((#[trigger] offsets()[j]).0, 16) && short(
                    offsets()[j].1,
                    16,
                ),
            v@.len() == k,
            forall|j: int|
                0 <= j < k ==> (#[trigger] v@[j]).0 == offsets()[j].0 && v@[j].1 == offsets()[j].1,
        decreases 81 - k,
    {
        let n: u64 = t[k].1;
        proof {
            assert(offsets()[k as int] == vector_of(t@[k as int]));
        }
        let y: i16 = (n / 64) as i16 - 16;
        let x: i16 = (n % 64) as i16 - 16;
        v.push((y, x));
        k += 1;
    }
    v
}

/// The best vector so far, and by how much the block that it leads to differs.
pub struct Vector {
    pub dy: int,
    pub dx: int,
    pub gap: int,
}

pub open spec fn closer(v: Vector, dy: int, dx: int, g: int) -> Vector {
    if g < v.gap {
        Vector { dy, dx, gap: g }
    } else {
        v
    }
}

/// The best one of the first `k` vectors of whole pixels.
pub open spec fn nearest(cur: Seq<int>, prev: Seq<int>, by: int, bx: int, k: int) -> Vector
    decreases k,
{
    if k <= 0 {
        Vector { dy: 0, dx: 0, gap: gap(cur, prev, by, bx, 0, 0, 24) }
    } else {
        let v = nearest(cur, prev, by, bx, k - 1);
        let (y, x) = offsets()[k - 1];
        if y == 0 && x == 0 {
            v
        } else {
            closer(v, y, x, gap(cur, prev, by, bx, y, x, 24))
        }
    }
}

/// The best vector among one and those near it.
pub open spec fn refined(cur: Seq<int>, prev: Seq<int>, by: int, bx: int, base: Vector, j: int) -> Vector
    decreases j,
{
    if j <= 0 {
        base
    } else {
        let v = refined(cur, prev, by, bx, base, j - 1);
        let (y, x) = ((j - 1) / 5 - 2, (j - 1) % 5 - 2);
        if y == 0 && x == 0 {
            v
        } else {
            closer(
                v,
                base.dy + y,
                base.dx + x,
                gap(cur, prev, by, bx, base.dy + y, base.dx + x, 24),
            )
        }
    }
}

/// How a block is predicted: from nothing, from the block at the same place, or from the block a
/// vector away.
pub struct Decision {
    pub mode: int,
    pub dy: int,
    pub dx: int,
    pub pred: Seq<int>,
    pub score: int,
}

pub open spec fn unpredicted(a: Seq<int>) -> Decision {
    Decision { mode: 0, dy: 0, dx: 0, pred: nothing(), score: spent(a, nothing(), 192) }
}

pub open spec fn still(d: Decision, a: Seq<int>, t: Seq<int>) -> Decision {
    match price(a, t) {
        Some(n) => if n < d.score {
            Decision { mode: 1, dy: 0, dx: 0, pred: t, score: n }
        } else {
            d
        },
        None => d,
    }
}

pub open spec fn tried(d: Decision, a: Seq<int>, pred: Seq<int>, dy: int, dx: int) -> Decision {
    match price(a, pred) {
        Some(n) => if n + 2304 < d.score {
            Decision { mode: 2, dy, dx, pred, score: n + 2304 }
        } else {
            d
        },
        None => d,
    }
}

/// How a block of a frame is predicted from the frame before it, given the pixels of both.
#[verifier::opaque]
pub open spec fn decided(
    cur: Seq<i16>,
    previous: Seq<i16>,
    pixels: Seq<int>,
    before: Seq<int>,
    q: Quant,
    by: int,
    bx: int,
) -> Decision {
    let a = triple(cur, by, bx);
    let d = still(unpredicted(a), a, triple(previous, by, bx));
    if d.score <= 0 {
        d
    } else {
        let n = nearest(pixels, before, by, bx, 81);
        let v = refined(pixels, before, by, bx, n, 25);
        let d2 = tried(d, a, motion(before, q, by, bx, n.dy, n.dx), n.dy, n.dx);
        tried(d2, a, motion(before, q, by, bx, v.dy, v.dx), v.dy, v.dx)
    }
}

/// A frame and the one before it.
pub struct Frames<'a> {
    pub cur: &'a [i16],
    pub previous: &'a [i16],
    pub pixels: &'a [i32],
    pub before: &'a [i32],
    pub quant: &'a Quant,
    pub offsets: &'a [(i16, i16)],
}

impl Frames<'_> {
    pub open spec fn wf(&self) -> bool {
        &&& self.cur.len() == FRAME
        &&& self.previous.len() == FRAME
        &&& self.pixels.len() == FRAME
        &&& self.before.len() == FRAME
        &&& weighed(*self.quant)
        &&& self.offsets@.len() == 81
        &&& forall|i: int|
            0 <= i < 81 ==> (#[trigger] self.offsets@[i]).0 == offsets()[i].0 && self.offsets@[i].1
                == offsets()[i].1
    }

    /// How block number `b` is predicted.
    pub open spec fn decision(&self, b: int) -> Decision {
        decided(
            self.cur@,
            self.previous@,
            crate::transform::ints(self.pixels@),
            crate::transform::ints(self.before@),
            *self.quant,
            b / 126,
            b % 126,
        )
    }
}

/// How a block is predicted.
pub struct Choice {
    pub mode: u8,
    pub dy: i16,
    pub dx: i16,
    pub pred: Vec<i16>,
    pub score: u64,
}

impl Choice {
    pub open spec fn is(&self, d: Decision, a: Seq<int>) -> bool {
        &&& d.mode == self.mode
        &&& d.dy == self.dy
        &&& d.dx == self.dx
        &&& d.pred == wide(self.pred@)
        &&& d.score == self.score
        &&& self.pred@.len() == 192
        &&& self.mode <= 2
        &&& short(d.dy, 18)
        &&& short(d.dx, 18)
        &&& d.mode != 2 ==> d.dy == 0 && d.dx == 0
        &&& storable(a, d.pred)
        &&& self.score <= 192 * 4608
    }
}

/// A decision can be carried out.
pub open spec fn sound(d: Decision, a: Seq<int>) -> bool {
    &&& 0 <= d.mode <= 2
    &&& d.pred.len() == 192
    &&& short(d.dy, 18)
    &&& short(d.dx, 18)
    &&& d.mode != 2 ==> d.dy == 0 && d.dx == 0
    &&& storable(a, d.pred)
}

fn best_vector(frames: &Frames<'_>, by: usize, bx: usize) -> (r: ((i16, i16), (i16, i16)))
    requires
        frames.wf(),
        by < H,
        bx < W,
    ensures
        ({
            let pixels = crate::transform::ints(frames.pixels@);
            let before = crate::transform::ints(frames.before@);
            let n = nearest(pixels, before, by as int, bx as int, 81);
            let v = refined(pixels, before, by as int, bx as int, n, 25);
            &&& r.0.0 == n.dy
            &&& r.0.1 == n.dx
            &&& r.1.0 == v.dy
            &&& r.1.1 == v.dx
            &&& short(n.dy, 16)
            &&& short(n.dx, 16)
            &&& short(v.dy, 18)
            &&& short(v.dx, 18)
        }),
{
    let ghost pixels = crate::transform::ints(frames.pixels@);
    let ghost before = crate::transform::ints(frames.before@);
    proof {
        lemma_offsets();
    }
    let mut dy: i16 = 0;
    let mut dx: i16 = 0;
    let mut best = sad(frames.pixels, frames.before, by, bx, 0, 0, u64::MAX);
    proof {
        law_gap_until(pixels, before, by as int, bx as int, 0, 0, u64::MAX as int, 0);
    }
    let mut k: usize = 0;
    while k < 81
        invariant
            k <= 81,
            frames.wf(),
            by < H,
            bx < W,
            pixels == crate::transform::ints(frames.pixels@),
            before == crate::transform::ints(frames.before@),
            forall|i: int|
                0 <= i < 81 ==> short((#[trigger] offsets()[i]).0, 16) && short(
                    offsets()[i].1,
                    16,
                ),
            nearest(pixels, before, by as int, bx as int, k as int) == (Vector {
                dy: dy as int,
                dx: dx as int,
                gap: best as int,
            }),
            short(dy as int, 16),
            short(dx as int, 16),
        decreases 81 - k,
    {
        let (y, x) = frames.offsets[k];
        assert(y == offsets()[k as int].0 && x == offsets()[k as int].1);
        if !(y == 0 && x == 0) {
            let s = sad(frames.pixels, frames.before, by, bx, y, x, best);
            proof {
                law_gap_until(
                    pixels,
                    before,
                    by as int,
                    bx as int,
                    y as int,
                    x as int,
                    best as int,
                    0,
                );
            }
            if s < best {
                best = s;
                dy = y;
                dx = x;
            }
        }
        k += 1;
    }
    let (ny, nx) = (dy, dx);
    let ghost n = nearest(pixels, before, by as int, bx as int, 81);
    let mut j: usize = 0;
    while j < 25
        invariant
            j <= 25,
            frames.wf(),
            by < H,
            bx < W,
            pixels == crate::transform::ints(frames.pixels@),
            before == crate::transform::ints(frames.before@),
            n.dy == ny,
            n.dx == nx,
            short(ny as int, 16),
            short(nx as int, 16),
            refined(pixels, before, by as int, bx as int, n, j as int) == (Vector {
                dy: dy as int,
                dx: dx as int,
                gap: best as int,
            }),
            short(dy as int, 18),
            short(dx as int, 18),
        decreases 25 - j,
    {
        let y: i16 = (j / 5) as i16 - 2;
        let x: i16 = (j % 5) as i16 - 2;
        if !(y == 0 && x == 0) {
            let (vy, vx) = (ny + y, nx + x);
            let s = sad(frames.pixels, frames.before, by, bx, vy, vx, best);
            proof {
                law_gap_until(
                    pixels,
                    before,
                    by as int,
                    bx as int,
                    vy as int,
                    vx as int,
                    best as int,
                    0,
                );
            }
            if s < best {
                best = s;
                dy = vy;
                dx = vx;
            }
        }
        j += 1;
    }
    ((ny, nx), (dy, dx))
}

fn try_vector(c: Choice, a: &Vec<i16>, frames: &Frames<'_>, by: usize, bx: usize, v: (i16, i16), Ghost(
    d,
): Ghost<Decision>) -> (r: Choice)
    requires
        frames.wf(),
        by < H,
        bx < W,
        a@.len() == 192,
        c.is(d, wide(a@)),
        short(v.0 as int, 18),
        short(v.1 as int, 18),
    ensures
        r.is(
            tried(
                d,
                wide(a@),
                motion(
                    crate::transform::ints(frames.before@),
                    *frames.quant,
                    by as int,
                    bx as int,
                    v.0 as int,
                    v.1 as int,
                ),
                v.0 as int,
                v.1 as int,
            ),
            wide(a@),
        ),
{
    let pred = predict(frames.before, frames.quant, by, bx, v.0, v.1);
    assert(wide(pred@) =~= motion(
        crate::transform::ints(frames.before@),
        *frames.quant,
        by as int,
        bx as int,
        v.0 as int,
        v.1 as int,
    ));
    match block_cost(a, &pred) {
        Some(n) => {
            if n + 2304 < c.score {
                return Choice { mode: 2, dy: v.0, dx: v.1, pred, score: n + 2304 };
            }
        },
        None => {},
    }
    c
}

pub(crate) fn decide(frames: &Frames<'_>, a: &Vec<i16>, b: usize) -> (c: Choice)
    requires
        frames.wf(),
        b < 15876,
        a@.len() == 192,
        wide(a@) == triple(frames.cur@, b as int / 126, b as int % 126),
    ensures
        c.is(frames.decision(b as int), wide(a@)),
{
    reveal(decided);
    let by: usize = b / W;
    let bx: usize = b % W;
    let ghost whole = wide(a@);
    let zeros: Vec<i16> = vec![0i16; 192];
    assert(wide(zeros@) =~= nothing());
    assert(storable(whole, nothing()));
    let score: u64 = match block_cost(a, &zeros) {
        Some(n) => n,
        None => 0,
    };
    let mut c = Choice { mode: 0, dy: 0, dx: 0, pred: zeros, score };
    let ghost d0 = unpredicted(whole);
    assert(c.is(d0, whole));
    let t = take_triple(frames.previous, by, bx);
    match block_cost(a, &t) {
        Some(n) => {
            if n < c.score {
                c = Choice { mode: 1, dy: 0, dx: 0, pred: t, score: n };
            }
        },
        None => {},
    }
    let ghost d1 = still(d0, whole, triple(frames.previous@, by as int, bx as int));
    assert(c.is(d1, whole));
    if c.score == 0 {
        return c;
    }
    let (n, v) = best_vector(frames, by, bx);
    let c = try_vector(c, a, frames, by, bx, n, Ghost(d1));
    let ghost d2 = tried(
        d1,
        whole,
        motion(
            crate::transform::ints(frames.before@),
            *frames.quant,
            by as int,
            bx as int,
            n.0 as int,
            n.1 as int,
        ),
        n.0 as int,
        n.1 as int,
    );
    try_vector(c, a, frames, by, bx, v, Ghost(d2))
}



proof fn lemma_nearest(cur: Seq<int>, prev: Seq<int>, by: int, bx: int, k: int)
    requires
        0 <= k <= 81,
    ensures
        short(nearest(cur, prev, by, bx, k).dy, 16),
        short(nearest(cur, prev, by, bx, k).dx, 16),
    decreases k,
{
    lemma_offsets();
    if k > 0 {
        lemma_nearest(cur, prev, by, bx, k - 1);
        assert(short(offsets()[k - 1].0, 16));
    }
}

proof fn lemma_refined(cur: Seq<int>, prev: Seq<int>, by: int, bx: int, base: Vector, j: int)
    requires
        0 <= j <= 25,
        short(base.dy, 16),
        short(base.dx, 16),
    ensures
        short(refined(cur, prev, by, bx, base, j).dy, 18),
        short(refined(cur, prev, by, bx, base, j).dx, 18),
    decreases j,
{
    if j > 0 {
        lemma_refined(cur, prev, by, bx, base, j - 1);
    }
}

/// No vector is longer than four and a half pixels in either direction.
pub proof fn lemma_decided_vector(
    cur: Seq<i16>,
    previous: Seq<i16>,
    pixels: Seq<int>,
    before: Seq<int>,
    q: Quant,
    by: int,
    bx: int,
)
    ensures
        short(decided(cur, previous, pixels, before, q, by, bx).dy, 18),
        short(decided(cur, previous, pixels, before, q, by, bx).dx, 18),
{
    reveal(decided);
    lemma_nearest(pixels, before, by, bx, 81);
    lemma_refined(pixels, before, by, bx, nearest(pixels, before, by, bx, 81), 25);
}

}
