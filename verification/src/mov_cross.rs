//! Prediction of the chroma coefficients of a block from its luma coefficients.

use crate::compression::{pack, unpack, WINDOW};
use crate::locale::message_with;
use crate::model_coder::magnitude_bits;
use crate::monitor::Monitor;
use crate::wire::{fail, floor_div, put_signed16, read_signed16, same, Outcome};
use vstd::prelude::*;

verus! {

broadcast use {
    crate::monitor::lemma_climbs_on,
    crate::monitor::lemma_climbs_join,
    crate::monitor::lemma_climbs_up,
};

pub const MAGIC: [u8; 8] = [83, 80, 67, 88, 0, 0, 0, 1];

pub const MAX_COEFFICIENTS: usize = 268435456;

/// Where the coefficients of a block, in coding order, lie in the transform.
pub const SCAN: [usize; 64] = [
    0, 1, 8, 9, 2, 3, 10, 11, 16, 17, 24, 25, 18, 19, 26, 27, 4, 5, 12, 20, 13, 6, 7, 14, 21, 28,
    29, 22, 15, 23, 30, 31, 32, 33, 40, 48, 41, 34, 35, 42, 49, 56, 57, 50, 43, 36, 37, 44, 51, 58,
    59, 52, 45, 38, 39, 46, 53, 60, 61, 54, 47, 55, 62, 63,
];

/// The quantization weights of the three channels of a frame.
pub type Quant = [[u8; 64]; 3];

/// How steeply a chroma block follows the luma block, the first chroma block, or both, in units
/// of 1/32.
#[derive(Clone, Copy, Debug, PartialEq, Eq)]
pub struct Slopes {
    pub luma: i16,
    pub chroma: i16,
    pub joint_luma: i16,
    pub joint_chroma: i16,
}

/// Whether a slope can be stored.
pub open spec fn modest(n: int) -> bool {
    -256 <= n <= 256
}

pub open spec fn usable(s: Slopes) -> bool {
    modest(s.luma as int) && modest(s.chroma as int) && modest(s.joint_luma as int) && modest(
        s.joint_chroma as int,
    )
}

pub open spec fn weight(q: Quant, ch: int, k: int) -> int {
    q@[ch]@[SCAN@[k] as int] as int
}

/// Whether no quantization weight is zero.
pub open spec fn weighed(quant: Seq<Quant>) -> bool {
    forall|f: int, ch: int, k: int|
        0 <= f < quant.len() && 0 <= ch < 3 && 0 <= k < 64 ==> #[trigger] quant[f]@[ch]@[k] > 0
}

/// Checks the number of frames, block rows and block columns against the number of coefficients,
/// and the quantization weights.
pub open spec fn checked(shape: (int, int, int), quant: Seq<Quant>, len: int) -> Outcome<()> {
    let total = crate::mov_motion_entropy::volume(shape.0, shape.1, shape.2);
    if shape.0 == 0 || shape.1 == 0 || shape.2 == 0 || quant.len() != shape.0 {
        Err("invalid MOV cross-channel dimensions"@)
    } else if total > usize::MAX {
        Err("MOV cross-channel size overflow"@)
    } else if total > MAX_COEFFICIENTS || len != total || !weighed(quant) {
        Err("invalid MOV cross-channel coefficients or quantization"@)
    } else {
        Ok(())
    }
}

/// The chroma coefficient that the slopes `n1` and `n2` make of a luma and a chroma coefficient.
pub open spec fn predicted(y: int, u: int, n1: int, n2: int, qy: int, qu: int, qv: int) -> int {
    (n1 * y * qy + n2 * u * qu + 16 * qv) / (32 * qv)
}

/// What a block costs, roughly, in bits.
pub open spec fn bits(v: int) -> int {
    if v == 0 {
        0
    } else {
        2 * crate::model_coder::bits_in(v) + 1
    }
}

pub open spec fn cost(s: Seq<int>, k: int) -> int
    decreases k,
{
    if k <= 0 {
        0
    } else {
        cost(s, k - 1) + bits(s[k - 1])
    }
}

pub open spec fn plain_block(a: Seq<i16>, b: int) -> Seq<int> {
    Seq::new(64, |k: int| a[b * 64 + k] as int)
}

/// The prediction of coefficient `k` of block `b` in channel `ch`, where every channel of a frame
/// has `blocks` blocks.
pub open spec fn guess(
    a: Seq<i16>,
    q: Quant,
    b: int,
    blocks: int,
    ch: int,
    n1: int,
    n2: int,
    k: int,
) -> int {
    if k == 0 {
        0
    } else {
        predicted(
            a[(b - ch * blocks) * 64 + k] as int,
            a[(b - (ch - 1) * blocks) * 64 + k] as int,
            n1,
            n2,
            weight(q, 0, k),
            weight(q, 1, k),
            weight(q, ch, k),
        )
    }
}

/// What the prediction leaves of block `b`.
pub open spec fn trial(
    a: Seq<i16>,
    q: Quant,
    b: int,
    blocks: int,
    ch: int,
    n1: int,
    n2: int,
) -> Seq<int> {
    Seq::new(64, |k: int| a[b * 64 + k] - guess(a, q, b, blocks, ch, n1, n2, k))
}

pub open spec fn fits(v: int) -> bool {
    -32768 <= v <= 32767
}

pub open spec fn all_fit(s: Seq<int>) -> bool {
    forall|k: int| 0 <= k < s.len() ==> fits(#[trigger] s[k])
}

/// How a block is stored.
pub struct Pick {
    pub mode: int,
    pub first: int,
    pub second: int,
    pub values: Seq<int>,
    pub score: int,
}

/// The better one of a way to store a block and a prediction.
pub open spec fn better(p: Pick, mode: int, n1: int, n2: int, t: Seq<int>) -> Pick {
    let score = (if mode == 4 {
        26int
    } else {
        13int
    }) + cost(t, 64);
    if all_fit(t) && score < p.score {
        Pick { mode, first: n1, second: n2, values: t, score }
    } else {
        p
    }
}

/// The best way to store block `b`. The luma channel is stored as it is, and so is a block that is
/// cheap anyway.
#[verifier::opaque]
pub open spec fn pick_at(a: Seq<i16>, quant: Seq<Quant>, slopes: Seq<Slopes>, b: int, blocks: int) -> Pick {
    let q = quant[b / (3 * blocks)];
    let ch = b / blocks % 3;
    let s = slopes[b];
    let v = plain_block(a, b);
    let p0 = Pick { mode: 0, first: 0, second: 0, values: v, score: cost(v, 64) };
    if ch == 0 || p0.score <= 13 {
        p0
    } else {
        let (n1, n2) = (s.luma as int, s.chroma as int);
        let (m1, m2) = (s.joint_luma as int, s.joint_chroma as int);
        let p1 = better(p0, 2, n1, 0, trial(a, q, b, blocks, ch, n1, 0));
        if ch == 1 {
            p1
        } else {
            let p2 = better(p1, 3, 0, n2, trial(a, q, b, blocks, ch, 0, n2));
            better(p2, 4, m1, m2, trial(a, q, b, blocks, ch, m1, m2))
        }
    }
}

/// The coefficients that remain.
pub open spec fn remaining(a: Seq<i16>, quant: Seq<Quant>, slopes: Seq<Slopes>, blocks: int) -> Seq<i16> {
    Seq::new(
        a.len(),
        |i: int| pick_at(a, quant, slopes, i / 64, blocks).values[i % 64] as i16,
    )
}

/// Numbers as pairs of bytes.
pub open spec fn pairs(s: Seq<int>) -> Seq<u8>
    decreases s.len(),
{
    if s.len() == 0 {
        Seq::empty()
    } else {
        pairs(s.drop_last()) + crate::wire::le_bytes(crate::wire::unsigned16(s.last()), 2)
    }
}

/// The modes of all blocks, their first and their second slopes.
pub open spec fn parameters(a: Seq<i16>, quant: Seq<Quant>, slopes: Seq<Slopes>, blocks: int) -> Seq<u8> {
    let n = a.len() / 64;
    Seq::new(n, |b: int| pick_at(a, quant, slopes, b, blocks).mode as u8) + pairs(
        Seq::new(n, |b: int| pick_at(a, quant, slopes, b, blocks).first),
    ) + pairs(Seq::new(n, |b: int| pick_at(a, quant, slopes, b, blocks).second))
}

/// What coefficients and their slopes become, given what the compressor makes of the parameters.
pub open spec fn coded(
    a: Seq<i16>,
    shape: (int, int, int),
    quant: Seq<Quant>,
    slopes: Seq<Slopes>,
    packed: Outcome<Seq<u8>>,
) -> Outcome<(Seq<i16>, Seq<u8>)> {
    match checked(shape, quant, a.len() as int) {
        Err(e) => Err(e),
        Ok(_) => if slopes.len() != a.len() / 64 || exists|i: int|
            0 <= i < slopes.len() && !usable(#[trigger] slopes[i]) {
            Err("invalid MOV cross-channel slopes"@)
        } else {
            match packed {
                Err(e) => Err(
                    crate::locale::coded_message(
                        "codec.mov_cross_channel_compression"@,
                        seq![e],
                    ),
                ),
                Ok(bytes) => Ok(
                    (remaining(a, quant, slopes, shape.1 * shape.2), MAGIC@ + bytes),
                ),
            }
        },
    }
}

/// Whether a stored mode and its slopes make sense in channel `ch`.
pub open spec fn sensible(mode: int, ch: int, n1: int, n2: int) -> bool {
    &&& modest(n1)
    &&& modest(n2)
    &&& {
        ||| mode == 0 && n1 == 0 && n2 == 0
        ||| mode == 2 && ch > 0 && n2 == 0
        ||| mode == 3 && ch == 2 && n1 == 0
        ||| mode == 4 && ch == 2
    }
}

/// Block `b` with its prediction added.
pub open spec fn raised(
    a: Seq<i16>,
    q: Quant,
    b: int,
    blocks: int,
    ch: int,
    n1: int,
    n2: int,
) -> Seq<int> {
    Seq::new(64, |k: int| a[b * 64 + k] + guess(a, q, b, blocks, ch, n1, n2, k))
}

pub open spec fn narrow(s: Seq<int>) -> Seq<i16> {
    Seq::new(s.len(), |k: int| s[k] as i16)
}

/// Adds the prediction to block `b`, from parameters for `count` blocks.
pub open spec fn undone_at(
    a: Seq<i16>,
    raw: Seq<u8>,
    quant: Seq<Quant>,
    b: int,
    count: int,
    blocks: int,
) -> Outcome<Seq<i16>> {
    let q = quant[b / (3 * blocks)];
    let ch = b / blocks % 3;
    let mode = raw[b] as int;
    let n1 = crate::wire::signed16(raw, count + 2 * b);
    let n2 = crate::wire::signed16(raw, 3 * count + 2 * b);
    let t = raised(a, q, b, blocks, ch, n1, n2);
    if !sensible(mode, ch, n1, n2) {
        Err("invalid MOV cross-channel predictor"@)
    } else if mode == 0 {
        Ok(a)
    } else if !all_fit(t) {
        Err("MOV cross-channel reconstruction overflow"@)
    } else {
        Ok(crate::mov_motion_entropy::with_block(a, b, narrow(t)))
    }
}

/// Adds the prediction to every block from `b` on.
pub open spec fn undone_from(
    a: Seq<i16>,
    raw: Seq<u8>,
    quant: Seq<Quant>,
    b: int,
    count: int,
    blocks: int,
) -> Outcome<Seq<i16>>
    decreases count - b,
{
    if b >= count {
        Ok(a)
    } else {
        match undone_at(a, raw, quant, b, count, blocks) {
            Err(e) => Err(e),
            Ok(next) => undone_from(next, raw, quant, b + 1, count, blocks),
        }
    }
}

/// What comes of expanding the parameters of `n` coefficients: at most one byte more than there should be.
pub open spec fn read_of(side: Seq<u8>, n: int) -> Outcome<(Seq<u8>, int)> {
    crate::compression::unpacked(
        side.skip(8),
        5 * (n / 64) + 1,
        crate::compression::WINDOW as int,
    )
}

/// The coefficients that the remaining ones stand for, given what expanding the parameters yields.
pub open spec fn decoded(
    a: Seq<i16>,
    side: Seq<u8>,
    shape: (int, int, int),
    quant: Seq<Quant>,
    read: Outcome<(Seq<u8>, int)>,
) -> Outcome<Seq<i16>> {
    let count = a.len() as int / 64;
    match checked(shape, quant, a.len() as int) {
        Err(e) => Err(e),
        Ok(_) => if side.len() < 9 || side.take(8) != MAGIC@ || side.len() > 5 * count + 5 * count
            / 256 + 1024 {
            Err("invalid MOV cross-channel parameter stream"@)
        } else {
            match read {
                Err(e) => Err(
                    crate::locale::coded_message("codec.mov_cross_channel_parameters"@, seq![e]),
                ),
                Ok((raw, rest)) => if raw.len() != 5 * count {
                    Err("MOV cross-channel parameter length mismatch"@)
                } else if rest != 0 {
                    Err("trailing MOV cross-channel parameter bytes"@)
                } else {
                    undone_from(a, raw, quant, 0, count, shape.1 * shape.2)
                },
            }
        },
    }
}


/// Where block number `b` and the blocks that it is predicted from lie.
proof fn lemma_index(b: int, frames: int, blocks: int)
    requires
        frames >= 1,
        blocks >= 1,
        0 <= b < 3 * frames * blocks,
    ensures
        0 <= b / (3 * blocks) < frames,
        0 <= b / blocks % 3 < 3,
        0 <= b - b / blocks % 3 * blocks <= b,
        0 <= b - (b / blocks % 3 - 1) * blocks < 3 * frames * blocks,
        b / blocks % 3 >= 1 ==> b - (b / blocks % 3 - 1) * blocks <= b,
{
    let r = b / blocks;
    let ch = r % 3;
    let f = r / 3;
    assert(b == r * blocks + b % blocks && 0 <= b % blocks < blocks && 0 <= r) by (nonlinear_arith)
        requires
            r == b / blocks,
            blocks >= 1,
            b >= 0,
    ;
    assert(r < 3 * frames) by (nonlinear_arith)
        requires
            r * blocks <= b,
            b < 3 * frames * blocks,
            blocks >= 1,
    ;
    assert(b / (3 * blocks) == f) by (nonlinear_arith)
        requires
            b == r * blocks + b % blocks,
            0 <= b % blocks < blocks,
            r == 3 * f + ch,
            0 <= ch < 3,
            blocks >= 1,
    ;
    assert(b - ch * blocks == 3 * f * blocks + b % blocks) by (nonlinear_arith)
        requires
            b == r * blocks + b % blocks,
            r == 3 * f + ch,
    ;
    assert(0 <= 3 * f * blocks && 0 <= ch * blocks && 3 * f * blocks + 3 * blocks <= 3 * frames
        * blocks) by (nonlinear_arith)
        requires
            0 <= f < frames,
            0 <= ch,
            blocks >= 1,
    ;
    assert((ch - 1) * blocks == ch * blocks - blocks) by (nonlinear_arith);
    assert(ch >= 1 ==> (ch - 1) * blocks >= 0) by (nonlinear_arith)
        requires
            blocks >= 1,
    ;
}

fn zero_weight(quant: &[Quant]) -> (r: bool)
    ensures
        r == !weighed(quant@),
{
    let mut f: usize = 0;
    while f < quant.len()
        invariant
            f <= quant.len(),
            forall|g: int, ch: int, k: int|
                0 <= g < f && 0 <= ch < 3 && 0 <= k < 64 ==> #[trigger] quant@[g]@[ch]@[k] > 0,
        decreases quant.len() - f,
    {
        let mut i: usize = 0;
        while i < 192
            invariant
                f < quant.len(),
                i <= 192,
                forall|ch: int, k: int|
                    0 <= ch < 3 && 0 <= k < 64 && ch * 64 + k < i
                        ==> #[trigger] quant@[f as int]@[ch]@[k] > 0,
            decreases 192 - i,
        {
            if quant[f][i / 64][i % 64] == 0 {
                assert(quant@[f as int]@[i as int / 64]@[i as int % 64] == 0);
                return true;
            }
            assert forall|ch: int, k: int|
                0 <= ch < 3 && 0 <= k < 64 && ch * 64 + k < i + 1 implies #[trigger] quant@[f as int]@[ch]@[k]
                > 0 by {
                if ch * 64 + k == i {
                    assert(ch == i as int / 64 && k == i as int % 64);
                }
            }
            i += 1;
        }
        f += 1;
    }
    false
}

fn validate(shape: [usize; 3], quant: &[Quant], len: usize) -> (r: Result<usize, String>)
    ensures
        match r {
            Ok(blocks) => checked(
                crate::mov_motion_entropy::extent(shape),
                quant@,
                len as int,
            ) is Ok && blocks == shape@[1] * shape@[2] && blocks >= 1 && shape@[0] >= 1 && len == 64 * (
            3 * shape@[0] * blocks) && len <= MAX_COEFFICIENTS && quant@.len() == shape@[0]
                && weighed(quant@),
            Err(e) => checked(crate::mov_motion_entropy::extent(shape), quant@, len as int)
                == Err::<(), Seq<char>>(e@),
        },
{
    let (frames, rows, columns) = (shape[0], shape[1], shape[2]);
    if frames == 0 || rows == 0 || columns == 0 || quant.len() != frames {
        return Err(fail("invalid MOV cross-channel dimensions"));
    }
    let ghost (f, h, w) = (frames as int, rows as int, columns as int);
    let ghost total = crate::mov_motion_entropy::volume(f, h, w);
    proof {
        assert(total >= h * w && total >= h * w * 64 && total >= 3 * (h * w * 64) && total == 64 * (3
            * f * (h * w)) && h * w >= 1) by (nonlinear_arith)
            requires
                f >= 1,
                h >= 1,
                w >= 1,
                total == f * (3 * (h * w * 64)),
        ;
    }
    let blocks: usize = match rows.checked_mul(columns) {
        None => {
            return Err(fail("MOV cross-channel size overflow"));
        },
        Some(n) => n,
    };
    let plane: usize = match blocks.checked_mul(64) {
        None => {
            return Err(fail("MOV cross-channel size overflow"));
        },
        Some(n) => n,
    };
    let frame: usize = match plane.checked_mul(3) {
        None => {
            return Err(fail("MOV cross-channel size overflow"));
        },
        Some(n) => n,
    };
    assert(frame * frames == total) by (nonlinear_arith)
        requires
            frame == 3 * (h * w * 64),
            frames == f,
            total == f * (3 * (h * w * 64)),
    ;
    let size: usize = match frame.checked_mul(frames) {
        None => {
            return Err(fail("MOV cross-channel size overflow"));
        },
        Some(n) => n,
    };
    if size > MAX_COEFFICIENTS || len != size || zero_weight(quant) {
        return Err(fail("invalid MOV cross-channel coefficients or quantization"));
    }
    Ok(blocks)
}

fn price(v: i32) -> (n: u32)
    requires
        -65536 < v < 65536,
    ensures
        n == bits(v as int),
        n <= 33,
{
    if v == 0 {
        0
    } else {
        2 * (magnitude_bits(v) as u32) + 1
    }
}

fn prediction(y: i16, u: i16, n1: i16, n2: i16, qy: u8, qu: u8, qv: u8) -> (r: i64)
    requires
        qv > 0,
        modest(n1 as int),
        modest(n2 as int),
    ensures
        r == predicted(
            y as int,
            u as int,
            n1 as int,
            n2 as int,
            qy as int,
            qu as int,
            qv as int,
        ),
        -0x1_0000_0000 <= r <= 0x1_0000_0000,
{
    let ghost p = n1 * y * qy;
    let ghost s = n2 * u * qu;
    proof {
        assert(-8388608 <= n1 * y <= 8388608) by (nonlinear_arith)
            requires
                -256 <= n1 <= 256,
                -32768 <= y <= 32767,
        ;
        assert(-8388608 <= n2 * u <= 8388608) by (nonlinear_arith)
            requires
                -256 <= n2 <= 256,
                -32768 <= u <= 32767,
        ;
        let (a, b) = (n1 * y, n2 * u);
        assert(-2139095040 <= a * qy <= 2139095040) by (nonlinear_arith)
            requires
                -8388608 <= a <= 8388608,
                0 <= qy <= 255,
        ;
        assert(-2139095040 <= b * qu <= 2139095040) by (nonlinear_arith)
            requires
                -8388608 <= b <= 8388608,
                0 <= qu <= 255,
        ;
    }
    let numerator: i64 = (n1 as i64) * (y as i64) * (qy as i64) + (n2 as i64) * (u as i64) * (
    qu as i64);
    let denominator: i64 = 32 * (qv as i64);
    let top: i64 = numerator + denominator / 2;
    let r = floor_div(top, denominator);
    assert(-0x1_0000_0000 <= r <= 0x1_0000_0000) by (nonlinear_arith)
        requires
            r == top as int / denominator as int,
            -4278190080 <= top <= 4278194240,
            denominator >= 32,
    ;
    r
}

/// How a block will be stored.
struct Best {
    mode: u8,
    first: i16,
    second: i16,
    values: Vec<i16>,
    score: u32,
}

spec fn wide(s: Seq<i16>) -> Seq<int> {
    Seq::new(s.len(), |k: int| s[k] as int)
}

impl Best {
    spec fn is(&self, p: Pick) -> bool {
        &&& p.mode == self.mode
        &&& p.first == self.first
        &&& p.second == self.second
        &&& p.values == wide(self.values@)
        &&& p.score == self.score
        &&& self.values@.len() == 64
        &&& self.score <= 10000
    }
}

/// Tries a prediction and keeps it if it is better.
fn consider(
    best: &mut Best,
    values: &[i16],
    q: &Quant,
    b: usize,
    blocks: usize,
    ch: usize,
    mode: u8,
    n1: i16,
    n2: i16,
    Ghost(p): Ghost<Pick>,
)
    requires
        old(best).is(p),
        ch == 1 || ch == 2,
        blocks * ch <= b,
        b * 64 + 64 <= values.len(),
        forall|c: int, k: int| 0 <= c < 3 && 0 <= k < 64 ==> #[trigger] q@[c]@[k] > 0,
        modest(n1 as int),
        modest(n2 as int),
    ensures
        final(best).is(
            better(
                p,
                mode as int,
                n1 as int,
                n2 as int,
                trial(
                    values@,
                    *q,
                    b as int,
                    blocks as int,
                    ch as int,
                    n1 as int,
                    n2 as int,
                ),
            ),
        ),
{
    let ghost t = trial(
        values@,
        *q,
        b as int,
        blocks as int,
        ch as int,
        n1 as int,
        n2 as int,
    );
    let start: u32 = if mode == 4 { 26 } else { 13 };
    let mut score: u32 = start;
    let mut kept: Vec<i16> = Vec::new();
    let mut k: usize = 0;
    proof {
        assert(0 <= (ch - 1) * blocks <= ch * blocks && ch * blocks == blocks * ch) by (nonlinear_arith)
            requires
                ch >= 1,
                blocks >= 0,
        ;
        assert((ch - 1) * blocks == (if ch == 1 {
            0
        } else {
            blocks as int
        })) by (nonlinear_arith)
            requires
                ch == 1 || ch == 2,
        ;
    }
    let y: usize = b - blocks * ch;
    let u: usize = if ch == 1 { b } else { b - blocks };
    while k < 64
        invariant
            k <= 64,
            ch == 1 || ch == 2,
            b * 64 + 64 <= values.len(),
            y == b - ch * blocks,
            u == b - (ch - 1) * blocks,
            y <= b,
            u <= b,
            forall|c: int, j: int| 0 <= c < 3 && 0 <= j < 64 ==> #[trigger] q@[c]@[j] > 0,
            modest(n1 as int),
            modest(n2 as int),
            best.is(p),
            t == trial(
                values@,
                *q,
                b as int,
                blocks as int,
                ch as int,
                n1 as int,
                n2 as int,
            ),
            kept@.len() == k,
            forall|j: int| 0 <= j < k ==> #[trigger] kept@[j] == t[j],
            start <= 26,
            score == start + cost(t, k as int),
            score <= 26 + 33 * k,
        decreases 64 - k,
    {
        let natural = SCAN[k];
        let guessed: i64 = if k == 0 {
            0
        } else {
            prediction(values[y * 64 + k], values[u * 64 + k], n1, n2, q[0][natural], q[1][natural], q[ch][natural])
        };
        let delta: i64 = values[b * 64 + k] as i64 - guessed;
        assert(delta == t[k as int]);
        if delta < -32768 || delta > 32767 {
            assert(!fits(t[k as int]));
            return ;
        }
        kept.push(delta as i16);
        score = score + price(delta as i32);
        k += 1;
    }
    assert(wide(kept@) =~= t);
    assert(all_fit(wide(kept@)));
    if score < best.score {
        best.mode = mode;
        best.first = n1;
        best.second = n2;
        best.values = kept;
        best.score = score;
    }
}

/// The best way to store block `b`.
fn choose_block(values: &[i16], quant: &[Quant], slopes: &[Slopes], b: usize, blocks: usize) -> (best:
    Best)
    requires
        blocks >= 1,
        quant@.len() >= 1,
        b < 3 * quant@.len() * blocks,
        values@.len() == 64 * (3 * quant@.len() * blocks),
        values.len() <= MAX_COEFFICIENTS,
        weighed(quant@),
        b < slopes@.len(),
        usable(slopes@[b as int]),
    ensures
        best.is(pick_at(values@, quant@, slopes@, b as int, blocks as int)),
        all_fit(pick_at(values@, quant@, slopes@, b as int, blocks as int).values),
{
    proof {
        reveal(pick_at);
        lemma_index(b as int, quant@.len() as int, blocks as int);
        assert(3 * blocks <= 3 * quant@.len() * blocks) by (nonlinear_arith)
            requires
                quant@.len() >= 1,
                blocks >= 1,
        ;
    }
    let ghost v = plain_block(values@, b as int);
    let mut kept: Vec<i16> = Vec::new();
    let mut score: u32 = 0;
    let mut k: usize = 0;
    while k < 64
        invariant
            k <= 64,
            b * 64 + 64 <= values.len(),
            v == plain_block(values@, b as int),
            kept@.len() == k,
            forall|j: int| 0 <= j < k ==> #[trigger] kept@[j] == v[j],
            score == cost(v, k as int),
            score <= 33 * k,
        decreases 64 - k,
    {
        let x: i16 = values[b * 64 + k];
        kept.push(x);
        score = score + price(x as i32);
        k += 1;
    }
    assert(wide(kept@) =~= v);
    let mut best = Best { mode: 0, first: 0, second: 0, values: kept, score };
    let ch: usize = b / blocks % 3;
    if ch == 0 || score <= 13 {
        return best;
    }
    let ghost p0 = Pick { mode: 0, first: 0, second: 0, values: v, score: cost(v, 64) };
    let f: usize = b / (3 * blocks);
    let s: Slopes = slopes[b];
    let q: &Quant = &quant[f];
    proof {
        assert(blocks * ch == ch * blocks) by (nonlinear_arith);
        assert forall|c: int, j: int| 0 <= c < 3 && 0 <= j < 64 implies #[trigger] q@[c]@[j] > 0 by {
            assert(quant@[f as int]@[c]@[j] > 0);
        }
    }
    consider(&mut best, values, q, b, blocks, ch, 2, s.luma, 0, Ghost(p0));
    let ghost p1 = better(
        p0,
        2,
        s.luma as int,
        0,
        trial(values@, *q, b as int, blocks as int, ch as int, s.luma as int, 0),
    );
    if ch == 1 {
        return best;
    }
    consider(&mut best, values, q, b, blocks, ch, 3, 0, s.chroma, Ghost(p1));
    let ghost p2 = better(
        p1,
        3,
        0,
        s.chroma as int,
        trial(values@, *q, b as int, blocks as int, ch as int, 0, s.chroma as int),
    );
    consider(
        &mut best,
        values,
        q,
        b,
        blocks,
        ch,
        4,
        s.joint_luma,
        s.joint_chroma,
        Ghost(p2),
    );
    best
}

fn steep(n: i16) -> (r: bool)
    ensures
        r == !modest(n as int),
{
    n < -256 || n > 256
}

fn unusable(slopes: &[Slopes]) -> (r: bool)
    ensures
        r == (exists|i: int| 0 <= i < slopes@.len() && !usable(#[trigger] slopes@[i])),
{
    let mut i: usize = 0;
    while i < slopes.len()
        invariant
            i <= slopes.len(),
            forall|j: int| 0 <= j < i ==> usable(#[trigger] slopes@[j]),
        decreases slopes.len() - i,
    {
        let s = slopes[i];
        if steep(s.luma) || steep(s.chroma) || steep(s.joint_luma) || steep(s.joint_chroma) {
            assert(!usable(slopes@[i as int]));
            return true;
        }
        i += 1;
    }
    false
}

fn put_pairs(v: &Vec<i16>, out: &mut Vec<u8>)
    ensures
        final(out)@ == old(out)@ + pairs(wide(v@)),
{
    let ghost head = out@;
    let mut i: usize = 0;
    assert(out@ =~= head + pairs(wide(v@).take(0)));
    while i < v.len()
        invariant
            i <= v.len(),
            out@ == head + pairs(wide(v@).take(i as int)),
        decreases v.len() - i,
    {
        let ghost part = wide(v@).take(i as int + 1);
        assert(part.drop_last() =~= wide(v@).take(i as int));
        put_signed16(v[i], out);
        assert(out@ =~= head + pairs(part));
        i += 1;
    }
    assert(wide(v@).take(v@.len() as int) =~= wide(v@));
}

pub open spec fn outcome(r: Result<(Vec<i16>, Vec<u8>), String>) -> Outcome<(Seq<i16>, Seq<u8>)> {
    match r {
        Ok((a, side)) => Ok((a@, side@)),
        Err(e) => Err(e@),
    }
}

/// What remains of coefficients with their parameters, by what compressing those yielded.
pub open spec fn sealed(left: Seq<i16>, packed: Outcome<Seq<u8>>) -> Outcome<(Seq<i16>, Seq<u8>)> {
    match packed {
        Err(e) => Err(
            crate::locale::coded_message("codec.mov_cross_channel_compression"@, seq![e]),
        ),
        Ok(bytes) => Ok((left, MAGIC@ + bytes)),
    }
}

/// Puts what remains of coefficients together with their parameters.
pub fn seal_params(left: Vec<i16>, packed: Result<Vec<u8>, String>) -> (r: Result<
    (Vec<i16>, Vec<u8>),
    String,
>)
    ensures
        outcome(r) == sealed(left@, crate::wire::bytes_of(packed)),
{
    match packed {
        Err(e) => Err(message_with("codec.mov_cross_channel_compression", e)),
        Ok(bytes) => {
            let mut side: Vec<u8> = Vec::new();
            side.extend_from_slice(&MAGIC);
            side.extend_from_slice(&bytes);
            assert(side@ =~= MAGIC@ + bytes@);
            Ok((left, side))
        },
    }
}

/// The modes and slopes of the first `n` blocks are chosen, and what remains of them is stored.
spec fn chosen(
    a: Seq<i16>,
    quant: Seq<Quant>,
    slopes: Seq<Slopes>,
    blocks: int,
    n: int,
    out: Seq<i16>,
    modes: Seq<u8>,
    first: Seq<i16>,
    second: Seq<i16>,
) -> bool {
    &&& modes.len() == n
    &&& first.len() == n
    &&& second.len() == n
    &&& out.len() == 64 * n
    &&& forall|b: int|
        0 <= b < n ==> #[trigger] modes[b] == pick_at(a, quant, slopes, b, blocks).mode as u8
    &&& forall|b: int|
        0 <= b < n ==> #[trigger] first[b] == pick_at(a, quant, slopes, b, blocks).first
    &&& forall|b: int|
        0 <= b < n ==> #[trigger] second[b] == pick_at(a, quant, slopes, b, blocks).second
    &&& forall|i: int|
        0 <= i < 64 * n ==> #[trigger] out[i] == pick_at(a, quant, slopes, i / 64, blocks).values[i
            % 64]
}

/// Predicts chroma coefficients with the given slopes, one set for every block, and returns what
/// remains together with the compressed parameters.
/// Every report to the watcher is `at`.
pub fn encode_at<M: Monitor>(
    values: &[i16],
    shape: [usize; 3],
    quant: &[Quant],
    slopes: &[Slopes],
    cancel: &mut M,
    at: (u64, u64),
) -> (r: Result<(Vec<i16>, Vec<u8>), String>)
    requires
        !old(cancel).stopped(),
        at.0 <= at.1,
    ensures
        crate::monitor::climbs(*old(cancel), at.0 as int, at.0 as int, at.1, *final(cancel)),
        outcome(r) == crate::wire::unless(
            final(cancel).stopped(),
            coded(
                values@,
                crate::mov_motion_entropy::extent(shape),
                quant@,
                slopes@,
                crate::compression::packed(
                    parameters(values@, quant@, slopes@, shape@[1] * shape@[2]),
                    12,
                ),
            ),
        ),
        crate::monitor::heeds(*old(cancel), r),
        r is Ok ==> crate::monitor::last_told(*final(cancel), at.0, at.1),
{
    proof {
        crate::monitor::lemma_stays(*cancel, at.0 as int, at.0 as int, at.1);
    }
    let ghost settings = parameters(values@, quant@, slopes@, shape@[1] * shape@[2]);
    if !cancel.report(at.0, at.1) {
        return Err(fail("error.cancelled"));
    }
    proof {
        crate::monitor::lemma_agreed(*old(cancel), at.0, at.1, *cancel);
    }
    let blocks = validate(shape, quant, values.len())?;
    let count: usize = values.len() / 64;
    if slopes.len() != count || unusable(slopes) {
        return Err(fail("invalid MOV cross-channel slopes"));
    }
    let mut out: Vec<i16> = Vec::new();
    let mut modes: Vec<u8> = Vec::new();
    let mut first: Vec<i16> = Vec::new();
    let mut second: Vec<i16> = Vec::new();
    let mut b: usize = 0;
    while b < count
        invariant
            crate::monitor::climbs(*old(cancel), at.0 as int, at.0 as int, at.1, *cancel),
            blocks == shape@[1] * shape@[2],
            blocks >= 1,
            shape@[0] >= 1,
            quant@.len() == shape@[0],
            values@.len() == 64 * (3 * shape@[0] * blocks),
            values.len() <= MAX_COEFFICIENTS,
            weighed(quant@),
            count * 64 == values@.len(),
            slopes@.len() == count,
            forall|i: int| 0 <= i < slopes@.len() ==> usable(#[trigger] slopes@[i]),
            !cancel.stopped(),
            !crate::monitor::refuses(*old(cancel)),
            at.0 <= at.1,
            settings == parameters(values@, quant@, slopes@, shape@[1] * shape@[2]),
            b <= count,
            chosen(
                values@,
                quant@,
                slopes@,
                blocks as int,
                b as int,
                out@,
                modes@,
                first@,
                second@,
            ),
        decreases count - b,
    {
        if b / blocks % 3 > 0 && b % blocks % 128 == 0 && !cancel.report(at.0, at.1) {
            return Err(fail("error.cancelled"));
        }
        let ghost p = pick_at(values@, quant@, slopes@, b as int, blocks as int);
        let mut best = choose_block(values, quant, slopes, b, blocks);
        let ghost kept = best.values@;
        let ghost before = out@;
        modes.push(best.mode);
        first.push(best.first);
        second.push(best.second);
        out.append(&mut best.values);
        proof {
            assert forall|i: int| 0 <= i < 64 * (b + 1) implies #[trigger] out@[i] == pick_at(
                values@,
                quant@,
                slopes@,
                i / 64,
                blocks as int,
            ).values[i % 64] by {
                if i < 64 * b {
                    assert(out@[i] == before[i]);
                } else {
                    assert(i / 64 == b && i % 64 == i - 64 * b);
                    assert(out@[i] == kept[i - 64 * b]);
                    assert(p.values[i - 64 * b] == kept[i - 64 * b]);
                }
            }
        }
        b += 1;
    }
    if !cancel.report(at.0, at.1) {
        return Err(fail("error.cancelled"));
    }
    assert(out@ =~= remaining(values@, quant@, slopes@, blocks as int));
    assert(wide(first@) =~= Seq::new(
        count as nat,
        |b: int| pick_at(values@, quant@, slopes@, b, blocks as int).first,
    ));
    assert(wide(second@) =~= Seq::new(
        count as nat,
        |b: int| pick_at(values@, quant@, slopes@, b, blocks as int).second,
    ));
    assert(modes@ =~= Seq::new(
        count as nat,
        |b: int| pick_at(values@, quant@, slopes@, b, blocks as int).mode as u8,
    ));
    let mut raw: Vec<u8> = modes;
    put_pairs(&first, &mut raw);
    put_pairs(&second, &mut raw);
    assert(raw@ =~= settings);
    let packed = pack(&raw, 12);
    let sealed = seal_params(out, packed)?;
    let ghost before = *cancel;
    if !cancel.report(at.0, at.1) {
        return Err(fail("error.cancelled"));
    }
    assert(before.told(at.0, at.1, true, cancel));
    Ok(sealed)
}

/// Predicts chroma coefficients with the given slopes, one set for every block, and returns what
/// remains together with the compressed parameters.
pub fn encode<M: Monitor>(
    values: &[i16],
    shape: [usize; 3],
    quant: &[Quant],
    slopes: &[Slopes],
    cancel: &mut M,
) -> (r: Result<(Vec<i16>, Vec<u8>), String>)
    requires
        !old(cancel).stopped(),
    ensures
        outcome(r) == crate::wire::unless(
            final(cancel).stopped(),
            coded(
                values@,
                crate::mov_motion_entropy::extent(shape),
                quant@,
                slopes@,
                crate::compression::packed(
                    parameters(values@, quant@, slopes@, shape@[1] * shape@[2]),
                    12,
                ),
            ),
        ),
        crate::monitor::heeds(*old(cancel), r),
        r is Ok ==> crate::monitor::last_told(*final(cancel), 0, 1),
{
    encode_at(values, shape, quant, slopes, cancel, (0, 1))
}


fn stored_well(mode: u8, ch: usize, n1: i16, n2: i16) -> (r: bool)
    ensures
        r == sensible(mode as int, ch as int, n1 as int, n2 as int),
{
    if steep(n1) || steep(n2) {
        return false;
    }
    if mode == 0 {
        n1 == 0 && n2 == 0
    } else if mode == 2 {
        ch > 0 && n2 == 0
    } else if mode == 3 {
        ch == 2 && n1 == 0
    } else {
        mode == 4 && ch == 2
    }
}

/// Adds the prediction to block `b`.
fn undo_block(values: &mut Vec<i16>, raw: &[u8], quant: &[Quant], b: usize, count: usize, blocks: usize) -> (r:
    Result<(), String>)
    requires
        blocks >= 1,
        quant@.len() >= 1,
        count == 3 * quant@.len() * blocks,
        b < count,
        old(values)@.len() == 64 * count,
        old(values).len() <= MAX_COEFFICIENTS,
        weighed(quant@),
        raw.len() == 5 * count,
    ensures
        final(values)@.len() == old(values)@.len(),
        match undone_at(
            old(values)@,
            raw@,
            quant@,
            b as int,
            count as int,
            blocks as int,
        ) {
            Ok(a) => r is Ok && final(values)@ == a,
            Err(e) => r matches Err(m) && m@ == e,
        },
{
    proof {
        lemma_index(b as int, quant@.len() as int, blocks as int);
        assert(3 * blocks <= 3 * quant@.len() * blocks) by (nonlinear_arith)
            requires
                quant@.len() >= 1,
                blocks >= 1,
        ;
    }
    let ch: usize = b / blocks % 3;
    let mode: u8 = raw[b];
    let n1 = read_signed16(raw, count + 2 * b);
    let n2 = read_signed16(raw, 3 * count + 2 * b);
    if !stored_well(mode, ch, n1, n2) {
        return Err(fail("invalid MOV cross-channel predictor"));
    }
    if mode == 0 {
        return Ok(());
    }
    let f: usize = b / (3 * blocks);
    let q: &Quant = &quant[f];
    let ghost t = raised(
        values@,
        *q,
        b as int,
        blocks as int,
        ch as int,
        n1 as int,
        n2 as int,
    );
    proof {
        assert forall|c: int, j: int| 0 <= c < 3 && 0 <= j < 64 implies #[trigger] q@[c]@[j] > 0 by {
            assert(quant@[f as int]@[c]@[j] > 0);
        }
        assert(blocks * ch == ch * blocks) by (nonlinear_arith);
        assert(blocks <= ch * blocks && (ch - 1) * blocks == (if ch == 1 {
            0
        } else {
            blocks as int
        })) by (nonlinear_arith)
            requires
                ch == 1 || ch == 2,
                blocks >= 1,
        ;
    }
    let y: usize = b - blocks * ch;
    let u: usize = if ch == 1 { b } else { b - blocks };
    let ghost a = values@;
    let mut k: usize = 1;
    assert(t[0] == a[b * 64]);
    while k < 64
        invariant
            1 <= k <= 64,
            ch == 1 || ch == 2,
            a == old(values)@,
            values@.len() == a.len(),
            values.len() == a.len(),
            b * 64 + 64 <= a.len(),
            y == b - ch * blocks,
            u == b - (ch - 1) * blocks,
            y < b,
            u <= b,
            forall|c: int, j: int| 0 <= c < 3 && 0 <= j < 64 ==> #[trigger] q@[c]@[j] > 0,
            modest(n1 as int),
            modest(n2 as int),
            t == raised(
                a,
                *q,
                b as int,
                blocks as int,
                ch as int,
                n1 as int,
                n2 as int,
            ),
            forall|i: int|
                0 <= i < a.len() ==> #[trigger] values@[i] == (if b * 64 <= i < b * 64 + k {
                    t[i - b * 64]
                } else {
                    a[i] as int
                }),
            undone_at(
                old(values)@,
                raw@,
                quant@,
                b as int,
                count as int,
                blocks as int,
            ) == (if !all_fit(t) {
                Err("MOV cross-channel reconstruction overflow"@)
            } else {
                Ok(crate::mov_motion_entropy::with_block(a, b as int, narrow(t)))
            }),
        decreases 64 - k,
    {
        let natural = SCAN[k];
        let guessed: i64 = prediction(values[y * 64 + k], values[u * 64 + k], n1, n2, q[0][natural], q[1][natural], q[ch][natural]);
        let sum: i64 = values[b * 64 + k] as i64 + guessed;
        assert(sum == t[k as int]);
        if sum < -32768 || sum > 32767 {
            assert(!fits(t[k as int]));
            return Err(fail("MOV cross-channel reconstruction overflow"));
        }
        values[b * 64 + k] = sum as i16;
        k += 1;
    }
    proof {
        assert forall|k: int| 0 <= k < 64 implies fits(#[trigger] t[k]) by {
            assert(values@[b * 64 + k] == t[k]);
        }
        assert(values@ =~= crate::mov_motion_entropy::with_block(a, b as int, narrow(t)));
    }
    Ok(())
}

pub open spec fn numbers(r: Result<Vec<i16>, String>) -> Outcome<Seq<i16>> {
    match r {
        Ok(a) => Ok(a@),
        Err(e) => Err(e@),
    }
}

/// Adds the predictions to coefficients, given what expanding the parameters yielded.
/// Every report to the watcher is `at`.
pub fn apply_at<M: Monitor>(
    values: Vec<i16>,
    side: &[u8],
    shape: [usize; 3],
    quant: &[Quant],
    read: Result<(Vec<u8>, usize), String>,
    cancel: &mut M,
    at: (u64, u64),
) -> (r: Result<Vec<i16>, String>)
    requires
        !old(cancel).stopped(),
        at.0 <= at.1,
    ensures
        crate::monitor::climbs(*old(cancel), at.0 as int, at.0 as int, at.1, *final(cancel)),
        numbers(r) == crate::wire::unless(
            final(cancel).stopped(),
            decoded(
                values@,
                side@,
                crate::mov_motion_entropy::extent(shape),
                quant@,
                crate::compression::unpacked_outcome(read),
            ),
        ),
        r matches Ok(v) ==> v@.len() == values@.len(),
        crate::monitor::refuses(*old(cancel)) ==> r is Err,
        r is Ok ==> crate::monitor::last_told(*final(cancel), at.0, at.1),
{
    proof {
        crate::monitor::lemma_stays(*cancel, at.0 as int, at.0 as int, at.1);
    }
    let blocks = validate(shape, quant, values.len())?;
    let count: usize = values.len() / 64;
    let expected: usize = count * 5;
    if side.len() < 9 || !same(&side[0..8], &MAGIC) || side.len() > expected + expected / 256 + 1024 {
        return Err(fail("invalid MOV cross-channel parameter stream"));
    }
    let (raw, rest) = match read {
        Err(e) => {
            return Err(message_with("codec.mov_cross_channel_parameters", e));
        },
        Ok(pair) => pair,
    };
    if raw.len() != expected {
        return Err(fail("MOV cross-channel parameter length mismatch"));
    }
    if rest != 0 {
        return Err(fail("trailing MOV cross-channel parameter bytes"));
    }
    let ghost result = decoded(
        values@,
        side@,
        crate::mov_motion_entropy::extent(shape),
        quant@,
        crate::compression::unpacked_outcome(read),
    );
    let mut out = values;
    let ghost whole = undone_from(out@, raw@, quant@, 0, count as int, blocks as int);
    let mut b: usize = 0;
    while b < count
        invariant
            crate::monitor::climbs(*old(cancel), at.0 as int, at.0 as int, at.1, *cancel),
            blocks >= 1,
            quant@.len() >= 1,
            count == 3 * quant@.len() * blocks,
            out@.len() == 64 * count,
            out.len() <= MAX_COEFFICIENTS,
            weighed(quant@),
            raw.len() == 5 * count,
            !cancel.stopped(),
            b == 0 ==> *cancel == *old(cancel),
            b > 0 ==> !crate::monitor::refuses(*old(cancel)),
            at.0 <= at.1,
            b <= count,
            result == whole,
            result == decoded(
                values@,
                side@,
                crate::mov_motion_entropy::extent(shape),
                quant@,
                crate::compression::unpacked_outcome(read),
            ),
            whole == undone_from(out@, raw@, quant@, b as int, count as int, blocks as int),
        decreases count - b,
    {
        let ghost told = *cancel;
        if b % blocks % 128 == 0 && !cancel.report(at.0, at.1) {
            return Err(fail("error.cancelled"));
        }
        proof {
            if b == 0 {
                assert(0int % blocks as int == 0) by (nonlinear_arith)
                    requires
                        blocks >= 1,
                ;
                crate::monitor::lemma_agreed(told, at.0, at.1, *cancel);
            }
        }
        undo_block(&mut out, &raw, quant, b, count, blocks)?;
        b += 1;
    }
    let ghost before = *cancel;
    if !cancel.report(at.0, at.1) {
        return Err(fail("error.cancelled"));
    }
    assert(before.told(at.0, at.1, true, cancel));
    proof {
        if count == 0 {
            crate::monitor::lemma_agreed(before, at.0, at.1, *cancel);
        }
    }
    Ok(out)
}

/// Adds the predictions to coefficients, given what expanding the parameters yielded.
pub fn apply<M: Monitor>(
    values: Vec<i16>,
    side: &[u8],
    shape: [usize; 3],
    quant: &[Quant],
    read: Result<(Vec<u8>, usize), String>,
    cancel: &mut M,
) -> (r: Result<Vec<i16>, String>)
    requires
        !old(cancel).stopped(),
    ensures
        numbers(r) == crate::wire::unless(
            final(cancel).stopped(),
            decoded(
                values@,
                side@,
                crate::mov_motion_entropy::extent(shape),
                quant@,
                crate::compression::unpacked_outcome(read),
            ),
        ),
        crate::monitor::refuses(*old(cancel)) ==> r is Err,
        r is Ok ==> crate::monitor::last_told(*final(cancel), 0, 1),
{
    apply_at(values, side, shape, quant, read, cancel, (0, 1))
}

/// Adds the predictions to coefficients.
/// Every report to the watcher is `at`.
pub fn decode_at<M: Monitor>(
    values: Vec<i16>,
    side: &[u8],
    shape: [usize; 3],
    quant: &[Quant],
    cancel: &mut M,
    at: (u64, u64),
) -> (r: Result<Vec<i16>, String>)
    requires
        !old(cancel).stopped(),
        at.0 <= at.1,
    ensures
        crate::monitor::climbs(*old(cancel), at.0 as int, at.0 as int, at.1, *final(cancel)),
        numbers(r) == crate::wire::unless(
            final(cancel).stopped(),
            decoded(
                values@,
                side@,
                crate::mov_motion_entropy::extent(shape),
                quant@,
                read_of(side@, values@.len() as int),
            ),
        ),
        r matches Ok(v) ==> v@.len() == values@.len(),
        crate::monitor::heeds(*old(cancel), r),
        r is Ok ==> crate::monitor::last_told(*final(cancel), at.0, at.1),
{
    proof {
        crate::monitor::lemma_stays(*cancel, at.0 as int, at.0 as int, at.1);
    }
    if !cancel.report(at.0, at.1) {
        return Err(fail("error.cancelled"));
    }
    proof {
        crate::monitor::lemma_agreed(*old(cancel), at.0, at.1, *cancel);
    }
    let blocks = validate(shape, quant, values.len())?;
    let expected: usize = values.len() / 64 * 5;
    if side.len() < 9 || !same(&side[0..8], &MAGIC) || side.len() > expected + expected / 256 + 1024 {
        return Err(fail("invalid MOV cross-channel parameter stream"));
    }
    let read = unpack(&side[8..side.len()], expected as u64 + 1, WINDOW);
    assert(side@.subrange(8, side@.len() as int) =~= side@.skip(8));
    apply_at(values, side, shape, quant, read, cancel, at)
}

/// Adds the predictions to coefficients.
pub fn decode<M: Monitor>(
    values: Vec<i16>,
    side: &[u8],
    shape: [usize; 3],
    quant: &[Quant],
    cancel: &mut M,
) -> (r: Result<Vec<i16>, String>)
    requires
        !old(cancel).stopped(),
    ensures
        numbers(r) == crate::wire::unless(
            final(cancel).stopped(),
            decoded(
                values@,
                side@,
                crate::mov_motion_entropy::extent(shape),
                quant@,
                read_of(side@, values@.len() as int),
            ),
        ),
        crate::monitor::heeds(*old(cancel), r),
        r is Ok ==> crate::monitor::last_told(*final(cancel), 0, 1),
{
    decode_at(values, side, shape, quant, cancel, (0, 1))
}

/// Stored parameters and what they say about block `b`.
proof fn lemma_pairs(s: Seq<int>, b: int)
    requires
        0 <= b < s.len(),
        forall|i: int| 0 <= i < s.len() ==> fits(#[trigger] s[i]),
    ensures
        pairs(s).len() == 2 * s.len(),
        crate::wire::signed16(pairs(s), 2 * b) == s[b],
    decreases s.len(),
{
    let n = s.len() as int;
    crate::wire::law_signed16(s.last() as i16);
    let tail = crate::wire::le_bytes(crate::wire::unsigned16(s.last()), 2);
    lemma_pairs_len(s.drop_last());
    if b == n - 1 {
        assert(pairs(s)[2 * b] == tail[0] && pairs(s)[2 * b + 1] == tail[1]);
    } else {
        lemma_pairs(s.drop_last(), b);
        assert(pairs(s)[2 * b] == pairs(s.drop_last())[2 * b]);
        assert(pairs(s)[2 * b + 1] == pairs(s.drop_last())[2 * b + 1]);
    }
}

proof fn lemma_pairs_len(s: Seq<int>)
    ensures
        pairs(s).len() == 2 * s.len(),
    decreases s.len(),
{
    if s.len() > 0 {
        lemma_pairs_len(s.drop_last());
        reveal_with_fuel(crate::wire::le_bytes, 3);
    }
}

proof fn lemma_pick(a: Seq<i16>, quant: Seq<Quant>, slopes: Seq<Slopes>, b: int, frames: int, blocks: int)
    requires
        blocks >= 1,
        frames >= 1,
        0 <= b < 3 * frames * blocks,
        a.len() == 64 * (3 * frames * blocks),
        usable(slopes[b]),
    ensures
        ({
            let p = pick_at(a, quant, slopes, b, blocks);
            let q = quant[b / (3 * blocks)];
            let ch = b / blocks % 3;
            &&& p.values.len() == 64
            &&& all_fit(p.values)
            &&& sensible(p.mode, ch, p.first, p.second)
            &&& p.values == (if p.mode == 0 {
                plain_block(a, b)
            } else {
                trial(a, q, b, blocks, ch, p.first, p.second)
            })
        }),
{
    reveal(pick_at);
    lemma_index(b, frames, blocks);
    assert(all_fit(plain_block(a, b)));
}

/// The first `n` blocks of one sequence, followed by the rest of another.
spec fn joined(a: Seq<i16>, c: Seq<i16>, n: int) -> Seq<i16> {
    Seq::new(
        a.len(),
        |i: int|
            if i < 64 * n {
                a[i]
            } else {
                c[i]
            },
    )
}

/// Predictions agree where what they are made from agrees.
proof fn lemma_same_guess(
    a: Seq<i16>,
    c: Seq<i16>,
    q: Quant,
    b: int,
    blocks: int,
    ch: int,
    n1: int,
    n2: int,
    k: int,
)
    requires
        a[(b - ch * blocks) * 64 + k] == c[(b - ch * blocks) * 64 + k],
        n2 == 0 || a[(b - (ch - 1) * blocks) * 64 + k] == c[(b - (ch - 1) * blocks) * 64 + k],
    ensures
        guess(a, q, b, blocks, ch, n1, n2, k) == guess(c, q, b, blocks, ch, n1, n2, k),
{
    let u = a[(b - (ch - 1) * blocks) * 64 + k] as int;
    let v = c[(b - (ch - 1) * blocks) * 64 + k] as int;
    let w = weight(q, 1, k);
    assert(n2 * u * w == n2 * v * w) by (nonlinear_arith)
        requires
            n2 == 0 || u == v,
    ;
}

proof fn lemma_undone_at(
    a: Seq<i16>,
    quant: Seq<Quant>,
    slopes: Seq<Slopes>,
    b: int,
    count: int,
    frames: int,
    blocks: int,
)
    requires
        blocks >= 1,
        frames >= 1,
        count == 3 * frames * blocks,
        0 <= b < count,
        a.len() == 64 * count,
        slopes.len() == count,
        forall|i: int| 0 <= i < slopes.len() ==> usable(#[trigger] slopes[i]),
    ensures
        ({
            let c = remaining(a, quant, slopes, blocks);
            undone_at(
                joined(a, c, b),
                parameters(a, quant, slopes, blocks),
                quant,
                b,
                count,
                blocks,
            ) == Ok::<Seq<i16>, Seq<char>>(joined(a, c, b + 1))
        }),
{
    let c = remaining(a, quant, slopes, blocks);
    let here = joined(a, c, b);
    let next = joined(a, c, b + 1);
    let p = pick_at(a, quant, slopes, b, blocks);
    let q = quant[b / (3 * blocks)];
    let ch = b / blocks % 3;
    lemma_index(b, frames, blocks);
    lemma_pick(a, quant, slopes, b, frames, blocks);
    lemma_parameters(a, quant, slopes, b, count, frames, blocks);
    assert forall|k: int| 0 <= k < 64 implies #[trigger] here[b * 64 + k] == p.values[k] by {
        assert((b * 64 + k) / 64 == b && (b * 64 + k) % 64 == k);
        assert(fits(p.values[k]));
    }
    if p.mode == 0 {
        assert forall|i: int| b * 64 <= i < b * 64 + 64 implies here[i] == a[i] by {
            let k = i - b * 64;
            assert(here[b * 64 + k] == p.values[k]);
        }
        assert(here =~= next);
    } else {
        let t = raised(here, q, b, blocks, ch, p.first, p.second);
        assert forall|k: int| 0 <= k < 64 implies #[trigger] t[k] == a[b * 64 + k] by {
            lemma_back(a, here, q, b, blocks, ch, p, k);
        }
        assert(all_fit(t));
        assert(crate::mov_motion_entropy::with_block(here, b, narrow(t)) =~= next);
    }
}

proof fn lemma_back(
    a: Seq<i16>,
    here: Seq<i16>,
    q: Quant,
    b: int,
    blocks: int,
    ch: int,
    p: Pick,
    k: int,
)
    requires
        blocks >= 1,
        1 <= ch <= 2,
        0 <= k < 64,
        0 <= b - ch * blocks,
        b * 64 + 64 <= a.len(),
        here.len() == a.len(),
        forall|i: int| 0 <= i < b * 64 ==> #[trigger] here[i] == a[i],
        here[b * 64 + k] == p.values[k],
        p.values == trial(a, q, b, blocks, ch, p.first, p.second),
        ch == 1 ==> p.second == 0,
    ensures
        here[b * 64 + k] + guess(here, q, b, blocks, ch, p.first, p.second, k) == a[b * 64 + k],
{
    let (i, j) = ((b - ch * blocks) * 64 + k, (b - (ch - 1) * blocks) * 64 + k);
    assert(ch * blocks >= blocks && (ch == 2 ==> (ch - 1) * blocks == blocks)) by (nonlinear_arith)
        requires
            1 <= ch <= 2,
            blocks >= 1,
    ;
    assert(here[i] == a[i]);
    if ch == 2 {
        assert(here[j] == a[j]);
    }
    lemma_same_guess(here, a, q, b, blocks, ch, p.first, p.second, k);
}

proof fn lemma_undone_from(
    a: Seq<i16>,
    quant: Seq<Quant>,
    slopes: Seq<Slopes>,
    b: int,
    count: int,
    frames: int,
    blocks: int,
)
    requires
        blocks >= 1,
        frames >= 1,
        count == 3 * frames * blocks,
        0 <= b <= count,
        a.len() == 64 * count,
        slopes.len() == count,
        forall|i: int| 0 <= i < slopes.len() ==> usable(#[trigger] slopes[i]),
    ensures
        undone_from(
            joined(a, remaining(a, quant, slopes, blocks), b),
            parameters(a, quant, slopes, blocks),
            quant,
            b,
            count,
            blocks,
        ) == Ok::<Seq<i16>, Seq<char>>(a),
    decreases count - b,
{
    if b >= count {
        assert(joined(a, remaining(a, quant, slopes, blocks), b) =~= a);
    } else {
        lemma_undone_at(a, quant, slopes, b, count, frames, blocks);
        lemma_undone_from(a, quant, slopes, b + 1, count, frames, blocks);
    }
}

proof fn lemma_parameters(
    a: Seq<i16>,
    quant: Seq<Quant>,
    slopes: Seq<Slopes>,
    b: int,
    count: int,
    frames: int,
    blocks: int,
)
    requires
        blocks >= 1,
        frames >= 1,
        count == 3 * frames * blocks,
        0 <= b < count,
        a.len() == 64 * count,
        slopes.len() == count,
        forall|i: int| 0 <= i < slopes.len() ==> usable(#[trigger] slopes[i]),
    ensures
        ({
            let raw = parameters(a, quant, slopes, blocks);
            let p = pick_at(a, quant, slopes, b, blocks);
            &&& raw.len() == 5 * count
            &&& raw[b] == p.mode
            &&& crate::wire::signed16(raw, count + 2 * b) == p.first
            &&& crate::wire::signed16(raw, 3 * count + 2 * b) == p.second
        }),
{
    let raw = parameters(a, quant, slopes, blocks);
    let modes = Seq::new(count as nat, |b: int| pick_at(a, quant, slopes, b, blocks).mode as u8);
    let first = Seq::new(count as nat, |b: int| pick_at(a, quant, slopes, b, blocks).first);
    let second = Seq::new(count as nat, |b: int| pick_at(a, quant, slopes, b, blocks).second);
    assert(raw == modes + pairs(first) + pairs(second));
    assert forall|i: int| 0 <= i < count implies fits(#[trigger] first[i]) && fits(second[i]) by {
        assert(usable(slopes[i]));
        lemma_pick(a, quant, slopes, i, frames, blocks);
    }
    assert forall|i: int| 0 <= i < count implies fits(#[trigger] second[i]) by {
        assert(fits(first[i]));
    }
    lemma_pick(a, quant, slopes, b, frames, blocks);
    lemma_pairs(first, b);
    lemma_pairs(second, b);
    assert(raw[count + 2 * b] == pairs(first)[2 * b]);
    assert(raw[count + 2 * b + 1] == pairs(first)[2 * b + 1]);
    assert(raw[3 * count + 2 * b] == pairs(second)[2 * b]);
    assert(raw[3 * count + 2 * b + 1] == pairs(second)[2 * b + 1]);
}

/// Coefficients come back from what prediction leaves of them, whatever the slopes, where the compressed
/// parameters expand again.
pub proof fn law_decode_undoes_encode(
    a: Seq<i16>,
    shape: (int, int, int),
    quant: Seq<Quant>,
    slopes: Seq<Slopes>,
    packed: Outcome<Seq<u8>>,
)
    requires
        shape.0 >= 0,
        shape.1 >= 0,
        shape.2 >= 0,
        packed matches Ok(frame) ==> crate::compression::gives_back(
            frame,
            parameters(a, quant, slopes, shape.1 * shape.2),
        ) && 1 <= frame.len() <= 5 * (a.len() as int / 64) + 5 * (a.len() as int / 64) / 256 + 64,
    ensures
        coded(a, shape, quant, slopes, packed) matches Ok((c, side)) ==> c.len() == a.len() && decoded(
            c,
            side,
            shape,
            quant,
            read_of(side, c.len() as int),
        ) == Ok::<Seq<i16>, Seq<char>>(a),
{
    if let Ok((c, side)) = coded(a, shape, quant, slopes, packed) {
        let (f, h, w) = shape;
        let blocks = h * w;
        let count = a.len() as int / 64;
        let total = crate::mov_motion_entropy::volume(f, h, w);
        assert(total == 64 * (3 * f * (h * w)) && h * w >= 1) by (nonlinear_arith)
            requires
                f >= 1,
                h >= 1,
                w >= 1,
                total == f * (3 * (h * w * 64)),
        ;
        let bytes = packed->Ok_0;
        let raw = parameters(a, quant, slopes, blocks);
        assert(3 * f * blocks >= 1) by (nonlinear_arith)
            requires
                f >= 1,
                blocks >= 1,
        ;
        lemma_parameters(a, quant, slopes, 0, count, f, blocks);
        assert(side.skip(8) =~= bytes);
        assert(side.take(8) =~= MAGIC@);
        lemma_undone_from(a, quant, slopes, 0, count, f, blocks);
        assert(joined(a, c, 0) =~= c);
    }
}

}
