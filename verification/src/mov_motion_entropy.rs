//! The entropy code of coefficient errors, frame by frame.

use crate::model_coder::{emit_number, read_number, Coder, Decoder, Slots};
use crate::monitor::Monitor;
use crate::source_rc::{Dec, Enc, Reading, Writing};
use crate::wire::{fail, Outcome};
use vstd::prelude::*;

verus! {

broadcast use {
    crate::monitor::lemma_climbs_on,
    crate::monitor::lemma_climbs_join,
    crate::monitor::lemma_climbs_up,
};

pub const MAX_COEFFICIENTS: usize = 268435456;

pub const MAX_BYTES: usize = 536870912;

pub const CONTEXTS: usize = 500000;

/// How many coefficients `frames` frames of three channels with `blocks` blocks each have.
pub open spec fn volume(frames: int, rows: int, columns: int) -> int {
    frames * (3 * (rows * columns * 64))
}

/// Checks the number of frames, block rows and block columns, and the mode of every block.
pub open spec fn checked(shape: (int, int, int), modes: Seq<u8>) -> Outcome<()> {
    let total = volume(shape.0, shape.1, shape.2);
    if shape.0 == 0 || shape.1 == 0 || shape.2 == 0 {
        Err("invalid MOV motion dimensions"@)
    } else if total > usize::MAX {
        Err("MOV motion size overflow"@)
    } else if total > MAX_COEFFICIENTS || modes.len() != total / 192 || exists|i: int|
        0 <= i < modes.len() && modes[i] > 2 {
        Err("invalid MOV motion modes or coefficient limit"@)
    } else {
        Ok(())
    }
}

/// The size class of a number.
pub open spec fn bucket_of(v: int) -> int {
    if v == 0 {
        0
    } else {
        let n = 1 + crate::codeword::top_bit(crate::model_coder::size(v));
        if n < 7 {
            n
        } else {
            7
        }
    }
}

/// Where a block lies: its frame, its channel, its number within the channel, its row and column,
/// and its mode. `width` is the number of columns, and `frame` that of coefficients in a frame.
pub struct Cell {
    pub f: int,
    pub ch: int,
    pub block: int,
    pub y: int,
    pub x: int,
    pub mode: int,
    pub width: int,
    pub frame: int,
}

/// The place of block number `b`.
pub open spec fn cell_of(b: int, blocks: int, width: int, modes: Seq<u8>) -> Cell {
    let f = b / (3 * blocks);
    let block = b % blocks;
    Cell {
        f,
        ch: b / blocks % 3,
        block,
        y: block / width,
        x: block % width,
        mode: modes[f * blocks + block] as int,
        width,
        frame: 3 * (blocks * 64),
    }
}

/// The slots of coefficient `k` of block number `b`, which depend on the coefficients to the left,
/// above, in the frame before, and before it in the block.
pub open spec fn slots_at(a: Seq<i16>, b: int, k: int, c: Cell) -> Slots {
    let at = b * 64 + k;
    let left = if c.x > 0 {
        a[at - 64] as int
    } else {
        0
    };
    let above = if c.y > 0 {
        a[at - c.width * 64] as int
    } else {
        0
    };
    let temporal = if at >= c.frame {
        a[at - c.frame] as int
    } else {
        0
    };
    let previous = if k > 0 {
        a[at - 1] as int
    } else {
        0
    };
    let context = c.ch * 64 + k;
    let larger = if crate::model_coder::size(left) > crate::model_coder::size(above) {
        crate::model_coder::size(left)
    } else {
        crate::model_coder::size(above)
    };
    let scale = bucket_of(larger);
    Slots {
        zero: 512 + ((context * 8 + scale) * 3 + c.mode) * 4 + crate::model_coder::flag(
            temporal == 0,
        ) * 2 + crate::model_coder::flag(previous == 0),
        ones: 20000 + ((context * 8 + scale) * 3 + c.mode) * 16,
        low: 95000 + (context * 8 + scale) * 256,
        sign: 490000 + (context * 3 + c.mode) * 8 + crate::model_coder::flag(left < 0) * 4
            + crate::model_coder::flag(above < 0) * 2 + crate::model_coder::flag(temporal < 0),
    }
}

/// Block number `b`.
pub open spec fn block_at(a: Seq<i16>, b: int) -> Seq<i16> {
    a.subrange(b * 64, b * 64 + 64)
}

/// Whether a block holds nothing but zeros.
pub open spec fn blank(v: Seq<i16>) -> bool {
    forall|i: int| 0 <= i < v.len() ==> v[i] == 0
}

/// Whether the same block of the frame before holds nothing but zeros.
pub open spec fn prior_blank(a: Seq<i16>, b: int, c: Cell, blocks: int) -> bool {
    c.f > 0 && blank(block_at(a, b - 3 * blocks))
}

/// The slot for whether a block is blank.
pub open spec fn blank_slot(a: Seq<i16>, b: int, c: Cell, blocks: int) -> int {
    (c.ch * 3 + c.mode) * 2 + crate::model_coder::flag(prior_blank(a, b, c, blocks))
}

/// Writes the coefficients of a block from `k` on.
pub open spec fn put_cells(s: (Seq<u16>, Writing), a: Seq<i16>, b: int, k: int, c: Cell) -> (
    Seq<u16>,
    Writing,
)
    decreases 64 - k,
{
    if k >= 64 {
        s
    } else {
        put_cells(
            crate::model_coder::put_number(s, a[b * 64 + k] as int, slots_at(a, b, k, c)),
            a,
            b,
            k + 1,
            c,
        )
    }
}

/// Writes a block: whether it is blank, whether it is that of the frame before, and if neither, its
/// coefficients.
pub open spec fn put_block(
    s: (Seq<u16>, Writing),
    a: Seq<i16>,
    b: int,
    blocks: int,
    c: Cell,
) -> (Seq<u16>, Writing) {
    let slot = blank_slot(a, b, c, blocks);
    let empty = blank(block_at(a, b));
    let copy = c.f > 0 && block_at(a, b) == block_at(a, b - 3 * blocks);
    let s = crate::model_coder::put(s, slot, empty);
    if empty {
        s
    } else {
        let s = crate::model_coder::put(s, 64 + slot, copy);
        if copy {
            s
        } else {
            put_cells(s, a, b, 0, c)
        }
    }
}

/// Writes the blocks from number `b` on. Now and then the length of the stream is held to the
/// limit.
pub open spec fn put_blocks(
    s: (Seq<u16>, Writing),
    a: Seq<i16>,
    b: int,
    count: int,
    blocks: int,
    width: int,
    modes: Seq<u8>,
) -> Outcome<(Seq<u16>, Writing)>
    decreases count - b,
{
    if b >= count {
        Ok(s)
    } else if b % blocks % 128 == 0 && s.1.out.len() > MAX_BYTES {
        Err("MOV motion entropy limit"@)
    } else {
        put_blocks(
            put_block(s, a, b, blocks, cell_of(b, blocks, width, modes)),
            a,
            b + 1,
            count,
            blocks,
            width,
            modes,
        )
    }
}

/// The slots that coding starts with.
pub open spec fn fresh() -> Seq<u16> {
    Seq::new(CONTEXTS as nat, |i: int| 2048u16)
}

/// The entropy code of coefficients.
pub open spec fn coded(a: Seq<i16>, shape: (int, int, int), modes: Seq<u8>) -> Outcome<Seq<u8>> {
    match checked(shape, modes) {
        Err(e) => Err(e),
        Ok(_) => if a.len() != volume(shape.0, shape.1, shape.2) {
            Err("MOV motion coefficient length mismatch"@)
        } else {
            match put_blocks(
                (fresh(), Writing::start()),
                a,
                0,
                a.len() as int / 64,
                shape.1 * shape.2,
                shape.2,
                modes,
            ) {
                Err(e) => Err(e),
                Ok(s) => if s.1.finish().len() > MAX_BYTES {
                    Err("MOV motion entropy limit"@)
                } else {
                    Ok(s.1.finish())
                },
            }
        },
    }
}

/// Reads the coefficients of a block from `k` on.
pub open spec fn get_cells(s: (Seq<u16>, Reading), a: Seq<i16>, b: int, k: int, c: Cell) -> Outcome<
    ((Seq<u16>, Reading), Seq<i16>),
>
    decreases 64 - k,
{
    if k >= 64 {
        Ok((s, a))
    } else {
        match crate::model_coder::get_number(
            s,
            slots_at(a, b, k, c),
            "MOV motion exponent overflow"@,
        ) {
            Err(e) => Err(e),
            Ok((v, s)) => if v < i16::MIN || v > i16::MAX {
                Err("MOV motion coefficient overflow"@)
            } else {
                get_cells(s, a.update(b * 64 + k, v as i16), b, k + 1, c)
            },
        }
    }
}

/// `a` with block number `b` replaced.
pub open spec fn with_block(a: Seq<i16>, b: int, v: Seq<i16>) -> Seq<i16> {
    Seq::new(
        a.len(),
        |i: int|
            if b * 64 <= i < b * 64 + 64 {
                v[i - b * 64]
            } else {
                a[i]
            },
    )
}

/// Reads a block, which is still zero in `a`.
pub open spec fn get_block(
    s: (Seq<u16>, Reading),
    a: Seq<i16>,
    b: int,
    blocks: int,
    c: Cell,
) -> Outcome<((Seq<u16>, Reading), Seq<i16>)> {
    let slot = blank_slot(a, b, c, blocks);
    match crate::model_coder::get(s, slot) {
        Err(e) => Err(e),
        Ok((empty, s)) => if empty {
            Ok((s, a))
        } else {
            match crate::model_coder::get(s, 64 + slot) {
                Err(e) => Err(e),
                Ok((copy, s)) => if copy {
                    if c.f == 0 {
                        Err("invalid first-frame MOV motion copy"@)
                    } else {
                        Ok((s, with_block(a, b, block_at(a, b - 3 * blocks))))
                    }
                } else {
                    get_cells(s, a, b, 0, c)
                },
            }
        },
    }
}

/// Reads the blocks from number `b` on.
pub open spec fn get_blocks(
    s: (Seq<u16>, Reading),
    a: Seq<i16>,
    b: int,
    count: int,
    blocks: int,
    width: int,
    modes: Seq<u8>,
) -> Outcome<((Seq<u16>, Reading), Seq<i16>)>
    decreases count - b,
{
    if b >= count {
        Ok((s, a))
    } else {
        match get_block(s, a, b, blocks, cell_of(b, blocks, width, modes)) {
            Err(e) => Err(e),
            Ok((s, a)) => get_blocks(s, a, b + 1, count, blocks, width, modes),
        }
    }
}

/// The coefficients that a stream stands for.
pub open spec fn decoded(bytes: Seq<u8>, shape: (int, int, int), modes: Seq<u8>) -> Outcome<
    Seq<i16>,
> {
    match checked(shape, modes) {
        Err(e) => Err(e),
        Ok(_) => if bytes.len() > MAX_BYTES {
            Err("MOV motion entropy limit"@)
        } else if bytes.len() < 5 || bytes[0] != 0 {
            Err("truncated ProRes model range stream"@)
        } else {
            let total = volume(shape.0, shape.1, shape.2);
            match get_blocks(
                (fresh(), Reading::start(bytes)),
                Seq::new(total as nat, |i: int| 0i16),
                0,
                total / 64,
                shape.1 * shape.2,
                shape.2,
                modes,
            ) {
                Err(e) => Err(e),
                Ok((s, a)) => if s.1.pos != bytes.len() {
                    Err("trailing MOV motion entropy bytes"@)
                } else {
                    Ok(a)
                },
            }
        },
    }
}


/// The numbers of frames, rows and columns.
pub open spec fn extent(shape: [usize; 3]) -> (int, int, int) {
    (shape@[0] as int, shape@[1] as int, shape@[2] as int)
}

/// What follows from the dimensions for the place of block number `b`.
proof fn lemma_cell(b: int, frames: int, rows: int, width: int)
    requires
        frames >= 1,
        rows >= 1,
        width >= 1,
        0 <= b < 3 * frames * (rows * width),
    ensures
        ({
            let blocks = rows * width;
            let f = b / (3 * blocks);
            let block = b % blocks;
            &&& 0 <= f < frames
            &&& 0 <= block < blocks
            &&& block <= b
            &&& 0 <= b / blocks % 3 < 3
            &&& 0 <= f * blocks + block < frames * blocks
            &&& f > 0 ==> b >= 3 * blocks
            &&& f == 0 ==> b < 3 * blocks
            &&& 0 <= block / width
            &&& block / width > 0 ==> block >= width
            &&& 0 <= block % width < width
            &&& block % width > 0 ==> block >= 1
        }),
{
    let blocks = rows * width;
    assert(blocks >= 1) by (nonlinear_arith)
        requires
            rows >= 1,
            width >= 1,
            blocks == rows * width,
    ;
    let f = b / (3 * blocks);
    let block = b % blocks;
    assert(0 <= f < frames && (f > 0 ==> b >= 3 * blocks) && (f == 0 ==> b < 3 * blocks))
        by (nonlinear_arith)
        requires
            0 <= b < 3 * frames * blocks,
            blocks >= 1,
            f == b / (3 * blocks),
    ;
    assert(0 <= block < blocks && block <= b) by (nonlinear_arith)
        requires
            0 <= b,
            blocks >= 1,
            block == b % blocks,
    ;
    assert(0 <= f * blocks + block < frames * blocks) by (nonlinear_arith)
        requires
            0 <= f < frames,
            0 <= block < blocks,
    ;
    assert(0 <= block / width && (block / width > 0 ==> block >= width) && 0 <= block % width
        && block % width < width && (block % width > 0 ==> block >= 1)) by (nonlinear_arith)
        requires
            0 <= block,
            width >= 1,
    ;
}

fn check(shape: [usize; 3], modes: &[u8]) -> (r: Result<(usize, usize), String>)
    ensures
        match r {
            Ok((blocks, total)) => checked(extent(shape), modes@) is Ok && blocks == shape@[1]
                * shape@[2] && total == volume(
                shape@[0] as int,
                shape@[1] as int,
                shape@[2] as int,
            ) && total <= MAX_COEFFICIENTS && shape@[0] >= 1 && shape@[1] >= 1 && shape@[2] >= 1
                && modes@.len() == shape@[0] * blocks && (forall|i: int|
                0 <= i < modes@.len() ==> modes@[i] <= 2) && total == 64 * (3 * shape@[0] * blocks),
            Err(e) => checked(extent(shape), modes@) == Err::<(), Seq<char>>(e@),
        },
{
    let (frames, rows, columns) = (shape[0], shape[1], shape[2]);
    if frames == 0 || rows == 0 || columns == 0 {
        return Err(fail("invalid MOV motion dimensions"));
    }
    let ghost (f, h, w) = (frames as int, rows as int, columns as int);
    proof {
        assert(volume(f, h, w) >= h * w && volume(f, h, w) >= h * w * 64 && volume(f, h, w) >= 3 * (h
            * w * 64) && volume(f, h, w) == 64 * (3 * f * (h * w)) && h * w >= 1)
            by (nonlinear_arith)
            requires
                f >= 1,
                h >= 1,
                w >= 1,
                volume(f, h, w) == f * (3 * (h * w * 64)),
        ;
    }
    let blocks: usize = match rows.checked_mul(columns) {
        None => {
            return Err(fail("MOV motion size overflow"));
        },
        Some(n) => n,
    };
    let plane: usize = match blocks.checked_mul(64) {
        None => {
            return Err(fail("MOV motion size overflow"));
        },
        Some(n) => n,
    };
    let frame: usize = match plane.checked_mul(3) {
        None => {
            return Err(fail("MOV motion size overflow"));
        },
        Some(n) => n,
    };
    assert(frame * frames == volume(f, h, w)) by (nonlinear_arith)
        requires
            frame == 3 * (h * w * 64),
            frames == f,
            volume(f, h, w) == f * (3 * (h * w * 64)),
    ;
    let total: usize = match frame.checked_mul(frames) {
        None => {
            return Err(fail("MOV motion size overflow"));
        },
        Some(n) => n,
    };
    proof {
        assert(total / 192 == f * blocks) by (nonlinear_arith)
            requires
                total == 64 * (3 * f * blocks),
        ;
    }
    if total > MAX_COEFFICIENTS || modes.len() != total / 192 {
        return Err(fail("invalid MOV motion modes or coefficient limit"));
    }
    let mut i: usize = 0;
    while i < modes.len()
        invariant
            i <= modes@.len(),
            forall|j: int| 0 <= j < i ==> modes@[j] <= 2,
            shape@[0] != 0 && shape@[1] != 0 && shape@[2] != 0,
            total == volume(shape@[0] as int, shape@[1] as int, shape@[2] as int),
            total <= MAX_COEFFICIENTS,
            modes@.len() == total / 192,
        decreases modes.len() - i,
    {
        if modes[i] > 2 {
            assert(modes@[i as int] > 2);
            return Err(fail("invalid MOV motion modes or coefficient limit"));
        }
        i += 1;
    }
    Ok((blocks, total))
}

fn bucket(v: i32) -> (n: usize)
    requires
        -65536 < v < 65536,
    ensures
        n == bucket_of(v as int),
        n <= 7,
{
    let n = crate::model_coder::magnitude_bits(v);
    if n < 7 {
        n
    } else {
        7
    }
}

fn absolute(v: i32) -> (n: i32)
    requires
        -65536 < v < 65536,
    ensures
        n == crate::model_coder::size(v as int),
        0 <= n < 65536,
{
    if v < 0 {
        -v
    } else {
        v
    }
}

/// Where a block lies.
struct Spot {
    f: usize,
    ch: usize,
    y: usize,
    x: usize,
    mode: usize,
    width: usize,
    frame: usize,
}

impl Spot {
    spec fn is(&self, c: Cell) -> bool {
        &&& c.f == self.f
        &&& c.ch == self.ch
        &&& c.y == self.y
        &&& c.x == self.x
        &&& c.mode == self.mode
        &&& c.width == self.width
        &&& c.frame == self.frame
        &&& self.ch < 3
        &&& self.mode < 3
    }
}

#[verifier::spinoff_prover]
fn indexes(a: &[i16], b: usize, k: usize, p: &Spot, Ghost(c): Ghost<Cell>) -> (r: (
    usize,
    usize,
    usize,
    usize,
))
    requires
        p.is(c),
        k < 64,
        b * 64 + 64 <= a.len(),
        p.x > 0 ==> b >= 1,
        p.y > 0 ==> b >= p.width,
    ensures
        slots_at(a@, b as int, k as int, c) == (Slots {
            zero: r.0 as int,
            ones: r.1 as int,
            low: r.2 as int,
            sign: r.3 as int,
        }),
        r.0 < 20000,
        r.1 + 16 <= 95000,
        r.2 + 256 <= 490000,
        r.3 < 500000,
{
    let at: usize = b * 64 + k;
    let left: i32 = if p.x > 0 { a[at - 64] as i32 } else { 0 };
    let above: i32 = if p.y > 0 { a[at - p.width * 64] as i32 } else { 0 };
    let temporal: i32 = if at >= p.frame { a[at - p.frame] as i32 } else { 0 };
    let previous: i32 = if k > 0 { a[at - 1] as i32 } else { 0 };
    let context: usize = p.ch * 64 + k;
    let (l, u) = (absolute(left), absolute(above));
    let scale: usize = bucket(if l > u { l } else { u });
    let cell: usize = context * 8 + scale;
    assert(cell < 1536);
    let wide: usize = cell * 3 + p.mode;
    assert(wide < 4608);
    let zero: usize = 512 + wide * 4 + (if temporal == 0 { 2 } else { 0 }) + (if previous == 0 {
        1
    } else {
        0
    });
    let exponent: usize = 20000 + wide * 16;
    let mantissa: usize = 95000 + cell * 256;
    let sign: usize = 490000 + (context * 3 + p.mode) * 8 + (if left < 0 { 4 } else { 0 }) + (
    if above < 0 { 2 } else { 0 }) + (if temporal < 0 { 1 } else { 0 });
    (zero, exponent, mantissa, sign)
}

fn is_blank(a: &[i16], b: usize) -> (r: bool)
    requires
        b * 64 + 64 <= a.len(),
    ensures
        r == blank(block_at(a@, b as int)),
{
    let mut k: usize = 0;
    while k < 64
        invariant
            k <= 64,
            b * 64 + 64 <= a.len(),
            forall|j: int| 0 <= j < k ==> block_at(a@, b as int)[j] == 0,
        decreases 64 - k,
    {
        if a[b * 64 + k] != 0 {
            assert(block_at(a@, b as int)[k as int] != 0);
            return false;
        }
        k += 1;
    }
    true
}

fn same_blocks(a: &[i16], b: usize, c: usize) -> (r: bool)
    requires
        b * 64 + 64 <= a.len(),
        c * 64 + 64 <= a.len(),
    ensures
        r == (block_at(a@, b as int) == block_at(a@, c as int)),
{
    let mut k: usize = 0;
    while k < 64
        invariant
            k <= 64,
            b * 64 + 64 <= a.len(),
            c * 64 + 64 <= a.len(),
            forall|j: int| 0 <= j < k ==> block_at(a@, b as int)[j] == block_at(a@, c as int)[j],
        decreases 64 - k,
    {
        if a[b * 64 + k] != a[c * 64 + k] {
            assert(block_at(a@, b as int)[k as int] != block_at(a@, c as int)[k as int]);
            return false;
        }
        k += 1;
    }
    assert(block_at(a@, b as int) =~= block_at(a@, c as int));
    true
}

fn spot_of(b: usize, frames: usize, rows: usize, width: usize, blocks: usize, modes: &[u8]) -> (p:
    Spot)
    requires
        frames >= 1,
        rows >= 1,
        width >= 1,
        blocks == rows * width,
        b < 3 * frames * blocks,
        64 * (3 * frames * blocks) <= MAX_COEFFICIENTS,
        modes@.len() == frames * blocks,
        modes.len() == frames * blocks,
        forall|i: int| 0 <= i < modes@.len() ==> modes@[i] <= 2,
    ensures
        p.is(cell_of(b as int, blocks as int, width as int, modes@)),
        p.x > 0 ==> b >= 1,
        p.y > 0 ==> b >= p.width,
        p.f > 0 ==> b >= 3 * blocks,
        1 <= blocks <= MAX_COEFFICIENTS,
{
    proof {
        lemma_cell(b as int, frames as int, rows as int, width as int);
        assert(3 * blocks <= 3 * frames * blocks && blocks >= 1) by (nonlinear_arith)
            requires
                frames >= 1,
                rows >= 1,
                width >= 1,
                blocks == rows * width,
        ;
    }
    let f: usize = b / (3 * blocks);
    let block: usize = b % blocks;
    assert(0 <= f * blocks) by (nonlinear_arith);
    let mode: usize = modes[f * blocks + block] as usize;
    Spot {
        f,
        ch: b / blocks % 3,
        y: block / width,
        x: block % width,
        mode,
        width,
        frame: 3 * (blocks * 64),
    }
}

fn write_block(
    coder: &mut Coder,
    a: &[i16],
    b: usize,
    blocks: usize,
    p: &Spot,
    Ghost(c): Ghost<Cell>,
)
    requires
        old(coder).wf(),
        old(coder).slots@.len() == CONTEXTS,
        old(coder).room(3000),
        p.is(c),
        b * 64 + 64 <= a.len(),
        p.x > 0 ==> b >= 1,
        p.y > 0 ==> b >= p.width,
        p.f > 0 ==> b >= 3 * blocks,
        1 <= blocks <= MAX_COEFFICIENTS,
    ensures
        final(coder).wf(),
        final(coder).slots@.len() == CONTEXTS,
        final(coder).enc.cache_size <= old(coder).enc.cache_size + 6000,
        final(coder).model() == put_block(
            old(coder).model(),
            a@,
            b as int,
            blocks as int,
            c,
        ),
{
    let empty = is_blank(a, b);
    let prior: bool = p.f > 0 && is_blank(a, b - 3 * blocks);
    let slot: usize = (p.ch * 3 + p.mode) * 2 + (if prior { 1 } else { 0 });
    coder.bit(slot, empty);
    if empty {
        return ;
    }
    let copy: bool = p.f > 0 && same_blocks(a, b, b - 3 * blocks);
    coder.bit(64 + slot, copy);
    if copy {
        return ;
    }
    let mut k: usize = 0;
    let ghost whole = put_cells(coder.model(), a@, b as int, 0, c);
    while k < 64
        invariant
            coder.wf(),
            coder.slots@.len() == CONTEXTS,
            k <= 64,
            p.is(c),
            b * 64 + 64 <= a.len(),
            p.x > 0 ==> b >= 1,
            p.y > 0 ==> b >= p.width,
            old(coder).room(3000),
            coder.enc.cache_size <= old(coder).enc.cache_size + 4 + 80 * k,
            whole == put_cells(coder.model(), a@, b as int, k as int, c),
        decreases 64 - k,
    {
        let (z, e, m, s) = indexes(a, b, k, p, Ghost(c));
        emit_number(coder, a[b * 64 + k] as i32, z, e, m, s);
        k += 1;
    }
}

/// Encodes coefficients.
/// Every report to the watcher is `at`.
pub fn encode_at<M: Monitor>(values: &[i16], shape: [usize; 3], modes: &[u8], cancel: &mut M, at: (u64, u64)) -> (r:
    Result<Vec<u8>, String>)
    requires
        !old(cancel).stopped(),
        at.0 <= at.1,
    ensures
        crate::monitor::climbs(*old(cancel), at.0 as int, at.0 as int, at.1, *final(cancel)),
        crate::wire::bytes_of(r) == crate::wire::unless(
            final(cancel).stopped(),
            coded(values@, extent(shape), modes@),
        ),
        crate::monitor::heeds(*old(cancel), r),
        r is Ok ==> crate::monitor::last_told(*final(cancel), at.0, at.1),
{
    proof {
        crate::monitor::lemma_stays(*cancel, at.0 as int, at.0 as int, at.1);
    }
    if !cancel.report(at.0, at.1) {
        return Err(fail("error.cancelled"));
    }
    proof {
        crate::monitor::lemma_agreed(*old(cancel), at.0, at.1, *cancel);
    }
    let (blocks, total) = check(shape, modes)?;
    if values.len() != total {
        return Err(fail("MOV motion coefficient length mismatch"));
    }
    let (frames, rows, width) = (shape[0], shape[1], shape[2]);
    let mut coder = Coder { slots: vec![2048u16; CONTEXTS], enc: Enc::new() };
    let count: usize = total / 64;
    let mut b: usize = 0;
    let ghost result = coded(values@, extent(shape), modes@);
    let ghost whole = put_blocks(
        coder.model(),
        values@,
        0,
        count as int,
        blocks as int,
        width as int,
        modes@,
    );
    proof {
        assert(coder.slots@ =~= fresh());
        assert(whole matches Err(e) ==> result == Err::<Seq<u8>, Seq<char>>(e));
        assert(blocks >= 1) by (nonlinear_arith)
            requires
                rows >= 1,
                width >= 1,
                blocks == rows * width,
        ;
    }
    while b < count
        invariant
            crate::monitor::climbs(*old(cancel), at.0 as int, at.0 as int, at.1, *cancel),
            coder.wf(),
            coder.slots@.len() == CONTEXTS,
            b <= count,
            count == 3 * frames * blocks,
            64 * count == total,
            total <= MAX_COEFFICIENTS,
            values@.len() == total,
            values.len() == total,
            frames >= 1,
            rows >= 1,
            width >= 1,
            blocks >= 1,
            blocks == rows * width,
            modes@.len() == frames * blocks,
            forall|i: int| 0 <= i < modes@.len() ==> modes@[i] <= 2,
            !cancel.stopped(),
            !crate::monitor::refuses(*old(cancel)),
            at.0 <= at.1,
            coder.enc.cache_size <= 1 + 6000 * b,
            result == coded(values@, extent(shape), modes@),
            whole matches Err(e) ==> result == Err::<Seq<u8>, Seq<char>>(e),
            whole == put_blocks(
                coder.model(),
                values@,
                b as int,
                count as int,
                blocks as int,
                width as int,
                modes@,
            ),
        decreases count - b,
    {
        if b % blocks % 128 == 0 {
            if !cancel.report(at.0, at.1) {
                return Err(fail("error.cancelled"));
            }
            if coder.enc.out.len() > MAX_BYTES {
                return Err(fail("MOV motion entropy limit"));
            }
        }
        let p = spot_of(b, frames, rows, width, blocks, modes);
        write_block(
            &mut coder,
            values,
            b,
            blocks,
            &p,
            Ghost(cell_of(b as int, blocks as int, width as int, modes@)),
        );
        b += 1;
    }
    let ghost before = *cancel;
    if !cancel.report(at.0, at.1) {
        return Err(fail("error.cancelled"));
    }
    assert(before.told(at.0, at.1, true, cancel));
    let out = coder.enc.finish();
    if out.len() > MAX_BYTES {
        return Err(fail("MOV motion entropy limit"));
    }
    Ok(out)
}

/// Encodes coefficients.
pub fn encode<M: Monitor>(values: &[i16], shape: [usize; 3], modes: &[u8], cancel: &mut M) -> (r:
    Result<Vec<u8>, String>)
    requires
        !old(cancel).stopped(),
    ensures
        crate::wire::bytes_of(r) == crate::wire::unless(
            final(cancel).stopped(),
            coded(values@, extent(shape), modes@),
        ),
        crate::monitor::heeds(*old(cancel), r),
        r is Ok ==> crate::monitor::last_told(*final(cancel), 0, 1),
{
    encode_at(values, shape, modes, cancel, (0, 1))
}

fn read_block(
    coder: &mut Decoder<'_>,
    a: &mut Vec<i16>,
    b: usize,
    blocks: usize,
    p: &Spot,
    Ghost(c): Ghost<Cell>,
) -> (r: Result<(), String>)
    requires
        old(coder).wf(),
        old(coder).slots@.len() == CONTEXTS,
        p.is(c),
        b * 64 + 64 <= old(a).len(),
        p.x > 0 ==> b >= 1,
        p.y > 0 ==> b >= p.width,
        p.f > 0 ==> b >= 3 * blocks,
        1 <= blocks <= MAX_COEFFICIENTS,
    ensures
        final(coder).slots@.len() == CONTEXTS,
        final(coder).dec.data == old(coder).dec.data,
        final(a)@.len() == old(a)@.len(),
        match get_block(old(coder).model(), old(a)@, b as int, blocks as int, c) {
            Ok((s, v)) => r is Ok && final(coder).model() == s && final(a)@ == v && final(coder).wf(),
            Err(e) => r matches Err(m) && m@ == e,
        },
{
    let prior: bool = p.f > 0 && is_blank(a, b - 3 * blocks);
    let slot: usize = (p.ch * 3 + p.mode) * 2 + (if prior { 1 } else { 0 });
    if coder.bit(slot)? {
        return Ok(());
    }
    if coder.bit(64 + slot)? {
        if p.f == 0 {
            return Err(fail("invalid first-frame MOV motion copy"));
        }
        let from: usize = b - 3 * blocks;
        let ghost v = block_at(a@, from as int);
        let mut k: usize = 0;
        while k < 64
            invariant
                k <= 64,
                from < b,
                a.len() == old(a).len(),
                b * 64 + 64 <= a.len(),
                v == block_at(old(a)@, from as int),
                forall|i: int|
                    0 <= i < a@.len() ==> #[trigger] a@[i] == (if b * 64 <= i < b * 64 + k {
                        v[i - b * 64]
                    } else {
                        old(a)@[i]
                    }),
            decreases 64 - k,
        {
            let x: i16 = a[from * 64 + k];
            a[b * 64 + k] = x;
            k += 1;
        }
        assert(a@ =~= with_block(old(a)@, b as int, v));
        return Ok(());
    }
    let mut k: usize = 0;
    let ghost whole = get_cells(coder.model(), a@, b as int, 0, c);
    let ghost result = get_block(old(coder).model(), old(a)@, b as int, blocks as int, c);
    while k < 64
        invariant
            coder.wf(),
            coder.slots@.len() == CONTEXTS,
            coder.dec.data == old(coder).dec.data,
            k <= 64,
            p.is(c),
            a.len() == old(a).len(),
            b * 64 + 64 <= a.len(),
            p.x > 0 ==> b >= 1,
            p.y > 0 ==> b >= p.width,
            result == get_block(old(coder).model(), old(a)@, b as int, blocks as int, c),
            result == whole,
            whole == get_cells(coder.model(), a@, b as int, k as int, c),
        decreases 64 - k,
    {
        let (z, e, m, s) = indexes(a, b, k, p, Ghost(c));
        let v = read_number(coder, z, e, m, s, "MOV motion exponent overflow")?;
        if v < -32768 || v > 32767 {
            return Err(fail("MOV motion coefficient overflow"));
        }
        a[b * 64 + k] = v as i16;
        k += 1;
    }
    Ok(())
}

/// Decodes coefficients.
/// Every report to the watcher is `at`.
pub fn decode_at<M: Monitor>(bytes: &[u8], shape: [usize; 3], modes: &[u8], cancel: &mut M, at: (u64, u64)) -> (r:
    Result<Vec<i16>, String>)
    requires
        !old(cancel).stopped(),
        at.0 <= at.1,
    ensures
        crate::monitor::climbs(*old(cancel), at.0 as int, at.0 as int, at.1, *final(cancel)),
        match crate::wire::unless(
            final(cancel).stopped(),
            decoded(bytes@, extent(shape), modes@),
        ) {
            Ok(a) => r matches Ok(v) && v@ == a,
            Err(e) => r matches Err(m) && m@ == e,
        },
        r matches Ok(v) ==> v@.len() == volume(
            shape@[0] as int,
            shape@[1] as int,
            shape@[2] as int,
        ),
        crate::monitor::heeds(*old(cancel), r),
        r is Ok ==> crate::monitor::last_told(*final(cancel), at.0, at.1),
{
    proof {
        crate::monitor::lemma_stays(*cancel, at.0 as int, at.0 as int, at.1);
    }
    if !cancel.report(at.0, at.1) {
        return Err(fail("error.cancelled"));
    }
    proof {
        crate::monitor::lemma_agreed(*old(cancel), at.0, at.1, *cancel);
    }
    let (blocks, total) = check(shape, modes)?;
    if bytes.len() > MAX_BYTES {
        return Err(fail("MOV motion entropy limit"));
    }
    if bytes.len() < 5 || bytes[0] != 0 {
        return Err(fail("truncated ProRes model range stream"));
    }
    let (frames, rows, width) = (shape[0], shape[1], shape[2]);
    let mut coder = Decoder { slots: vec![2048u16; CONTEXTS], dec: Dec::new(bytes) };
    let mut values: Vec<i16> = vec![0i16; total];
    let count: usize = total / 64;
    let mut b: usize = 0;
    let ghost result = decoded(bytes@, extent(shape), modes@);
    let ghost whole = get_blocks(
        coder.model(),
        values@,
        0,
        count as int,
        blocks as int,
        width as int,
        modes@,
    );
    proof {
        assert(coder.slots@ =~= fresh());
        assert(values@ =~= Seq::new(total as nat, |i: int| 0i16));
        assert(whole matches Err(e) ==> result == Err::<Seq<i16>, Seq<char>>(e));
        assert(blocks >= 1) by (nonlinear_arith)
            requires
                rows >= 1,
                width >= 1,
                blocks == rows * width,
        ;
    }
    while b < count
        invariant
            crate::monitor::climbs(*old(cancel), at.0 as int, at.0 as int, at.1, *cancel),
            coder.wf(),
            coder.slots@.len() == CONTEXTS,
            coder.dec.data == bytes,
            b <= count,
            count == 3 * frames * blocks,
            64 * count == total,
            total <= MAX_COEFFICIENTS,
            values.len() == total,
            frames >= 1,
            rows >= 1,
            width >= 1,
            blocks >= 1,
            blocks == rows * width,
            modes@.len() == frames * blocks,
            forall|i: int| 0 <= i < modes@.len() ==> modes@[i] <= 2,
            !cancel.stopped(),
            !crate::monitor::refuses(*old(cancel)),
            at.0 <= at.1,
            result == decoded(bytes@, extent(shape), modes@),
            whole matches Err(e) ==> result == Err::<Seq<i16>, Seq<char>>(e),
            whole == get_blocks(
                coder.model(),
                values@,
                b as int,
                count as int,
                blocks as int,
                width as int,
                modes@,
            ),
        decreases count - b,
    {
        if b % blocks % 128 == 0 && !cancel.report(at.0, at.1) {
            return Err(fail("error.cancelled"));
        }
        let p = spot_of(b, frames, rows, width, blocks, modes);
        read_block(
            &mut coder,
            &mut values,
            b,
            blocks,
            &p,
            Ghost(cell_of(b as int, blocks as int, width as int, modes@)),
        )?;
        b += 1;
    }
    let ghost before = *cancel;
    if !cancel.report(at.0, at.1) {
        return Err(fail("error.cancelled"));
    }
    assert(before.told(at.0, at.1, true, cancel));
    if coder.dec.pos != bytes.len() {
        return Err(fail("trailing MOV motion entropy bytes"));
    }
    Ok(values)
}

/// Decodes coefficients.
pub fn decode<M: Monitor>(bytes: &[u8], shape: [usize; 3], modes: &[u8], cancel: &mut M) -> (r:
    Result<Vec<i16>, String>)
    requires
        !old(cancel).stopped(),
    ensures
        match crate::wire::unless(
            final(cancel).stopped(),
            decoded(bytes@, extent(shape), modes@),
        ) {
            Ok(a) => r matches Ok(v) && v@ == a,
            Err(e) => r matches Err(m) && m@ == e,
        },
        crate::monitor::heeds(*old(cancel), r),
        r is Ok ==> crate::monitor::last_told(*final(cancel), 0, 1),
{
    decode_at(bytes, shape, modes, cancel, (0, 1))
}

/// The first `n` coefficients, followed by zeros.
spec fn known(a: Seq<i16>, n: int) -> Seq<i16> {
    Seq::new(
        a.len(),
        |i: int|
            if i < n {
                a[i]
            } else {
                0i16
            },
    )
}

/// Whether the place of a block is consistent with its number.
spec fn placed(c: Cell, b: int, blocks: int) -> bool {
    &&& 0 <= c.ch < 3
    &&& 0 <= c.mode < 3
    &&& 0 <= c.f
    &&& c.frame > 0
    &&& c.width > 0
    &&& c.x > 0 ==> b >= 1
    &&& c.y > 0 ==> b >= c.width
    &&& c.f > 0 ==> b >= 3 * blocks
    &&& blocks >= 1
}

proof fn lemma_bucket(v: int)
    requires
        -65536 < v < 65536,
    ensures
        0 <= bucket_of(v) <= 7,
{
    if v != 0 {
        crate::codeword::lemma_top_bit(crate::model_coder::size(v));
    }
}

proof fn lemma_slots(a: Seq<i16>, b: int, k: int, c: Cell, blocks: int)
    requires
        placed(c, b, blocks),
        0 <= k < 64,
        0 <= b,
        b * 64 + 64 <= a.len(),
    ensures
        crate::model_coder::slots_in(slots_at(a, b, k, c), CONTEXTS as int),
        slots_at(known(a, b * 64 + k), b, k, c) == slots_at(a, b, k, c),
{
    let at = b * 64 + k;
    let left = if c.x > 0 {
        a[at - 64] as int
    } else {
        0
    };
    let above = if c.y > 0 {
        a[at - c.width * 64] as int
    } else {
        0
    };
    let larger = if crate::model_coder::size(left) > crate::model_coder::size(above) {
        crate::model_coder::size(left)
    } else {
        crate::model_coder::size(above)
    };
    lemma_bucket(larger);
}

proof fn lemma_put_cells(
    s: (Seq<u16>, Writing),
    a: Seq<i16>,
    b: int,
    k: int,
    c: Cell,
    blocks: int,
    data: Seq<u8>,
)
    requires
        crate::model_coder::ready(s, CONTEXTS as int),
        placed(c, b, blocks),
        0 <= k <= 64,
        0 <= b,
        b * 64 + 64 <= a.len(),
    ensures
        crate::model_coder::ready(put_cells(s, a, b, k, c), CONTEXTS as int),
        put_cells(s, a, b, k, c).1.leads(data) ==> s.1.leads(data),
    decreases 64 - k,
{
    if k < 64 {
        let at = slots_at(a, b, k, c);
        let v = a[b * 64 + k] as int;
        lemma_slots(a, b, k, c, blocks);
        crate::model_coder::lemma_put_number(s, CONTEXTS as int, v, at, data);
        lemma_put_cells(
            crate::model_coder::put_number(s, v, at),
            a,
            b,
            k + 1,
            c,
            blocks,
            data,
        );
    }
}

proof fn lemma_cells_round_trip(
    s: (Seq<u16>, Writing),
    a: Seq<i16>,
    b: int,
    k: int,
    c: Cell,
    blocks: int,
    t: (Seq<u16>, Reading),
)
    requires
        crate::model_coder::ready(s, CONTEXTS as int),
        placed(c, b, blocks),
        0 <= k <= 64,
        0 <= b,
        b * 64 + 64 <= a.len(),
        crate::model_coder::followed(s, t),
        put_cells(s, a, b, k, c).1.leads(t.1.data),
    ensures
        get_cells(t, known(a, b * 64 + k), b, k, c) matches Ok((u, v)) && v == known(a, b * 64 + 64)
            && crate::model_coder::followed(put_cells(s, a, b, k, c), u) && u.1.data == t.1.data,
    decreases 64 - k,
{
    if k < 64 {
        let at = slots_at(a, b, k, c);
        let v = a[b * 64 + k] as int;
        let text = "MOV motion exponent overflow"@;
        lemma_slots(a, b, k, c, blocks);
        let s1 = crate::model_coder::put_number(s, v, at);
        crate::model_coder::lemma_put_number(s, CONTEXTS as int, v, at, t.1.data);
        lemma_put_cells(s1, a, b, k + 1, c, blocks, t.1.data);
        crate::model_coder::law_number_round_trip(s, CONTEXTS as int, v, at, t, text);
        let t1 = crate::model_coder::get_number(t, at, text)->Ok_0.1;
        assert(known(a, b * 64 + k).update(b * 64 + k, a[b * 64 + k]) =~= known(
            a,
            b * 64 + k + 1,
        ));
        lemma_cells_round_trip(s1, a, b, k + 1, c, blocks, t1);
    }
}

proof fn lemma_known_block(a: Seq<i16>, b: int, n: int)
    requires
        0 <= b,
        b * 64 + 64 <= n <= a.len(),
    ensures
        block_at(known(a, n), b) == block_at(a, b),
{
    assert(block_at(known(a, n), b) =~= block_at(a, b));
}

proof fn lemma_put_block(
    s: (Seq<u16>, Writing),
    a: Seq<i16>,
    b: int,
    blocks: int,
    c: Cell,
    data: Seq<u8>,
)
    requires
        crate::model_coder::ready(s, CONTEXTS as int),
        placed(c, b, blocks),
        0 <= b,
        b * 64 + 64 <= a.len(),
    ensures
        crate::model_coder::ready(put_block(s, a, b, blocks, c), CONTEXTS as int),
        put_block(s, a, b, blocks, c).1.leads(data) ==> s.1.leads(data),
{
    let n = CONTEXTS as int;
    let slot = blank_slot(a, b, c, blocks);
    let empty = blank(block_at(a, b));
    let copy = c.f > 0 && block_at(a, b) == block_at(a, b - 3 * blocks);
    crate::model_coder::lemma_put(s, n, slot, empty, data);
    let s1 = crate::model_coder::put(s, slot, empty);
    if !empty {
        crate::model_coder::lemma_put(s1, n, 64 + slot, copy, data);
        let s2 = crate::model_coder::put(s1, 64 + slot, copy);
        if !copy {
            lemma_put_cells(s2, a, b, 0, c, blocks, data);
        }
    }
}

proof fn lemma_block_round_trip(
    s: (Seq<u16>, Writing),
    a: Seq<i16>,
    b: int,
    blocks: int,
    c: Cell,
    t: (Seq<u16>, Reading),
)
    requires
        crate::model_coder::ready(s, CONTEXTS as int),
        placed(c, b, blocks),
        0 <= b,
        b * 64 + 64 <= a.len(),
        crate::model_coder::followed(s, t),
        put_block(s, a, b, blocks, c).1.leads(t.1.data),
    ensures
        get_block(t, known(a, b * 64), b, blocks, c) matches Ok((u, v)) && v == known(a, b * 64 + 64)
            && crate::model_coder::followed(put_block(s, a, b, blocks, c), u) && u.1.data
            == t.1.data,
{
    let n = CONTEXTS as int;
    let data = t.1.data;
    let slot = blank_slot(a, b, c, blocks);
    let empty = blank(block_at(a, b));
    let copy = c.f > 0 && block_at(a, b) == block_at(a, b - 3 * blocks);
    let part = known(a, b * 64);
    if c.f > 0 {
        lemma_known_block(a, b - 3 * blocks, b * 64);
    }
    assert(blank_slot(part, b, c, blocks) == slot);
    crate::model_coder::lemma_put(s, n, slot, empty, data);
    let s1 = crate::model_coder::put(s, slot, empty);
    if empty {
        crate::model_coder::law_put_get(s, n, slot, true, t);
        assert(part =~= known(a, b * 64 + 64)) by {
            assert forall|i: int| b * 64 <= i < b * 64 + 64 implies a[i] == 0 by {
                assert(block_at(a, b)[i - b * 64] == 0);
            }
        }
    } else {
        crate::model_coder::lemma_put(s1, n, 64 + slot, copy, data);
        let s2 = crate::model_coder::put(s1, 64 + slot, copy);
        if !copy {
            lemma_put_cells(s2, a, b, 0, c, blocks, data);
        }
        crate::model_coder::law_put_get(s, n, slot, false, t);
        let t1 = crate::model_coder::get(t, slot)->Ok_0.1;
        crate::model_coder::law_put_get(s1, n, 64 + slot, copy, t1);
        let t2 = crate::model_coder::get(t1, 64 + slot)->Ok_0.1;
        if copy {
            let v = block_at(a, b);
            assert(with_block(part, b, v) =~= known(a, b * 64 + 64)) by {
                assert forall|i: int| b * 64 <= i < b * 64 + 64 implies v[i - b * 64] == a[i] by {}
            }
        } else {
            lemma_cells_round_trip(s2, a, b, 0, c, blocks, t2);
        }
    }
}

proof fn lemma_put_blocks(
    s: (Seq<u16>, Writing),
    a: Seq<i16>,
    b: int,
    frames: int,
    rows: int,
    width: int,
    modes: Seq<u8>,
    data: Seq<u8>,
)
    requires
        crate::model_coder::ready(s, CONTEXTS as int),
        frames >= 1,
        rows >= 1,
        width >= 1,
        0 <= b <= 3 * frames * (rows * width),
        a.len() == 64 * (3 * frames * (rows * width)),
        modes.len() == frames * (rows * width),
        forall|i: int| 0 <= i < modes.len() ==> modes[i] <= 2,
    ensures
        put_blocks(
            s,
            a,
            b,
            3 * frames * (rows * width),
            rows * width,
            width,
            modes,
        ) matches Ok(t) ==> crate::model_coder::ready(t, CONTEXTS as int) && (t.1.leads(data)
            ==> s.1.leads(data)),
    decreases 3 * frames * (rows * width) - b,
{
    let blocks = rows * width;
    let count = 3 * frames * blocks;
    if b < count {
        lemma_cell(b, frames, rows, width);
        let c = cell_of(b, blocks, width, modes);
        lemma_placed(b, frames, rows, width, modes);
        lemma_put_block(s, a, b, blocks, c, data);
        lemma_put_blocks(
            put_block(s, a, b, blocks, c),
            a,
            b + 1,
            frames,
            rows,
            width,
            modes,
            data,
        );
    }
}

proof fn lemma_placed(b: int, frames: int, rows: int, width: int, modes: Seq<u8>)
    requires
        frames >= 1,
        rows >= 1,
        width >= 1,
        0 <= b < 3 * frames * (rows * width),
        modes.len() == frames * (rows * width),
        forall|i: int| 0 <= i < modes.len() ==> modes[i] <= 2,
    ensures
        placed(cell_of(b, rows * width, width, modes), b, rows * width),
{
    lemma_cell(b, frames, rows, width);
    assert(rows * width >= 1) by (nonlinear_arith)
        requires
            rows >= 1,
            width >= 1,
    ;
}

proof fn lemma_blocks_round_trip(
    s: (Seq<u16>, Writing),
    a: Seq<i16>,
    b: int,
    frames: int,
    rows: int,
    width: int,
    modes: Seq<u8>,
    t: (Seq<u16>, Reading),
)
    requires
        crate::model_coder::ready(s, CONTEXTS as int),
        frames >= 1,
        rows >= 1,
        width >= 1,
        0 <= b <= 3 * frames * (rows * width),
        a.len() == 64 * (3 * frames * (rows * width)),
        modes.len() == frames * (rows * width),
        forall|i: int| 0 <= i < modes.len() ==> modes[i] <= 2,
        crate::model_coder::followed(s, t),
        put_blocks(
            s,
            a,
            b,
            3 * frames * (rows * width),
            rows * width,
            width,
            modes,
        ) matches Ok(z) && z.1.leads(t.1.data),
    ensures
        ({
            let count = 3 * frames * (rows * width);
            let z = put_blocks(s, a, b, count, rows * width, width, modes)->Ok_0;
            get_blocks(
                t,
                known(a, b * 64),
                b,
                count,
                rows * width,
                width,
                modes,
            ) matches Ok((u, v)) && v == a && crate::model_coder::followed(z, u)
        }),
    decreases 3 * frames * (rows * width) - b,
{
    let blocks = rows * width;
    let count = 3 * frames * blocks;
    if b < count {
        let c = cell_of(b, blocks, width, modes);
        lemma_placed(b, frames, rows, width, modes);
        let s1 = put_block(s, a, b, blocks, c);
        lemma_put_block(s, a, b, blocks, c, t.1.data);
        lemma_put_blocks(s1, a, b + 1, frames, rows, width, modes, t.1.data);
        lemma_block_round_trip(s, a, b, blocks, c, t);
        let t1 = get_block(t, known(a, b * 64), b, blocks, c)->Ok_0.0;
        lemma_blocks_round_trip(s1, a, b + 1, frames, rows, width, modes, t1);
    } else {
        assert(known(a, b * 64) =~= a);
    }
}

/// Coefficients come back from their entropy code.
pub proof fn law_decode_undoes_encode(a: Seq<i16>, shape: (int, int, int), modes: Seq<u8>)
    requires
        shape.0 >= 0,
        shape.1 >= 0,
        shape.2 >= 0,
    ensures
        coded(a, shape, modes) matches Ok(bytes) ==> decoded(bytes, shape, modes) == Ok::<
            Seq<i16>,
            Seq<char>,
        >(a),
{
    if let Ok(bytes) = coded(a, shape, modes) {
        let (f, h, w) = shape;
        let blocks = h * w;
        let s = (fresh(), Writing::start());
        let t = (fresh(), Reading::start(bytes));
        assert(volume(f, h, w) == 64 * (3 * f * (h * w))) by (nonlinear_arith)
            requires
                volume(f, h, w) == f * (3 * (h * w * 64)),
        ;
        assert(volume(f, h, w) / 192 == f * (h * w)) by (nonlinear_arith)
            requires
                volume(f, h, w) == 64 * (3 * f * (h * w)),
        ;
        let count = a.len() as int / 64;
        let z = put_blocks(s, a, 0, count, blocks, w, modes)->Ok_0;
        lemma_put_blocks(s, a, 0, f, h, w, modes, bytes);
        crate::source_rc::law_finish_leads(z.1);
        crate::source_rc::law_start(bytes);
        lemma_blocks_round_trip(s, a, 0, f, h, w, modes, t);
        assert(known(a, 0) =~= Seq::new(volume(f, h, w) as nat, |i: int| 0i16));
    }
}

}
