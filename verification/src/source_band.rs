//! How the blocks of a band of a picture are coded.

use crate::source_planes::{predict, wrap, Image, Planes, Shift, MAX_SIDE, SAME, SPATIAL, TCOPY, TGRAD};
use crate::source_rc::{get_bit, put_bit, Dec, Enc, Reading, Residual, ResidualModel, Writing, PROB_INIT};
use crate::source_search::{Decision, MAXREF};
use vstd::prelude::*;

verus! {

/// The contexts that the errors of pixels are coded in.
pub const SLOTS: usize = 384;

/// What a band has learned: of kinds of prediction, of which picture is predicted from, of how far
/// blocks move, and of errors.
#[verifier::ext_equal]
pub struct Learned {
    pub mode: Seq<u16>,
    pub refi: Seq<u16>,
    pub mv: Residual,
    pub res: Residual,
}

impl Learned {
    pub open spec fn fresh() -> Learned {
        Learned {
            mode: Seq::new(64, |i: int| PROB_INIT),
            refi: Seq::new(8, |i: int| PROB_INIT),
            mv: Residual::fresh(2),
            res: Residual::fresh(384),
        }
    }

    pub open spec fn wf(self) -> bool {
        &&& self.mode.len() == 64
        &&& self.refi.len() == 8
        &&& crate::source_rc::all_open(self.mode)
        &&& crate::source_rc::all_open(self.refi)
        &&& self.mv.wf(2)
        &&& self.res.wf(384)
    }
}

/// The rows of blocks of a band.
pub open spec fn rows_of(bh: int, b: int) -> (int, int) {
    (b * bh / 8, (b + 1) * bh / 8)
}

/// What is remembered of the blocks of a band, and how large the errors of its pixels were.
#[verifier::ext_equal]
pub struct Past {
    pub modes: Seq<usize>,
    pub mvs: Seq<Shift>,
    pub mag: Image,
}

impl Past {
    pub open spec fn none(w: int, blocks: int, rows: int) -> Past {
        Past {
            modes: Seq::new(blocks as nat, |i: int| SPATIAL),
            mvs: Seq::new(blocks as nat, |i: int| crate::source_search::still()),
            mag: Image::blank(w, rows),
        }
    }

    /// The context that the kind of prediction of a block is coded in.
    pub open spec fn context(self, bw: int, b0: int, by: int, bx: int) -> int {
        let bi = by * bw + bx;
        (if bx > 0 {
            self.modes[bi - 1] as int
        } else {
            1
        }) * 4 + if by > b0 {
            self.modes[bi - bw] as int
        } else {
            1
        }
    }

    /// How far a block is expected to have moved.
    pub open spec fn expected(self, bw: int, b0: int, by: int, bx: int) -> Shift {
        let bi = by * bw + bx;
        if bx > 0 && self.modes[bi - 1] >= TCOPY {
            self.mvs[bi - 1]
        } else if by > b0 && self.modes[bi - bw] >= TCOPY {
            self.mvs[bi - bw]
        } else {
            crate::source_search::still()
        }
    }

    pub open spec fn noted(self, bi: int, d: Decision) -> Past {
        Past { modes: self.modes.update(bi, d.mode), mvs: self.mvs.update(bi, d.mv), ..self }
    }
}

/// Writes which picture a block is predicted from, of `n`: for every one from number `k` on whether
/// it is a later one.
pub open spec fn put_ref(slots: Seq<u16>, w: Writing, ri: int, k: int, n: int) -> (Seq<u16>, Writing)
    decreases n - k,
{
    if k >= n - 1 {
        (slots, w)
    } else {
        let (slots, w) = crate::source_rc::put(slots, w, k, ri > k, 4);
        if ri <= k {
            (slots, w)
        } else {
            put_ref(slots, w, ri, k + 1, n)
        }
    }
}

pub open spec fn get_ref(slots: Seq<u16>, r: Reading, k: int, n: int) -> (int, Seq<u16>, Reading)
    decreases n - k,
{
    if k >= n - 1 {
        (k, slots, r)
    } else {
        let (b, slots, r) = crate::source_rc::get(slots, r, k, 4);
        if b {
            get_ref(slots, r, k + 1, n)
        } else {
            (k, slots, r)
        }
    }
}

/// Writes how a block is predicted.
pub open spec fn put_head(m: Learned, w: Writing, ctx: int, d: Decision, near: Shift, n: int) -> (
    Learned,
    Writing,
) {
    let later = d.mode >= TCOPY;
    let (mode, w) = crate::source_rc::put(m.mode, w, ctx * 4, later, 4);
    let (mode, w) = crate::source_rc::put(
        mode,
        w,
        ctx * 4 + 1 + if later {
            1int
        } else {
            0
        },
        d.mode % 2 == 1,
        4,
    );
    if later {
        let (refi, w) = put_ref(m.refi, w, d.ri as int, 0, n);
        let (mv, w) = m.mv.encode(w, 0, d.mv.dy - near.dy);
        let (mv, w) = mv.encode(w, 1, d.mv.dx - near.dx);
        (Learned { mode, refi, mv, ..m }, w)
    } else {
        (Learned { mode, ..m }, w)
    }
}

/// Reads how a block is predicted.
pub open spec fn get_head(m: Learned, r: Reading, ctx: int, near: Shift, n: int) -> (
    Decision,
    Learned,
    Reading,
) {
    let (later, mode, r) = crate::source_rc::get(m.mode, r, ctx * 4, 4);
    let (odd, mode, r) = crate::source_rc::get(
        mode,
        r,
        ctx * 4 + 1 + if later {
            1int
        } else {
            0
        },
        4,
    );
    if later {
        let (ri, refi, r) = get_ref(m.refi, r, 0, n);
        let (dy, mv, r) = m.mv.decode(r, 0);
        let (dx, mv, r) = mv.decode(r, 1);
        (
            Decision {
                mode: if odd {
                    TGRAD
                } else {
                    TCOPY
                },
                mv: Shift { dy: (near.dy + dy) as i64, dx: (near.dx + dx) as i64 },
                ri: ri as usize,
            },
            Learned { mode, refi, mv, ..m },
            r,
        )
    } else {
        (
            Decision {
                mode: if odd {
                    SPATIAL
                } else {
                    SAME
                },
                mv: crate::source_search::still(),
                ri: 0,
            },
            Learned { mode, ..m },
            r,
        )
    }
}

/// How large the errors around a pixel were.
pub open spec fn activity(mag: Image, c: int, y: int, x: int) -> int {
    ((if x > 0 {
        2 * mag.at(c, y, x - 1)
    } else {
        0
    }) + (if y > 0 {
        2 * mag.at(c, y - 1, x) + (if x > 0 {
            mag.at(c, y - 1, x - 1)
        } else {
            0
        }) + (if x + 1 < mag.w {
            mag.at(c, y - 1, x + 1)
        } else {
            0
        })
    } else {
        0
    })) / 2
}

/// The class of an activity.
pub open spec fn class(a: int) -> int {
    if a <= 2 {
        a
    } else if a <= 4 {
        3
    } else if a <= 6 {
        4
    } else if a <= 9 {
        5
    } else if a <= 14 {
        6
    } else if a <= 22 {
        7
    } else if a <= 35 {
        8
    } else if a <= 60 {
        9
    } else if a <= 110 {
        10
    } else {
        11
    }
}

/// The class of the error of the green channel, which the channels after it go by.
pub open spec fn tint(c: int, e: int) -> int {
    let n = crate::source_search::size_of(e);
    if c < 2 || n == 0 {
        0
    } else if n <= 2 {
        1
    } else if n <= 8 {
        2
    } else {
        3
    }
}

/// What changes from pixel to pixel: what was learned of errors, how large they were, and the error
/// of the green channel.
#[verifier::ext_equal]
pub struct Run {
    pub res: Residual,
    pub mag: Image,
    pub green: int,
}

impl Run {
    /// The context that the error of a pixel is coded in.
    pub open spec fn slot(self, mode: usize, c: int, y: int, x: int) -> int {
        let t = if mode != SPATIAL {
            1int
        } else {
            0
        };
        ((c * 2 + t) * 12 + class(activity(self.mag, c, y, x))) * 4 + tint(c, self.green)
    }

    pub open spec fn after(self, res: Residual, c: int, y: int, x: int, e: int) -> Run {
        let n = crate::source_search::size_of(e);
        Run {
            res,
            mag: self.mag.with(
                c,
                y,
                x,
                if n < 255 {
                    n as u8
                } else {
                    255
                },
            ),
            green: if c == 1 {
                e
            } else {
                self.green
            },
        }
    }
}

/// Where pixel number `k` of a block lies, in the order in which they are coded: channel, row and
/// column.
pub open spec fn dot(by: int, bx: int, k: int) -> (int, int, int) {
    (k % 4, by * 8 + k / 32, bx * 8 + k / 4 % 8)
}

/// What a pixel of a block is expected to be.
pub open spec fn guess(cur: Image, refs: Seq<Image>, b0: int, d: Decision, by: int, bx: int, k: int) -> int {
    let (c, y, x) = dot(by, bx, k);
    crate::source_planes::predicted(cur, refs[d.ri as int], b0 * 8, d.mode, d.mv, c, y, x)
}

/// Writes the pixels of a block from number `k` on.
pub open spec fn put_pixels(
    run: Run,
    w: Writing,
    cur: Image,
    refs: Seq<Image>,
    b0: int,
    d: Decision,
    by: int,
    bx: int,
    k: int,
) -> (Run, Writing)
    decreases 256 - k,
{
    if k >= 256 {
        (run, w)
    } else {
        let (c, y, x) = dot(by, bx, k);
        let e = crate::source_planes::wrapped(cur.at(c, y, x) - guess(cur, refs, b0, d, by, bx, k));
        let (res, w) = run.res.encode(w, run.slot(d.mode, c, y - b0 * 8, x), e);
        put_pixels(run.after(res, c, y - b0 * 8, x, e), w, cur, refs, b0, d, by, bx, k + 1)
    }
}

/// Reads the pixels of a block from number `k` on.
pub open spec fn get_pixels(
    run: Run,
    r: Reading,
    img: Image,
    refs: Seq<Image>,
    b0: int,
    d: Decision,
    by: int,
    bx: int,
    k: int,
) -> (Run, Reading, Image)
    decreases 256 - k,
{
    if k >= 256 {
        (run, r, img)
    } else {
        let (c, y, x) = dot(by, bx, k);
        let (e, res, r) = run.res.decode(r, run.slot(d.mode, c, y - b0 * 8, x));
        let v = (guess(img, refs, b0, d, by, bx, k) + e) % 256;
        get_pixels(
            run.after(res, c, y - b0 * 8, x, e),
            r,
            img.with(c, y, x, v as u8),
            refs,
            b0,
            d,
            by,
            bx,
            k + 1,
        )
    }
}

/// A picture with a block copied from another, from pixel number `k` on.
pub open spec fn copied(img: Image, from: Image, by: int, bx: int, k: int) -> Image
    decreases 256 - k,
{
    if k >= 256 {
        img
    } else {
        let (c, y, x) = dot(by, bx, k);
        copied(img.with(c, y, x, from.at(c, y, x) as u8), from, by, bx, k + 1)
    }
}

/// Writes a block.
pub open spec fn put_block(
    m: Learned,
    w: Writing,
    past: Past,
    cur: Image,
    refs: Seq<Image>,
    b0: int,
    d: Decision,
    by: int,
    bx: int,
) -> (Learned, Writing, Past) {
    let bw = cur.w / 8;
    let (m, w) = put_head(
        m,
        w,
        past.context(bw, b0, by, bx),
        d,
        past.expected(bw, b0, by, bx),
        refs.len() as int,
    );
    let past = past.noted(by * bw + bx, d);
    if d.mode == SAME {
        (m, w, past)
    } else {
        let run = Run { res: m.res, mag: past.mag, green: 0 };
        let (run, w) = put_pixels(run, w, cur, refs, b0, d, by, bx, 0);
        (Learned { res: run.res, ..m }, w, Past { mag: run.mag, ..past })
    }
}

/// Reads a block.
pub open spec fn get_block(
    m: Learned,
    r: Reading,
    past: Past,
    img: Image,
    refs: Seq<Image>,
    bw: int,
    b0: int,
    by: int,
    bx: int,
) -> (Learned, Reading, Past, Image) {
    let (d, m, r) = get_head(
        m,
        r,
        past.context(bw, b0, by, bx),
        past.expected(bw, b0, by, bx),
        refs.len() as int,
    );
    let past = past.noted(by * bw + bx, d);
    if d.mode == SAME {
        (m, r, past, copied(img, refs[0], by, bx, 0))
    } else {
        let run = Run { res: m.res, mag: past.mag, green: 0 };
        let (run, r, img) = get_pixels(run, r, img, refs, b0, d, by, bx, 0);
        (Learned { res: run.res, ..m }, r, Past { mag: run.mag, ..past }, img)
    }
}

/// Writes the blocks of the rows up to `end`, from a block on.
pub open spec fn put_blocks(
    m: Learned,
    w: Writing,
    past: Past,
    cur: Image,
    refs: Seq<Image>,
    plan: Seq<Decision>,
    b0: int,
    end: int,
    by: int,
    bx: int,
) -> (Learned, Writing, Past)
    decreases end - by, cur.w / 8 - bx,
{
    let bw = cur.w / 8;
    if by >= end {
        (m, w, past)
    } else if bx >= bw {
        put_blocks(m, w, past, cur, refs, plan, b0, end, by + 1, 0)
    } else {
        let d = crate::source_search::entry(plan, bw, by, bx);
        let (m, w, past) = put_block(m, w, past, cur, refs, b0, d, by, bx);
        put_blocks(m, w, past, cur, refs, plan, b0, end, by, bx + 1)
    }
}

/// Reads the blocks of the rows up to `end`, from a block on. A row has `bw` blocks.
pub open spec fn get_blocks(
    m: Learned,
    r: Reading,
    past: Past,
    img: Image,
    refs: Seq<Image>,
    bw: int,
    b0: int,
    end: int,
    by: int,
    bx: int,
) -> (Learned, Reading, Past, Image)
    decreases end - by, bw - bx,
{
    if by >= end {
        (m, r, past, img)
    } else if bx >= bw {
        get_blocks(m, r, past, img, refs, bw, b0, end, by + 1, 0)
    } else {
        let (m, r, past, img) = get_block(m, r, past, img, refs, bw, b0, by, bx);
        get_blocks(m, r, past, img, refs, bw, b0, end, by, bx + 1)
    }
}

/// The models of a band.
pub struct Models {
    pub mode: Vec<u16>,
    pub refi: Vec<u16>,
    pub mv: ResidualModel,
    pub res: ResidualModel,
}

impl View for Models {
    type V = Learned;

    open spec fn view(&self) -> Learned {
        Learned { mode: self.mode@, refi: self.refi@, mv: self.mv@, res: self.res@ }
    }
}

impl Models {
    pub open spec fn wf(&self) -> bool {
        &&& self@.wf()
        &&& self.mv.wf()
        &&& self.mv.ctxs == 2
        &&& self.res.wf()
        &&& self.res.ctxs == 384
    }

    pub fn new() -> (m: Self)
        ensures
            m.wf(),
            m@ == Learned::fresh(),
    {
        let m = Models {
            mode: vec![PROB_INIT; 64],
            refi: vec![PROB_INIT; 8],
            mv: ResidualModel::new(2),
            res: ResidualModel::new(SLOTS),
        };
        assert(m@ =~= Learned::fresh());
        m
    }
}

/// What is remembered of the blocks of a band.
pub struct History {
    pub modes: Vec<usize>,
    pub mvs: Vec<Shift>,
    pub mag: Planes,
}

impl View for History {
    type V = Past;

    open spec fn view(&self) -> Past {
        Past { modes: self.modes@, mvs: self.mvs@, mag: self.mag@ }
    }
}

/// The activity of a pixel.
fn find_activity(mag: &Planes, c: usize, y: usize, x: usize) -> (a: u32)
    requires
        mag.wf(),
        mag@.inside(c as int, y as int, x as int),
    ensures
        a == activity(mag@, c as int, y as int, x as int),
        a <= 765,
{
    proof {
        mag.lemma_shape();
    }
    let mut a: u32 = 0;
    if x > 0 {
        a = a + 2 * mag.get(c, y, x - 1) as u32;
    }
    if y > 0 {
        a = a + 2 * mag.get(c, y - 1, x) as u32;
        if x > 0 {
            a = a + mag.get(c, y - 1, x - 1) as u32;
        }
        if x < mag.w - 1 {
            a = a + mag.get(c, y - 1, x + 1) as u32;
        }
    }
    a / 2
}

fn act_bucket(a: u32) -> (n: usize)
    ensures
        n == class(a as int),
        n < 12,
{
    if a <= 2 {
        a as usize
    } else if a <= 4 {
        3
    } else if a <= 6 {
        4
    } else if a <= 9 {
        5
    } else if a <= 14 {
        6
    } else if a <= 22 {
        7
    } else if a <= 35 {
        8
    } else if a <= 60 {
        9
    } else if a <= 110 {
        10
    } else {
        11
    }
}

fn gbucket(c: usize, e: i32) -> (n: usize)
    requires
        -0x1_0000 < e < 0x1_0000,
    ensures
        n == tint(c as int, e as int),
        n < 4,
{
    if c < 2 || e == 0 {
        0
    } else if -2 <= e && e <= 2 {
        1
    } else if -8 <= e && e <= 8 {
        2
    } else {
        3
    }
}

fn find_slot(mag: &Planes, green: i32, mode: usize, c: usize, y: usize, x: usize, Ghost(res): Ghost<
    Residual,
>) -> (n: usize)
    requires
        mag.wf(),
        mag@.inside(c as int, y as int, x as int),
        -0x1_0000 < green < 0x1_0000,
    ensures
        n == (Run { res, mag: mag@, green: green as int }).slot(mode, c as int, y as int, x as int),
        n < 384,
{
    let t: usize = if mode != SPATIAL {
        1
    } else {
        0
    };
    let a = act_bucket(find_activity(mag, c, y, x));
    ((c * 2 + t) * 12 + a) * 4 + gbucket(c, green)
}

/// The size of an error, as far as a byte can hold it.
fn small(e: i32) -> (n: u8)
    requires
        -0x1_0000 < e < 0x1_0000,
    ensures
        n == (if crate::source_search::size_of(e as int) < 255 {
            crate::source_search::size_of(e as int) as u8
        } else {
            255
        }),
{
    let n: i32 = if e < 0 {
        -e
    } else {
        e
    };
    if n < 255 {
        n as u8
    } else {
        255
    }
}

/// What is known of a picture and of those that it is predicted from.
pub open spec fn ready(cur: &Planes, refs: Seq<&Planes>) -> bool {
    &&& crate::source_search::all_matched(cur, refs)
    &&& cur.w % 8 == 0
    &&& cur.h % 8 == 0
}

/// Writes the pixels of a block.
fn write_pixels(
    res: &mut ResidualModel,
    e: &mut Enc,
    mag: &mut Planes,
    cur: &Planes,
    refs: &Vec<&Planes>,
    b0: usize,
    d: Decision,
    by: usize,
    bx: usize,
)
    requires
        old(res).wf(),
        old(res).ctxs == 384,
        old(e)@.wf(),
        old(e).cache_size < 0x7fff_ffff_ffff_ffff,
        old(mag).wf(),
        old(mag)@.w == cur@.w,
        ready(cur, refs@),
        d.ri < refs@.len(),
        d.mv.below(crate::source_search::REACH as int),
        b0 <= by,
        by * 8 + 8 <= cur.h,
        (by - b0) * 8 + 8 <= old(mag)@.h,
        bx * 8 + 8 <= cur.w,
    ensures
        final(res).wf(),
        final(res).ctxs == 384,
        final(e)@.wf(),
        final(e).cache_size <= old(e).cache_size + 17920,
        final(mag).wf(),
        final(mag)@.w == old(mag)@.w,
        final(mag)@.h == old(mag)@.h,
        ({
            let run = Run { res: old(res)@, mag: old(mag)@, green: 0 };
            let (after, w) = put_pixels(
                run,
                old(e)@,
                cur@,
                crate::source_search::images(refs@),
                b0 as int,
                d,
                by as int,
                bx as int,
                0,
            );
            final(res)@ == after.res && final(mag)@ == after.mag && final(e)@ == w
        }),
{
    let ghost all = crate::source_search::images(refs@);
    let ghost whole = put_pixels(
        Run { res: res@, mag: mag@, green: 0 },
        e@,
        cur@,
        all,
        b0 as int,
        d,
        by as int,
        bx as int,
        0,
    );
    let ghost start = e.cache_size;
    let ghost (mw, mh) = (mag@.w, mag@.h);
    proof {
        cur.lemma_shape();
        mag.lemma_shape();
        assert(crate::source_search::matched(cur, refs@[d.ri as int]));
        assert(all[d.ri as int] == refs@[d.ri as int]@);
    }
    let rf = refs[d.ri];
    let mut green: i32 = 0;
    let mut k: usize = 0;
    while k < 256
        invariant
            k <= 256,
            res.wf(),
            res.ctxs == 384,
            e@.wf(),
            start < 0x7fff_ffff_ffff_ffff,
            e.cache_size <= start + 70 * k,
            mag.wf(),
            mag@.w == mw,
            mag@.h == mh,
            mw == cur@.w,
            cur@.w == cur.w,
            cur@.h == cur.h,
            crate::source_search::matched(cur, rf),
            rf@ == all[d.ri as int],
            d.mv.below(crate::source_search::REACH as int),
            b0 <= by,
            by * 8 + 8 <= cur.h,
            (by - b0) * 8 + 8 <= mh,
            bx * 8 + 8 <= cur.w,
            -0x1_0000 < green < 0x1_0000,
            whole == put_pixels(
                Run { res: res@, mag: mag@, green: green as int },
                e@,
                cur@,
                all,
                b0 as int,
                d,
                by as int,
                bx as int,
                k as int,
            ),
        decreases 256 - k,
    {
        let c: usize = k % 4;
        let y: usize = by * 8 + k / 32;
        let x: usize = bx * 8 + k / 4 % 8;
        let yy: usize = (by - b0) * 8 + k / 32;
        let p = predict(cur, rf, b0 * 8, d.mode, d.mv, c, y, x);
        let err = wrap(cur.get(c, y, x) as i32 - p);
        let slot = find_slot(mag, green, d.mode, c, yy, x, Ghost(res@));
        res.encode(e, slot, err);
        mag.set(c, yy, x, small(err));
        if c == 1 {
            green = err;
        }
        k += 1;
    }
}

/// Reads pixel number `k` of a block, and returns its error.
#[verifier::rlimit(60)]
#[verifier::spinoff_prover]
fn read_pixel(
    res: &mut ResidualModel,
    r: &mut Dec<'_>,
    mag: &mut Planes,
    img: &mut Planes,
    rf: &Planes,
    b0: usize,
    d: Decision,
    by: usize,
    bx: usize,
    k: usize,
    green: i32,
    Ghost(refs): Ghost<Seq<Image>>,
) -> (err: i32)
    requires
        old(res).wf(),
        old(res).ctxs == 384,
        old(r)@.wf(),
        old(mag).wf(),
        old(mag)@.w == old(img)@.w,
        old(img).wf(),
        rf.wf(),
        rf@ == refs[d.ri as int],
        8 <= old(img)@.w <= MAX_SIDE,
        8 <= old(img)@.h <= MAX_SIDE,
        rf@.w == old(img)@.w,
        rf@.h == old(img)@.h,
        d.mv.below(0x1000_0000_0000_0000),
        b0 <= by,
        by * 8 + 8 <= old(img)@.h,
        (by - b0) * 8 + 8 <= old(mag)@.h,
        bx * 8 + 8 <= old(img)@.w,
        -0x1_0000 < green < 0x1_0000,
        k < 256,
    ensures
        final(res).wf(),
        final(res).ctxs == 384,
        final(r)@.wf(),
        final(r).data == old(r).data,
        final(mag).wf(),
        final(img).wf(),
        -0x1_0000 < err < 0x1_0000,
        ({
            let (c, y, x) = dot(by as int, bx as int, k as int);
            let run = Run { res: old(res)@, mag: old(mag)@, green: green as int };
            let (e, res2, r2) = old(res)@.decode(old(r)@, run.slot(d.mode, c, y - b0 * 8, x));
            &&& err == e
            &&& final(res)@ == res2
            &&& final(r)@ == r2
            &&& final(mag)@ == run.after(res2, c, y - b0 * 8, x, e).mag
            &&& final(img)@ == old(img)@.with(
                c,
                y,
                x,
                ((guess(old(img)@, refs, b0 as int, d, by as int, bx as int, k as int) + e) % 256) as u8,
            )
        }),
{
    proof {
        img.lemma_shape();
        mag.lemma_shape();
        rf.lemma_shape();
    }
    let c: usize = k % 4;
    let y: usize = by * 8 + k / 32;
    let x: usize = bx * 8 + k / 4 % 8;
    let yy: usize = (by - b0) * 8 + k / 32;
    let p = predict(img, rf, b0 * 8, d.mode, d.mv, c, y, x);
    let slot = find_slot(mag, green, d.mode, c, yy, x, Ghost(res@));
    let err = res.decode(r, slot);
    let v: i32 = (p + err + 1_048_576) % 256;
    assert(v == (p + err) % 256);
    img.set(c, y, x, v as u8);
    mag.set(c, yy, x, small(err));
    err
}

/// Reads the pixels of a block.
fn read_pixels(
    res: &mut ResidualModel,
    r: &mut Dec<'_>,
    mag: &mut Planes,
    img: &mut Planes,
    rf: &Planes,
    b0: usize,
    d: Decision,
    by: usize,
    bx: usize,
    Ghost(refs): Ghost<Seq<Image>>,
)
    requires
        old(res).wf(),
        old(res).ctxs == 384,
        old(r)@.wf(),
        old(mag).wf(),
        old(mag)@.w == old(img)@.w,
        crate::source_search::matched(old(img), rf),
        rf@ == refs[d.ri as int],
        d.mv.below(0x1000_0000_0000_0000),
        b0 <= by,
        by * 8 + 8 <= old(img).h,
        (by - b0) * 8 + 8 <= old(mag)@.h,
        bx * 8 + 8 <= old(img).w,
    ensures
        final(res).wf(),
        final(res).ctxs == 384,
        final(r)@.wf(),
        final(r).data == old(r).data,
        final(mag).wf(),
        final(mag)@.w == old(mag)@.w,
        final(mag)@.h == old(mag)@.h,
        final(img).wf(),
        final(img)@.w == old(img)@.w,
        final(img)@.h == old(img)@.h,
        ({
            let run = Run { res: old(res)@, mag: old(mag)@, green: 0 };
            let (after, then_r, then_img) = get_pixels(
                run,
                old(r)@,
                old(img)@,
                refs,
                b0 as int,
                d,
                by as int,
                bx as int,
                0,
            );
            final(res)@ == after.res && final(mag)@ == after.mag && final(r)@ == then_r
                && final(img)@ == then_img
        }),
{
    let ghost whole = get_pixels(
        Run { res: res@, mag: mag@, green: 0 },
        r@,
        img@,
        refs,
        b0 as int,
        d,
        by as int,
        bx as int,
        0,
    );
    let ghost (mw, mh, iw, ih) = (mag@.w, mag@.h, img@.w, img@.h);
    proof {
        img.lemma_shape();
        mag.lemma_shape();
        rf.lemma_shape();
    }
    let mut green: i32 = 0;
    let mut k: usize = 0;
    while k < 256
        invariant
            k <= 256,
            res.wf(),
            res.ctxs == 384,
            r@.wf(),
            r.data == old(r).data,
            mag.wf(),
            mag@.w == mw,
            mag@.h == mh,
            mw == iw,
            img.wf(),
            img@.w == iw,
            img@.h == ih,
            8 <= iw <= MAX_SIDE,
            8 <= ih <= MAX_SIDE,
            rf.wf(),
            rf@.w == iw,
            rf@.h == ih,
            rf@ == refs[d.ri as int],
            d.mv.below(0x1000_0000_0000_0000),
            b0 <= by,
            by * 8 + 8 <= ih,
            (by - b0) * 8 + 8 <= mh,
            bx * 8 + 8 <= iw,
            -0x1_0000 < green < 0x1_0000,
            whole == get_pixels(
                Run { res: res@, mag: mag@, green: green as int },
                r@,
                img@,
                refs,
                b0 as int,
                d,
                by as int,
                bx as int,
                k as int,
            ),
        decreases 256 - k,
    {
        let err = read_pixel(res, r, mag, img, rf, b0, d, by, bx, k, green, Ghost(refs));
        if k % 4 == 1 {
            green = err;
        }
        k += 1;
    }
}

/// Copies a block from another picture.
fn copy_block(img: &mut Planes, from: &Planes, by: usize, bx: usize)
    requires
        old(img).wf(),
        from.wf(),
        from@.w == old(img)@.w,
        from@.h == old(img)@.h,
        by * 8 + 8 <= old(img)@.h,
        bx * 8 + 8 <= old(img)@.w,
    ensures
        final(img).wf(),
        final(img)@.w == old(img)@.w,
        final(img)@.h == old(img)@.h,
        final(img)@ == copied(old(img)@, from@, by as int, bx as int, 0),
{
    let ghost whole = copied(img@, from@, by as int, bx as int, 0);
    proof {
        from.lemma_shape();
    }
    let mut k: usize = 0;
    while k < 256
        invariant
            k <= 256,
            img.wf(),
            from.wf(),
            img@.w == old(img)@.w,
            img@.h == old(img)@.h,
            from@.w == img@.w,
            from@.h == img@.h,
            from@.w == from.w,
            from@.h == from.h,
            by * 8 + 8 <= img@.h,
            bx * 8 + 8 <= img@.w,
            whole == copied(img@, from@, by as int, bx as int, k as int),
        decreases 256 - k,
    {
        let c: usize = k % 4;
        let y: usize = by * 8 + k / 32;
        let x: usize = bx * 8 + k / 4 % 8;
        assert(dot(by as int, bx as int, k as int) == (c as int, y as int, x as int));
        let v: u8 = from.get(c, y, x);
        img.set(c, y, x, v);
        k += 1;
    }
}

fn write_ref(slots: &mut Vec<u16>, e: &mut Enc, ri: usize, n: usize)
    requires
        crate::source_rc::all_open(old(slots)@),
        old(slots)@.len() == 8,
        old(e)@.wf(),
        old(e).cache_size < 0x7fff_ffff_ffff_ffff,
        1 <= n <= MAXREF,
    ensures
        (final(slots)@, final(e)@) == put_ref(old(slots)@, old(e)@, ri as int, 0, n as int),
        crate::source_rc::all_open(final(slots)@),
        final(slots)@.len() == 8,
        final(e)@.wf(),
        final(e).cache_size <= old(e).cache_size + 10,
{
    let ghost whole = put_ref(slots@, e@, ri as int, 0, n as int);
    let ghost start = e.cache_size;
    let mut k: usize = 0;
    let mut more = true;
    while more && k < n - 1
        invariant
            k <= n - 1,
            1 <= n <= MAXREF,
            crate::source_rc::all_open(slots@),
            slots@.len() == 8,
            e@.wf(),
            start < 0x7fff_ffff_ffff_ffff,
            e.cache_size <= start + 2 * k,
            more ==> whole == put_ref(slots@, e@, ri as int, k as int, n as int),
            !more ==> whole == (slots@, e@),
        decreases n - k,
    {
        put_bit(slots, e, k, if ri > k { 1 } else { 0 }, 4);
        if ri <= k {
            more = false;
        }
        k += 1;
    }
}

fn read_ref(slots: &mut Vec<u16>, r: &mut Dec<'_>, n: usize) -> (ri: usize)
    requires
        crate::source_rc::all_open(old(slots)@),
        old(slots)@.len() == 8,
        old(r)@.wf(),
        1 <= n <= MAXREF,
    ensures
        (ri as int, final(slots)@, final(r)@) == get_ref(old(slots)@, old(r)@, 0, n as int),
        crate::source_rc::all_open(final(slots)@),
        final(slots)@.len() == 8,
        final(r)@.wf(),
        final(r).data == old(r).data,
        ri < n,
{
    let ghost whole = get_ref(slots@, r@, 0, n as int);
    let mut k: usize = 0;
    while k < n - 1
        invariant
            k <= n - 1,
            1 <= n <= MAXREF,
            crate::source_rc::all_open(slots@),
            slots@.len() == 8,
            r@.wf(),
            r.data == old(r).data,
            whole == get_ref(old(slots)@, old(r)@, 0, n as int),
            whole == get_ref(slots@, r@, k as int, n as int),
        decreases n - k,
    {
        if get_bit(slots, r, k, 4) == 0 {
            return k;
        }
        k += 1;
    }
    k
}

/// Writes how a block is predicted.
fn write_head(m: &mut Models, e: &mut Enc, ctx: usize, d: Decision, near: Shift, n: usize)
    requires
        old(m).wf(),
        old(e)@.wf(),
        old(e).cache_size < 0x3fff_ffff_ffff_ffff,
        ctx < 16,
        d.mode < 4,
        d.mv.below(crate::source_search::REACH as int),
        near.below(crate::source_search::REACH as int),
        1 <= n <= MAXREF,
    ensures
        final(m).wf(),
        final(e)@.wf(),
        final(e).cache_size <= old(e).cache_size + 160,
        final(m).res == old(m).res,
        (final(m)@, final(e)@) == put_head(old(m)@, old(e)@, ctx as int, d, near, n as int),
{
    let later: usize = if d.mode >= TCOPY {
        1
    } else {
        0
    };
    put_bit(&mut m.mode, e, ctx * 4, later as u32, 4);
    put_bit(&mut m.mode, e, ctx * 4 + 1 + later, (d.mode % 2) as u32, 4);
    if d.mode >= TCOPY {
        write_ref(&mut m.refi, e, d.ri, n);
        m.mv.encode(e, 0, (d.mv.dy - near.dy) as i32);
        m.mv.encode(e, 1, (d.mv.dx - near.dx) as i32);
    }
    assert(m@ =~= put_head(old(m)@, old(e)@, ctx as int, d, near, n as int).0);
}

/// Reads how a block is predicted.
fn read_head(m: &mut Models, r: &mut Dec<'_>, ctx: usize, near: Shift, n: usize, Ghost(reach): Ghost<int>) -> (d:
    Decision)
    requires
        old(m).wf(),
        old(r)@.wf(),
        ctx < 16,
        near.below(reach),
        0 <= reach <= 0x800_0000_0000_0000,
        1 <= n <= MAXREF,
    ensures
        final(m).wf(),
        final(r)@.wf(),
        final(r).data == old(r).data,
        final(m).res == old(m).res,
        (d, final(m)@, final(r)@) == get_head(old(m)@, old(r)@, ctx as int, near, n as int),
        d.mode < 4,
        d.ri < n,
        d.mv.below(reach + 0x1_0000),
{
    let later = get_bit(&mut m.mode, r, ctx * 4, 4) as usize;
    let odd = get_bit(&mut m.mode, r, ctx * 4 + 1 + later, 4) as usize;
    let d = if later == 1 {
        let ri = read_ref(&mut m.refi, r, n);
        let dy = m.mv.decode(r, 0);
        let dx = m.mv.decode(r, 1);
        Decision {
            mode: if odd == 1 {
                TGRAD
            } else {
                TCOPY
            },
            mv: Shift { dy: near.dy + dy as i64, dx: near.dx + dx as i64 },
            ri,
        }
    } else {
        Decision {
            mode: if odd == 1 {
                SPATIAL
            } else {
                SAME
            },
            mv: Shift { dy: 0, dx: 0 },
            ri: 0,
        }
    };
    assert(m@ =~= get_head(old(m)@, old(r)@, ctx as int, near, n as int).1);
    d
}

/// What is known of the blocks of a band, of which there are `blocks`.
pub open spec fn kept(h: &History, blocks: int, reach: int) -> bool {
    &&& h.modes.len() == blocks
    &&& h.mvs.len() == blocks
    &&& h.mag.wf()
    &&& forall|i: int| 0 <= i < blocks ==> (#[trigger] h.modes@[i]) < 4
    &&& forall|i: int| 0 <= i < blocks ==> (#[trigger] h.mvs@[i]).below(reach)
}

fn find_context(h: &History, bw: usize, b0: usize, by: usize, bx: usize, bi: usize, Ghost(blocks): Ghost<
    int,
>, Ghost(reach): Ghost<int>) -> (r: (usize, Shift))
    requires
        kept(h, blocks, reach),
        0 <= reach,
        b0 <= by,
        bx < bw,
        bi == by * bw + bx,
        bi < blocks,
    ensures
        r.0 == h@.context(bw as int, b0 as int, by as int, bx as int),
        r.0 < 16,
        r.1 == h@.expected(bw as int, b0 as int, by as int, bx as int),
        r.1.below(reach),
{
    proof {
        if by > b0 {
            assert(by * bw >= bw) by (nonlinear_arith)
                requires
                    by >= 1,
                    bw >= 0,
            ;
        }
        assert(by * bw >= 0) by (nonlinear_arith)
            requires
                by >= 0,
                bw >= 0,
        ;
    }
    let left: usize = if bx > 0 {
        h.modes[bi - 1]
    } else {
        1
    };
    let above: usize = if by > b0 {
        h.modes[bi - bw]
    } else {
        1
    };
    let near = if bx > 0 && left >= TCOPY {
        h.mvs[bi - 1]
    } else if by > b0 && above >= TCOPY {
        h.mvs[bi - bw]
    } else {
        Shift { dy: 0, dx: 0 }
    };
    (left * 4 + above, near)
}

fn blank_history(w: usize, blocks: usize, rows: usize) -> (h: History)
    requires
        4 * (rows * w) <= usize::MAX,
    ensures
        kept(&h, blocks as int, 0),
        h@ == Past::none(w as int, blocks as int, rows as int),
{
    let h = History {
        modes: vec![SPATIAL; blocks],
        mvs: vec![Shift { dy: 0, dx: 0 }; blocks],
        mag: Planes::new(w, rows),
    };
    assert(h@ =~= Past::none(w as int, blocks as int, rows as int));
    h
}

/// A plan for a picture of `blocks` blocks that predicts from `n` pictures.
pub open spec fn planned(plan: Seq<Decision>, blocks: int, n: int) -> bool {
    &&& plan.len() == blocks
    &&& forall|i: int| 0 <= i < blocks ==> (#[trigger] plan[i]).mode < 4 && plan[i].ri < n
        && plan[i].mv.below(crate::source_search::REACH as int)
}

/// Writes a block.
fn write_block(
    m: &mut Models,
    e: &mut Enc,
    h: &mut History,
    cur: &Planes,
    refs: &Vec<&Planes>,
    d: Decision,
    b0: usize,
    by: usize,
    bx: usize,
    bi: usize,
    Ghost(blocks): Ghost<int>,
)
    requires
        old(m).wf(),
        old(e)@.wf(),
        old(e).cache_size < 0x3fff_ffff_ffff_ffff,
        ready(cur, refs@),
        d.mode < 4,
        d.ri < refs@.len(),
        d.mv.below(crate::source_search::REACH as int),
        kept(old(h), blocks, crate::source_search::REACH as int),
        old(h)@.mag.w == cur@.w,
        b0 <= by,
        by * 8 + 8 <= cur.h,
        (by - b0) * 8 + 8 <= old(h)@.mag.h,
        bx * 8 + 8 <= cur.w,
        bi == by * (cur.w / 8) + bx,
        bi < blocks,
    ensures
        final(m).wf(),
        final(e)@.wf(),
        final(e).cache_size <= old(e).cache_size + 20000,
        kept(final(h), blocks, crate::source_search::REACH as int),
        final(h)@.mag.w == old(h)@.mag.w,
        final(h)@.mag.h == old(h)@.mag.h,
        (final(m)@, final(e)@, final(h)@) == put_block(
            old(m)@,
            old(e)@,
            old(h)@,
            cur@,
            crate::source_search::images(refs@),
            b0 as int,
            d,
            by as int,
            bx as int,
        ),
{
    proof {
        cur.lemma_shape();
    }
    let bw: usize = cur.w / 8;
    let (ctx, near) = find_context(
        h,
        bw,
        b0,
        by,
        bx,
        bi,
        Ghost(blocks),
        Ghost(crate::source_search::REACH as int),
    );
    write_head(m, e, ctx, d, near, refs.len());
    h.modes[bi] = d.mode;
    h.mvs[bi] = d.mv;
    if d.mode != SAME {
        write_pixels(&mut m.res, e, &mut h.mag, cur, refs, b0, d, by, bx);
    }
    proof {
        let then = put_block(
            old(m)@,
            old(e)@,
            old(h)@,
            cur@,
            crate::source_search::images(refs@),
            b0 as int,
            d,
            by as int,
            bx as int,
        );
        assert(h@ =~= then.2);
        assert(m@ =~= then.0);
    }
}

/// Reads a block.
fn read_block(
    m: &mut Models,
    r: &mut Dec<'_>,
    h: &mut History,
    img: &mut Planes,
    refs: &Vec<&Planes>,
    bw: usize,
    b0: usize,
    by: usize,
    bx: usize,
    bi: usize,
    Ghost(blocks): Ghost<int>,
    Ghost(reach): Ghost<int>,
)
    requires
        old(m).wf(),
        old(r)@.wf(),
        ready(old(img), refs@),
        kept(old(h), blocks, reach),
        0 <= reach <= 0x800_0000_0000_0000,
        old(h)@.mag.w == old(img)@.w,
        bw == old(img)@.w / 8,
        b0 <= by,
        by * 8 + 8 <= old(img)@.h,
        (by - b0) * 8 + 8 <= old(h)@.mag.h,
        bx * 8 + 8 <= old(img)@.w,
        bi == by * bw + bx,
        bi < blocks,
    ensures
        final(m).wf(),
        final(r)@.wf(),
        final(r).data == old(r).data,
        kept(final(h), blocks, reach + 0x1_0000),
        final(h)@.mag.w == old(h)@.mag.w,
        final(h)@.mag.h == old(h)@.mag.h,
        final(img).wf(),
        final(img)@.w == old(img)@.w,
        final(img)@.h == old(img)@.h,
        (final(m)@, final(r)@, final(h)@, final(img)@) == get_block(
            old(m)@,
            old(r)@,
            old(h)@,
            old(img)@,
            crate::source_search::images(refs@),
            bw as int,
            b0 as int,
            by as int,
            bx as int,
        ),
{
    let ghost all = crate::source_search::images(refs@);
    proof {
        img.lemma_shape();
    }
    let (ctx, near) = find_context(h, bw, b0, by, bx, bi, Ghost(blocks), Ghost(reach));
    let d = read_head(m, r, ctx, near, refs.len(), Ghost(reach));
    h.modes[bi] = d.mode;
    h.mvs[bi] = d.mv;
    proof {
        assert(crate::source_search::matched(img, refs@[d.ri as int]));
        assert(crate::source_search::matched(img, refs@[0]));
        assert(all[d.ri as int] == refs@[d.ri as int]@);
        assert(all[0] == refs@[0]@);
        refs@[0].lemma_shape();
    }
    if d.mode == SAME {
        copy_block(img, refs[0], by, bx);
    } else {
        read_pixels(
            &mut m.res,
            r,
            &mut h.mag,
            img,
            refs[d.ri],
            b0,
            d,
            by,
            bx,
            Ghost(all),
        );
    }
    proof {
        let then = get_block(
            old(m)@,
            old(r)@,
            old(h)@,
            old(img)@,
            all,
            bw as int,
            b0 as int,
            by as int,
            bx as int,
        );
        assert(h@ =~= then.2);
        assert(m@ =~= then.0);
    }
}

proof fn lemma_block_index(bw: int, bh: int, by: int, bx: int)
    requires
        0 <= by < bh,
        0 <= bx < bw,
    ensures
        0 <= by * bw,
        by * bw + bx < bw * bh,
{
    assert(0 <= by * bw && by * bw + bx < bw * bh) by (nonlinear_arith)
        requires
            0 <= by < bh,
            0 <= bx < bw,
    ;
}

/// Writes a band of a picture, the rows of blocks from `b0` to `b1`.
pub fn write_band(
    m: &mut Models,
    e: &mut Enc,
    cur: &Planes,
    refs: &Vec<&Planes>,
    plan: &Vec<Decision>,
    b0: usize,
    b1: usize,
)
    requires
        old(m).wf(),
        old(e)@.wf(),
        old(e).cache_size <= 0x3000_0000_0000_0000,
        ready(cur, refs@),
        planned(plan@, (cur.w / 8) * (cur.h / 8), refs@.len() as int),
        b0 <= b1 <= cur.h / 8,
    ensures
        final(m).wf(),
        final(e)@.wf(),
        final(e).cache_size <= old(e).cache_size + 0x400_0000 * 20000,
        ({
            let none = Past::none(cur@.w, (cur@.w / 8) * (cur@.h / 8), (b1 - b0) * 8);
            let then = put_blocks(
                old(m)@,
                old(e)@,
                none,
                cur@,
                crate::source_search::images(refs@),
                plan@,
                b0 as int,
                b1 as int,
                b0 as int,
                0,
            );
            final(m)@ == then.0 && final(e)@ == then.1
        }),
{
    proof {
        cur.lemma_shape();
        assert(crate::source_search::matched(cur, refs@[0]));
    }
    let bw: usize = cur.w / 8;
    let ghost bh = cur.h as int / 8;
    let ghost blocks = bw * bh;
    let ghost all = crate::source_search::images(refs@);
    let rows: usize = (b1 - b0) * 8;
    proof {
        let (cw, ch) = (cur.w as int, cur.h as int);
        cur.lemma_room();
        assert(rows * cw <= ch * cw) by (nonlinear_arith)
            requires
                rows <= ch,
                cw >= 0,
        ;
    }
    let mut h = blank_history(cur.w, plan.len(), rows);
    let ghost whole = put_blocks(m@, e@, h@, cur@, all, plan@, b0 as int, b1 as int, b0 as int, 0);
    let ghost start = e.cache_size;
    let mut by: usize = b0;
    let mut bx: usize = 0;
    let mut bi: usize = 0;
    let ghost mut n: int = 0;
    if b0 < b1 {
        proof {
            lemma_block_index(bw as int, bh, b0 as int, 0);
        }
        bi = b0 * bw;
    }
    while by < b1
        invariant
            b0 <= by <= b1,
            b1 <= bh,
            bx <= bw,
            bw == cur.w / 8,
            bh == cur.h as int / 8,
            blocks == bw * bh,
            bw >= 1,
            by < b1 ==> bi == by * bw + bx,
            by == b1 ==> bx == 0,
            m.wf(),
            e@.wf(),
            0 <= n <= (by - b0) * bw + bx,
            start <= 0x3000_0000_0000_0000,
            e.cache_size <= start + 20000 * n,
            all == crate::source_search::images(refs@),
            ready(cur, refs@),
            cur@.w == cur.w,
            cur@.h == cur.h,
            8 <= cur.w <= MAX_SIDE,
            8 <= cur.h <= MAX_SIDE,
            planned(plan@, blocks, refs@.len() as int),
            kept(&h, blocks, crate::source_search::REACH as int),
            h@.mag.w == cur@.w,
            h@.mag.h == (b1 - b0) * 8,
            whole == put_blocks(
                m@,
                e@,
                h@,
                cur@,
                all,
                plan@,
                b0 as int,
                b1 as int,
                by as int,
                bx as int,
            ),
        decreases b1 - by, bw - bx,
    {
        proof {
            assert((by - b0) * bw + bw == (by + 1 - b0) * bw && by * bw + bw == (by + 1) * bw)
                by (nonlinear_arith);
            assert((by - b0) * bw + bx <= 8192 * 8192 && 0 <= (by - b0) * bw) by (nonlinear_arith)
                requires
                    0 <= by - b0 <= 8191,
                    0 <= bw <= 8192,
                    0 <= bx <= bw,
            ;
        }
        if bx < bw {
            proof {
                lemma_block_index(bw as int, bh, by as int, bx as int);
            }
            let d = plan[bi];
            write_block(m, e, &mut h, cur, refs, d, b0, by, bx, bi, Ghost(blocks));
            bx += 1;
            proof {
                n = n + 1;
            }
            bi += 1;
        } else {
            by += 1;
            bx = 0;
        }
    }
    proof {
        assert((by - b0) * bw <= 8192 * 8192) by (nonlinear_arith)
            requires
                0 <= by - b0 <= 8192,
                0 <= bw <= 8192,
        ;
    }
}

/// Reads a band of a picture, the rows of blocks from `b0` to `b1`.
pub fn read_band(m: &mut Models, r: &mut Dec<'_>, img: &mut Planes, refs: &Vec<&Planes>, b0: usize, b1: usize)
    requires
        old(m).wf(),
        old(r)@.wf(),
        ready(old(img), refs@),
        b0 <= b1 <= old(img)@.h / 8,
    ensures
        final(m).wf(),
        final(r)@.wf(),
        final(r).data == old(r).data,
        final(img).wf(),
        final(img)@.w == old(img)@.w,
        final(img)@.h == old(img)@.h,
        ({
            let (w, h) = (old(img)@.w, old(img)@.h);
            let none = Past::none(w, (w / 8) * (h / 8), (b1 - b0) * 8);
            let then = get_blocks(
                old(m)@,
                old(r)@,
                none,
                old(img)@,
                crate::source_search::images(refs@),
                w / 8,
                b0 as int,
                b1 as int,
                b0 as int,
                0,
            );
            final(m)@ == then.0 && final(r)@ == then.1 && final(img)@ == then.3
        }),
{
    proof {
        img.lemma_shape();
        img.lemma_room();
        assert(crate::source_search::matched(img, refs@[0]));
    }
    let ghost (iw, ih) = (img@.w, img@.h);
    let bw: usize = img.w / 8;
    let bh: usize = img.h / 8;
    let rows: usize = (b1 - b0) * 8;
    proof {
        assert(rows * iw <= ih * iw && bw * bh <= ih * iw && 0 <= bw * bh) by (nonlinear_arith)
            requires
                rows <= ih,
                iw >= 0,
                ih >= 0,
                0 <= bw <= iw,
                0 <= bh <= ih,
        ;
    }
    let ghost blocks = bw * bh;
    let ghost all = crate::source_search::images(refs@);
    let mut h = blank_history(img.w, bw * bh, rows);
    let ghost whole = get_blocks(
        m@,
        r@,
        h@,
        img@,
        all,
        bw as int,
        b0 as int,
        b1 as int,
        b0 as int,
        0,
    );
    let mut by: usize = b0;
    let mut bx: usize = 0;
    let mut bi: usize = 0;
    let ghost mut n: int = 0;
    if b0 < b1 {
        proof {
            lemma_block_index(bw as int, bh as int, b0 as int, 0);
        }
        bi = b0 * bw;
    }
    while by < b1
        invariant
            b0 <= by <= b1,
            b1 <= bh,
            bx <= bw,
            bw == iw / 8,
            bh == ih / 8,
            blocks == bw * bh,
            blocks <= usize::MAX,
            bw >= 1,
            by < b1 ==> bi == by * bw + bx,
            m.wf(),
            r@.wf(),
            r.data == old(r).data,
            0 <= n <= (by - b0) * bw + bx,
            all == crate::source_search::images(refs@),
            ready(img, refs@),
            img@.w == iw,
            img@.h == ih,
            8 <= iw <= MAX_SIDE,
            8 <= ih <= MAX_SIDE,
            kept(&h, blocks, n * 0x1_0000),
            h@.mag.w == iw,
            h@.mag.h == (b1 - b0) * 8,
            whole == get_blocks(
                m@,
                r@,
                h@,
                img@,
                all,
                bw as int,
                b0 as int,
                b1 as int,
                by as int,
                bx as int,
            ),
        decreases b1 - by, bw - bx,
    {
        proof {
            assert((by - b0) * bw + bw == (by + 1 - b0) * bw && by * bw + bw == (by + 1) * bw)
                by (nonlinear_arith);
            assert((by - b0) * bw + bx <= 8192 * 8192 && 0 <= (by - b0) * bw) by (nonlinear_arith)
                requires
                    0 <= by - b0 <= 8191,
                    0 <= bw <= 8192,
                    0 <= bx <= bw,
            ;
        }
        if bx < bw {
            proof {
                lemma_block_index(bw as int, bh as int, by as int, bx as int);
            }
            let ghost before = *img;
            read_block(
                m,
                r,
                &mut h,
                img,
                refs,
                bw,
                b0,
                by,
                bx,
                bi,
                Ghost(blocks),
                Ghost(n * 0x1_0000),
            );
            proof {
                before.lemma_shape();
                img.lemma_shape();
                assert forall|i: int| 0 <= i < refs@.len() implies crate::source_search::matched(
                    img,
                    #[trigger] refs@[i],
                ) by {
                    assert(crate::source_search::matched(&before, refs@[i]));
                }
                n = n + 1;
            }
            bx += 1;
            bi += 1;
        } else {
            by += 1;
            bx = 0;
        }
    }
}

}
