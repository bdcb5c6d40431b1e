//! Decoding gives back the pictures that were encoded.

use crate::source_band::{Learned, Past, Run};
use crate::source_codec::{Coding, Decoding};
use crate::source_planes::{Image, Shift, SAME, TCOPY};
use crate::source_rc::{Reading, Writing};
use crate::source_search::{Decision, MAXREF, REACH};
use crate::streams::STREAMS;
use vstd::prelude::*;

verus! {

proof fn lemma_ref(slots: Seq<u16>, w: Writing, ri: int, k: int, n: int, data: Seq<u8>)
    requires
        crate::source_rc::all_open(slots),
        slots.len() == 8,
        w.wf(),
        0 <= k,
        n <= MAXREF,
    ensures
        ({
            let (slots2, w2) = crate::source_band::put_ref(slots, w, ri, k, n);
            &&& crate::source_rc::all_open(slots2)
            &&& slots2.len() == 8
            &&& w2.wf()
            &&& w2.leads(data) ==> w.leads(data)
        }),
    decreases n - k,
{
    if k < n - 1 {
        crate::source_rc::lemma_put(slots, w, k, ri > k, 4, data);
        let (slots2, w2) = crate::source_rc::put(slots, w, k, ri > k, 4);
        if ri > k {
            lemma_ref(slots2, w2, ri, k + 1, n, data);
        }
    }
}

proof fn lemma_ref_read(slots: Seq<u16>, w: Writing, ri: int, k: int, n: int, r: Reading)
    requires
        crate::source_rc::all_open(slots),
        slots.len() == 8,
        w.wf(),
        0 <= k <= ri < n <= MAXREF,
        w.followed(r),
        crate::source_band::put_ref(slots, w, ri, k, n).1.leads(r.data),
    ensures
        ({
            let (slots2, w2) = crate::source_band::put_ref(slots, w, ri, k, n);
            let (i, slots3, r2) = crate::source_band::get_ref(slots, r, k, n);
            i == ri && slots3 == slots2 && w2.followed(r2) && r2.data == r.data
        }),
    decreases n - k,
{
    if k < n - 1 {
        crate::source_rc::lemma_put(slots, w, k, ri > k, 4, r.data);
        let (slots2, w2) = crate::source_rc::put(slots, w, k, ri > k, 4);
        if ri > k {
            lemma_ref(slots2, w2, ri, k + 1, n, r.data);
        }
        crate::source_rc::lemma_put_get(slots, w, k, ri > k, 4, r);
        let (b, slots3, r2) = crate::source_rc::get(slots, r, k, 4);
        if ri > k {
            lemma_ref_read(slots2, w2, ri, k + 1, n, r2);
        }
    }
}

/// A way to predict, of `n` pictures.
spec fn sensible(d: Decision, n: int) -> bool {
    &&& d.mode < 4
    &&& d.mv.below(REACH as int)
    &&& d.ri < n
    &&& d.mode < TCOPY ==> d.mv == crate::source_search::still() && d.ri == 0
}

proof fn lemma_head(m: Learned, w: Writing, ctx: int, d: Decision, near: Shift, n: int, data: Seq<u8>)
    requires
        m.wf(),
        w.wf(),
        0 <= ctx < 16,
        sensible(d, n),
        near.below(REACH as int),
        1 <= n <= MAXREF,
    ensures
        ({
            let (m2, w2) = crate::source_band::put_head(m, w, ctx, d, near, n);
            &&& m2.wf()
            &&& w2.wf()
            &&& m2.res == m.res
            &&& w2.leads(data) ==> w.leads(data)
        }),
{
    let later = d.mode >= TCOPY;
    let at = ctx * 4 + 1 + if later {
        1int
    } else {
        0
    };
    crate::source_rc::lemma_put(m.mode, w, ctx * 4, later, 4, data);
    let (mode, w1) = crate::source_rc::put(m.mode, w, ctx * 4, later, 4);
    crate::source_rc::lemma_put(mode, w1, at, d.mode % 2 == 1, 4, data);
    let (mode, w2) = crate::source_rc::put(mode, w1, at, d.mode % 2 == 1, 4);
    if later {
        lemma_ref(m.refi, w2, d.ri as int, 0, n, data);
        let (refi, w3) = crate::source_band::put_ref(m.refi, w2, d.ri as int, 0, n);
        crate::source_rc::lemma_residual(m.mv, 2, w3, 0, d.mv.dy - near.dy, data);
        let (mv, w4) = m.mv.encode(w3, 0, d.mv.dy - near.dy);
        crate::source_rc::lemma_residual(mv, 2, w4, 1, d.mv.dx - near.dx, data);
    }
}

proof fn lemma_head_read(m: Learned, w: Writing, ctx: int, d: Decision, near: Shift, n: int, r: Reading)
    requires
        m.wf(),
        w.wf(),
        0 <= ctx < 16,
        sensible(d, n),
        near.below(REACH as int),
        1 <= n <= MAXREF,
        w.followed(r),
        crate::source_band::put_head(m, w, ctx, d, near, n).1.leads(r.data),
    ensures
        ({
            let (m2, w2) = crate::source_band::put_head(m, w, ctx, d, near, n);
            let (e, m3, r2) = crate::source_band::get_head(m, r, ctx, near, n);
            e == d && m3 == m2 && w2.followed(r2) && r2.data == r.data
        }),
{
    let data = r.data;
    let later = d.mode >= TCOPY;
    let at = ctx * 4 + 1 + if later {
        1int
    } else {
        0
    };
    let (mode1, w1) = crate::source_rc::put(m.mode, w, ctx * 4, later, 4);
    let (mode2, w2) = crate::source_rc::put(mode1, w1, at, d.mode % 2 == 1, 4);
    crate::source_rc::lemma_put(m.mode, w, ctx * 4, later, 4, data);
    crate::source_rc::lemma_put(mode1, w1, at, d.mode % 2 == 1, 4, data);
    if later {
        let (refi, w3) = crate::source_band::put_ref(m.refi, w2, d.ri as int, 0, n);
        let (mv, w4) = m.mv.encode(w3, 0, d.mv.dy - near.dy);
        lemma_ref(m.refi, w2, d.ri as int, 0, n, data);
        crate::source_rc::lemma_residual(m.mv, 2, w3, 0, d.mv.dy - near.dy, data);
        crate::source_rc::lemma_residual(mv, 2, w4, 1, d.mv.dx - near.dx, data);
    }
    crate::source_rc::lemma_put_get(m.mode, w, ctx * 4, later, 4, r);
    let (b1, mode1b, r1) = crate::source_rc::get(m.mode, r, ctx * 4, 4);
    crate::source_rc::lemma_put_get(mode1, w1, at, d.mode % 2 == 1, 4, r1);
    let (b2, mode2b, r2) = crate::source_rc::get(mode1, r1, at, 4);
    if later {
        let (refi, w3) = crate::source_band::put_ref(m.refi, w2, d.ri as int, 0, n);
        lemma_ref_read(m.refi, w2, d.ri as int, 0, n, r2);
        let (i, refi3, r3) = crate::source_band::get_ref(m.refi, r2, 0, n);
        crate::source_rc::law_residual_round_trip(m.mv, 2, w3, 0, d.mv.dy - near.dy, r3);
        let (mv, w4) = m.mv.encode(w3, 0, d.mv.dy - near.dy);
        let (dy, mv4, r4) = m.mv.decode(r3, 0);
        crate::source_rc::law_residual_round_trip(mv, 2, w4, 1, d.mv.dx - near.dx, r4);
    }
}

/// Whether a pixel comes before pixel number `k` of a block.
spec fn before(c: int, y: int, x: int, by: int, bx: int, k: int) -> bool {
    y / 8 < by || (y / 8 == by && (x / 8 < bx || (x / 8 == bx && (y % 8) * 32 + (x % 8) * 4 + c < k)))
}

/// Whether two pictures are the same up to pixel number `k` of a block.
spec fn agree(a: Image, b: Image, by: int, bx: int, k: int) -> bool {
    &&& a.wf()
    &&& b.wf()
    &&& a.w == b.w
    &&& a.h == b.h
    &&& forall|c: int, y: int, x: int|
        a.inside(c, y, x) && before(c, y, x, by, bx, k) ==> #[trigger] a.at(c, y, x) == b.at(c, y, x)
}

proof fn lemma_same_guess(
    a: Image,
    b: Image,
    refs: Seq<Image>,
    b0: int,
    d: Decision,
    by: int,
    bx: int,
    k: int,
)
    requires
        agree(a, b, by, bx, k),
        0 <= b0 <= by,
        0 <= bx,
        by * 8 + 8 <= a.h,
        bx * 8 + 8 <= a.w,
        0 <= k < 256,
    ensures
        crate::source_band::guess(a, refs, b0, d, by, bx, k) == crate::source_band::guess(
            b,
            refs,
            b0,
            d,
            by,
            bx,
            k,
        ),
{
    let (c, y, x) = crate::source_band::dot(by, bx, k);
    assert(y / 8 == by && x / 8 == bx && (y % 8) * 32 + (x % 8) * 4 + c == k);
    if c >= 2 {
        assert(a.inside(1, y, x) && before(1, y, x, by, bx, k));
        assert(a.at(1, y, x) == b.at(1, y, x));
    }
    if x > 0 {
        assert(a.inside(c, y, x - 1) && before(c, y, x - 1, by, bx, k));
        assert(a.at(c, y, x - 1) == b.at(c, y, x - 1));
        assert(a.inside(1, y, x - 1) && before(1, y, x - 1, by, bx, k));
        assert(a.at(1, y, x - 1) == b.at(1, y, x - 1));
    }
    if y > b0 * 8 {
        assert(a.inside(c, y - 1, x) && before(c, y - 1, x, by, bx, k));
        assert(a.at(c, y - 1, x) == b.at(c, y - 1, x));
        assert(a.inside(1, y - 1, x) && before(1, y - 1, x, by, bx, k));
        assert(a.at(1, y - 1, x) == b.at(1, y - 1, x));
        if x > 0 {
            assert(a.inside(c, y - 1, x - 1) && before(c, y - 1, x - 1, by, bx, k));
            assert(a.at(c, y - 1, x - 1) == b.at(c, y - 1, x - 1));
            assert(a.inside(1, y - 1, x - 1) && before(1, y - 1, x - 1, by, bx, k));
            assert(a.at(1, y - 1, x - 1) == b.at(1, y - 1, x - 1));
        }
    }
}

proof fn lemma_agree_step(a: Image, b: Image, by: int, bx: int, k: int, v: u8)
    requires
        agree(a, b, by, bx, k),
        0 <= by,
        0 <= bx,
        by * 8 + 8 <= a.h,
        bx * 8 + 8 <= a.w,
        0 <= k < 256,
        ({
            let (c, y, x) = crate::source_band::dot(by, bx, k);
            v == b.at(c, y, x)
        }),
    ensures
        ({
            let (c, y, x) = crate::source_band::dot(by, bx, k);
            agree(a.with(c, y, x, v), b, by, bx, k + 1)
        }),
{
    let (c, y, x) = crate::source_band::dot(by, bx, k);
    crate::source_planes::lemma_with(a, c, y, x, v);
    let next = a.with(c, y, x, v);
    assert forall|d: int, i: int, j: int|
        next.inside(d, i, j) && before(d, i, j, by, bx, k + 1) implies #[trigger] next.at(d, i, j)
        == b.at(d, i, j) by {
        if d == c && i == y && j == x {
        } else {
            assert(before(d, i, j, by, bx, k));
            assert(a.at(d, i, j) == b.at(d, i, j));
        }
    }
}

proof fn lemma_agree_block(a: Image, b: Image, by: int, bx: int)
    requires
        agree(a, b, by, bx, 256),
    ensures
        agree(a, b, by, bx + 1, 0),
{
    assert forall|c: int, y: int, x: int|
        a.inside(c, y, x) && before(c, y, x, by, bx + 1, 0) implies #[trigger] a.at(c, y, x) == b.at(
        c,
        y,
        x,
    ) by {
        assert(before(c, y, x, by, bx, 256));
    }
}

proof fn lemma_agree_row(a: Image, b: Image, by: int)
    requires
        agree(a, b, by, a.w / 8, 0),
        a.w % 8 == 0,
    ensures
        agree(a, b, by + 1, 0, 0),
{
    assert forall|c: int, y: int, x: int|
        a.inside(c, y, x) && before(c, y, x, by + 1, 0, 0) implies #[trigger] a.at(c, y, x) == b.at(
        c,
        y,
        x,
    ) by {
        assert(before(c, y, x, by, a.w / 8, 0));
    }
}

proof fn lemma_slot(run: Run, mode: usize, c: int, y: int, x: int)
    requires
        run.mag.wf(),
        run.mag.inside(c, y, x),
    ensures
        0 <= run.slot(mode, c, y, x) < 384,
{
    let a = crate::source_band::activity(run.mag, c, y, x);
    assert(0 <= a);
    assert(0 <= crate::source_band::class(a) < 12);
}

/// What is known where the pixels of a block are coded.
spec fn placed(run: Run, cur: Image, refs: Seq<Image>, b0: int, d: Decision, by: int, bx: int) -> bool {
    &&& run.res.wf(384)
    &&& run.mag.wf()
    &&& run.mag.w == cur.w
    &&& cur.wf()
    &&& 0 <= b0 <= by
    &&& 0 <= bx
    &&& by * 8 + 8 <= cur.h
    &&& bx * 8 + 8 <= cur.w
    &&& (by - b0) * 8 + 8 <= run.mag.h
}

proof fn lemma_pixels(
    run: Run,
    w: Writing,
    cur: Image,
    refs: Seq<Image>,
    b0: int,
    d: Decision,
    by: int,
    bx: int,
    k: int,
    data: Seq<u8>,
)
    requires
        placed(run, cur, refs, b0, d, by, bx),
        w.wf(),
        0 <= k <= 256,
    ensures
        ({
            let (run2, w2) = crate::source_band::put_pixels(
                run,
                w,
                cur,
                refs,
                b0,
                d,
                by,
                bx,
                k,
            );
            &&& placed(run2, cur, refs, b0, d, by, bx)
            &&& run2.mag.h == run.mag.h
            &&& w2.wf()
            &&& w2.leads(data) ==> w.leads(data)
        }),
    decreases 256 - k,
{
    if k < 256 {
        let (c, y, x) = crate::source_band::dot(by, bx, k);
        let p = crate::source_band::guess(cur, refs, b0, d, by, bx, k);
        let e = crate::source_planes::wrapped(cur.at(c, y, x) - p);
        lemma_slot(run, d.mode, c, y - b0 * 8, x);
        let slot = run.slot(d.mode, c, y - b0 * 8, x);
        crate::source_rc::lemma_residual(run.res, 384, w, slot, e, data);
        let (res, w2) = run.res.encode(w, slot, e);
        let next = run.after(res, c, y - b0 * 8, x, e);
        crate::source_planes::lemma_with(
            run.mag,
            c,
            y - b0 * 8,
            x,
            next.mag.px[c][y - b0 * 8][x],
        );
        lemma_pixels(next, w2, cur, refs, b0, d, by, bx, k + 1, data);
    }
}

proof fn lemma_pixels_read(
    run: Run,
    w: Writing,
    cur: Image,
    img: Image,
    refs: Seq<Image>,
    b0: int,
    d: Decision,
    by: int,
    bx: int,
    k: int,
    r: Reading,
)
    requires
        placed(run, cur, refs, b0, d, by, bx),
        w.wf(),
        0 <= k <= 256,
        agree(img, cur, by, bx, k),
        w.followed(r),
        crate::source_band::put_pixels(run, w, cur, refs, b0, d, by, bx, k).1.leads(r.data),
    ensures
        ({
            let (run2, w2) = crate::source_band::put_pixels(
                run,
                w,
                cur,
                refs,
                b0,
                d,
                by,
                bx,
                k,
            );
            let (run3, r2, img2) = crate::source_band::get_pixels(
                run,
                r,
                img,
                refs,
                b0,
                d,
                by,
                bx,
                k,
            );
            &&& run3 == run2
            &&& w2.followed(r2)
            &&& r2.data == r.data
            &&& agree(img2, cur, by, bx, 256)
        }),
    decreases 256 - k,
{
    if k < 256 {
        let (c, y, x) = crate::source_band::dot(by, bx, k);
        let p = crate::source_band::guess(cur, refs, b0, d, by, bx, k);
        let e = crate::source_planes::wrapped(cur.at(c, y, x) - p);
        lemma_slot(run, d.mode, c, y - b0 * 8, x);
        let slot = run.slot(d.mode, c, y - b0 * 8, x);
        crate::source_rc::lemma_residual(run.res, 384, w, slot, e, r.data);
        let (res, w2) = run.res.encode(w, slot, e);
        let next = run.after(res, c, y - b0 * 8, x, e);
        crate::source_planes::lemma_with(
            run.mag,
            c,
            y - b0 * 8,
            x,
            next.mag.px[c][y - b0 * 8][x],
        );
        lemma_pixels(next, w2, cur, refs, b0, d, by, bx, k + 1, r.data);
        crate::source_rc::law_residual_round_trip(run.res, 384, w, slot, e, r);
        let (e2, res2, r2) = run.res.decode(r, slot);
        lemma_same_guess(img, cur, refs, b0, d, by, bx, k);
        crate::source_planes::law_error_restores(cur.px[c][y][x], p);
        let v = ((p + e) % 256) as u8;
        lemma_agree_step(img, cur, by, bx, k, v);
        lemma_pixels_read(next, w2, cur, img.with(c, y, x, v), refs, b0, d, by, bx, k + 1, r2);
    }
}

proof fn lemma_copied(img: Image, cur: Image, from: Image, by: int, bx: int, k: int)
    requires
        agree(img, cur, by, bx, k),
        crate::source_search::same_block(cur, from, by, bx),
        0 <= by,
        0 <= bx,
        by * 8 + 8 <= img.h,
        bx * 8 + 8 <= img.w,
        0 <= k <= 256,
    ensures
        agree(crate::source_band::copied(img, from, by, bx, k), cur, by, bx, 256),
    decreases 256 - k,
{
    if k < 256 {
        let (c, y, x) = crate::source_band::dot(by, bx, k);
        assert(cur.at(c, y, x) == from.at(c, y, x));
        let v = from.at(c, y, x) as u8;
        lemma_agree_step(img, cur, by, bx, k, v);
        lemma_copied(img.with(c, y, x, v), cur, from, by, bx, k + 1);
    }
}

/// What is remembered of blocks, of which there are `blocks`.
spec fn sound(past: Past, w: int, blocks: int, rows: int) -> bool {
    &&& past.modes.len() == blocks
    &&& past.mvs.len() == blocks
    &&& past.mag.wf()
    &&& past.mag.w == w
    &&& past.mag.h == rows
    &&& forall|i: int| 0 <= i < blocks ==> (#[trigger] past.modes[i]) < 4
    &&& forall|i: int| 0 <= i < blocks ==> (#[trigger] past.mvs[i]).below(REACH as int)
}

/// What is known where the blocks of a band are coded.
spec fn banded(cur: Image, refs: Seq<Image>, b0: int, end: int, rows: int) -> bool {
    &&& cur.wf()
    &&& cur.w % 8 == 0
    &&& cur.h % 8 == 0
    &&& cur.w >= 8
    &&& 1 <= refs.len() <= MAXREF
    &&& 0 <= b0 <= end <= cur.h / 8
    &&& rows == (end - b0) * 8
}

proof fn lemma_context(past: Past, cur: Image, rows: int, b0: int, by: int, bx: int)
    requires
        sound(past, cur.w, (cur.w / 8) * (cur.h / 8), rows),
        0 <= b0 <= by < cur.h / 8,
        0 <= bx < cur.w / 8,
    ensures
        0 <= past.context(cur.w / 8, b0, by, bx) < 16,
        past.expected(cur.w / 8, b0, by, bx).below(REACH as int),
        0 <= by * (cur.w / 8) + bx < (cur.w / 8) * (cur.h / 8),
{
    let (bw, bh) = (cur.w / 8, cur.h / 8);
    assert(0 <= by * bw && by * bw + bx < bw * bh) by (nonlinear_arith)
        requires
            0 <= by < bh,
            0 <= bx < bw,
    ;
    if by > b0 {
        assert(by * bw >= bw) by (nonlinear_arith)
            requires
                by >= 1,
                bw >= 0,
        ;
        let i = by * bw + bx - bw;
        assert(past.modes[i] < 4);
    }
    if bx > 0 {
        let i = by * bw + bx - 1;
        assert(past.modes[i] < 4);
    }
}

proof fn lemma_block(
    m: Learned,
    w: Writing,
    past: Past,
    cur: Image,
    refs: Seq<Image>,
    b0: int,
    end: int,
    rows: int,
    d: Decision,
    by: int,
    bx: int,
    data: Seq<u8>,
)
    requires
        m.wf(),
        w.wf(),
        banded(cur, refs, b0, end, rows),
        sound(past, cur.w, (cur.w / 8) * (cur.h / 8), rows),
        sensible(d, refs.len() as int),
        b0 <= by < end,
        0 <= bx < cur.w / 8,
    ensures
        ({
            let (m2, w2, past2) = crate::source_band::put_block(
                m,
                w,
                past,
                cur,
                refs,
                b0,
                d,
                by,
                bx,
            );
            &&& m2.wf()
            &&& w2.wf()
            &&& sound(past2, cur.w, (cur.w / 8) * (cur.h / 8), rows)
            &&& w2.leads(data) ==> w.leads(data)
        }),
{
    let bw = cur.w / 8;
    lemma_context(past, cur, rows, b0, by, bx);
    let ctx = past.context(bw, b0, by, bx);
    let near = past.expected(bw, b0, by, bx);
    lemma_head(m, w, ctx, d, near, refs.len() as int, data);
    let (m1, w1) = crate::source_band::put_head(m, w, ctx, d, near, refs.len() as int);
    let noted = past.noted(by * bw + bx, d);
    if d.mode != SAME {
        lemma_pixels(
            Run { res: m1.res, mag: noted.mag, green: 0 },
            w1,
            cur,
            refs,
            b0,
            d,
            by,
            bx,
            0,
            data,
        );
    }
}

proof fn lemma_block_read(
    m: Learned,
    w: Writing,
    past: Past,
    cur: Image,
    img: Image,
    refs: Seq<Image>,
    b0: int,
    end: int,
    rows: int,
    d: Decision,
    by: int,
    bx: int,
    r: Reading,
)
    requires
        m.wf(),
        w.wf(),
        banded(cur, refs, b0, end, rows),
        sound(past, cur.w, (cur.w / 8) * (cur.h / 8), rows),
        sensible(d, refs.len() as int),
        d.mode == SAME ==> crate::source_search::same_block(cur, refs[0], by, bx),
        b0 <= by < end,
        0 <= bx < cur.w / 8,
        agree(img, cur, by, bx, 0),
        w.followed(r),
        crate::source_band::put_block(m, w, past, cur, refs, b0, d, by, bx).1.leads(r.data),
    ensures
        ({
            let (m2, w2, past2) = crate::source_band::put_block(
                m,
                w,
                past,
                cur,
                refs,
                b0,
                d,
                by,
                bx,
            );
            let (m3, r2, past3, img2) = crate::source_band::get_block(
                m,
                r,
                past,
                img,
                refs,
                cur.w / 8,
                b0,
                by,
                bx,
            );
            &&& m3 == m2
            &&& past3 == past2
            &&& w2.followed(r2)
            &&& r2.data == r.data
            &&& agree(img2, cur, by, bx + 1, 0)
        }),
{
    let bw = cur.w / 8;
    let n = refs.len() as int;
    lemma_context(past, cur, rows, b0, by, bx);
    let ctx = past.context(bw, b0, by, bx);
    let near = past.expected(bw, b0, by, bx);
    lemma_head(m, w, ctx, d, near, n, r.data);
    let (m1, w1) = crate::source_band::put_head(m, w, ctx, d, near, n);
    let noted = past.noted(by * bw + bx, d);
    let run = Run { res: m1.res, mag: noted.mag, green: 0 };
    if d.mode != SAME {
        lemma_pixels(run, w1, cur, refs, b0, d, by, bx, 0, r.data);
    }
    lemma_head_read(m, w, ctx, d, near, n, r);
    let (d1, m2, r1) = crate::source_band::get_head(m, r, ctx, near, n);
    if d.mode != SAME {
        lemma_pixels_read(run, w1, cur, img, refs, b0, d, by, bx, 0, r1);
        let (run2, r2, img2) = crate::source_band::get_pixels(
            run,
            r1,
            img,
            refs,
            b0,
            d,
            by,
            bx,
            0,
        );
        lemma_agree_block(img2, cur, by, bx);
    } else {
        lemma_copied(img, cur, refs[0], by, bx, 0);
        lemma_agree_block(crate::source_band::copied(img, refs[0], by, bx, 0), cur, by, bx);
    }
}

/// A plan by which every block of a picture can be predicted.
spec fn workable(plan: Seq<Decision>, cur: Image, refs: Seq<Image>) -> bool {
    forall|by: int, bx: int|
        0 <= by < cur.h / 8 && 0 <= bx < cur.w / 8 ==> crate::source_search::fitting(
            cur,
            refs,
            #[trigger] crate::source_search::entry(plan, cur.w / 8, by, bx),
            by,
            bx,
        )
}

proof fn lemma_blocks(
    m: Learned,
    w: Writing,
    past: Past,
    cur: Image,
    refs: Seq<Image>,
    plan: Seq<Decision>,
    b0: int,
    end: int,
    rows: int,
    by: int,
    bx: int,
    data: Seq<u8>,
)
    requires
        m.wf(),
        w.wf(),
        banded(cur, refs, b0, end, rows),
        sound(past, cur.w, (cur.w / 8) * (cur.h / 8), rows),
        workable(plan, cur, refs),
        b0 <= by,
        0 <= bx,
    ensures
        ({
            let (m2, w2, past2) = crate::source_band::put_blocks(
                m,
                w,
                past,
                cur,
                refs,
                plan,
                b0,
                end,
                by,
                bx,
            );
            &&& m2.wf()
            &&& w2.wf()
            &&& w2.leads(data) ==> w.leads(data)
        }),
    decreases end - by, cur.w / 8 - bx,
{
    let bw = cur.w / 8;
    if by >= end {
    } else if bx >= bw {
        lemma_blocks(m, w, past, cur, refs, plan, b0, end, rows, by + 1, 0, data);
    } else {
        let d = crate::source_search::entry(plan, bw, by, bx);
        assert(crate::source_search::fitting(cur, refs, d, by, bx));
        lemma_block(m, w, past, cur, refs, b0, end, rows, d, by, bx, data);
        let (m2, w2, past2) = crate::source_band::put_block(m, w, past, cur, refs, b0, d, by, bx);
        lemma_blocks(m2, w2, past2, cur, refs, plan, b0, end, rows, by, bx + 1, data);
    }
}

proof fn lemma_blocks_read(
    m: Learned,
    w: Writing,
    past: Past,
    cur: Image,
    img: Image,
    refs: Seq<Image>,
    plan: Seq<Decision>,
    b0: int,
    end: int,
    rows: int,
    by: int,
    bx: int,
    r: Reading,
)
    requires
        m.wf(),
        w.wf(),
        banded(cur, refs, b0, end, rows),
        sound(past, cur.w, (cur.w / 8) * (cur.h / 8), rows),
        workable(plan, cur, refs),
        b0 <= by <= end,
        0 <= bx <= cur.w / 8,
        by == end ==> bx == 0,
        agree(img, cur, by, bx, 0),
        w.followed(r),
        crate::source_band::put_blocks(m, w, past, cur, refs, plan, b0, end, by, bx).1.leads(r.data),
    ensures
        ({
            let (m2, w2, past2) = crate::source_band::put_blocks(
                m,
                w,
                past,
                cur,
                refs,
                plan,
                b0,
                end,
                by,
                bx,
            );
            let (m3, r2, past3, img2) = crate::source_band::get_blocks(
                m,
                r,
                past,
                img,
                refs,
                cur.w / 8,
                b0,
                end,
                by,
                bx,
            );
            &&& m3 == m2
            &&& w2.followed(r2)
            &&& r2.data == r.data
            &&& agree(img2, cur, end, 0, 0)
        }),
    decreases end - by, cur.w / 8 - bx,
{
    let bw = cur.w / 8;
    if by >= end {
    } else if bx >= bw {
        lemma_agree_row(img, cur, by);
        lemma_blocks_read(m, w, past, cur, img, refs, plan, b0, end, rows, by + 1, 0, r);
    } else {
        let d = crate::source_search::entry(plan, bw, by, bx);
        assert(crate::source_search::fitting(cur, refs, d, by, bx));
        lemma_block(m, w, past, cur, refs, b0, end, rows, d, by, bx, r.data);
        let (m2, w2, past2) = crate::source_band::put_block(m, w, past, cur, refs, b0, d, by, bx);
        lemma_blocks(m2, w2, past2, cur, refs, plan, b0, end, rows, by, bx + 1, r.data);
        lemma_block_read(m, w, past, cur, img, refs, b0, end, rows, d, by, bx, r);
        let (m3, r2, past3, img2) = crate::source_band::get_block(
            m,
            r,
            past,
            img,
            refs,
            bw,
            b0,
            by,
            bx,
        );
        lemma_blocks_read(
            m2,
            w2,
            past2,
            cur,
            img2,
            refs,
            plan,
            b0,
            end,
            rows,
            by,
            bx + 1,
            r2,
        );
    }
}

/// A picture that can be coded.
pub open spec fn codable(cur: Image) -> bool {
    &&& cur.wf()
    &&& cur.w >= 8
    &&& cur.h >= 8
    &&& cur.w % 8 == 0
    &&& cur.h % 8 == 0
}

/// What an encoder has come to after any number of pictures.
pub open spec fn settled(s: Coding) -> bool {
    &&& s.bands.len() == STREAMS
    &&& forall|b: int| 0 <= b < STREAMS ==> (#[trigger] s.bands[b]).0.wf() && s.bands[b].1.wf()
    &&& s.refs.len() <= 2
    &&& crate::source_search::all_below(s.moves)
}

/// Whether a decoder has come to where an encoder was.
pub open spec fn in_step(e: Coding, d: Decoding) -> bool {
    &&& d.bands.len() == STREAMS
    &&& d.refs == e.refs
    &&& forall|b: int|
        0 <= b < STREAMS ==> (#[trigger] e.bands[b]).0 == d.bands[b].0 && e.bands[b].1.followed(
            d.bands[b].1,
        )
}

pub proof fn lemma_rows(bh: int, b: int)
    requires
        0 <= bh,
        0 <= b < 8,
    ensures
        ({
            let (b0, b1) = crate::source_band::rows_of(bh, b);
            &&& 0 <= b0 <= b1 <= bh
            &&& b == 0 ==> b0 == 0
            &&& b == 7 ==> b1 == bh
            &&& b < 7 ==> b1 == crate::source_band::rows_of(bh, b + 1).0
        }),
{
    assert(0 <= b * bh && (b + 1) * bh <= 8 * bh && b * bh <= (b + 1) * bh) by (nonlinear_arith)
        requires
            0 <= b < 8,
            0 <= bh,
    ;
    if b == 0 {
        assert(b * bh == 0) by (nonlinear_arith)
            requires
                b == 0,
        ;
    }
    if b == 7 {
        assert((b + 1) * bh == 8 * bh) by (nonlinear_arith)
            requires
                b == 7,
        ;
    }
}

proof fn lemma_none(w: int, blocks: int, rows: int)
    requires
        0 <= w,
        0 <= blocks,
        0 <= rows,
    ensures
        sound(Past::none(w, blocks, rows), w, blocks, rows),
{
    let none = Past::none(w, blocks, rows);
    assert forall|c: int, y: int| 0 <= c < 4 && 0 <= y < rows implies (#[trigger] none.mag.px[c][y]).len()
        == w by {}
}

proof fn lemma_plan(s: Coding, cur: Image, extra: Seq<Image>)
    requires
        settled(s),
        codable(cur),
    ensures
        ({
            let own = crate::source_codec::own_refs(s.refs, cur.w, cur.h);
            let refs = crate::source_codec::reference_list(own, extra, cur.w, cur.h);
            let plan = crate::source_codec::plan_for(s, cur, extra);
            &&& 1 <= own.len() <= 2
            &&& 1 <= refs.len() <= MAXREF
            &&& workable(plan, cur, refs)
            &&& plan.len() == (cur.w / 8) * (cur.h / 8)
            &&& crate::source_search::all_below(Seq::new(plan.len(), |i: int| plan[i].mv))
        }),
{
    let own = crate::source_codec::own_refs(s.refs, cur.w, cur.h);
    let refs = crate::source_codec::reference_list(own, extra, cur.w, cur.h);
    let (bw, bh) = (cur.w / 8, cur.h / 8);
    let prev = crate::source_codec::last_moves(s.moves, bw * bh);
    assert(0 <= bw * bh && bw * bh == bh * bw) by (nonlinear_arith)
        requires
            bw >= 0,
            bh >= 0,
    ;
    crate::source_search::law_plans_fit(cur, refs, own.len() as int, s.light, prev, bh);
    let plan = crate::source_codec::plan_for(s, cur, extra);
    crate::source_codec::lemma_planned(cur, refs, own.len() as int, s.light, prev);
    assert forall|i: int| 0 <= i < plan.len() implies (#[trigger] plan[i]).mv.below(REACH as int) by {}
}

/// Encoding a picture leaves an encoder fit for the next one, and what it has written goes on from
/// what it had written before.
pub proof fn lemma_frame(s: Coding, cur: Image, extra: Seq<Image>)
    requires
        settled(s),
        codable(cur),
    ensures
        settled(crate::source_codec::coded(s, cur, extra)),
        forall|b: int, data: Seq<u8>|
            0 <= b < STREAMS && (#[trigger] crate::source_codec::coded(s, cur, extra).bands[b].1.leads(
                data,
            )) ==> s.bands[b].1.leads(data),
{
    let own = crate::source_codec::own_refs(s.refs, cur.w, cur.h);
    let refs = crate::source_codec::reference_list(own, extra, cur.w, cur.h);
    let plan = crate::source_codec::plan_for(s, cur, extra);
    let next = crate::source_codec::coded(s, cur, extra);
    lemma_plan(s, cur, extra);
    let (bw, bh) = (cur.w / 8, cur.h / 8);
    assert(0 <= bw * bh) by (nonlinear_arith)
        requires
            bw >= 0,
            bh >= 0,
    ;
    assert forall|b: int| 0 <= b < STREAMS implies (#[trigger] next.bands[b]).0.wf() && next.bands[b].1.wf()
        && (forall|data: Seq<u8>| #[trigger] next.bands[b].1.leads(data) ==> s.bands[b].1.leads(data)) by {
        lemma_rows(bh, b);
        let (b0, b1) = crate::source_band::rows_of(bh, b);
        let rows = (b1 - b0) * 8;
        lemma_none(cur.w, bw * bh, rows);
        let none = Past::none(cur.w, bw * bh, rows);
        assert(s.bands[b].0.wf());
        assert forall|data: Seq<u8>| (#[trigger] next.bands[b].1.leads(data) ==> s.bands[b].1.leads(data))
            && next.bands[b].0.wf() && next.bands[b].1.wf() by {
            lemma_blocks(
                s.bands[b].0,
                s.bands[b].1,
                none,
                cur,
                refs,
                plan,
                b0,
                b1,
                rows,
                b0,
                0,
                data,
            );
        }
        let any: Seq<u8> = Seq::empty();
        assert(next.bands[b].1.leads(any) ==> s.bands[b].1.leads(any));
    }
}

proof fn lemma_bands_read(
    e: Coding,
    cur: Image,
    refs: Seq<Image>,
    plan: Seq<Decision>,
    bands: Seq<(Learned, Reading)>,
    img: Image,
    b: int,
)
    requires
        settled(e),
        codable(cur),
        1 <= refs.len() <= MAXREF,
        workable(plan, cur, refs),
        0 <= b <= STREAMS,
        bands.len() == STREAMS,
        agree(
            img,
            cur,
            if b < 8 {
                crate::source_band::rows_of(cur.h / 8, b).0
            } else {
                cur.h / 8
            },
            0,
            0,
        ),
        forall|i: int|
            b <= i < STREAMS ==> (#[trigger] bands[i]).0 == e.bands[i].0 && e.bands[i].1.followed(
                bands[i].1,
            ) && crate::source_codec::band_after(e.bands[i], cur, refs, plan, i).1.leads(
                bands[i].1.data,
            ),
    ensures
        ({
            let (after, img2) = crate::source_codec::read_bands(bands, img, refs, b);
            &&& after.len() == STREAMS
            &&& agree(img2, cur, cur.h / 8, 0, 0)
            &&& forall|i: int|
                0 <= i < STREAMS ==> (#[trigger] after[i]).1.data == bands[i].1.data
            &&& forall|i: int|
                b <= i < STREAMS ==> {
                    let then = crate::source_codec::band_after(e.bands[i], cur, refs, plan, i);
                    (#[trigger] after[i]).0 == then.0 && then.1.followed(after[i].1)
                }
            &&& forall|i: int| 0 <= i < b ==> #[trigger] after[i] == bands[i]
        }),
    decreases STREAMS - b,
{
    if b < STREAMS {
        let (bw, bh) = (cur.w / 8, cur.h / 8);
        assert(0 <= bw * bh) by (nonlinear_arith)
            requires
                bw >= 0,
                bh >= 0,
        ;
        lemma_rows(bh, b);
        let (b0, b1) = crate::source_band::rows_of(bh, b);
        let rows = (b1 - b0) * 8;
        lemma_none(cur.w, bw * bh, rows);
        let none = Past::none(cur.w, bw * bh, rows);
        assert(bands[b].0 == e.bands[b].0);
        lemma_blocks_read(
            e.bands[b].0,
            e.bands[b].1,
            none,
            cur,
            img,
            refs,
            plan,
            b0,
            b1,
            rows,
            b0,
            0,
            bands[b].1,
        );
        let (m, r, past, next) = crate::source_band::get_blocks(
            bands[b].0,
            bands[b].1,
            none,
            img,
            refs,
            bw,
            b0,
            b1,
            b0,
            0,
        );
        lemma_bands_read(e, cur, refs, plan, bands.update(b, (m, r)), next, b + 1);
    }
}

/// A decoder that has come to where an encoder was gives back the picture that the encoder wrote
/// next, and has then come to where the encoder is.
pub proof fn law_picture_comes_back(e: Coding, d: Decoding, cur: Image, extra: Seq<Image>)
    requires
        settled(e),
        codable(cur),
        in_step(e, d),
        forall|b: int|
            0 <= b < STREAMS ==> crate::source_codec::coded(e, cur, extra).bands[b].1.leads(
                (#[trigger] d.bands[b]).1.data,
            ),
    ensures
        ({
            let (got, d2) = crate::source_codec::decoded(d, cur.w, cur.h, extra);
            &&& got == cur
            &&& in_step(crate::source_codec::coded(e, cur, extra), d2)
            &&& forall|b: int| 0 <= b < STREAMS ==> (#[trigger] d2.bands[b]).1.data == d.bands[b].1.data
        }),
{
    let own = crate::source_codec::own_refs(e.refs, cur.w, cur.h);
    let refs = crate::source_codec::reference_list(own, extra, cur.w, cur.h);
    let plan = crate::source_codec::plan_for(e, cur, extra);
    let next = crate::source_codec::coded(e, cur, extra);
    lemma_plan(e, cur, extra);
    let blank = Image::blank(cur.w, cur.h);
    assert(blank.wf()) by {
        assert forall|c: int, y: int| 0 <= c < 4 && 0 <= y < cur.h implies (#[trigger] blank.px[c][y]).len()
            == cur.w by {}
    }
    lemma_rows(cur.h / 8, 0);
    assert forall|i: int| 0 <= i < STREAMS implies (#[trigger] d.bands[i]).0 == e.bands[i].0
        && e.bands[i].1.followed(d.bands[i].1) && crate::source_codec::band_after(
        e.bands[i],
        cur,
        refs,
        plan,
        i,
    ).1.leads(d.bands[i].1.data) by {
        assert(e.bands[i].0 == d.bands[i].0);
        assert(next.bands[i] == crate::source_codec::band_after(e.bands[i], cur, refs, plan, i));
    }
    lemma_bands_read(e, cur, refs, plan, d.bands, blank, 0);
    let (after, got) = crate::source_codec::read_bands(d.bands, blank, refs, 0);
    assert(got == cur) by {
        assert forall|c: int, y: int, x: int| got.inside(c, y, x) implies #[trigger] got.px[c][y][x]
            == cur.px[c][y][x] by {
            assert(before(c, y, x, cur.h / 8, 0, 0));
            assert(got.at(c, y, x) == cur.at(c, y, x));
        }
        assert forall|c: int| 0 <= c < 4 implies #[trigger] got.px[c] == cur.px[c] by {
            assert forall|y: int| 0 <= y < cur.h implies #[trigger] got.px[c][y] == cur.px[c][y] by {
                assert forall|x: int| 0 <= x < cur.w implies got.px[c][y][x] == cur.px[c][y][x] by {
                    assert(got.inside(c, y, x));
                }
                assert(got.px[c][y] =~= cur.px[c][y]);
            }
            assert(got.px[c] =~= cur.px[c]);
        }
        assert(got.px =~= cur.px);
    }
}

/// An encoder after some pictures, each with others that it may be predicted from.
pub open spec fn coded_all(s: Coding, frames: Seq<(Image, Seq<Image>)>) -> Coding
    decreases frames.len(),
{
    if frames.len() == 0 {
        s
    } else {
        coded_all(
            crate::source_codec::coded(s, frames[0].0, frames[0].1),
            frames.skip(1),
        )
    }
}

/// The pictures that a decoder gives, of the shapes of some pictures.
pub open spec fn decoded_all(s: Decoding, frames: Seq<(Image, Seq<Image>)>) -> Seq<Image>
    decreases frames.len(),
{
    if frames.len() == 0 {
        Seq::empty()
    } else {
        let (got, next) = crate::source_codec::decoded(
            s,
            frames[0].0.w,
            frames[0].0.h,
            frames[0].1,
        );
        seq![got] + decoded_all(next, frames.skip(1))
    }
}

proof fn lemma_all(s: Coding, frames: Seq<(Image, Seq<Image>)>)
    requires
        settled(s),
        forall|i: int| 0 <= i < frames.len() ==> codable((#[trigger] frames[i]).0),
    ensures
        settled(coded_all(s, frames)),
        forall|b: int, data: Seq<u8>|
            0 <= b < STREAMS && (#[trigger] coded_all(s, frames).bands[b].1.leads(data))
                ==> s.bands[b].1.leads(data),
    decreases frames.len(),
{
    if frames.len() > 0 {
        let next = crate::source_codec::coded(s, frames[0].0, frames[0].1);
        assert(codable(frames[0].0));
        lemma_frame(s, frames[0].0, frames[0].1);
        assert forall|i: int| 0 <= i < frames.skip(1).len() implies codable(
            (#[trigger] frames.skip(1)[i]).0,
        ) by {
            assert(frames.skip(1)[i] == frames[i + 1]);
        }
        lemma_all(next, frames.skip(1));
        assert forall|b: int, data: Seq<u8>|
            0 <= b < STREAMS && (#[trigger] coded_all(s, frames).bands[b].1.leads(data)) implies s.bands[b].1.leads(
            data,
        ) by {
            assert(coded_all(next, frames.skip(1)).bands[b].1.leads(data));
            assert(next.bands[b].1.leads(data));
        }
    }
}

proof fn lemma_all_read(e: Coding, d: Decoding, frames: Seq<(Image, Seq<Image>)>)
    requires
        settled(e),
        in_step(e, d),
        forall|i: int| 0 <= i < frames.len() ==> codable((#[trigger] frames[i]).0),
        forall|b: int|
            0 <= b < STREAMS ==> coded_all(e, frames).bands[b].1.leads((#[trigger] d.bands[b]).1.data),
    ensures
        decoded_all(d, frames) == Seq::new(frames.len(), |i: int| frames[i].0),
    decreases frames.len(),
{
    if frames.len() > 0 {
        let (cur, extra) = frames[0];
        let rest = frames.skip(1);
        let next = crate::source_codec::coded(e, cur, extra);
        assert(codable(frames[0].0));
        lemma_frame(e, cur, extra);
        assert forall|i: int| 0 <= i < rest.len() implies codable((#[trigger] rest[i]).0) by {
            assert(rest[i] == frames[i + 1]);
        }
        lemma_all(next, rest);
        assert forall|b: int| 0 <= b < STREAMS implies next.bands[b].1.leads(
            (#[trigger] d.bands[b]).1.data,
        ) by {
            assert(coded_all(next, rest).bands[b].1.leads(d.bands[b].1.data));
        }
        law_picture_comes_back(e, d, cur, extra);
        let (got, d2) = crate::source_codec::decoded(d, cur.w, cur.h, extra);
        assert forall|b: int| 0 <= b < STREAMS implies coded_all(next, rest).bands[b].1.leads(
            (#[trigger] d2.bands[b]).1.data,
        ) by {
            assert(d2.bands[b].1.data == d.bands[b].1.data);
            assert(coded_all(e, frames).bands[b].1.leads(d.bands[b].1.data));
        }
        lemma_all_read(next, d2, rest);
        assert(decoded_all(d, frames) =~= Seq::new(frames.len(), |i: int| frames[i].0));
    }
}

/// Decoding what an encoder has written gives back all of its pictures.
pub proof fn law_decode_undoes_encode(light: bool, frames: Seq<(Image, Seq<Image>)>)
    requires
        forall|i: int| 0 <= i < frames.len() ==> codable((#[trigger] frames[i]).0),
        crate::source_codec::finished(coded_all(crate::source_codec::started(light), frames)).len()
            < 0x1_0000_0000,
    ensures
        ({
            let data = crate::source_codec::finished(
                coded_all(crate::source_codec::started(light), frames),
            );
            crate::source_codec::open_stream(data) matches Ok(d) && decoded_all(d, frames) == Seq::new(
                frames.len(),
                |i: int| frames[i].0,
            )
        }),
{
    let start = crate::source_codec::started(light);
    let end = coded_all(start, frames);
    let data = crate::source_codec::finished(end);
    assert forall|b: int| 0 <= b < STREAMS implies (#[trigger] start.bands[b]).0.wf()
        && start.bands[b].1.wf() by {
        assert(start.bands[b].0 == Learned::fresh());
    }
    lemma_all(start, frames);
    let streams = Seq::new(end.bands.len(), |b: int| end.bands[b].1.finish());
    crate::streams::lemma_part_len(streams);
    crate::streams::law_part_undoes_bundle(
        streams,
        "truncated source stream"@,
        "invalid source stream"@,
    );
    let d = crate::source_codec::opened(streams);
    assert forall|b: int| 0 <= b < STREAMS implies (#[trigger] start.bands[b]).0 == d.bands[b].0
        && start.bands[b].1.followed(d.bands[b].1) && d.bands[b].1.data == streams[b]
        && end.bands[b].1.leads(streams[b]) by {
        assert(end.bands[b].1.wf());
        crate::source_rc::law_finish_leads(end.bands[b].1);
        assert(coded_all(start, frames).bands[b].1.leads(streams[b]));
        assert(start.bands[b].1 == Writing::start());
        crate::source_rc::law_start(streams[b]);
    }
    assert forall|b: int| 0 <= b < STREAMS implies end.bands[b].1.leads(
        (#[trigger] d.bands[b]).1.data,
    ) by {
        assert(start.bands[b].0 == d.bands[b].0);
    }
    lemma_all_read(start, d, frames);
}

}
