//! The errors of frames come back as they were written.

use crate::source_frames::{Expectation, Sight};
use crate::source_rc::{Reading, Writing};
use crate::source_residual::{Field, Lore, STRENGTHS, TIMES};
use crate::streams::STREAMS;
use vstd::prelude::*;

verus! {

/// Whether what is known of errors is whole.
pub open spec fn sound(m: Lore) -> bool {
    m.spatial.wf(STRENGTHS as int) && m.temporal.wf(TIMES as int)
}

/// Writes one error of a block.
#[verifier::opaque]
spec fn one_put(m: Lore, s: Writing, f: Field, resid: Seq<i16>, hit: Option<Seq<i16>>, at: int, k: int) -> (
    Lore,
    Writing,
) {
    match hit {
        Some(other) => {
            let (temporal, s1) = m.temporal.encode(
                s,
                crate::source_residual::time_context(k),
                resid[at] - other[at],
            );
            (Lore { temporal, ..m }, s1)
        },
        None => {
            let (spatial, s1) = m.spatial.encode(
                s,
                crate::source_residual::strength_context(f.expected, at, k),
                crate::source_residual::turned(resid[at] as int, f.expected.negative[at]),
            );
            (Lore { spatial, ..m }, s1)
        },
    }
}

/// Reads one error of a block.
#[verifier::opaque]
spec fn one_got(m: Lore, s: Reading, f: Field, hit: Option<Seq<i16>>, at: int, k: int) -> (
    Lore,
    Reading,
    i16,
) {
    match hit {
        Some(other) => {
            let (v, temporal, s1) = m.temporal.decode(s, crate::source_residual::time_context(k));
            (Lore { temporal, ..m }, s1, crate::source_frames::wrap16(other[at] + v) as i16)
        },
        None => {
            let (v, spatial, s1) = m.spatial.decode(
                s,
                crate::source_residual::strength_context(f.expected, at, k),
            );
            (
                Lore { spatial, ..m },
                s1,
                crate::source_frames::wrap16(
                    crate::source_residual::turned(v, f.expected.negative[at]),
                ) as i16,
            )
        },
    }
}

proof fn lemma_put_next(
    m: Lore,
    s: Writing,
    f: Field,
    resid: Seq<i16>,
    hit: Option<Seq<i16>>,
    by: int,
    bx: int,
    k: int,
)
    requires
        k < 192,
    ensures
        ({
            let at = crate::source_residual::place(f.w, f.n, by, bx, k);
            let (m1, s1) = one_put(m, s, f, resid, hit, at, k);
            crate::source_residual::put_block(m, s, f, resid, hit, by, bx, k)
                == crate::source_residual::put_block(m1, s1, f, resid, hit, by, bx, k + 1)
        }),
{
    reveal(one_put);
}

proof fn lemma_get_next(
    m: Lore,
    s: Reading,
    f: Field,
    got: Seq<i16>,
    hit: Option<Seq<i16>>,
    by: int,
    bx: int,
    k: int,
)
    requires
        k < 192,
    ensures
        ({
            let at = crate::source_residual::place(f.w, f.n, by, bx, k);
            let (m1, s1, r) = one_got(m, s, f, hit, at, k);
            crate::source_residual::get_block(m, s, f, got, hit, by, bx, k)
                == crate::source_residual::get_block(m1, s1, f, got.update(at, r), hit, by, bx, k + 1)
        }),
{
    reveal(one_got);
}

proof fn lemma_one(
    m: Lore,
    s: Writing,
    f: Field,
    resid: Seq<i16>,
    hit: Option<Seq<i16>>,
    at: int,
    k: int,
    data: Seq<u8>,
)
    requires
        sound(m),
        s.wf(),
        0 <= k < 192,
    ensures
        ({
            let (m1, s1) = one_put(m, s, f, resid, hit, at, k);
            sound(m1) && s1.wf() && (s1.leads(data) ==> s.leads(data))
        }),
{
    reveal(one_put);
    match hit {
        Some(other) => {
            let c = crate::source_residual::time_context(k);
            crate::source_rc::lemma_residual(
                m.temporal,
                TIMES as int,
                s,
                c,
                resid[at] - other[at],
                data,
            );
        },
        None => {
            let c = crate::source_residual::strength_context(f.expected, at, k);
            let v = crate::source_residual::turned(resid[at] as int, f.expected.negative[at]);
            crate::source_rc::lemma_residual(m.spatial, STRENGTHS as int, s, c, v, data);
        },
    }
}

proof fn lemma_one_read(
    m: Lore,
    s: Writing,
    f: Field,
    resid: Seq<i16>,
    hit: Option<Seq<i16>>,
    at: int,
    k: int,
    r: Reading,
)
    requires
        sound(m),
        s.wf(),
        0 <= k < 192,
        s.followed(r),
        one_put(m, s, f, resid, hit, at, k).1.leads(r.data),
    ensures
        ({
            let (m1, s1) = one_put(m, s, f, resid, hit, at, k);
            let (n1, r1, v) = one_got(m, r, f, hit, at, k);
            n1 == m1 && s1.followed(r1) && r1.data == r.data && v == resid[at]
        }),
{
    reveal(one_put);
    reveal(one_got);
    match hit {
        Some(other) => {
            let c = crate::source_residual::time_context(k);
            let v = resid[at] - other[at];
            crate::source_rc::law_residual_round_trip(m.temporal, TIMES as int, s, c, v, r);
            assert(crate::source_frames::wrap16(other[at] + v) == resid[at]);
        },
        None => {
            let c = crate::source_residual::strength_context(f.expected, at, k);
            let v = crate::source_residual::turned(resid[at] as int, f.expected.negative[at]);
            crate::source_rc::law_residual_round_trip(m.spatial, STRENGTHS as int, s, c, v, r);
            assert(crate::source_residual::turned(v, f.expected.negative[at]) == resid[at]);
        },
    }
}

proof fn lemma_block(
    m: Lore,
    s: Writing,
    f: Field,
    resid: Seq<i16>,
    hit: Option<Seq<i16>>,
    by: int,
    bx: int,
    k: int,
    data: Seq<u8>,
)
    requires
        sound(m),
        s.wf(),
        0 <= k,
    ensures
        ({
            let (m2, s2) = crate::source_residual::put_block(m, s, f, resid, hit, by, bx, k);
            sound(m2) && s2.wf() && (s2.leads(data) ==> s.leads(data))
        }),
    decreases 192 - k,
{
    if k < 192 {
        let at = crate::source_residual::place(f.w, f.n, by, bx, k);
        let (m1, s1) = one_put(m, s, f, resid, hit, at, k);
        lemma_one(m, s, f, resid, hit, at, k, data);
        lemma_block(m1, s1, f, resid, hit, by, bx, k + 1, data);
        lemma_put_next(m, s, f, resid, hit, by, bx, k);
    }
}

/// Whether errors that hold already stay.
spec fn keeps(got: Seq<i16>, then_got: Seq<i16>, resid: Seq<i16>) -> bool {
    &&& then_got.len() == got.len()
    &&& forall|i: int| 0 <= i < got.len() && got[i] == resid[i] ==> #[trigger] then_got[i] == resid[i]
}

/// Whether error number `k` of a block holds.
spec fn holds(f: Field, got: Seq<i16>, resid: Seq<i16>, by: int, bx: int, k: int) -> bool {
    got[crate::source_residual::place(f.w, f.n, by, bx, k)] == resid[crate::source_residual::place(
        f.w,
        f.n,
        by,
        bx,
        k,
    )]
}

/// Whether the errors of a block have places.
spec fn housed(f: Field, len: int, by: int, bx: int) -> bool {
    forall|k: int|
        0 <= k < 192 ==> 0 <= #[trigger] crate::source_residual::place(f.w, f.n, by, bx, k) < len
}

proof fn lemma_block_read(
    m: Lore,
    s: Writing,
    f: Field,
    resid: Seq<i16>,
    hit: Option<Seq<i16>>,
    by: int,
    bx: int,
    k: int,
    r: Reading,
    got: Seq<i16>,
)
    requires
        sound(m),
        s.wf(),
        0 <= k,
        s.followed(r),
        crate::source_residual::put_block(m, s, f, resid, hit, by, bx, k).1.leads(r.data),
        got.len() == resid.len(),
        housed(f, got.len() as int, by, bx),
    ensures
        ({
            let (m2, s2) = crate::source_residual::put_block(m, s, f, resid, hit, by, bx, k);
            let (n2, r2, g2) = crate::source_residual::get_block(m, r, f, got, hit, by, bx, k);
            &&& n2 == m2
            &&& s2.followed(r2)
            &&& r2.data == r.data
            &&& keeps(got, g2, resid)
            &&& forall|j: int| k <= j < 192 ==> #[trigger] holds(f, g2, resid, by, bx, j)
        }),
    decreases 192 - k,
{
    if k < 192 {
        let at = crate::source_residual::place(f.w, f.n, by, bx, k);
        assert(0 <= at < got.len());
        let (m1, s1) = one_put(m, s, f, resid, hit, at, k);
        lemma_put_next(m, s, f, resid, hit, by, bx, k);
        lemma_one(m, s, f, resid, hit, at, k, r.data);
        lemma_block(m1, s1, f, resid, hit, by, bx, k + 1, r.data);
        lemma_one_read(m, s, f, resid, hit, at, k, r);
        let (n1, r1, v) = one_got(m, r, f, hit, at, k);
        let next = got.update(at, v);
        lemma_get_next(m, r, f, got, hit, by, bx, k);
        lemma_block_read(m1, s1, f, resid, hit, by, bx, k + 1, r1, next);
        let g2 = crate::source_residual::get_block(m1, r1, f, next, hit, by, bx, k + 1).2;
        assert(next[at] == resid[at]);
        assert(g2[at] == resid[at]);
        assert forall|i: int| 0 <= i < got.len() && got[i] == resid[i] implies #[trigger] g2[i]
            == resid[i] by {
            assert(next[i] == resid[i]);
        }
        assert(holds(f, g2, resid, by, bx, k));
    }
}

proof fn lemma_blocks(
    m: Lore,
    s: Writing,
    f: Field,
    cands: Seq<Sight>,
    now: Sight,
    end: int,
    by: int,
    bx: int,
    data: Seq<u8>,
)
    requires
        sound(m),
        s.wf(),
    ensures
        ({
            let (m2, s2) = crate::source_residual::put_blocks(m, s, f, cands, now, end, by, bx);
            sound(m2) && s2.wf() && (s2.leads(data) ==> s.leads(data))
        }),
    decreases end - by, f.w / 8 - bx,
{
    if by >= end {
    } else if bx >= f.w / 8 {
        lemma_blocks(m, s, f, cands, now, end, by + 1, 0, data);
    } else {
        let hit = crate::source_residual::hit_at(cands, now.picture, now.qmb, by, bx);
        lemma_block(m, s, f, now.resid, hit, by, bx, 0, data);
        let (m1, s1) = crate::source_residual::put_block(m, s, f, now.resid, hit, by, bx, 0);
        lemma_blocks(m1, s1, f, cands, now, end, by, bx + 1, data);
    }
}

/// Whether a block comes at row `by` and column `bx` or behind them, and before row `end`.
spec fn from(f: Field, end: int, by: int, bx: int, y: int, x: int) -> bool {
    (by < y < end || (y == by && y < end && bx <= x)) && 0 <= x < f.w / 8
}

/// The frame whose errors are coded.
spec fn framed(f: Field, now: Sight) -> bool {
    &&& 16 <= f.w <= 8192
    &&& 16 <= now.picture.h <= 8192
    &&& f.w == now.picture.w
    &&& f.n == f.w * now.picture.h
    &&& now.resid.len() == 3 * f.n
}

proof fn lemma_blocks_read(
    m: Lore,
    s: Writing,
    f: Field,
    cands: Seq<Sight>,
    now: Sight,
    end: int,
    by: int,
    bx: int,
    r: Reading,
    part: Sight,
)
    requires
        sound(m),
        s.wf(),
        s.followed(r),
        crate::source_residual::put_blocks(m, s, f, cands, now, end, by, bx).1.leads(r.data),
        framed(f, now),
        part.picture == now.picture,
        part.qmb == now.qmb,
        part.resid.len() == now.resid.len(),
        0 <= by,
        0 <= bx,
        end * 8 <= now.picture.h,
    ensures
        ({
            let (m2, s2) = crate::source_residual::put_blocks(m, s, f, cands, now, end, by, bx);
            let (n2, r2, g2) = crate::source_residual::get_blocks(m, r, f, cands, part, end, by, bx);
            &&& n2 == m2
            &&& s2.followed(r2)
            &&& r2.data == r.data
            &&& keeps(part.resid, g2, now.resid)
            &&& forall|y: int, x: int, j: int|
                0 <= j < 192 && from(f, end, by, bx, y, x) ==> #[trigger] holds(f, g2, now.resid, y, x, j)
        }),
    decreases end - by, f.w / 8 - bx,
{
    if by >= end {
    } else if bx >= f.w / 8 {
        lemma_blocks_read(m, s, f, cands, now, end, by + 1, 0, r, part);
        let g2 = crate::source_residual::get_blocks(m, r, f, cands, part, end, by, bx).2;
        assert forall|y: int, x: int, j: int| 0 <= j < 192 && from(f, end, by, bx, y, x) implies #[trigger] holds(
            f,
            g2,
            now.resid,
            y,
            x,
            j,
        ) by {
            assert(from(f, end, by + 1, 0, y, x));
        }
    } else {
        let hit = crate::source_residual::hit_at(cands, now.picture, now.qmb, by, bx);
        lemma_block(m, s, f, now.resid, hit, by, bx, 0, r.data);
        let (m1, s1) = crate::source_residual::put_block(m, s, f, now.resid, hit, by, bx, 0);
        lemma_blocks(m1, s1, f, cands, now, end, by, bx + 1, r.data);
        assert(housed(f, part.resid.len() as int, by, bx)) by {
            assert forall|k: int| 0 <= k < 192 implies 0 <= #[trigger] crate::source_residual::place(
                f.w,
                f.n,
                by,
                bx,
                k,
            ) < part.resid.len() by {
                crate::source_residual::lemma_place(f.w, now.picture.h, by, bx, k);
            }
        }
        lemma_block_read(m, s, f, now.resid, hit, by, bx, 0, r, part.resid);
        let (n1, r1, g1) = crate::source_residual::get_block(m, r, f, part.resid, hit, by, bx, 0);
        let next = Sight { resid: g1, ..part };
        lemma_blocks_read(m1, s1, f, cands, now, end, by, bx + 1, r1, next);
        let g2 = crate::source_residual::get_blocks(m1, r1, f, cands, next, end, by, bx + 1).2;
        assert(keeps(part.resid, g2, now.resid));
        assert forall|y: int, x: int, j: int| 0 <= j < 192 && from(f, end, by, bx, y, x) implies #[trigger] holds(
            f,
            g2,
            now.resid,
            y,
            x,
            j,
        ) by {
            if y == by && x == bx {
                assert(holds(f, g1, now.resid, by, bx, j));
                let at = crate::source_residual::place(f.w, f.n, by, bx, j);
                assert(0 <= at < part.resid.len());
                assert(g2[at] == now.resid[at]);
            } else {
                assert(from(f, end, by, bx + 1, y, x));
            }
        }
    }
}

/// Whether bands of errors can be written to.
pub open spec fn settled(e: Seq<(Lore, Writing)>) -> bool {
    &&& e.len() == STREAMS
    &&& forall|b: int| 0 <= b < STREAMS ==> sound((#[trigger] e[b]).0) && e[b].1.wf()
}

/// Whether bands of errors have been read as far as others have been written.
pub open spec fn in_step(e: Seq<(Lore, Writing)>, d: Seq<(Lore, Reading)>) -> bool {
    &&& d.len() == STREAMS
    &&& forall|b: int| 0 <= b < STREAMS ==> (#[trigger] e[b]).0 == d[b].0 && e[b].1.followed(d[b].1)
}

/// Writing the errors of a frame keeps bands of errors whole, and only adds to what they hold.
pub proof fn lemma_frame(e: Seq<(Lore, Writing)>, expected: Expectation, cands: Seq<Sight>, now: Sight)
    requires
        settled(e),
    ensures
        settled(crate::source_residual::put_frame(e, expected, cands, now)),
        forall|b: int, data: Seq<u8>|
            0 <= b < STREAMS && (#[trigger] crate::source_residual::put_frame(e, expected, cands, now)[b].1.leads(
                data,
            )) ==> e[b].1.leads(data),
{
    let f = crate::source_residual::field_of(now.picture, expected);
    let after = crate::source_residual::put_frame(e, expected, cands, now);
    assert forall|b: int| 0 <= b < STREAMS implies sound((#[trigger] after[b]).0) && after[b].1.wf() by {
        let (b0, b1) = crate::source_band::rows_of(now.picture.h / 8, b);
        assert(sound(e[b].0));
        lemma_blocks(e[b].0, e[b].1, f, cands, now, b1, b0, 0, Seq::empty());
    }
    assert forall|b: int, data: Seq<u8>| 0 <= b < STREAMS && (#[trigger] after[b].1.leads(data)) implies e[b].1.leads(
        data,
    ) by {
        let (b0, b1) = crate::source_band::rows_of(now.picture.h / 8, b);
        assert(sound(e[b].0));
        lemma_blocks(e[b].0, e[b].1, f, cands, now, b1, b0, 0, data);
    }
}

proof fn lemma_bands_read(
    e: Seq<(Lore, Writing)>,
    d: Seq<(Lore, Reading)>,
    expected: Expectation,
    cands: Seq<Sight>,
    now: Sight,
    part: Sight,
    b: int,
)
    requires
        settled(e),
        d.len() == STREAMS,
        0 <= b <= STREAMS,
        forall|i: int| b <= i < STREAMS ==> (#[trigger] d[i]).0 == e[i].0 && e[i].1.followed(d[i].1),
        forall|i: int|
            b <= i < STREAMS ==> crate::source_residual::put_frame(e, expected, cands, now)[i].1.leads(
                (#[trigger] d[i]).1.data,
            ),
        framed(crate::source_residual::field_of(now.picture, expected), now),
        part.picture == now.picture,
        part.qmb == now.qmb,
        part.resid.len() == now.resid.len(),
    ensures
        ({
            let f = crate::source_residual::field_of(now.picture, expected);
            let after = crate::source_residual::put_frame(e, expected, cands, now);
            let (d2, g2) = crate::source_residual::get_frame(d, expected, cands, part, b);
            let bh = now.picture.h / 8;
            &&& d2.len() == STREAMS
            &&& forall|i: int| 0 <= i < b ==> #[trigger] d2[i] == d[i]
            &&& forall|i: int|
                b <= i < STREAMS ==> (#[trigger] d2[i]).0 == after[i].0 && after[i].1.followed(d2[i].1)
                    && d2[i].1.data == d[i].1.data
            &&& keeps(part.resid, g2, now.resid)
            &&& b < STREAMS ==> forall|y: int, x: int, j: int|
                0 <= j < 192 && from(f, bh, crate::source_band::rows_of(bh, b).0, 0, y, x)
                    ==> #[trigger] holds(f, g2, now.resid, y, x, j)
        }),
    decreases STREAMS - b,
{
    if b < STREAMS {
        let f = crate::source_residual::field_of(now.picture, expected);
        let after = crate::source_residual::put_frame(e, expected, cands, now);
        let bh = now.picture.h / 8;
        let (b0, b1) = crate::source_band::rows_of(bh, b);
        crate::source_law::lemma_rows(bh, b);
        assert(d[b].0 == e[b].0);
        assert(sound(e[b].0));
        lemma_blocks_read(e[b].0, e[b].1, f, cands, now, b1, b0, 0, d[b].1, part);
        let (m, s, resid) = crate::source_residual::get_blocks(
            d[b].0,
            d[b].1,
            f,
            cands,
            part,
            b1,
            b0,
            0,
        );
        let next = d.update(b, (m, s));
        let more = Sight { resid, ..part };
        assert forall|i: int| b + 1 <= i < STREAMS implies (#[trigger] next[i]).0 == e[i].0 && e[i].1.followed(
            next[i].1,
        ) && after[i].1.leads(next[i].1.data) by {
            assert(next[i] == d[i]);
        }
        lemma_bands_read(e, next, expected, cands, now, more, b + 1);
        let (d2, g2) = crate::source_residual::get_frame(next, expected, cands, more, b + 1);
        assert(d2[b] == next[b]);
        assert forall|i: int| 0 <= i < b implies #[trigger] d2[i] == d[i] by {
            assert(d2[i] == next[i]);
        }
        assert forall|i: int| b <= i < STREAMS implies (#[trigger] d2[i]).0 == after[i].0
            && after[i].1.followed(d2[i].1) && d2[i].1.data == d[i].1.data by {
            if i > b {
                assert(next[i] == d[i]);
            }
        }
        assert forall|y: int, x: int, j: int| 0 <= j < 192 && from(f, bh, b0, 0, y, x) implies #[trigger] holds(
            f,
            g2,
            now.resid,
            y,
            x,
            j,
        ) by {
            if y < b1 {
                assert(from(f, b1, b0, 0, y, x));
                assert(holds(f, resid, now.resid, y, x, j));
                crate::source_residual::lemma_place(f.w, now.picture.h, y, x, j);
                let at = crate::source_residual::place(f.w, f.n, y, x, j);
                assert(g2[at] == now.resid[at]);
            } else {
                assert(from(f, bh, b1, 0, y, x));
            }
        }
    }
}

proof fn lemma_covered(w: int, h: int, i: int) -> (at: (int, int, int))
    requires
        16 <= w <= 8192,
        16 <= h <= 8192,
        w % 8 == 0,
        h % 8 == 0,
        0 <= i < 3 * (w * h),
    ensures
        0 <= at.0 < h / 8,
        0 <= at.1 < w / 8,
        0 <= at.2 < 192,
        crate::source_residual::place(w, w * h, at.0, at.1, at.2) == i,
{
    let n = w * h;
    assert(n > 0) by (nonlinear_arith)
        requires
            n == w * h,
            w >= 16,
            h >= 16,
    ;
    let p = i / n;
    let q = i % n;
    assert(0 <= p <= 2 && 0 <= q < n && i == p * n + q) by (nonlinear_arith)
        requires
            n > 0,
            0 <= i < 3 * n,
            p == i / n,
            q == i % n,
    ;
    let row = q / w;
    let col = q % w;
    assert(0 <= row < h && 0 <= col < w && q == row * w + col) by (nonlinear_arith)
        requires
            0 <= q < w * h,
            w >= 16,
            row == q / w,
            col == q % w,
    ;
    let k = p * 64 + row % 8 * 8 + col % 8;
    assert(k / 64 == p && k / 8 % 8 == row % 8 && k % 8 == col % 8);
    assert(row / 8 * 8 + k / 8 % 8 == row);
    assert(col / 8 * 8 + k % 8 == col);
    (row / 8, col / 8, k)
}

/// Where bands of errors have been read as far as they were written before a frame, they give back
/// the errors of the frame, and have then been read as far as they were written after it.
pub proof fn law_errors_come_back(
    e: Seq<(Lore, Writing)>,
    d: Seq<(Lore, Reading)>,
    expected: Expectation,
    cands: Seq<Sight>,
    now: Sight,
    part: Sight,
)
    requires
        settled(e),
        in_step(e, d),
        forall|b: int|
            0 <= b < STREAMS ==> crate::source_residual::put_frame(e, expected, cands, now)[b].1.leads(
                (#[trigger] d[b]).1.data,
            ),
        crate::source_frames::shaped(now.picture),
        now.resid.len() == 3 * (now.picture.w * now.picture.h),
        part.picture == now.picture,
        part.qmb == now.qmb,
        part.resid.len() == now.resid.len(),
    ensures
        ({
            let (d2, resid) = crate::source_residual::get_frame(d, expected, cands, part, 0);
            &&& resid == now.resid
            &&& in_step(crate::source_residual::put_frame(e, expected, cands, now), d2)
            &&& forall|b: int| 0 <= b < STREAMS ==> (#[trigger] d2[b]).1.data == d[b].1.data
        }),
{
    let f = crate::source_residual::field_of(now.picture, expected);
    assert forall|i: int| 0 <= i < STREAMS implies (#[trigger] d[i]).0 == e[i].0 && e[i].1.followed(d[i].1) by {
        assert(e[i].0 == d[i].0);
    }
    lemma_bands_read(e, d, expected, cands, now, part, 0);
    let (d2, resid) = crate::source_residual::get_frame(d, expected, cands, part, 0);
    let bh = now.picture.h / 8;
    crate::source_law::lemma_rows(bh, 0);
    assert forall|i: int| 0 <= i < now.resid.len() implies resid[i] == now.resid[i] by {
        let at = lemma_covered(now.picture.w, now.picture.h, i);
        assert(from(f, bh, 0, 0, at.0, at.1));
        assert(holds(f, resid, now.resid, at.0, at.1, at.2));
    }
    assert(resid =~= now.resid);
}

}
