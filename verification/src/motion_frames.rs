//! Prediction of the frames of a movie, each from the one before it.

use crate::monitor::{Monitor, Share};
use crate::motion_pixels::{render, FRAME, H, PLANE, W};
use crate::motion_search::{decide, predict, search_offsets, take_triple, Decision, Frames};
use crate::mov_cross::Quant;
use crate::wire::{fail, Outcome};
use vstd::prelude::*;

verus! {

broadcast use {
    crate::monitor::lemma_climbs_on,
    crate::monitor::lemma_climbs_join,
    crate::monitor::lemma_climbs_up,
};

/// How much of `k` units is done before a row of blocks, where each of `count` frames has 126 rows.
pub open spec fn by_rows(k: int, row: int, count: int) -> int {
    row * k / (count * 126)
}

proof fn lemma_by_rows(k: int, f: int, count: int)
    requires
        0 <= f,
        0 < count,
        0 <= k,
    ensures
        by_rows(k, f * 126, count) == f * k / count,
{
    assert(0 <= f * k && f * 126 * k == 126 * (f * k)) by (nonlinear_arith)
        requires
            0 <= f,
            0 <= k,
    ;
    vstd::arithmetic::div_mod::lemma_div_multiples_vanish_quotient(126, f * k, count);
}

/// The coefficients of frame `f`.
pub open spec fn frame_of(c: Seq<i16>, f: int) -> Seq<i16> {
    c.subrange(f * FRAME, f * FRAME + FRAME)
}

/// How block `b` of frame `f` is predicted.
pub open spec fn decision_at(c: Seq<i16>, q: Seq<Quant>, f: int, b: int) -> Decision {
    if f == 0 {
        crate::motion_search::unpredicted(crate::motion_search::triple(frame_of(c, 0), b / 126, b % 126))
    } else {
        crate::motion_search::decided(
            frame_of(c, f),
            frame_of(c, f - 1),
            crate::motion_pixels::rendered(frame_of(c, f), q[f]),
            crate::motion_pixels::rendered(frame_of(c, f - 1), q[f - 1]),
            q[f],
            b / 126,
            b % 126,
        )
    }
}

/// What prediction leaves of coefficient `i`.
pub open spec fn error_at(c: Seq<i16>, q: Seq<Quant>, i: int) -> int {
    let d = decision_at(c, q, i / FRAME as int, i % PLANE as int / 64);
    c[i] - d.pred[i % FRAME as int / PLANE as int * 64 + i % 64]
}

/// What prediction leaves of a movie, and how every block is predicted.
pub struct Residual {
    pub errors: Seq<i16>,
    pub modes: Seq<u8>,
    pub mx: Seq<i16>,
    pub my: Seq<i16>,
}

pub open spec fn residual(c: Seq<i16>, q: Seq<Quant>) -> Residual {
    let n = (q.len() * 15876) as nat;
    Residual {
        errors: Seq::new(c.len(), |i: int| error_at(c, q, i) as i16),
        modes: Seq::new(n, |i: int| decision_at(c, q, i / 15876, i % 15876).mode as u8),
        mx: Seq::new(n, |i: int| decision_at(c, q, i / 15876, i % 15876).dx as i16),
        my: Seq::new(n, |i: int| decision_at(c, q, i / 15876, i % 15876).dy as i16),
    }
}

/// What prediction leaves of a movie, and how every block is predicted.
pub struct MotionResidual {
    pub errors: Vec<i16>,
    pub modes: Vec<u8>,
    pub mx: Vec<i16>,
    pub my: Vec<i16>,
}

impl View for MotionResidual {
    type V = Residual;

    open spec fn view(&self) -> Residual {
        Residual { errors: self.errors@, modes: self.modes@, mx: self.mx@, my: self.my@ }
    }
}

impl Frames<'_> {
    /// What prediction leaves of coefficient `i` of the frame.
    pub open spec fn error(&self, i: int) -> int {
        self.cur@[i] - self.decision(i % PLANE as int / 64).pred[i / PLANE as int * 64 + i % 64]
    }
}

/// Appends what prediction leaves of one channel of a block.
fn put_errors(out: &mut Vec<i16>, a: &Vec<i16>, pred: &Vec<i16>, ch: usize)
    requires
        a@.len() == 192,
        pred@.len() == 192,
        ch < 3,
        crate::motion_search::storable(crate::motion_search::wide(a@), crate::motion_search::wide(pred@)),
    ensures
        final(out)@.len() == old(out)@.len() + 64,
        forall|i: int| 0 <= i < old(out)@.len() ==> #[trigger] final(out)@[i] == old(out)@[i],
        forall|k: int|
            0 <= k < 64 ==> #[trigger] final(out)@[old(out)@.len() + k] == a@[ch * 64 + k] - pred@[ch
                * 64 + k],
{
    let ghost n = out@.len();
    let mut k: usize = 0;
    while k < 64
        invariant
            k <= 64,
            a@.len() == 192,
            pred@.len() == 192,
            ch < 3,
            n == old(out)@.len(),
            crate::motion_search::storable(crate::motion_search::wide(a@), crate::motion_search::wide(pred@)),
            out@.len() == n + k,
            forall|i: int| 0 <= i < n ==> #[trigger] out@[i] == old(out)@[i],
            forall|j: int|
                0 <= j < k ==> #[trigger] out@[n + j] == a@[ch * 64 + j] - pred@[ch * 64 + j],
        decreases 64 - k,
    {
        let i: usize = ch * 64 + k;
        assert(crate::mov_cross::fits(crate::motion_search::wide(a@)[i as int] - crate::motion_search::wide(pred@)[i as int]));
        out.push((a[i] as i32 - pred[i] as i32) as i16);
        k += 1;
    }
}

/// The errors of the first `n` blocks of channel `ch`.
spec fn channel_done(frames: &Frames<'_>, ch: int, n: int, out: Seq<i16>) -> bool {
    &&& out.len() == 64 * n
    &&& forall|j: int| 0 <= j < 64 * n ==> #[trigger] out[j] == frames.error(ch * PLANE + j)
}

proof fn lemma_channel(frames: &Frames<'_>, ch: int, n: int, before: Seq<i16>, out: Seq<i16>, a: Seq<int>, pred: Seq<int>)
    requires
        channel_done(frames, ch, n, before),
        0 <= ch < 3,
        0 <= n < 15876,
        frames.cur.len() == FRAME,
        a == crate::motion_search::triple(frames.cur@, n / 126, n % 126),
        pred == frames.decision(n).pred,
        pred.len() == 192,
        out.len() == before.len() + 64,
        forall|i: int| 0 <= i < before.len() ==> #[trigger] out[i] == before[i],
        forall|k: int|
            0 <= k < 64 ==> #[trigger] out[before.len() + k] == a[ch * 64 + k] - pred[ch * 64 + k],
    ensures
        channel_done(frames, ch, n + 1, out),
{
    assert forall|j: int| 0 <= j < 64 * (n + 1) implies #[trigger] out[j] == frames.error(
        ch * PLANE + j,
    ) by {
        if j >= 64 * n {
            let k = j - 64 * n;
            let i = ch * PLANE + j;
            assert(out[before.len() + k] == a[ch * 64 + k] - pred[ch * 64 + k]);
            assert(i % PLANE as int == j && i / PLANE as int == ch);
            assert(j / 64 == n && i % 64 == k);
            assert((ch * 64 + k) / 64 == ch && (ch * 64 + k) % 64 == k);
            assert(n / 126 * 126 + n % 126 == n);
            assert(a[ch * 64 + k] == frames.cur@[i]);
        } else {
            assert(out[j] == before[j]);
        }
    }
}

/// Predicts a frame from the one before it. Frame `f` of `count` is reported as it goes on.
pub fn search_frame<M: Monitor>(frames: &Frames<'_>, f: usize, count: usize, monitor: &mut M) -> (r:
    Result<MotionResidual, String>)
    requires
        frames.wf(),
        f < count <= 1000,
        !old(monitor).stopped(),
    ensures
        crate::monitor::climbs(
            *old(monitor),
            200_000 + by_rows(300_000, f * 126, count as int),
            200_000 + by_rows(300_000, (f + 1) * 126, count as int),
            1_000_000,
            *final(monitor),
        ),
        match r {
            Err(e) => final(monitor).stopped() && e@ == "error.cancelled"@,
            Ok(m) => {
                &&& !final(monitor).stopped()
                &&& m.errors@.len() == FRAME
                &&& forall|i: int| 0 <= i < FRAME ==> #[trigger] m.errors@[i] == frames.error(i)
                &&& m.modes@ == Seq::new(15876, |b: int| frames.decision(b).mode as u8)
                &&& m.mx@ == Seq::new(15876, |b: int| frames.decision(b).dx as i16)
                &&& m.my@ == Seq::new(15876, |b: int| frames.decision(b).dy as i16)
                &&& forall|b: int|
                    0 <= b < 15876 ==> crate::motion_search::sound(
                        #[trigger] frames.decision(b),
                        crate::motion_search::triple(frames.cur@, b / 126, b % 126),
                    )
            },
        },
        crate::monitor::heeds(*old(monitor), r),
{
    proof {
        let low = 200_000 + by_rows(300_000, f * 126, count as int);
        crate::monitor::lemma_stays(*monitor, low, low, 1_000_000);
    }
    let mut e0: Vec<i16> = Vec::new();
    let mut e1: Vec<i16> = Vec::new();
    let mut e2: Vec<i16> = Vec::new();
    let mut modes: Vec<u8> = Vec::new();
    let mut mx: Vec<i16> = Vec::new();
    let mut my: Vec<i16> = Vec::new();
    let ghost mut row: int = f * 126;
    let ghost mut top: int = 200_000 + by_rows(300_000, row, count as int);
    let mut b: usize = 0;
    while b < 15876
        invariant
            f * 126 <= row <= f * 126 + b as int / 126,
            top == 200_000 + by_rows(300_000, row, count as int),
            crate::monitor::climbs(
                *old(monitor),
                200_000 + by_rows(300_000, f * 126, count as int),
                top,
                1_000_000,
                *monitor,
            ),
            b <= 15876,
            frames.wf(),
            f < count <= 1000,
            !monitor.stopped(),
            channel_done(frames, 0, b as int, e0@),
            channel_done(frames, 1, b as int, e1@),
            channel_done(frames, 2, b as int, e2@),
            modes@ == Seq::new(b as nat, |b: int| frames.decision(b).mode as u8),
            mx@ == Seq::new(b as nat, |b: int| frames.decision(b).dx as i16),
            my@ == Seq::new(b as nat, |b: int| frames.decision(b).dy as i16),
            forall|i: int|
                0 <= i < b ==> crate::motion_search::sound(
                    #[trigger] frames.decision(i),
                    crate::motion_search::triple(frames.cur@, i / 126, i % 126),
                ),
            b == 0 ==> *monitor == *old(monitor),
            b > 0 ==> !crate::monitor::refuses(*old(monitor)),
        decreases 15876 - b,
    {
        if b % W == 0 {
            let done: u64 = (f * H + b / W) as u64;
            let whole: u64 = (count * H) as u64;
            let part: u64 = done * 300_000 / whole;
            assert(part <= 300_000) by (nonlinear_arith)
                requires
                    part == (done * 300_000) / whole as int,
                    done <= whole,
                    whole > 0,
            ;
            let ghost then = *monitor;
            proof {
                assert(crate::monitor::goal(200_000 + by_rows(300_000, (f + 1) * 126, count as int)));
                crate::monitor::lemma_part(f * 126, row, 300_000, count * 126);
                crate::monitor::lemma_part(row, done as int, 300_000, count * 126);
                crate::monitor::lemma_part(done as int, (f + 1) * 126, 300_000, count * 126);
                row = done as int;
                top = 200_000 + part;
            }
            if !monitor.report(200_000 + part, 1_000_000) {
                return Err(fail("error.cancelled"));
            }
            proof {
                if b == 0 {
                    crate::monitor::lemma_agreed(then, (200_000 + part) as u64, 1_000_000, *monitor);
                }
            }
        }
        let a = take_triple(frames.cur, b / W, b % W);
        let c = decide(frames, &a, b);
        let ghost d = frames.decision(b as int);
        let ghost (p0, p1, p2) = (e0@, e1@, e2@);
        put_errors(&mut e0, &a, &c.pred, 0);
        put_errors(&mut e1, &a, &c.pred, 1);
        put_errors(&mut e2, &a, &c.pred, 2);
        proof {
            let t = crate::motion_search::triple(frames.cur@, b as int / 126, b as int % 126);
            assert forall|ch: int, k: int| 0 <= ch < 3 && 0 <= k < 64 implies a@[ch * 64 + k] == #[trigger] t[ch
                * 64 + k] && c.pred@[ch * 64 + k] == d.pred[ch * 64 + k] by {
                assert(crate::motion_search::wide(a@)[ch * 64 + k] == a@[ch * 64 + k]);
                assert(crate::motion_search::wide(c.pred@)[ch * 64 + k] == c.pred@[ch * 64 + k]);
            }
            lemma_channel(frames, 0, b as int, p0, e0@, t, d.pred);
            lemma_channel(frames, 1, b as int, p1, e1@, t, d.pred);
            lemma_channel(frames, 2, b as int, p2, e2@, t, d.pred);
        }
        modes.push(c.mode);
        mx.push(c.dx);
        my.push(c.dy);
        assert(modes@ =~= Seq::new((b + 1) as nat, |b: int| frames.decision(b).mode as u8));
        assert(mx@ =~= Seq::new((b + 1) as nat, |b: int| frames.decision(b).dx as i16));
        assert(my@ =~= Seq::new((b + 1) as nat, |b: int| frames.decision(b).dy as i16));
        b += 1;
    }
    let ghost (p0, p1, p2) = (e0@, e1@, e2@);
    e0.append(&mut e1);
    e0.append(&mut e2);
    proof {
        assert forall|i: int| 0 <= i < FRAME implies #[trigger] e0@[i] == frames.error(i) by {
            if i < PLANE {
                assert(e0@[i] == p0[i]);
            } else if i < 2 * PLANE {
                assert(e0@[i] == p1[i - PLANE]);
            } else {
                assert(e0@[i] == p2[i - 2 * PLANE]);
            }
        }
    }
    proof {
        assert(crate::monitor::goal(200_000 + by_rows(300_000, (f + 1) * 126, count as int)));
        crate::monitor::lemma_part(row, (f + 1) * 126, 300_000, count * 126);
    }
    Ok(MotionResidual { errors: e0, modes, mx, my })
}


pub open spec fn all_weighed(q: Seq<Quant>) -> bool {
    forall|f: int| 0 <= f < q.len() ==> crate::motion_search::weighed(#[trigger] q[f])
}

/// Whether every block of a movie is predicted soundly.
pub open spec fn all_sound(c: Seq<i16>, q: Seq<Quant>, frames: int) -> bool {
    forall|f: int, b: int|
        0 <= f < frames && 0 <= b < 15876 ==> crate::motion_search::sound(
            #[trigger] decision_at(c, q, f, b),
            crate::motion_search::triple(frame_of(c, f), b / 126, b % 126),
        )
}

spec fn motion_done(c: Seq<i16>, q: Seq<Quant>, f: int, m: MotionResidual) -> bool {
    &&& m.errors@.len() == f * FRAME
    &&& forall|i: int| 0 <= i < f * FRAME ==> #[trigger] m.errors@[i] == error_at(c, q, i)
    &&& m.modes@ == Seq::new(
        (f * 15876) as nat,
        |i: int| decision_at(c, q, i / 15876, i % 15876).mode as u8,
    )
    &&& m.mx@ == Seq::new(
        (f * 15876) as nat,
        |i: int| decision_at(c, q, i / 15876, i % 15876).dx as i16,
    )
    &&& m.my@ == Seq::new(
        (f * 15876) as nat,
        |i: int| decision_at(c, q, i / 15876, i % 15876).dy as i16,
    )
    &&& all_sound(c, q, f)
}

proof fn lemma_place(f: int, j: int)
    requires
        0 <= f,
        0 <= j < FRAME,
    ensures
        (f * FRAME + j) / FRAME as int == f,
        (f * FRAME + j) % FRAME as int == j,
        (f * FRAME + j) % PLANE as int == j % PLANE as int,
        (f * FRAME + j) % 64 == j % 64,
        j % PLANE as int % 64 == j % 64,
{
}

proof fn lemma_block_place(f: int, b: int)
    requires
        0 <= f,
        0 <= b < 15876,
    ensures
        (f * 15876 + b) / 15876 == f,
        (f * 15876 + b) % 15876 == b,
{
}

#[verifier::spinoff_prover]
#[verifier::rlimit(60)]
proof fn lemma_motion_step(
    c: Seq<i16>,
    q: Seq<Quant>,
    f: int,
    old_m: MotionResidual,
    new_m: MotionResidual,
    e: Seq<i16>,
    modes: Seq<u8>,
    mx: Seq<i16>,
    my: Seq<i16>,
)
    requires
        0 <= f,
        motion_done(c, q, f, old_m),
        e.len() == FRAME,
        new_m.errors@ == old_m.errors@ + e,
        new_m.modes@ == old_m.modes@ + modes,
        new_m.mx@ == old_m.mx@ + mx,
        new_m.my@ == old_m.my@ + my,
        forall|j: int| 0 <= j < FRAME ==> #[trigger] e[j] == error_at(c, q, f * FRAME + j),
        modes == Seq::new(15876, |b: int| decision_at(c, q, f, b).mode as u8),
        mx == Seq::new(15876, |b: int| decision_at(c, q, f, b).dx as i16),
        my == Seq::new(15876, |b: int| decision_at(c, q, f, b).dy as i16),
        forall|b: int|
            0 <= b < 15876 ==> crate::motion_search::sound(
                #[trigger] decision_at(c, q, f, b),
                crate::motion_search::triple(frame_of(c, f), b / 126, b % 126),
            ),
    ensures
        motion_done(c, q, f + 1, new_m),
{
    assert forall|i: int| 0 <= i < (f + 1) * FRAME implies #[trigger] new_m.errors@[i] == error_at(
        c,
        q,
        i,
    ) by {
        if i < f * FRAME {
            assert(new_m.errors@[i] == old_m.errors@[i]);
        } else {
            assert(new_m.errors@[i] == e[i - f * FRAME]);
        }
    }
    let n = ((f + 1) * 15876) as nat;
    let all_modes = Seq::new(n, |i: int| decision_at(c, q, i / 15876, i % 15876).mode as u8);
    let all_mx = Seq::new(n, |i: int| decision_at(c, q, i / 15876, i % 15876).dx as i16);
    let all_my = Seq::new(n, |i: int| decision_at(c, q, i / 15876, i % 15876).dy as i16);
    assert forall|i: int| 0 <= i < n implies new_m.modes@[i] == #[trigger] all_modes[i] && new_m.mx@[i]
        == all_mx[i] && new_m.my@[i] == all_my[i] by {
        if i < f * 15876 {
            assert(new_m.modes@[i] == old_m.modes@[i]);
            assert(new_m.mx@[i] == old_m.mx@[i]);
            assert(new_m.my@[i] == old_m.my@[i]);
        } else {
            let b = i - f * 15876;
            lemma_block_place(f, b);
            assert(new_m.modes@[i] == modes[b]);
            assert(new_m.mx@[i] == mx[b]);
            assert(new_m.my@[i] == my[b]);
        }
    }
    assert(new_m.modes@ =~= all_modes);
    assert forall|i: int| 0 <= i < n implies new_m.mx@[i] == #[trigger] all_mx[i] by {
        assert(new_m.modes@[i] == all_modes[i]);
    }
    assert forall|i: int| 0 <= i < n implies new_m.my@[i] == #[trigger] all_my[i] by {
        assert(new_m.modes@[i] == all_modes[i]);
    }
    assert(new_m.mx@ =~= all_mx);
    assert(new_m.my@ =~= all_my);
}

/// Predicts every frame of a movie from the one before it.
#[verifier::spinoff_prover]
#[verifier::rlimit(60)]
pub fn encode_motion<M: Monitor>(coeff: &[i16], q: &[Quant], monitor: &mut M) -> (r: Result<
    MotionResidual,
    String,
>)
    requires
        1 <= q@.len() <= 88,
        coeff.len() == q@.len() * FRAME,
        all_weighed(q@),
        !old(monitor).stopped(),
    ensures
        crate::monitor::climbs(*old(monitor), 200_000, 500_000, 1_000_000, *final(monitor)),
        match r {
            Err(e) => final(monitor).stopped() && e@ == "error.cancelled"@,
            Ok(m) => !final(monitor).stopped() && m@ == residual(coeff@, q@) && m.errors@.len()
                == coeff@.len() && all_sound(coeff@, q@, q@.len() as int),
        },
        crate::monitor::heeds(*old(monitor), r),
{
    proof {
        assert(crate::monitor::goal(500_000));
        crate::monitor::lemma_stays(*monitor, 200_000, 200_000, 1_000_000);
    }
    let ghost c = coeff@;
    let count: usize = q.len();
    let vectors = search_offsets();
    let mut m = MotionResidual { errors: Vec::new(), modes: Vec::new(), mx: Vec::new(), my: Vec::new() };
    let mut before: Vec<i32> = Vec::new();
    let mut f: usize = 0;
    proof {
        crate::monitor::lemma_part(0, 0, 300_000, count as int);
        assert(m.modes@ =~= Seq::new(
            0,
            |i: int| decision_at(c, q@, i / 15876, i % 15876).mode as u8,
        ));
        assert(m.mx@ =~= Seq::new(0, |i: int| decision_at(c, q@, i / 15876, i % 15876).dx as i16));
        assert(m.my@ =~= Seq::new(0, |i: int| decision_at(c, q@, i / 15876, i % 15876).dy as i16));
        assert(motion_done(c, q@, 0, m));
    }
    while f < count
        invariant
            crate::monitor::climbs(
                *old(monitor),
                200_000,
                200_000 + f * 300_000 / count as int,
                1_000_000,
                *monitor,
            ),
            f <= count,
            count == q@.len(),
            1 <= count <= 88,
            c == coeff@,
            coeff.len() == count * FRAME,
            all_weighed(q@),
            !monitor.stopped(),
            vectors@.len() == 81,
            forall|i: int|
                0 <= i < 81 ==> (#[trigger] vectors@[i]).0 == crate::motion_search::offsets()[i].0 && vectors@[i].1
                    == crate::motion_search::offsets()[i].1,
            f > 0 ==> crate::transform::ints(before@) == crate::motion_pixels::rendered(frame_of(c, f - 1), q@[f - 1])
                && before@.len() == FRAME,
            motion_done(c, q@, f as int, m),
            f == 0 ==> *monitor == *old(monitor),
            f > 0 ==> !crate::monitor::refuses(*old(monitor)),
        decreases count - f,
    {
        let part: u64 = f as u64 * 300_000 / count as u64;
        assert(part <= 300_000) by (nonlinear_arith)
            requires
                part == (f as u64 * 300_000) / count as int,
                f <= count,
                count > 0,
        ;
        let ghost then = *monitor;
        proof {
            assert(crate::monitor::goal(500_000));
            assert(crate::monitor::goal(200_000 + (f + 1) * 300_000 / count as int));
            crate::monitor::lemma_part(f as int, f + 1, 300_000, count as int);
            crate::monitor::lemma_part(f + 1, count as int, 300_000, count as int);
            lemma_by_rows(300_000, f as int, count as int);
            lemma_by_rows(300_000, f + 1, count as int);
        }
        if !monitor.report(200_000 + part, 1_000_000) {
            return Err(fail("error.cancelled"));
        }
        proof {
            if f == 0 {
                crate::monitor::lemma_agreed(then, (200_000 + part) as u64, 1_000_000, *monitor);
            }
        }
        let cur = &coeff[f * FRAME..(f + 1) * FRAME];
        assert(cur@ =~= frame_of(c, f as int));
        let pixels = render(cur, &q[f]);
        assert(pixels@.len() == FRAME) by {
            assert(crate::transform::ints(pixels@).len() == FRAME);
        }
        let ghost old_m = m;
        if f == 0 {
            m.errors.extend_from_slice(cur);
            m.modes = vec![0u8; 15876];
            m.mx = vec![0i16; 15876];
            m.my = vec![0i16; 15876];
            proof {
                assert forall|j: int| 0 <= j < FRAME implies #[trigger] cur@[j] == error_at(
                    c,
                    q@,
                    0 * FRAME + j,
                ) by {
                    lemma_place(0, j);
                }
                assert(m.modes@ =~= Seq::new(15876, |b: int| decision_at(c, q@, 0, b).mode as u8));
                assert(m.mx@ =~= Seq::new(15876, |b: int| decision_at(c, q@, 0, b).dx as i16));
                assert(m.my@ =~= Seq::new(15876, |b: int| decision_at(c, q@, 0, b).dy as i16));
                assert(m.errors@ =~= old_m.errors@ + cur@);
                assert(m.modes@ =~= old_m.modes@ + m.modes@);
                assert(m.mx@ =~= old_m.mx@ + m.mx@);
                assert(m.my@ =~= old_m.my@ + m.my@);
                assert forall|b: int| 0 <= b < 15876 implies crate::motion_search::sound(
                    #[trigger] decision_at(c, q@, 0, b),
                    crate::motion_search::triple(frame_of(c, 0), b / 126, b % 126),
                ) by {
                    assert(crate::motion_search::storable(crate::motion_search::triple(frame_of(c, 0), b / 126, b % 126), crate::motion_search::nothing()));
                }
                lemma_motion_step(c, q@, 0, old_m, m, cur@, m.modes@, m.mx@, m.my@);
            }
        } else {
            let previous = &coeff[(f - 1) * FRAME..f * FRAME];
            assert(previous@ =~= frame_of(c, f - 1));
            let frames = Frames {
                cur,
                previous,
                pixels: &pixels,
                before: &before,
                quant: &q[f],
                offsets: &vectors,
            };
            assert(crate::motion_search::weighed(q@[f as int]));
            let mut next = search_frame(&frames, f, count, monitor)?;
            let ghost (e, modes, mx, my) = (next.errors@, next.modes@, next.mx@, next.my@);
            m.errors.append(&mut next.errors);
            m.modes.append(&mut next.modes);
            m.mx.append(&mut next.mx);
            m.my.append(&mut next.my);
            proof {
                assert forall|b: int| 0 <= b < 15876 implies #[trigger] decision_at(c, q@, f as int, b)
                    == frames.decision(b) by {}
                assert forall|j: int| 0 <= j < FRAME implies #[trigger] e[j] == error_at(
                    c,
                    q@,
                    f * FRAME + j,
                ) by {
                    lemma_place(f as int, j);
                    assert(cur@[j] == c[f * FRAME + j]);
                    assert(e[j] == frames.error(j));
                }
                assert(modes =~= Seq::new(15876, |b: int| decision_at(c, q@, f as int, b).mode as u8));
                assert(mx =~= Seq::new(15876, |b: int| decision_at(c, q@, f as int, b).dx as i16));
                assert(my =~= Seq::new(15876, |b: int| decision_at(c, q@, f as int, b).dy as i16));
                lemma_motion_step(c, q@, f as int, old_m, m, e, modes, mx, my);
            }
        }
        before = pixels;
        f += 1;
    }
    proof {
        assert forall|i: int| 0 <= i < c.len() implies #[trigger] m.errors@[i] == residual(c, q@).errors[i] by {
            assert(m.errors@[i] == error_at(c, q@, i));
        }
        assert(m.errors@ =~= residual(c, q@).errors);
    }
    proof {
        crate::monitor::lemma_part(count as int, count as int, 300_000, count as int);
    }
    Ok(m)
}


/// The prediction of a block with the given mode and vector.
pub open spec fn guess(
    mode: int,
    dy: int,
    dx: int,
    previous: Seq<i16>,
    before: Seq<int>,
    q: Quant,
    by: int,
    bx: int,
) -> Seq<int> {
    if mode == 1 {
        crate::motion_search::triple(previous, by, bx)
    } else if mode == 2 {
        crate::motion_search::motion(before, q, by, bx, dy, dx)
    } else {
        crate::motion_search::nothing()
    }
}

/// The prediction of block `b` of frame `f`.
pub open spec fn guess_at(
    r: Residual,
    f: int,
    b: int,
    previous: Seq<i16>,
    before: Seq<int>,
    q: Quant,
) -> Seq<int> {
    let i = f * 15876 + b;
    guess(
        r.modes[i] as int,
        r.my[i] as int,
        r.mx[i] as int,
        previous,
        before,
        q,
        b / 126,
        b % 126,
    )
}

/// Frame `f` with its prediction from the frame before it added.
pub open spec fn raised(r: Residual, f: int, previous: Seq<i16>, before: Seq<int>, q: Quant) -> Seq<int> {
    Seq::new(
        FRAME as nat,
        |i: int|
            r.errors[f * FRAME + i] + guess_at(r, f, i % PLANE as int / 64, previous, before, q)[i
                / PLANE as int * 64 + i % 64],
    )
}

/// The coefficients of all frames from `f` on, given those before.
pub open spec fn recovered_from(r: Residual, q: Seq<Quant>, f: int, out: Seq<i16>) -> Outcome<Seq<i16>>
    decreases q.len() - f,
{
    if f >= q.len() {
        Ok(out)
    } else {
        let previous = frame_of(out, f - 1);
        let t = raised(r, f, previous, crate::motion_pixels::rendered(previous, q[f - 1]), q[f]);
        if crate::mov_cross::all_fit(t) {
            recovered_from(r, q, f + 1, out + crate::mov_cross::narrow(t))
        } else {
            Err("MOV motion coefficient overflow"@)
        }
    }
}

/// The coefficients that errors and predictions stand for.
pub open spec fn recovered(r: Residual, q: Seq<Quant>) -> Outcome<Seq<i16>> {
    recovered_from(r, q, 0, Seq::empty())
}

/// Whether errors and predictions belong to a movie of `frames` frames, the first of which is not
/// predicted.
pub open spec fn fitting(r: Residual, frames: int) -> bool {
    &&& r.errors.len() == frames * FRAME
    &&& r.modes.len() == frames * 15876
    &&& r.mx.len() == frames * 15876
    &&& r.my.len() == frames * 15876
    &&& forall|i: int| 0 <= i < 15876 && i < r.modes.len() ==> #[trigger] r.modes[i] == 0
}

/// The sums of the first `n` blocks of channel `ch`.
spec fn sums_done(t: Seq<int>, ch: int, n: int, out: Seq<i16>) -> bool {
    &&& out.len() == 64 * n
    &&& forall|j: int| 0 <= j < 64 * n ==> #[trigger] out[j] == t[ch * PLANE + j]
}

/// Appends the sums of the errors of one channel of a block and their predictions.
fn put_sums(
    out: &mut Vec<i16>,
    errors: &[i16],
    at: usize,
    pred: &Vec<i16>,
    ch: usize,
    b: usize,
    Ghost(t): Ghost<Seq<int>>,
) -> (ok: bool)
    requires
        at + 64 <= errors.len(),
        pred@.len() == 192,
        ch < 3,
        b < 15876,
        t.len() == FRAME,
        sums_done(t, ch as int, b as int, old(out)@),
        forall|k: int|
            0 <= k < 64 ==> #[trigger] t[ch * PLANE + b * 64 + k] == errors@[at + k] + pred@[ch * 64 + k],
    ensures
        ok ==> sums_done(t, ch as int, b + 1, final(out)@),
        !ok ==> !crate::mov_cross::all_fit(t),
{
    let mut k: usize = 0;
    while k < 64
        invariant
            k <= 64,
            at + 64 <= errors.len(),
            pred@.len() == 192,
            ch < 3,
            b < 15876,
            t.len() == FRAME,
            out@.len() == 64 * b + k,
            forall|j: int| 0 <= j < 64 * b + k ==> #[trigger] out@[j] == t[ch * PLANE + j],
            forall|j: int|
                0 <= j < 64 ==> #[trigger] t[ch * PLANE + b * 64 + j] == errors@[at + j] + pred@[ch * 64
                    + j],
        decreases 64 - k,
    {
        let v: i32 = errors[at + k] as i32 + pred[ch * 64 + k] as i32;
        assert(t[ch * PLANE + b * 64 + k] == v);
        if v < -32768 || v > 32767 {
            assert(!crate::mov_cross::fits(t[ch * PLANE + b * 64 + k]));
            return false;
        }
        out.push(v as i16);
        k += 1;
    }
    true
}

fn prediction(
    mode: u8,
    dy: i16,
    dx: i16,
    previous: &[i16],
    before: &[i32],
    q: &Quant,
    by: usize,
    bx: usize,
) -> (pred: Vec<i16>)
    requires
        mode != 0 ==> previous.len() == FRAME && before.len() == FRAME,
        mode <= 2,
        by < H,
        bx < W,
        crate::motion_search::weighed(*q),
    ensures
        pred@.len() == 192,
        forall|i: int|
            0 <= i < 192 ==> #[trigger] pred@[i] == guess(
                mode as int,
                dy as int,
                dx as int,
                previous@,
                crate::transform::ints(before@),
                *q,
                by as int,
                bx as int,
            )[i],
{
    if mode == 1 {
        let v = take_triple(previous, by, bx);
        assert forall|i: int| 0 <= i < 192 implies #[trigger] v@[i] == crate::motion_search::triple(
            previous@,
            by as int,
            bx as int,
        )[i] by {
            assert(crate::motion_search::wide(v@)[i] == v@[i]);
        }
        v
    } else if mode == 2 {
        predict(before, q, by, bx, dy, dx)
    } else {
        vec![0i16; 192]
    }
}

proof fn lemma_block_sums(
    r: Residual,
    f: int,
    b: int,
    previous: Seq<i16>,
    before: Seq<int>,
    q: Quant,
    pred: Seq<i16>,
)
    requires
        0 <= f,
        0 <= b < 15876,
        pred.len() == 192,
        forall|i: int|
            0 <= i < 192 ==> #[trigger] pred[i] == guess_at(r, f, b, previous, before, q)[i],
    ensures
        ({
            let t = raised(r, f, previous, before, q);
            &&& forall|k: int|
                0 <= k < 64 ==> #[trigger] t[0 * PLANE + b * 64 + k] == r.errors[f * FRAME + b * 64 + k]
                    + pred[0 * 64 + k]
            &&& forall|k: int|
                0 <= k < 64 ==> #[trigger] t[1 * PLANE + b * 64 + k] == r.errors[f * FRAME + b * 64
                    + PLANE + k] + pred[1 * 64 + k]
            &&& forall|k: int|
                0 <= k < 64 ==> #[trigger] t[2 * PLANE + b * 64 + k] == r.errors[f * FRAME + b * 64 + 2
                    * PLANE + k] + pred[2 * 64 + k]
        }),
{
    let t = raised(r, f, previous, before, q);
    assert forall|k: int| 0 <= k < 64 implies #[trigger] t[0 * PLANE + b * 64 + k] == r.errors[f * FRAME + b
        * 64 + k] + pred[0 * 64 + k] by {
        lemma_sum_place(0, b, k);
    }
    assert forall|k: int| 0 <= k < 64 implies #[trigger] t[1 * PLANE + b * 64 + k] == r.errors[f * FRAME + b
        * 64 + PLANE + k] + pred[1 * 64 + k] by {
        lemma_sum_place(1, b, k);
    }
    assert forall|k: int| 0 <= k < 64 implies #[trigger] t[2 * PLANE + b * 64 + k] == r.errors[f * FRAME + b
        * 64 + 2 * PLANE + k] + pred[2 * 64 + k] by {
        lemma_sum_place(2, b, k);
    }
}

proof fn lemma_sum_place(ch: int, b: int, k: int)
    requires
        0 <= ch < 3,
        0 <= b < 15876,
        0 <= k < 64,
    ensures
        (ch * PLANE + b * 64 + k) % PLANE as int / 64 == b,
        (ch * PLANE + b * 64 + k) / PLANE as int == ch,
        (ch * PLANE + b * 64 + k) % 64 == k,
        0 <= ch * PLANE + b * 64 + k < FRAME,
{
    assert((ch * PLANE + b * 64 + k) % PLANE as int == b * 64 + k);
}

/// Adds its prediction to frame `f`.
fn raise_frame<M: Monitor>(
    r: &MotionResidual,
    f: usize,
    previous: &[i16],
    before: &[i32],
    q: &Quant,
    count: usize,
    monitor: &mut M,
    share: &Share,
) -> (out: Result<Vec<i16>, String>)
    requires
        f < count <= 88,
        fitting(r@, count as int),
        r.errors.len() == count * FRAME,
        r.modes.len() == count * 15876,
        r.mx.len() == count * 15876,
        r.my.len() == count * 15876,
        forall|i: int| 0 <= i < r.modes@.len() ==> #[trigger] r.modes@[i] <= 2,
        f > 0 ==> previous.len() == FRAME && before.len() == FRAME,
        crate::motion_search::weighed(*q),
        share.fits(),
        !old(monitor).stopped(),
    ensures
        crate::monitor::climbs(
            *old(monitor),
            share.at(300_000 + by_rows(450_000, f * 126, count as int)),
            share.at(300_000 + by_rows(450_000, (f + 1) * 126, count as int)),
            share.whole,
            *final(monitor),
        ),
        ({
            let t = raised(r@, f as int, previous@, crate::transform::ints(before@), *q);
            match out {
                Ok(v) => !final(monitor).stopped() && crate::mov_cross::all_fit(t) && v@
                    == crate::mov_cross::narrow(t) && v@.len() == FRAME,
                Err(e) => if final(monitor).stopped() {
                    e@ == "error.cancelled"@
                } else {
                    e@ == "MOV motion coefficient overflow"@ && !crate::mov_cross::all_fit(t)
                },
            }
        }),
        crate::monitor::heeds(*old(monitor), out),
{
    proof {
        let low = share.at(300_000 + by_rows(450_000, f * 126, count as int));
        crate::monitor::lemma_stays(*monitor, low, low, share.whole);
    }
    let ghost pixels = crate::transform::ints(before@);
    let ghost t = raised(r@, f as int, previous@, pixels, *q);
    let mut e0: Vec<i16> = Vec::new();
    let mut e1: Vec<i16> = Vec::new();
    let mut e2: Vec<i16> = Vec::new();
    let ghost mut row: int = f * 126;
    let ghost mut part_done: int = by_rows(450_000, row, count as int);
    let mut b: usize = 0;
    while b < 15876
        invariant
            f * 126 <= row <= f * 126 + b as int / 126,
            part_done == by_rows(450_000, row, count as int),
            crate::monitor::climbs(
                *old(monitor),
                share.at(300_000 + by_rows(450_000, f * 126, count as int)),
                share.at(300_000 + part_done),
                share.whole,
                *monitor,
            ),
            b <= 15876,
            f < count <= 88,
            fitting(r@, count as int),
            r.errors.len() == count * FRAME,
            r.modes.len() == count * 15876,
            r.mx.len() == count * 15876,
            r.my.len() == count * 15876,
            forall|i: int| 0 <= i < r.modes@.len() ==> #[trigger] r.modes@[i] <= 2,
            f > 0 ==> previous.len() == FRAME && before.len() == FRAME,
            crate::motion_search::weighed(*q),
            share.fits(),
            !monitor.stopped(),
            pixels == crate::transform::ints(before@),
            t == raised(r@, f as int, previous@, pixels, *q),
            t.len() == FRAME,
            sums_done(t, 0, b as int, e0@),
            sums_done(t, 1, b as int, e1@),
            sums_done(t, 2, b as int, e2@),
            b == 0 ==> *monitor == *old(monitor),
            b > 0 ==> !crate::monitor::refuses(*old(monitor)),
        decreases 15876 - b,
    {
        proof {
            let end = share.at(300_000 + by_rows(450_000, (f + 1) * 126, count as int));
            assert(crate::monitor::goal(end));
            crate::monitor::lemma_part(f * 126, row, 450_000, count * 126);
            crate::monitor::lemma_part(row, f * 126 + b as int / 126, 450_000, count * 126);
            crate::monitor::lemma_part(f * 126 + b as int / 126, (f + 1) * 126, 450_000, count * 126);
            share.lemma_at(
                300_000 + by_rows(450_000, f * 126, count as int),
                300_000 + by_rows(450_000, row, count as int),
            );
            share.lemma_at(
                300_000 + by_rows(450_000, row, count as int),
                300_000 + by_rows(450_000, f * 126 + b as int / 126, count as int),
            );
            share.lemma_at(
                300_000 + by_rows(450_000, f * 126 + b as int / 126, count as int),
                300_000 + by_rows(450_000, (f + 1) * 126, count as int),
            );
        }
        if b % W == 0 {
            let done: u64 = (f * H + b / W) as u64;
            let whole: u64 = (count * H) as u64;
            let part: u64 = done * 450_000 / whole;
            assert(part <= 450_000) by (nonlinear_arith)
                requires
                    part == (done * 450_000) / whole as int,
                    done <= whole,
                    whole > 0,
            ;
            let ghost then = *monitor;
            let ghost at = (share.base + (300_000 + part) * share.span / 1_000_000) as u64;
            proof {
                row = done as int;
                part_done = part as int;
            }
            if !share.report(monitor, 300_000 + part, 1_000_000) {
                return Err(fail("error.cancelled"));
            }
            proof {
                if b == 0 {
                    crate::monitor::lemma_agreed(then, at, share.whole, *monitor);
                }
            }
        }
        let i: usize = f * 15876 + b;
        let mode: u8 = r.modes[i];
        assert(f == 0 ==> r@.modes[i as int] == 0);
        let pred = prediction(mode, r.my[i], r.mx[i], previous, before, q, b / W, b % W);
        proof {
            lemma_block_sums(r@, f as int, b as int, previous@, pixels, *q, pred@);
        }
        let at: usize = f * FRAME + b * 64;
        if !put_sums(&mut e0, &r.errors, at, &pred, 0, b, Ghost(t)) {
            return Err(fail("MOV motion coefficient overflow"));
        }
        if !put_sums(&mut e1, &r.errors, at + PLANE, &pred, 1, b, Ghost(t)) {
            return Err(fail("MOV motion coefficient overflow"));
        }
        if !put_sums(&mut e2, &r.errors, at + 2 * PLANE, &pred, 2, b, Ghost(t)) {
            return Err(fail("MOV motion coefficient overflow"));
        }
        b += 1;
    }
    let ghost (p0, p1, p2) = (e0@, e1@, e2@);
    e0.append(&mut e1);
    e0.append(&mut e2);
    proof {
        assert forall|i: int| 0 <= i < FRAME implies #[trigger] e0@[i] == t[i] by {
            if i < PLANE {
                assert(e0@[i] == p0[i]);
            } else if i < 2 * PLANE {
                assert(e0@[i] == p1[i - PLANE]);
            } else {
                assert(e0@[i] == p2[i - 2 * PLANE]);
            }
        }
        assert forall|i: int| 0 <= i < FRAME implies crate::mov_cross::fits(#[trigger] t[i]) by {
            assert(e0@[i] == t[i]);
        }
        assert(e0@ =~= crate::mov_cross::narrow(t));
    }
    proof {
        assert(crate::monitor::goal(share.at(300_000 + by_rows(450_000, (f + 1) * 126, count as int))));
        crate::monitor::lemma_part(row, (f + 1) * 126, 450_000, count * 126);
        share.lemma_at(300_000 + part_done, 300_000 + by_rows(450_000, (f + 1) * 126, count as int));
    }
    Ok(e0)
}

/// The first frame does not depend on a frame before it.
proof fn lemma_first_frame(
    r: Residual,
    frames: int,
    p1: Seq<i16>,
    b1: Seq<int>,
    p2: Seq<i16>,
    b2: Seq<int>,
    q: Quant,
)
    requires
        fitting(r, frames),
        frames >= 1,
    ensures
        raised(r, 0, p1, b1, q) == raised(r, 0, p2, b2, q),
{
    assert forall|i: int| 0 <= i < FRAME implies #[trigger] raised(r, 0, p1, b1, q)[i] == raised(
        r,
        0,
        p2,
        b2,
        q,
    )[i] by {
        assert(r.modes[i % PLANE as int / 64] == 0);
    }
    assert(raised(r, 0, p1, b1, q) =~= raised(r, 0, p2, b2, q));
}

/// Restores coefficients from errors and predictions.
pub fn decode_motion<M: Monitor>(
    r: &MotionResidual,
    q: &[Quant],
    monitor: &mut M,
    share: &Share,
) -> (out: Result<Vec<i16>, String>)
    requires
        1 <= q@.len() <= 88,
        fitting(r@, q@.len() as int),
        forall|i: int| 0 <= i < r.modes@.len() ==> #[trigger] r.modes@[i] <= 2,
        all_weighed(q@),
        share.fits(),
        !old(monitor).stopped(),
    ensures
        crate::monitor::climbs(*old(monitor), share.at(300_000), share.at(750_000), share.whole, *final(monitor)),
        crate::mov_cross::numbers(out) == crate::wire::unless(
            final(monitor).stopped(),
            recovered(r@, q@),
        ),
        out matches Ok(v) ==> v@.len() == q@.len() * FRAME,
        crate::monitor::heeds(*old(monitor), out),
{
    proof {
        assert(crate::monitor::goal(share.at(750_000)));
        crate::monitor::lemma_stays(*monitor, share.at(300_000), share.at(300_000), share.whole);
    }
    let count: usize = q.len();
    let mut out: Vec<i16> = Vec::new();
    let mut before: Vec<i32> = Vec::new();
    let mut previous: Vec<i16> = Vec::new();
    let mut f: usize = 0;
    let ghost whole = recovered(r@, q@);
    assert(r.errors.len() == r@.errors.len() && r.modes.len() == r@.modes.len() && r.mx.len()
        == r@.mx.len() && r.my.len() == r@.my.len());
    proof {
        crate::monitor::lemma_part(0, 0, 450_000, count as int);
    }
    while f < count
        invariant
            crate::monitor::climbs(
                *old(monitor),
                share.at(300_000),
                share.at(300_000 + f * 450_000 / count as int),
                share.whole,
                *monitor,
            ),
            f <= count,
            count == q@.len(),
            1 <= count <= 88,
            fitting(r@, count as int),
            r.errors.len() == count * FRAME,
            r.modes.len() == count * 15876,
            r.mx.len() == count * 15876,
            r.my.len() == count * 15876,
            forall|i: int| 0 <= i < r.modes@.len() ==> #[trigger] r.modes@[i] <= 2,
            all_weighed(q@),
            share.fits(),
            !monitor.stopped(),
            out@.len() == f * FRAME,
            f > 0 ==> previous@ == frame_of(out@, f - 1) && previous@.len() == FRAME && before@.len()
                == FRAME && crate::transform::ints(before@) == crate::motion_pixels::rendered(previous@, q@[f - 1]),
            whole == recovered(r@, q@),
            whole == recovered_from(r@, q@, f as int, out@),
            f == 0 ==> *monitor == *old(monitor),
            f > 0 ==> !crate::monitor::refuses(*old(monitor)),
        decreases count - f,
    {
        proof {
            assert(crate::monitor::goal(share.at(750_000)));
            crate::monitor::lemma_part(f as int, f + 1, 450_000, count as int);
            crate::monitor::lemma_part(f + 1, count as int, 450_000, count as int);
            lemma_by_rows(450_000, f as int, count as int);
            lemma_by_rows(450_000, f + 1, count as int);
            share.lemma_at(300_000, 300_000 + f * 450_000 / count as int);
            share.lemma_at(300_000 + f * 450_000 / count as int, 300_000 + (f + 1) * 450_000 / count as int);
            share.lemma_at(300_000 + (f + 1) * 450_000 / count as int, 750_000);
        }
        assert(crate::motion_search::weighed(q@[f as int]));
        proof {
            if f == 0 {
                let other = frame_of(out@, -1);
                lemma_first_frame(
                    r@,
                    count as int,
                    previous@,
                    crate::transform::ints(before@),
                    other,
                    crate::motion_pixels::rendered(other, q@[-1]),
                    q@[0],
                );
            }
        }
        let next = raise_frame(r, f, &previous, &before, &q[f], count, monitor, share)?;
        before = render(&next, &q[f]);
        assert(before@.len() == FRAME) by {
            assert(crate::transform::ints(before@).len() == FRAME);
        }
        let ghost (o, n) = (out@, next@);
        out.extend_from_slice(&next);
        assert(out@ =~= o + n);
        assert(frame_of(out@, f as int) =~= n);
        previous = next;
        f += 1;
    }
    proof {
        crate::monitor::lemma_part(count as int, count as int, 450_000, count as int);
    }
    Ok(out)
}


/// What a decision leads to.
proof fn lemma_decided(
    cur: Seq<i16>,
    previous: Seq<i16>,
    pixels: Seq<int>,
    before: Seq<int>,
    q: Quant,
    by: int,
    bx: int,
)
    ensures
        ({
            let d = crate::motion_search::decided(cur, previous, pixels, before, q, by, bx);
            &&& 0 <= d.mode <= 2
            &&& d.pred == guess(d.mode, d.dy, d.dx, previous, before, q, by, bx)
            &&& crate::motion_search::storable(crate::motion_search::triple(cur, by, bx), d.pred)
        }),
{
    reveal(crate::motion_search::decided);
    assert(crate::motion_search::storable(crate::motion_search::triple(cur, by, bx), crate::motion_search::nothing()));
}

/// Adding its prediction to what is left of a coefficient gives it back.
#[verifier::rlimit(60)]
#[verifier::spinoff_prover]
proof fn lemma_raised(c: Seq<i16>, q: Seq<Quant>, f: int, previous: Seq<i16>, i: int)
    requires
        c.len() == q.len() * FRAME,
        0 <= f < q.len(),
        f > 0 ==> previous == frame_of(c, f - 1),
        0 <= i < FRAME,
    ensures
        raised(
            residual(c, q),
            f,
            previous,
            crate::motion_pixels::rendered(previous, q[f - 1]),
            q[f],
        )[i] == c[f * FRAME + i],
{
    let r = residual(c, q);
    let before = crate::motion_pixels::rendered(previous, q[f - 1]);
    let b = i % PLANE as int / 64;
    let d = decision_at(c, q, f, b);
    let j = i / PLANE as int * 64 + i % 64;
    let a = crate::motion_search::triple(frame_of(c, f), b / 126, b % 126);
    lemma_place(f, i);
    lemma_block_place(f, b);
    if f > 0 {
        lemma_decided(
            frame_of(c, f),
            previous,
            crate::motion_pixels::rendered(frame_of(c, f), q[f]),
            before,
            q[f],
            b / 126,
            b % 126,
        );
        crate::motion_search::lemma_decided_vector(
            frame_of(c, f),
            previous,
            crate::motion_pixels::rendered(frame_of(c, f), q[f]),
            before,
            q[f],
            b / 126,
            b % 126,
        );
    }
    assert(crate::motion_search::storable(a, d.pred));
    assert(guess_at(r, f, b, previous, before, q[f]) == d.pred);
    assert(j / 64 == i / PLANE as int && j % 64 == i % 64);
    assert(a[j] == c[f * FRAME + i]);
    assert(crate::mov_cross::fits(a[j] - d.pred[j]));
    assert(error_at(c, q, f * FRAME + i) == a[j] - d.pred[j]);
}

#[verifier::rlimit(60)]
#[verifier::spinoff_prover]
proof fn lemma_recovered(c: Seq<i16>, q: Seq<Quant>, f: int)
    requires
        c.len() == q.len() * FRAME,
        0 <= f <= q.len(),
    ensures
        recovered_from(residual(c, q), q, f, c.take(f * FRAME)) == Ok::<Seq<i16>, Seq<char>>(c),
    decreases q.len() - f,
{
    let r = residual(c, q);
    let out = c.take(f * FRAME);
    if f >= q.len() {
        assert(out =~= c);
    } else {
        let previous = frame_of(out, f - 1);
        let t = raised(r, f, previous, crate::motion_pixels::rendered(previous, q[f - 1]), q[f]);
        if f > 0 {
            assert(previous =~= frame_of(c, f - 1));
        }
        assert forall|i: int| 0 <= i < FRAME implies #[trigger] t[i] == c[f * FRAME + i] by {
            lemma_raised(c, q, f, previous, i);
        }
        assert(crate::mov_cross::all_fit(t)) by {
            assert forall|i: int| 0 <= i < FRAME implies crate::mov_cross::fits(#[trigger] t[i]) by {
                assert(t[i] == c[f * FRAME + i]);
            }
        }
        assert(out + crate::mov_cross::narrow(t) =~= c.take((f + 1) * FRAME));
        lemma_recovered(c, q, f + 1);
    }
}

/// Coefficients come back from what prediction leaves of them.
pub proof fn law_motion_is_undone(c: Seq<i16>, q: Seq<Quant>)
    requires
        c.len() == q.len() * FRAME,
    ensures
        recovered(residual(c, q), q) == Ok::<Seq<i16>, Seq<char>>(c),
{
    assert(c.take(0) =~= Seq::<i16>::empty());
    lemma_recovered(c, q, 0);
}

}
