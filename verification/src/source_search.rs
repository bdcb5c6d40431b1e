//! How the blocks of a picture are best predicted.

use crate::source_planes::{
    predict, wrap, Image, Planes, Shift, MAX_SIDE, SAME, SPATIAL, TCOPY, TGRAD,
};
use crate::source_rc::highest;
use vstd::prelude::*;

verus! {

/// How many pictures a block can be predicted from.
pub const MAXREF: usize = 5;

/// How far, in half pixels, a block is looked for.
pub const REACH: i64 = 128;

/// How many binary digits a number has.
pub open spec fn digits(n: int) -> int {
    if n <= 0 {
        0
    } else {
        crate::codeword::top_bit(n) + 1
    }
}

pub open spec fn size_of(n: int) -> int {
    if n < 0 {
        -n
    } else {
        n
    }
}

/// Where pixel number `k` of a block lies: channel, row and column.
pub open spec fn spot(by: int, bx: int, k: int) -> (int, int, int) {
    (k / 64, by * 8 + k / 8 % 8, bx * 8 + k % 8)
}

/// How pixel number `k` of a block differs from that of another picture.
pub open spec fn gap(cur: Image, rf: Image, mv: Shift, by: int, bx: int, k: int) -> int {
    let (c, y, x) = spot(by, bx, k);
    cur.at(c, y, x) - rf.half(c, 2 * y + mv.dy, 2 * x + mv.dx)
}

/// The differences of the first `n` pixels of a block, added up.
pub open spec fn gaps(cur: Image, rf: Image, mv: Shift, by: int, bx: int, n: int) -> int
    decreases n,
{
    if n <= 0 {
        0
    } else {
        gaps(cur, rf, mv, by, bx, n - 1) + size_of(gap(cur, rf, mv, by, bx, n - 1))
    }
}

/// About how many bits the first `n` pixels of a block take, if they are copied.
pub open spec fn copy_bits(cur: Image, rf: Image, mv: Shift, by: int, bx: int, n: int) -> int
    decreases n,
{
    if n <= 0 {
        0
    } else {
        copy_bits(cur, rf, mv, by, bx, n - 1) + digits(
            size_of(crate::source_planes::wrapped(gap(cur, rf, mv, by, bx, n - 1))),
        )
    }
}

/// About how many bits the first `n` pixels of a block take, if they are predicted.
pub open spec fn mode_bits(cur: Image, rf: Image, mode: usize, mv: Shift, by: int, bx: int, n: int) -> int
    decreases n,
{
    if n <= 0 {
        0
    } else {
        let (c, y, x) = spot(by, bx, n - 1);
        mode_bits(cur, rf, mode, mv, by, bx, n - 1) + digits(
            size_of(
                crate::source_planes::wrapped(
                    cur.at(c, y, x) - crate::source_planes::predicted(
                        cur,
                        rf,
                        0,
                        mode,
                        mv,
                        c,
                        y,
                        x,
                    ),
                ),
            ),
        )
    }
}

/// Whether a block lies in a picture.
pub open spec fn block_in(i: Image, by: int, bx: int) -> bool {
    0 <= by && 0 <= bx && by * 8 + 8 <= i.h && bx * 8 + 8 <= i.w
}

/// Two pictures of one shape that blocks can be looked for in.
pub open spec fn matched(cur: &Planes, rf: &Planes) -> bool {
    &&& cur.wf()
    &&& rf.wf()
    &&& 8 <= cur.w <= MAX_SIDE
    &&& 8 <= cur.h <= MAX_SIDE
    &&& rf.w == cur.w
    &&& rf.h == cur.h
}

fn magnitude(n: i32) -> (r: u32)
    requires
        -1000 <= n <= 1000,
    ensures
        r == size_of(n as int),
        r <= 1000,
{
    if n < 0 {
        (-n) as u32
    } else {
        n as u32
    }
}

fn digits_of(n: u32) -> (d: u32)
    requires
        n <= 128,
    ensures
        d == digits(n as int),
        d <= 32,
{
    if n == 0 {
        0
    } else {
        highest(n) as u32 + 1
    }
}

fn find_gap(cur: &Planes, rf: &Planes, mv: Shift, by: usize, bx: usize, k: usize) -> (g: i32)
    requires
        matched(cur, rf),
        block_in(cur@, by as int, bx as int),
        mv.below(REACH as int),
        k < 256,
    ensures
        g == gap(cur@, rf@, mv, by as int, bx as int, k as int),
        -255 <= g <= 255,
{
    proof {
        cur.lemma_shape();
    }
    let c: usize = k / 64;
    let y: usize = by * 8 + k / 8 % 8;
    let x: usize = bx * 8 + k % 8;
    cur.get(c, y, x) as i32 - rf.half(c, 2 * y as i64 + mv.dy, 2 * x as i64 + mv.dx)
}

proof fn lemma_gaps_grow(cur: Image, rf: Image, mv: Shift, by: int, bx: int, m: int, n: int)
    requires
        m <= n,
    ensures
        gaps(cur, rf, mv, by, bx, m) <= gaps(cur, rf, mv, by, bx, n),
    decreases n - m,
{
    if m < n {
        lemma_gaps_grow(cur, rf, mv, by, bx, m, n - 1);
        if n <= 0 {
            assert(gaps(cur, rf, mv, by, bx, n) == 0);
            assert(gaps(cur, rf, mv, by, bx, n - 1) == 0);
        }
    }
}

/// Adds up how a block differs from one in another picture, or stops once that is more than `bound`.
pub fn sad(cur: &Planes, rf: &Planes, mv: Shift, by: usize, bx: usize, bound: u32) -> (s: u32)
    requires
        matched(cur, rf),
        block_in(cur@, by as int, bx as int),
        mv.below(REACH as int),
    ensures
        s <= bound || gaps(cur@, rf@, mv, by as int, bx as int, 256) <= bound ==> s == gaps(
            cur@,
            rf@,
            mv,
            by as int,
            bx as int,
            256,
        ),
        s <= 65280,
{
    let mut s: u32 = 0;
    let mut k: usize = 0;
    while k < 256
        invariant
            k <= 256,
            matched(cur, rf),
            block_in(cur@, by as int, bx as int),
            mv.below(REACH as int),
            s == gaps(cur@, rf@, mv, by as int, bx as int, k as int),
            s <= 255 * k,
        decreases 256 - k,
    {
        if k % 64 == 0 && s > bound {
            proof {
                lemma_gaps_grow(cur@, rf@, mv, by as int, bx as int, k as int, 256);
            }
            return s;
        }
        s = s + magnitude(find_gap(cur, rf, mv, by, bx, k));
        k += 1;
    }
    s
}

/// About how many bits a block takes, if it is copied.
pub fn copy_cost(cur: &Planes, rf: &Planes, mv: Shift, by: usize, bx: usize) -> (s: u32)
    requires
        matched(cur, rf),
        block_in(cur@, by as int, bx as int),
        mv.below(REACH as int),
    ensures
        s == copy_bits(cur@, rf@, mv, by as int, bx as int, 256),
        s <= 8192,
{
    let mut s: u32 = 0;
    let mut k: usize = 0;
    while k < 256
        invariant
            k <= 256,
            matched(cur, rf),
            block_in(cur@, by as int, bx as int),
            mv.below(REACH as int),
            s == copy_bits(cur@, rf@, mv, by as int, bx as int, k as int),
            s <= 32 * k,
        decreases 256 - k,
    {
        s = s + digits_of(magnitude(wrap(find_gap(cur, rf, mv, by, bx, k))));
        k += 1;
    }
    s
}

/// About how many bits a block takes, if it is predicted.
pub fn block_cost(cur: &Planes, rf: &Planes, mode: usize, mv: Shift, by: usize, bx: usize) -> (s: u32)
    requires
        matched(cur, rf),
        block_in(cur@, by as int, bx as int),
        mv.below(REACH as int),
    ensures
        s == mode_bits(cur@, rf@, mode, mv, by as int, bx as int, 256),
        s <= 8192,
{
    let mut s: u32 = 0;
    let mut k: usize = 0;
    while k < 256
        invariant
            k <= 256,
            matched(cur, rf),
            block_in(cur@, by as int, bx as int),
            mv.below(REACH as int),
            s == mode_bits(cur@, rf@, mode, mv, by as int, bx as int, k as int),
            s <= 32 * k,
        decreases 256 - k,
    {
        proof {
            cur.lemma_shape();
        }
        let c: usize = k / 64;
        let y: usize = by * 8 + k / 8 % 8;
        let x: usize = bx * 8 + k % 8;
        let e: i32 = cur.get(c, y, x) as i32 - predict(cur, rf, 0, mode, mv, c, y, x);
        s = s + digits_of(magnitude(wrap(e)));
        k += 1;
    }
    s
}

/// The better of what was found so far and of a place with the difference `s`.
pub open spec fn better(best: (int, Shift), s: int, c: Shift) -> (int, Shift) {
    if s < best.0 {
        (s, c)
    } else {
        best
    }
}

/// The best of the first `n` candidates.
pub open spec fn tried(
    cur: Image,
    rf: Image,
    by: int,
    bx: int,
    best: (int, Shift),
    cands: Seq<Shift>,
    n: int,
) -> (int, Shift)
    decreases n,
{
    if n <= 0 {
        best
    } else {
        let c = cands[n - 1];
        better(
            tried(cur, rf, by, bx, best, cands, n - 1),
            gaps(cur, rf, c, by, bx, 256),
            c,
        )
    }
}

/// The directions in which a better place is looked for.
pub const DOWN: [i64; 8] = [0, 0, 1, -1, 1, 1, -1, -1];

pub const RIGHT: [i64; 8] = [1, -1, 0, 0, 1, -1, 1, -1];

/// The place `step` away from another, in a direction.
pub open spec fn aside(c: Shift, step: int, i: int) -> Shift {
    Shift { dy: (c.dy + DOWN@[i] * step) as i64, dx: (c.dx + RIGHT@[i] * step) as i64 }
}

/// The best of the places in the first `n` directions from `c`.
pub open spec fn ring(
    cur: Image,
    rf: Image,
    by: int,
    bx: int,
    c: Shift,
    step: int,
    best: (int, Shift),
    n: int,
) -> (int, Shift)
    decreases n,
{
    if n <= 0 {
        best
    } else {
        let before = ring(cur, rf, by, bx, c, step, best, n - 1);
        let next = aside(c, step, n - 1);
        if next.below(REACH as int) {
            better(before, gaps(cur, rf, next, by, bx, 256), next)
        } else {
            before
        }
    }
}

/// The best place that steps of one length lead to.
pub open spec fn refined(
    cur: Image,
    rf: Image,
    by: int,
    bx: int,
    best: (int, Shift),
    step: int,
    rounds: int,
) -> (int, Shift)
    decreases rounds,
{
    if rounds <= 0 {
        best
    } else {
        let next = ring(cur, rf, by, bx, best.1, step, best, 8);
        if next.0 == best.0 {
            next
        } else {
            refined(cur, rf, by, bx, next, step, rounds - 1)
        }
    }
}

/// Where in another picture a block is most alike.
pub open spec fn sought(cur: Image, rf: Image, by: int, bx: int, cands: Seq<Shift>, light: bool) -> (
    int,
    Shift,
) {
    let first = tried(
        cur,
        rf,
        by,
        bx,
        (u32::MAX as int, Shift { dy: 0, dx: 0 }),
        cands,
        cands.len() as int,
    );
    if first.0 > 0 {
        let coarse = refined(cur, rf, by, bx, first, 2, 16);
        if light {
            coarse
        } else {
            refined(cur, rf, by, bx, coarse, 1, 16)
        }
    } else {
        first
    }
}

fn try_all(cur: &Planes, rf: &Planes, by: usize, bx: usize, cands: &Vec<Shift>) -> (r: (u32, Shift))
    requires
        matched(cur, rf),
        block_in(cur@, by as int, bx as int),
        forall|i: int| 0 <= i < cands@.len() ==> (#[trigger] cands@[i]).below(REACH as int),
    ensures
        (r.0 as int, r.1) == tried(
            cur@,
            rf@,
            by as int,
            bx as int,
            (u32::MAX as int, Shift { dy: 0, dx: 0 }),
            cands@,
            cands@.len() as int,
        ),
        r.1.below(REACH as int),
{
    let ghost start = (u32::MAX as int, Shift { dy: 0, dx: 0 });
    let mut best: (u32, Shift) = (u32::MAX, Shift { dy: 0, dx: 0 });
    let mut i: usize = 0;
    while i < cands.len()
        invariant
            i <= cands.len(),
            matched(cur, rf),
            block_in(cur@, by as int, bx as int),
            forall|i: int| 0 <= i < cands@.len() ==> (#[trigger] cands@[i]).below(REACH as int),
            best.1.below(REACH as int),
            (best.0 as int, best.1) == tried(
                cur@,
                rf@,
                by as int,
                bx as int,
                start,
                cands@,
                i as int,
            ),
        decreases cands.len() - i,
    {
        let c = cands[i];
        let s = sad(cur, rf, c, by, bx, best.0);
        if s < best.0 {
            best = (s, c);
        }
        i += 1;
    }
    best
}

fn step_around(cur: &Planes, rf: &Planes, by: usize, bx: usize, from: (u32, Shift), step: i64) -> (r: (
    u32,
    Shift,
))
    requires
        matched(cur, rf),
        block_in(cur@, by as int, bx as int),
        from.1.below(REACH as int),
        1 <= step <= 2,
    ensures
        (r.0 as int, r.1) == ring(
            cur@,
            rf@,
            by as int,
            bx as int,
            from.1,
            step as int,
            (from.0 as int, from.1),
            8,
        ),
        r.1.below(REACH as int),
        r.0 <= from.0,
{
    let mut best = from;
    let mut i: usize = 0;
    while i < 8
        invariant
            i <= 8,
            matched(cur, rf),
            block_in(cur@, by as int, bx as int),
            from.1.below(REACH as int),
            1 <= step <= 2,
            best.1.below(REACH as int),
            best.0 <= from.0,
            (best.0 as int, best.1) == ring(
                cur@,
                rf@,
                by as int,
                bx as int,
                from.1,
                step as int,
                (from.0 as int, from.1),
                i as int,
            ),
        decreases 8 - i,
    {
        let (down, right) = (DOWN[i], RIGHT[i]);
        assert(-1 <= down <= 1 && -1 <= right <= 1);
        assert(-2 <= down * step <= 2 && -2 <= right * step <= 2) by (nonlinear_arith)
            requires
                -1 <= down <= 1,
                -1 <= right <= 1,
                1 <= step <= 2,
        ;
        let c = Shift { dy: from.1.dy + down * step, dx: from.1.dx + right * step };
        assert(c == aside(from.1, step as int, i as int));
        if -REACH <= c.dy && c.dy <= REACH && -REACH <= c.dx && c.dx <= REACH {
            let s = sad(cur, rf, c, by, bx, best.0);
            if s < best.0 {
                best = (s, c);
            }
        }
        i += 1;
    }
    best
}

fn refine(cur: &Planes, rf: &Planes, by: usize, bx: usize, from: (u32, Shift), step: i64) -> (r: (
    u32,
    Shift,
))
    requires
        matched(cur, rf),
        block_in(cur@, by as int, bx as int),
        from.1.below(REACH as int),
        1 <= step <= 2,
    ensures
        (r.0 as int, r.1) == refined(
            cur@,
            rf@,
            by as int,
            bx as int,
            (from.0 as int, from.1),
            step as int,
            16,
        ),
        r.1.below(REACH as int),
{
    let ghost whole = refined(
        cur@,
        rf@,
        by as int,
        bx as int,
        (from.0 as int, from.1),
        step as int,
        16,
    );
    let mut best = from;
    let mut left: usize = 16;
    let mut more = true;
    while more && left > 0
        invariant
            left <= 16,
            matched(cur, rf),
            block_in(cur@, by as int, bx as int),
            best.1.below(REACH as int),
            1 <= step <= 2,
            more ==> whole == refined(
                cur@,
                rf@,
                by as int,
                bx as int,
                (best.0 as int, best.1),
                step as int,
                left as int,
            ),
            !more ==> whole == (best.0 as int, best.1),
        decreases left, more as int,
    {
        let next = step_around(cur, rf, by, bx, best, step);
        if next.0 == best.0 {
            more = false;
        }
        best = next;
        left -= 1;
    }
    best
}

fn seek(cur: &Planes, rf: &Planes, by: usize, bx: usize, cands: &Vec<Shift>, light: bool) -> (r: (
    u32,
    Shift,
))
    requires
        matched(cur, rf),
        block_in(cur@, by as int, bx as int),
        forall|i: int| 0 <= i < cands@.len() ==> (#[trigger] cands@[i]).below(REACH as int),
    ensures
        (r.0 as int, r.1) == sought(cur@, rf@, by as int, bx as int, cands@, light),
        r.1.below(REACH as int),
{
    let first = try_all(cur, rf, by, bx, cands);
    if first.0 > 0 {
        let coarse = refine(cur, rf, by, bx, first, 2);
        if light {
            coarse
        } else {
            refine(cur, rf, by, bx, coarse, 1)
        }
    } else {
        first
    }
}

/// How a block is predicted: the kind of prediction, how far it has moved, and which picture it is
/// predicted from.
#[derive(Clone, Copy, PartialEq, Eq, Structural)]
pub struct Decision {
    pub mode: usize,
    pub mv: Shift,
    pub ri: usize,
}

/// A prediction that has been found, and about how many bits it takes.
#[derive(Clone, Copy, PartialEq, Eq, Structural)]
pub struct Choice {
    pub cost: u32,
    pub how: Decision,
}

pub open spec fn still() -> Shift {
    Shift { dy: 0, dx: 0 }
}

/// The pictures that a list of references holds.
pub open spec fn images(refs: Seq<&Planes>) -> Seq<Image> {
    Seq::new(refs.len(), |i: int| refs[i]@)
}

/// Whether a block is the same in two pictures.
pub open spec fn same_block(a: Image, b: Image, by: int, bx: int) -> bool {
    forall|c: int, y: int, x: int|
        0 <= c < 4 && by * 8 <= y < by * 8 + 8 && bx * 8 <= x < bx * 8 + 8 ==> #[trigger] a.at(c, y, x)
            == b.at(c, y, x)
}

/// What naming a picture costs.
pub open spec fn naming(ri: int) -> int {
    if ri == 0 {
        0
    } else {
        1 + ri
    }
}

/// The best way to copy a block from the pictures from number `ri` on. The first `own` are earlier
/// pictures of the same movie.
pub open spec fn copied(
    cur: Image,
    refs: Seq<Image>,
    own: int,
    light: bool,
    by: int,
    bx: int,
    cands: Seq<Shift>,
    ri: int,
    best: Option<Choice>,
) -> Option<Choice>
    decreases refs.len() - ri,
{
    if ri >= refs.len() {
        best
    } else if light && 0 < ri < own {
        copied(cur, refs, own, light, by, bx, cands, ri + 1, best)
    } else {
        let (s, mv) = sought(cur, refs[ri], by, bx, cands, light);
        let cost = copy_bits(cur, refs[ri], mv, by, bx, 256) + naming(ri);
        let found = Choice { cost: cost as u32, how: Decision { mode: TCOPY, mv, ri: ri as usize } };
        let next = match best {
            Some(b) if cost >= b.cost => best,
            _ => Some(found),
        };
        if s == 0 || (ri == 0 && cost <= 32 && refs.len() <= own) {
            next
        } else {
            copied(cur, refs, own, light, by, bx, cands, ri + 1, next)
        }
    }
}

/// How a block is predicted that is not the same in the last picture.
pub open spec fn settled(cur: Image, refs: Seq<Image>, by: int, bx: int, first: Choice) -> Decision {
    if first.cost == 0 {
        first.how
    } else {
        let (ri, mv) = (first.how.ri, first.how.mv);
        let graded = mode_bits(cur, refs[ri as int], TGRAD, mv, by, bx, 256) + naming(ri as int);
        let best = if graded < first.cost {
            graded
        } else {
            first.cost as int
        };
        if mode_bits(cur, refs[0], SPATIAL, still(), by, bx, 256) <= best {
            Decision { mode: SPATIAL, mv: still(), ri: 0 }
        } else if graded < first.cost {
            Decision { mode: TGRAD, mv, ri }
        } else {
            first.how
        }
    }
}

pub open spec fn unchanged() -> Decision {
    Decision { mode: SAME, mv: still(), ri: 0 }
}

/// How a block is predicted.
pub open spec fn decided(
    cur: Image,
    refs: Seq<Image>,
    own: int,
    light: bool,
    by: int,
    bx: int,
    cands: Seq<Shift>,
) -> Decision {
    if same_block(cur, refs[0], by, bx) {
        unchanged()
    } else {
        match copied(cur, refs, own, light, by, bx, cands, 0, None) {
            Some(first) => settled(cur, refs, by, bx, first),
            None => unchanged(),
        }
    }
}

/// Where a block is first looked for: where it stands, where it was found in the last picture, and
/// where its left neighbour was found.
pub open spec fn candidates(prev: Seq<Shift>, row: Seq<Decision>, at: int) -> Seq<Shift> {
    let first = seq![still(), prev[at]];
    if row.len() > 0 {
        first.push(row[row.len() - 1].mv)
    } else {
        first
    }
}

/// How the first `n` blocks of a row are predicted.
pub open spec fn row_plan(
    cur: Image,
    refs: Seq<Image>,
    own: int,
    light: bool,
    prev: Seq<Shift>,
    by: int,
    n: int,
) -> Seq<Decision>
    decreases n,
{
    if n <= 0 {
        Seq::empty()
    } else {
        let row = row_plan(cur, refs, own, light, prev, by, n - 1);
        row.push(
            decided(
                cur,
                refs,
                own,
                light,
                by,
                n - 1,
                candidates(prev, row, by * (cur.w / 8) + n - 1),
            ),
        )
    }
}

/// How the blocks of the first `n` rows are predicted.
pub open spec fn plan(
    cur: Image,
    refs: Seq<Image>,
    own: int,
    light: bool,
    prev: Seq<Shift>,
    n: int,
) -> Seq<Decision>
    decreases n,
{
    if n <= 0 {
        Seq::empty()
    } else {
        plan(cur, refs, own, light, prev, n - 1) + row_plan(
            cur,
            refs,
            own,
            light,
            prev,
            n - 1,
            cur.w / 8,
        )
    }
}

/// Pictures of one shape, with at least one to predict from.
pub open spec fn all_matched(cur: &Planes, refs: Seq<&Planes>) -> bool {
    &&& 1 <= refs.len() <= MAXREF
    &&& forall|i: int| 0 <= i < refs.len() ==> matched(cur, #[trigger] refs[i])
}

fn is_same(cur: &Planes, rf: &Planes, by: usize, bx: usize) -> (r: bool)
    requires
        matched(cur, rf),
        block_in(cur@, by as int, bx as int),
    ensures
        r == same_block(cur@, rf@, by as int, bx as int),
{
    let mut k: usize = 0;
    while k < 256
        invariant
            k <= 256,
            matched(cur, rf),
            block_in(cur@, by as int, bx as int),
            forall|i: int|
                0 <= i < k ==> {
                    let (c, y, x) = #[trigger] spot(by as int, bx as int, i);
                    cur@.at(c, y, x) == rf@.at(c, y, x)
                },
        decreases 256 - k,
    {
        proof {
            cur.lemma_shape();
            rf.lemma_shape();
        }
        let c: usize = k / 64;
        let y: usize = by * 8 + k / 8 % 8;
        let x: usize = bx * 8 + k % 8;
        assert(spot(by as int, bx as int, k as int) == (c as int, y as int, x as int));
        if cur.get(c, y, x) != rf.get(c, y, x) {
            return false;
        }
        k += 1;
    }
    proof {
        assert forall|c: int, y: int, x: int|
            0 <= c < 4 && by * 8 <= y < by * 8 + 8 && bx * 8 <= x < bx * 8 + 8 implies #[trigger] cur@.at(
            c,
            y,
            x,
        ) == rf@.at(c, y, x) by {
            let i = c * 64 + (y - by * 8) * 8 + (x - bx * 8);
            assert(spot(by as int, bx as int, i) == (c, y, x));
        }
    }
    true
}

fn copy_best(
    cur: &Planes,
    refs: &Vec<&Planes>,
    own: usize,
    light: bool,
    by: usize,
    bx: usize,
    cands: &Vec<Shift>,
) -> (r: Option<Choice>)
    requires
        all_matched(cur, refs@),
        block_in(cur@, by as int, bx as int),
        forall|i: int| 0 <= i < cands@.len() ==> (#[trigger] cands@[i]).below(REACH as int),
    ensures
        r == copied(
            cur@,
            images(refs@),
            own as int,
            light,
            by as int,
            bx as int,
            cands@,
            0,
            None,
        ),
        r matches Some(c) ==> c.how.mv.below(REACH as int) && c.how.ri < refs@.len() && c.how.mode
            == TCOPY && c.cost <= 10000,
{
    let ghost all = images(refs@);
    let ghost whole = copied(
        cur@,
        all,
        own as int,
        light,
        by as int,
        bx as int,
        cands@,
        0,
        None,
    );
    let mut best: Option<Choice> = None;
    let mut ri: usize = 0;
    while ri < refs.len()
        invariant
            ri <= refs.len(),
            all == images(refs@),
            all_matched(cur, refs@),
            block_in(cur@, by as int, bx as int),
            forall|i: int| 0 <= i < cands@.len() ==> (#[trigger] cands@[i]).below(REACH as int),
            best matches Some(c) ==> c.how.mv.below(REACH as int) && c.how.ri < refs@.len()
                && c.how.mode == TCOPY && c.cost <= 10000,
            whole == copied(
                cur@,
                all,
                own as int,
                light,
                by as int,
                bx as int,
                cands@,
                0,
                None,
            ),
            whole == copied(
                cur@,
                all,
                own as int,
                light,
                by as int,
                bx as int,
                cands@,
                ri as int,
                best,
            ),
        decreases refs.len() - ri,
    {
        if !(light && ri > 0 && ri < own) {
            let rf = refs[ri];
            assert(rf@ == all[ri as int]);
            let (s, mv) = seek(cur, rf, by, bx, cands, light);
            let cost: u32 = copy_cost(cur, rf, mv, by, bx) + if ri == 0 {
                0
            } else {
                1 + ri as u32
            };
            let found = Choice { cost, how: Decision { mode: TCOPY, mv, ri } };
            let keep: bool = match best {
                Some(b) => cost >= b.cost,
                None => false,
            };
            if !keep {
                best = Some(found);
            }
            if s == 0 || (ri == 0 && cost <= 32 && refs.len() <= own) {
                return best;
            }
        }
        ri += 1;
    }
    best
}

fn settle(cur: &Planes, refs: &Vec<&Planes>, by: usize, bx: usize, first: Choice) -> (d: Decision)
    requires
        all_matched(cur, refs@),
        block_in(cur@, by as int, bx as int),
        first.how.mv.below(REACH as int),
        first.how.ri < refs@.len(),
        first.how.mode == TCOPY,
    ensures
        d == settled(cur@, images(refs@), by as int, bx as int, first),
        d.mv.below(REACH as int),
{
    if first.cost == 0 {
        return first.how;
    }
    let ri: usize = first.how.ri;
    let mv = first.how.mv;
    assert(refs@[ri as int]@ == images(refs@)[ri as int]);
    assert(refs@[0]@ == images(refs@)[0]);
    let graded: u32 = block_cost(cur, refs[ri], TGRAD, mv, by, bx) + if ri == 0 {
        0
    } else {
        1 + ri as u32
    };
    let best: u32 = if graded < first.cost {
        graded
    } else {
        first.cost
    };
    if block_cost(cur, refs[0], SPATIAL, Shift { dy: 0, dx: 0 }, by, bx) <= best {
        Decision { mode: SPATIAL, mv: Shift { dy: 0, dx: 0 }, ri: 0 }
    } else if graded < first.cost {
        Decision { mode: TGRAD, mv, ri }
    } else {
        first.how
    }
}

pub open spec fn all_below(v: Seq<Shift>) -> bool {
    forall|i: int| 0 <= i < v.len() ==> (#[trigger] v[i]).below(REACH as int)
}

/// Decides how the blocks of a row are predicted.
fn decide(
    cur: &Planes,
    refs: &Vec<&Planes>,
    own: usize,
    light: bool,
    prev: &Vec<Shift>,
    by: usize,
) -> (row: Vec<Decision>)
    requires
        all_matched(cur, refs@),
        by < cur.h / 8,
        prev.len() == (cur.w / 8) * (cur.h / 8),
        all_below(prev@),
    ensures
        row@ == row_plan(
            cur@,
            images(refs@),
            own as int,
            light,
            prev@,
            by as int,
            cur.w as int / 8,
        ),
        row@.len() == cur.w / 8,
{
    proof {
        cur.lemma_shape();
    }
    let bw: usize = cur.w / 8;
    let mut row: Vec<Decision> = Vec::with_capacity(bw);
    assert(by * bw + bw <= bw * (cur.h / 8)) by (nonlinear_arith)
        requires
            by < cur.h / 8,
            bw >= 0,
    ;
    assert(0 <= by * bw) by (nonlinear_arith)
        requires
            0 <= by,
            0 <= bw,
    ;
    let start: usize = by * bw;
    let mut bx: usize = 0;
    while bx < bw
        invariant
            bx <= bw,
            bw == cur.w / 8,
            cur@.w == cur.w,
            cur@.h == cur.h,
            start == by * bw,
            start + bw <= prev.len(),
            by < cur.h / 8,
            all_matched(cur, refs@),
            all_below(prev@),
            row@.len() == bx,
            bx > 0 ==> row@[bx - 1].mv.below(REACH as int),
            row@ == row_plan(
                cur@,
                images(refs@),
                own as int,
                light,
                prev@,
                by as int,
                bx as int,
            ),
        decreases bw - bx,
    {
        assert(matched(cur, refs@[0]));
        assert(refs@[0]@ == images(refs@)[0]);
        if is_same(cur, refs[0], by, bx) {
            row.push(Decision { mode: SAME, mv: Shift { dy: 0, dx: 0 }, ri: 0 });
        } else {
            let mut cands: Vec<Shift> = Vec::new();
            cands.push(Shift { dy: 0, dx: 0 });
            cands.push(prev[start + bx]);
            if bx > 0 {
                cands.push(row[bx - 1].mv);
            }
            assert(cands@ =~= candidates(prev@, row@, start + bx));
            let d = match copy_best(cur, refs, own, light, by, bx, &cands) {
                Some(first) => settle(cur, refs, by, bx, first),
                None => Decision { mode: SAME, mv: Shift { dy: 0, dx: 0 }, ri: 0 },
            };
            row.push(d);
        }
        bx += 1;
    }
    row
}

/// Decides how all the blocks of a picture are predicted.
pub fn make_plan(cur: &Planes, refs: &Vec<&Planes>, own: usize, light: bool, prev: &Vec<Shift>) -> (out:
    Vec<Decision>)
    requires
        all_matched(cur, refs@),
        prev@.len() == (cur.w / 8) * (cur.h / 8),
        all_below(prev@),
    ensures
        out@ == plan(cur@, images(refs@), own as int, light, prev@, cur.h as int / 8),
{
    proof {
        cur.lemma_shape();
    }
    let mut out: Vec<Decision> = Vec::new();
    let mut by: usize = 0;
    while by < cur.h / 8
        invariant
            by <= cur.h / 8,
            cur@.w == cur.w,
            cur@.h == cur.h,
            all_matched(cur, refs@),
            prev@.len() == (cur.w / 8) * (cur.h / 8),
            all_below(prev@),
            out@ == plan(cur@, images(refs@), own as int, light, prev@, by as int),
        decreases cur.h / 8 - by,
    {
        let mut row = decide(cur, refs, own, light, prev, by);
        out.append(&mut row);
        by += 1;
    }
    out
}

/// Whether a block can be predicted in a way, and is what such a prediction needs.
pub open spec fn fitting(cur: Image, refs: Seq<Image>, d: Decision, by: int, bx: int) -> bool {
    &&& d.mode < 4
    &&& d.mv.below(REACH as int)
    &&& d.ri < refs.len()
    &&& d.mode == SAME || d.mode == SPATIAL ==> d.mv == still() && d.ri == 0
    &&& d.mode == SAME ==> same_block(cur, refs[0], by, bx)
}

proof fn lemma_tried(cur: Image, rf: Image, by: int, bx: int, best: (int, Shift), cands: Seq<Shift>, n: int)
    requires
        best.1.below(REACH as int),
        all_below(cands),
        n <= cands.len(),
    ensures
        tried(cur, rf, by, bx, best, cands, n).1.below(REACH as int),
    decreases n,
{
    if n > 0 {
        lemma_tried(cur, rf, by, bx, best, cands, n - 1);
    }
}

proof fn lemma_ring(
    cur: Image,
    rf: Image,
    by: int,
    bx: int,
    c: Shift,
    step: int,
    best: (int, Shift),
    n: int,
)
    requires
        best.1.below(REACH as int),
    ensures
        ring(cur, rf, by, bx, c, step, best, n).1.below(REACH as int),
    decreases n,
{
    if n > 0 {
        lemma_ring(cur, rf, by, bx, c, step, best, n - 1);
    }
}

proof fn lemma_refined(cur: Image, rf: Image, by: int, bx: int, best: (int, Shift), step: int, rounds: int)
    requires
        best.1.below(REACH as int),
    ensures
        refined(cur, rf, by, bx, best, step, rounds).1.below(REACH as int),
    decreases rounds,
{
    if rounds > 0 {
        lemma_ring(cur, rf, by, bx, best.1, step, best, 8);
        lemma_refined(
            cur,
            rf,
            by,
            bx,
            ring(cur, rf, by, bx, best.1, step, best, 8),
            step,
            rounds - 1,
        );
    }
}

proof fn lemma_sought(cur: Image, rf: Image, by: int, bx: int, cands: Seq<Shift>, light: bool)
    requires
        all_below(cands),
    ensures
        sought(cur, rf, by, bx, cands, light).1.below(REACH as int),
{
    let start = (u32::MAX as int, Shift { dy: 0, dx: 0 });
    let n = cands.len() as int;
    lemma_tried(cur, rf, by, bx, start, cands, n);
    let first = tried(cur, rf, by, bx, start, cands, n);
    lemma_refined(cur, rf, by, bx, first, 2, 16);
    lemma_refined(cur, rf, by, bx, refined(cur, rf, by, bx, first, 2, 16), 1, 16);
}

/// What is known of a way to copy.
spec fn copyable(refs: Seq<Image>, c: Choice) -> bool {
    c.how.mode == TCOPY && c.how.mv.below(REACH as int) && c.how.ri < refs.len()
}

proof fn lemma_copied(
    cur: Image,
    refs: Seq<Image>,
    own: int,
    light: bool,
    by: int,
    bx: int,
    cands: Seq<Shift>,
    ri: int,
    best: Option<Choice>,
)
    requires
        all_below(cands),
        0 <= ri <= refs.len() <= MAXREF,
        best matches Some(c) ==> copyable(refs, c),
        best is Some || ri == 0,
        refs.len() > 0,
    ensures
        copied(cur, refs, own, light, by, bx, cands, ri, best) matches Some(c) && copyable(refs, c),
    decreases refs.len() - ri,
{
    if ri < refs.len() {
        if light && 0 < ri < own {
            lemma_copied(cur, refs, own, light, by, bx, cands, ri + 1, best);
        } else {
            lemma_sought(cur, refs[ri], by, bx, cands, light);
            let (s, mv) = sought(cur, refs[ri], by, bx, cands, light);
            let cost = copy_bits(cur, refs[ri], mv, by, bx, 256) + naming(ri);
            let found = Choice {
                cost: cost as u32,
                how: Decision { mode: TCOPY, mv, ri: ri as usize },
            };
            let next = match best {
                Some(b) if cost >= b.cost => best,
                _ => Some(found),
            };
            if !(s == 0 || (ri == 0 && cost <= 32 && refs.len() <= own)) {
                lemma_copied(cur, refs, own, light, by, bx, cands, ri + 1, next);
            }
        }
    }
}

proof fn lemma_row_plan(
    cur: Image,
    refs: Seq<Image>,
    own: int,
    light: bool,
    prev: Seq<Shift>,
    by: int,
    n: int,
)
    requires
        1 <= refs.len() <= MAXREF,
        all_below(prev),
        0 <= n <= cur.w / 8,
        0 <= by,
        by * (cur.w / 8) + cur.w / 8 <= prev.len(),
    ensures
        row_plan(cur, refs, own, light, prev, by, n).len() == n,
        forall|i: int|
            0 <= i < n ==> fitting(
                cur,
                refs,
                #[trigger] row_plan(cur, refs, own, light, prev, by, n)[i],
                by,
                i,
            ),
    decreases n,
{
    if n > 0 {
        lemma_row_plan(cur, refs, own, light, prev, by, n - 1);
        let row = row_plan(cur, refs, own, light, prev, by, n - 1);
        let at = by * (cur.w / 8) + n - 1;
        assert(0 <= by * (cur.w / 8)) by (nonlinear_arith)
            requires
                by >= 0,
                cur.w / 8 >= 0,
        ;
        let cands = candidates(prev, row, at);
        assert(all_below(cands)) by {
            if n - 1 > 0 {
                assert(fitting(cur, refs, row[n - 2], by, n - 2));
            }
        }
        if !same_block(cur, refs[0], by, n - 1) {
            lemma_copied(cur, refs, own, light, by, n - 1, cands, 0, None);
        }
    }
}

/// What a plan says of a block, where a row holds `bw` of them.
pub open spec fn entry(p: Seq<Decision>, bw: int, by: int, bx: int) -> Decision {
    p[by * bw + bx]
}

/// Every block is predicted in a way that it can be predicted in.
pub proof fn law_plans_fit(cur: Image, refs: Seq<Image>, own: int, light: bool, prev: Seq<Shift>, n: int)
    requires
        1 <= refs.len() <= MAXREF,
        all_below(prev),
        0 <= cur.w,
        0 <= n,
        n * (cur.w / 8) <= prev.len(),
    ensures
        plan(cur, refs, own, light, prev, n).len() == n * (cur.w / 8),
        forall|by: int, bx: int|
            0 <= by < n && 0 <= bx < cur.w / 8 ==> fitting(
                cur,
                refs,
                #[trigger] entry(plan(cur, refs, own, light, prev, n), cur.w / 8, by, bx),
                by,
                bx,
            ),
    decreases n,
{
    let bw = cur.w / 8;
    if n > 0 {
        assert((n - 1) * bw + bw == n * bw && (n - 1) * bw >= 0) by (nonlinear_arith)
            requires
                n >= 1,
                bw >= 0,
        ;
        law_plans_fit(cur, refs, own, light, prev, n - 1);
        lemma_row_plan(cur, refs, own, light, prev, n - 1, bw);
        let before = plan(cur, refs, own, light, prev, n - 1);
        let row = row_plan(cur, refs, own, light, prev, n - 1, bw);
        assert forall|by: int, bx: int| 0 <= by < n && 0 <= bx < bw implies fitting(
            cur,
            refs,
            #[trigger] entry(plan(cur, refs, own, light, prev, n), bw, by, bx),
            by,
            bx,
        ) by {
            if by < n - 1 {
                assert(0 <= by * bw && by * bw + bx < (n - 1) * bw) by (nonlinear_arith)
                    requires
                        0 <= by < n - 1,
                        0 <= bx < bw,
                ;
                assert(fitting(cur, refs, entry(before, bw, by, bx), by, bx));
            } else {
                assert(fitting(cur, refs, row[bx], by, bx));
            }
        }
    } else {
        assert(n * bw == 0) by (nonlinear_arith)
            requires
                n == 0,
        ;
    }
}

}
