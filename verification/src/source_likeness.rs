//! Whether two movies show much of the same.

use crate::prores_bits::decode;
use crate::prores_frame::{frames, Contents, Frame};
use crate::source_frames::{block_same, compose, take_values, Painter};
use crate::source_planes::{Image, Planes};
use vstd::prelude::*;

verus! {

/// Whether a block has one colour.
pub open spec fn plain(a: Image, by: int, bx: int) -> bool {
    forall|c: int, y: int, x: int|
        0 <= c < 4 && by * 8 <= y < by * 8 + 8 && bx * 8 <= x < bx * 8 + 8 ==> #[trigger] a.at(c, y, x)
            == a.at(c, by * 8, bx * 8)
}

/// How many of the first `k` blocks two pictures share that have more than one colour.
pub open spec fn shared(a: Image, b: Image, k: int) -> int
    decreases k,
{
    if k <= 0 {
        0
    } else {
        let (by, bx) = ((k - 1) / (a.w / 8), (k - 1) % (a.w / 8));
        shared(a, b, k - 1) + if !plain(a, by, bx) && crate::source_frames::matching(a, b, by, bx, 0) {
            1int
        } else {
            0
        }
    }
}

/// Whether two pictures share one block in a hundred.
pub open spec fn alike(a: Image, b: Image) -> bool {
    let blocks = (a.w / 8) * (a.h / 8);
    crate::source_frames::same_shape(a, b) && shared(a, b, blocks) * 100 >= blocks
}

/// The picture of a frame with the given colours, if it has one.
pub open spec fn pictured(raw: Seq<u8>, fr: Contents, colours: Seq<u8>) -> Option<Image> {
    let (w, h) = (crate::source_encode::width_of(fr), crate::source_encode::height_of(fr));
    match crate::prores_bits::decoded(raw, fr) {
        Err(_) => None,
        Ok(d) => Some(
            crate::source_planes::image_of(
                w,
                h,
                crate::source_frames::shown(
                    d.alpha,
                    crate::source_frames::cut_to(colours, 3 * (w * h), 0u8),
                ),
            ),
        ),
    }
}

/// Whether a painter was asked for the colours of a frame, answered with these, and is then as `after` is.
pub open spec fn colours_asked<P: Painter>(
    raw: Seq<u8>,
    fr: Contents,
    colours: Seq<u8>,
    before: P,
    after: P,
) -> bool {
    match crate::prores_bits::decoded(raw, fr) {
        Err(_) => before == after,
        Ok(d) => before.paints(d, fr, colours, &after),
    }
}

/// The frame at the start, in the middle, or at the end of a movie.
pub open spec fn pick(n: int, k: int) -> int {
    k * (n - 1) / 2
}

/// Whether frame number `k` of three that are looked at is alike in two movies, with the given
/// colours.
pub open spec fn likened(a: Seq<u8>, b: Seq<u8>, k: int, colours: (Seq<u8>, Seq<u8>)) -> bool {
    let (fa, fb) = (crate::prores_frame::frames_of(a), crate::prores_frame::frames_of(b));
    let (i, j) = (pick(fa.len() as int, k), pick(fb.len() as int, k));
    match (pictured(a, fa[i], colours.0), pictured(b, fb[j], colours.1)) {
        (Some(x), Some(y)) => alike(x, y),
        _ => false,
    }
}

/// Whether a painter was asked for the colours of the frames that are compared at one of three places.
pub open spec fn liken_asked<P: Painter>(
    a: Seq<u8>,
    b: Seq<u8>,
    k: int,
    colours: (Seq<u8>, Seq<u8>),
    before: P,
    after: P,
) -> bool {
    let (fa, fb) = (crate::prores_frame::frames_of(a), crate::prores_frame::frames_of(b));
    exists|mid: P| #[trigger]
        colours_asked(a, fa[pick(fa.len() as int, k)], colours.0, before, mid) && colours_asked(
            b,
            fb[pick(fb.len() as int, k)],
            colours.1,
            mid,
            after,
        )
}

/// Whether a painter was asked for the colours of the frames by which two movies are compared.
pub open spec fn related_asked<P: Painter>(
    a: Seq<u8>,
    b: Seq<u8>,
    colours: Seq<(Seq<u8>, Seq<u8>)>,
    before: P,
    after: P,
) -> bool {
    if !same_size(a, b) {
        before == after
    } else {
        exists|one: P, two: P| #[trigger]
            liken_asked(a, b, 0, colours[0], before, one) && #[trigger] liken_asked(
                a,
                b,
                2,
                colours[2],
                two,
                after,
            ) && liken_asked(a, b, 1, colours[1], one, two)
    }
}

/// Whether two movies start with frames of one size.
pub open spec fn same_size(a: Seq<u8>, b: Seq<u8>) -> bool {
    let (fa, fb) = (crate::prores_frame::frames_of(a), crate::prores_frame::frames_of(b));
    fa.len() > 0 && fb.len() > 0 && fa[0].width == fb[0].width && fa[0].height == fb[0].height
}

/// Whether two movies show much of the same, with the given colours of the frames that are looked at.
pub open spec fn related(a: Seq<u8>, b: Seq<u8>, colours: Seq<(Seq<u8>, Seq<u8>)>) -> bool {
    same_size(a, b) && (likened(a, b, 0, colours[0]) || likened(a, b, 1, colours[1]) || likened(
        a,
        b,
        2,
        colours[2],
    ))
}

fn is_plain(a: &Planes, by: usize, bx: usize) -> (r: bool)
    requires
        a.wf(),
        by * 8 + 8 <= a@.h,
        bx * 8 + 8 <= a@.w,
    ensures
        r == plain(a@, by as int, bx as int),
{
    proof {
        a.lemma_shape();
    }
    let mut i: usize = 0;
    while i < 256
        invariant
            i <= 256,
            a.wf(),
            a@.h <= usize::MAX,
            a@.w <= usize::MAX,
            by * 8 + 8 <= a@.h,
            bx * 8 + 8 <= a@.w,
            forall|c: int, y: int, x: int|
                0 <= c < 4 && by * 8 <= y < by * 8 + 8 && bx * 8 <= x < bx * 8 + 8 && c * 64 + (y - by * 8) * 8
                    + x - bx * 8 < i ==> #[trigger] a@.at(c, y, x) == a@.at(c, by * 8, bx * 8),
        decreases 256 - i,
    {
        let c: usize = i / 64;
        let y: usize = by * 8 + i / 8 % 8;
        let x: usize = bx * 8 + i % 8;
        if a.get(c, y, x) != a.get(c, by * 8, bx * 8) {
            assert(a@.at(c as int, y as int, x as int) != a@.at(c as int, by * 8, bx * 8));
            return false;
        }
        assert forall|d: int, v: int, u: int|
            0 <= d < 4 && by * 8 <= v < by * 8 + 8 && bx * 8 <= u < bx * 8 + 8 && d * 64 + (v - by * 8) * 8
                + u - bx * 8 < i + 1 implies #[trigger] a@.at(d, v, u) == a@.at(d, by * 8, bx * 8) by {
            if d * 64 + (v - by * 8) * 8 + u - bx * 8 == i {
                assert(d == c && v == y && u == x);
            }
        }
        i += 1;
    }
    true
}

/// Tells whether two pictures share one block in a hundred.
fn are_alike(a: &Planes, b: &Planes) -> (r: bool)
    requires
        a.wf(),
        b.wf(),
        crate::source_frames::shaped(a@),
    ensures
        r == alike(a@, b@),
{
    proof {
        a.lemma_shape();
        b.lemma_shape();
    }
    if a.w != b.w || a.h != b.h {
        return false;
    }
    let (bw, bh) = (a.w / 8, a.h / 8);
    assert(0 <= bw * bh <= 1024 * 1024) by (nonlinear_arith)
        requires
            0 <= bw <= 1024,
            0 <= bh <= 1024,
    ;
    let total: usize = bw * bh;
    let mut n: usize = 0;
    let mut k: usize = 0;
    while k < total
        invariant
            k <= total <= 1024 * 1024,
            total == bw * bh,
            bw == a@.w / 8,
            bh == a@.h / 8,
            bw >= 1,
            n <= k,
            a.wf(),
            b.wf(),
            crate::source_frames::same_shape(a@, b@),
            n == shared(a@, b@, k as int),
        decreases total - k,
    {
        proof {
            assert(k as int / bw as int >= 0 && (k as int / bw as int) < bh) by (nonlinear_arith)
                requires
                    0 <= k < bw * bh,
                    bw >= 1,
            ;
        }
        let (by, bx) = (k / bw, k % bw);
        if !is_plain(a, by, bx) && block_same(a, b, by, bx, 0) {
            n += 1;
        }
        k += 1;
    }
    n * 100 >= total
}

/// The picture of a frame, if it can be decoded.
fn picture<P: Painter>(raw: &[u8], fr: &Frame, painter: &mut P) -> (r: Option<Planes>)
    requires
        fr@.wf(),
    ensures
        exists|colours: Seq<u8>|
            (match r {
                Some(p) => pictured(raw@, fr@, colours) == Some(p@),
                None => pictured(raw@, fr@, colours) is None,
            }) && #[trigger] colours_asked(raw@, fr@, colours, *old(painter), *final(painter)),
        r matches Some(p) ==> p.wf() && crate::source_frames::shaped(p@),
{
    let d = match decode(raw, fr) {
        Err(_) => {
            assert(colours_asked(raw@, fr@, Seq::empty(), *painter, *painter));
            return None;
        },
        Ok(d) => d,
    };
    let (w, h) = (d.wp, d.hp);
    assert(0 <= w * h <= 8192 * 8192) by (nonlinear_arith)
        requires
            16 <= w <= 8192,
            16 <= h <= 8192,
    ;
    let painted = painter.paint(&d, fr);
    let ghost said = painted@;
    let colours = take_values(painted, 3 * (w * h));
    let p = compose(w, h, &d.alpha, &colours);
    assert(pictured(raw@, fr@, said) == Some(p@));
    assert(colours_asked(raw@, fr@, said, *old(painter), *painter));
    Some(p)
}

fn find_pick(n: usize, k: usize) -> (i: usize)
    requires
        1 <= n,
        k <= 2,
    ensures
        i == pick(n as int, k as int),
        i < n,
{
    if k == 0 {
        0
    } else if k == 1 {
        (n - 1) / 2
    } else {
        n - 1
    }
}

/// Compares two movies at one of three places.
fn liken<P: Painter>(a: &[u8], b: &[u8], fa: &Vec<Frame>, fb: &Vec<Frame>, k: usize, painter: &mut P) -> (r: bool)
    requires
        crate::prores_frame::views(fa@) == crate::prores_frame::frames_of(a@),
        crate::prores_frame::views(fb@) == crate::prores_frame::frames_of(b@),
        crate::prores_frame::all_wf(fa@),
        crate::prores_frame::all_wf(fb@),
        1 <= fa@.len(),
        1 <= fb@.len(),
        k <= 2,
    ensures
        exists|c: (Seq<u8>, Seq<u8>)|
            r == likened(a@, b@, k as int, c) && #[trigger] liken_asked(
                a@,
                b@,
                k as int,
                c,
                *old(painter),
                *final(painter),
            ),
{
    let i: usize = find_pick(fa.len(), k);
    let j: usize = find_pick(fb.len(), k);
    let ghost va = crate::prores_frame::views(fa@);
    let ghost vb = crate::prores_frame::views(fb@);
    assert(fa@[i as int]@ == va[i as int]);
    assert(fb@[j as int]@ == vb[j as int]);
    assert(fa@[i as int]@.wf());
    assert(fb@[j as int]@.wf());
    let x = picture(a, &fa[i], painter);
    let ghost mid = *painter;
    let ghost cx = choose|colours: Seq<u8>|
        (match x {
            Some(p) => pictured(a@, va[i as int], colours) == Some(p@),
            None => pictured(a@, va[i as int], colours) is None,
        }) && #[trigger] colours_asked(a@, va[i as int], colours, *old(painter), mid);
    let y = picture(b, &fb[j], painter);
    let ghost cy = choose|colours: Seq<u8>|
        (match y {
            Some(p) => pictured(b@, vb[j as int], colours) == Some(p@),
            None => pictured(b@, vb[j as int], colours) is None,
        }) && #[trigger] colours_asked(b@, vb[j as int], colours, mid, *painter);
    let r: bool = match (&x, &y) {
        (Some(p), Some(q)) => are_alike(p, q),
        _ => false,
    };
    assert(r == likened(a@, b@, k as int, (cx, cy)));
    assert(liken_asked(a@, b@, k as int, (cx, cy), *old(painter), *painter));
    r
}

/// Tells whether two movies show much of the same.
pub fn shares_content<P: Painter>(a: &[u8], b: &[u8], painter: &mut P) -> (r: bool)
    requires
        crate::prores_frame::addressable(a.len() as int),
        crate::prores_frame::addressable(b.len() as int),
    ensures
        exists|colours: Seq<(Seq<u8>, Seq<u8>)>|
            r == related(a@, b@, colours) && #[trigger] related_asked(
                a@,
                b@,
                colours,
                *old(painter),
                *final(painter),
            ),
{
    let fa = frames(a);
    let fb = frames(b);
    let ghost none = (Seq::<u8>::empty(), Seq::<u8>::empty());
    if fa.len() == 0 || fb.len() == 0 || fa[0].width != fb[0].width || fa[0].height != fb[0].height {
        assert(related_asked(a@, b@, seq![none, none, none], *painter, *painter));
        return false;
    }
    let first = liken(a, b, &fa, &fb, 0, painter);
    let ghost one = *painter;
    let second = liken(a, b, &fa, &fb, 1, painter);
    let ghost two = *painter;
    let third = liken(a, b, &fa, &fb, 2, painter);
    proof {
        let c0 = choose|c: (Seq<u8>, Seq<u8>)|
            first == likened(a@, b@, 0, c) && #[trigger] liken_asked(a@, b@, 0, c, *old(painter), one);
        let c1 = choose|c: (Seq<u8>, Seq<u8>)|
            second == likened(a@, b@, 1, c) && #[trigger] liken_asked(a@, b@, 1, c, one, two);
        let c2 = choose|c: (Seq<u8>, Seq<u8>)|
            third == likened(a@, b@, 2, c) && #[trigger] liken_asked(a@, b@, 2, c, two, *painter);
        let c = seq![c0, c1, c2];
        assert(related(a@, b@, c) == (first || second || third));
        assert(liken_asked(a@, b@, 0, c[0], *old(painter), one) && liken_asked(a@, b@, 1, c[1], one, two)
            && liken_asked(a@, b@, 2, c[2], two, *painter));
        assert(related_asked(a@, b@, c, *old(painter), *painter));
    }
    first || second || third
}

}
