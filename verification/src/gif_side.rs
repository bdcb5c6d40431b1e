//! What is left of an exact form without its pixels describes the same frames, and gives the exact form back
//! together with their pixels.

use crate::gif_split::{Gathered, Shot, LIMIT};
use vstd::prelude::*;

verus! {

/// Whether the bytes of `b` from `p` to `q` stand in `c` from `r` on.
#[verifier::opaque]
pub open spec fn copied(b: Seq<u8>, p: int, q: int, c: Seq<u8>, r: int) -> bool {
    &&& 0 <= p <= q <= b.len()
    &&& 0 <= r
    &&& r + (q - p) <= c.len()
    &&& forall|i: int| p <= i < q ==> #[trigger] b[i] == c[r + i - p]
}

proof fn lemma_groups(b: Seq<u8>, p: int, group: int, sum: int, scale: int, c: Seq<u8>, r: int, n: int, q: int)
    requires
        crate::gif_exact::read_groups(b, p, group, sum, scale) == Ok::<(int, int), Seq<char>>((n, q)),
        copied(b, p, q, c, r),
    ensures
        p < q,
        crate::gif_exact::read_groups(c, r, group, sum, scale) == Ok::<(int, int), Seq<char>>(
            (n, r + q - p),
        ),
    decreases 10 - group,
{
    reveal(copied);
    if b[p] >= 128 {
        lemma_groups_forward(b, p + 1, group + 1, sum + (b[p] % 128) * scale, scale * 128);
        assert(b[p] == c[r + p - p]);
        lemma_groups(
            b,
            p + 1,
            group + 1,
            sum + (b[p] % 128) * scale,
            scale * 128,
            c,
            r + 1,
            n,
            q,
        );
    } else {
        assert(b[p] == c[r + p - p]);
    }
}

proof fn lemma_groups_forward(b: Seq<u8>, p: int, group: int, sum: int, scale: int)
    ensures
        crate::gif_exact::read_groups(b, p, group, sum, scale) matches Ok((_, q)) ==> p < q <= b.len(),
    decreases 10 - group,
{
    if group < 10 && p < b.len() && b[p] >= 128 {
        lemma_groups_forward(b, p + 1, group + 1, sum + (b[p] % 128) * scale, scale * 128);
    }
}

proof fn lemma_var(b: Seq<u8>, p: int, c: Seq<u8>, r: int, n: int, q: int)
    requires
        crate::gif_split::next_var(b, p) == Ok::<(int, int), Seq<char>>((n, q)),
        copied(b, p, q, c, r),
    ensures
        crate::gif_split::next_var(c, r) == Ok::<(int, int), Seq<char>>((n, r + q - p)),
{
    lemma_groups(b, p, 0, 0, 1, c, r, n, q);
}

proof fn lemma_blob_forward(b: Seq<u8>, p: int)
    requires
        0 <= p,
    ensures
        crate::gif_split::next_var(b, p) matches Ok((_, q)) ==> p < q <= b.len(),
        crate::gif_split::next_blob(b, p) matches Ok((_, q)) ==> p < q <= b.len(),
{
    lemma_groups_forward(b, p, 0, 0, 1);
    lemma_sum(b, p, 0, 0, 1);
}

proof fn lemma_sum(b: Seq<u8>, p: int, group: int, sum: int, scale: int)
    requires
        0 <= sum,
        0 <= scale,
    ensures
        crate::gif_exact::read_groups(b, p, group, sum, scale) matches Ok((n, _)) ==> 0 <= n,
    decreases 10 - group,
{
    if group < 10 && p < b.len() {
        assert(0 <= (b[p] % 128) * scale && 0 <= b[p] * scale) by (nonlinear_arith)
            requires
                0 <= scale,
        ;
        if b[p] >= 128 {
            lemma_sum(b, p + 1, group + 1, sum + (b[p] % 128) * scale, scale * 128);
        }
    }
}

proof fn lemma_blob(b: Seq<u8>, p: int, c: Seq<u8>, r: int, d: Seq<u8>, q: int)
    requires
        crate::gif_split::next_blob(b, p) == Ok::<(Seq<u8>, int), Seq<char>>((d, q)),
        copied(b, p, q, c, r),
        c.len() <= LIMIT,
    ensures
        crate::gif_split::next_blob(c, r) == Ok::<(Seq<u8>, int), Seq<char>>((d, r + q - p)),
{
    reveal(copied);
    lemma_groups_forward(b, p, 0, 0, 1);
    lemma_sum(b, p, 0, 0, 1);
    let (n, at) = crate::gif_exact::var_at(b, p)->Ok_0;
    lemma_groups(b, p, 0, 0, 1, c, r, n, at);
    assert(b.subrange(at, q) =~= c.subrange(r + at - p, r + q - p));
}

/// The state of reading what is left, where `s` is the state of reading the exact form.
spec fn follows(s: Gathered, t: Gathered) -> bool {
    &&& t.pos == s.side.len()
    &&& t.side == s.side
    &&& t.records == s.records
    &&& t.skeleton == s.skeleton
    &&& t.sum == s.sum
    &&& t.pixels.len() == s.pixels.len()
    &&& forall|i: int| 0 <= i < s.pixels.len() ==> (#[trigger] t.pixels[i]).len() == s.pixels[i].len()
}

proof fn lemma_record_forward(b: Seq<u8>, s: Gathered)
    requires
        0 <= s.pos,
    ensures
        crate::gif_split::with_record(b, s, true) matches Ok((next, _)) ==> {
            &&& s.pos < next.pos <= b.len()
            &&& s.side.len() < next.side.len()
            &&& next.side.len() - s.side.len() <= next.pos - s.pos
            &&& next.side.take(s.side.len() as int) =~= s.side
        },
{
    let p = s.pos;
    lemma_blob_forward(b, p + 1);
    if let Ok((n, q)) = crate::gif_split::leader_at(b, p + 1) {
        lemma_frame_forward(b, p + 1, n, q);
    }
}

proof fn lemma_part(b: Seq<u8>, p: int, q: int, c: Seq<u8>, r: int, from: int, to: int)
    requires
        copied(b, p, q, c, r),
        p <= from <= to <= q,
    ensures
        copied(b, from, to, c, r + from - p),
{
    reveal(copied);
    assert forall|i: int| from <= i < to implies #[trigger] b[i] == c[r + from - p + i - from] by {
        assert(b[i] == c[r + i - p]);
    }
}

proof fn lemma_placed(b: Seq<u8>, p: int, q: int, c: Seq<u8>, before: Seq<u8>, after: Seq<u8>)
    requires
        0 <= p <= q <= b.len(),
        before.len() + (q - p) + after.len() <= c.len(),
        c.take(before.len() + (q - p) + after.len()) == before + b.subrange(p, q) + after,
    ensures
        copied(b, p, q, c, before.len() as int),
        c.subrange(before.len() as int, before.len() + (q - p)) == b.subrange(p, q),
{
    reveal(copied);
    let n = before.len() + (q - p) + after.len();
    let r = before.len() as int;
    assert forall|i: int| p <= i < q implies #[trigger] b[i] == c[r + i - p] by {
        assert(c.take(n)[r + i - p] == b.subrange(p, q)[i - p]);
    }
    assert(c.subrange(r, r + (q - p)) =~= b.subrange(p, q));
}

proof fn lemma_leader(b: Seq<u8>, p: int, c: Seq<u8>, r: int, n: int, q: int)
    requires
        0 <= p,
        crate::gif_split::leader_at(b, p) == Ok::<(int, int), Seq<char>>((n, q)),
        copied(b, p, q, c, r),
        c.len() <= LIMIT,
    ensures
        p < q,
        crate::gif_split::leader_at(c, r) == Ok::<(int, int), Seq<char>>((n, r + q - p)),
{
    let (d, at) = crate::gif_split::next_blob(b, p + 1)->Ok_0;
    lemma_blob_forward(b, p + 1);
    lemma_blob_forward(b, at);
    lemma_part(b, p, q, c, r, p + 1, at);
    lemma_part(b, p, q, c, r, at, q);
    lemma_blob(b, p + 1, c, r + 1, d, at);
    lemma_var(b, at, c, r + at - p, n, q);
    assert(r < c.len()) by {
        reveal(copied);
    }
}

proof fn lemma_trailer(b: Seq<u8>, p: int, c: Seq<u8>, r: int, q: int)
    requires
        0 <= p,
        crate::gif_split::trailer_at(b, p) == Ok::<int, Seq<char>>(q),
        copied(b, p, q, c, r),
        c.len() <= LIMIT,
    ensures
        p < q,
        crate::gif_split::trailer_at(c, r) == Ok::<int, Seq<char>>(r + q - p),
{
    let (n, q1) = crate::gif_split::next_var(b, p)->Ok_0;
    let (d, q2) = crate::gif_split::next_blob(b, q1)->Ok_0;
    let (e, q3) = crate::gif_split::next_blob(b, q2)->Ok_0;
    lemma_blob_forward(b, p);
    lemma_blob_forward(b, q1);
    lemma_blob_forward(b, q2);
    lemma_part(b, p, q, c, r, p, q1);
    lemma_part(b, p, q, c, r, q1, q2);
    lemma_part(b, p, q, c, r, q2, q);
    lemma_var(b, p, c, r, n, q1);
    lemma_blob(b, q1, c, r + q1 - p, d, q2);
    lemma_blob(b, q2, c, r + q2 - p, e, q);
}

proof fn lemma_frame_forward(b: Seq<u8>, p: int, n: int, q: int)
    requires
        0 <= p,
        crate::gif_split::leader_at(b, p) == Ok::<(int, int), Seq<char>>((n, q)),
    ensures
        p < q <= b.len(),
        0 <= n,
        crate::gif_split::trailer_at(b, q + n) matches Ok(end) ==> q + n < end <= b.len(),
{
    let (d, at) = crate::gif_split::next_blob(b, p + 1)->Ok_0;
    lemma_blob_forward(b, p + 1);
    lemma_blob_forward(b, at);
    lemma_sum(b, at, 0, 0, 1);
    let rest = q + n;
    lemma_blob_forward(b, rest);
    if let Ok((_, q)) = crate::gif_split::next_var(b, rest) {
        lemma_blob_forward(b, q);
        if let Ok((_, q)) = crate::gif_split::next_blob(b, q) {
            lemma_blob_forward(b, q);
        }
    }
}

proof fn lemma_frame(b: Seq<u8>, s: Gathered, c: Seq<u8>, t: Gathered)
    requires
        0 <= s.pos < b.len(),
        follows(s, t),
        c.len() <= LIMIT,
        b.len() <= LIMIT,
        crate::gif_split::with_frame(b, s, true) matches Ok(next) && next.side.len() <= c.len() && c.take(
            next.side.len() as int,
        ) == next.side,
    ensures
        crate::gif_split::with_frame(c, t, false) matches Ok(next) && follows(
            crate::gif_split::with_frame(b, s, true)->Ok_0,
            next,
        ),
        c[t.pos] == b[s.pos],
        t.pos < c.len(),
{
    let next = crate::gif_split::with_frame(b, s, true)->Ok_0;
    let p = s.pos;
    let r = t.pos;
    let (n, q) = crate::gif_split::leader_at(b, p + 1)->Ok_0;
    lemma_frame_forward(b, p + 1, n, q);
    let rest = q + n;
    let end = crate::gif_split::trailer_at(b, rest)->Ok_0;
    let one = b.subrange(p, q);
    let two = b.subrange(rest, end);
    let m = r + q - p;
    let done = m + end - rest;
    assert(next.side == s.side + one + two);
    lemma_placed(b, p, q, c, s.side, two);
    assert(next.side =~= (s.side + one) + two + Seq::<u8>::empty());
    lemma_placed(b, rest, end, c, s.side + one, Seq::empty());
    lemma_part(b, p, q, c, r, p + 1, q);
    assert(c[r] == b[p]) by {
        assert(c.subrange(r, m)[0] == one[0]);
    }
    lemma_leader(b, p + 1, c, r + 1, n, q);
    lemma_trailer(b, rest, c, m, end);
    let out = crate::gif_split::with_frame(c, t, false)->Ok_0;
    assert(out.side == t.side + c.subrange(r, m) + c.subrange(m, done));
    assert(crate::gif_split::pixels_at(b, q, n, true)->Ok_0.0.len() == n);
}

proof fn lemma_record(b: Seq<u8>, s: Gathered, c: Seq<u8>, t: Gathered)
    requires
        0 <= s.pos,
        follows(s, t),
        c.len() <= LIMIT,
        b.len() <= LIMIT,
        crate::gif_split::with_record(b, s, true) matches Ok((next, _)) && next.side.len() <= c.len()
            && c.take(next.side.len() as int) == next.side,
    ensures
        crate::gif_split::with_record(c, t, false) matches Ok((next, last)) && follows(
            crate::gif_split::with_record(b, s, true)->Ok_0.0,
            next,
        ) && last == crate::gif_split::with_record(b, s, true)->Ok_0.1,
{
    let (next, last) = crate::gif_split::with_record(b, s, true)->Ok_0;
    let p = s.pos;
    let r = t.pos;
    let s1 = Gathered { records: s.records + 1, ..s };
    let t1 = Gathered { records: t.records + 1, ..t };
    lemma_record_forward(b, s);
    let tag = b[p];
    if tag == 255 {
        assert(c.take(next.side.len() as int)[r] == 255);
    } else if tag == 0 {
        lemma_blob_forward(b, p + 1);
        let (d, q) = crate::gif_split::next_blob(b, p + 1)->Ok_0;
        let one = b.subrange(p, q);
        assert(next.side == s.side + one);
        assert(next.side =~= s.side + one + Seq::<u8>::empty());
        lemma_placed(b, p, q, c, s.side, Seq::empty());
        assert(c[r] == b[p]) by {
            assert(c.subrange(r, r + (q - p))[0] == one[0]);
        }
        lemma_part(b, p, q, c, r, p + 1, q);
        lemma_blob(b, p + 1, c, r + 1, d, q);
    } else {
        lemma_frame(b, s1, c, t1);
    }
}

proof fn lemma_records_forward(b: Seq<u8>, s: Gathered)
    requires
        0 <= s.pos,
    ensures
        crate::gif_split::with_records(b, s, true) matches Ok(all) ==> {
            &&& s.pos < all.pos <= b.len()
            &&& s.side.len() < all.side.len()
            &&& all.side.len() - s.side.len() <= all.pos - s.pos
            &&& all.side.take(s.side.len() as int) == s.side
        },
    decreases b.len() - s.pos,
{
    lemma_record_forward(b, s);
    if let Ok((next, last)) = crate::gif_split::with_record(b, s, true) {
        assert(next.side.take(s.side.len() as int) =~= s.side);
        if !last {
            lemma_records_forward(b, next);
            if let Ok(all) = crate::gif_split::with_records(b, s, true) {
                assert(all.side.take(s.side.len() as int) =~= all.side.take(
                    next.side.len() as int,
                ).take(s.side.len() as int));
            }
        }
    }
}

proof fn lemma_records(b: Seq<u8>, s: Gathered, t: Gathered)
    requires
        0 <= s.pos,
        follows(s, t),
        b.len() <= LIMIT,
        crate::gif_split::with_records(b, s, true) is Ok,
        crate::gif_split::with_records(b, s, true)->Ok_0.side.len() <= LIMIT,
    ensures
        crate::gif_split::with_records(
            crate::gif_split::with_records(b, s, true)->Ok_0.side,
            t,
            false,
        ) matches Ok(all) && follows(crate::gif_split::with_records(b, s, true)->Ok_0, all),
    decreases b.len() - s.pos,
{
    let all = crate::gif_split::with_records(b, s, true)->Ok_0;
    let c = all.side;
    lemma_record_forward(b, s);
    let (next, last) = crate::gif_split::with_record(b, s, true)->Ok_0;
    if last {
        assert(c.take(next.side.len() as int) =~= next.side);
        lemma_record(b, s, c, t);
    } else {
        lemma_records_forward(b, next);
        lemma_record(b, s, c, t);
        let (after, _) = crate::gif_split::with_record(c, t, false)->Ok_0;
        lemma_records(b, next, after);
    }
}

/// A frame without its pixels.
pub open spec fn bare(f: Shot) -> Shot {
    Shot { pixels: Seq::empty(), ..f }
}

/// Whether frames differ in their pixels alone.
pub open spec fn alike(a: Seq<Shot>, b: Seq<Shot>) -> bool {
    &&& a.len() == b.len()
    &&& forall|i: int| 0 <= i < a.len() ==> bare(#[trigger] a[i]) == bare(b[i])
}

proof fn lemma_filled(frames: Seq<Shot>, px: Seq<Seq<u8>>, qx: Seq<Seq<u8>>, i: int, done: Seq<Shot>, other: Seq<Shot>)
    requires
        0 <= i <= frames.len(),
        px.len() == frames.len(),
        qx.len() == frames.len(),
        forall|k: int| 0 <= k < px.len() ==> (#[trigger] qx[k]).len() == px[k].len(),
        alike(done, other),
        crate::gif_split::filled_from(frames, px, true, i, done) is Ok,
    ensures
        crate::gif_split::filled_from(frames, qx, false, i, other) matches Ok(all) && alike(
            crate::gif_split::filled_from(frames, px, true, i, done)->Ok_0,
            all,
        ),
    decreases frames.len() - i,
{
    if i < frames.len() {
        let f = frames[i];
        let a = crate::gif_split::reordered(px[i], f.w, f.h, f.interlace, true);
        let b = crate::gif_split::reordered(qx[i], f.w, f.h, f.interlace, true);
        assert(qx[i].len() == px[i].len());
        lemma_filled(
            frames,
            px,
            qx,
            i + 1,
            done.push(Shot { pixels: a, ..f }),
            other.push(Shot { pixels: b, ..f }),
        );
    }
}

/// The frames that a skeleton describes have a size.
proof fn lemma_sizes(b: Seq<u8>, p: int, global: Seq<u8>, transparent: Option<u8>, done: Seq<Shot>)
    requires
        forall|i: int| 0 <= i < done.len() ==> 1 <= (#[trigger] done[i]).w && 1 <= done[i].h,
    ensures
        crate::gif_split::frames_from(b, p, global, transparent, done) matches Ok(all) ==> forall|i: int|
            0 <= i < all.len() ==> 1 <= (#[trigger] all[i]).w && 1 <= all[i].h,
    decreases b.len() - p,
{
    if let Ok((block, q)) = crate::gif_split::block_at(b, p, global, transparent, done.len() as int) {
        if !(block is End) && p < q <= b.len() {
            match block {
                crate::gif_split::Block::Control(t) => lemma_sizes(b, q, global, t, done),
                crate::gif_split::Block::Frame(f) => lemma_sizes(b, q, global, None, done.push(f)),
                _ => lemma_sizes(b, q, global, transparent, done),
            }
        }
    }
}

/// Whether frames have no pixels but zeros, and one for every place.
pub open spec fn blank(frames: Seq<Shot>) -> bool {
    forall|i: int|
        0 <= i < frames.len() ==> zeros((#[trigger] frames[i]).pixels) && frames[i].pixels.len() == frames[i].w
            * frames[i].h
}

/// Whether all pixels are zeros.
pub open spec fn zeros(px: Seq<u8>) -> bool {
    forall|i: int| 0 <= i < px.len() ==> #[trigger] px[i] == 0
}

proof fn lemma_zero_records(b: Seq<u8>, s: Gathered)
    requires
        forall|i: int| 0 <= i < s.pixels.len() ==> zeros(#[trigger] s.pixels[i]),
    ensures
        crate::gif_split::with_records(b, s, false) matches Ok(all) ==> forall|i: int|
            0 <= i < all.pixels.len() ==> zeros(#[trigger] all.pixels[i]),
    decreases b.len() - s.pos,
{
    if let Ok((next, last)) = crate::gif_split::with_record(b, s, false) {
        if !(last || next.pos <= s.pos || next.pos > b.len()) {
            lemma_zero_records(b, next);
        }
    }
}

proof fn lemma_blank(frames: Seq<Shot>, qx: Seq<Seq<u8>>, i: int, done: Seq<Shot>)
    requires
        0 <= i <= frames.len(),
        qx.len() == frames.len(),
        forall|k: int| 0 <= k < frames.len() ==> 1 <= (#[trigger] frames[k]).w && 1 <= frames[k].h,
        forall|k: int| 0 <= k < qx.len() ==> zeros(#[trigger] qx[k]),
        blank(done),
    ensures
        crate::gif_split::filled_from(frames, qx, false, i, done) matches Ok(all) ==> blank(all),
    decreases frames.len() - i,
{
    if i < frames.len() && qx[i].len() == frames[i].w * frames[i].h {
        let f = frames[i];
        assert(zeros(qx[i]));
        crate::gif_split::lemma_reordered_zeros(qx[i], f.w, f.h, f.interlace);
        let b = crate::gif_split::reordered(qx[i], f.w, f.h, f.interlace, true);
        lemma_blank(frames, qx, i + 1, done.push(Shot { pixels: b, ..f }));
    }
}

/// What is left of an exact form without its pixels is left of itself again, and describes the frames that the
/// exact form has, with zeros for pixels.
pub proof fn law_side_keeps_frames(input: Seq<u8>)
    requires
        crate::gif_split::parted(input, true) is Ok,
    ensures
        crate::gif_split::parted(crate::gif_split::parted(input, true)->Ok_0.0, false) matches Ok(
            (again, frames),
        ) && again == crate::gif_split::parted(input, true)->Ok_0.0 && alike(
            crate::gif_split::parted(input, true)->Ok_0.1,
            frames,
        ) && blank(frames),
{
    let (n, p) = crate::gif_split::next_var(input, 8)->Ok_0;
    lemma_blob_forward(input, 8);
    let start = Gathered {
        pos: p,
        records: 0,
        side: input.subrange(0, p),
        skeleton: Seq::empty(),
        pixels: Seq::empty(),
        sum: 0,
    };
    let all = crate::gif_split::with_records(input, start, true)->Ok_0;
    let side = all.side;
    lemma_records_forward(input, start);
    assert(side.take(p) == input.subrange(0, p));
    assert(copied(input, 8, p, side, 8)) by {
        reveal(copied);
        assert forall|i: int| 8 <= i < p implies #[trigger] input[i] == side[8 + i - 8] by {
            assert(side.take(p)[i] == input.subrange(0, p)[i]);
        }
    }
    lemma_var(input, 8, side, 8, n, p);
    assert(side.subrange(0, 8) =~= input.subrange(0, 8)) by {
        assert forall|i: int| 0 <= i < 8 implies side.subrange(0, 8)[i] == input.subrange(0, 8)[i] by {
            assert(side.take(p)[i] == input.subrange(0, p)[i]);
        }
    }
    assert(side.subrange(0, p) =~= side.take(p));
    lemma_records(input, start, start);
    let again = crate::gif_split::with_records(side, start, false)->Ok_0;
    let frames = crate::gif_split::metadata(all.skeleton)->Ok_0;
    lemma_filled(frames, all.pixels, again.pixels, 0, Seq::empty(), Seq::empty());
    lemma_zero_records(side, start);
    assert(forall|i: int| 0 <= i < frames.len() ==> 1 <= (#[trigger] frames[i]).w && 1 <= frames[i].h) by {
        let head = all.skeleton.subrange(0, 13);
        let k = if head[10] >= 128 {
            crate::gif_split::colour_bytes(head[10])
        } else {
            0
        };
        lemma_sizes(all.skeleton, 13 + k, all.skeleton.subrange(13, 13 + k), None, Seq::empty());
    }
    lemma_blank(frames, again.pixels, 0, Seq::empty());
}

/// Whether frames have these pixels, as they come in the file.
spec fn full(frames: Seq<Shot>, pixels: Seq<Seq<u8>>) -> bool {
    &&& frames.len() == pixels.len()
    &&& forall|i: int|
        0 <= i < frames.len() ==> {
            let f = #[trigger] frames[i];
            &&& f.pixels.len() == pixels[i].len()
            &&& crate::gif_split::reordered(f.pixels, f.w, f.h, f.interlace, false) == pixels[i]
        }
}

proof fn lemma_full(frames: Seq<Shot>, px: Seq<Seq<u8>>, i: int, done: Seq<Shot>)
    requires
        0 <= i <= frames.len(),
        px.len() == frames.len(),
        forall|k: int| 0 <= k < frames.len() ==> 1 <= (#[trigger] frames[k]).w && 1 <= frames[k].h,
        done.len() == i,
        full(done, px.take(i)),
        crate::gif_split::filled_from(frames, px, true, i, done) is Ok,
    ensures
        full(crate::gif_split::filled_from(frames, px, true, i, done)->Ok_0, px),
    decreases frames.len() - i,
{
    if i < frames.len() {
        let f = frames[i];
        let a = crate::gif_split::reordered(px[i], f.w, f.h, f.interlace, true);
        crate::gif_split::law_reorder_is_undone(px[i], f.w, f.h, f.interlace);
        let next = done.push(Shot { pixels: a, ..f });
        assert(full(next, px.take(i + 1))) by {
            assert forall|k: int| 0 <= k < next.len() implies ({
                let f = #[trigger] next[k];
                &&& f.pixels.len() == px.take(i + 1)[k].len()
                &&& crate::gif_split::reordered(f.pixels, f.w, f.h, f.interlace, false) == px.take(i + 1)[k]
            }) by {
                if k < i {
                    assert(next[k] == done[k]);
                    assert(px.take(i)[k] == px[k]);
                }
            }
        }
        lemma_full(frames, px, i + 1, next);
    } else {
        assert(px.take(i) =~= px);
    }
}

/// The pixels that are gathered later stand behind those that were gathered before.
proof fn lemma_pixels_forward(b: Seq<u8>, s: Gathered)
    requires
        0 <= s.pos,
    ensures
        crate::gif_split::with_records(b, s, true) matches Ok(all) ==> {
            &&& s.pixels.len() <= all.pixels.len()
            &&& all.pixels.take(s.pixels.len() as int) == s.pixels
        },
    decreases b.len() - s.pos,
{
    lemma_record_forward(b, s);
    if let Ok((next, last)) = crate::gif_split::with_record(b, s, true) {
        assert(next.pixels.take(s.pixels.len() as int) =~= s.pixels);
        if !last {
            lemma_pixels_forward(b, next);
            if let Ok(all) = crate::gif_split::with_records(b, s, true) {
                assert(all.pixels.take(s.pixels.len() as int) =~= all.pixels.take(
                    next.pixels.len() as int,
                ).take(s.pixels.len() as int));
            }
        }
    }
}

/// Joining the record of a frame gives back its bytes.
proof fn lemma_frame_joined(b: Seq<u8>, s: Gathered, c: Seq<u8>, frames: Seq<Shot>, pixels: Seq<Seq<u8>>)
    requires
        0 <= s.pos < b.len(),
        b[s.pos] == 1,
        b.len() <= LIMIT,
        c.len() <= LIMIT,
        full(frames, pixels),
        crate::gif_split::with_frame(b, s, true) matches Ok(next) && next.side.len() <= c.len() && c.take(
            next.side.len() as int,
        ) == next.side && next.pixels.len() <= pixels.len() && pixels.take(next.pixels.len() as int)
            == next.pixels,
    ensures
        ({
            let next = crate::gif_split::with_frame(b, s, true)->Ok_0;
            crate::gif_split::record_joined(
                c,
                frames,
                s.side.len() as int,
                b.take(s.pos),
                s.pixels.len() as int,
            ) == Ok::<(int, Seq<u8>, int, bool), Seq<char>>(
                (next.side.len() as int, b.take(next.pos), next.pixels.len() as int, false),
            )
        }),
{
    let next = crate::gif_split::with_frame(b, s, true)->Ok_0;
    let p = s.pos;
    let r = s.side.len() as int;
    let (n, q) = crate::gif_split::leader_at(b, p + 1)->Ok_0;
    lemma_frame_forward(b, p + 1, n, q);
    let rest = q + n;
    let end = crate::gif_split::trailer_at(b, rest)->Ok_0;
    let one = b.subrange(p, q);
    let two = b.subrange(rest, end);
    let m = r + q - p;
    assert(next.side == s.side + one + two);
    lemma_placed(b, p, q, c, s.side, two);
    assert(next.side =~= (s.side + one) + two + Seq::<u8>::empty());
    lemma_placed(b, rest, end, c, s.side + one, Seq::empty());
    lemma_part(b, p, q, c, r, p + 1, q);
    assert(c[r] == b[p]) by {
        assert(c.subrange(r, m)[0] == one[0]);
    }
    lemma_leader(b, p + 1, c, r + 1, n, q);
    lemma_trailer(b, rest, c, m, end);
    let k = s.pixels.len() as int;
    let px = crate::gif_split::pixels_at(b, q, n, true)->Ok_0.0;
    assert(px == b.subrange(q, rest));
    assert(pixels[k] == px) by {
        assert(pixels.take(k + 1)[k] == next.pixels[k]);
    }
    let f = frames[k];
    assert(f.pixels.len() == n);
    assert(crate::gif_split::reordered(f.pixels, f.w, f.h, f.interlace, false) == px);
    assert(b.take(p) + c.subrange(r, m) + px + c.subrange(m, m + (end - rest)) =~= b.take(end));
}

/// Joining a record of other bytes gives them back.
proof fn lemma_bytes_joined(b: Seq<u8>, s: Gathered, c: Seq<u8>, frames: Seq<Shot>)
    requires
        0 <= s.pos < b.len(),
        b[s.pos] == 0,
        b.len() <= LIMIT,
        c.len() <= LIMIT,
        crate::gif_split::with_bytes(b, s) matches Ok(next) && next.side.len() <= c.len() && c.take(
            next.side.len() as int,
        ) == next.side,
    ensures
        ({
            let next = crate::gif_split::with_bytes(b, s)->Ok_0;
            crate::gif_split::record_joined(
                c,
                frames,
                s.side.len() as int,
                b.take(s.pos),
                s.pixels.len() as int,
            ) == Ok::<(int, Seq<u8>, int, bool), Seq<char>>(
                (next.side.len() as int, b.take(next.pos), next.pixels.len() as int, false),
            )
        }),
{
    let next = crate::gif_split::with_bytes(b, s)->Ok_0;
    let p = s.pos;
    let r = s.side.len() as int;
    lemma_blob_forward(b, p + 1);
    let (d, q) = crate::gif_split::next_blob(b, p + 1)->Ok_0;
    let one = b.subrange(p, q);
    assert(next.side == s.side + one);
    assert(next.side =~= s.side + one + Seq::<u8>::empty());
    lemma_placed(b, p, q, c, s.side, Seq::empty());
    assert(c[r] == b[p]) by {
        assert(c.subrange(r, r + (q - p))[0] == one[0]);
    }
    lemma_part(b, p, q, c, r, p + 1, q);
    lemma_blob(b, p + 1, c, r + 1, d, q);
    assert(b.take(p) + c.subrange(r, r + (q - p)) =~= b.take(q));
}

/// Joining a record gives back its bytes.
proof fn lemma_record_joined(b: Seq<u8>, s: Gathered, c: Seq<u8>, frames: Seq<Shot>, pixels: Seq<Seq<u8>>)
    requires
        0 <= s.pos,
        b.len() <= LIMIT,
        c.len() <= LIMIT,
        full(frames, pixels),
        crate::gif_split::with_record(b, s, true) matches Ok((next, _)) && next.side.len() <= c.len()
            && c.take(next.side.len() as int) == next.side && next.pixels.len() <= pixels.len()
            && pixels.take(next.pixels.len() as int) == next.pixels,
    ensures
        ({
            let (next, last) = crate::gif_split::with_record(b, s, true)->Ok_0;
            crate::gif_split::record_joined(
                c,
                frames,
                s.side.len() as int,
                b.take(s.pos),
                s.pixels.len() as int,
            ) == Ok::<(int, Seq<u8>, int, bool), Seq<char>>(
                (next.side.len() as int, b.take(next.pos), next.pixels.len() as int, last),
            )
        }),
{
    let (next, last) = crate::gif_split::with_record(b, s, true)->Ok_0;
    let s1 = Gathered { records: s.records + 1, ..s };
    let r = s.side.len() as int;
    if b[s.pos] == 255 {
        assert(c.take(next.side.len() as int)[r] == 255);
        assert(b.take(s.pos).push(255) =~= b.take(s.pos + 1));
    } else if b[s.pos] == 0 {
        lemma_bytes_joined(b, s1, c, frames);
    } else {
        lemma_frame_joined(b, s1, c, frames, pixels);
    }
}

/// Joining what was gathered gives back what it was gathered from.
proof fn lemma_joined(b: Seq<u8>, s: Gathered, frames: Seq<Shot>)
    requires
        0 <= s.pos,
        b.len() <= LIMIT,
        crate::gif_split::with_records(b, s, true) matches Ok(all) && all.pos == b.len() && full(
            frames,
            all.pixels,
        ) && all.side.len() <= LIMIT,
    ensures
        crate::gif_split::joined_from(
            crate::gif_split::with_records(b, s, true)->Ok_0.side,
            frames,
            s.side.len() as int,
            b.take(s.pos),
            s.pixels.len() as int,
        ) == Ok::<Seq<u8>, Seq<char>>(b),
    decreases b.len() - s.pos,
{
    let all = crate::gif_split::with_records(b, s, true)->Ok_0;
    let c = all.side;
    lemma_record_forward(b, s);
    let (next, last) = crate::gif_split::with_record(b, s, true)->Ok_0;
    if last {
        assert(c.take(c.len() as int) =~= c);
        assert(all.pixels.take(all.pixels.len() as int) =~= all.pixels);
        lemma_record_joined(b, s, c, frames, all.pixels);
        assert(b.take(b.len() as int) =~= b);
    } else {
        lemma_records_forward(b, next);
        lemma_pixels_forward(b, next);
        lemma_record_joined(b, s, c, frames, all.pixels);
        lemma_joined(b, next, frames);
    }
}

/// Joining undoes splitting: the pixels of an exact form and what is left without them give it back.
pub proof fn law_join_undoes_split(input: Seq<u8>)
    requires
        crate::gif_split::parted(input, true) is Ok,
    ensures
        crate::gif_split::joined(
            crate::gif_split::parted(input, true)->Ok_0.0,
            crate::gif_split::parted(input, true)->Ok_0.1,
        ) == Ok::<Seq<u8>, Seq<char>>(input),
{
    let (n, p) = crate::gif_split::next_var(input, 8)->Ok_0;
    lemma_blob_forward(input, 8);
    let start = Gathered {
        pos: p,
        records: 0,
        side: input.subrange(0, p),
        skeleton: Seq::empty(),
        pixels: Seq::empty(),
        sum: 0,
    };
    let all = crate::gif_split::with_records(input, start, true)->Ok_0;
    let side = all.side;
    lemma_records_forward(input, start);
    assert(side.take(p) == input.subrange(0, p));
    assert(copied(input, 8, p, side, 8)) by {
        reveal(copied);
        assert forall|i: int| 8 <= i < p implies #[trigger] input[i] == side[8 + i - 8] by {
            assert(side.take(p)[i] == input.subrange(0, p)[i]);
        }
    }
    lemma_var(input, 8, side, 8, n, p);
    let bare = crate::gif_split::metadata(all.skeleton)->Ok_0;
    let frames = crate::gif_split::filled_from(bare, all.pixels, true, 0, Seq::empty())->Ok_0;
    assert(full(frames, all.pixels)) by {
        let head = all.skeleton.subrange(0, 13);
        let k = if head[10] >= 128 {
            crate::gif_split::colour_bytes(head[10])
        } else {
            0
        };
        lemma_sizes(all.skeleton, 13 + k, all.skeleton.subrange(13, 13 + k), None, Seq::empty());
        lemma_full(bare, all.pixels, 0, Seq::empty());
    }
    lemma_joined(input, start, frames);
    assert(input.take(p) =~= input.subrange(0, p));
    assert(side.subrange(0, p) =~= input.take(p));
}

}
