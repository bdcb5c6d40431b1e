//! What the head of a frame tells of it without its slices.

use crate::prores_bits::Planes;
use crate::prores_frame::{Contents, Grid, Slice, MAX_DIM};
use vstd::prelude::*;

verus! {

/// Whether a frame stands in a movie.
pub open spec fn stands(raw: Seq<u8>, f: Contents) -> bool {
    &&& 0 <= f.offset
    &&& 0 < f.len
    &&& f.offset + f.len <= raw.len()
    &&& crate::prores_frame::frame_at(raw, f.offset) == Some(f)
}

/// Whether frames stand in a movie.
pub open spec fn all_stand(raw: Seq<u8>, all: Seq<Contents>) -> bool {
    forall|i: int| 0 <= i < all.len() ==> stands(raw, #[trigger] all[i])
}

proof fn lemma_frames_from(raw: Seq<u8>, p: int, end: int, done: Seq<Contents>)
    requires
        0 <= p,
        end <= raw.len(),
        all_stand(raw, done),
    ensures
        all_stand(raw, crate::prores_frame::frames_from(raw, p, end, done)),
    decreases end - p,
{
    if p + 8 > end {
    } else if raw.subrange(p + 4, p + 8) != crate::scanning::icpf() {
        lemma_frames_from(raw, p + 1, end, done);
    } else {
        match crate::prores_frame::frame_at(raw, p) {
            Some(f) => if 0 < f.len <= end - p {
                assert(f.offset == p);
                assert(stands(raw, f));
                lemma_frames_from(raw, p + f.len, end, done.push(f));
            } else {
                lemma_frames_from(raw, p + 1, end, done);
            },
            None => {
                lemma_frames_from(raw, p + 1, end, done);
            },
        }
    }
}

proof fn lemma_atoms_from(raw: Seq<u8>, atom: int, done: Seq<Contents>)
    requires
        0 <= atom,
        all_stand(raw, done),
    ensures
        all_stand(raw, crate::prores_frame::atoms_from(raw, atom, done)),
    decreases raw.len() - atom,
{
    if atom + 8 <= raw.len() {
        match crate::prores_frame::atom_at(raw, atom) {
            None => {},
            Some((header, size)) => if raw.subrange(atom + 4, atom + 8) == crate::scanning::mdat() {
                lemma_frames_from(raw, atom + header, atom + size, done);
                lemma_atoms_from(
                    raw,
                    atom + size,
                    crate::prores_frame::frames_from(raw, atom + header, atom + size, done),
                );
            } else {
                lemma_atoms_from(raw, atom + size, done);
            },
        }
    }
}

/// The frames of a movie stand in it.
pub proof fn law_frames_stand(raw: Seq<u8>)
    ensures
        all_stand(raw, crate::prores_frame::frames_of(raw)),
{
    lemma_atoms_from(raw, 0, Seq::empty());
}

/// Whether slices have the same places.
pub open spec fn same_places(a: Seq<Slice>, b: Seq<Slice>) -> bool {
    &&& a.len() == b.len()
    &&& forall|i: int|
        0 <= i < a.len() ==> (#[trigger] a[i]).mb_x == b[i].mb_x && a[i].mb_y == b[i].mb_y && a[i].mbs
            == b[i].mbs
}

proof fn lemma_slices(
    f: Seq<u8>,
    g: Grid,
    head: Seq<u8>,
    bare: Grid,
    y: int,
    x: int,
    pos: int,
    at: int,
    done: Seq<Slice>,
    known: Seq<Slice>,
)
    requires
        g.known,
        !bare.known,
        g.mbw == bare.mbw,
        g.mbh == bare.mbh,
        g.slice_width == bare.slice_width,
        same_places(done, known),
    ensures
        crate::prores_frame::slices_from(f, g, y, x, pos, done) matches Ok((s, end)) ==> {
            &&& end >= pos + 8 * (s.len() - done.len())
            &&& s.len() >= done.len()
            &&& crate::prores_frame::slices_from(head, bare, y, x, at, known) matches Ok((t, _))
                && same_places(s, t)
        },
    decreases g.mbh - y, g.mbw - x,
{
    if y >= g.mbh {
    } else if x >= g.mbw {
        lemma_slices(f, g, head, bare, y + 1, 0, pos, at, done, known);
    } else {
        let mbs = crate::scanning::fitted(g.slice_width, g.mbw - x);
        if mbs <= 0 || x + mbs > g.mbw {
        } else {
            match crate::prores_frame::slice_at(f, g.start, x, y, mbs, g.table, done.len() as int, pos) {
                Err(_) => {},
                Ok((s, next)) => {
                    lemma_slices(
                        f,
                        g,
                        head,
                        bare,
                        y,
                        x + mbs,
                        next,
                        at,
                        done.push(s),
                        known.push(crate::prores_frame::bare_slice(x, y, mbs)),
                    );
                },
            }
        }
    }
}

/// The head of a frame.
pub open spec fn head_of(raw: Seq<u8>, fr: Contents) -> Seq<u8> {
    raw.subrange(fr.offset, fr.offset + fr.head_len)
}

/// Whether what a head tells of a frame is what the frame tells.
pub open spec fn agrees(h: Contents, fr: Contents) -> bool {
    &&& h.len == fr.len
    &&& h.width == fr.width
    &&& h.height == fr.height
    &&& h.alpha == fr.alpha
    &&& h.luma == fr.luma
    &&& h.chroma == fr.chroma
    &&& same_places(fr.slices, h.slices)
}

proof fn lemma_picture(
    f: Seq<u8>,
    start: int,
    width: int,
    height: int,
    picture: int,
    head: Seq<u8>,
)
    requires
        1 <= width,
        1 <= height,
        0 <= picture,
    ensures
        crate::prores_frame::picture_at(f, start, true, width, height, picture) matches Ok((s, table)) ==> {
            &&& 0 <= table
            &&& table + 8 * s.len() <= crate::scanning::be32(f, 0)
            &&& table <= f.len()
            &&& head == f.take(table) ==> (crate::prores_frame::picture_at(
                head,
                0,
                false,
                width,
                height,
                picture,
            ) matches Ok((t, _)) ==> same_places(s, t))
        },
{
    if picture + 8 <= f.len() {
        let ph = f[picture] as int / 8;
        let flag = f[picture + 7] as int;
        let table = picture + ph;
        let slice_width = crate::codeword::power2(flag / 16);
        let (mbw, mbh) = (
            crate::prores_frame::sixteenths(width),
            crate::prores_frame::sixteenths(height),
        );
        let row = crate::scanning::slices_per_row(mbw, slice_width);
        let g = Grid { start, mbw, mbh, slice_width, table, known: true };
        let bare = Grid { start: 0, mbw, mbh, slice_width, table, known: false };
        if ph >= 8 && flag % 16 == 0 && flag / 16 <= 3 {
            reveal_with_fuel(crate::codeword::power2, 5);
            assert(row >= 0) by {
                assert(slice_width == 1 || slice_width == 2 || slice_width == 4 || slice_width == 8);
            }
            assert(mbh * row >= 0) by (nonlinear_arith)
                requires
                    mbh >= 0,
                    row >= 0,
            ;
            lemma_slices(
                f,
                g,
                head,
                bare,
                0,
                0,
                table + 2 * (mbh * row),
                table,
                Seq::empty(),
                Seq::empty(),
            );
        }
    }
}

/// Where a frame stands in a movie, its head is a part of it, and so is every slice.
pub proof fn lemma_span(raw: Seq<u8>, fr: Contents)
    requires
        stands(raw, fr),
    ensures
        0 <= fr.head_len,
        fr.head_len + 8 * fr.slices.len() <= fr.len,
        fr.len <= u32::MAX,
        1 <= fr.width <= MAX_DIM,
        1 <= fr.height <= MAX_DIM,
{
    let f = raw.subrange(fr.offset, fr.offset + crate::scanning::be32(raw, fr.offset));
    lemma_picture(
        f,
        fr.offset,
        fr.width,
        fr.height,
        crate::scanning::be16(f, 8) + 8,
        Seq::empty(),
    );
}

/// The head of a frame tells its weights.
proof fn lemma_weights(f: Seq<u8>, head: Seq<u8>)
    requires
        28 <= head.len() <= f.len(),
        head == f.take(head.len() as int),
        crate::prores_frame::weights_of(f) is Ok,
        crate::prores_frame::weights_of(head) is Ok,
    ensures
        crate::prores_frame::weights_of(f) == crate::prores_frame::weights_of(head),
{
    assert(head[27] == f[27]);
    let own = f[27] as int / 2 % 2 == 1;
    let at = if own {
        92int
    } else {
        28int
    };
    if own {
        assert(head.subrange(28, 92) =~= f.subrange(28, 92));
    }
    if f[27] as int % 2 == 1 {
        assert(head.subrange(at, at + 64) =~= f.subrange(at, at + 64));
    }
}

/// The head of a frame tells its size, its weights and the places of its slices.
pub proof fn law_heads_agree(raw: Seq<u8>, fr: Contents, h: Contents)
    requires
        stands(raw, fr),
        crate::prores_frame::parsed_head(head_of(raw, fr), fr.len) == Ok::<Contents, Seq<char>>(h),
    ensures
        agrees(h, fr),
{
    let f = raw.subrange(fr.offset, fr.offset + crate::scanning::be32(raw, fr.offset));
    let head = head_of(raw, fr);
    lemma_span(raw, fr);
    assert(crate::scanning::be32(f, 0) == crate::scanning::be32(raw, fr.offset));
    assert(head =~= f.take(fr.head_len));
    lemma_picture(
        f,
        fr.offset,
        fr.width,
        fr.height,
        crate::scanning::be16(f, 8) + 8,
        head,
    );
    assert(crate::scanning::be16(head, 8) == crate::scanning::be16(f, 8));
    assert(crate::scanning::be16(head, 16) == crate::scanning::be16(f, 16));
    assert(crate::scanning::be16(head, 18) == crate::scanning::be16(f, 18));
    assert(head[25] == f[25]);
    lemma_weights(f, head);
}

/// Frames with slices at the same places are rebuilt alike.
pub proof fn lemma_rebuilt(fr: Contents, h: Contents, head: Seq<u8>, qs: Seq<u8>, d: Planes)
    requires
        agrees(h, fr),
    ensures
        crate::prores_bits::rebuilt(h, head, qs, d) == crate::prores_bits::rebuilt(fr, head, qs, d),
{
    let a = crate::prores_bits::slices_out(h, 0, qs, d);
    let b = crate::prores_bits::slices_out(fr, 0, qs, d);
    let wp = crate::prores_frame::sixteenths(fr.width) * 16;
    assert forall|k: int| 0 <= k < fr.slices.len() implies a[k] == b[k] by {
        let s = fr.slices[k];
        let t = h.slices[k];
        assert(s.mb_x == t.mb_x && s.mb_y == t.mb_y && s.mbs == t.mbs);
        assert(crate::prores_bits::gathered(d.luma, wp, s, 0) =~= crate::prores_bits::gathered(
            d.luma,
            wp,
            t,
            0,
        ));
        assert(crate::prores_bits::gathered(d.blue, wp, s, 1) =~= crate::prores_bits::gathered(
            d.blue,
            wp,
            t,
            1,
        ));
        assert(crate::prores_bits::gathered(d.red, wp, s, 2) =~= crate::prores_bits::gathered(
            d.red,
            wp,
            t,
            2,
        ));
        assert(crate::prores_bits::alpha_got(d.alpha, wp, s, fr.height)
            =~= crate::prores_bits::alpha_got(d.alpha, wp, t, fr.height));
    }
    assert(a =~= b);
}

proof fn lemma_scattered(c: Seq<i16>, width: int, height: int, s: Slice, p: int, v: Seq<i16>, n: int)
    requires
        1 <= width <= MAX_DIM,
        1 <= height <= MAX_DIM,
        crate::prores_frame::fits_in(s, width, height),
        0 <= p <= 2,
        n <= s.mbs * 4 * 64,
        c.len() == crate::prores_frame::sixteenths(width) * 16 * (crate::prores_frame::sixteenths(height)
            * 16),
    ensures
        crate::prores_bits::scattered(c, crate::prores_frame::sixteenths(width) * 16, s, p, v, n).len()
            == c.len(),
    decreases n,
{
    if n > 0 {
        lemma_scattered(c, width, height, s, p, v, n - 1);
        let blocks = s.mbs * 4;
        assert(0 <= (n - 1) % blocks < blocks && 0 <= (n - 1) / blocks < 64) by (nonlinear_arith)
            requires
                blocks > 0,
                1 <= n <= blocks * 64,
        ;
        crate::prores_bits::lemma_place(s, p, (n - 1) % blocks, (n - 1) / blocks, width, height);
    }
}

/// Whether planes have the size of a frame.
pub open spec fn sized(fr: Contents, d: Planes) -> bool {
    let n = crate::prores_frame::sixteenths(fr.width) * 16 * (crate::prores_frame::sixteenths(fr.height)
        * 16);
    d.luma.len() == n && d.blue.len() == n && d.red.len() == n && d.alpha.len() == n
}

proof fn lemma_slices_in(raw: Seq<u8>, fr: Contents, h: Contents, i: int, d: Planes)
    requires
        fr.wf(),
        agrees(h, fr),
        0 <= i <= fr.slices.len(),
        sized(fr, d),
        d.qmb == crate::source_decode::quantized(h, crate::mov_source::scales(fr), i),
    ensures
        crate::prores_bits::slices_in(raw, fr, i, d) matches Ok(e) ==> sized(fr, e) && e.qmb
            == crate::source_decode::quantized(h, crate::mov_source::scales(fr), fr.slices.len() as int),
    decreases fr.slices.len() - i,
{
    if i < fr.slices.len() {
        let s = fr.slices[i];
        match crate::prores_bits::slice_in(raw, fr, s, d) {
            Err(_) => {},
            Ok(next) => {
                let n = s.mbs * 4 * 64;
                let blocks = s.mbs * 4;
                assert(crate::prores_frame::fits_in(fr.slices[i], fr.width, fr.height));
                let a = crate::prores_bits::plane_read(raw, s.luma, blocks)->Ok_0;
                let b = crate::prores_bits::plane_read(raw, s.blue, blocks)->Ok_0;
                let c = crate::prores_bits::plane_read(raw, s.red, blocks)->Ok_0;
                lemma_scattered(d.luma, fr.width, fr.height, s, 0, a, n);
                lemma_scattered(d.blue, fr.width, fr.height, s, 1, b, n);
                lemma_scattered(d.red, fr.width, fr.height, s, 2, c, n);
                assert(same_places(fr.slices, h.slices));
                assert(s.mb_x == h.slices[i].mb_x);
                assert(next.qmb =~= crate::source_decode::quantized(h, crate::mov_source::scales(fr), i + 1));
                lemma_slices_in(raw, fr, h, i + 1, next);
            },
        }
    }
}

/// What a frame holds has its size, and the quantizers of its slices say how strongly its macroblocks
/// are quantized.
pub proof fn lemma_decoded(raw: Seq<u8>, fr: Contents, h: Contents)
    requires
        fr.wf(),
        agrees(h, fr),
    ensures
        crate::prores_bits::decoded(raw, fr) matches Ok(d) ==> sized(fr, d) && d.qmb
            == crate::source_decode::quantized(h, crate::mov_source::scales(fr), fr.slices.len() as int),
{
    let b = crate::prores_bits::blank(fr);
    let (mbw, mbh) = (
        crate::prores_frame::sixteenths(fr.width),
        crate::prores_frame::sixteenths(fr.height),
    );
    assert(mbw * 16 * (mbh * 16) >= 0) by (nonlinear_arith)
        requires
            mbw >= 0,
            mbh >= 0,
    ;
    assert(b.qmb =~= crate::source_decode::quantized(h, crate::mov_source::scales(fr), 0));
    lemma_slices_in(raw, fr, h, 0, b);
}

}
