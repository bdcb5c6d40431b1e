//! Movies come back from records of pictures and errors.

use crate::mov_source::Outline;
use crate::prores_bits::Planes;
use crate::prores_frame::Contents;
use crate::source_codec::Decoding;
use crate::source_decode::{Leaf, Opening, Turned};
use crate::source_encode::{Draft, Sketch};
use crate::source_frames::{Expectation, Sight};
use crate::source_planes::Image;
use crate::source_pool::Kept;
use crate::source_rc::Reading;
use crate::source_residual::Lore;
use crate::streams::STREAMS;
use crate::wire::Outcome;
use vstd::prelude::*;

verus! {

/// Whether a frame can be put together again from its head, the quantizers of its slices, and what it
/// holds with eight bits of alpha.
pub open spec fn plain(raw: Seq<u8>, fr: Contents) -> bool {
    &&& fr.head_len <= 65535
    &&& crate::prores_frame::parsed_head(crate::head_law::head_of(raw, fr), fr.len) is Ok
    &&& crate::prores_bits::decoded(raw, fr) matches Ok(d) ==> {
        &&& forall|i: int| 0 <= i < d.alpha.len() ==> (#[trigger] d.alpha[i]) % 257 == 0
        &&& crate::prores_bits::rebuilt(
            fr,
            crate::head_law::head_of(raw, fr),
            crate::mov_source::scales(fr),
            d,
        ) == Ok::<Seq<u8>, Seq<char>>(raw.subrange(fr.offset, fr.offset + fr.len))
    }
}

/// Whether bytes are the first ones of others.
spec fn starts(a: Seq<u8>, b: Seq<u8>) -> bool {
    a.len() <= b.len() && b.take(a.len() as int) == a
}

proof fn lemma_starts(a: Seq<u8>, b: Seq<u8>, c: Seq<u8>)
    requires
        starts(a, b),
        starts(b, c),
    ensures
        starts(a, c),
{
    assert(c.take(a.len() as int) =~= c.take(b.len() as int).take(a.len() as int));
}

proof fn lemma_starts_sum(a: Seq<u8>, b: Seq<u8>)
    ensures
        starts(a, a + b),
{
    assert((a + b).take(a.len() as int) =~= a);
}

proof fn lemma_middle(a: Seq<u8>, b: Seq<u8>, whole: Seq<u8>)
    requires
        starts(a + b, whole),
    ensures
        a.len() + b.len() <= whole.len(),
        whole.subrange(a.len() as int, (a.len() + b.len()) as int) == b,
{
    assert(whole.subrange(a.len() as int, (a.len() + b.len()) as int) =~= whole.take(
        (a + b).len() as int,
    ).skip(a.len() as int));
    assert((a + b).skip(a.len() as int) =~= b);
}

proof fn lemma_shown(w: int, h: int, alpha: Seq<u16>, colours: Seq<u8>)
    requires
        1 <= w,
        1 <= h,
        alpha.len() == w * h,
        forall|i: int| 0 <= i < alpha.len() ==> (#[trigger] alpha[i]) % 257 == 0,
    ensures
        crate::source_frames::alpha_of(
            crate::source_planes::image_of(w, h, crate::source_frames::shown(alpha, colours)),
        ) == alpha,
{
    let px = crate::source_frames::shown(alpha, colours);
    let i = crate::source_planes::image_of(w, h, px);
    let got = crate::source_frames::alpha_of(i);
    assert(h * w == w * h) by (nonlinear_arith);
    assert forall|k: int| 0 <= k < alpha.len() implies got[k] == alpha[k] by {
        let (y, x) = (k / w, k % w);
        assert(0 <= y < h && 0 <= x < w && y * w + x == k) by (nonlinear_arith)
            requires
                0 <= k < w * h,
                1 <= w,
                y == k / w,
                x == k % w,
        ;
        assert((0 * h + y) * w + x == k) by (nonlinear_arith)
            requires
                y * w + x == k,
        ;
        assert(crate::source_planes::index(w, h, 0, y, x) == k);
        assert(i.px[0][y][x] == px[k]);
        assert(px[k] == (alpha[k] / 257) as u8);
    }
    assert(got =~= alpha);
}

/// What is known of a frame can be coded.
proof fn lemma_seen(raw: Seq<u8>, fr: Contents, k: Sketch)
    requires
        fr.wf(),
    ensures
        crate::source_encode::seen(raw, fr, k) matches Ok(now) ==> {
            &&& crate::source_law::codable(now.picture)
            &&& crate::source_frames::shaped(now.picture)
            &&& now.picture.w == crate::source_encode::width_of(fr)
            &&& now.picture.h == crate::source_encode::height_of(fr)
            &&& now.resid.len() == 3 * (now.picture.w * now.picture.h)
        },
{
    crate::head_law::lemma_decoded(raw, fr, fr);
    match crate::source_encode::seen(raw, fr, k) {
        Err(_) => {},
        Ok(now) => {
            let i = now.picture;
            assert forall|c: int, y: int| 0 <= c < 4 && 0 <= y < i.h implies (#[trigger] i.px[c][y]).len()
                == i.w by {}
        },
    }
}

/// Whether what is read of a movie is as far as what was written of it.
spec fn agree(raw: Seq<u8>, o: Outline, e: Draft, s: Leaf) -> bool {
    &&& s.out == raw.take(o.at)
    &&& s.sk == o.skeleton.len()
    &&& s.hat == o.heads.len()
    &&& s.qat == o.qscales.len()
    &&& s.rat == e.refs.len()
    &&& s.prev == e.prev
    &&& crate::source_law::in_step(e.coding, s.dec)
    &&& crate::error_law::in_step(e.bands, s.bands)
}

/// Whether a reader has all that was written.
spec fn fed(e: Draft, s: Leaf) -> bool {
    &&& forall|b: int| 0 <= b < STREAMS ==> e.coding.bands[b].1.leads((#[trigger] s.dec.bands[b]).1.data)
    &&& forall|b: int| 0 <= b < STREAMS ==> e.bands[b].1.leads((#[trigger] s.bands[b]).1.data)
}

/// Whether a reader still has what it had.
spec fn same_feed(a: Leaf, b: Leaf) -> bool {
    &&& forall|i: int| 0 <= i < STREAMS ==> (#[trigger] b.dec.bands[i]).1.data == a.dec.bands[i].1.data
    &&& forall|i: int| 0 <= i < STREAMS ==> (#[trigger] b.bands[i]).1.data == a.bands[i].1.data
}

spec fn settled(e: Draft) -> bool {
    crate::source_law::settled(e.coding) && crate::error_law::settled(e.bands)
}

/// What is known of a frame.
#[verifier::opaque]
spec fn known(raw: Seq<u8>, fr: Contents, k: Sketch, now: Sight) -> bool {
    crate::source_encode::seen(raw, fr, k) == Ok::<Sight, Seq<char>>(now)
}

/// The kept frames that a frame is compared with.
#[verifier::opaque]
spec fn compared(
    pool: Seq<Kept>,
    picture: Image,
    prev: Option<Sight>,
    names: Seq<u16>,
    loaded: Seq<Sight>,
) -> bool {
    crate::source_encode::chosen(pool, picture, prev) == Ok::<(Seq<u16>, Seq<Sight>), Seq<char>>(
        (names, loaded),
    )
}

/// What is written with a frame that shows and holds this.
#[verifier::opaque]
spec fn with_frame(e: Draft, loaded: Seq<Sight>, now: Sight, k: Sketch) -> (
    crate::source_codec::Coding,
    Seq<(crate::source_residual::Lore, crate::source_rc::Writing)>,
) {
    (
        crate::source_codec::coded(e.coding, now.picture, crate::source_encode::pictures(loaded)),
        crate::source_residual::put_frame(
            e.bands,
            hoped(k, now),
            crate::source_encode::rivals(e.prev, loaded),
            now,
        ),
    )
}

/// What a picture lets expect of each coefficient of a frame.
spec fn hoped(k: Sketch, now: Sight) -> Expectation {
    k.expected.fitted(now.picture.w * now.picture.h)
}

/// What a frame holds, as its picture and its errors tell.
spec fn told(now: Sight, levels: Seq<i16>) -> Planes {
    let n = now.picture.w * now.picture.h;
    let c = crate::source_frames::corrected(levels, now.resid);
    Planes {
        luma: c.subrange(0, n),
        blue: c.subrange(n, 2 * n),
        red: c.subrange(2 * n, 3 * n),
        alpha: crate::source_frames::alpha_of(now.picture),
        qmb: now.qmb,
    }
}

proof fn lemma_told(raw: Seq<u8>, fr: Contents, h: Contents, k: Sketch, now: Sight)
    requires
        fr.wf(),
        plain(raw, fr),
        known(raw, fr, k, now),
        crate::head_law::agrees(h, fr),
    ensures
        hoped(k, now).fits(now.picture.w * now.picture.h),
        now.picture.w == crate::source_encode::width_of(h),
        now.picture.h == crate::source_encode::height_of(h),
        now.qmb == crate::source_decode::quantized(
            h,
            crate::mov_source::scales(fr),
            h.slices.len() as int,
        ),
        crate::prores_bits::rebuilt(
            h,
            crate::head_law::head_of(raw, fr),
            crate::mov_source::scales(fr),
            told(now, hoped(k, now).levels),
        ) == Ok::<Seq<u8>, Seq<char>>(raw.subrange(fr.offset, fr.offset + fr.len)),
{
    reveal(known);
    lemma_seen(raw, fr, k);
    crate::head_law::lemma_decoded(raw, fr, h);
    let d = crate::prores_bits::decoded(raw, fr)->Ok_0;
    let (w, high) = (now.picture.w, now.picture.h);
    let c = crate::source_frames::coefficients(d);
    crate::source_frames::law_errors_restore(c, hoped(k, now).levels);
    lemma_shown(w, high, d.alpha, crate::source_frames::cut_to(k.colours, 3 * (w * high), 0u8));
    assert(told(now, hoped(k, now).levels) =~= d);
    crate::head_law::lemma_rebuilt(
        fr,
        h,
        crate::head_law::head_of(raw, fr),
        crate::mov_source::scales(fr),
        d,
    );
}

/// A frame before its errors are read.
spec fn blank(now: Sight) -> Sight {
    Sight { resid: Seq::new((3 * (now.picture.w * now.picture.h)) as nat, |i: int| 0i16), ..now }
}

proof fn lemma_turned_is(
    o: Opening,
    s: Leaf,
    loaded: Seq<Sight>,
    expected: Expectation,
    full: Expectation,
    now: Sight,
    dec: Decoding,
    bands: Seq<(Lore, Reading)>,
    bytes: Seq<u8>,
)
    requires
        now.picture.w == crate::source_encode::width_of(o.fr),
        now.picture.h == crate::source_encode::height_of(o.fr),
        now.qmb == crate::source_decode::quantized(o.fr, o.qs, o.fr.slices.len() as int),
        full == expected.fitted(now.picture.w * now.picture.h),
        crate::source_codec::decoded(
            s.dec,
            now.picture.w,
            now.picture.h,
            crate::source_encode::pictures(loaded),
        ) == (now.picture, dec),
        crate::source_residual::get_frame(
            s.bands,
            full,
            crate::source_encode::rivals(s.prev, loaded),
            blank(now),
            0,
        ) == (bands, now.resid),
        crate::prores_bits::rebuilt(o.fr, o.head, o.qs, told(now, full.levels)) == Ok::<
            Seq<u8>,
            Seq<char>,
        >(bytes),
    ensures
        crate::source_decode::turned(o, s, loaded, expected) == Ok::<Turned, Seq<char>>(
            Turned { now, dec, bands, bytes },
        ),
{
    reveal(crate::source_decode::turned);
    assert(Sight { resid: now.resid, ..blank(now) } == now);
}

/// A reader of pictures after the one that was written next.
spec fn seen_dec(s: Leaf, now: Sight, loaded: Seq<Sight>) -> Decoding {
    crate::source_codec::decoded(
        s.dec,
        now.picture.w,
        now.picture.h,
        crate::source_encode::pictures(loaded),
    ).1
}

/// A reader of errors after those that were written next.
spec fn seen_bands(s: Leaf, now: Sight, loaded: Seq<Sight>, expected: Expectation) -> Seq<(Lore, Reading)> {
    crate::source_residual::get_frame(
        s.bands,
        expected,
        crate::source_encode::rivals(s.prev, loaded),
        blank(now),
        0,
    ).0
}

proof fn lemma_turned(
    raw: Seq<u8>,
    fr: Contents,
    k: Sketch,
    now: Sight,
    loaded: Seq<Sight>,
    o: Opening,
    e: Draft,
    s: Leaf,
)
    requires
        fr.wf(),
        plain(raw, fr),
        known(raw, fr, k, now),
        crate::head_law::agrees(o.fr, fr),
        o.head == crate::head_law::head_of(raw, fr),
        o.qs == crate::mov_source::scales(fr),
        settled(e),
        s.prev == e.prev,
        crate::source_law::in_step(e.coding, s.dec),
        crate::error_law::in_step(e.bands, s.bands),
        forall|b: int|
            0 <= b < STREAMS ==> with_frame(e, loaded, now, k).0.bands[b].1.leads(
                (#[trigger] s.dec.bands[b]).1.data,
            ),
        forall|b: int|
            0 <= b < STREAMS ==> with_frame(e, loaded, now, k).1[b].1.leads(
                (#[trigger] s.bands[b]).1.data,
            ),
    ensures
        crate::source_decode::turned(o, s, loaded, k.expected) matches Ok(t) && {
            &&& t.now == now
            &&& t.bytes == raw.subrange(fr.offset, fr.offset + fr.len)
            &&& crate::source_law::in_step(with_frame(e, loaded, now, k).0, t.dec)
            &&& crate::error_law::in_step(with_frame(e, loaded, now, k).1, t.bands)
            &&& forall|i: int|
                0 <= i < STREAMS ==> (#[trigger] t.dec.bands[i]).1.data == s.dec.bands[i].1.data
            &&& forall|i: int| 0 <= i < STREAMS ==> (#[trigger] t.bands[i]).1.data == s.bands[i].1.data
        },
{
    lemma_told(raw, fr, o.fr, k, now);
    assert(crate::source_law::codable(now.picture) && crate::source_frames::shaped(now.picture)
        && now.resid.len() == 3 * (now.picture.w * now.picture.h)) by {
        reveal(known);
        lemma_seen(raw, fr, k);
    }
    reveal(with_frame);
    let extra = crate::source_encode::pictures(loaded);
    let dec = seen_dec(s, now, loaded);
    let bands = seen_bands(s, now, loaded, hoped(k, now));
    let (coding, after) = with_frame(e, loaded, now, k);
    assert(crate::source_codec::decoded(s.dec, now.picture.w, now.picture.h, extra) == (now.picture, dec)
        && crate::source_law::in_step(coding, dec) && (forall|b: int|
        0 <= b < STREAMS ==> (#[trigger] dec.bands[b]).1.data == s.dec.bands[b].1.data)) by {
        crate::source_law::law_picture_comes_back(e.coding, s.dec, now.picture, extra);
    }
    assert(now.picture.w * now.picture.h >= 0) by (nonlinear_arith)
        requires
            now.picture.w >= 0,
            now.picture.h >= 0,
    ;
    let cands = crate::source_encode::rivals(e.prev, loaded);
    assert(crate::source_residual::get_frame(s.bands, hoped(k, now), cands, blank(now), 0) == (
        bands,
        now.resid,
    ) && crate::error_law::in_step(after, bands) && (forall|b: int|
        0 <= b < STREAMS ==> (#[trigger] bands[b]).1.data == s.bands[b].1.data)) by {
        crate::error_law::law_errors_come_back(
            e.bands,
            s.bands,
            hoped(k, now),
            cands,
            now,
            blank(now),
        );
    }
    lemma_turned_is(
        o,
        s,
        loaded,
        k.expected,
        hoped(k, now),
        now,
        dec,
        bands,
        raw.subrange(fr.offset, fr.offset + fr.len),
    );
}

proof fn lemma_two(n: int)
    requires
        0 <= n <= 65535,
    ensures
        crate::wire::le_bytes(n, 2).len() == 2,
        crate::wire::le16(crate::wire::le_bytes(n, 2), 0) == n,
{
    reveal_with_fuel(crate::wire::le_bytes, 3);
}

proof fn lemma_closest(pool: Seq<Kept>, t: Seq<int>, wp: int, hp: int, n: int, skip: int)
    requires
        n <= pool.len(),
    ensures
        crate::source_pool::closest(pool, t, wp, hp, n, skip) matches Some(i) ==> 0 <= i < n,
    decreases n,
{
    if n > 0 {
        lemma_closest(pool, t, wp, hp, n - 1, skip);
    }
}

proof fn lemma_nearest(pool: Seq<Kept>, t: Seq<int>, wp: int, hp: int)
    ensures
        crate::source_pool::nearest(pool, t, wp, hp).len() <= 2,
        forall|k: int|
            0 <= k < crate::source_pool::nearest(pool, t, wp, hp).len()
                ==> #[trigger] crate::source_pool::nearest(pool, t, wp, hp)[k] < pool.len(),
{
    let n = pool.len() as int;
    lemma_closest(pool, t, wp, hp, n, -1);
    match crate::source_pool::closest(pool, t, wp, hp, n, -1) {
        None => {},
        Some(a) => {
            lemma_closest(pool, t, wp, hp, n, a);
        },
    }
}

/// The kept frames that a frame names are found again.
proof fn lemma_references(
    bytes: Seq<u8>,
    rat: int,
    pool: Seq<Kept>,
    picture: Image,
    prev: Option<Sight>,
    names: Seq<u16>,
    loaded: Seq<Sight>,
)
    requires
        compared(pool, picture, prev, names, loaded),
        0 <= rat,
        rat + crate::source_encode::naming(names, names.len() as int).len() <= bytes.len(),
        bytes.subrange(rat, rat + crate::source_encode::naming(names, names.len() as int).len())
            == crate::source_encode::naming(names, names.len() as int),
    ensures
        names.len() <= 2,
        bytes[rat] == names.len(),
        crate::source_encode::naming(names, names.len() as int).len() == 1 + 2 * names.len(),
        crate::source_decode::references(bytes, rat, pool) == Ok::<Seq<Sight>, Seq<char>>(loaded),
{
    reveal(compared);
    let t = crate::source_frames::thumbnail(picture);
    lemma_nearest(pool, t, picture.w, picture.h);
    let named = crate::source_encode::naming(names, names.len() as int);
    reveal_with_fuel(crate::source_encode::naming, 3);
    reveal_with_fuel(crate::source_decode::recalled, 3);
    reveal(crate::source_decode::references);
    let cut = bytes.subrange(rat, rat + named.len());
    if names.len() >= 1 {
        lemma_two(names[0] as int);
        let first = crate::wire::le_bytes(names[0] as int, 2);
        assert(named[1] == first[0] && named[2] == first[1]);
        assert(cut[1] == bytes[rat + 1] && cut[2] == bytes[rat + 2]);
        assert(crate::wire::le16(bytes, rat + 1) == names[0]);
    }
    if names.len() >= 2 {
        lemma_two(names[1] as int);
        let second = crate::wire::le_bytes(names[1] as int, 2);
        assert(named[3] == second[0] && named[4] == second[1]);
        assert(cut[3] == bytes[rat + 3] && cut[4] == bytes[rat + 4]);
        assert(crate::wire::le16(bytes, rat + 3) == names[1]);
    }
    assert(named[0] == names.len());
    assert(cut[0] == bytes[rat]);
    if names.len() == 0 {
        assert(loaded =~= Seq::empty());
    } else if names.len() == 1 {
        assert(Seq::<Sight>::empty().push(loaded[0]) =~= loaded);
    } else {
        assert(Seq::<Sight>::empty().push(loaded[0]).push(loaded[1]) =~= loaded);
    }
}

/// What is around a movie with one more frame.
spec fn more(raw: Seq<u8>, o: Outline, f: Contents) -> Outline {
    Outline {
        at: f.offset + f.len,
        skeleton: o.skeleton + raw.subrange(o.at, f.offset),
        table: o.table + crate::wire::le_bytes(f.offset - o.at, 8) + crate::wire::le_bytes(f.len, 4),
        heads: o.heads + crate::wire::le_bytes(f.head_len, 2) + raw.subrange(
            f.offset,
            f.offset + f.head_len,
        ),
        qscales: o.qscales + crate::mov_source::scales(f),
    }
}

/// Whether the parts of a record begin with what is around some frames.
spec fn holds(p: Seq<Seq<u8>>, o: Outline) -> bool {
    &&& p.len() == 5
    &&& starts(o.skeleton, p[0])
    &&& starts(o.table, p[1])
    &&& starts(o.heads, p[2])
    &&& starts(o.qscales, p[3])
}

/// The table tells where a frame stands, and how long it is.
proof fn lemma_table(table: Seq<u8>, before: Seq<u8>, fi: int, gap: int, len: int)
    requires
        0 <= fi,
        before.len() == 12 * fi,
        0 <= gap <= u64::MAX,
        0 <= len <= u32::MAX,
        starts(before + crate::wire::le_bytes(gap, 8) + crate::wire::le_bytes(len, 4), table),
    ensures
        table.len() >= 12 * fi + 12,
        crate::source_decode::gap_at(table, fi) == gap,
        crate::source_decode::length_at(table, fi) == len,
{
    crate::wire::lemma_lengths(gap);
    crate::wire::lemma_lengths(len);
    let a = crate::wire::le_bytes(gap, 8);
    let b = crate::wire::le_bytes(len, 4);
    lemma_middle(before + a, b, table);
    lemma_starts_sum(before + a, b);
    lemma_starts(before + a, before + a + b, table);
    lemma_middle(before, a, table);
    crate::wire::lemma_le64_at(table, fi * 12, gap);
    crate::wire::lemma_le32_at(table, fi * 12 + 8, len);
}

/// The head of a frame and the quantizers of its slices are found again.
proof fn lemma_opening(raw: Seq<u8>, p: Seq<Seq<u8>>, o: Outline, f: Contents, s: Leaf, fi: int)
    requires
        crate::head_law::stands(raw, f),
        plain(raw, f),
        0 <= o.at <= f.offset,
        raw.len() <= u64::MAX,
        0 <= fi,
        o.table.len() == 12 * fi,
        holds(p, more(raw, o, f)),
        s.sk == o.skeleton.len(),
        s.hat == o.heads.len(),
        s.qat == o.qscales.len(),
    ensures
        crate::source_decode::gap_at(p[1], fi) == f.offset - o.at,
        s.sk + (f.offset - o.at) <= p[0].len(),
        p[0].subrange(s.sk, s.sk + (f.offset - o.at)) == raw.subrange(o.at, f.offset),
        crate::source_decode::opening(p, s, fi) matches Ok(x) && crate::head_law::agrees(x.fr, f) && x.head
            == crate::head_law::head_of(raw, f) && x.qs == crate::mov_source::scales(f),
{
    crate::head_law::lemma_span(raw, f);
    let head = crate::head_law::head_of(raw, f);
    let h = crate::prores_frame::parsed_head(head, f.len)->Ok_0;
    crate::head_law::law_heads_agree(raw, f, h);
    lemma_table(p[1], o.table, fi, f.offset - o.at, f.len);
    lemma_middle(o.skeleton, raw.subrange(o.at, f.offset), p[0]);
    lemma_middle(o.qscales, crate::mov_source::scales(f), p[3]);
    let two = crate::wire::le_bytes(f.head_len, 2);
    lemma_two(f.head_len);
    lemma_middle(o.heads + two, head, p[2]);
    lemma_starts_sum(o.heads + two, head);
    lemma_starts(o.heads + two, o.heads + two + head, p[2]);
    lemma_middle(o.heads, two, p[2]);
    let cut = p[2].subrange(s.hat, s.hat + 2);
    assert(cut[0] == p[2][s.hat] && cut[1] == p[2][s.hat + 1]);
    assert(crate::wire::le16(p[2], s.hat) == f.head_len);
    reveal(crate::source_decode::opening);
}

proof fn lemma_drafted_is(raw: Seq<u8>, pool: Seq<Kept>, e: Draft, f: Contents, g: Sketch, next: Draft) -> (r: (
    Sight,
    Seq<u16>,
    Seq<Sight>,
))
    requires
        crate::source_encode::drafted(raw, pool, e, f, g) == Ok::<Draft, Seq<char>>(next),
    ensures
        known(raw, f, g, r.0),
        compared(pool, r.0.picture, e.prev, r.1, r.2),
        next.refs == e.refs + crate::source_encode::naming(r.1, r.1.len() as int),
        next.prev == Some(r.0),
        with_frame(e, r.2, r.0, g) == (next.coding, next.bands),
{
    let now = crate::source_encode::seen(raw, f, g)->Ok_0;
    let (names, loaded) = crate::source_encode::chosen(pool, now.picture, e.prev)->Ok_0;
    reveal(known);
    reveal(compared);
    reveal(with_frame);
    (now, names, loaded)
}

/// What is read with one more frame, where the frame is known.
spec fn leaf_with(p: Seq<Seq<u8>>, keep: bool, s: Leaf, gap: int, o: Opening, t: Turned) -> Leaf {
    Leaf {
        out: s.out + p[0].subrange(s.sk, s.sk + gap) + t.bytes,
        sk: s.sk + gap,
        hat: s.hat + 2 + o.head.len(),
        qat: s.qat + o.qs.len(),
        rat: s.rat + 1 + 2 * p[4][s.rat],
        dec: t.dec,
        bands: t.bands,
        prev: Some(t.now),
        pool: if keep {
            s.pool.push(crate::source_pool::stored(t.now))
        } else {
            s.pool
        },
    }
}

proof fn lemma_leafed_is(
    p: Seq<Seq<u8>>,
    pool: Seq<Kept>,
    keep: bool,
    s: Leaf,
    fi: int,
    q: Expectation,
    o: Opening,
    loaded: Seq<Sight>,
    t: Turned,
)
    requires
        crate::source_decode::opening(p, s, fi) == Ok::<Opening, Seq<char>>(o),
        crate::source_decode::references(p[4], s.rat, pool) == Ok::<Seq<Sight>, Seq<char>>(loaded),
        crate::source_decode::turned(o, s, loaded, q) == Ok::<Turned, Seq<char>>(t),
    ensures
        crate::source_decode::leafed(p, pool, keep, s, fi, q) == Ok::<Leaf, Seq<char>>(
            leaf_with(p, keep, s, crate::source_decode::gap_at(p[1], fi), o, t),
        ),
{
}

#[verifier::spinoff_prover]
#[verifier::rlimit(60)]
proof fn lemma_known_step(
    raw: Seq<u8>,
    pool: Seq<Kept>,
    keep: bool,
    p: Seq<Seq<u8>>,
    o: Outline,
    f: Contents,
    e: Draft,
    next: Draft,
    s: Leaf,
    fi: int,
    g: Sketch,
    q: Expectation,
    now: Sight,
    names: Seq<u16>,
    loaded: Seq<Sight>,
)
    requires
        crate::head_law::stands(raw, f),
        f.wf(),
        plain(raw, f),
        raw.len() <= u64::MAX,
        0 <= o.at <= f.offset,
        0 <= fi,
        o.table.len() == 12 * fi,
        holds(p, more(raw, o, f)),
        starts(next.refs, p[4]),
        settled(e),
        known(raw, f, g, now),
        compared(pool, now.picture, e.prev, names, loaded),
        next.refs == e.refs + crate::source_encode::naming(names, names.len() as int),
        next.prev == Some(now),
        with_frame(e, loaded, now, g) == (next.coding, next.bands),
        agree(raw, o, e, s),
        fed(next, s),
        q == g.expected,
    ensures
        crate::source_decode::leafed(p, pool, keep, s, fi, q) matches Ok(t) && agree(
            raw,
            more(raw, o, f),
            next,
            t,
        ) && same_feed(s, t),
{
    lemma_opening(raw, p, o, f, s, fi);
    let x = crate::source_decode::opening(p, s, fi)->Ok_0;
    assert(names.len() <= 2 && p[4][s.rat] == names.len() && next.refs.len() == e.refs.len() + 1 + 2
        * names.len() && crate::source_decode::references(p[4], s.rat, pool) == Ok::<
        Seq<Sight>,
        Seq<char>,
    >(loaded)) by {
        lemma_middle(e.refs, crate::source_encode::naming(names, names.len() as int), p[4]);
        lemma_references(p[4], s.rat, pool, now.picture, e.prev, names, loaded);
    }
    lemma_turned(raw, f, g, now, loaded, x, e, s);
    let t = crate::source_decode::turned(x, s, loaded, g.expected)->Ok_0;
    lemma_leafed_is(p, pool, keep, s, fi, q, x, loaded, t);
    let gap = crate::source_decode::gap_at(p[1], fi);
    let then_s = leaf_with(p, keep, s, gap, x, t);
    assert(then_s.out == raw.take(f.offset + f.len) && then_s.sk == more(raw, o, f).skeleton.len()
        && then_s.hat == more(raw, o, f).heads.len() && then_s.qat == more(raw, o, f).qscales.len()) by {
        crate::head_law::lemma_span(raw, f);
        lemma_two(f.head_len);
        assert(raw.take(o.at) + raw.subrange(o.at, f.offset) + raw.subrange(
            f.offset,
            f.offset + f.len,
        ) =~= raw.take(f.offset + f.len));
    }
    assert(agree(raw, more(raw, o, f), next, then_s));
}

/// A painter is asked the same about a frame when it is read as when it was written.
#[verifier::spinoff_prover]
#[verifier::rlimit(60)]
proof fn lemma_question(
    raw: Seq<u8>,
    pool: Seq<Kept>,
    p: Seq<Seq<u8>>,
    o: Outline,
    f: Contents,
    e: Draft,
    next: Draft,
    s: Leaf,
    fi: int,
    g: Sketch,
    now: Sight,
    names: Seq<u16>,
    loaded: Seq<Sight>,
)
    requires
        crate::head_law::stands(raw, f),
        f.wf(),
        plain(raw, f),
        raw.len() <= u64::MAX,
        0 <= o.at <= f.offset,
        0 <= fi,
        o.table.len() == 12 * fi,
        holds(p, more(raw, o, f)),
        starts(next.refs, p[4]),
        settled(e),
        known(raw, f, g, now),
        compared(pool, now.picture, e.prev, names, loaded),
        next.refs == e.refs + crate::source_encode::naming(names, names.len() as int),
        with_frame(e, loaded, now, g) == (next.coding, next.bands),
        agree(raw, o, e, s),
        fed(next, s),
    ensures
        crate::source_decode::opening(p, s, fi) matches Ok(x) && {
            &&& crate::source_frames::same_head(f, x.fr)
            &&& crate::source_decode::quantized(x.fr, x.qs, x.fr.slices.len() as int) == now.qmb
            &&& crate::source_codec::decoded(
                s.dec,
                crate::source_encode::width_of(x.fr),
                crate::source_encode::height_of(x.fr),
                crate::source_encode::pictures(loaded),
            ).0 == now.picture
        },
        crate::source_decode::references(p[4], s.rat, pool) == Ok::<Seq<Sight>, Seq<char>>(loaded),
{
    lemma_opening(raw, p, o, f, s, fi);
    let x = crate::source_decode::opening(p, s, fi)->Ok_0;
    lemma_middle(e.refs, crate::source_encode::naming(names, names.len() as int), p[4]);
    lemma_references(p[4], s.rat, pool, now.picture, e.prev, names, loaded);
    lemma_told(raw, f, x.fr, g, now);
    assert(crate::source_law::codable(now.picture)) by {
        reveal(known);
        lemma_seen(raw, f, g);
    }
    let extra = crate::source_encode::pictures(loaded);
    assert(crate::source_codec::coded(e.coding, now.picture, extra) == next.coding) by {
        reveal(with_frame);
    }
    crate::source_law::law_picture_comes_back(e.coding, s.dec, now.picture, extra);
}

/// Steady painters expect the same of a frame when it is read as when it was written.
proof fn lemma_answer<P: crate::source_frames::Painter>(
    raw: Seq<u8>,
    pool: Seq<Kept>,
    p: Seq<Seq<u8>>,
    o: Outline,
    f: Contents,
    e: Draft,
    next: Draft,
    s: Leaf,
    fi: int,
    g: Sketch,
    q: Expectation,
    a0: P,
    a1: P,
    b0: P,
    b1: P,
)
    requires
        crate::source_frames::steady::<P>(),
        crate::head_law::stands(raw, f),
        f.wf(),
        plain(raw, f),
        raw.len() <= u64::MAX,
        0 <= o.at <= f.offset,
        0 <= fi,
        o.table.len() == 12 * fi,
        holds(p, more(raw, o, f)),
        starts(next.refs, p[4]),
        settled(e),
        crate::source_encode::drafted(raw, pool, e, f, g) == Ok::<Draft, Seq<char>>(next),
        agree(raw, o, e, s),
        fed(next, s),
        crate::source_encode::frame_asked(raw, f, g, a0, a1),
        crate::source_decode::leaf_asked(p, pool, s, fi, q, b0, b1),
    ensures
        q == g.expected,
{
    let (now, names, loaded) = lemma_drafted_is(raw, pool, e, f, g, next);
    lemma_question(raw, pool, p, o, f, e, next, s, fi, g, now, names, loaded);
    assert(crate::source_encode::seen(raw, f, g) == Ok::<Sight, Seq<char>>(now)) by {
        reveal(known);
    }
    let d = crate::prores_bits::decoded(raw, f)->Ok_0;
    let x = crate::source_decode::opening(p, s, fi)->Ok_0;
    let mid = choose|mid: P| #[trigger]
        a0.paints(d, f, g.colours, &mid) && mid.expects(now.picture, f, d.qmb, g.expected, &a1);
    assert(crate::source_decode::picture_asked(x, s, loaded, q, b0, b1));
    reveal(crate::source_frames::steady);
    assert(crate::source_frames::expects_alike(
        mid,
        b0,
        now.picture,
        f,
        x.fr,
        now.qmb,
        g.expected,
        q,
        a1,
        b1,
    ));
}

/// One more frame is read as it was written.
proof fn lemma_step(
    raw: Seq<u8>,
    pool: Seq<Kept>,
    keep: bool,
    p: Seq<Seq<u8>>,
    o: Outline,
    f: Contents,
    e: Draft,
    next: Draft,
    s: Leaf,
    fi: int,
    g: Sketch,
    q: Expectation,
)
    requires
        crate::head_law::stands(raw, f),
        f.wf(),
        plain(raw, f),
        raw.len() <= u64::MAX,
        0 <= o.at <= f.offset,
        0 <= fi,
        o.table.len() == 12 * fi,
        holds(p, more(raw, o, f)),
        starts(next.refs, p[4]),
        settled(e),
        crate::source_encode::drafted(raw, pool, e, f, g) == Ok::<Draft, Seq<char>>(next),
        agree(raw, o, e, s),
        fed(next, s),
        q == g.expected,
    ensures
        crate::source_decode::leafed(p, pool, keep, s, fi, q) matches Ok(t) && agree(
            raw,
            more(raw, o, f),
            next,
            t,
        ) && same_feed(s, t),
{
    let (now, names, loaded) = lemma_drafted_is(raw, pool, e, f, g, next);
    lemma_known_step(raw, pool, keep, p, o, f, e, next, s, fi, g, q, now, names, loaded);
}

/// The length of the first `k` frames.
spec fn total(all: Seq<Contents>, k: int) -> int
    decreases k,
{
    if k <= 0 {
        0
    } else {
        total(all, k - 1) + all[k - 1].len
    }
}

proof fn lemma_outline(raw: Seq<u8>, all: Seq<Contents>, k: int)
    requires
        crate::head_law::all_stand(raw, all),
        0 <= k <= all.len(),
    ensures
        crate::mov_source::outlined(raw, all, k) matches Ok(o) ==> {
            &&& 0 <= o.at <= raw.len()
            &&& o.table.len() == 12 * k
            &&& o.skeleton.len() + total(all, k) == o.at
            &&& o.qscales.len() <= o.at
        },
    decreases k,
{
    if k > 0 {
        lemma_outline(raw, all, k - 1);
        match crate::mov_source::outlined(raw, all, k - 1) {
            Err(_) => {},
            Ok(o) => {
                let f = all[k - 1];
                assert(crate::head_law::stands(raw, f));
                crate::head_law::lemma_span(raw, f);
                crate::wire::lemma_lengths(f.offset - o.at);
                crate::wire::lemma_lengths(f.len);
            },
        }
    }
}

proof fn lemma_outline_starts(raw: Seq<u8>, all: Seq<Contents>, k: int, n: int)
    requires
        0 <= k <= n,
        crate::mov_source::outlined(raw, all, n) is Ok,
    ensures
        crate::mov_source::outlined(raw, all, k) is Ok,
        ({
            let a = crate::mov_source::outlined(raw, all, k)->Ok_0;
            let b = crate::mov_source::outlined(raw, all, n)->Ok_0;
            &&& starts(a.skeleton, b.skeleton)
            &&& starts(a.table, b.table)
            &&& starts(a.heads, b.heads)
            &&& starts(a.qscales, b.qscales)
        }),
    decreases n - k,
{
    if k == n {
        let a = crate::mov_source::outlined(raw, all, k)->Ok_0;
        lemma_starts_self(a.skeleton);
        lemma_starts_self(a.table);
        lemma_starts_self(a.heads);
        lemma_starts_self(a.qscales);
    } else {
        lemma_outline_starts(raw, all, k, n - 1);
        let a = crate::mov_source::outlined(raw, all, k)->Ok_0;
        let m = crate::mov_source::outlined(raw, all, n - 1)->Ok_0;
        let b = crate::mov_source::outlined(raw, all, n)->Ok_0;
        let f = all[n - 1];
        assert(b == more(raw, m, f));
        lemma_more_starts(raw, m, f);
        lemma_starts(a.skeleton, m.skeleton, b.skeleton);
        lemma_starts(a.table, m.table, b.table);
        lemma_starts(a.heads, m.heads, b.heads);
        lemma_starts(a.qscales, m.qscales, b.qscales);
    }
}

proof fn lemma_starts_self(a: Seq<u8>)
    ensures
        starts(a, a),
{
    assert(a.take(a.len() as int) =~= a);
}

proof fn lemma_more_starts(raw: Seq<u8>, o: Outline, f: Contents)
    ensures
        starts(o.skeleton, more(raw, o, f).skeleton),
        starts(o.table, more(raw, o, f).table),
        starts(o.heads, more(raw, o, f).heads),
        starts(o.qscales, more(raw, o, f).qscales),
{
    let next = more(raw, o, f);
    assert(next.skeleton.take(o.skeleton.len() as int) =~= o.skeleton);
    assert(next.table.take(o.table.len() as int) =~= o.table);
    assert(next.heads.take(o.heads.len() as int) =~= o.heads);
    assert(next.qscales.take(o.qscales.len() as int) =~= o.qscales);
}

/// What the table says of the length of frames is their length.
proof fn lemma_total(raw: Seq<u8>, all: Seq<Contents>, table: Seq<u8>, k: int, n: int)
    requires
        crate::head_law::all_stand(raw, all),
        raw.len() <= u64::MAX,
        0 <= k <= n <= all.len(),
        crate::mov_source::outlined(raw, all, n) matches Ok(o) && o.table == table,
    ensures
        crate::source_decode::lengths(table, k) == total(all, k),
    decreases k,
{
    if k > 0 {
        lemma_total(raw, all, table, k - 1, n);
        lemma_outline_starts(raw, all, k, n);
        lemma_outline_starts(raw, all, k - 1, k);
        lemma_outline(raw, all, k - 1);
        let o = crate::mov_source::outlined(raw, all, k - 1)->Ok_0;
        let f = all[k - 1];
        assert(crate::head_law::stands(raw, f));
        crate::head_law::lemma_span(raw, f);
        lemma_table(table, o.table, k - 1, f.offset - o.at, f.len);
    }
}

proof fn lemma_blank(light: bool)
    ensures
        settled(Draft::blank(light)),
{
    let e = Draft::blank(light);
    assert forall|b: int| 0 <= b < STREAMS implies (#[trigger] e.coding.bands[b]).0.wf()
        && e.coding.bands[b].1.wf() by {
        assert(e.coding.bands[b].0 == crate::source_band::Learned::fresh());
    }
    assert forall|b: int| 0 <= b < STREAMS implies crate::error_law::sound((#[trigger] e.bands[b]).0)
        && e.bands[b].1.wf() by {
        assert(e.bands[b].0 == Lore::fresh());
    }
}

proof fn lemma_drafted(raw: Seq<u8>, pool: Seq<Kept>, e: Draft, f: Contents, g: Sketch, next: Draft)
    requires
        f.wf(),
        settled(e),
        crate::source_encode::drafted(raw, pool, e, f, g) == Ok::<Draft, Seq<char>>(next),
    ensures
        settled(next),
        starts(e.refs, next.refs),
        next.refs.len() <= e.refs.len() + 5,
        forall|b: int, data: Seq<u8>|
            0 <= b < STREAMS && (#[trigger] next.coding.bands[b].1.leads(data))
                ==> e.coding.bands[b].1.leads(data),
        forall|b: int, data: Seq<u8>|
            0 <= b < STREAMS && (#[trigger] next.bands[b].1.leads(data)) ==> e.bands[b].1.leads(data),
{
    lemma_seen(raw, f, g);
    let now = crate::source_encode::seen(raw, f, g)->Ok_0;
    let (names, loaded) = crate::source_encode::chosen(pool, now.picture, e.prev)->Ok_0;
    lemma_nearest(
        pool,
        crate::source_frames::thumbnail(now.picture),
        now.picture.w,
        now.picture.h,
    );
    assert(crate::source_encode::naming(names, names.len() as int).len() <= 5) by {
        reveal_with_fuel(crate::source_encode::naming, 3);
        reveal_with_fuel(crate::wire::le_bytes, 3);
    }
    lemma_starts_sum(e.refs, crate::source_encode::naming(names, names.len() as int));
    crate::source_law::lemma_frame(e.coding, now.picture, crate::source_encode::pictures(loaded));
    crate::error_law::lemma_frame(
        e.bands,
        hoped(g, now),
        crate::source_encode::rivals(e.prev, loaded),
        now,
    );
}

/// Whether what was written later begins with what was written before.
spec fn leads_to(e: Draft, later: Draft) -> bool {
    &&& starts(e.refs, later.refs)
    &&& forall|b: int, data: Seq<u8>|
        0 <= b < STREAMS && (#[trigger] later.coding.bands[b].1.leads(data))
            ==> e.coding.bands[b].1.leads(data)
    &&& forall|b: int, data: Seq<u8>|
        0 <= b < STREAMS && (#[trigger] later.bands[b].1.leads(data)) ==> e.bands[b].1.leads(data)
}

proof fn lemma_draft(
    raw: Seq<u8>,
    pool: Seq<Kept>,
    light: bool,
    all: Seq<Contents>,
    gs: Seq<Sketch>,
    k: int,
)
    requires
        forall|i: int| 0 <= i < all.len() ==> (#[trigger] all[i]).wf(),
        0 <= k <= all.len(),
    ensures
        crate::source_encode::draft(raw, pool, light, all, gs, k) matches Ok(e) ==> settled(e)
            && e.refs.len() <= 5 * k,
    decreases k,
{
    if k <= 0 {
        lemma_blank(light);
    } else {
        lemma_draft(raw, pool, light, all, gs, k - 1);
        match crate::source_encode::draft(raw, pool, light, all, gs, k) {
            Err(_) => {},
            Ok(next) => {
                let e = crate::source_encode::draft(raw, pool, light, all, gs, k - 1)->Ok_0;
                assert(all[k - 1].wf());
                lemma_drafted(raw, pool, e, all[k - 1], gs[k - 1], next);
            },
        }
    }
}

proof fn lemma_draft_leads(
    raw: Seq<u8>,
    pool: Seq<Kept>,
    light: bool,
    all: Seq<Contents>,
    gs: Seq<Sketch>,
    k: int,
    n: int,
)
    requires
        forall|i: int| 0 <= i < all.len() ==> (#[trigger] all[i]).wf(),
        0 <= k <= n <= all.len(),
        crate::source_encode::draft(raw, pool, light, all, gs, n) is Ok,
    ensures
        crate::source_encode::draft(raw, pool, light, all, gs, k) is Ok,
        leads_to(
            crate::source_encode::draft(raw, pool, light, all, gs, k)->Ok_0,
            crate::source_encode::draft(raw, pool, light, all, gs, n)->Ok_0,
        ),
    decreases n - k,
{
    let later = crate::source_encode::draft(raw, pool, light, all, gs, n)->Ok_0;
    if k == n {
        lemma_starts_self(later.refs);
    } else {
        lemma_draft_leads(raw, pool, light, all, gs, k, n - 1);
        lemma_draft(raw, pool, light, all, gs, n - 1);
        let m = crate::source_encode::draft(raw, pool, light, all, gs, n - 1)->Ok_0;
        let e = crate::source_encode::draft(raw, pool, light, all, gs, k)->Ok_0;
        assert(all[n - 1].wf());
        lemma_drafted(raw, pool, m, all[n - 1], gs[n - 1], later);
        lemma_starts(e.refs, m.refs, later.refs);
    }
}

/// Whether the parts of a record and the readers of its streams are those of a movie.
#[verifier::opaque]
spec fn laid_out(
    raw: Seq<u8>,
    pool: Seq<Kept>,
    light: bool,
    gs: Seq<Sketch>,
    p: Seq<Seq<u8>>,
    start: Leaf,
) -> bool {
    let all = crate::prores_frame::frames_of(raw);
    let n = all.len() as int;
    &&& raw.len() <= u64::MAX
    &&& forall|i: int| 0 <= i < n ==> (#[trigger] all[i]).wf() && plain(raw, all[i])
    &&& crate::mov_source::outlined(raw, all, n) matches Ok(o) && holds(p, o)
    &&& crate::source_encode::draft(raw, pool, light, all, gs, n) matches Ok(e) && starts(e.refs, p[4])
        && fed(e, start)
    &&& agree(raw, crate::mov_source::outlined(raw, all, 0)->Ok_0, Draft::blank(light), start)
}

/// Whether reading has come to where writing was before frame number `fi`.
#[verifier::opaque]
spec fn at_frame(
    raw: Seq<u8>,
    pool: Seq<Kept>,
    light: bool,
    gs: Seq<Sketch>,
    p: Seq<Seq<u8>>,
    s: Leaf,
    fi: int,
    o: Outline,
    e: Draft,
    next: Draft,
) -> bool {
    let all = crate::prores_frame::frames_of(raw);
    let f = all[fi];
    &&& crate::head_law::stands(raw, f)
    &&& f.wf()
    &&& plain(raw, f)
    &&& raw.len() <= u64::MAX
    &&& 0 <= o.at <= f.offset
    &&& 0 <= fi
    &&& o.table.len() == 12 * fi
    &&& holds(p, more(raw, o, f))
    &&& starts(next.refs, p[4])
    &&& settled(e)
    &&& crate::source_encode::drafted(raw, pool, e, f, gs[fi]) == Ok::<Draft, Seq<char>>(next)
    &&& agree(raw, o, e, s)
    &&& fed(next, s)
    &&& crate::mov_source::outlined(raw, all, fi + 1) == Ok::<Outline, Seq<char>>(more(raw, o, f))
    &&& crate::source_encode::draft(raw, pool, light, all, gs, fi + 1) == Ok::<Draft, Seq<char>>(next)
}

/// Where the frames before were read as they were written, so can the next one be.
proof fn lemma_at(
    raw: Seq<u8>,
    pool: Seq<Kept>,
    light: bool,
    gs: Seq<Sketch>,
    p: Seq<Seq<u8>>,
    start: Leaf,
    s: Leaf,
    fi: int,
) -> (r: (Outline, Draft, Draft))
    requires
        laid_out(raw, pool, light, gs, p, start),
        0 <= fi < crate::prores_frame::frames_of(raw).len(),
        same_feed(start, s),
        agree(
            raw,
            crate::mov_source::outlined(raw, crate::prores_frame::frames_of(raw), fi)->Ok_0,
            crate::source_encode::draft(
                raw,
                pool,
                light,
                crate::prores_frame::frames_of(raw),
                gs,
                fi,
            )->Ok_0,
            s,
        ),
    ensures
        at_frame(raw, pool, light, gs, p, s, fi, r.0, r.1, r.2),
{
    let all = crate::prores_frame::frames_of(raw);
    let n = all.len() as int;
    let k = fi + 1;
    reveal(laid_out);
    reveal(at_frame);
    crate::head_law::law_frames_stand(raw);
    let f = all[k - 1];
    assert(crate::head_law::stands(raw, f));
    assert(f.wf() && plain(raw, f));
    lemma_outline_starts(raw, all, k, n);
    lemma_outline_starts(raw, all, k - 1, k);
    lemma_outline(raw, all, k - 1);
    let whole = crate::mov_source::outlined(raw, all, n)->Ok_0;
    let o = crate::mov_source::outlined(raw, all, k - 1)->Ok_0;
    let o1 = crate::mov_source::outlined(raw, all, k)->Ok_0;
    assert(o1 == more(raw, o, f));
    lemma_starts(o1.skeleton, whole.skeleton, p[0]);
    lemma_starts(o1.table, whole.table, p[1]);
    lemma_starts(o1.heads, whole.heads, p[2]);
    lemma_starts(o1.qscales, whole.qscales, p[3]);
    lemma_draft_leads(raw, pool, light, all, gs, k, n);
    lemma_draft_leads(raw, pool, light, all, gs, k - 1, k);
    lemma_draft(raw, pool, light, all, gs, k - 1);
    let end = crate::source_encode::draft(raw, pool, light, all, gs, n)->Ok_0;
    let e = crate::source_encode::draft(raw, pool, light, all, gs, k - 1)->Ok_0;
    let next = crate::source_encode::draft(raw, pool, light, all, gs, k)->Ok_0;
    lemma_starts(next.refs, end.refs, p[4]);
    assert(fed(next, s)) by {
        assert forall|b: int| 0 <= b < STREAMS implies next.coding.bands[b].1.leads(
            (#[trigger] s.dec.bands[b]).1.data,
        ) by {
            assert(end.coding.bands[b].1.leads(start.dec.bands[b].1.data));
        }
        assert forall|b: int| 0 <= b < STREAMS implies next.bands[b].1.leads(
            (#[trigger] s.bands[b]).1.data,
        ) by {
            assert(end.bands[b].1.leads(start.bands[b].1.data));
        }
    }
    (o, e, next)
}

/// The first `k` frames are read as they were written.
proof fn lemma_leaf(
    raw: Seq<u8>,
    pool: Seq<Kept>,
    light: bool,
    keep: bool,
    gs: Seq<Sketch>,
    p: Seq<Seq<u8>>,
    start: Leaf,
    qs: Seq<Expectation>,
    k: int,
)
    requires
        0 <= k <= crate::prores_frame::frames_of(raw).len(),
        laid_out(raw, pool, light, gs, p, start),
        forall|i: int| 0 <= i < k ==> #[trigger] qs[i] == gs[i].expected,
    ensures
        ({
            let all = crate::prores_frame::frames_of(raw);
            crate::source_decode::leaf(p, pool, keep, start, qs, k) matches Ok(s) && agree(
                raw,
                crate::mov_source::outlined(raw, all, k)->Ok_0,
                crate::source_encode::draft(raw, pool, light, all, gs, k)->Ok_0,
                s,
            ) && same_feed(start, s)
        }),
    decreases k,
{
    let all = crate::prores_frame::frames_of(raw);
    if k > 0 {
        lemma_leaf(raw, pool, light, keep, gs, p, start, qs, k - 1);
        let s = crate::source_decode::leaf(p, pool, keep, start, qs, k - 1)->Ok_0;
        let (o, e, next) = lemma_at(raw, pool, light, gs, p, start, s, k - 1);
        reveal(at_frame);
        assert(qs[k - 1] == gs[k - 1].expected);
        lemma_step(raw, pool, keep, p, o, all[k - 1], e, next, s, k - 1, gs[k - 1], qs[k - 1]);
    } else {
        reveal(laid_out);
        assert(crate::source_encode::draft(raw, pool, light, all, gs, 0) == Ok::<Draft, Seq<char>>(
            Draft::blank(light),
        ));
    }
}

proof fn lemma_answer_at<P: crate::source_frames::Painter>(
    raw: Seq<u8>,
    pool: Seq<Kept>,
    light: bool,
    gs: Seq<Sketch>,
    p: Seq<Seq<u8>>,
    s: Leaf,
    fi: int,
    o: Outline,
    e: Draft,
    next: Draft,
    q: Expectation,
    a0: P,
    a1: P,
    b0: P,
    b1: P,
)
    requires
        crate::source_frames::steady::<P>(),
        at_frame(raw, pool, light, gs, p, s, fi, o, e, next),
        crate::source_encode::frame_asked(raw, crate::prores_frame::frames_of(raw)[fi], gs[fi], a0, a1),
        crate::source_decode::leaf_asked(p, pool, s, fi, q, b0, b1),
    ensures
        q == gs[fi].expected,
{
    reveal(at_frame);
    let f = crate::prores_frame::frames_of(raw)[fi];
    lemma_answer(raw, pool, p, o, f, e, next, s, fi, gs[fi], q, a0, a1, b0, b1);
}

/// Steady painters expect the same of the first `k` frames when they are read as when they were written.
proof fn lemma_answers<P: crate::source_frames::Painter>(
    raw: Seq<u8>,
    pool: Seq<Kept>,
    light: bool,
    keep: bool,
    gs: Seq<Sketch>,
    ps: Seq<P>,
    p: Seq<Seq<u8>>,
    start: Leaf,
    es: Seq<Expectation>,
    qs: Seq<P>,
    k: int,
)
    requires
        crate::source_frames::steady::<P>(),
        laid_out(raw, pool, light, gs, p, start),
        gs.len() == crate::prores_frame::frames_of(raw).len(),
        0 <= k <= es.len() <= gs.len(),
        forall|i: int|
            0 <= i < gs.len() ==> #[trigger] crate::source_encode::asked_at(
                raw,
                crate::prores_frame::frames_of(raw),
                gs,
                ps,
                i,
            ),
        forall|i: int|
            0 <= i < es.len() ==> #[trigger] crate::source_decode::read_at(p, pool, keep, start, es, qs, i),
    ensures
        forall|i: int| 0 <= i < k ==> #[trigger] es[i] == gs[i].expected,
    decreases k,
{
    let all = crate::prores_frame::frames_of(raw);
    if k > 0 {
        lemma_answers(raw, pool, light, keep, gs, ps, p, start, es, qs, k - 1);
        lemma_leaf(raw, pool, light, keep, gs, p, start, es, k - 1);
        let s = crate::source_decode::leaf(p, pool, keep, start, es, k - 1)->Ok_0;
        let (o, e, next) = lemma_at(raw, pool, light, gs, p, start, s, k - 1);
        assert(crate::source_encode::asked_at(raw, all, gs, ps, k - 1));
        assert(crate::source_decode::read_at(p, pool, keep, start, es, qs, k - 1));
        lemma_answer_at(
            raw,
            pool,
            light,
            gs,
            p,
            s,
            k - 1,
            o,
            e,
            next,
            es[k - 1],
            ps[k - 1],
            ps[k],
            qs[k - 1],
            qs[k],
        );
    }
}

/// Some bytes, and the first `k` of some sections behind them.
spec fn laid(head: Seq<u8>, x: Seq<Seq<u8>>, k: int) -> Seq<u8>
    decreases k,
{
    if k <= 0 {
        head
    } else {
        laid(head, x, k - 1) + crate::source_record::section(x[k - 1])
    }
}

proof fn lemma_laid_starts(head: Seq<u8>, x: Seq<Seq<u8>>, k: int, n: int)
    requires
        0 <= k <= n,
    ensures
        starts(laid(head, x, k), laid(head, x, n)),
    decreases n - k,
{
    if k == n {
        lemma_starts_self(laid(head, x, k));
    } else {
        lemma_laid_starts(head, x, k, n - 1);
        lemma_starts_sum(laid(head, x, n - 1), crate::source_record::section(x[n - 1]));
        lemma_starts(laid(head, x, k), laid(head, x, n - 1), laid(head, x, n));
    }
}

proof fn lemma_parts(head: Seq<u8>, x: Seq<Seq<u8>>, k: int)
    requires
        head.len() == 12,
        x.len() == 7,
        0 <= k < 7,
        laid(head, x, 7).len() <= usize::MAX,
    ensures
        crate::source_record::part_at(laid(head, x, 7), k) == Ok::<(Seq<u8>, int), Seq<char>>(
            (x[k], laid(head, x, k + 1).len() as int),
        ),
    decreases k,
{
    let all = laid(head, x, 7);
    let before = laid(head, x, k);
    let upto = laid(head, x, k + 1);
    if k > 0 {
        lemma_parts(head, x, k - 1);
    }
    lemma_laid_starts(head, x, k + 1, 7);
    let rest = all.skip(upto.len() as int);
    assert(all =~= upto + rest);
    assert(upto == before + crate::source_record::section(x[k]));
    crate::source_record::law_sections_come_back(before, x[k], rest);
}

proof fn lemma_packed(ps: Seq<Outcome<Seq<u8>>>, k: int)
    requires
        0 <= k,
        crate::mov_source::all_packed(ps, k) is Ok,
    ensures
        crate::mov_source::all_packed(ps, k)->Ok_0.len() == k,
        forall|i: int|
            0 <= i < k ==> #[trigger] ps[i] == Ok::<Seq<u8>, Seq<char>>(
                crate::mov_source::all_packed(ps, k)->Ok_0[i],
            ),
    decreases k,
{
    if k > 0 {
        lemma_packed(ps, k - 1);
    }
}

/// Whether section number `k` of a record holds some bytes.
spec fn is_part(data: Seq<u8>, k: int, s: Seq<u8>) -> bool {
    crate::source_record::part_at(data, k) is Ok && crate::source_record::part_at(data, k)->Ok_0.0 == s
}

proof fn lemma_opened(
    data: Seq<u8>,
    n: int,
    x: Seq<Seq<u8>>,
    parts: Seq<Seq<u8>>,
    k: int,
)
    requires
        0 <= k <= 5,
        1 <= n <= crate::source_record::MAX_FRAMES,
        parts.len() == 5,
        forall|i: int| 0 <= i < 5 ==> #[trigger] is_part(data, i, x[i]),
        forall|i: int| 0 <= i < 5 ==> crate::compression::gives_back(#[trigger] x[i], parts[i]),
        forall|i: int| 0 <= i < 5 ==> (#[trigger] parts[i]).len() <= crate::source_record::room(n, i),
    ensures
        crate::source_record::opened(data, n, k) == Ok::<Seq<Seq<u8>>, Seq<char>>(parts.take(k)),
    decreases k,
{
    if k > 0 {
        lemma_opened(data, n, x, parts, k - 1);
        assert(crate::compression::gives_back(x[k - 1], parts[k - 1]));
        assert(is_part(data, k - 1, x[k - 1]));
        assert(parts[k - 1].len() <= crate::source_record::room(n, k - 1));
        assert(crate::compression::streamed(x[k - 1], crate::source_record::room(n, k - 1) + 1) == Ok::<
            Seq<u8>,
            Seq<char>,
        >(parts[k - 1]));
        assert(parts.take(k) =~= parts.take(k - 1).push(parts[k - 1]));
    } else {
        assert(parts.take(0) =~= Seq::empty());
    }
}

/// The seven sections of a record.
spec fn sections(packed: Seq<Seq<u8>>, d: Draft) -> Seq<Seq<u8>> {
    seq![
        packed[0],
        packed[1],
        packed[2],
        packed[3],
        packed[4],
        crate::source_codec::finished(d.coding),
        crate::streams::bundled(Seq::new(d.bands.len(), |b: int| d.bands[b].1.finish())),
    ]
}

/// The bytes before the sections of a record.
spec fn record_head(n: int) -> Seq<u8> {
    crate::source_record::MAGIC@ + crate::wire::le_bytes(n, 4)
}

proof fn lemma_record(n: int, packed: Seq<Seq<u8>>, d: Draft)
    requires
        1 <= n <= crate::source_record::MAX_FRAMES,
    ensures
        ({
            let data = crate::mov_source::record(n, packed, d);
            &&& data == laid(record_head(n), sections(packed, d), 7)
            &&& record_head(n).len() == 12
            &&& crate::source_record::count_of(data) == Ok::<int, Seq<char>>(n)
        }),
{
    let head = record_head(n);
    let x = sections(packed, d);
    let data = crate::mov_source::record(n, packed, d);
    crate::wire::lemma_lengths(n);
    reveal_with_fuel(laid, 8);
    assert(data =~= laid(head, x, 7));
    lemma_laid_starts(head, x, 0, 7);
    assert(starts(head, data));
    assert(data.take(8) =~= head.take(8));
    assert(head.take(8) =~= crate::source_record::MAGIC@);
    lemma_middle(crate::source_record::MAGIC@, crate::wire::le_bytes(n, 4), data);
    crate::wire::lemma_le32_at(data, 8, n);
}

/// The readers at the start of a record have all that was written, and are where writing began.
proof fn lemma_first(light: bool, d: Draft, streams: Seq<Seq<u8>>, errors: Seq<Seq<u8>>)
    requires
        settled(d),
        leads_to(Draft::blank(light), d),
        streams == Seq::new(d.coding.bands.len(), |b: int| d.coding.bands[b].1.finish()),
        errors == Seq::new(d.bands.len(), |b: int| d.bands[b].1.finish()),
    ensures
        ({
            let s = crate::source_decode::first_leaf(crate::source_codec::opened(streams), errors);
            &&& fed(d, s)
            &&& crate::source_law::in_step(Draft::blank(light).coding, s.dec)
            &&& crate::error_law::in_step(Draft::blank(light).bands, s.bands)
        }),
{
    let s = crate::source_decode::first_leaf(crate::source_codec::opened(streams), errors);
    let e = Draft::blank(light);
    assert forall|b: int| 0 <= b < STREAMS implies d.coding.bands[b].1.leads(
        (#[trigger] s.dec.bands[b]).1.data,
    ) && e.coding.bands[b].0 == s.dec.bands[b].0 && e.coding.bands[b].1.followed(s.dec.bands[b].1) by {
        assert(d.coding.bands[b].1.wf());
        crate::source_rc::law_finish_leads(d.coding.bands[b].1);
        assert(s.dec.bands[b].1.data == streams[b]);
        assert(d.coding.bands[b].1.leads(streams[b]));
        assert(e.coding.bands[b].1.leads(streams[b]));
        crate::source_rc::law_start(streams[b]);
    }
    assert forall|b: int| 0 <= b < STREAMS implies d.bands[b].1.leads((#[trigger] s.bands[b]).1.data)
        && e.bands[b].0 == s.bands[b].0 && e.bands[b].1.followed(s.bands[b].1) by {
        assert(d.bands[b].1.wf());
        crate::source_rc::law_finish_leads(d.bands[b].1);
        assert(s.bands[b].1.data == errors[b]);
        assert(d.bands[b].1.leads(errors[b]));
        assert(e.bands[b].1.leads(errors[b]));
        crate::source_rc::law_start(errors[b]);
    }
    assert forall|b: int| 0 <= b < STREAMS implies (#[trigger] e.coding.bands[b]).0 == s.dec.bands[b].0
        && e.coding.bands[b].1.followed(s.dec.bands[b].1) by {
        assert(d.coding.bands[b].1.leads(s.dec.bands[b].1.data));
    }
    assert forall|b: int| 0 <= b < STREAMS implies (#[trigger] e.bands[b]).0 == s.bands[b].0
        && e.bands[b].1.followed(s.bands[b].1) by {
        assert(d.bands[b].1.leads(s.bands[b].1.data));
    }
}

/// The parts of a record are found again, and reading starts where writing did.
#[verifier::spinoff_prover]
#[verifier::rlimit(60)]
proof fn lemma_begun(
    n: int,
    packed: Seq<Seq<u8>>,
    parts: Seq<Seq<u8>>,
    d: Draft,
)
    requires
        1 <= n <= crate::source_record::MAX_FRAMES,
        settled(d),
        packed.len() == 5,
        parts.len() == 5,
        forall|k: int| 0 <= k < 5 ==> crate::compression::gives_back(#[trigger] packed[k], parts[k]),
        forall|k: int| 0 <= k < 5 ==> (#[trigger] parts[k]).len() <= crate::source_record::room(n, k),
        parts[1].len() == n * 12,
        parts[0].len() + crate::source_decode::lengths(parts[1], n)
            <= crate::source_record::MAX_OUTPUT,
        crate::mov_source::record(n, packed, d).len() <= usize::MAX,
        crate::mov_source::record(n, packed, d).len() < 0x1_0000_0000,
    ensures
        crate::source_decode::begun(crate::mov_source::record(n, packed, d)) == Ok::<
            (Seq<Seq<u8>>, Leaf),
            Seq<char>,
        >(
            (
                parts,
                crate::source_decode::first_leaf(
                    crate::source_codec::opened(
                        Seq::new(
                            d.coding.bands.len(),
                            |b: int| d.coding.bands[b].1.finish(),
                        ),
                    ),
                    Seq::new(d.bands.len(), |b: int| d.bands[b].1.finish()),
                ),
            ),
        ),
{
    let data = crate::mov_source::record(n, packed, d);
    let head = record_head(n);
    let x = sections(packed, d);
    lemma_record(n, packed, d);
    assert forall|k: int| 0 <= k < 5 implies #[trigger] is_part(data, k, x[k]) by {
        lemma_parts(head, x, k);
    }
    assert forall|k: int| 0 <= k < 5 implies crate::compression::gives_back(#[trigger] x[k], parts[k]) by {
        assert(x[k] == packed[k]);
    }
    lemma_opened(data, n, x, parts, 5);
    assert(parts.take(5) =~= parts);
    lemma_parts(head, x, 5);
    lemma_parts(head, x, 6);
    let streams = Seq::new(d.coding.bands.len(), |b: int| d.coding.bands[b].1.finish());
    let errors = Seq::new(d.bands.len(), |b: int| d.bands[b].1.finish());
    assert(x[5].len() <= data.len() && x[6].len() <= data.len()) by {
        lemma_laid_starts(head, x, 6, 7);
        lemma_laid_starts(head, x, 7, 7);
        assert(laid(head, x, 6) == laid(head, x, 5) + crate::source_record::section(x[5]));
        assert(laid(head, x, 7) == laid(head, x, 6) + crate::source_record::section(x[6]));
    }
    crate::streams::lemma_part_len(streams);
    crate::streams::lemma_part_len(errors);
    crate::streams::law_part_undoes_bundle(
        streams,
        "truncated source stream"@,
        "invalid source stream"@,
    );
    crate::streams::law_part_undoes_bundle(
        errors,
        "truncated residual stream"@,
        "invalid residual stream"@,
    );
    reveal(crate::source_decode::begun);
}

proof fn lemma_total_grows(raw: Seq<u8>, all: Seq<Contents>, k: int)
    requires
        crate::head_law::all_stand(raw, all),
        k <= all.len(),
    ensures
        total(all, k) >= 0,
    decreases k,
{
    if k > 0 {
        lemma_total_grows(raw, all, k - 1);
        assert(crate::head_law::stands(raw, all[k - 1]));
    }
}

/// What the record of a movie is made of.
proof fn lemma_encoded(
    raw: Seq<u8>,
    pool: Seq<Kept>,
    light: bool,
    made: Seq<Sketch>,
    data: Seq<u8>,
) -> (r: (Outline, Draft, Seq<Seq<u8>>))
    requires
        crate::mov_source::encoded(raw, pool, light, made) == Ok::<Seq<u8>, Seq<char>>(data),
        crate::mov_source::record_comes_back(raw, pool, light, made),
    ensures
        ({
            let all = crate::prores_frame::frames_of(raw);
            let n = all.len() as int;
            let parts = crate::mov_source::parts_of(raw, r.0, r.1);
            &&& 1 <= n <= crate::source_record::MAX_FRAMES
            &&& raw.len() <= crate::source_record::MAX_OUTPUT
            &&& crate::mov_source::outlined(raw, all, n) == Ok::<Outline, Seq<char>>(r.0)
            &&& crate::source_encode::draft(raw, pool, light, all, made, n) == Ok::<
                Draft,
                Seq<char>,
            >(r.1)
            &&& data == crate::mov_source::record(n, r.2, r.1)
            &&& r.2.len() == 5
            &&& forall|k: int|
                0 <= k < 5 ==> crate::compression::gives_back(#[trigger] r.2[k], parts[k])
        }),
{
    let all = crate::prores_frame::frames_of(raw);
    let n = all.len() as int;
    let outline = crate::mov_source::outlined(raw, all, n)->Ok_0;
    let d = crate::source_encode::draft(raw, pool, light, all, made, n)->Ok_0;
    let parts = crate::mov_source::parts_of(raw, outline, d);
    let ps = crate::mov_source::packed_parts(parts);
    lemma_packed(ps, 5);
    let packed = crate::mov_source::all_packed(ps, 5)->Ok_0;
    assert forall|k: int| 0 <= k < 5 implies crate::compression::gives_back(#[trigger] packed[k], parts[k]) by {
        assert(ps[k] == Ok::<Seq<u8>, Seq<char>>(packed[k]));
    }
    (outline, d, packed)
}

/// The parts of a movie have room in a record.
proof fn lemma_sizes(raw: Seq<u8>, outline: Outline, d: Draft)
    requires
        raw.len() <= crate::source_record::MAX_OUTPUT,
        crate::mov_source::outlined(
            raw,
            crate::prores_frame::frames_of(raw),
            crate::prores_frame::frames_of(raw).len() as int,
        ) == Ok::<Outline, Seq<char>>(outline),
        outline.heads.len() <= 4096 * crate::prores_frame::frames_of(raw).len(),
        d.refs.len() <= 5 * crate::prores_frame::frames_of(raw).len(),
    ensures
        ({
            let n = crate::prores_frame::frames_of(raw).len() as int;
            let parts = crate::mov_source::parts_of(raw, outline, d);
            &&& 0 <= outline.at <= raw.len()
            &&& parts.len() == 5
            &&& parts[1].len() == n * 12
            &&& parts[0].len() + crate::source_decode::lengths(parts[1], n)
                <= crate::source_record::MAX_OUTPUT
            &&& forall|k: int|
                0 <= k < 5 ==> (#[trigger] parts[k]).len() <= crate::source_record::room(n, k)
        }),
{
    let all = crate::prores_frame::frames_of(raw);
    let n = all.len() as int;
    let parts = crate::mov_source::parts_of(raw, outline, d);
    crate::head_law::law_frames_stand(raw);
    lemma_outline(raw, all, n);
    lemma_total(raw, all, outline.table, n, n);
    lemma_total_grows(raw, all, n);
}

/// Reading starts where writing does.
proof fn lemma_start(raw: Seq<u8>, light: bool, s: Leaf)
    requires
        s.out == Seq::<u8>::empty(),
        s.sk == 0,
        s.hat == 0,
        s.qat == 0,
        s.rat == 0,
        s.prev is None,
        crate::source_law::in_step(Draft::blank(light).coding, s.dec),
        crate::error_law::in_step(Draft::blank(light).bands, s.bands),
    ensures
        agree(
            raw,
            crate::mov_source::outlined(raw, crate::prores_frame::frames_of(raw), 0)->Ok_0,
            Draft::blank(light),
            s,
        ),
{
    assert(raw.take(0) =~= Seq::<u8>::empty());
}

/// Where all frames have been read, the rest of the movie follows.
proof fn lemma_closed(raw: Seq<u8>, o: Outline, d: Draft, s: Leaf)
    requires
        0 <= o.at <= raw.len(),
        agree(raw, o, d, s),
    ensures
        crate::source_decode::closed(crate::mov_source::parts_of(raw, o, d), s) == Ok::<
            (Seq<u8>, Seq<Kept>),
            Seq<char>,
        >((raw, s.pool)),
{
    let parts = crate::mov_source::parts_of(raw, o, d);
    let tail = raw.subrange(o.at, raw.len() as int);
    assert(parts[0].subrange(s.sk, parts[0].len() as int) =~= tail);
    assert(raw.take(o.at) + tail =~= raw);
}

proof fn lemma_restored_is(
    data: Seq<u8>,
    pool: Seq<Kept>,
    keep: bool,
    es: Seq<Expectation>,
    n: int,
    parts: Seq<Seq<u8>>,
    start: Leaf,
    s: Leaf,
)
    requires
        crate::source_record::count_of(data) == Ok::<int, Seq<char>>(n),
        crate::source_decode::begun(data) == Ok::<(Seq<Seq<u8>>, Leaf), Seq<char>>((parts, start)),
        crate::source_decode::leaf(parts, pool, keep, start, es, n) == Ok::<Leaf, Seq<char>>(s),
    ensures
        crate::source_decode::restored(data, pool, keep, es) == crate::source_decode::closed(parts, s),
{
}

#[verifier::spinoff_prover]
#[verifier::rlimit(60)]
proof fn lemma_begins(
    raw: Seq<u8>,
    light: bool,
    outline: Outline,
    d: Draft,
    packed: Seq<Seq<u8>>,
) -> (start: Leaf)
    requires
        ({
            let all = crate::prores_frame::frames_of(raw);
            let n = all.len() as int;
            let parts = crate::mov_source::parts_of(raw, outline, d);
            let data = crate::mov_source::record(n, packed, d);
            &&& 1 <= n <= crate::source_record::MAX_FRAMES
            &&& raw.len() <= crate::source_record::MAX_OUTPUT
            &&& crate::mov_source::outlined(raw, all, n) == Ok::<Outline, Seq<char>>(outline)
            &&& outline.heads.len() <= 4096 * n
            &&& settled(d)
            &&& d.refs.len() <= 5 * n
            &&& leads_to(Draft::blank(light), d)
            &&& packed.len() == 5
            &&& forall|k: int|
                0 <= k < 5 ==> crate::compression::gives_back(#[trigger] packed[k], parts[k])
            &&& data.len() <= usize::MAX
            &&& data.len() < 0x1_0000_0000
        }),
    ensures
        ({
            let all = crate::prores_frame::frames_of(raw);
            let n = all.len() as int;
            let data = crate::mov_source::record(n, packed, d);
            &&& 0 <= outline.at <= raw.len()
            &&& crate::source_record::count_of(data) == Ok::<int, Seq<char>>(n)
            &&& crate::source_decode::begun(data) == Ok::<(Seq<Seq<u8>>, Leaf), Seq<char>>(
                (crate::mov_source::parts_of(raw, outline, d), start),
            )
            &&& fed(d, start)
            &&& agree(
                raw,
                crate::mov_source::outlined(raw, all, 0)->Ok_0,
                Draft::blank(light),
                start,
            )
        }),
{
    let n = crate::prores_frame::frames_of(raw).len() as int;
    let parts = crate::mov_source::parts_of(raw, outline, d);
    lemma_sizes(raw, outline, d);
    lemma_record(n, packed, d);
    lemma_begun(n, packed, parts, d);
    let streams = Seq::new(d.coding.bands.len(), |b: int| d.coding.bands[b].1.finish());
    let errors = Seq::new(d.bands.len(), |b: int| d.bands[b].1.finish());
    let start = crate::source_decode::first_leaf(crate::source_codec::opened(streams), errors);
    lemma_first(light, d, streams, errors);
    lemma_start(raw, light, start);
    start
}

proof fn lemma_is_laid_out(
    raw: Seq<u8>,
    pool: Seq<Kept>,
    light: bool,
    gs: Seq<Sketch>,
    p: Seq<Seq<u8>>,
    start: Leaf,
    outline: Outline,
    d: Draft,
)
    requires
        ({
            let all = crate::prores_frame::frames_of(raw);
            let n = all.len() as int;
            &&& raw.len() <= u64::MAX
            &&& forall|i: int| 0 <= i < n ==> (#[trigger] all[i]).wf() && plain(raw, all[i])
            &&& crate::mov_source::outlined(raw, all, n) == Ok::<Outline, Seq<char>>(outline)
            &&& holds(p, outline)
            &&& crate::source_encode::draft(raw, pool, light, all, gs, n) == Ok::<Draft, Seq<char>>(d)
            &&& starts(d.refs, p[4])
            &&& fed(d, start)
            &&& agree(raw, crate::mov_source::outlined(raw, all, 0)->Ok_0, Draft::blank(light), start)
        }),
    ensures
        laid_out(raw, pool, light, gs, p, start),
{
    reveal(laid_out);
}

/// What is true of the record of a movie before its frames are read.
#[verifier::spinoff_prover]
#[verifier::rlimit(60)]
proof fn lemma_laid_out(
    raw: Seq<u8>,
    pool: Seq<Kept>,
    light: bool,
    gs: Seq<Sketch>,
    outline: Outline,
    d: Draft,
    packed: Seq<Seq<u8>>,
) -> (start: Leaf)
    requires
        ({
            let all = crate::prores_frame::frames_of(raw);
            let n = all.len() as int;
            let parts = crate::mov_source::parts_of(raw, outline, d);
            let data = crate::mov_source::record(n, packed, d);
            &&& 1 <= n <= crate::source_record::MAX_FRAMES
            &&& raw.len() <= crate::source_record::MAX_OUTPUT
            &&& crate::mov_source::outlined(raw, all, n) == Ok::<Outline, Seq<char>>(outline)
            &&& outline.heads.len() <= 4096 * n
            &&& crate::source_encode::draft(raw, pool, light, all, gs, n) == Ok::<Draft, Seq<char>>(d)
            &&& packed.len() == 5
            &&& forall|k: int|
                0 <= k < 5 ==> crate::compression::gives_back(#[trigger] packed[k], parts[k])
            &&& data.len() <= usize::MAX
            &&& data.len() < 0x1_0000_0000
            &&& forall|i: int| 0 <= i < n ==> (#[trigger] all[i]).wf() && plain(raw, all[i])
        }),
    ensures
        ({
            let n = crate::prores_frame::frames_of(raw).len() as int;
            let data = crate::mov_source::record(n, packed, d);
            let parts = crate::mov_source::parts_of(raw, outline, d);
            &&& 0 <= outline.at <= raw.len()
            &&& crate::source_record::count_of(data) == Ok::<int, Seq<char>>(n)
            &&& crate::source_decode::begun(data) == Ok::<(Seq<Seq<u8>>, Leaf), Seq<char>>((parts, start))
            &&& laid_out(raw, pool, light, gs, parts, start)
        }),
{
    let all = crate::prores_frame::frames_of(raw);
    let n = all.len() as int;
    let parts = crate::mov_source::parts_of(raw, outline, d);
    assert(settled(d) && d.refs.len() <= 5 * n && leads_to(Draft::blank(light), d)) by {
        lemma_draft(raw, pool, light, all, gs, n);
        lemma_draft_leads(raw, pool, light, all, gs, 0, n);
    }
    let start = lemma_begins(raw, light, outline, d, packed);
    assert(holds(parts, outline) && starts(d.refs, parts[4])) by {
        lemma_starts_sum(outline.skeleton, raw.subrange(outline.at, raw.len() as int));
        lemma_starts_self(outline.table);
        lemma_starts_self(outline.heads);
        lemma_starts_self(outline.qscales);
        lemma_starts_self(d.refs);
    }
    lemma_is_laid_out(raw, pool, light, gs, parts, start, outline, d);
    start
}

/// Whether a record was made of a movie all of whose frames can be put together again from what they hold, and
/// whose heads take up at most 4096 bytes each on average, and its compressed parts expand again.
pub open spec fn film_kept(
    raw: Seq<u8>,
    pool: Seq<Kept>,
    light: bool,
    data: Seq<u8>,
    made: Seq<Sketch>,
) -> bool {
    &&& crate::mov_source::encoded(raw, pool, light, made) == Ok::<Seq<u8>, Seq<char>>(data)
    &&& crate::mov_source::record_comes_back(raw, pool, light, made)
    &&& data.len() <= usize::MAX
    &&& data.len() < 0x1_0000_0000
    &&& forall|i: int|
        0 <= i < crate::prores_frame::frames_of(raw).len() ==> (
        #[trigger] crate::prores_frame::frames_of(raw)[i]).wf() && plain(
            raw,
            crate::prores_frame::frames_of(raw)[i],
        )
    &&& crate::mov_source::outlined(
        raw,
        crate::prores_frame::frames_of(raw),
        crate::prores_frame::frames_of(raw).len() as int,
    ) matches Ok(outline) ==> outline.heads.len() <= 4096 * crate::prores_frame::frames_of(raw).len()
}

/// A movie comes back from its record: where all frames can be put together again from what they hold, and
/// where their heads take up at most 4096 bytes each on average, decoding a record gives the movie that was
/// encoded, with painters that are steady.
#[verifier::spinoff_prover]
#[verifier::rlimit(60)]
pub proof fn law_decode_undoes_encode<P: crate::source_frames::Painter>(
    raw: Seq<u8>,
    pool: Seq<Kept>,
    light: bool,
    keep: bool,
    data: Seq<u8>,
    made: Seq<Sketch>,
    a0: P,
    a1: P,
    es: Seq<Expectation>,
    b0: P,
    b1: P,
)
    requires
        crate::source_frames::steady::<P>(),
        film_kept(raw, pool, light, data, made),
        crate::mov_source::wrote(raw, pool, light, made, a0, a1, false),
        crate::source_decode::read_so(data, pool, keep, es, b0, b1, false),
    ensures
        crate::source_decode::restored(data, pool, keep, es) matches Ok((got, _)) && got == raw,
{
    let all = crate::prores_frame::frames_of(raw);
    let n = all.len() as int;
    let (outline, d, packed) = lemma_encoded(raw, pool, light, made, data);
    lemma_record(n, packed, d);
    let start = lemma_laid_out(raw, pool, light, made, outline, d, packed);
    let parts = crate::mov_source::parts_of(raw, outline, d);
    let ps = choose|ps: Seq<P>| #[trigger] crate::source_encode::all_asked(raw, all, made, ps, a0, a1);
    let qs = choose|qs: Seq<P>| #[trigger]
        crate::source_decode::all_read(parts, pool, keep, start, es, qs, n, b0, b1);
    lemma_draft_leads(raw, pool, light, all, made, made.len() as int, n);
    assert(made.len() == n);
    let k = es.len() as int;
    lemma_answers(raw, pool, light, keep, made, ps, parts, start, es, qs, k);
    lemma_leaf(raw, pool, light, keep, made, parts, start, es, k);
    assert(k == n);
    let s = crate::source_decode::leaf(parts, pool, keep, start, es, n)->Ok_0;
    lemma_closed(raw, outline, d, s);
    lemma_restored_is(data, pool, keep, es, n, parts, start, s);
}

/// A movie that is written without kept frames names none.
proof fn lemma_unnamed(raw: Seq<u8>, light: bool, all: Seq<Contents>, made: Seq<Sketch>, k: int)
    requires
        0 <= k,
    ensures
        crate::source_encode::draft(raw, Seq::empty(), light, all, made, k) matches Ok(e) ==> e.refs.len() == k
            && forall|i: int| 0 <= i < k ==> #[trigger] e.refs[i] == 0,
    decreases k,
{
    if k > 0 {
        lemma_unnamed(raw, light, all, made, k - 1);
        if let Ok(e) = crate::source_encode::draft(raw, Seq::empty(), light, all, made, k - 1) {
            if let Ok(now) = crate::source_encode::seen(raw, all[k - 1], made[k - 1]) {
                let none = Seq::<u16>::empty();
                assert(crate::source_pool::nearest(
                    Seq::empty(),
                    crate::source_frames::thumbnail(now.picture),
                    now.picture.w,
                    now.picture.h,
                ).len() == 0);
                assert(crate::source_encode::naming(none, 0) =~= seq![0u8]);
            }
        }
    }
}

/// The bytes that name kept frames are found again.
#[verifier::spinoff_prover]
#[verifier::rlimit(60)]
proof fn lemma_names(n: int, packed: Seq<Seq<u8>>, d: Draft)
    requires
        1 <= n <= crate::source_record::MAX_FRAMES,
        d.refs.len() <= 5 * n,
        crate::compression::gives_back(packed[4], d.refs),
        crate::mov_source::record(n, packed, d).len() <= usize::MAX,
    ensures
        crate::source_record::names_in(crate::mov_source::record(n, packed, d)) == Ok::<Seq<u8>, Seq<char>>(
            d.refs,
        ),
{
    lemma_record(n, packed, d);
    let x = sections(packed, d);
    lemma_parts(record_head(n), x, 4);
    assert(x[4] == packed[4]);
    assert(crate::compression::streamed(packed[4], crate::source_record::room(n, 4) + 1) == Ok::<
        Seq<u8>,
        Seq<char>,
    >(d.refs));
}

/// The record of a movie that was written without kept frames names none, so that it gives the movie back
/// beside any.
#[verifier::spinoff_prover]
#[verifier::rlimit(60)]
pub proof fn law_films_alone_name_no_frames(raw: Seq<u8>, light: bool, made: Seq<Sketch>, data: Seq<u8>)
    requires
        crate::mov_source::encoded(raw, Seq::empty(), light, made) == Ok::<Seq<u8>, Seq<char>>(data),
        crate::mov_source::record_comes_back(raw, Seq::empty(), light, made),
        data.len() <= usize::MAX,
    ensures
        crate::source_record::named(data) == Ok::<bool, Seq<char>>(false),
{
    let all = crate::prores_frame::frames_of(raw);
    let n = all.len() as int;
    let (outline, d, packed) = lemma_encoded(raw, Seq::empty(), light, made, data);
    lemma_unnamed(raw, light, all, made, n);
    assert(crate::mov_source::parts_of(raw, outline, d)[4] == d.refs);
    assert(crate::compression::gives_back(packed[4], d.refs));
    lemma_names(n, packed, d);
}

}
