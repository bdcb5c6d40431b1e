//! A lossless code for a sequence of pictures, in bands that are coded apart.

use crate::source_band::{read_band, write_band, Learned, Models};
use crate::source_planes::{Image, Planes, Shift, MAX_SIDE};
use crate::source_rc::{Dec, Enc, Reading, Writing};
use crate::source_search::{make_plan, Decision, MAXREF};
use crate::streams::{bundle, part, STREAMS};
use crate::wire::Outcome;
use vstd::prelude::*;

verus! {

/// How many earlier pictures are kept.
pub const NREF: usize = 2;

/// How many more bytes a picture can make a stream hold back.
pub const GROWTH: u64 = 0x13880000000;

/// What an encoder has come to: the bands, the last pictures, how far the blocks of the last one had
/// moved, and whether it takes less trouble.
#[verifier::ext_equal]
pub struct Coding {
    pub bands: Seq<(Learned, Writing)>,
    pub refs: Seq<Image>,
    pub moves: Seq<Shift>,
    pub light: bool,
}

/// What a decoder has come to.
#[verifier::ext_equal]
pub struct Decoding {
    pub bands: Seq<(Learned, Reading)>,
    pub refs: Seq<Image>,
}

/// The last pictures, or a blank one, where the picture has another shape.
pub open spec fn own_refs(refs: Seq<Image>, w: int, h: int) -> Seq<Image> {
    if refs.len() == 0 || refs[0].w != w || refs[0].h != h {
        seq![Image::blank(w, h)]
    } else {
        refs
    }
}

/// The pictures among the first `n` that have a shape.
pub open spec fn shaped(extra: Seq<Image>, n: int, w: int, h: int) -> Seq<Image>
    decreases n,
{
    if n <= 0 {
        Seq::empty()
    } else if extra[n - 1].w == w && extra[n - 1].h == h {
        shaped(extra, n - 1, w, h).push(extra[n - 1])
    } else {
        shaped(extra, n - 1, w, h)
    }
}

pub open spec fn first<T>(s: Seq<T>, n: int) -> Seq<T> {
    if s.len() <= n {
        s
    } else {
        s.take(n)
    }
}

/// The pictures that a picture is predicted from.
pub open spec fn reference_list(own: Seq<Image>, extra: Seq<Image>, w: int, h: int) -> Seq<Image> {
    first(own + shaped(extra, extra.len() as int, w, h), MAXREF as int)
}

/// How far the blocks of the last picture had moved, as far as it had as many.
pub open spec fn last_moves(moves: Seq<Shift>, blocks: int) -> Seq<Shift> {
    if moves.len() == blocks {
        moves
    } else {
        Seq::new(blocks as nat, |i: int| crate::source_search::still())
    }
}

/// A band after a picture was written to it.
pub open spec fn band_after(
    band: (Learned, Writing),
    cur: Image,
    refs: Seq<Image>,
    plan: Seq<Decision>,
    b: int,
) -> (Learned, Writing) {
    let (bw, bh) = (cur.w / 8, cur.h / 8);
    let (b0, b1) = crate::source_band::rows_of(bh, b);
    let none = crate::source_band::Past::none(cur.w, bw * bh, (b1 - b0) * 8);
    let (m, w, past) = crate::source_band::put_blocks(
        band.0,
        band.1,
        none,
        cur,
        refs,
        plan,
        b0,
        b1,
        b0,
        0,
    );
    (m, w)
}

/// The plan for a picture.
pub open spec fn plan_for(s: Coding, cur: Image, extra: Seq<Image>) -> Seq<Decision> {
    let own = own_refs(s.refs, cur.w, cur.h);
    crate::source_search::plan(
        cur,
        reference_list(own, extra, cur.w, cur.h),
        own.len() as int,
        s.light,
        last_moves(s.moves, (cur.w / 8) * (cur.h / 8)),
        cur.h / 8,
    )
}

/// An encoder after a picture.
pub open spec fn coded(s: Coding, cur: Image, extra: Seq<Image>) -> Coding {
    let own = own_refs(s.refs, cur.w, cur.h);
    let refs = reference_list(own, extra, cur.w, cur.h);
    let plan = plan_for(s, cur, extra);
    Coding {
        bands: Seq::new(s.bands.len(), |b: int| band_after(s.bands[b], cur, refs, plan, b)),
        refs: first(seq![cur] + own, NREF as int),
        moves: Seq::new(plan.len(), |i: int| plan[i].mv),
        light: s.light,
    }
}

/// What the bands from number `b` on make of a picture.
pub open spec fn read_bands(bands: Seq<(Learned, Reading)>, img: Image, refs: Seq<Image>, b: int) -> (
    Seq<(Learned, Reading)>,
    Image,
)
    decreases bands.len() - b,
{
    if !(0 <= b < bands.len()) {
        (bands, img)
    } else {
        let (bw, bh) = (img.w / 8, img.h / 8);
        let (b0, b1) = crate::source_band::rows_of(bh, b);
        let none = crate::source_band::Past::none(img.w, bw * bh, (b1 - b0) * 8);
        let (m, r, past, next) = crate::source_band::get_blocks(
            bands[b].0,
            bands[b].1,
            none,
            img,
            refs,
            bw,
            b0,
            b1,
            b0,
            0,
        );
        read_bands(bands.update(b, (m, r)), next, refs, b + 1)
    }
}

/// A picture, and a decoder after it.
pub open spec fn decoded(s: Decoding, w: int, h: int, extra: Seq<Image>) -> (Image, Decoding) {
    let own = own_refs(s.refs, w, h);
    let refs = reference_list(own, extra, w, h);
    let (bands, cur) = read_bands(s.bands, Image::blank(w, h), refs, 0);
    (cur, Decoding { bands, refs: first(seq![cur] + own, NREF as int) })
}

/// The rows of blocks of a band.
pub fn band_rows(bh: usize, b: usize) -> (r: (usize, usize))
    requires
        bh <= MAX_SIDE,
        b < STREAMS,
    ensures
        (r.0 as int, r.1 as int) == crate::source_band::rows_of(bh as int, b as int),
        r.0 <= r.1 <= bh,
{
    assert(0 <= b * bh && (b + 1) * bh <= 8 * bh && b * bh <= (b + 1) * bh) by (nonlinear_arith)
        requires
            0 <= b < 8,
            0 <= bh,
    ;
    (b * bh / 8, (b + 1) * bh / 8)
}

/// A band that is written.
pub struct Band {
    pub models: Models,
    pub enc: Enc,
}

impl View for Band {
    type V = (Learned, Writing);

    open spec fn view(&self) -> (Learned, Writing) {
        (self.models@, self.enc@)
    }
}

/// A band that is read.
pub struct ReadBand<'a> {
    pub models: Models,
    pub dec: Dec<'a>,
}

impl<'a> View for ReadBand<'a> {
    type V = (Learned, Reading);

    open spec fn view(&self) -> (Learned, Reading) {
        (self.models@, self.dec@)
    }
}

/// The pictures that a vector holds.
pub open spec fn pictures(v: Seq<Planes>) -> Seq<Image> {
    Seq::new(v.len(), |i: int| v[i]@)
}

/// Pictures that fit together: none, or all of one shape.
pub open spec fn alike(refs: Seq<Planes>) -> bool {
    &&& refs.len() <= NREF
    &&& forall|i: int|
        0 <= i < refs.len() ==> (#[trigger] refs[i]).wf() && refs[i]@.w == refs[0]@.w && refs[i]@.h
            == refs[0]@.h
}

fn list_refs<'a>(own: &'a Vec<Planes>, extra: &[&'a Planes], w: usize, h: usize) -> (list: Vec<
    &'a Planes,
>)
    requires
        1 <= own@.len() <= NREF,
        alike(own@),
        own@[0]@.w == w,
        own@[0]@.h == h,
        forall|i: int| 0 <= i < extra@.len() ==> (#[trigger] extra@[i]).wf(),
    ensures
        crate::source_search::images(list@) == reference_list(
            pictures(own@),
            crate::source_search::images(extra@),
            w as int,
            h as int,
        ),
        1 <= list@.len() <= MAXREF,
        forall|i: int|
            0 <= i < list@.len() ==> (#[trigger] list@[i]).wf() && list@[i]@.w == w && list@[i]@.h == h,
{
    let ghost all = crate::source_search::images(extra@);
    let ghost mine = pictures(own@);
    let mut list: Vec<&'a Planes> = Vec::new();
    let mut i: usize = 0;
    assert(crate::source_search::images(list@) =~= mine.take(0));
    while i < own.len()
        invariant
            i <= own.len(),
            list@.len() == i,
            mine == pictures(own@),
            crate::source_search::images(list@) == mine.take(i as int),
            alike(own@),
            own@[0]@.w == w,
            own@[0]@.h == h,
            forall|k: int|
                0 <= k < list@.len() ==> (#[trigger] list@[k]).wf() && list@[k]@.w == w && list@[k]@.h
                    == h,
        decreases own.len() - i,
    {
        list.push(&own[i]);
        i += 1;
        assert(crate::source_search::images(list@) =~= mine.take(i as int));
    }
    assert(mine.take(i as int) =~= mine);
    let mut j: usize = 0;
    assert(mine + shaped(all, 0, w as int, h as int) =~= mine);
    while j < extra.len()
        invariant
            j <= extra.len(),
            all == crate::source_search::images(extra@),
            list@.len() >= 1,
            crate::source_search::images(list@) == mine + shaped(all, j as int, w as int, h as int),
            forall|i: int| 0 <= i < extra@.len() ==> (#[trigger] extra@[i]).wf(),
            forall|k: int|
                0 <= k < list@.len() ==> (#[trigger] list@[k]).wf() && list@[k]@.w == w && list@[k]@.h
                    == h,
        decreases extra.len() - j,
    {
        proof {
            extra@[j as int].lemma_shape();
        }
        if extra[j].w == w && extra[j].h == h {
            let ghost before = crate::source_search::images(list@);
            list.push(extra[j]);
            assert(crate::source_search::images(list@) =~= before.push(all[j as int]));
        }
        j += 1;
        assert(crate::source_search::images(list@) =~= mine + shaped(
            all,
            j as int,
            w as int,
            h as int,
        ));
    }
    let ghost full = crate::source_search::images(list@);
    list.truncate(MAXREF);
    assert(crate::source_search::images(list@) =~= first(full, MAXREF as int));
    list
}

/// Takes the last pictures, or a blank one where the picture has another shape.
fn take_own(refs: &mut Vec<Planes>, w: usize, h: usize) -> (own: Vec<Planes>)
    requires
        alike(old(refs)@),
        4 * (h * w) <= usize::MAX,
    ensures
        pictures(own@) == own_refs(pictures(old(refs)@), w as int, h as int),
        alike(own@),
        1 <= own@.len(),
        own@[0]@.w == w,
        own@[0]@.h == h,
        final(refs)@.len() == 0,
{
    let mut own: Vec<Planes> = Vec::new();
    std::mem::swap(&mut own, refs);
    proof {
        if own@.len() > 0 {
            own@[0].lemma_shape();
            assert(pictures(own@)[0] == own@[0]@);
        }
    }
    if own.len() == 0 || own[0].w != w || own[0].h != h {
        let blank = Planes::new(w, h);
        own = Vec::new();
        own.push(blank);
        assert(pictures(own@) =~= seq![Image::blank(w as int, h as int)]);
    }
    own
}

/// Puts a picture before the last ones.
fn keep(cur: Planes, own: Vec<Planes>) -> (refs: Vec<Planes>)
    requires
        cur.wf(),
        alike(own@),
        1 <= own@.len(),
        own@[0]@.w == cur@.w,
        own@[0]@.h == cur@.h,
    ensures
        pictures(refs@) == first(seq![cur@] + pictures(own@), NREF as int),
        alike(refs@),
{
    let mut own = own;
    let ghost before = pictures(own@);
    let mut refs: Vec<Planes> = Vec::new();
    refs.push(cur);
    own.truncate(1);
    refs.append(&mut own);
    assert(pictures(refs@) =~= first(seq![cur@] + before, NREF as int));
    refs
}

/// An encoder of pictures.
pub struct Encoder {
    pub bands: Vec<Band>,
    pub refs: Vec<Planes>,
    pub moves: Vec<Shift>,
    pub light: bool,
}

impl View for Encoder {
    type V = Coding;

    open spec fn view(&self) -> Coding {
        Coding {
            bands: Seq::new(self.bands@.len(), |b: int| self.bands@[b]@),
            refs: pictures(self.refs@),
            moves: self.moves@,
            light: self.light,
        }
    }
}

/// An encoder that has seen nothing.
pub open spec fn started(light: bool) -> Coding {
    Coding {
        bands: Seq::new(STREAMS as nat, |b: int| (Learned::fresh(), Writing::start())),
        refs: Seq::empty(),
        moves: Seq::empty(),
        light,
    }
}

fn write_in(band: &mut Band, cur: &Planes, refs: &Vec<&Planes>, plan: &Vec<Decision>, b: usize)
    requires
        old(band).models.wf(),
        old(band).enc@.wf(),
        old(band).enc.cache_size <= 0x3000_0000_0000_0000,
        crate::source_band::ready(cur, refs@),
        crate::source_band::planned(plan@, (cur.w / 8) * (cur.h / 8), refs@.len() as int),
        b < STREAMS,
    ensures
        final(band).models.wf(),
        final(band).enc@.wf(),
        final(band).enc.cache_size <= old(band).enc.cache_size + GROWTH,
        final(band)@ == band_after(
            old(band)@,
            cur@,
            crate::source_search::images(refs@),
            plan@,
            b as int,
        ),
{
    proof {
        cur.lemma_shape();
        assert(crate::source_search::matched(cur, refs@[0]));
    }
    let (b0, b1) = band_rows(cur.h / 8, b);
    write_band(&mut band.models, &mut band.enc, cur, refs, plan, b0, b1);
}

fn moves_of(plan: &Vec<Decision>) -> (moves: Vec<Shift>)
    ensures
        moves@ == Seq::new(plan@.len(), |i: int| plan@[i].mv),
{
    let mut moves: Vec<Shift> = Vec::with_capacity(plan.len());
    let mut i: usize = 0;
    while i < plan.len()
        invariant
            i <= plan.len(),
            moves@.len() == i,
            forall|k: int| 0 <= k < i ==> #[trigger] moves@[k] == plan@[k].mv,
        decreases plan.len() - i,
    {
        moves.push(plan[i].mv);
        i += 1;
    }
    assert(moves@ =~= Seq::new(plan@.len(), |i: int| plan@[i].mv));
    moves
}

pub proof fn lemma_planned(cur: Image, refs: Seq<Image>, own: int, light: bool, prev: Seq<Shift>)
    requires
        1 <= refs.len() <= MAXREF,
        crate::source_search::all_below(prev),
        0 <= cur.w,
        0 <= cur.h,
        prev.len() == (cur.w / 8) * (cur.h / 8),
    ensures
        crate::source_band::planned(
            crate::source_search::plan(cur, refs, own, light, prev, cur.h / 8),
            (cur.w / 8) * (cur.h / 8),
            refs.len() as int,
        ),
{
    let (bw, bh) = (cur.w / 8, cur.h / 8);
    assert(bw * bh == bh * bw) by (nonlinear_arith);
    crate::source_search::law_plans_fit(cur, refs, own, light, prev, bh);
    let p = crate::source_search::plan(cur, refs, own, light, prev, bh);
    assert forall|i: int| 0 <= i < bw * bh implies (#[trigger] p[i]).mode < 4 && p[i].ri < refs.len()
        && p[i].mv.below(crate::source_search::REACH as int) by {
        let (by, bx) = (i / bw, i % bw);
        assert(bw > 0) by (nonlinear_arith)
            requires
                0 <= i < bw * bh,
                bw >= 0,
        ;
        vstd::arithmetic::div_mod::lemma_fundamental_div_mod(i, bw);
        assert(0 <= by < bh && 0 <= bx < bw && by * bw + bx == i) by (nonlinear_arith)
            requires
                0 <= i < bw * bh,
                bw > 0,
                by == i / bw,
                bx == i % bw,
                i == bw * (i / bw) + i % bw,
        ;
        assert(crate::source_search::fitting(
            cur,
            refs,
            crate::source_search::entry(p, bw, by, bx),
            by,
            bx,
        ));
    }
}

impl Encoder {
    pub open spec fn wf(&self) -> bool {
        &&& self.bands@.len() == STREAMS
        &&& forall|b: int|
            0 <= b < STREAMS ==> (#[trigger] self.bands@[b]).models.wf() && self.bands@[b].enc@.wf()
        &&& alike(self.refs@)
        &&& crate::source_search::all_below(self.moves@)
    }

    /// Whether no stream holds back more than `n` bytes.
    pub open spec fn holds(&self, n: int) -> bool {
        forall|b: int| 0 <= b < self.bands@.len() ==> (#[trigger] self.bands@[b]).enc.cache_size <= n
    }

    /// An encoder that has seen nothing.
    pub fn new(light: bool) -> (e: Self)
        ensures
            e.wf(),
            e.holds(1),
            e@ == started(light),
    {
        let mut bands: Vec<Band> = Vec::new();
        let mut b: usize = 0;
        while b < STREAMS
            invariant
                b <= STREAMS,
                bands@.len() == b,
                forall|k: int|
                    0 <= k < b ==> (#[trigger] bands@[k]).models.wf() && bands@[k].enc@.wf()
                        && bands@[k].enc.cache_size <= 1 && bands@[k]@ == (
                        Learned::fresh(),
                        Writing::start(),
                    ),
            decreases STREAMS - b,
        {
            bands.push(Band { models: Models::new(), enc: Enc::new() });
            b += 1;
        }
        let e = Encoder { bands, refs: Vec::new(), moves: Vec::new(), light };
        assert(e@ =~= started(light));
        e
    }

    /// Writes a picture, which may be predicted from others that the decoder has too.
    pub fn frame_extra(&mut self, cur: &Planes, extra: &[&Planes])
        requires
            old(self).wf(),
            old(self).holds(0x3000_0000_0000_0000),
            cur.wf(),
            8 <= cur@.w <= MAX_SIDE,
            8 <= cur@.h <= MAX_SIDE,
            cur@.w % 8 == 0,
            cur@.h % 8 == 0,
            forall|i: int| 0 <= i < extra@.len() ==> (#[trigger] extra@[i]).wf(),
        ensures
            final(self).wf(),
            forall|n: int| #[trigger] old(self).holds(n) ==> final(self).holds(n + GROWTH),
            final(self)@ == coded(old(self)@, cur@, crate::source_search::images(extra@)),
    {
        proof {
            cur.lemma_shape();
            cur.lemma_room();
        }
        let ghost (start, bands0) = (*self, self.bands@);
        let (w, h) = (cur.w, cur.h);
        let (bw, bh) = (w / 8, h / 8);
        let own = take_own(&mut self.refs, w, h);
        let list = list_refs(&own, extra, w, h);
        let ghost refs = crate::source_search::images(list@);
        proof {
            assert(0 <= bw * bh <= h * w) by (nonlinear_arith)
                requires
                    0 <= bw <= w,
                    0 <= bh <= h,
            ;
            assert forall|i: int| 0 <= i < list@.len() implies crate::source_search::matched(
                cur,
                #[trigger] list@[i],
            ) by {
                list@[i].lemma_shape();
            }
        }
        let mut prev: Vec<Shift> = Vec::new();
        std::mem::swap(&mut prev, &mut self.moves);
        if prev.len() != bw * bh {
            prev = vec![Shift { dy: 0, dx: 0 }; bw * bh];
        }
        assert(prev@ =~= last_moves(start@.moves, (cur@.w / 8) * (cur@.h / 8)));
        let light: bool = self.light;
        let plan = make_plan(cur, &list, own.len(), light, &prev);
        proof {
            lemma_planned(cur@, refs, own@.len() as int, light, prev@);
            assert(plan@ == plan_for(start@, cur@, crate::source_search::images(extra@)));
        }
        let mut b: usize = 0;
        while b < STREAMS
            invariant
                b <= STREAMS,
                self.bands@.len() == STREAMS,
                bands0.len() == STREAMS,
                self.light == light,
                self.refs@.len() == 0,
                refs == crate::source_search::images(list@),
                crate::source_band::ready(cur, list@),
                crate::source_band::planned(
                    plan@,
                    (cur.w / 8) * (cur.h / 8),
                    list@.len() as int,
                ),
                forall|k: int|
                    0 <= k < STREAMS ==> (#[trigger] self.bands@[k]).models.wf()
                        && self.bands@[k].enc@.wf(),
                forall|k: int|
                    b <= k < STREAMS ==> (#[trigger] self.bands@[k]) == bands0[k]
                        && self.bands@[k].enc.cache_size <= 0x3000_0000_0000_0000,
                forall|k: int|
                    0 <= k < b ==> (#[trigger] self.bands@[k])@ == band_after(
                        bands0[k]@,
                        cur@,
                        refs,
                        plan@,
                        k,
                    ) && self.bands@[k].enc.cache_size <= bands0[k].enc.cache_size + GROWTH,
            decreases STREAMS - b,
        {
            write_in(&mut self.bands[b], cur, &list, &plan, b);
            b += 1;
        }
        self.moves = moves_of(&plan);
        self.refs = keep(cur.clone(), own);
        proof {
            let then = coded(start@, cur@, crate::source_search::images(extra@));
            assert(self@.bands =~= then.bands);
            assert(self@.moves =~= then.moves);
            assert(self@ == then);
            assert forall|n: int| #[trigger] start.holds(n) implies self.holds(n + GROWTH) by {
                assert forall|k: int| 0 <= k < STREAMS implies (#[trigger] self.bands@[k]).enc.cache_size
                    <= n + GROWTH by {
                    assert(bands0[k].enc.cache_size <= n);
                }
            }
        }
    }

    /// Ends the streams and puts them together.
    pub fn finish(self) -> (out: Vec<u8>)
        requires
            self.wf(),
            self.holds(0x7000_0000_0000_0000),
        ensures
            out@ == finished(self@),
    {
        let ghost all = self@;
        let Encoder { bands, refs: _, moves: _, light: _ } = self;
        let mut left = bands;
        let mut parts: Vec<Vec<u8>> = Vec::new();
        let ghost whole = left@;
        while left.len() > 0
            invariant
                left@.len() + parts@.len() == STREAMS,
                whole.len() == STREAMS,
                left@ == whole.skip(parts@.len() as int),
                forall|b: int|
                    0 <= b < STREAMS ==> (#[trigger] whole[b]).enc@.wf() && whole[b].enc.cache_size
                        <= 0x7000_0000_0000_0000,
                forall|k: int|
                    0 <= k < parts@.len() ==> (#[trigger] parts@[k])@ == whole[k].enc@.finish(),
            decreases left.len(),
        {
            let band = left.remove(0);
            assert(band == whole[parts@.len() as int]);
            parts.push(band.enc.finish());
            assert(left@ =~= whole.skip(parts@.len() as int));
        }
        assert(crate::prores_bits::each(parts@) =~= Seq::new(
            all.bands.len(),
            |b: int| all.bands[b].1.finish(),
        ));
        bundle(&parts)
    }
}

/// The streams of an encoder, put together.
pub open spec fn finished(s: Coding) -> Seq<u8> {
    crate::streams::bundled(Seq::new(s.bands.len(), |b: int| s.bands[b].1.finish()))
}

/// A decoder of pictures.
pub struct Decoder<'a> {
    pub bands: Vec<ReadBand<'a>>,
    pub refs: Vec<Planes>,
}

impl<'a> View for Decoder<'a> {
    type V = Decoding;

    open spec fn view(&self) -> Decoding {
        Decoding {
            bands: Seq::new(self.bands@.len(), |b: int| self.bands@[b]@),
            refs: pictures(self.refs@),
        }
    }
}

/// A decoder at the start of its streams.
pub open spec fn opened(streams: Seq<Seq<u8>>) -> Decoding {
    Decoding {
        bands: Seq::new(streams.len(), |b: int| (Learned::fresh(), Reading::start(streams[b]))),
        refs: Seq::empty(),
    }
}

/// A decoder at the start of what an encoder has written.
pub open spec fn open_stream(data: Seq<u8>) -> Outcome<Decoding> {
    match crate::streams::parted(data, "truncated source stream"@, "invalid source stream"@) {
        Err(e) => Err(e),
        Ok(streams) => Ok(opened(streams)),
    }
}

fn read_in(band: &mut ReadBand<'_>, img: &mut Planes, refs: &Vec<&Planes>, b: usize)
    requires
        old(band).models.wf(),
        old(band).dec@.wf(),
        crate::source_band::ready(old(img), refs@),
        b < STREAMS,
    ensures
        final(band).models.wf(),
        final(band).dec@.wf(),
        final(band).dec.data == old(band).dec.data,
        final(img).wf(),
        final(img)@.w == old(img)@.w,
        final(img)@.h == old(img)@.h,
        ({
            let (w, h) = (old(img)@.w, old(img)@.h);
            let (b0, b1) = crate::source_band::rows_of(h / 8, b as int);
            let none = crate::source_band::Past::none(w, (w / 8) * (h / 8), (b1 - b0) * 8);
            let then = crate::source_band::get_blocks(
                old(band)@.0,
                old(band)@.1,
                none,
                old(img)@,
                crate::source_search::images(refs@),
                w / 8,
                b0,
                b1,
                b0,
                0,
            );
            final(band)@ == (then.0, then.1) && final(img)@ == then.3
        }),
{
    proof {
        img.lemma_shape();
        assert(crate::source_search::matched(img, refs@[0]));
    }
    let (b0, b1) = band_rows(img.h / 8, b);
    read_band(&mut band.models, &mut band.dec, img, refs, b0, b1);
}

impl<'a> Decoder<'a> {
    pub open spec fn wf(&self) -> bool {
        &&& self.bands@.len() == STREAMS
        &&& forall|b: int|
            0 <= b < STREAMS ==> (#[trigger] self.bands@[b]).models.wf() && self.bands@[b].dec@.wf()
        &&& alike(self.refs@)
    }

    /// A decoder of what an encoder has written.
    pub fn new(data: &'a [u8]) -> (r: Result<Self, String>)
        ensures
            match r {
                Ok(d) => d.wf() && open_stream(data@) == Ok::<Decoding, Seq<char>>(d@),
                Err(e) => open_stream(data@) == Err::<Decoding, Seq<char>>(e@),
            },
    {
        let parts = part(data, "truncated source stream", "invalid source stream")?;
        let ghost streams = crate::streams::contents(parts@);
        let mut bands: Vec<ReadBand<'a>> = Vec::new();
        let mut b: usize = 0;
        while b < STREAMS
            invariant
                b <= STREAMS,
                parts@.len() == STREAMS,
                streams == crate::streams::contents(parts@),
                bands@.len() == b,
                forall|k: int|
                    0 <= k < b ==> (#[trigger] bands@[k]).models.wf() && bands@[k].dec@.wf()
                        && bands@[k]@ == (Learned::fresh(), Reading::start(streams[k])),
            decreases STREAMS - b,
        {
            assert(parts@[b as int]@ == streams[b as int]);
            bands.push(ReadBand { models: Models::new(), dec: Dec::new(parts[b]) });
            b += 1;
        }
        let d = Decoder { bands, refs: Vec::new() };
        assert(d@ =~= opened(streams));
        Ok(d)
    }

    /// Reads a picture of a given shape, which may be predicted from others.
    pub fn frame_extra(&mut self, w: usize, h: usize, extra: &[&Planes]) -> (cur: Planes)
        requires
            old(self).wf(),
            8 <= w <= MAX_SIDE,
            8 <= h <= MAX_SIDE,
            w % 8 == 0,
            h % 8 == 0,
            4 * (h * w) <= usize::MAX,
            forall|i: int| 0 <= i < extra@.len() ==> (#[trigger] extra@[i]).wf(),
        ensures
            final(self).wf(),
            cur.wf(),
            cur@.w == w,
            cur@.h == h,
            (cur@, final(self)@) == decoded(
                old(self)@,
                w as int,
                h as int,
                crate::source_search::images(extra@),
            ),
    {
        let ghost start = self@;
        let own = take_own(&mut self.refs, w, h);
        let list = list_refs(&own, extra, w, h);
        let ghost refs = crate::source_search::images(list@);
        let mut cur = Planes::new(w, h);
        let ghost whole = read_bands(start.bands, cur@, refs, 0);
        proof {
            cur.lemma_shape();
            assert forall|i: int| 0 <= i < list@.len() implies crate::source_search::matched(
                &cur,
                #[trigger] list@[i],
            ) by {
                list@[i].lemma_shape();
            }
            assert(self@.bands =~= start.bands);
        }
        let mut b: usize = 0;
        while b < STREAMS
            invariant
                b <= STREAMS,
                self.bands@.len() == STREAMS,
                self.refs@.len() == 0,
                refs == crate::source_search::images(list@),
                crate::source_band::ready(&cur, list@),
                cur.wf(),
                cur@.w == w,
                cur@.h == h,
                forall|k: int|
                    0 <= k < STREAMS ==> (#[trigger] self.bands@[k]).models.wf()
                        && self.bands@[k].dec@.wf(),
                whole == read_bands(self@.bands, cur@, refs, b as int),
            decreases STREAMS - b,
        {
            let ghost (then, before) = (self@.bands, cur);
            read_in(&mut self.bands[b], &mut cur, &list, b);
            proof {
                before.lemma_shape();
                cur.lemma_shape();
                assert forall|i: int| 0 <= i < list@.len() implies crate::source_search::matched(
                    &cur,
                    #[trigger] list@[i],
                ) by {
                    assert(crate::source_search::matched(&before, list@[i]));
                }
                assert(self@.bands =~= then.update(b as int, self.bands@[b as int]@));
            }
            b += 1;
        }
        self.refs = keep(cur.clone(), own);
        proof {
            let then = decoded(start, w as int, h as int, crate::source_search::images(extra@));
            assert(self@ =~= then.1);
        }
        cur
    }
}

}
