//! Movies as records of pictures and errors: the writing side.

use crate::prores_bits::decode as decode_frame;
use crate::prores_frame::{Contents, Frame};
use crate::source_codec::{Coding, Encoder};
use crate::source_frames::{
    compose, find_errors, novel_matches, thumb, Expectation, Expected, Painter, Seen, Sight,
 take_values};
use crate::source_planes::{Image, Planes};
use crate::source_pool::{nearest_refs, Kept, Pool};
use crate::source_rc::{Enc, Writing};
use crate::source_record::MAX_FRAMES;
use crate::source_residual::{write_band, Band, Lore, ResidualModels, SWELL};
use crate::streams::STREAMS;
use crate::wire::{put_le, Outcome};
use vstd::prelude::*;

verus! {

/// What a painter makes of a frame.
pub struct Sketch {
    pub colours: Seq<u8>,
    pub expected: Expectation,
}

/// The width of the picture of a frame.
pub open spec fn width_of(fr: Contents) -> int {
    crate::prores_frame::sixteenths(fr.width) * 16
}

/// The height of the picture of a frame.
pub open spec fn height_of(fr: Contents) -> int {
    crate::prores_frame::sixteenths(fr.height) * 16
}

/// What is known of a frame of a movie, where `k` is what a painter makes of it.
pub open spec fn seen(raw: Seq<u8>, fr: Contents, k: Sketch) -> Outcome<Sight> {
    match crate::prores_bits::decoded(raw, fr) {
        Err(e) => Err(e),
        Ok(d) => {
            let n = width_of(fr) * height_of(fr);
            Ok(
                Sight {
                    picture: crate::source_planes::image_of(
                        width_of(fr),
                        height_of(fr),
                        crate::source_frames::shown(
                            d.alpha,
                            crate::source_frames::cut_to(k.colours, 3 * n, 0u8),
                        ),
                    ),
                    resid: crate::source_frames::errors(
                        crate::source_frames::coefficients(d),
                        k.expected.fitted(n).levels,
                    ),
                    qmb: d.qmb,
                },
            )
        },
    }
}

/// Whether a painter was asked for the colours of a frame, and for what its picture lets expect, answered as
/// `k` says, and is then as `after` is.
pub open spec fn frame_asked<P: Painter>(raw: Seq<u8>, fr: Contents, k: Sketch, before: P, after: P) -> bool {
    match crate::prores_bits::decoded(raw, fr) {
        Err(_) => before == after,
        Ok(d) => exists|mid: P| #[trigger]
            before.paints(d, fr, k.colours, &mid) && mid.expects(
                seen(raw, fr, k)->Ok_0.picture,
                fr,
                d.qmb,
                k.expected,
                &after,
            ),
    }
}

/// Whether a painter was asked about frame number `i`.
pub open spec fn asked_at<P: Painter>(
    raw: Seq<u8>,
    all: Seq<Contents>,
    made: Seq<Sketch>,
    ps: Seq<P>,
    i: int,
) -> bool {
    frame_asked(raw, all[i], made[i], ps[i], ps[i + 1])
}

/// Whether a painter was asked about the first frames of a movie, one after the other, and was as `ps` says
/// before, between and after.
pub open spec fn all_asked<P: Painter>(
    raw: Seq<u8>,
    all: Seq<Contents>,
    made: Seq<Sketch>,
    ps: Seq<P>,
    before: P,
    after: P,
) -> bool {
    &&& made.len() <= all.len()
    &&& ps.len() == made.len() + 1
    &&& ps[0] == before
    &&& ps.last() == after
    &&& forall|i: int| 0 <= i < made.len() ==> #[trigger] asked_at(raw, all, made, ps, i)
}

pub proof fn lemma_asked_more<P: Painter>(
    raw: Seq<u8>,
    all: Seq<Contents>,
    made: Seq<Sketch>,
    ps: Seq<P>,
    before: P,
    mid: P,
    k: Sketch,
    after: P,
)
    requires
        all_asked(raw, all, made, ps, before, mid),
        made.len() < all.len(),
        frame_asked(raw, all[made.len() as int], k, mid, after),
    ensures
        all_asked(raw, all, made.push(k), ps.push(after), before, after),
{
    let (m, q) = (made.push(k), ps.push(after));
    assert forall|i: int| 0 <= i < m.len() implies #[trigger] asked_at(raw, all, m, q, i) by {
        if i < made.len() {
            assert(asked_at(raw, all, made, ps, i));
            assert(m[i] == made[i] && q[i] == ps[i] && q[i + 1] == ps[i + 1]);
        } else {
            assert(q[i] == ps.last());
        }
    }
}

/// Steady painters make the same of the frames of a movie.
pub proof fn lemma_same_sketches<P: Painter>(
    raw: Seq<u8>,
    all: Seq<Contents>,
    a: Seq<Sketch>,
    b: Seq<Sketch>,
    ps: Seq<P>,
    qs: Seq<P>,
    i: int,
)
    requires
        crate::source_frames::steady::<P>(),
        asked_at(raw, all, a, ps, i),
        asked_at(raw, all, b, qs, i),
    ensures
        crate::prores_bits::decoded(raw, all[i]) is Ok ==> a[i] == b[i],
        seen(raw, all[i], a[i]) == seen(raw, all[i], b[i]),
{
    if let Ok(d) = crate::prores_bits::decoded(raw, all[i]) {
        let fr = all[i];
        reveal(crate::source_frames::steady);
        let m = choose|mid: P| #[trigger]
            ps[i].paints(d, fr, a[i].colours, &mid) && mid.expects(
                seen(raw, fr, a[i])->Ok_0.picture,
                fr,
                d.qmb,
                a[i].expected,
                &ps[i + 1],
            );
        let n = choose|mid: P| #[trigger]
            qs[i].paints(d, fr, b[i].colours, &mid) && mid.expects(
                seen(raw, fr, b[i])->Ok_0.picture,
                fr,
                d.qmb,
                b[i].expected,
                &qs[i + 1],
            );
        assert(crate::source_frames::paints_alike(ps[i], qs[i], d, fr, a[i].colours, b[i].colours, m, n));
        assert(crate::source_frames::expects_alike(
            m,
            n,
            seen(raw, fr, a[i])->Ok_0.picture,
            fr,
            fr,
            d.qmb,
            a[i].expected,
            b[i].expected,
            ps[i + 1],
            qs[i + 1],
        ));
    }
}

/// Finds what is known of a frame of a movie.
pub(crate) fn analyse<P: Painter>(raw: &[u8], fr: &Frame, painter: &mut P) -> (r: Result<
    (Seen, Expected),
    String,
>)
    requires
        fr@.wf(),
    ensures
        exists|k: Sketch|
            analysed(raw@, fr@, r, k) && #[trigger] frame_asked(raw@, fr@, k, *old(painter), *final(painter)),
        r matches Ok((s, e)) ==> s.wf() && e@.fits(s@.picture.w * s@.picture.h),
{
    let ghost none = Sketch {
        colours: Seq::empty(),
        expected: Expectation {
            levels: Seq::empty(),
            strength: Seq::empty(),
            negative: Seq::empty(),
        },
    };
    let got = decode_frame(raw, fr);
    proof {
        if got is Err {
            assert(frame_asked(raw@, fr@, none, *painter, *painter));
        }
    }
    let d = got?;
    let (w, h) = (d.wp, d.hp);
    assert(0 <= w * h <= 8192 * 8192 && w * h >= 1) by (nonlinear_arith)
        requires
            16 <= w <= 8192,
            16 <= h <= 8192,
    ;
    let n: usize = w * h;
    let ghost first = *painter;
    let painted = painter.paint(&d, fr);
    let ghost (said, mid) = (painted@, *painter);
    let colours = take_values(painted, 3 * n);
    let picture = compose(w, h, &d.alpha, &colours);
    let mut e = painter.expect(&picture, fr, &d.qmb);
    let ghost k = Sketch { colours: said, expected: e@ };
    e.fit(n);
    let resid = find_errors(&d, &e);
    let s = Seen { picture, resid, qmb: d.qmb };
    proof {
        assert(seen(raw@, fr@, k) == Ok::<Sight, Seq<char>>(s@));
        assert(first.paints(d@, fr@, k.colours, &mid));
        assert(frame_asked(raw@, fr@, k, first, *painter));
    }
    Ok((s, e))
}

/// Whether this came of finding what is known of a frame, where `k` is what a painter makes of it.
pub open spec fn analysed(raw: Seq<u8>, fr: Contents, r: Result<(Seen, Expected), String>, k: Sketch) -> bool {
    match r {
        Ok((s, e)) => seen(raw, fr, k) == Ok::<Sight, Seq<char>>(s@) && e@ == k.expected.fitted(
            width_of(fr) * height_of(fr),
        ),
        Err(x) => seen(raw, fr, k) == Err::<Sight, Seq<char>>(x@),
    }
}

/// The picture before, if it has the shape of the picture.
pub open spec fn before(picture: Image, prev: Option<Sight>) -> Option<Image> {
    match prev {
        Some(p) => if crate::source_frames::same_shape(p.picture, picture) {
            Some(p.picture)
        } else {
            None
        },
        None => None,
    }
}

/// Whether a kept frame shows enough that the frame before does not.
pub open spec fn worthwhile(picture: Image, other: Image, prev: Option<Sight>) -> bool {
    let blocks = (picture.w / 8) * (picture.h / 8);
    crate::source_frames::same_shape(other, picture) && crate::source_frames::novel(
        picture,
        other,
        before(picture, prev),
        blocks,
    ) * 1000 >= blocks
}

/// The kept frames that a frame is compared with.
pub open spec fn chosen(pool: Seq<Kept>, picture: Image, prev: Option<Sight>) -> Outcome<
    (Seq<u16>, Seq<Sight>),
> {
    let refs = crate::source_pool::nearest(
        pool,
        crate::source_frames::thumbnail(picture),
        picture.w,
        picture.h,
    );
    if refs.len() == 0 {
        Ok((Seq::empty(), Seq::empty()))
    } else {
        match crate::source_pool::loaded(pool[refs[0] as int]) {
            Err(e) => Err(e),
            Ok(first) => if !worthwhile(picture, first.picture, prev) {
                Ok((Seq::empty(), Seq::empty()))
            } else if refs.len() == 1 {
                Ok((refs, seq![first]))
            } else {
                match crate::source_pool::loaded(pool[refs[1] as int]) {
                    Err(e) => Err(e),
                    Ok(second) => Ok((refs, seq![first, second])),
                }
            },
        }
    }
}

pub open spec fn sight_of(s: Option<Seen>) -> Option<Sight> {
    match s {
        Some(s) => Some(s@),
        None => None,
    }
}

pub open spec fn all_sights(v: Seq<Seen>) -> Seq<Sight> {
    Seq::new(v.len(), |i: int| v[i]@)
}

pub open spec fn all_whole(v: Seq<Seen>) -> bool {
    forall|i: int| 0 <= i < v.len() ==> (#[trigger] v[i]).wf()
}

pub open spec fn chosen_outcome(r: Result<(Vec<u16>, Vec<Seen>), String>) -> Outcome<
    (Seq<u16>, Seq<Sight>),
> {
    match r {
        Ok((refs, loaded)) => Ok((refs@, all_sights(loaded@))),
        Err(e) => Err(e@),
    }
}

/// Chooses the kept frames that a frame is compared with.
fn choose_refs(pool: &Pool, picture: &Planes, prev: &Option<Seen>) -> (r: Result<(Vec<u16>, Vec<Seen>), String>)
    requires
        pool.wf(),
        picture.wf(),
        crate::source_frames::shaped(picture@),
        prev matches Some(p) ==> p.wf(),
    ensures
        chosen_outcome(r) == chosen(pool@, picture@, sight_of(*prev)),
        r matches Ok((refs, loaded)) ==> all_whole(loaded@) && loaded@.len() <= 2 && refs@.len() <= 2,
{
    proof {
        picture.lemma_shape();
    }
    let (w, h) = (picture.w, picture.h);
    let t = thumb(picture);
    let refs = nearest_refs(&t, w, h, pool);
    if refs.len() == 0 {
        let none: Vec<u16> = Vec::new();
        let empty: Vec<Seen> = Vec::new();
        assert(none@ =~= Seq::empty());
        assert(all_sights(empty@) =~= Seq::empty());
        return Ok((none, empty));
    }
    let f = &pool.frames[refs[0] as usize];
    assert(pool.frames@[refs@[0] as int].wf());
    assert(f@ == pool@[refs@[0] as int]);
    let got = f.load();
    let first = got?;
    proof {
        first.picture.lemma_shape();
    }
    let mut good = false;
    if first.picture.w == w && first.picture.h == h {
        let known: Option<&Planes> = match prev {
            Some(p) => {
                proof {
                    p.picture.lemma_shape();
                }
                if p.picture.w == w && p.picture.h == h {
                    Some(&p.picture)
                } else {
                    None
                }
            },
            None => None,
        };
        let n = novel_matches(picture, &first.picture, known);
        assert(0 <= (w as int / 8) * (h as int / 8) <= 1024 * 1024) by (nonlinear_arith)
            requires
                0 <= w as int / 8 <= 1024,
                0 <= h as int / 8 <= 1024,
        ;
        good = n * 1000 >= (w / 8) * (h / 8);
    }
    if !good {
        let none: Vec<u16> = Vec::new();
        let empty: Vec<Seen> = Vec::new();
        assert(none@ =~= Seq::empty());
        assert(all_sights(empty@) =~= Seq::empty());
        return Ok((none, empty));
    }
    let ghost head = first@;
    let mut loaded: Vec<Seen> = Vec::new();
    loaded.push(first);
    if refs.len() == 1 {
        assert(all_sights(loaded@) =~= seq![head]);
        return Ok((refs, loaded));
    }
    let f = &pool.frames[refs[1] as usize];
    assert(pool.frames@[refs@[1] as int].wf());
    assert(f@ == pool@[refs@[1] as int]);
    let got = f.load();
    let second = got?;
    let ghost tail = second@;
    loaded.push(second);
    assert(all_sights(loaded@) =~= seq![head, tail]);
    Ok((refs, loaded))
}

/// What was written of the frames so far: which kept frames they name, their pictures, their errors,
/// and the last frame.
#[verifier::ext_equal]
pub struct Draft {
    pub refs: Seq<u8>,
    pub coding: Coding,
    pub bands: Seq<(Lore, Writing)>,
    pub prev: Option<Sight>,
}

impl Draft {
    pub open spec fn blank(light: bool) -> Draft {
        Draft {
            refs: Seq::empty(),
            coding: crate::source_codec::started(light),
            bands: Seq::new(STREAMS as nat, |b: int| (Lore::fresh(), Writing::start())),
            prev: None,
        }
    }
}

/// The bytes that name kept frames.
pub open spec fn naming(refs: Seq<u16>, n: int) -> Seq<u8>
    decreases n,
{
    if n <= 0 {
        seq![refs.len() as u8]
    } else {
        naming(refs, n - 1) + crate::wire::le_bytes(refs[n - 1] as int, 2)
    }
}

/// The frames that a frame is compared with: the last one, and kept ones.
pub open spec fn rivals(prev: Option<Sight>, loaded: Seq<Sight>) -> Seq<Sight> {
    match prev {
        Some(p) => seq![p] + loaded,
        None => loaded,
    }
}

pub open spec fn pictures(v: Seq<Sight>) -> Seq<Image> {
    Seq::new(v.len(), |i: int| v[i].picture)
}

/// What is written with one more frame.
pub open spec fn drafted(raw: Seq<u8>, pool: Seq<Kept>, s: Draft, fr: Contents, g: Sketch) -> Outcome<Draft> {
    match seen(raw, fr, g) {
        Err(e) => Err(e),
        Ok(now) => match chosen(pool, now.picture, s.prev) {
            Err(e) => Err(e),
            Ok((refs, loaded)) => Ok(
                Draft {
                    refs: s.refs + naming(refs, refs.len() as int),
                    coding: crate::source_codec::coded(s.coding, now.picture, pictures(loaded)),
                    bands: crate::source_residual::put_frame(
                        s.bands,
                        g.expected.fitted(now.picture.w * now.picture.h),
                        rivals(s.prev, loaded),
                        now,
                    ),
                    prev: Some(now),
                },
            ),
        },
    }
}

/// What is written of the first `k` frames.
pub open spec fn draft(
    raw: Seq<u8>,
    pool: Seq<Kept>,
    light: bool,
    all: Seq<Contents>,
    gs: Seq<Sketch>,
    k: int,
) -> Outcome<Draft>
    decreases k,
{
    if k <= 0 {
        Ok(Draft::blank(light))
    } else {
        match draft(raw, pool, light, all, gs, k - 1) {
            Err(e) => Err(e),
            Ok(s) => drafted(raw, pool, s, all[k - 1], gs[k - 1]),
        }
    }
}

pub proof fn lemma_draft_alike(
    raw: Seq<u8>,
    pool: Seq<Kept>,
    light: bool,
    all: Seq<Contents>,
    a: Seq<Sketch>,
    b: Seq<Sketch>,
    k: int,
)
    requires
        forall|i: int| 0 <= i < k ==> #[trigger] a[i] == b[i],
    ensures
        draft(raw, pool, light, all, a, k) == draft(raw, pool, light, all, b, k),
    decreases k,
{
    if k > 0 {
        lemma_draft_alike(raw, pool, light, all, a, b, k - 1);
        assert(a[k - 1] == b[k - 1]);
    }
}

pub proof fn lemma_draft_fails(
    raw: Seq<u8>,
    pool: Seq<Kept>,
    light: bool,
    all: Seq<Contents>,
    gs: Seq<Sketch>,
    k: int,
    m: int,
)
    requires
        0 <= k <= m,
        draft(raw, pool, light, all, gs, k) is Err,
    ensures
        draft(raw, pool, light, all, gs, m) == draft(raw, pool, light, all, gs, k),
    decreases m - k,
{
    if k < m {
        lemma_draft_fails(raw, pool, light, all, gs, k + 1, m);
    }
}

/// Writes the frames of a movie.
pub struct Press {
    pub refs: Vec<u8>,
    pub coder: Encoder,
    pub bands: Vec<Band>,
    pub prev: Option<Seen>,
}

impl View for Press {
    type V = Draft;

    open spec fn view(&self) -> Draft {
        Draft {
            refs: self.refs@,
            coding: self.coder@,
            bands: bands_of(self.bands@),
            prev: sight_of(self.prev),
        }
    }
}

pub open spec fn bands_of(v: Seq<Band>) -> Seq<(Lore, Writing)> {
    Seq::new(v.len(), |b: int| v[b]@)
}

pub open spec fn bands_wf(v: Seq<Band>, most: int) -> bool {
    &&& v.len() == STREAMS
    &&& forall|b: int|
        0 <= b < STREAMS ==> (#[trigger] v[b]).models.wf() && v[b].enc@.wf() && v[b].enc.cache_size <= most
}

fn fresh_bands() -> (bands: Vec<Band>)
    ensures
        bands_wf(bands@, 1),
        bands_of(bands@) == Seq::new(STREAMS as nat, |b: int| (Lore::fresh(), Writing::start())),
{
    let mut bands: Vec<Band> = Vec::new();
    let mut b: usize = 0;
    while b < STREAMS
        invariant
            b <= STREAMS,
            bands@.len() == b,
            forall|k: int|
                0 <= k < b ==> (#[trigger] bands@[k]).models.wf() && bands@[k].enc@.wf()
                    && bands@[k].enc.cache_size <= 1 && bands@[k]@ == (Lore::fresh(), Writing::start()),
        decreases STREAMS - b,
    {
        bands.push(Band { models: ResidualModels::new(), enc: Enc::new() });
        b += 1;
    }
    assert(bands_of(bands@) =~= Seq::new(STREAMS as nat, |b: int| (Lore::fresh(), Writing::start())));
    bands
}

/// Writes the errors of a frame to all bands.
fn write_bands(bands: &mut Vec<Band>, expected: &Expected, cands: &Vec<&Seen>, now: &Seen, Ghost(most): Ghost<int>)
    requires
        bands_wf(old(bands)@, most),
        most < 0x6000_0000_0000_0000,
        crate::source_residual::comparable(cands@, *now, expected@),
    ensures
        bands_wf(final(bands)@, most + SWELL),
        bands_of(final(bands)@) == crate::source_residual::put_frame(
            bands_of(old(bands)@),
            expected@,
            crate::source_frames::sights(cands@),
            now@,
        ),
{
    let ghost start = bands@;
    let ghost all = crate::source_frames::sights(cands@);
    let mut b: usize = 0;
    while b < STREAMS
        invariant
            b <= STREAMS,
            bands@.len() == STREAMS,
            bands_wf(start, most),
            most < 0x6000_0000_0000_0000,
            crate::source_residual::comparable(cands@, *now, expected@),
            all == crate::source_frames::sights(cands@),
            forall|k: int| b <= k < STREAMS ==> #[trigger] bands@[k] == start[k],
            forall|k: int|
                0 <= k < b ==> (#[trigger] bands@[k]).models.wf() && bands@[k].enc@.wf()
                    && bands@[k].enc.cache_size <= most + SWELL && bands@[k]@
                    == crate::source_residual::put_band(start[k]@, expected@, all, now@, k),
        decreases STREAMS - b,
    {
        assert(bands@[b as int] == start[b as int]);
        write_band(&mut bands[b], expected, cands, now, b);
        b += 1;
    }
    assert(bands_of(bands@) =~= crate::source_residual::put_frame(bands_of(start), expected@, all, now@));
}

/// Appends the names of kept frames.
fn put_names(out: &mut Vec<u8>, refs: &Vec<u16>)
    requires
        refs@.len() <= 2,
    ensures
        final(out)@ == old(out)@ + naming(refs@, refs@.len() as int),
{
    let ghost start = out@;
    out.push(refs.len() as u8);
    let mut i: usize = 0;
    assert(out@ =~= start + naming(refs@, 0));
    while i < refs.len()
        invariant
            i <= refs.len(),
            out@ == start + naming(refs@, i as int),
        decreases refs.len() - i,
    {
        put_le(refs[i] as u64, 2, out);
        assert(out@ =~= start + naming(refs@, i + 1));
        i += 1;
    }
}

impl Press {
    /// What holds after `k` frames.
    pub open spec fn wf(&self, k: int) -> bool {
        &&& self.coder.wf()
        &&& self.coder.holds(1 + crate::source_codec::GROWTH * k)
        &&& bands_wf(self.bands@, 1 + SWELL * k)
        &&& self.prev matches Some(p) ==> p.wf()
    }

    pub(crate) fn new(light: bool) -> (s: Self)
        ensures
            s.wf(0),
            s@ == Draft::blank(light),
    {
        let s = Press {
            refs: Vec::new(),
            coder: Encoder::new(light),
            bands: fresh_bands(),
            prev: None,
        };
        assert(s@ =~= Draft::blank(light));
        s
    }

    /// Writes a frame.
    pub(crate) fn add_frame<P: Painter>(
        &mut self,
        raw: &[u8],
        fr: &Frame,
        pool: &Pool,
        painter: &mut P,
        Ghost(k): Ghost<int>,
    ) -> (r: Result<(), String>)
        requires
            old(self).wf(k),
            0 <= k < MAX_FRAMES,
            fr@.wf(),
            pool.wf(),
        ensures
            r is Ok ==> final(self).wf(k + 1),
            exists|g: Sketch|
                (match r {
                    Ok(_) => drafted(raw@, pool@, old(self)@, fr@, g) == Ok::<Draft, Seq<char>>(final(self)@),
                    Err(e) => drafted(raw@, pool@, old(self)@, fr@, g) == Err::<Draft, Seq<char>>(e@),
                }) && #[trigger] frame_asked(raw@, fr@, g, *old(painter), *final(painter)),
    {
        let ghost start = self@;
        let ghost first_coder = self.coder;
        let got = analyse(raw, fr, painter);
        let ghost g = choose|k: Sketch|
            analysed(raw@, fr@, got, k) && #[trigger] frame_asked(raw@, fr@, k, *old(painter), *painter);
        let (now, expected) = got?;
        let picked = choose_refs(pool, &now.picture, &self.prev);
        let (refs, loaded) = picked?;
        put_names(&mut self.refs, &refs);
        let mut extra: Vec<&Planes> = Vec::new();
        let mut cands: Vec<&Seen> = Vec::new();
        let prev = self.prev.take();
        match &prev {
            Some(p) => {
                cands.push(p);
            },
            None => {},
        }
        let ghost led = crate::source_frames::sights(cands@);
        let mut i: usize = 0;
        while i < loaded.len()
            invariant
                i <= loaded@.len(),
                all_whole(loaded@),
                extra@.len() == i,
                forall|j: int| 0 <= j < i ==> #[trigger] extra@[j] == loaded@[j].picture,
                crate::source_frames::all_seen(cands@),
                cands@.len() == led.len() + i,
                forall|j: int| 0 <= j < led.len() ==> (#[trigger] cands@[j])@ == led[j],
                forall|j: int| 0 <= j < i ==> #[trigger] cands@[led.len() + j] == loaded@[j],
            decreases loaded.len() - i,
        {
            extra.push(&loaded[i].picture);
            cands.push(&loaded[i]);
            i += 1;
        }
        proof {
            now.picture.lemma_shape();
            assert(crate::source_search::images(extra@) =~= pictures(all_sights(loaded@)));
            assert(crate::source_frames::sights(cands@) =~= rivals(
                start.prev,
                all_sights(loaded@),
            )) by {
                assert(led =~= (match start.prev {
                    Some(p) => seq![p],
                    None => Seq::empty(),
                }));
                assert forall|j: int| 0 <= j < cands@.len() implies crate::source_frames::sights(cands@)[j]
                    == rivals(start.prev, all_sights(loaded@))[j] by {
                    if j >= led.len() {
                        assert(cands@[led.len() + (j - led.len())] == loaded@[j - led.len()]);
                    } else {
                        assert(cands@[j]@ == led[j]);
                    }
                }
            }
        }
        self.coder.frame_extra(&now.picture, &extra);
        write_bands(&mut self.bands, &expected, &cands, &now, Ghost(1 + SWELL * k));
        proof {
            assert(first_coder.holds(1 + crate::source_codec::GROWTH * k));
            assert(self.coder.holds(1 + crate::source_codec::GROWTH * k + crate::source_codec::GROWTH));
        }
        self.prev = Some(now);
        proof {
            assert(crate::source_codec::GROWTH * k + crate::source_codec::GROWTH
                == crate::source_codec::GROWTH * (k + 1)) by (nonlinear_arith);
            assert(SWELL * k + SWELL == SWELL * (k + 1)) by (nonlinear_arith);
            let then = drafted(raw@, pool@, start, fr@, g)->Ok_0;
            assert(self@ =~= then);
        }
        Ok(())
    }
}

}
