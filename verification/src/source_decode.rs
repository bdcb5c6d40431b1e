//! Movies as records of pictures and errors: the reading side.

use crate::monitor::Monitor;
use crate::prores_bits::{put_scales, rebuild, Decoded};
use crate::prores_frame::{parse_head, Contents, Frame, Slice};
use crate::source_codec::{Decoder, Decoding};
use crate::source_frames::{correct, find_alpha, Expectation, Expected, Painter, Seen, Sight};
use crate::source_planes::Planes;
use crate::source_pool::{Kept, Pool, PoolFrame, EXTRA_REFS};
use crate::source_rc::{Dec, Reading};
use crate::source_record::{get_section, open_parts, read_count, MAX_FRAMES, MAX_OUTPUT};
use crate::source_residual::{read_band, Lore, ReadBand, ResidualModels};
use crate::streams::{part, STREAMS};
use crate::wire::{fail, read_le16, read_le32, read_le64, Outcome};
use vstd::prelude::*;

verus! {

/// Number `fi` of the gaps between frames.
pub open spec fn gap_at(table: Seq<u8>, fi: int) -> int {
    crate::wire::le64(table, fi * 12)
}

/// The length of frame number `fi`.
pub open spec fn length_at(table: Seq<u8>, fi: int) -> int {
    crate::wire::le32(table, fi * 12 + 8)
}

/// The length of the first `k` frames.
pub open spec fn lengths(table: Seq<u8>, k: int) -> int
    decreases k,
{
    if k <= 0 {
        0
    } else {
        lengths(table, k - 1) + length_at(table, k - 1)
    }
}

/// What is read of the frames so far: the movie, how far its parts have been used, the pictures, the
/// errors, the last frame, and the frames that are kept.
#[verifier::ext_equal]
pub struct Leaf {
    pub out: Seq<u8>,
    pub sk: int,
    pub hat: int,
    pub qat: int,
    pub rat: int,
    pub dec: Decoding,
    pub bands: Seq<(Lore, Reading)>,
    pub prev: Option<Sight>,
    pub pool: Seq<Kept>,
}

/// A frame as far as the parts of a record tell: its head, and how strongly its slices are quantized.
#[verifier::ext_equal]
pub struct Opening {
    pub fr: Contents,
    pub head: Seq<u8>,
    pub qs: Seq<u8>,
}

/// Frame number `fi`, as far as the parts of a record tell.
#[verifier::opaque]
pub open spec fn opening(p: Seq<Seq<u8>>, s: Leaf, fi: int) -> Outcome<Opening> {
    if s.sk + gap_at(p[1], fi) > p[0].len() {
        Err("invalid layout"@)
    } else if s.hat + 2 > p[2].len() {
        Err("invalid heads"@)
    } else {
        let hl = crate::wire::le16(p[2], s.hat);
        if s.hat + 2 + hl > p[2].len() {
            Err("invalid heads"@)
        } else {
            let head = p[2].subrange(s.hat + 2, s.hat + 2 + hl);
            match crate::prores_frame::parsed_head(head, length_at(p[1], fi)) {
                Err(e) => Err(e),
                Ok(fr) => if s.qat + fr.slices.len() > p[3].len() {
                    Err("invalid quantizers"@)
                } else {
                    Ok(Opening { fr, head, qs: p[3].subrange(s.qat, s.qat + fr.slices.len()) })
                },
            }
        }
    }
}

/// How strongly macroblocks are quantized, as the first `n` slices say.
pub open spec fn quantized(fr: Contents, qs: Seq<u8>, n: int) -> Seq<u8>
    decreases n,
{
    let mbw = crate::prores_frame::sixteenths(fr.width);
    let mbh = crate::prores_frame::sixteenths(fr.height);
    if n <= 0 {
        Seq::new((mbw * mbh) as nat, |i: int| 0u8)
    } else {
        crate::prores_bits::scales_put(
            quantized(fr, qs, n - 1),
            mbw,
            Slice { qscale: qs[n - 1], ..fr.slices[n - 1] },
        )
    }
}

/// The first `k` kept frames that a frame names.
pub open spec fn recalled(refs: Seq<u8>, rat: int, pool: Seq<Kept>, k: int) -> Outcome<
    Seq<Sight>,
>
    decreases k,
{
    if k <= 0 {
        Ok(Seq::empty())
    } else {
        match recalled(refs, rat, pool, k - 1) {
            Err(e) => Err(e),
            Ok(done) => if rat + 1 + 2 * k > refs.len() {
                Err("invalid references"@)
            } else {
                let i = crate::wire::le16(refs, rat + 2 * k - 1);
                if i >= pool.len() {
                    Err("missing reference frame"@)
                } else {
                    match crate::source_pool::loaded(pool[i]) {
                        Err(e) => Err(e),
                        Ok(s) => Ok(done.push(s)),
                    }
                }
            },
        }
    }
}

/// The kept frames that a frame names.
#[verifier::opaque]
pub open spec fn references(refs: Seq<u8>, rat: int, pool: Seq<Kept>) -> Outcome<Seq<Sight>> {
    if rat >= refs.len() || refs[rat] > EXTRA_REFS {
        Err("invalid references"@)
    } else {
        recalled(refs, rat, pool, refs[rat] as int)
    }
}

/// A frame, with its picture, its errors and its bytes, and the decoders after it.
#[verifier::ext_equal]
pub struct Turned {
    pub now: Sight,
    pub dec: Decoding,
    pub bands: Seq<(Lore, Reading)>,
    pub bytes: Seq<u8>,
}

/// The frame that follows, where the kept frames are known.
#[verifier::opaque]
pub open spec fn turned(o: Opening, s: Leaf, loaded: Seq<Sight>, expected: Expectation) -> Outcome<Turned> {
    let (w, h) = (crate::source_encode::width_of(o.fr), crate::source_encode::height_of(o.fr));
    let n = w * h;
    let qmb = quantized(o.fr, o.qs, o.fr.slices.len() as int);
    let (picture, dec) = crate::source_codec::decoded(
        s.dec,
        w,
        h,
        crate::source_encode::pictures(loaded),
    );
    let expected = expected.fitted(n);
    let blank = Sight { picture, resid: Seq::new((3 * n) as nat, |i: int| 0i16), qmb };
    let (bands, resid) = crate::source_residual::get_frame(
        s.bands,
        expected,
        crate::source_encode::rivals(s.prev, loaded),
        blank,
        0,
    );
    let c = crate::source_frames::corrected(expected.levels, resid);
    let d = crate::prores_bits::Planes {
        luma: c.subrange(0, n),
        blue: c.subrange(n, 2 * n),
        red: c.subrange(2 * n, 3 * n),
        alpha: crate::source_frames::alpha_of(picture),
        qmb,
    };
    match crate::prores_bits::rebuilt(o.fr, o.head, o.qs, d) {
        Err(e) => Err(e),
        Ok(bytes) => Ok(Turned { now: Sight { resid, ..blank }, dec, bands, bytes }),
    }
}

/// What is read with one more frame, where `g` is what its picture lets expect.
pub open spec fn leafed(p: Seq<Seq<u8>>, pool: Seq<Kept>, keep: bool, s: Leaf, fi: int, g: Expectation) -> Outcome<Leaf> {
    match opening(p, s, fi) {
        Err(e) => Err(e),
        Ok(o) => match references(p[4], s.rat, pool) {
            Err(e) => Err(e),
            Ok(loaded) => match turned(o, s, loaded, g) {
                Err(e) => Err(e),
                Ok(t) => Ok(
                    Leaf {
                        out: s.out + p[0].subrange(s.sk, s.sk + gap_at(p[1], fi)) + t.bytes,
                        sk: s.sk + gap_at(p[1], fi),
                        hat: s.hat + 2 + o.head.len(),
                        qat: s.qat + o.qs.len(),
                        rat: s.rat + 1 + 2 * p[4][s.rat],
                        dec: t.dec,
                        bands: t.bands,
                        prev: Some(t.now),
                        pool: if keep {
                            s.pool.push(crate::source_pool::stored(t.now))
                        } else {
                            s.pool
                        },
                    },
                ),
            },
        },
    }
}

/// Whether a painter was asked what the picture of a frame lets expect, where the kept frames are known, said
/// `e`, and is then as `after` is.
pub open spec fn picture_asked<P: Painter>(
    o: Opening,
    s: Leaf,
    loaded: Seq<Sight>,
    e: Expectation,
    before: P,
    after: P,
) -> bool {
    before.expects(
        crate::source_codec::decoded(
            s.dec,
            crate::source_encode::width_of(o.fr),
            crate::source_encode::height_of(o.fr),
            crate::source_encode::pictures(loaded),
        ).0,
        o.fr,
        quantized(o.fr, o.qs, o.fr.slices.len() as int),
        e,
        &after,
    )
}

/// Whether a painter was asked about frame number `fi`, if it can be read so far.
pub open spec fn leaf_asked<P: Painter>(
    p: Seq<Seq<u8>>,
    pool: Seq<Kept>,
    s: Leaf,
    fi: int,
    e: Expectation,
    before: P,
    after: P,
) -> bool {
    match opening(p, s, fi) {
        Err(_) => before == after,
        Ok(o) => match references(p[4], s.rat, pool) {
            Err(_) => before == after,
            Ok(loaded) => picture_asked(o, s, loaded, e, before, after),
        },
    }
}

/// What is read of the first `k` frames.
pub open spec fn leaf(p: Seq<Seq<u8>>, pool: Seq<Kept>, keep: bool, start: Leaf, gs: Seq<Expectation>, k: int) -> Outcome<
    Leaf,
>
    decreases k,
{
    if k <= 0 {
        Ok(start)
    } else {
        match leaf(p, pool, keep, start, gs, k - 1) {
            Err(e) => Err(e),
            Ok(s) => leafed(p, pool, keep, s, k - 1, gs[k - 1]),
        }
    }
}

proof fn lemma_leaf_alike(
    p: Seq<Seq<u8>>,
    pool: Seq<Kept>,
    keep: bool,
    start: Leaf,
    a: Seq<Expectation>,
    b: Seq<Expectation>,
    k: int,
)
    requires
        forall|i: int| 0 <= i < k ==> #[trigger] a[i] == b[i],
    ensures
        leaf(p, pool, keep, start, a, k) == leaf(p, pool, keep, start, b, k),
    decreases k,
{
    if k > 0 {
        lemma_leaf_alike(p, pool, keep, start, a, b, k - 1);
        assert(a[k - 1] == b[k - 1]);
    }
}

proof fn lemma_leaf_fails(p: Seq<Seq<u8>>, pool: Seq<Kept>, keep: bool, start: Leaf, gs: Seq<Expectation>, k: int, m: int)
    requires
        0 <= k <= m,
        leaf(p, pool, keep, start, gs, k) is Err,
    ensures
        leaf(p, pool, keep, start, gs, m) == leaf(p, pool, keep, start, gs, k),
    decreases m - k,
{
    if k < m {
        lemma_leaf_fails(p, pool, keep, start, gs, k + 1, m);
    }
}

/// The state before the first frame.
pub open spec fn first_leaf(dec: Decoding, streams: Seq<Seq<u8>>) -> Leaf {
    Leaf {
        out: Seq::empty(),
        sk: 0,
        hat: 0,
        qat: 0,
        rat: 0,
        dec,
        bands: Seq::new(streams.len(), |b: int| (Lore::fresh(), Reading::start(streams[b]))),
        prev: None,
        pool: Seq::empty(),
    }
}

/// The parts of a record, and the state before the first frame.
#[verifier::opaque]
pub open spec fn begun(data: Seq<u8>) -> Outcome<(Seq<Seq<u8>>, Leaf)> {
    match crate::source_record::count_of(data) {
        Err(e) => Err(e),
        Ok(n) => match crate::source_record::opened(data, n, 5) {
            Err(e) => Err(e),
            Ok(p) => match crate::source_record::part_at(data, 5) {
                Err(e) => Err(e),
                Ok((pictures, _)) => match crate::source_record::part_at(data, 6) {
                    Err(e) => Err(e),
                    Ok((errors, end)) => if end != data.len() || p[1].len() != n * 12 {
                        Err("invalid source record"@)
                    } else if p[0].len() + lengths(p[1], n) > MAX_OUTPUT {
                        Err("source record output too large"@)
                    } else {
                        match crate::source_codec::open_stream(pictures) {
                            Err(e) => Err(e),
                            Ok(dec) => match crate::streams::parted(
                                errors,
                                "truncated residual stream"@,
                                "invalid residual stream"@,
                            ) {
                                Err(e) => Err(e),
                                Ok(streams) => Ok((p, first_leaf(dec, streams))),
                            },
                        }
                    },
                },
            },
        },
    }
}

/// The movie and the frames that are kept of it, if all parts have been used up.
pub open spec fn closed(p: Seq<Seq<u8>>, s: Leaf) -> Outcome<(Seq<u8>, Seq<Kept>)> {
    if s.qat != p[3].len() || s.hat != p[2].len() || s.rat != p[4].len() {
        Err("invalid source record"@)
    } else {
        Ok((s.out + p[0].subrange(s.sk, p[0].len() as int), s.pool))
    }
}

/// The movie that a record holds, and the frames that are kept of it, where `es` is what the pictures of its
/// frames let expect.
pub open spec fn restored(data: Seq<u8>, pool: Seq<Kept>, keep: bool, es: Seq<Expectation>) -> Outcome<
    (Seq<u8>, Seq<Kept>),
> {
    match begun(data) {
        Err(e) => Err(e),
        Ok((p, start)) => match leaf(
            p,
            pool,
            keep,
            start,
            es,
            crate::source_record::count_of(data)->Ok_0,
        ) {
            Err(e) => Err(e),
            Ok(s) => closed(p, s),
        },
    }
}

pub open spec fn outcome(r: Result<(Vec<u8>, Pool), String>) -> Outcome<(Seq<u8>, Seq<Kept>)> {
    match r {
        Ok((v, p)) => Ok((v@, p@)),
        Err(e) => Err(e@),
    }
}

/// Finds how strongly macroblocks are quantized.
fn quantizers(fr: &Frame, qs: &[u8]) -> (q: Vec<u8>)
    requires
        fr@.wf(),
        qs@.len() == fr@.slices.len(),
    ensures
        q@ == quantized(fr@, qs@, fr@.slices.len() as int),
        q@.len() == crate::prores_frame::sixteenths(fr@.width) * crate::prores_frame::sixteenths(
            fr@.height,
        ),
{
    let mbw = fr.mbw();
    let mbh = fr.mbh();
    assert(0 <= mbw * mbh <= 512 * 512) by (nonlinear_arith)
        requires
            0 <= mbw <= 512,
            0 <= mbh <= 512,
    ;
    let mut q: Vec<u8> = vec![0u8; mbw * mbh];
    assert(q@ =~= quantized(fr@, qs@, 0));
    let mut i: usize = 0;
    while i < fr.slices.len()
        invariant
            i <= fr.slices.len(),
            fr@.wf(),
            qs@.len() == fr@.slices.len(),
            mbw == crate::prores_frame::sixteenths(fr@.width),
            mbh == crate::prores_frame::sixteenths(fr@.height),
            q@.len() == mbw * mbh,
            q@ == quantized(fr@, qs@, i as int),
        decreases fr.slices.len() - i,
    {
        assert(crate::prores_frame::fits_in(fr@.slices[i as int], fr@.width, fr@.height));
        let mut s: Slice = fr.slices[i].clone();
        s.qscale = qs[i];
        assert(s == (Slice { qscale: qs@[i as int], ..fr@.slices[i as int] }));
        put_scales(&mut q, mbw, &s, Ghost(fr@.width), Ghost(fr@.height));
        i += 1;
    }
    q
}

/// Recalls the kept frames that a frame names.
fn load_refs(refs: &Vec<u8>, rat: usize, pool: &Pool) -> (r: Result<Vec<Seen>, String>)
    requires
        pool.wf(),
        rat <= refs@.len(),
    ensures
        match r {
            Ok(v) => references(refs@, rat as int, pool@) == Ok::<Seq<Sight>, Seq<char>>(
                crate::source_encode::all_sights(v@),
            ),
            Err(e) => references(refs@, rat as int, pool@) == Err::<Seq<Sight>, Seq<char>>(e@),
        },
        r matches Ok(v) ==> crate::source_encode::all_whole(v@) && rat < refs@.len() && v@.len()
            == refs@[rat as int] && v@.len() <= 2 && rat + 1 + 2 * v@.len() <= refs@.len(),
{
    reveal(references);
    if rat >= refs.len() || refs[rat] as usize > EXTRA_REFS {
        return Err(fail("invalid references"));
    }
    let n: usize = refs[rat] as usize;
    let mut loaded: Vec<Seen> = Vec::new();
    let mut k: usize = 0;
    assert(crate::source_encode::all_sights(loaded@) =~= Seq::empty());
    while k < n
        invariant
            k <= n <= 2,
            rat < refs.len(),
            n == refs@[rat as int],
            pool.wf(),
            loaded@.len() == k,
            crate::source_encode::all_whole(loaded@),
            k > 0 ==> rat + 1 + 2 * k <= refs@.len(),
            recalled(refs@, rat as int, pool@, k as int) == Ok::<Seq<Sight>, Seq<char>>(
                crate::source_encode::all_sights(loaded@),
            ),
        decreases n - k,
    {
        reveal(references);
        let ghost done = crate::source_encode::all_sights(loaded@);
        if refs.len() - rat < 3 + 2 * k {
            proof {
                lemma_recalled_fails(refs@, rat as int, pool@, k + 1, n as int);
            }
            return Err(fail("invalid references"));
        }
        let i: usize = read_le16(refs, rat + 2 * k + 1) as usize;
        if i >= pool.frames.len() {
            proof {
                lemma_recalled_fails(refs@, rat as int, pool@, k + 1, n as int);
            }
            return Err(fail("missing reference frame"));
        }
        let f = &pool.frames[i];
        assert(pool.frames@[i as int].wf());
        assert(f@ == pool@[i as int]);
        let x = f.load();
        proof {
            if x is Err {
                lemma_recalled_fails(refs@, rat as int, pool@, k + 1, n as int);
            }
        }
        let s = x?;
        loaded.push(s);
        assert(crate::source_encode::all_sights(loaded@) =~= done.push(s@));
        k += 1;
    }
    Ok(loaded)
}

proof fn lemma_recalled_fails(refs: Seq<u8>, rat: int, pool: Seq<Kept>, k: int, m: int)
    requires
        0 <= k <= m,
        recalled(refs, rat, pool, k) is Err,
    ensures
        recalled(refs, rat, pool, m) == recalled(refs, rat, pool, k),
    decreases m - k,
{
    if k < m {
        lemma_recalled_fails(refs, rat, pool, k + 1, m);
    }
}

pub open spec fn bands_of(v: Seq<ReadBand<'_>>) -> Seq<(Lore, Reading)> {
    Seq::new(v.len(), |b: int| v[b]@)
}

pub open spec fn bands_wf(v: Seq<ReadBand<'_>>) -> bool {
    &&& v.len() == STREAMS
    &&& forall|b: int| 0 <= b < STREAMS ==> (#[trigger] v[b]).models.wf() && v[b].dec@.wf()
}

/// Reads the errors of a frame from all bands.
fn read_bands(bands: &mut Vec<ReadBand<'_>>, expected: &Expected, cands: &Vec<&Seen>, now: &mut Seen)
    requires
        bands_wf(old(bands)@),
        crate::source_residual::comparable(cands@, *old(now), expected@),
    ensures
        bands_wf(final(bands)@),
        final(now).wf(),
        final(now)@.picture == old(now)@.picture,
        final(now)@.qmb == old(now)@.qmb,
        (bands_of(final(bands)@), final(now)@.resid) == crate::source_residual::get_frame(
            bands_of(old(bands)@),
            expected@,
            crate::source_frames::sights(cands@),
            old(now)@,
            0,
        ),
{
    let ghost start = now@;
    let ghost all = crate::source_frames::sights(cands@);
    let ghost whole = crate::source_residual::get_frame(bands_of(bands@), expected@, all, now@, 0);
    let mut b: usize = 0;
    while b < STREAMS
        invariant
            b <= STREAMS,
            bands_wf(bands@),
            crate::source_residual::comparable(cands@, *now, expected@),
            all == crate::source_frames::sights(cands@),
            now@.picture == start.picture,
            now@.qmb == start.qmb,
            whole == crate::source_residual::get_frame(bands_of(bands@), expected@, all, now@, b as int),
        decreases STREAMS - b,
    {
        let ghost (then, before) = (bands_of(bands@), now@);
        read_band(&mut bands[b], expected, cands, now, b);
        proof {
            assert(bands_of(bands@) =~= then.update(b as int, bands@[b as int]@));
            assert(now@ =~= (Sight { resid: now.resid@, ..before }));
        }
        b += 1;
    }
}

/// Reads the frames of a movie.
struct Desk<'a> {
    out: Vec<u8>,
    sk: usize,
    hat: usize,
    qat: usize,
    rat: usize,
    dec: Decoder<'a>,
    bands: Vec<ReadBand<'a>>,
    prev: Option<Seen>,
    pool: Pool,
}

impl<'a> View for Desk<'a> {
    type V = Leaf;

    closed spec fn view(&self) -> Leaf {
        Leaf {
            out: self.out@,
            sk: self.sk as int,
            hat: self.hat as int,
            qat: self.qat as int,
            rat: self.rat as int,
            dec: self.dec@,
            bands: bands_of(self.bands@),
            prev: crate::source_encode::sight_of(self.prev),
            pool: self.pool@,
        }
    }
}

/// The parts of a record of `n` frames.
spec fn whole_parts(p: Seq<Vec<u8>>, n: int) -> bool {
    &&& p.len() == 5
    &&& p[1]@.len() == n * 12
    &&& forall|i: int| 0 <= i < 5 ==> (#[trigger] p[i]).len() <= 0x1_0000_0000
}

/// Opens frame number `fi`: its gap, its frame, and the length of its head.
fn open_frame(p: &Vec<Vec<u8>>, n: usize, fi: usize, sk: usize, hat: usize, qat: usize, Ghost(s): Ghost<Leaf>) -> (r:
    Result<(usize, Frame, usize), String>)
    requires
        whole_parts(p@, n as int),
        fi < n <= MAX_FRAMES,
        sk <= p@[0].len(),
        hat <= p@[2].len(),
        qat <= p@[3].len(),
        s.sk == sk,
        s.hat == hat,
        s.qat == qat,
    ensures
        match r {
            Ok((gap, fr, hl)) => opening(crate::prores_bits::each(p@), s, fi as int) == Ok::<
                Opening,
                Seq<char>,
            >(
                (Opening {
                    fr: fr@,
                    head: p@[2]@.subrange(hat + 2, hat + 2 + hl),
                    qs: p@[3]@.subrange(qat as int, qat + fr@.slices.len()),
                }),
            ) && gap == gap_at(p@[1]@, fi as int) && sk + gap <= p@[0]@.len() && hat + 2 + hl
                <= p@[2]@.len() && qat + fr@.slices.len() <= p@[3]@.len() && fr@.wf() && fr.len
                == length_at(p@[1]@, fi as int),
            Err(e) => opening(crate::prores_bits::each(p@), s, fi as int) == Err::<Opening, Seq<char>>(e@),
        },
{
    reveal(opening);
    let ghost q = crate::prores_bits::each(p@);
    assert(q[0] == p@[0]@ && q[1] == p@[1]@ && q[2] == p@[2]@ && q[3] == p@[3]@);
    assert(p@[0].len() <= 0x1_0000_0000 && p@[2].len() <= 0x1_0000_0000 && p@[3].len() <= 0x1_0000_0000);
    let gap: u64 = read_le64(&p[1], fi * 12);
    let flen: usize = read_le32(&p[1], fi * 12 + 8) as usize;
    if gap > (p[0].len() - sk) as u64 {
        return Err(fail("invalid layout"));
    }
    if p[2].len() - hat < 2 {
        return Err(fail("invalid heads"));
    }
    let hl: usize = read_le16(&p[2], hat) as usize;
    if p[2].len() - hat - 2 < hl {
        return Err(fail("invalid heads"));
    }
    let fr = parse_head(&p[2].as_slice()[hat + 2..hat + 2 + hl], flen)?;
    if p[3].len() - qat < fr.slices.len() {
        return Err(fail("invalid quantizers"));
    }
    Ok((gap as usize, fr, hl))
}

proof fn lemma_rebuilt_len(fr: Contents, head: Seq<u8>, qs: Seq<u8>, d: crate::prores_bits::Planes)
    ensures
        crate::prores_bits::rebuilt(fr, head, qs, d) matches Ok(b) ==> b.len() == fr.len,
{
}

impl<'a> Desk<'a> {
    spec fn wf(&self, p: Seq<Vec<u8>>, n: int) -> bool {
        &&& whole_parts(p, n)
        &&& self.sk <= p[0]@.len()
        &&& self.hat <= p[2]@.len()
        &&& self.qat <= p[3]@.len()
        &&& self.rat <= p[4]@.len()
        &&& self.dec.wf()
        &&& bands_wf(self.bands@)
        &&& self.prev matches Some(s) ==> s.wf()
        &&& self.pool.wf()
    }

    /// Decodes the picture and the errors of a frame, and builds its bytes.
    #[verifier::rlimit(100)]
    #[verifier::spinoff_prover]
    fn turn<P: Painter>(
        &mut self,
        fr: &Frame,
        head: &[u8],
        qs: &[u8],
        loaded: &Vec<Seen>,
        painter: &mut P,
        Ghost(p): Ghost<Seq<Vec<u8>>>,
        Ghost(n): Ghost<int>,
    ) -> (r: Result<(Seen, Vec<u8>), String>)
        requires
            old(self).wf(p, n),
            fr@.wf(),
            qs@.len() == fr@.slices.len(),
            crate::source_encode::all_whole(loaded@),
            loaded@.len() <= 2,
        ensures
            exists|expected: Expectation|
                (match r {
                    Ok((now, bytes)) => turned(
                        (Opening { fr: fr@, head: head@, qs: qs@ }),
                        old(self)@,
                        crate::source_encode::all_sights(loaded@),
                        expected,
                    ) == Ok::<Turned, Seq<char>>(
                        (Turned {
                            now: now@,
                            dec: final(self)@.dec,
                            bands: final(self)@.bands,
                            bytes: bytes@,
                        }),
                    ),
                    Err(e) => turned(
                        (Opening { fr: fr@, head: head@, qs: qs@ }),
                        old(self)@,
                        crate::source_encode::all_sights(loaded@),
                        expected,
                    ) == Err::<Turned, Seq<char>>(e@),
                }) && #[trigger] picture_asked(
                    (Opening { fr: fr@, head: head@, qs: qs@ }),
                    old(self)@,
                    crate::source_encode::all_sights(loaded@),
                    expected,
                    *old(painter),
                    *final(painter),
                ),
            r matches Ok((now, bytes)) ==> final(self).wf(p, n) && now.wf() && bytes@.len() == fr@.len
                && final(self)@ == (Leaf {
                dec: final(self)@.dec,
                bands: final(self)@.bands,
                prev: None,
                ..old(self)@
            }),
    {
        let ghost start = self@;
        let ghost o = Opening { fr: fr@, head: head@, qs: qs@ };
        let ghost given = crate::source_encode::all_sights(loaded@);
        let w: usize = fr.mbw() * 16;
        let h: usize = fr.mbh() * 16;
        assert(0 <= w * h <= 8192 * 8192 && w * h == h * w) by (nonlinear_arith)
            requires
                16 <= w <= 8192,
                16 <= h <= 8192,
        ;
        let n3: usize = w * h;
        let qmb = quantizers(fr, qs);
        let prev = self.prev.take();
        let mut extra: Vec<&Planes> = Vec::new();
        let mut cands: Vec<&Seen> = Vec::new();
        match &prev {
            Some(s) => {
                cands.push(s);
            },
            None => {},
        }
        let ghost led = crate::source_frames::sights(cands@);
        let mut i: usize = 0;
        while i < loaded.len()
            invariant
                i <= loaded@.len(),
                crate::source_encode::all_whole(loaded@),
                extra@.len() == i,
                forall|j: int| 0 <= j < i ==> #[trigger] extra@[j] == loaded@[j].picture,
                crate::source_frames::all_seen(cands@),
                cands@.len() == led.len() + i,
                forall|j: int| 0 <= j < led.len() ==> (#[trigger] cands@[j])@ == led[j],
                forall|j: int| 0 <= j < i ==> #[trigger] cands@[led.len() + j] == loaded@[j],
            decreases loaded.len() - i,
        {
            extra.push(&loaded[i].picture);
            cands.push(&loaded[i]);
            i += 1;
        }
        proof {
            assert(crate::source_search::images(extra@) =~= crate::source_encode::pictures(given));
            assert(led =~= (match start.prev {
                Some(s) => seq![s],
                None => Seq::empty(),
            }));
            assert forall|j: int| 0 <= j < cands@.len() implies crate::source_frames::sights(cands@)[j]
                == crate::source_encode::rivals(start.prev, given)[j] by {
                if j >= led.len() {
                    assert(cands@[led.len() + (j - led.len())] == loaded@[j - led.len()]);
                } else {
                    assert(cands@[j]@ == led[j]);
                }
            }
            assert(crate::source_frames::sights(cands@) =~= crate::source_encode::rivals(
                start.prev,
                given,
            ));
        }
        let picture = self.dec.frame_extra(w, h, &extra);
        let mut expected = painter.expect(&picture, fr, &qmb);
        let ghost said = expected@;
        assert(picture_asked(o, start, given, said, *old(painter), *painter));
        expected.fit(n3);
        let resid: Vec<i16> = vec![0i16; 3 * n3];
        assert(resid@ =~= Seq::new((3 * (w * h)) as nat, |i: int| 0i16));
        let mut now = Seen { picture, resid, qmb };
        proof {
            now.picture.lemma_shape();
            assert(w as int / 16 == crate::prores_frame::sixteenths(fr@.width));
            assert(h as int / 16 == crate::prores_frame::sixteenths(fr@.height));
        }
        read_bands(&mut self.bands, &expected, &cands, &mut now);
        let d = Decoded {
            wp: w,
            hp: h,
            luma: correct(&expected, &now.resid, 0, n3),
            blue: correct(&expected, &now.resid, n3, n3),
            red: correct(&expected, &now.resid, 2 * n3, n3),
            alpha: find_alpha(&now.picture),
            qmb: copy(&now.qmb),
        };
        let built = rebuild(fr, head, qs, &d);
        proof {
            reveal(turned);
            lemma_rebuilt_len(fr@, head@, qs@, d@);
            let t = turned(o, start, given, said);
            let (bands, res) = crate::source_residual::get_frame(
                start.bands,
                expected@,
                crate::source_encode::rivals(start.prev, given),
                (Sight {
                    picture: now@.picture,
                    resid: Seq::new((3 * (w * h)) as nat, |i: int| 0i16),
                    qmb: now@.qmb,
                }),
                0,
            );
            assert(now@ =~= (Sight { picture: now@.picture, resid: res, qmb: now@.qmb }));
            if built is Err {
                assert(t == Err::<Turned, Seq<char>>(built->Err_0@));
            } else {
                assert(t->Ok_0.now =~= now@);
                assert(t == Ok::<Turned, Seq<char>>(
                    (Turned {
                        now: now@,
                        dec: self@.dec,
                        bands: self@.bands,
                        bytes: built->Ok_0@,
                    }),
                ));
            }
        }
        let bytes = built?;
        Ok((now, bytes))
    }
}

fn copy(v: &Vec<u8>) -> (c: Vec<u8>)
    ensures
        c@ == v@,
{
    let c: Vec<u8> = v.clone();
    assert(c@ =~= v@);
    c
}

impl<'a> Desk<'a> {
    /// Reads frame number `fi` of `n`.
    fn add_frame<P: Painter>(
        &mut self,
        p: &Vec<Vec<u8>>,
        n: usize,
        fi: usize,
        pool: &Pool,
        keep: bool,
        painter: &mut P,
    ) -> (r: Result<(), String>)
        requires
            old(self).wf(p@, n as int),
            fi < n <= MAX_FRAMES,
            pool.wf(),
        ensures
            exists|g: Expectation|
                (match r {
                    Ok(_) => leafed(
                        crate::prores_bits::each(p@),
                        pool@,
                        keep,
                        old(self)@,
                        fi as int,
                        g,
                    ) == Ok::<Leaf, Seq<char>>(final(self)@),
                    Err(e) => leafed(
                        crate::prores_bits::each(p@),
                        pool@,
                        keep,
                        old(self)@,
                        fi as int,
                        g,
                    ) == Err::<Leaf, Seq<char>>(e@),
                }) && #[trigger] leaf_asked(
                    crate::prores_bits::each(p@),
                    pool@,
                    old(self)@,
                    fi as int,
                    g,
                    *old(painter),
                    *final(painter),
                ),
            r is Ok ==> final(self).wf(p@, n as int) && final(self).out@.len() - final(self).sk
                == old(self).out@.len() - old(self).sk + length_at(p@[1]@, fi as int),
    {
        let ghost q = crate::prores_bits::each(p@);
        let ghost start = self@;
        assert(q[0] == p@[0]@ && q[1] == p@[1]@ && q[2] == p@[2]@ && q[3] == p@[3]@ && q[4] == p@[4]@);
        let ghost blank = Expectation {
            levels: Seq::empty(),
            strength: Seq::empty(),
            negative: Seq::empty(),
        };
        let x = open_frame(p, n, fi, self.sk, self.hat, self.qat, Ghost(start));
        assert(x is Err ==> leaf_asked(q, pool@, start, fi as int, blank, *painter, *painter));
        let (gap, fr, hl) = x?;
        let x = load_refs(&p[4], self.rat, pool);
        assert(x is Err ==> leaf_asked(q, pool@, start, fi as int, blank, *painter, *painter));
        let loaded = x?;
        let head: &[u8] = &p[2].as_slice()[self.hat + 2..self.hat + 2 + hl];
        let qs: &[u8] = &p[3].as_slice()[self.qat..self.qat + fr.slices.len()];
        let ghost o = Opening { fr: fr@, head: head@, qs: qs@ };
        let ghost given = crate::source_encode::all_sights(loaded@);
        let x = self.turn(&fr, head, qs, &loaded, painter, Ghost(p@), Ghost(n as int));
        let ghost g = choose|expected: Expectation|
            (match x {
                Ok((now, bytes)) => turned(o, start, given, expected) == Ok::<Turned, Seq<char>>(
                    (Turned {
                        now: now@,
                        dec: self@.dec,
                        bands: self@.bands,
                        bytes: bytes@,
                    }),
                ),
                Err(e) => turned(o, start, given, expected) == Err::<Turned, Seq<char>>(e@),
            }) && #[trigger] picture_asked(o, start, given, expected, *old(painter), *painter);
        let ghost then = leafed(q, pool@, keep, start, fi as int, g);
        assert(leaf_asked(q, pool@, start, fi as int, g, *old(painter), *painter));
        let (now, bytes) = x?;
        let ghost mid = self@;
        self.out.extend_from_slice(&p[0].as_slice()[self.sk..self.sk + gap]);
        self.out.extend_from_slice(&bytes);
        self.sk = self.sk + gap;
        self.hat = self.hat + 2 + hl;
        self.qat = self.qat + fr.slices.len();
        self.rat = self.rat + 1 + 2 * loaded.len();
        if keep {
            let f = PoolFrame::new(&now);
            let ghost before = self.pool@;
            self.pool.frames.push(f);
            assert(self.pool@ =~= before.push(f@));
        }
        self.prev = Some(now);
        proof {
            assert(self@.out =~= then->Ok_0.out);
            assert(self@ =~= then->Ok_0);
        }
        Ok(())
    }
}

/// Adds up the lengths of all frames.
fn total_length(table: &Vec<u8>, n: usize) -> (sum: u64)
    requires
        table@.len() == n * 12,
        n <= MAX_FRAMES,
    ensures
        sum == lengths(table@, n as int),
        sum <= 0x1_0000_0000 * n,
{
    let mut sum: u64 = 0;
    let mut i: usize = 0;
    while i < n
        invariant
            i <= n <= MAX_FRAMES,
            table@.len() == n * 12,
            sum == lengths(table@, i as int),
            sum <= 0x1_0000_0000 * i,
        decreases n - i,
    {
        sum = sum + read_le32(table, i * 12 + 8) as u64;
        i += 1;
    }
    sum
}

proof fn lemma_lengths(table: Seq<u8>, k: int, n: int)
    requires
        0 <= k <= n,
        12 * n <= table.len(),
    ensures
        0 <= lengths(table, k) <= lengths(table, n),
    decreases n,
{
    if n > 0 {
        if k < n {
            lemma_lengths(table, k, n - 1);
        } else {
            lemma_lengths(table, n - 1, n - 1);
        }
    }
}

fn fresh_bands<'a>(streams: &Vec<&'a [u8]>) -> (bands: Vec<ReadBand<'a>>)
    requires
        streams@.len() == STREAMS,
    ensures
        bands_wf(bands@),
        bands_of(bands@) == Seq::new(
            STREAMS as nat,
            |b: int| (Lore::fresh(), Reading::start(crate::streams::contents(streams@)[b])),
        ),
{
    let ghost ss = crate::streams::contents(streams@);
    let mut bands: Vec<ReadBand<'a>> = Vec::new();
    let mut b: usize = 0;
    while b < STREAMS
        invariant
            b <= STREAMS,
            streams@.len() == STREAMS,
            ss == crate::streams::contents(streams@),
            bands@.len() == b,
            forall|k: int|
                0 <= k < b ==> (#[trigger] bands@[k]).models.wf() && bands@[k].dec@.wf() && bands@[k]@ == (
                    Lore::fresh(),
                    Reading::start(ss[k]),
                ),
        decreases STREAMS - b,
    {
        assert(streams@[b as int]@ == ss[b as int]);
        bands.push(ReadBand { models: ResidualModels::new(), dec: Dec::new(streams[b]) });
        b += 1;
    }
    assert(bands_of(bands@) =~= Seq::new(
        STREAMS as nat,
        |b: int| (Lore::fresh(), Reading::start(ss[b])),
    ));
    bands
}

/// Reads the parts of a record, and gets ready for its first frame.
fn begin<'a>(data: &'a [u8], n: usize) -> (r: Result<(Vec<Vec<u8>>, Desk<'a>), String>)
    requires
        1 <= n <= MAX_FRAMES,
        crate::source_record::count_of(data@) == Ok::<int, Seq<char>>(n as int),
        data.len() >= 12,
    ensures
        match r {
            Ok((p, d)) => begun(data@) == Ok::<(Seq<Seq<u8>>, Leaf), Seq<char>>(
                (crate::prores_bits::each(p@), d@),
            ),
            Err(e) => begun(data@) == Err::<(Seq<Seq<u8>>, Leaf), Seq<char>>(e@),
        },
        r matches Ok((p, d)) ==> d.wf(p@, n as int) && d.out@.len() == 0 && d.sk == 0 && p@[0]@.len()
            + lengths(p@[1]@, n as int) <= MAX_OUTPUT,
{
    reveal(begun);
    let x = open_parts(data, n);
    let (p, mut_at) = x?;
    let mut at: usize = mut_at;
    let ghost q = crate::prores_bits::each(p@);
    assert(q[0] == p@[0]@ && q[1] == p@[1]@);
    let pictures = get_section(data, &mut at)?;
    let errors = get_section(data, &mut at)?;
    if at != data.len() || p[1].len() != n * 12 {
        return Err(fail("invalid source record"));
    }
    assert(p@[0]@.len() <= crate::source_record::room(n as int, 0));
    if p[0].len() as u64 + total_length(&p[1], n) > MAX_OUTPUT as u64 {
        return Err(fail("source record output too large"));
    }
    let dec = Decoder::new(pictures)?;
    let streams = part(errors, "truncated residual stream", "invalid residual stream")?;
    let ghost ss = crate::streams::contents(streams@);
    let bands = fresh_bands(&streams);
    let d = Desk {
        out: Vec::new(),
        sk: 0,
        hat: 0,
        qat: 0,
        rat: 0,
        dec,
        bands,
        prev: None,
        pool: Pool { frames: Vec::new() },
    };
    proof {
        assert(d@.pool =~= Seq::empty());
        assert(d@.bands =~= first_leaf(dec@, ss).bands);
        assert(d@ =~= first_leaf(dec@, ss));
        assert forall|i: int| 0 <= i < 5 implies (#[trigger] p@[i]).len() <= 0x1_0000_0000 by {
            assert(p@[i]@.len() <= crate::source_record::room(n as int, i));
        }
    }
    Ok((p, d))
}

/// Whether a painter was asked about frame number `i`, after those before it were read.
pub open spec fn read_at<P: Painter>(
    p: Seq<Seq<u8>>,
    pool: Seq<Kept>,
    keep: bool,
    start: Leaf,
    es: Seq<Expectation>,
    ps: Seq<P>,
    i: int,
) -> bool {
    leaf(p, pool, keep, start, es, i) is Ok && leaf_asked(
        p,
        pool,
        leaf(p, pool, keep, start, es, i)->Ok_0,
        i,
        es[i],
        ps[i],
        ps[i + 1],
    )
}

/// Whether a painter was asked about the first of `n` frames, one after the other, and was as `ps` says before,
/// between and after.
pub open spec fn all_read<P: Painter>(
    p: Seq<Seq<u8>>,
    pool: Seq<Kept>,
    keep: bool,
    start: Leaf,
    es: Seq<Expectation>,
    ps: Seq<P>,
    n: int,
    before: P,
    after: P,
) -> bool {
    &&& es.len() <= n
    &&& ps.len() == es.len() + 1
    &&& ps[0] == before
    &&& ps.last() == after
    &&& forall|i: int| 0 <= i < es.len() ==> #[trigger] read_at(p, pool, keep, start, es, ps, i)
}

proof fn lemma_read_more<P: Painter>(
    p: Seq<Seq<u8>>,
    pool: Seq<Kept>,
    keep: bool,
    start: Leaf,
    es: Seq<Expectation>,
    ps: Seq<P>,
    n: int,
    before: P,
    mid: P,
    e: Expectation,
    after: P,
)
    requires
        all_read(p, pool, keep, start, es, ps, n, before, mid),
        es.len() < n,
        leaf(p, pool, keep, start, es, es.len() as int) matches Ok(s) && leaf_asked(
            p,
            pool,
            s,
            es.len() as int,
            e,
            mid,
            after,
        ),
    ensures
        all_read(p, pool, keep, start, es.push(e), ps.push(after), n, before, after),
{
    let (m, q) = (es.push(e), ps.push(after));
    assert forall|i: int| 0 <= i < m.len() implies #[trigger] read_at(p, pool, keep, start, m, q, i) by {
        lemma_leaf_alike(p, pool, keep, start, es, m, i);
        if i < es.len() {
            assert(read_at(p, pool, keep, start, es, ps, i));
            assert(m[i] == es[i] && q[i] == ps[i] && q[i + 1] == ps[i + 1]);
        } else {
            assert(q[i] == ps.last());
        }
    }
}

/// Whether this came of reading the frames of a record, where `gs` is what the first pictures let expect.
spec fn read_all(
    p: Seq<Seq<u8>>,
    pool: Seq<Kept>,
    keep: bool,
    start: Leaf,
    gs: Seq<Expectation>,
    n: int,
    stopped: bool,
    r: Result<(), String>,
    end: Leaf,
) -> bool {
    match r {
        Ok(_) => gs.len() == n && !stopped && leaf(p, pool, keep, start, gs, n) == Ok::<Leaf, Seq<char>>(end),
        Err(e) => Err::<Leaf, Seq<char>>(e@) == crate::wire::unless(
            stopped,
            leaf(p, pool, keep, start, gs, n),
        ) && (!stopped ==> gs.len() == n || leaf(p, pool, keep, start, gs, gs.len() as int) is Err),
    }
}

/// Reads all frames of a record.
fn read_frames<M: Monitor, P: Painter>(
    p: &Vec<Vec<u8>>,
    n: usize,
    desk: &mut Desk<'_>,
    pool: &Pool,
    keep: bool,
    painter: &mut P,
    progress: &mut M,
) -> (r: Result<(), String>)
    requires
        old(desk).wf(p@, n as int),
        old(desk).out@.len() == 0,
        old(desk).sk == 0,
        n <= MAX_FRAMES,
        pool.wf(),
        p@[0]@.len() + lengths(p@[1]@, n as int) <= MAX_OUTPUT,
        !old(progress).stopped(),
    ensures
        exists|gs: Seq<Expectation>, ps: Seq<P>| #[trigger]
            all_read(
                crate::prores_bits::each(p@),
                pool@,
                keep,
                old(desk)@,
                gs,
                ps,
                n as int,
                *old(painter),
                *final(painter),
            ) && read_all(
                crate::prores_bits::each(p@),
                pool@,
                keep,
                old(desk)@,
                gs,
                n as int,
                final(progress).stopped(),
                r,
                final(desk)@,
            ),
        r is Ok ==> final(desk).wf(p@, n as int),
        n > 0 && crate::monitor::refuses(*old(progress)) ==> r is Err,
{
    let ghost q = crate::prores_bits::each(p@);
    let ghost start = desk@;
    let ghost mut gs = Seq::<Expectation>::empty();
    let ghost mut ps = seq![*painter];
    let total: u64 = p[0].len() as u64 + total_length(&p[1], n);
    let mut fi: usize = 0;
    while fi < n
        invariant
            fi <= n <= MAX_FRAMES,
            pool.wf(),
            q == crate::prores_bits::each(p@),
            start == old(desk)@,
            desk.wf(p@, n as int),
            desk.out@.len() == desk.sk + lengths(p@[1]@, fi as int),
            total == p@[0]@.len() + lengths(p@[1]@, n as int),
            gs.len() == fi,
            all_read(q, pool@, keep, start, gs, ps, n as int, *old(painter), *painter),
            leaf(q, pool@, keep, start, gs, fi as int) == Ok::<Leaf, Seq<char>>(desk@),
            !progress.stopped(),
            fi == 0 ==> *progress == *old(progress),
            fi > 0 ==> !crate::monitor::refuses(*old(progress)),
        decreases n - fi,
    {
        let ghost before = gs;
        let ghost then = desk@;
        let ghost asking = *painter;
        let x = desk.add_frame(p, n, fi, pool, keep, painter);
        proof {
            let g = choose|g: Expectation|
                (match x {
                    Ok(_) => leafed(q, pool@, keep, then, fi as int, g) == Ok::<Leaf, Seq<char>>(desk@),
                    Err(e) => leafed(q, pool@, keep, then, fi as int, g) == Err::<Leaf, Seq<char>>(e@),
                }) && #[trigger] leaf_asked(q, pool@, then, fi as int, g, asking, *painter);
            lemma_read_more(
                q,
                pool@,
                keep,
                start,
                gs,
                ps,
                n as int,
                *old(painter),
                asking,
                g,
                *painter,
            );
            gs = gs.push(g);
            ps = ps.push(*painter);
            lemma_leaf_alike(q, pool@, keep, start, before, gs, fi as int);
            if x is Err {
                lemma_leaf_fails(q, pool@, keep, start, gs, fi + 1, n as int);
            } else {
                lemma_lengths(p@[1]@, fi + 1, n as int);
            }
        }
        x?;
        let ghost asked = *progress;
        if !progress.report(desk.out.len() as u64, total) {
            return Err(fail("error.cancelled"));
        }
        proof {
            if fi == 0 {
                crate::monitor::lemma_agreed(asked, desk.out@.len() as u64, total, *progress);
            }
        }
        fi += 1;
    }
    Ok(())
}

/// Ends a movie.
fn close(desk: Desk<'_>, p: &Vec<Vec<u8>>, Ghost(n): Ghost<int>) -> (r: Result<(Vec<u8>, Pool), String>)
    requires
        desk.wf(p@, n),
    ensures
        outcome(r) == closed(crate::prores_bits::each(p@), desk@),
        r matches Ok((_, p)) ==> p.wf(),
{
    let ghost q = crate::prores_bits::each(p@);
    assert(q[0] == p@[0]@ && q[2] == p@[2]@ && q[3] == p@[3]@ && q[4] == p@[4]@);
    if desk.qat != p[3].len() || desk.hat != p[2].len() || desk.rat != p[4].len() {
        return Err(fail("invalid source record"));
    }
    let ghost s = desk@;
    let Desk { out, sk, hat: _, qat: _, rat: _, dec: _, bands: _, prev: _, pool } = desk;
    let mut out = out;
    out.extend_from_slice(&p[0].as_slice()[sk..p[0].len()]);
    assert(out@ =~= s.out + q[0].subrange(s.sk, q[0].len() as int));
    assert(pool@ == s.pool);
    Ok((out, pool))
}

/// Whether a painter was asked what the pictures of a record let expect while it was decoded, answered as `es`
/// says, and is then as `after` is. It is asked about all pictures, but for those behind one that fails or at
/// which decoding was stopped.
pub open spec fn read_so<P: Painter>(
    data: Seq<u8>,
    pool: Seq<Kept>,
    keep: bool,
    es: Seq<Expectation>,
    before: P,
    after: P,
    stopped: bool,
) -> bool {
    match begun(data) {
        Err(_) => before == after,
        Ok((p, start)) => {
            let n = crate::source_record::count_of(data)->Ok_0;
            &&& exists|ps: Seq<P>| #[trigger] all_read(p, pool, keep, start, es, ps, n, before, after)
            &&& !stopped && es.len() < n ==> leaf(p, pool, keep, start, es, es.len() as int) is Err
        },
    }
}

/// Decodes a record. Its frames may be compared with kept ones of another movie, and may be kept
/// themselves.
pub fn decode<M: Monitor, P: Painter>(
    data: &[u8],
    pool: &Pool,
    keep_pool: bool,
    painter: &mut P,
    progress: &mut M,
) -> (r: Result<(Vec<u8>, Pool), String>)
    requires
        pool.wf(),
        !old(progress).stopped(),
    ensures
        exists|es: Seq<Expectation>|
            outcome(r) == crate::wire::unless(
                final(progress).stopped(),
                restored(data@, pool@, keep_pool, es),
            ) && #[trigger] read_so(
                data@,
                pool@,
                keep_pool,
                es,
                *old(painter),
                *final(painter),
                final(progress).stopped(),
            ),
        r matches Ok((_, p)) ==> p.wf(),
        crate::monitor::refuses(*old(progress)) ==> r is Err,
{
    reveal(begun);
    let ghost none = Seq::<Expectation>::empty();
    let x = read_count(data);
    assert(x is Err ==> read_so(data@, pool@, keep_pool, none, *painter, *painter, progress.stopped()));
    let n = x?;
    let x = begin(data, n);
    assert(x is Err ==> read_so(data@, pool@, keep_pool, none, *painter, *painter, progress.stopped()));
    let (p, first) = x?;
    let mut desk = first;
    let ghost q = crate::prores_bits::each(p@);
    let ghost start = desk@;
    let x = read_frames(&p, n, &mut desk, pool, keep_pool, painter, progress);
    let ghost (gs, ps) = choose|gs: Seq<Expectation>, ps: Seq<P>| #[trigger]
        all_read(q, pool@, keep_pool, start, gs, ps, n as int, *old(painter), *painter) && read_all(
            q,
            pool@,
            keep_pool,
            start,
            gs,
            n as int,
            progress.stopped(),
            x,
            desk@,
        );
    assert(read_so(data@, pool@, keep_pool, gs, *old(painter), *painter, progress.stopped()));
    x?;
    close(desk, &p, Ghost(n as int))
}

proof fn lemma_names_are_part(data: Seq<u8>, n: int)
    requires
        crate::source_record::count_of(data) == Ok::<int, Seq<char>>(n),
        crate::source_record::opened(data, n, 5) is Ok,
    ensures
        crate::source_record::names_in(data) == Ok::<Seq<u8>, Seq<char>>(
            crate::source_record::opened(data, n, 5)->Ok_0[4],
        ),
{
    reveal_with_fuel(crate::source_record::opened, 6);
    let done = crate::source_record::opened(data, n, 4)->Ok_0;
    assert(done.len() == 4);
}

/// Whether kept frames are the same, or no frame names any.
spec fn same_kept(p: Seq<Seq<u8>>, a: Seq<Kept>, b: Seq<Kept>) -> bool {
    a == b || forall|i: int| 0 <= i < p[4].len() ==> #[trigger] p[4][i] == 0
}

/// Steady painters let the same be read.
proof fn lemma_leaf_same<P: Painter>(
    p: Seq<Seq<u8>>,
    a: Seq<Kept>,
    b: Seq<Kept>,
    keep: bool,
    start: Leaf,
    es: Seq<Expectation>,
    fs: Seq<Expectation>,
    ps: Seq<P>,
    qs: Seq<P>,
    k: int,
)
    requires
        crate::source_frames::steady::<P>(),
        same_kept(p, a, b),
        start.rat >= 0,
        0 <= k <= es.len(),
        k <= fs.len(),
        forall|i: int| 0 <= i < es.len() ==> #[trigger] read_at(p, a, keep, start, es, ps, i),
        forall|i: int| 0 <= i < fs.len() ==> #[trigger] read_at(p, b, keep, start, fs, qs, i),
    ensures
        leaf(p, a, keep, start, es, k) == leaf(p, b, keep, start, fs, k),
        leaf(p, a, keep, start, es, k) matches Ok(s) ==> s.rat >= 0,
    decreases k,
{
    if k > 0 {
        lemma_leaf_same(p, a, b, keep, start, es, fs, ps, qs, k - 1);
        assert(read_at(p, a, keep, start, es, ps, k - 1));
        assert(read_at(p, b, keep, start, fs, qs, k - 1));
        let s = leaf(p, a, keep, start, es, k - 1)->Ok_0;
        assert(references(p[4], s.rat, a) == references(p[4], s.rat, b)) by {
            reveal(references);
        }
        if let Ok(o) = opening(p, s, k - 1) {
            if let Ok(loaded) = references(p[4], s.rat, a) {
                reveal(crate::source_frames::steady);
                let picture = crate::source_codec::decoded(
                    s.dec,
                    crate::source_encode::width_of(o.fr),
                    crate::source_encode::height_of(o.fr),
                    crate::source_encode::pictures(loaded),
                ).0;
                assert(crate::source_frames::expects_alike(
                    ps[k - 1],
                    qs[k - 1],
                    picture,
                    o.fr,
                    o.fr,
                    quantized(o.fr, o.qs, o.fr.slices.len() as int),
                    es[k - 1],
                    fs[k - 1],
                    ps[k],
                    qs[k],
                ));
            }
        }
    }
}

/// Decoding a record twice gives the same, with painters that are steady: beside the same kept frames, and beside
/// any where it names none.
pub proof fn law_decoding_again_gives_the_same<P: Painter>(
    data: Seq<u8>,
    a: Seq<Kept>,
    b: Seq<Kept>,
    keep: bool,
    es: Seq<Expectation>,
    a0: P,
    a1: P,
    fs: Seq<Expectation>,
    b0: P,
    b1: P,
)
    requires
        crate::source_frames::steady::<P>(),
        a == b || crate::source_record::named(data) == Ok::<bool, Seq<char>>(false),
        read_so(data, a, keep, es, a0, a1, false),
        read_so(data, b, keep, fs, b0, b1, false),
    ensures
        restored(data, a, keep, es) == restored(data, b, keep, fs),
{
    if let Ok((p, start)) = begun(data) {
        let n = crate::source_record::count_of(data)->Ok_0;
        assert(start.rat == 0 && same_kept(p, a, b)) by {
            reveal(begun);
            lemma_names_are_part(data, n);
        }
        let ps = choose|ps: Seq<P>| #[trigger] all_read(p, a, keep, start, es, ps, n, a0, a1);
        let qs = choose|qs: Seq<P>| #[trigger] all_read(p, b, keep, start, fs, qs, n, b0, b1);
        let m = if es.len() < fs.len() {
            es.len() as int
        } else {
            fs.len() as int
        };
        lemma_leaf_same(p, a, b, keep, start, es, fs, ps, qs, m);
        if m < n {
            lemma_leaf_fails(p, a, keep, start, es, m, n);
            lemma_leaf_fails(p, b, keep, start, fs, m, n);
        }
    }
}

}
