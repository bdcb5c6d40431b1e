//! Movies as records of pictures and errors: the pictures are coded by a video codec, and the errors
//! are what the coefficients of the movie differ by from what the pictures let expect.

use crate::compression::pack;
use crate::monitor::Monitor;
use crate::prores_frame::{frames, Contents, Frame};
use crate::source_encode::{analyse, Draft, Press, Sketch};
use crate::source_frames::{Painter, Sight};
use crate::source_pool::{Kept, Pool, PoolFrame};
use crate::source_record::{put_section, MAGIC, MAX_FRAMES, MAX_OUTPUT};
use crate::source_residual::Band;
use crate::streams::{bundle, STREAMS};
use crate::wire::{fail, put_le, Outcome};
use vstd::prelude::*;

verus! {

/// A movie without its frames: what lies between them, how far they are apart and how long, their
/// heads, and how strongly their slices are quantized.
#[verifier::ext_equal]
pub struct Outline {
    pub at: int,
    pub skeleton: Seq<u8>,
    pub table: Seq<u8>,
    pub heads: Seq<u8>,
    pub qscales: Seq<u8>,
}

/// How strongly the slices of a frame are quantized.
pub open spec fn scales(fr: Contents) -> Seq<u8> {
    Seq::new(fr.slices.len(), |i: int| fr.slices[i].qscale)
}

/// What is around the first `k` frames of a movie.
pub open spec fn outlined(raw: Seq<u8>, all: Seq<Contents>, k: int) -> Outcome<Outline>
    decreases k,
{
    if k <= 0 {
        Ok(
            Outline {
                at: 0,
                skeleton: Seq::empty(),
                table: Seq::empty(),
                heads: Seq::empty(),
                qscales: Seq::empty(),
            },
        )
    } else {
        match outlined(raw, all, k - 1) {
            Err(e) => Err(e),
            Ok(o) => {
                let f = all[k - 1];
                if f.offset < o.at {
                    Err("overlapping ProRes frames"@)
                } else {
                    Ok(
                        Outline {
                            at: f.offset + f.len,
                            skeleton: o.skeleton + raw.subrange(o.at, f.offset),
                            table: o.table + crate::wire::le_bytes(f.offset - o.at, 8)
                                + crate::wire::le_bytes(f.len, 4),
                            heads: o.heads + crate::wire::le_bytes(f.head_len, 2) + raw.subrange(
                                f.offset,
                                f.offset + f.head_len,
                            ),
                            qscales: o.qscales + scales(f),
                        },
                    )
                }
            },
        }
    }
}

proof fn lemma_outline_fails(raw: Seq<u8>, all: Seq<Contents>, k: int, m: int)
    requires
        0 <= k <= m,
        outlined(raw, all, k) is Err,
    ensures
        outlined(raw, all, m) == outlined(raw, all, k),
    decreases m - k,
{
    if k < m {
        lemma_outline_fails(raw, all, k + 1, m);
    }
}

/// Frames that follow each other without overlap.
spec fn apart(v: Seq<Frame>) -> bool {
    forall|i: int, j: int|
        0 <= i < j < v.len() && j == i + 1 ==> (#[trigger] v[i]).offset + v[i].len <= (
        #[trigger] v[j]).offset
}

/// The five parts of a movie that are compressed, but for the last, which names kept frames.
struct Parts {
    at: usize,
    skeleton: Vec<u8>,
    table: Vec<u8>,
    heads: Vec<u8>,
    qscales: Vec<u8>,
}

impl View for Parts {
    type V = Outline;

    closed spec fn view(&self) -> Outline {
        Outline {
            at: self.at as int,
            skeleton: self.skeleton@,
            table: self.table@,
            heads: self.heads@,
            qscales: self.qscales@,
        }
    }
}

fn put_scales(out: &mut Vec<u8>, fr: &Frame)
    ensures
        final(out)@ == old(out)@ + scales(fr@),
{
    let ghost start = out@;
    let mut i: usize = 0;
    while i < fr.slices.len()
        invariant
            i <= fr.slices.len(),
            out@ == start + scales(fr@).take(i as int),
        decreases fr.slices.len() - i,
    {
        out.push(fr.slices[i].qscale);
        assert(out@ =~= start + scales(fr@).take(i + 1));
        i += 1;
    }
    assert(scales(fr@).take(i as int) =~= scales(fr@));
}

/// Takes a movie apart.
fn outline(raw: &[u8], all: &Vec<Frame>) -> (r: Result<Parts, String>)
    requires
        crate::prores_frame::all_in(all@, raw.len() as int),
    ensures
        match r {
            Ok(p) => outlined(raw@, crate::prores_frame::views(all@), all@.len() as int) == Ok::<
                Outline,
                Seq<char>,
            >(p@) && apart(all@) && p.at <= raw.len(),
            Err(e) => outlined(raw@, crate::prores_frame::views(all@), all@.len() as int) == Err::<
                Outline,
                Seq<char>,
            >(e@),
        },
{
    let ghost v = crate::prores_frame::views(all@);
    let mut p = Parts {
        at: 0,
        skeleton: Vec::new(),
        table: Vec::new(),
        heads: Vec::new(),
        qscales: Vec::new(),
    };
    let mut k: usize = 0;
    assert(p@ =~= outlined(raw@, v, 0)->Ok_0);
    while k < all.len()
        invariant
            k <= all.len(),
            v == crate::prores_frame::views(all@),
            crate::prores_frame::all_in(all@, raw.len() as int),
            p.at <= raw.len(),
            k > 0 ==> p.at == all@[k - 1].offset + all@[k - 1].len,
            forall|i: int, j: int|
                0 <= i < j < k && j == i + 1 ==> (#[trigger] all@[i]).offset + all@[i].len <= (
                #[trigger] all@[j]).offset,
            outlined(raw@, v, k as int) == Ok::<Outline, Seq<char>>(p@),
        decreases all.len() - k,
    {
        let f = &all[k];
        assert(all@[k as int].offset + all@[k as int].len <= raw.len());
        assert(f@ == v[k as int]);
        if f.offset < p.at {
            proof {
                lemma_outline_fails(raw@, v, k + 1, all@.len() as int);
            }
            return Err(fail("overlapping ProRes frames"));
        }
        let ghost before = p@;
        p.skeleton.extend_from_slice(&raw[p.at..f.offset]);
        put_le((f.offset - p.at) as u64, 8, &mut p.table);
        put_le(f.len as u64, 4, &mut p.table);
        put_le(f.head_len as u64, 2, &mut p.heads);
        p.heads.extend_from_slice(&raw[f.offset..f.offset + f.head_len]);
        put_scales(&mut p.qscales, f);
        p.at = f.offset + f.len;
        assert(p@ =~= outlined(raw@, v, k + 1)->Ok_0);
        k += 1;
    }
    Ok(p)
}

/// What compressing the first `k` of some parts yielded.
pub open spec fn all_packed(ps: Seq<Outcome<Seq<u8>>>, k: int) -> Outcome<Seq<Seq<u8>>>
    decreases k,
{
    if k <= 0 {
        Ok(Seq::empty())
    } else {
        match all_packed(ps, k - 1) {
            Err(e) => Err(e),
            Ok(done) => match ps[k - 1] {
                Err(e) => Err(e),
                Ok(b) => Ok(done.push(b)),
            },
        }
    }
}

/// What compressing parts yields.
pub open spec fn packed_parts(parts: Seq<Seq<u8>>) -> Seq<Outcome<Seq<u8>>> {
    Seq::new(parts.len(), |k: int| crate::compression::packed(parts[k], 19))
}

/// Whether each part that was compressed expands again.
pub open spec fn parts_come_back(parts: Seq<Seq<u8>>) -> bool {
    forall|k: int|
        0 <= k < parts.len() ==> (#[trigger] packed_parts(parts)[k] matches Ok(b)
            ==> crate::compression::gives_back(b, parts[k]))
}

proof fn lemma_packed_fails(ps: Seq<Outcome<Seq<u8>>>, k: int, m: int)
    requires
        0 <= k <= m,
        all_packed(ps, k) is Err,
    ensures
        all_packed(ps, m) == all_packed(ps, k),
    decreases m - k,
{
    if k < m {
        lemma_packed_fails(ps, k + 1, m);
    }
}

/// What came of compressing parts.
pub open spec fn outcomes(v: Seq<Result<Vec<u8>, String>>) -> Seq<Outcome<Seq<u8>>> {
    Seq::new(v.len(), |k: int| crate::wire::bytes_of(v[k]))
}

/// Compresses parts.
fn pack_all(parts: &Vec<Vec<u8>>) -> (v: Vec<Result<Vec<u8>, String>>)
    ensures
        outcomes(v@) == packed_parts(crate::prores_bits::each(parts@)),
        parts_come_back(crate::prores_bits::each(parts@)),
{
    let ghost all = crate::prores_bits::each(parts@);
    let mut v: Vec<Result<Vec<u8>, String>> = Vec::new();
    let mut k: usize = 0;
    while k < parts.len()
        invariant
            k <= parts.len(),
            all == crate::prores_bits::each(parts@),
            v@.len() == k,
            forall|i: int|
                0 <= i < k ==> #[trigger] crate::wire::bytes_of(v@[i]) == crate::compression::packed(all[i], 19),
            forall|i: int|
                0 <= i < k ==> (#[trigger] packed_parts(all)[i] matches Ok(b)
                    ==> crate::compression::gives_back(b, all[i])),
        decreases parts.len() - k,
    {
        let x = pack(&parts[k], 19);
        assert(all[k as int] == parts@[k as int]@);
        assert(packed_parts(all)[k as int] == crate::wire::bytes_of(x));
        v.push(x);
        k += 1;
    }
    assert(outcomes(v@) =~= packed_parts(all)) by {
        assert forall|i: int| 0 <= i < all.len() implies outcomes(v@)[i] == packed_parts(all)[i] by {
            assert(outcomes(v@)[i] == crate::wire::bytes_of(v@[i]));
        }
    }
    v
}

/// Takes what compressing parts yielded, if all of it succeeded.
fn take_all(packed: Vec<Result<Vec<u8>, String>>) -> (r: Result<Vec<Vec<u8>>, String>)
    ensures
        match r {
            Ok(v) => all_packed(outcomes(packed@), packed@.len() as int) == Ok::<Seq<Seq<u8>>, Seq<char>>(
                crate::prores_bits::each(v@),
            ) && v@.len() == packed@.len(),
            Err(e) => all_packed(outcomes(packed@), packed@.len() as int) == Err::<
                Seq<Seq<u8>>,
                Seq<char>,
            >(e@),
        },
{
    let ghost ps = outcomes(packed@);
    let ghost whole = packed@;
    let mut left = packed;
    let mut out: Vec<Vec<u8>> = Vec::new();
    assert(crate::prores_bits::each(out@) =~= Seq::empty());
    assert(left@ =~= whole.skip(0));
    while left.len() > 0
        invariant
            whole == packed@,
            ps == outcomes(whole),
            out@.len() + left@.len() == whole.len(),
            left@ == whole.skip(out@.len() as int),
            all_packed(ps, out@.len() as int) == Ok::<Seq<Seq<u8>>, Seq<char>>(
                crate::prores_bits::each(out@),
            ),
        decreases left.len(),
    {
        let ghost k = out@.len() as int;
        let ghost done = crate::prores_bits::each(out@);
        let x = left.remove(0);
        assert(left@ =~= whole.skip(k + 1));
        assert(ps[k] == crate::wire::bytes_of(x));
        proof {
            if x is Err {
                lemma_packed_fails(ps, k + 1, whole.len() as int);
            }
        }
        let b = x?;
        out.push(b);
        assert(crate::prores_bits::each(out@) =~= done.push(b@));
    }
    Ok(out)
}

/// The parts of a movie that are compressed.
pub open spec fn parts_of(raw: Seq<u8>, o: Outline, d: Draft) -> Seq<Seq<u8>> {
    seq![o.skeleton + raw.subrange(o.at, raw.len() as int), o.table, o.heads, o.qscales, d.refs]
}

/// A record.
pub open spec fn record(n: int, packed: Seq<Seq<u8>>, d: Draft) -> Seq<u8> {
    MAGIC@ + crate::wire::le_bytes(n, 4) + crate::source_record::section(packed[0])
        + crate::source_record::section(packed[1]) + crate::source_record::section(packed[2])
        + crate::source_record::section(packed[3]) + crate::source_record::section(packed[4])
        + crate::source_record::section(crate::source_codec::finished(d.coding))
        + crate::source_record::section(
        crate::streams::bundled(Seq::new(d.bands.len(), |b: int| d.bands[b].1.finish())),
    )
}

/// Whether a movie has frames that can be encoded.
pub open spec fn suitable(raw: Seq<u8>) -> bool {
    let n = crate::prores_frame::frames_of(raw).len();
    1 <= n <= MAX_FRAMES && raw.len() <= MAX_OUTPUT
}

/// The record of a movie, where `made` is what a painter makes of its frames.
pub open spec fn encoded(raw: Seq<u8>, pool: Seq<Kept>, light: bool, made: Seq<Sketch>) -> Outcome<Seq<u8>> {
    let all = crate::prores_frame::frames_of(raw);
    let n = all.len() as int;
    if !suitable(raw) {
        Err("no supported ProRes frames"@)
    } else {
        match outlined(raw, all, n) {
            Err(e) => Err(e),
            Ok(outline) => match crate::source_encode::draft(raw, pool, light, all, made, n) {
                Err(e) => Err(e),
                Ok(d) => sealed(n, packed_parts(parts_of(raw, outline, d)), d),
            },
        }
    }
}

/// Whether each compressed part of the record of a movie expands again.
pub open spec fn record_comes_back(raw: Seq<u8>, pool: Seq<Kept>, light: bool, made: Seq<Sketch>) -> bool {
    let all = crate::prores_frame::frames_of(raw);
    let n = all.len() as int;
    outlined(raw, all, n) matches Ok(outline) ==> {
        crate::source_encode::draft(raw, pool, light, all, made, n) matches Ok(d) ==> parts_come_back(
            parts_of(raw, outline, d),
        )
    }
}

/// Ends the streams of all bands.
fn finish_bands(bands: Vec<Band>, Ghost(most): Ghost<int>) -> (out: Vec<u8>)
    requires
        crate::source_encode::bands_wf(bands@, most),
        most < 0x7000_0000_0000_0000,
    ensures
        out@ == crate::streams::bundled(
            Seq::new(bands@.len(), |b: int| crate::source_encode::bands_of(bands@)[b].1.finish()),
        ),
{
    let ghost whole = bands@;
    let mut left = bands;
    let mut parts: Vec<Vec<u8>> = Vec::new();
    while left.len() > 0
        invariant
            whole == bands@,
            left@.len() + parts@.len() == STREAMS,
            crate::source_encode::bands_wf(whole, most),
            most < 0x7000_0000_0000_0000,
            left@ == whole.skip(parts@.len() as int),
            forall|k: int| 0 <= k < parts@.len() ==> (#[trigger] parts@[k])@ == whole[k].enc@.finish(),
        decreases left.len(),
    {
        let band = left.remove(0);
        assert(band == whole[parts@.len() as int]);
        parts.push(band.enc.finish());
        assert(left@ =~= whole.skip(parts@.len() as int));
    }
    assert(crate::prores_bits::each(parts@) =~= Seq::new(
        whole.len(),
        |b: int| crate::source_encode::bands_of(whole)[b].1.finish(),
    ));
    bundle(&parts)
}

/// Whether this came of writing the frames of a movie, where `gs` is what a painter made of the first of them.
spec fn drafted_all(
    raw: Seq<u8>,
    pool: Seq<Kept>,
    light: bool,
    all: Seq<Contents>,
    gs: Seq<Sketch>,
    stopped: bool,
    r: Result<Press, String>,
) -> bool {
    let n = all.len() as int;
    match r {
        Ok(p) => gs.len() == n && !stopped && crate::source_encode::draft(raw, pool, light, all, gs, n) == Ok::<
            Draft,
            Seq<char>,
        >(p@),
        Err(e) => Err::<Draft, Seq<char>>(e@) == crate::wire::unless(
            stopped,
            crate::source_encode::draft(raw, pool, light, all, gs, n),
        ) && (!stopped ==> gs.len() == n || crate::source_encode::draft(
            raw,
            pool,
            light,
            all,
            gs,
            gs.len() as int,
        ) is Err),
    }
}

/// Writes all frames of a movie.
fn write_frames<M: Monitor, P: Painter>(
    raw: &[u8],
    all: &Vec<Frame>,
    pool: &Pool,
    light: bool,
    painter: &mut P,
    progress: &mut M,
) -> (r: Result<Press, String>)
    requires
        all@.len() <= MAX_FRAMES,
        crate::prores_frame::all_wf(all@),
        crate::prores_frame::all_in(all@, raw.len() as int),
        apart(all@),
        pool.wf(),
        !old(progress).stopped(),
    ensures
        exists|gs: Seq<Sketch>, ps: Seq<P>| #[trigger]
            crate::source_encode::all_asked(
                raw@,
                crate::prores_frame::views(all@),
                gs,
                ps,
                *old(painter),
                *final(painter),
            ) && drafted_all(
                raw@,
                pool@,
                light,
                crate::prores_frame::views(all@),
                gs,
                final(progress).stopped(),
                r,
            ),
        r matches Ok(p) ==> p.wf(all@.len() as int),
        all@.len() > 0 && crate::monitor::refuses(*old(progress)) ==> r is Err,
        all@.len() > 0 && r is Ok ==> crate::monitor::last_told(
            *final(progress),
            carried(crate::prores_frame::views(all@), all@.len() as int) as u64,
            raw@.len() as u64,
        ),
{
    let ghost v = crate::prores_frame::views(all@);
    let ghost mut gs = Seq::<Sketch>::empty();
    let ghost mut ps = seq![*painter];
    let mut press = Press::new(light);
    let mut done: u64 = 0;
    let mut k: usize = 0;
    while k < all.len()
        invariant
            k <= all.len() <= MAX_FRAMES,
            v == crate::prores_frame::views(all@),
            crate::prores_frame::all_wf(all@),
            crate::prores_frame::all_in(all@, raw.len() as int),
            apart(all@),
            pool.wf(),
            press.wf(k as int),
            k == 0 ==> done == 0,
            done == carried(v, k as int),
            k == 0 ==> *progress == *old(progress),
            k > 0 ==> !crate::monitor::refuses(*old(progress)) && crate::monitor::last_told(
                *progress,
                carried(v, k as int) as u64,
                raw@.len() as u64,
            ),
            k > 0 ==> done <= all@[k - 1].offset + all@[k - 1].len,
            gs.len() == k,
            crate::source_encode::all_asked(raw@, v, gs, ps, *old(painter), *painter),
            crate::source_encode::draft(raw@, pool@, light, v, gs, k as int) == Ok::<Draft, Seq<char>>(
                press@,
            ),
            !progress.stopped(),
        decreases all.len() - k,
    {
        let ghost before = gs;
        let ghost start = press@;
        assert(all@[k as int]@ == v[k as int]);
        assert(all@[k as int]@.wf());
        let ghost asking = *painter;
        let x = press.add_frame(raw, &all[k], pool, painter, Ghost(k as int));
        proof {
            let g = choose|g: Sketch|
                (match x {
                    Ok(_) => crate::source_encode::drafted(raw@, pool@, start, v[k as int], g) == Ok::<
                        Draft,
                        Seq<char>,
                    >(press@),
                    Err(e) => crate::source_encode::drafted(raw@, pool@, start, v[k as int], g) == Err::<
                        Draft,
                        Seq<char>,
                    >(e@),
                }) && #[trigger] crate::source_encode::frame_asked(raw@, v[k as int], g, asking, *painter);
            crate::source_encode::lemma_asked_more(raw@, v, gs, ps, *old(painter), asking, g, *painter);
            gs = gs.push(g);
            ps = ps.push(*painter);
            crate::source_encode::lemma_draft_alike(raw@, pool@, light, v, before, gs, k as int);
            if x is Err {
                crate::source_encode::lemma_draft_fails(
                    raw@,
                    pool@,
                    light,
                    v,
                    gs,
                    k + 1,
                    v.len() as int,
                );
            }
        }
        x?;
        assert(k > 0 ==> all@[k - 1].offset + all@[k - 1].len <= all@[k as int].offset);
        assert(all@[k as int].offset + all@[k as int].len <= raw.len());
        done = done + all[k].len as u64;
        let ghost asked = *progress;
        if !progress.report(done, raw.len() as u64) {
            return Err(fail("error.cancelled"));
        }
        proof {
            assert(asked.told(done, raw@.len() as u64, true, progress));
            assert(crate::monitor::last_told(*progress, done, raw@.len() as u64));
            if k == 0 {
                crate::monitor::lemma_agreed(asked, done, raw@.len() as u64, *progress);
            }
        }
        k += 1;
    }
    Ok(press)
}

/// The record of what was written.
pub open spec fn sealed(n: int, ps: Seq<Outcome<Seq<u8>>>, d: Draft) -> Outcome<Seq<u8>> {
    match all_packed(ps, 5) {
        Err(e) => Err(e),
        Ok(packed) => Ok(record(n, packed, d)),
    }
}

/// How many bytes the first `k` frames of a movie take up.
pub open spec fn carried(all: Seq<Contents>, k: int) -> int
    decreases k,
{
    if k <= 0 {
        0
    } else {
        carried(all, k - 1) + all[k - 1].len
    }
}

/// A record of `n` frames, where `ps` is what compressing its parts yielded, `codes` its codes and `bands`
/// its errors.
pub open spec fn written(n: int, ps: Seq<Outcome<Seq<u8>>>, codes: Seq<u8>, bands: Seq<u8>) -> Outcome<Seq<u8>> {
    match all_packed(ps, 5) {
        Err(e) => Err(e),
        Ok(packed) => Ok(
            MAGIC@ + crate::wire::le_bytes(n, 4) + crate::source_record::section(packed[0])
                + crate::source_record::section(packed[1]) + crate::source_record::section(packed[2])
                + crate::source_record::section(packed[3]) + crate::source_record::section(packed[4])
                + crate::source_record::section(codes) + crate::source_record::section(bands),
        ),
    }
}

/// Puts a record together from what compressing its five parts yielded, from its codes and its errors.
pub fn seal_packed(n: usize, packed: Vec<Result<Vec<u8>, String>>, codes: &Vec<u8>, bands: &Vec<u8>) -> (r: Result<
    Vec<u8>,
    String,
>)
    requires
        n <= MAX_FRAMES,
        packed@.len() == 5,
    ensures
        crate::wire::bytes_of(r) == written(n as int, outcomes(packed@), codes@, bands@),
{
    let ghost ps = outcomes(packed@);
    let packed = take_all(packed)?;
    let ghost small = crate::prores_bits::each(packed@);
    let mut out: Vec<u8> = Vec::new();
    out.extend_from_slice(&MAGIC);
    put_le(n as u64, 4, &mut out);
    put_section(&mut out, &packed[0]);
    put_section(&mut out, &packed[1]);
    put_section(&mut out, &packed[2]);
    put_section(&mut out, &packed[3]);
    put_section(&mut out, &packed[4]);
    assert(small[0] == packed@[0]@ && small[1] == packed@[1]@ && small[2] == packed@[2]@ && small[3]
        == packed@[3]@ && small[4] == packed@[4]@);
    put_section(&mut out, codes);
    put_section(&mut out, bands);
    assert(out@ =~= written(n as int, ps, codes@, bands@)->Ok_0);
    Ok(out)
}

/// Puts a record together.
fn seal(raw: &[u8], parts: Parts, press: Press, n: usize) -> (r: Result<Vec<u8>, String>)
    requires
        parts.at <= raw.len(),
        n <= MAX_FRAMES,
        press.wf(n as int),
    ensures
        crate::wire::bytes_of(r) == sealed(
            n as int,
            packed_parts(parts_of(raw@, parts@, press@)),
            press@,
        ),
        parts_come_back(parts_of(raw@, parts@, press@)),
{
    let ghost d = press@;
    let ghost outline = parts@;
    let mut list: Vec<Vec<u8>> = Vec::new();
    let Parts { at, skeleton, table, heads, qscales } = parts;
    let mut skeleton = skeleton;
    skeleton.extend_from_slice(&raw[at..raw.len()]);
    list.push(skeleton);
    list.push(table);
    list.push(heads);
    list.push(qscales);
    let Press { refs, coder, bands, prev: _ } = press;
    list.push(refs);
    proof {
        let five = parts_of(raw@, outline, d);
        assert(list@[0]@ =~= five[0]);
        assert(list@[1]@ == five[1] && list@[2]@ == five[2] && list@[3]@ == five[3] && list@[4]@ == five[4]);
        assert(crate::prores_bits::each(list@) =~= five);
    }
    let packed = pack_all(&list);
    let ghost ps = outcomes(packed@);
    assert(ps.len() == 5);
    let codes = coder.finish();
    let ghost most = 1 + crate::source_residual::SWELL * n;
    let errors = finish_bands(bands, Ghost(most));
    assert(errors@ == crate::streams::bundled(Seq::new(d.bands.len(), |b: int| d.bands[b].1.finish()))) by {
        assert(Seq::new(d.bands.len(), |b: int| d.bands[b].1.finish()) =~= Seq::new(
            bands@.len(),
            |b: int| crate::source_encode::bands_of(bands@)[b].1.finish(),
        ));
    }
    assert(written(n as int, ps, codes@, errors@) == sealed(n as int, ps, d));
    seal_packed(n, packed, &codes, &errors)
}

/// Whether a painter was asked about the frames of a movie while it was encoded, answered as `made` says, and is
/// then as `after` is. All frames are asked about, but for those behind one that fails or at which encoding was
/// stopped.
pub open spec fn wrote<P: Painter>(
    raw: Seq<u8>,
    pool: Seq<Kept>,
    light: bool,
    made: Seq<Sketch>,
    before: P,
    after: P,
    stopped: bool,
) -> bool {
    let all = crate::prores_frame::frames_of(raw);
    &&& exists|ps: Seq<P>| #[trigger]
        crate::source_encode::all_asked(raw, all, made, ps, before, after)
    &&& !stopped && made.len() < all.len() ==> !suitable(raw) || outlined(raw, all, all.len() as int) is Err
        || crate::source_encode::draft(raw, pool, light, all, made, made.len() as int) is Err
}

/// Encodes a movie. Its frames may be compared with kept ones of another movie.
pub fn encode<M: Monitor, P: Painter>(
    raw: &[u8],
    pool: &Pool,
    light: bool,
    painter: &mut P,
    progress: &mut M,
) -> (r: Result<Vec<u8>, String>)
    requires
        crate::prores_frame::addressable(raw.len() as int),
        pool.wf(),
        !old(progress).stopped(),
    ensures
        exists|made: Seq<Sketch>|
            crate::wire::bytes_of(r) == crate::wire::unless(
                final(progress).stopped(),
                encoded(raw@, pool@, light, made),
            ) && (r is Ok ==> record_comes_back(raw@, pool@, light, made)) && #[trigger] wrote(
                raw@,
                pool@,
                light,
                made,
                *old(painter),
                *final(painter),
                final(progress).stopped(),
            ),
        crate::monitor::refuses(*old(progress)) ==> r is Err,
        r is Ok ==> crate::monitor::last_told(
            *final(progress),
            carried(
                crate::prores_frame::frames_of(raw@),
                crate::prores_frame::frames_of(raw@).len() as int,
            ) as u64,
            raw@.len() as u64,
        ),
{
    let all = frames(raw);
    let ghost v = crate::prores_frame::frames_of(raw@);
    proof {
        let none = Seq::<Sketch>::empty();
        assert(crate::source_encode::all_asked(raw@, v, none, seq![*painter], *painter, *painter));
        if !suitable(raw@) || outlined(raw@, v, v.len() as int) is Err {
            assert(wrote(raw@, pool@, light, none, *painter, *painter, progress.stopped()));
        }
    }
    if all.len() == 0 || all.len() > MAX_FRAMES || raw.len() > MAX_OUTPUT {
        return Err(fail("no supported ProRes frames"));
    }
    let parts = outline(raw, &all)?;
    let x = write_frames(raw, &all, pool, light, painter, progress);
    let ghost (gs, ps) = choose|gs: Seq<Sketch>, ps: Seq<P>| #[trigger]
        crate::source_encode::all_asked(raw@, v, gs, ps, *old(painter), *painter) && drafted_all(
            raw@,
            pool@,
            light,
            v,
            gs,
            progress.stopped(),
            x,
        );
    assert(wrote(raw@, pool@, light, gs, *old(painter), *painter, progress.stopped()));
    let press = x?;
    seal(raw, parts, press, all.len())
}

/// The frames that are kept of the first `k` of a movie, where `made` is what a painter makes of them.
pub open spec fn pooled(raw: Seq<u8>, all: Seq<Contents>, made: Seq<Sketch>, k: int) -> Outcome<Seq<Kept>>
    decreases k,
{
    if k <= 0 {
        Ok(Seq::empty())
    } else {
        match pooled(raw, all, made, k - 1) {
            Err(e) => Err(e),
            Ok(done) => match crate::source_encode::seen(raw, all[k - 1], made[k - 1]) {
                Err(e) => Err(e),
                Ok(s) => Ok(done.push(crate::source_pool::stored(s))),
            },
        }
    }
}

proof fn lemma_pooled_alike(raw: Seq<u8>, all: Seq<Contents>, a: Seq<Sketch>, b: Seq<Sketch>, k: int)
    requires
        forall|i: int| 0 <= i < k ==> #[trigger] a[i] == b[i],
    ensures
        pooled(raw, all, a, k) == pooled(raw, all, b, k),
    decreases k,
{
    if k > 0 {
        lemma_pooled_alike(raw, all, a, b, k - 1);
        assert(a[k - 1] == b[k - 1]);
    }
}

proof fn lemma_pooled_fails(raw: Seq<u8>, all: Seq<Contents>, made: Seq<Sketch>, k: int, m: int)
    requires
        0 <= k <= m,
        pooled(raw, all, made, k) is Err,
    ensures
        pooled(raw, all, made, m) == pooled(raw, all, made, k),
    decreases m - k,
{
    if k < m {
        lemma_pooled_fails(raw, all, made, k + 1, m);
    }
}

pub open spec fn pool_outcome(r: Result<Pool, String>) -> Outcome<Seq<Kept>> {
    match r {
        Ok(p) => Ok(p@),
        Err(e) => Err(e@),
    }
}

/// The frames that are kept of a movie, where `made` is what a painter makes of its frames.
pub open spec fn pool_for(raw: Seq<u8>, made: Seq<Sketch>) -> Outcome<Seq<Kept>> {
    let all = crate::prores_frame::frames_of(raw);
    if !suitable(raw) {
        Err("no supported ProRes frames"@)
    } else {
        pooled(raw, all, made, all.len() as int)
    }
}

/// Whether a painter was asked about the frames of a movie while they were kept, answered as `made` says, and is
/// then as `after` is. All frames are asked about, but for those behind one that fails.
pub open spec fn pooled_so<P: Painter>(raw: Seq<u8>, made: Seq<Sketch>, before: P, after: P) -> bool {
    let all = crate::prores_frame::frames_of(raw);
    &&& exists|ps: Seq<P>| #[trigger]
        crate::source_encode::all_asked(raw, all, made, ps, before, after)
    &&& made.len() < all.len() ==> !suitable(raw) || pooled(raw, all, made, made.len() as int) is Err
}

/// Steady painters let the same frames be kept of a movie.
pub proof fn law_same_frames_are_kept<P: Painter>(
    raw: Seq<u8>,
    a: Seq<Sketch>,
    a0: P,
    a1: P,
    b: Seq<Sketch>,
    b0: P,
    b1: P,
)
    requires
        crate::source_frames::steady::<P>(),
        pooled_so(raw, a, a0, a1),
        pooled_so(raw, b, b0, b1),
    ensures
        pool_for(raw, a) == pool_for(raw, b),
{
    let all = crate::prores_frame::frames_of(raw);
    if suitable(raw) {
        let ps = choose|ps: Seq<P>| #[trigger] crate::source_encode::all_asked(raw, all, a, ps, a0, a1);
        let qs = choose|qs: Seq<P>| #[trigger] crate::source_encode::all_asked(raw, all, b, qs, b0, b1);
        let m = if a.len() < b.len() {
            a.len() as int
        } else {
            b.len() as int
        };
        lemma_pooled_same(raw, all, a, b, ps, qs, m);
        if m < all.len() {
            lemma_pooled_fails(raw, all, a, m, all.len() as int);
            lemma_pooled_fails(raw, all, b, m, all.len() as int);
        }
    }
}

proof fn lemma_pooled_same<P: Painter>(
    raw: Seq<u8>,
    all: Seq<Contents>,
    a: Seq<Sketch>,
    b: Seq<Sketch>,
    ps: Seq<P>,
    qs: Seq<P>,
    k: int,
)
    requires
        crate::source_frames::steady::<P>(),
        0 <= k <= a.len(),
        k <= b.len(),
        forall|i: int| 0 <= i < a.len() ==> #[trigger] crate::source_encode::asked_at(raw, all, a, ps, i),
        forall|i: int| 0 <= i < b.len() ==> #[trigger] crate::source_encode::asked_at(raw, all, b, qs, i),
    ensures
        pooled(raw, all, a, k) == pooled(raw, all, b, k),
    decreases k,
{
    if k > 0 {
        lemma_pooled_same(raw, all, a, b, ps, qs, k - 1);
        assert(crate::source_encode::asked_at(raw, all, a, ps, k - 1));
        assert(crate::source_encode::asked_at(raw, all, b, qs, k - 1));
        crate::source_encode::lemma_same_sketches(raw, all, a, b, ps, qs, k - 1);
    }
}

/// Keeps the frames of a movie.
pub fn pool_of<P: Painter>(raw: &[u8], painter: &mut P) -> (r: Result<Pool, String>)
    requires
        crate::prores_frame::addressable(raw.len() as int),
    ensures
        exists|made: Seq<Sketch>|
            pool_outcome(r) == pool_for(raw@, made) && #[trigger] pooled_so(
                raw@,
                made,
                *old(painter),
                *final(painter),
            ),
        r matches Ok(p) ==> p.wf(),
{
    let all = frames(raw);
    let ghost v = crate::prores_frame::frames_of(raw@);
    let ghost mut made = Seq::<Sketch>::empty();
    let ghost mut ps = seq![*painter];
    assert(crate::source_encode::all_asked(raw@, v, made, ps, *painter, *painter));
    assert(!suitable(raw@) ==> pooled_so(raw@, made, *painter, *painter));
    if all.len() == 0 || all.len() > MAX_FRAMES || raw.len() > MAX_OUTPUT {
        return Err(fail("no supported ProRes frames"));
    }
    let mut pool = Pool { frames: Vec::new() };
    assert(pool@ =~= Seq::empty());
    let mut k: usize = 0;
    while k < all.len()
        invariant
            k <= all.len(),
            v == crate::prores_frame::views(all@),
            v == crate::prores_frame::frames_of(raw@),
            crate::prores_frame::all_wf(all@),
            suitable(raw@),
            pool.wf(),
            made.len() == k,
            crate::source_encode::all_asked(raw@, v, made, ps, *old(painter), *painter),
            pooled(raw@, v, made, k as int) == Ok::<Seq<Kept>, Seq<char>>(pool@),
        decreases all.len() - k,
    {
        let ghost before = pool@;
        let ghost made0 = made;
        assert(all@[k as int]@ == v[k as int]);
        assert(all@[k as int]@.wf());
        let ghost asking = *painter;
        let x = analyse(raw, &all[k], painter);
        proof {
            let sketch = choose|s: Sketch|
                crate::source_encode::analysed(raw@, v[k as int], x, s)
                    && #[trigger] crate::source_encode::frame_asked(raw@, v[k as int], s, asking, *painter);
            crate::source_encode::lemma_asked_more(
                raw@,
                v,
                made,
                ps,
                *old(painter),
                asking,
                sketch,
                *painter,
            );
            made = made.push(sketch);
            ps = ps.push(*painter);
            lemma_pooled_alike(raw@, v, made0, made, k as int);
            if x is Err {
                lemma_pooled_fails(raw@, v, made, k + 1, v.len() as int);
                assert(pooled_so(raw@, made, *old(painter), *painter));
            }
        }
        let (now, _) = x?;
        let f = PoolFrame::new(&now);
        pool.frames.push(f);
        assert(pool@ =~= before.push(f@));
        k += 1;
    }
    assert(pooled_so(raw@, made, *old(painter), *painter));
    Ok(pool)
}

}
