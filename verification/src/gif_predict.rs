//! GIF files whose pixels are coded with the help of a film that shows the same.

use crate::compression::{hash, pack, unpack, WINDOW};
use crate::gif_bits::{decode_pixels, encode_pixels};
use crate::gif_colours::predictions;
use crate::gif_film::{mov_frames, MovFrame, FILM_LIMIT};
use crate::gif_split::{join, split, GifFrame, Shot, LIMIT, MAX_FRAMES, SIDE_LIMIT};
use crate::monitor::{Monitor, Share};
use crate::wire::{fail, put_le, read_le32, read_le64, same, Outcome};
use vstd::prelude::*;

verus! {

pub const MAGIC: [u8; 8] = [83, 80, 71, 88, 77, 1, 0, 0];

/// The length of the header of a record.
pub const HEADER: usize = 184;

/// How many units a whole operation has.
pub const TOTAL: u64 = 1_000_000;

/// A record: the lengths and checksums of its parts, what is left without the pixels, and the pixels.
pub open spec fn record(
    gif: Seq<u8>,
    film: Seq<u8>,
    sgif: Seq<u8>,
    side: Seq<u8>,
    packed: Seq<u8>,
    code: Seq<u8>,
    count: int,
) -> Seq<u8> {
    MAGIC@ + crate::wire::le_bytes(gif.len() as int, 8) + crate::wire::le_bytes(sgif.len() as int, 8)
        + crate::wire::le_bytes(side.len() as int, 8) + crate::wire::le_bytes(packed.len() as int, 8)
        + crate::wire::le_bytes(code.len() as int, 8) + crate::wire::le_bytes(count, 4) + seq![
        0u8,
        0u8,
        0u8,
        0u8,
    ] + crate::compression::checksum(film) + crate::compression::checksum(gif)
        + crate::compression::checksum(sgif) + crate::compression::checksum(packed + code) + packed + code
}

/// The record of a GIF file, where `packed` is what compressing all but its pixels yielded.
pub open spec fn encoded(gif: Seq<u8>, film: Seq<u8>, packed: Outcome<Seq<u8>>) -> Outcome<Seq<u8>> {
    if gif.len() > LIMIT {
        Err("GIF prediction input exceeds limit"@)
    } else {
        match crate::gif_exact::encoded(gif) {
            Err(e) => Err(e),
            Ok(sgif) => match crate::gif_split::parted(sgif, true) {
                Err(e) => Err(e),
                Ok((side, frames)) => if side.len() > SIDE_LIMIT {
                    Err("GIF prediction metadata exceeds limit"@)
                } else {
                    match crate::gif_film::film(film) {
                        Err(e) => Err(e),
                        Ok(stills) => if stills.len() != frames.len() {
                            Err("GIF and MOV frame counts differ"@)
                        } else {
                            match packed {
                                Err(e) => Err(e),
                                Ok(packed) => match crate::gif_colours::predicted_from(
                                    film,
                                    stills,
                                    frames,
                                    0,
                                    Seq::empty(),
                                ) {
                                    Err(e) => Err(e),
                                    Ok(guesses) => match crate::gif_bits::coded(frames, guesses) {
                                        Err(e) => Err(e),
                                        Ok(code) => if HEADER + packed.len() + code.len() > LIMIT {
                                            Err("GIF prediction record exceeds limit"@)
                                        } else {
                                            checked(gif, film, sgif, side, frames, guesses, packed, code)
                                        },
                                    },
                                },
                            }
                        },
                    }
                },
            },
        }
    }
}

/// The record, if its code gives the GIF file back.
pub open spec fn checked(
    gif: Seq<u8>,
    film: Seq<u8>,
    sgif: Seq<u8>,
    side: Seq<u8>,
    frames: Seq<Shot>,
    guesses: Seq<Seq<u8>>,
    packed: Seq<u8>,
    code: Seq<u8>,
) -> Outcome<Seq<u8>> {
    match crate::gif_split::parted(side, false) {
        Err(e) => Err(e),
        Ok((_, blank)) => match crate::gif_bits::decoded(blank, guesses, code) {
            Err(e) => Err(e),
            Ok(full) => match crate::gif_split::joined(side, full) {
                Err(e) => Err(e),
                Ok(again) => if again != sgif {
                    Err("GIF/MOV prediction self-check failed"@)
                } else {
                    match crate::gif_exact::restored(again) {
                        Err(e) => Err(e),
                        Ok(raw) => if raw != gif {
                            Err("GIF/MOV prediction self-check failed"@)
                        } else {
                            Ok(record(gif, film, sgif, side, packed, code, frames.len() as int))
                        },
                    }
                },
            },
        },
    }
}

/// All but the pixels of the GIF file that compressing is asked for, where it comes to that.
pub open spec fn rest(gif: Seq<u8>) -> Seq<u8> {
    crate::gif_split::parted(crate::gif_exact::encoded(gif)->Ok_0, true)->Ok_0.0
}

/// Whether the parameters of a record are within limits.
pub open spec fn acceptable(b: Seq<u8>) -> bool {
    &&& crate::wire::le64(b, 8) <= LIMIT
    &&& crate::wire::le64(b, 16) <= LIMIT
    &&& crate::wire::le64(b, 24) <= SIDE_LIMIT
    &&& crate::wire::le64(b, 32) <= LIMIT - HEADER
    &&& crate::wire::le64(b, 40) <= LIMIT - HEADER - crate::wire::le64(b, 32)
    &&& HEADER + crate::wire::le64(b, 32) + crate::wire::le64(b, 40) == b.len()
    &&& 1 <= crate::wire::le32(b, 48) <= MAX_FRAMES
    &&& b.subrange(52, 56) == seq![0u8, 0u8, 0u8, 0u8]
}

/// Whether a record can be of this film at all.
pub open spec fn headed(b: Seq<u8>, film: Seq<u8>) -> bool {
    HEADER <= b.len() <= LIMIT && b.take(8) == MAGIC@ && film.len() <= FILM_LIMIT
}

/// The compressed part of a record.
pub open spec fn packed_of(b: Seq<u8>) -> Seq<u8> {
    b.subrange(HEADER as int, HEADER + crate::wire::le64(b, 32))
}

/// The GIF file that a record holds, where `read` came out of its compressed part.
pub open spec fn restored(b: Seq<u8>, film: Seq<u8>, read: Outcome<(Seq<u8>, int)>) -> Outcome<Seq<u8>> {
    if !headed(b, film) {
        Err("Invalid GIF prediction header"@)
    } else if !acceptable(b) {
        Err("GIF prediction parameters exceed limits"@)
    } else if crate::compression::checksum(film) != b.subrange(56, 88) || crate::compression::checksum(
        b.subrange(HEADER as int, b.len() as int),
    ) != b.subrange(152, 184) {
        Err("GIF prediction MOV or payload checksum mismatch"@)
    } else {
        match read {
            Err(e) => Err(e),
            Ok((side, left)) => if side.len() != crate::wire::le64(b, 24) {
                Err("GIF prediction metadata length mismatch"@)
            } else if left != 0 {
                Err("Trailing GIF prediction metadata bytes"@)
            } else {
                match crate::gif_split::parted(side, false) {
                    Err(e) => Err(e),
                    Ok((_, blank)) => if blank.len() != crate::wire::le32(b, 48) {
                        Err("GIF prediction frame count mismatch"@)
                    } else {
                        match crate::gif_film::film(film) {
                            Err(e) => Err(e),
                            Ok(stills) => if stills.len() != blank.len() {
                                Err("GIF and MOV frame counts differ"@)
                            } else {
                                drawn(b, film, side, blank, stills)
                            },
                        }
                    },
                }
            },
        }
    }
}

/// The GIF file that a record holds, whose frames are known but for their pixels.
pub open spec fn drawn(
    b: Seq<u8>,
    film: Seq<u8>,
    side: Seq<u8>,
    blank: Seq<Shot>,
    stills: Seq<crate::gif_film::Still>,
) -> Outcome<Seq<u8>> {
    match crate::gif_colours::predicted_from(film, stills, blank, 0, Seq::empty()) {
        Err(e) => Err(e),
        Ok(guesses) => match crate::gif_bits::decoded(
            blank,
            guesses,
            b.subrange(HEADER + crate::wire::le64(b, 32), b.len() as int),
        ) {
            Err(e) => Err(e),
            Ok(full) => match crate::gif_split::joined(side, full) {
                Err(e) => Err(e),
                Ok(sgif) => if sgif.len() != crate::wire::le64(b, 16) || crate::compression::checksum(sgif)
                    != b.subrange(120, 152) {
                    Err("GIF prediction reconstruction checksum mismatch"@)
                } else {
                    match crate::gif_exact::restored(sgif) {
                        Err(e) => Err(e),
                        Ok(raw) => if raw.len() != crate::wire::le64(b, 8)
                            || crate::compression::checksum(raw) != b.subrange(88, 120) {
                            Err("GIF prediction original checksum mismatch"@)
                        } else {
                            Ok(raw)
                        },
                    }
                },
            },
        },
    }
}

/// What comes of expanding the compressed part of a record: at most one byte more than the record declares.
pub open spec fn read_of(b: Seq<u8>) -> Outcome<(Seq<u8>, int)> {
    crate::compression::unpacked(
        packed_of(b),
        crate::wire::le64(b, 24) + 1,
        crate::compression::WINDOW as int,
    )
}

proof fn lemma_guesses_match(
    film: Seq<u8>,
    stills: Seq<crate::gif_film::Still>,
    frames: Seq<Shot>,
    blank: Seq<Shot>,
    i: int,
    done: Seq<Seq<u8>>,
)
    requires
        crate::gif_side::alike(frames, blank),
        0 <= i,
    ensures
        crate::gif_colours::predicted_from(film, stills, frames, i, done)
            == crate::gif_colours::predicted_from(film, stills, blank, i, done),
    decreases frames.len() - i,
{
    if i < frames.len() {
        let a = frames[i];
        let b = blank[i];
        assert(crate::gif_side::bare(a) == crate::gif_side::bare(b));
        if let Ok(p) = crate::gif_colours::painted(film, stills[i]) {
            assert forall|x: int, y: int| #[trigger]
                crate::gif_colours::guess(p, a, x, y) == crate::gif_colours::guess(p, b, x, y) by {
                assert(a.palette == crate::gif_side::bare(a).palette);
                assert(a.transparent == crate::gif_side::bare(a).transparent);
            }
            assert(a.w == crate::gif_side::bare(a).w);
            assert(a.h == crate::gif_side::bare(a).h);
            assert(a.x == crate::gif_side::bare(a).x);
            assert(a.y == crate::gif_side::bare(a).y);
            assert(crate::gif_colours::predicted(film, stills[i], a)->Ok_0
                =~= crate::gif_colours::predicted(film, stills[i], b)->Ok_0);
        }
        assert(crate::gif_colours::predicted(film, stills[i], a) == crate::gif_colours::predicted(
            film,
            stills[i],
            b,
        ));
        if let Ok(px) = crate::gif_colours::predicted(film, stills[i], a) {
            lemma_guesses_match(film, stills, frames, blank, i + 1, done.push(px));
        }
    }
}

/// Whether the checksums of a record have the length that the layout calls for.
spec fn measured(gif: Seq<u8>, film: Seq<u8>, sgif: Seq<u8>, payload: Seq<u8>) -> bool {
    &&& crate::compression::checksum(film).len() == 32
    &&& crate::compression::checksum(gif).len() == 32
    &&& crate::compression::checksum(sgif).len() == 32
    &&& crate::compression::checksum(payload).len() == 32
}

/// Where the parts of a record lie.
proof fn lemma_record(
    gif: Seq<u8>,
    film: Seq<u8>,
    sgif: Seq<u8>,
    side: Seq<u8>,
    packed: Seq<u8>,
    code: Seq<u8>,
    count: int,
)
    requires
        measured(gif, film, sgif, packed + code),
        gif.len() <= LIMIT,
        sgif.len() <= LIMIT,
        side.len() <= LIMIT,
        HEADER + packed.len() + code.len() <= LIMIT,
        0 <= count <= MAX_FRAMES,
    ensures
        ({
            let b = record(gif, film, sgif, side, packed, code, count);
            &&& b.len() == HEADER + packed.len() + code.len()
            &&& b.take(8) == MAGIC@
            &&& crate::wire::le64(b, 8) == gif.len()
            &&& crate::wire::le64(b, 16) == sgif.len()
            &&& crate::wire::le64(b, 24) == side.len()
            &&& crate::wire::le64(b, 32) == packed.len()
            &&& crate::wire::le64(b, 40) == code.len()
            &&& crate::wire::le32(b, 48) == count
            &&& b.subrange(52, 56) == seq![0u8, 0u8, 0u8, 0u8]
            &&& b.subrange(56, 88) == crate::compression::checksum(film)
            &&& b.subrange(88, 120) == crate::compression::checksum(gif)
            &&& b.subrange(120, 152) == crate::compression::checksum(sgif)
            &&& b.subrange(152, 184) == crate::compression::checksum(packed + code)
            &&& b.subrange(184, b.len() as int) == packed + code
            &&& b.subrange(184, 184int + packed.len()) == packed
            &&& b.subrange(184int + packed.len(), b.len() as int) == code
        }),
{
    let b = record(gif, film, sgif, side, packed, code, count);
    crate::wire::lemma_lengths(gif.len() as int);
    crate::wire::lemma_lengths(sgif.len() as int);
    crate::wire::lemma_lengths(side.len() as int);
    crate::wire::lemma_lengths(packed.len() as int);
    crate::wire::lemma_lengths(code.len() as int);
    crate::wire::lemma_lengths(count);
    assert(b.take(8) =~= MAGIC@);
    assert(b.subrange(8, 16) =~= crate::wire::le_bytes(gif.len() as int, 8));
    assert(b.subrange(16, 24) =~= crate::wire::le_bytes(sgif.len() as int, 8));
    assert(b.subrange(24, 32) =~= crate::wire::le_bytes(side.len() as int, 8));
    assert(b.subrange(32, 40) =~= crate::wire::le_bytes(packed.len() as int, 8));
    assert(b.subrange(40, 48) =~= crate::wire::le_bytes(code.len() as int, 8));
    assert(b.subrange(48, 52) =~= crate::wire::le_bytes(count, 4));
    assert(b.subrange(52, 56) =~= seq![0u8, 0u8, 0u8, 0u8]);
    assert(b.subrange(56, 88) =~= crate::compression::checksum(film));
    assert(b.subrange(88, 120) =~= crate::compression::checksum(gif));
    assert(b.subrange(120, 152) =~= crate::compression::checksum(sgif));
    assert(b.subrange(152, 184) =~= crate::compression::checksum(packed + code));
    assert(b.subrange(184, b.len() as int) =~= packed + code);
    assert(b.subrange(184, 184int + packed.len()) =~= packed);
    assert(b.subrange(184int + packed.len(), b.len() as int) =~= code);
    crate::wire::lemma_le64_at(b, 8, gif.len() as int);
    crate::wire::lemma_le64_at(b, 16, sgif.len() as int);
    crate::wire::lemma_le64_at(b, 24, side.len() as int);
    crate::wire::lemma_le64_at(b, 32, packed.len() as int);
    crate::wire::lemma_le64_at(b, 40, code.len() as int);
    crate::wire::lemma_le32_at(b, 48, count);
}

/// A record that was written gives the GIF file back.
proof fn lemma_comes_back(gif: Seq<u8>, film: Seq<u8>, packed: Outcome<Seq<u8>>)
    requires
        packed matches Ok(small) ==> crate::compression::gives_back(small, rest(gif)),
        encoded(gif, film, packed) is Ok,
        film.len() <= FILM_LIMIT,
        crate::gif_exact::encoded(gif)->Ok_0.len() <= LIMIT,
        1 <= crate::gif_film::film(film)->Ok_0.len() <= MAX_FRAMES,
        ({
            let sgif = crate::gif_exact::encoded(gif)->Ok_0;
            let (side, frames) = crate::gif_split::parted(sgif, true)->Ok_0;
            let stills = crate::gif_film::film(film)->Ok_0;
            let guesses = crate::gif_colours::predicted_from(film, stills, frames, 0, Seq::empty())->Ok_0;
            measured(gif, film, sgif, packed->Ok_0 + crate::gif_bits::coded(frames, guesses)->Ok_0)
        }),
    ensures
        comes_back(encoded(gif, film, packed)->Ok_0, gif, film),
{
    let b = encoded(gif, film, packed)->Ok_0;
    let sgif = crate::gif_exact::encoded(gif)->Ok_0;
    let (side, frames) = crate::gif_split::parted(sgif, true)->Ok_0;
    let stills = crate::gif_film::film(film)->Ok_0;
    let guesses = crate::gif_colours::predicted_from(film, stills, frames, 0, Seq::empty())->Ok_0;
    let code = crate::gif_bits::coded(frames, guesses)->Ok_0;
    let small = packed->Ok_0;
    assert(b == record(gif, film, sgif, side, small, code, frames.len() as int));
    lemma_record(gif, film, sgif, side, small, code, frames.len() as int);
    assert(packed_of(b) == small);
    assert(read_of(b) == Ok::<(Seq<u8>, int), Seq<char>>((side, 0int)));
    crate::gif_side::law_side_keeps_frames(sgif);
    let (_, blank) = crate::gif_split::parted(side, false)->Ok_0;
    lemma_guesses_match(film, stills, frames, blank, 0, Seq::empty());
    assert(headed(b, film));
    assert(acceptable(b));
}

fn write_record(
    gif: &[u8],
    film: &[u8],
    sgif: &[u8],
    side: &[u8],
    packed: &[u8],
    code: &[u8],
    count: usize,
) -> (out: Vec<u8>)
    requires
        HEADER + packed.len() + code.len() <= LIMIT,
        count <= MAX_FRAMES,
    ensures
        out@ == record(gif@, film@, sgif@, side@, packed@, code@, count as int),
        measured(gif@, film@, sgif@, packed@ + code@),
{
    let mut payload: Vec<u8> = Vec::with_capacity(packed.len() + code.len());
    payload.extend_from_slice(packed);
    payload.extend_from_slice(code);
    assert(payload@ =~= packed@ + code@);
    let mut out: Vec<u8> = Vec::with_capacity(HEADER + payload.len());
    out.extend_from_slice(&MAGIC);
    put_le(gif.len() as u64, 8, &mut out);
    put_le(sgif.len() as u64, 8, &mut out);
    put_le(side.len() as u64, 8, &mut out);
    put_le(packed.len() as u64, 8, &mut out);
    put_le(code.len() as u64, 8, &mut out);
    put_le(count as u64, 4, &mut out);
    let zeros: [u8; 4] = [0, 0, 0, 0];
    assert(zeros@ =~= seq![0u8, 0u8, 0u8, 0u8]);
    out.extend_from_slice(&zeros);
    out.extend_from_slice(&hash(film));
    out.extend_from_slice(&hash(gif));
    out.extend_from_slice(&hash(sgif));
    out.extend_from_slice(&hash(&payload));
    out.extend_from_slice(&payload);
    assert(out@ =~= record(gif@, film@, sgif@, side@, packed@, code@, count as int));
    out
}

/// A GIF file taken apart, and the frames of the film that it is coded with.
pub struct Scene {
    pub sgif: Vec<u8>,
    pub side: Vec<u8>,
    pub frames: Vec<GifFrame>,
    pub film: Vec<MovFrame>,
}

impl Scene {
    /// Whether this is what a GIF file and a film are taken apart into.
    pub open spec fn of(&self, gif: Seq<u8>, film: Seq<u8>) -> bool {
        &&& gif.len() <= LIMIT
        &&& film.len() <= FILM_LIMIT
        &&& crate::gif_exact::encoded(gif) == Ok::<Seq<u8>, Seq<char>>(self.sgif@)
        &&& self.sgif@.len() <= LIMIT
        &&& crate::gif_split::parted(self.sgif@, true) == Ok::<(Seq<u8>, Seq<Shot>), Seq<char>>(
            (self.side@, crate::gif_split::shots(self.frames@)),
        )
        &&& crate::gif_film::film(film) == Ok::<Seq<crate::gif_film::Still>, Seq<char>>(
            crate::gif_film::stills(self.film@),
        )
        &&& self.side@.len() <= SIDE_LIMIT
        &&& self.film@.len() == self.frames@.len()
        &&& 1 <= self.film@.len() <= MAX_FRAMES
        &&& crate::gif_split::all_wf(self.frames@)
        &&& crate::gif_film::all_wf(self.film@, film.len() as int)
    }
}

/// Whether decoding a record with a film gives a GIF file back.
pub open spec fn comes_back(out: Seq<u8>, gif: Seq<u8>, film: Seq<u8>) -> bool {
    restored(out, film, read_of(out)) == Ok::<Seq<u8>, Seq<char>>(gif)
}

/// Takes a GIF file and a film apart.
fn set_scene<M: Monitor>(raw_gif: &[u8], raw_mov: &[u8], progress: &mut M) -> (r: Result<Scene, String>)
    requires
        !old(progress).stopped(),
    ensures
        match r {
            Ok(scene) => scene.of(raw_gif@, raw_mov@) && !final(progress).stopped() && scene.side@ == rest(
                raw_gif@,
            ),
            Err(e) => final(progress).stopped() && e@ == "error.cancelled"@ || (!final(progress).stopped()
                && forall|packed: Outcome<Seq<u8>>| #[trigger]
                encoded(raw_gif@, raw_mov@, packed) == Err::<Seq<u8>, Seq<char>>(e@)),
        },
{
    if raw_gif.len() > LIMIT {
        return Err(fail("GIF prediction input exceeds limit"));
    }
    let sgif = crate::gif_exact::encode(raw_gif)?;
    let (side, frames) = split(&sgif, true)?;
    if side.len() > SIDE_LIMIT {
        return Err(fail("GIF prediction metadata exceeds limit"));
    }
    let first = Share { base: 0, span: 500_000, whole: TOTAL };
    let film = mov_frames(raw_mov, progress, &first)?;
    if film.len() != frames.len() {
        return Err(fail("GIF and MOV frame counts differ"));
    }
    if !progress.report(1000, TOTAL) {
        return Err(fail("error.cancelled"));
    }
    Ok(Scene { sgif, side, frames, film })
}

/// The record of a GIF file, by what compressing all but its pixels yielded. Where it was compressed,
/// the record gives the GIF file back.
pub fn code_scene<M: Monitor>(
    raw_gif: &[u8],
    raw_mov: &[u8],
    scene: &Scene,
    packed: Result<Vec<u8>, String>,
    progress: &mut M,
) -> (r: Result<Vec<u8>, String>)
    requires
        scene.of(raw_gif@, raw_mov@),
        !old(progress).stopped(),
    ensures
        crate::wire::bytes_of(r) == crate::wire::unless(
            final(progress).stopped(),
            encoded(raw_gif@, raw_mov@, crate::wire::bytes_of(packed)),
        ),
        r matches Ok(out) ==> crate::compression::gives_back(packed->Ok_0@, rest(raw_gif@)) ==> comes_back(
            out@,
            raw_gif@,
            raw_mov@,
        ),
        r is Ok ==> crate::monitor::last_told(*final(progress), TOTAL, TOTAL),
{
    let ghost o = crate::wire::bytes_of(packed);
    let first = Share { base: 0, span: 500_000, whole: TOTAL };
    let second = Share { base: 500_000, span: 500_000, whole: TOTAL };
    let Scene { sgif, side, frames, film } = scene;
    let packed = packed?;
    let guesses = predictions(raw_mov, film, frames)?;
    let ghost shots = crate::gif_split::shots(frames@);
    let ghost given = crate::prores_bits::each(guesses@);
    proof {
        assert forall|i: int| 0 <= i < shots.len() implies (#[trigger] given[i]).len() == shots[i].w
            * shots[i].h by {
            assert(guesses@[i]@.len() == frames@[i]@.w * frames@[i]@.h);
        }
    }
    let code = encode_pixels(frames, &guesses, progress, &first)?;
    if packed.len() > LIMIT - HEADER || code.len() > LIMIT - HEADER - packed.len() {
        return Err(fail("GIF prediction record exceeds limit"));
    }
    let out = write_record(raw_gif, raw_mov, sgif, side, &packed, &code, frames.len());
    proof {
        crate::gif_side::law_side_keeps_frames(sgif@);
    }
    let (_, blank) = split(side, false)?;
    let ghost bare = crate::gif_split::shots(blank@);
    proof {
        assert(crate::gif_side::alike(shots, bare));
        assert forall|i: int| 0 <= i < bare.len() implies (#[trigger] given[i]).len() == bare[i].w
            * bare[i].h by {
            let a = shots[i];
            let b = bare[i];
            assert(crate::gif_side::bare(a) == crate::gif_side::bare(b));
            assert(a.w == crate::gif_side::bare(a).w);
            assert(a.h == crate::gif_side::bare(a).h);
        }
    }
    let full = decode_pixels(blank, &guesses, &code, progress, &second)?;
    let again = join(side, &full)?;
    if !same(&again, sgif) {
        return Err(fail("GIF/MOV prediction self-check failed"));
    }
    let raw = crate::gif_exact::decode(&again)?;
    if !same(&raw, raw_gif) {
        return Err(fail("GIF/MOV prediction self-check failed"));
    }
    let ghost before = *progress;
    if !progress.report(TOTAL, TOTAL) {
        return Err(fail("error.cancelled"));
    }
    assert(before.told(TOTAL, TOTAL, true, progress));
    proof {
        if crate::compression::gives_back(packed@, rest(raw_gif@)) {
            lemma_comes_back(raw_gif@, raw_mov@, o);
        }
    }
    Ok(out)
}

/// Codes a GIF file with the help of a film that shows the same. Where that succeeds, decoding the
/// record with the same film gives the GIF file back.
pub fn encode<M: Monitor>(raw_gif: &[u8], raw_mov: &[u8], progress: &mut M) -> (r: Result<Vec<u8>, String>)
    requires
        !old(progress).stopped(),
    ensures
        crate::wire::bytes_of(r) == crate::wire::unless(
            final(progress).stopped(),
            encoded(raw_gif@, raw_mov@, crate::compression::packed(rest(raw_gif@), 19)),
        ),
        r matches Ok(out) ==> comes_back(out@, raw_gif@, raw_mov@),
        crate::monitor::heeds(*old(progress), r),
        r is Ok ==> crate::monitor::last_told(*final(progress), TOTAL, TOTAL),
{
    if !progress.report(0, TOTAL) {
        return Err(fail("error.cancelled"));
    }
    proof {
        crate::monitor::lemma_agreed(*old(progress), 0, TOTAL, *progress);
    }
    let scene = set_scene(raw_gif, raw_mov, progress)?;
    let packed = pack(&scene.side, 19);
    code_scene(raw_gif, raw_mov, &scene, packed, progress)
}

fn within_limits(b: &[u8]) -> (r: bool)
    requires
        HEADER <= b.len() <= LIMIT,
    ensures
        r == acceptable(b@),
{
    let packed_len: u64 = read_le64(b, 32);
    let code_len: u64 = read_le64(b, 40);
    let count: u32 = read_le32(b, 48);
    let zeros: [u8; 4] = [0, 0, 0, 0];
    assert(zeros@ =~= seq![0u8, 0u8, 0u8, 0u8]);
    read_le64(b, 8) <= LIMIT as u64 && read_le64(b, 16) <= LIMIT as u64 && read_le64(b, 24)
        <= SIDE_LIMIT as u64 && packed_len <= (LIMIT - HEADER) as u64 && code_len <= (LIMIT - HEADER) as u64
        - packed_len && HEADER as u64 + packed_len + code_len == b.len() as u64 && count >= 1 && count
        <= MAX_FRAMES as u32 && same(&b[52..56], &zeros)
}

/// What is wrong with a record before its compressed part is read.
pub open spec fn faulty(b: Seq<u8>, film: Seq<u8>) -> Option<Seq<char>> {
    if !headed(b, film) {
        Some("Invalid GIF prediction header"@)
    } else if !acceptable(b) {
        Some("GIF prediction parameters exceed limits"@)
    } else if crate::compression::checksum(film) != b.subrange(56, 88) || crate::compression::checksum(
        b.subrange(HEADER as int, b.len() as int),
    ) != b.subrange(152, 184) {
        Some("GIF prediction MOV or payload checksum mismatch"@)
    } else {
        None
    }
}

/// Checks a record before its compressed part is read.
pub fn check_head(b: &[u8], raw_mov: &[u8]) -> (r: Result<(), String>)
    ensures
        crate::scan::unit_of(r) == (match faulty(b@, raw_mov@) {
            Some(e) => Err::<(), Seq<char>>(e),
            None => Ok(()),
        }),
{
    assert(b@.len() >= 8 ==> b@.subrange(0, 8) =~= b@.take(8));
    if b.len() < HEADER || b.len() > LIMIT || !same(&b[0..8], &MAGIC) || raw_mov.len() > FILM_LIMIT {
        return Err(fail("Invalid GIF prediction header"));
    }
    if !within_limits(b) {
        return Err(fail("GIF prediction parameters exceed limits"));
    }
    if !same(&hash(raw_mov), &b[56..88]) || !same(&hash(&b[HEADER..b.len()]), &b[152..184]) {
        return Err(fail("GIF prediction MOV or payload checksum mismatch"));
    }
    Ok(())
}

/// The GIF file that a record holds, by what came out of its compressed part.
pub fn restore<M: Monitor>(
    encoded: &[u8],
    raw_mov: &[u8],
    read: Result<(Vec<u8>, usize), String>,
    progress: &mut M,
) -> (r: Result<Vec<u8>, String>)
    requires
        !old(progress).stopped(),
    ensures
        crate::wire::bytes_of(r) == crate::wire::unless(
            final(progress).stopped(),
            restored(encoded@, raw_mov@, crate::compression::unpacked_outcome(read)),
        ),
        r is Ok ==> crate::monitor::last_told(*final(progress), TOTAL, TOTAL),
{
    let b = encoded;
    check_head(b, raw_mov)?;
    let side_len: u64 = read_le64(b, 24);
    let middle: usize = HEADER + read_le64(b, 32) as usize;
    let count: usize = read_le32(b, 48) as usize;
    let (side, left) = read?;
    if side.len() as u64 != side_len {
        return Err(fail("GIF prediction metadata length mismatch"));
    }
    if left != 0 {
        return Err(fail("Trailing GIF prediction metadata bytes"));
    }
    let (_, frames) = split(&side, false)?;
    if frames.len() != count {
        return Err(fail("GIF prediction frame count mismatch"));
    }
    let all = Share { base: 0, span: 1_000_000, whole: TOTAL };
    let film = mov_frames(raw_mov, progress, &all)?;
    if film.len() != count {
        return Err(fail("GIF and MOV frame counts differ"));
    }
    let guesses = predictions(raw_mov, &film, &frames)?;
    proof {
        let shots = crate::gif_split::shots(frames@);
        let given = crate::prores_bits::each(guesses@);
        assert forall|i: int| 0 <= i < shots.len() implies (#[trigger] given[i]).len() == shots[i].w
            * shots[i].h by {
            assert(guesses@[i]@.len() == frames@[i]@.w * frames@[i]@.h);
        }
    }
    let full = decode_pixels(frames, &guesses, &b[middle..b.len()], progress, &all)?;
    let sgif = join(&side, &full)?;
    if sgif.len() as u64 != read_le64(b, 16) || !same(&hash(&sgif), &b[120..152]) {
        return Err(fail("GIF prediction reconstruction checksum mismatch"));
    }
    let raw = crate::gif_exact::decode(&sgif)?;
    if raw.len() as u64 != read_le64(b, 8) || !same(&hash(&raw), &b[88..120]) {
        return Err(fail("GIF prediction original checksum mismatch"));
    }
    let ghost before = *progress;
    if !progress.report(TOTAL, TOTAL) {
        return Err(fail("error.cancelled"));
    }
    assert(before.told(TOTAL, TOTAL, true, progress));
    Ok(raw)
}

/// Reads a GIF file out of a record, with the help of the film that it was coded with.
pub fn decode<M: Monitor>(encoded: &[u8], raw_mov: &[u8], progress: &mut M) -> (r: Result<Vec<u8>, String>)
    requires
        !old(progress).stopped(),
    ensures
        crate::wire::bytes_of(r) == crate::wire::unless(
            final(progress).stopped(),
            restored(encoded@, raw_mov@, read_of(encoded@)),
        ),
        crate::monitor::heeds(*old(progress), r),
        r is Ok ==> crate::monitor::last_told(*final(progress), TOTAL, TOTAL),
{
    let b = encoded;
    if !progress.report(0, TOTAL) {
        return Err(fail("error.cancelled"));
    }
    proof {
        crate::monitor::lemma_agreed(*old(progress), 0, TOTAL, *progress);
    }
    check_head(b, raw_mov)?;
    let middle: usize = HEADER + read_le64(b, 32) as usize;
    let read = unpack(&b[HEADER..middle], read_le64(b, 24) + 1, WINDOW);
    restore(b, raw_mov, read, progress)
}

}
