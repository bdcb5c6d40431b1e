//! The frames of a film that animated pictures are predicted from: ProRes, 1000 by 1000 pixels, with
//! all chroma samples.

use crate::monitor::{Monitor, Share};
use crate::scanning::{fit, read16, read32, read64};
use crate::wire::{fail, same, Outcome};
use vstd::prelude::*;

verus! {

/// The longest film.
pub const FILM_LIMIT: usize = 0x2000_0000;

/// How many macroblocks a row has, and how many rows there are.
pub const MBS: usize = 63;

/// How many slices a frame has.
pub const SLICES: usize = 630;

/// A slice of a frame: where its planes lie, the first of its blocks, and how many it has.
#[derive(Clone, Copy, PartialEq, Eq, Structural)]
pub struct Strip {
    pub luma_at: usize,
    pub luma_len: usize,
    pub blue_at: usize,
    pub blue_len: usize,
    pub red_at: usize,
    pub red_len: usize,
    pub x: usize,
    pub y: usize,
    pub blocks: usize,
}

/// A frame of a film: the weights of its coefficients, and its slices.
pub struct MovFrame {
    pub luma: [u8; 64],
    pub chroma: [u8; 64],
    pub slices: Vec<Strip>,
}

/// What a frame of a film holds.
#[verifier::ext_equal]
pub struct Still {
    pub luma: Seq<u8>,
    pub chroma: Seq<u8>,
    pub slices: Seq<Strip>,
}

impl View for MovFrame {
    type V = Still;

    open spec fn view(&self) -> Still {
        Still { luma: self.luma@, chroma: self.chroma@, slices: self.slices@ }
    }
}

/// Whether the planes of a slice lie in a film, and its blocks in a frame.
pub open spec fn strip_in(s: Strip, len: int) -> bool {
    &&& s.luma_at + s.luma_len <= len
    &&& s.blue_at + s.blue_len <= len
    &&& s.red_at + s.red_len <= len
    &&& s.luma_len <= 65535
    &&& s.blue_len <= 65535
    &&& s.red_len <= 65535
    &&& s.blocks == 4 || s.blocks == 8 || s.blocks == 16 || s.blocks == 32
    &&& s.x + s.blocks / 2 <= 126
    &&& s.y <= 124
}

impl Still {
    pub open spec fn wf(self, len: int) -> bool {
        &&& self.luma.len() == 64
        &&& self.chroma.len() == 64
        &&& forall|i: int| 0 <= i < self.slices.len() ==> strip_in(#[trigger] self.slices[i], len)
    }
}

/// The weights that a frame gives, and where they end.
pub open spec fn weights_at(f: Seq<u8>) -> Outcome<(Seq<u8>, Seq<u8>, int)> {
    let fours = Seq::new(64, |i: int| 4u8);
    let own = (f[27] / 2) % 2 == 1;
    let other = f[27] % 2 == 1;
    if own && f.len() < 92 {
        Err("Truncated ProRes quantization matrix"@)
    } else {
        let luma = if own {
            f.subrange(28, 92)
        } else {
            fours
        };
        let q = if own {
            92int
        } else {
            28
        };
        if other && f.len() < q + 64 {
            Err("Truncated ProRes quantization matrix"@)
        } else if other {
            Ok((luma, f.subrange(q, q + 64), q + 64))
        } else {
            Ok((luma, luma, q))
        }
    }
}

pub open spec fn any_zero(s: Seq<u8>) -> bool {
    exists|i: int| 0 <= i < s.len() && #[trigger] s[i] == 0
}

/// The slices from number `i` on. Slice number `i` lies at `at` and starts with macroblock `x` of row
/// `y`; the last one ends at `stop`.
pub open spec fn strips_from(
    f: Seq<u8>,
    start: int,
    table: int,
    stop: int,
    i: int,
    at: int,
    x: int,
    y: int,
    done: Seq<Strip>,
) -> Outcome<Seq<Strip>>
    decreases SLICES - i,
{
    if i >= SLICES {
        if at != stop || x != 0 || y != MBS {
            Err("Incomplete ProRes prediction picture"@)
        } else {
            Ok(done)
        }
    } else if at >= f.len() {
        Err("Truncated ProRes slice"@)
    } else {
        let n = crate::scanning::be16(f, table + i * 2);
        let sh = f[at] as int / 8;
        if sh < 8 || n < sh || at + n > stop || f[at + 1] != 1 {
            Err("Unsupported ProRes prediction slice"@)
        } else {
            let a = crate::scanning::be16(f, at + 2);
            let b = crate::scanning::be16(f, at + 4);
            let c = crate::scanning::be16(f, at + 6);
            if a == 0 || b == 0 || c == 0 || sh + a + b + c > n {
                Err("Invalid ProRes prediction plane sizes"@)
            } else {
                let mbs = crate::scanning::fitted(8, MBS - x);
                let from = start + at + sh;
                let strip = Strip {
                    luma_at: from as usize,
                    luma_len: a as usize,
                    blue_at: (from + a) as usize,
                    blue_len: b as usize,
                    red_at: (from + a + b) as usize,
                    red_len: c as usize,
                    x: (x * 2) as usize,
                    y: (y * 2) as usize,
                    blocks: (mbs * 4) as usize,
                };
                let (nx, ny) = if x + mbs == MBS {
                    (0, y + 1)
                } else {
                    (x + mbs, y)
                };
                strips_from(f, start, table, stop, i + 1, at + n, nx, ny, done.push(strip))
            }
        }
    }
}

/// The picture of a frame, which starts at `picture`, with its weights.
pub open spec fn picture_at(f: Seq<u8>, start: int, picture: int, luma: Seq<u8>, chroma: Seq<u8>) -> Outcome<
    Still,
> {
    if picture + 5 > f.len() {
        Err("Truncated MOV header"@)
    } else if picture + 7 > f.len() {
        Err("Truncated ProRes header"@)
    } else if picture + 8 > f.len() {
        Err("Truncated ProRes picture"@)
    } else {
        let ph = f[picture] as int / 8;
        let size = crate::scanning::be32(f, picture + 1);
        let count = crate::scanning::be16(f, picture + 5);
        let stop = picture + size;
        let at = picture + ph + SLICES * 2;
        if ph < 8 || f[picture + 7] != 0x30 || count != SLICES || stop > f.len() {
            Err("Unsupported ProRes prediction slice layout"@)
        } else if at > stop {
            Err("Invalid ProRes prediction slice table"@)
        } else {
            match strips_from(f, start, picture + ph, stop, 0, at, 0, 0, Seq::empty()) {
                Err(e) => Err(e),
                Ok(slices) => Ok(Still { luma, chroma, slices }),
            }
        }
    }
}

/// The frame that starts at `start`, and its length.
pub open spec fn frame_at(raw: Seq<u8>, start: int) -> Outcome<(int, Still)> {
    if start + 4 > raw.len() {
        Err("Truncated MOV header"@)
    } else {
        let len = crate::scanning::be32(raw, start);
        if start + len > usize::MAX {
            Err("ProRes frame overflow"@)
        } else if start + len > raw.len() {
            Err("Truncated ProRes frame"@)
        } else {
            let f = raw.subrange(start, start + len);
            if len < 28 || f.subrange(4, 8) != crate::scanning::icpf() || crate::scanning::be16(f, 16)
                != 1000 || crate::scanning::be16(f, 18) != 1000 || f[20] / 64 != 3 || (f[20] / 4) % 4 != 0 {
                Err("Unsupported MOV prediction frame"@)
            } else {
                let picture = crate::scanning::be16(f, 8) + 8;
                if picture < 28 || picture >= len {
                    Err("Invalid ProRes prediction header"@)
                } else {
                    match weights_at(f) {
                        Err(e) => Err(e),
                        Ok((luma, chroma, q)) => if q > picture || any_zero(luma) || any_zero(chroma) {
                            Err("Invalid ProRes quantization matrix"@)
                        } else {
                            match picture_at(f, start, picture, luma, chroma) {
                                Err(e) => Err(e),
                                Ok(still) => Ok((len, still)),
                            }
                        },
                    }
                }
            }
        }
    }
}

fn sixty_four(b: &[u8], at: usize) -> (r: [u8; 64])
    requires
        at + 64 <= b.len(),
    ensures
        r@ == b@.subrange(at as int, at + 64),
{
    let mut r: [u8; 64] = [0u8; 64];
    let mut i: usize = 0;
    while i < 64
        invariant
            i <= 64,
            at + 64 <= b.len(),
            forall|k: int| 0 <= k < i ==> #[trigger] r@[k] == b@[at + k],
        decreases 64 - i,
    {
        r[i] = b[at + i];
        i += 1;
    }
    assert(r@ =~= b@.subrange(at as int, at + 64));
    r
}

fn has_zero(b: &[u8; 64]) -> (r: bool)
    ensures
        r == any_zero(b@),
{
    let mut i: usize = 0;
    while i < 64
        invariant
            i <= 64,
            forall|k: int| 0 <= k < i ==> #[trigger] b@[k] != 0,
        decreases 64 - i,
    {
        if b[i] == 0 {
            return true;
        }
        i += 1;
    }
    false
}

fn read_weights(f: &[u8]) -> (x: Result<([u8; 64], [u8; 64], usize), String>)
    requires
        f@.len() >= 28,
    ensures
        match x {
            Ok((l, c, q)) => weights_at(f@) == Ok::<(Seq<u8>, Seq<u8>, int), Seq<char>>(
                (l@, c@, q as int),
            ),
            Err(e) => weights_at(f@) == Err::<(Seq<u8>, Seq<u8>, int), Seq<char>>(e@),
        },
{
    let own: bool = (f[27] / 2) % 2 == 1;
    let other: bool = f[27] % 2 == 1;
    if own && f.len() < 92 {
        return Err(fail("Truncated ProRes quantization matrix"));
    }
    let luma: [u8; 64] = if own {
        sixty_four(f, 28)
    } else {
        let fours: [u8; 64] = [4u8; 64];
        assert(fours@ =~= Seq::new(64, |i: int| 4u8));
        fours
    };
    let q: usize = if own {
        92
    } else {
        28
    };
    if other {
        if f.len() < q + 64 {
            return Err(fail("Truncated ProRes quantization matrix"));
        }
        return Ok((luma, sixty_four(f, q), q + 64));
    }
    Ok((luma, luma, q))
}

fn read_strips(f: &[u8], start: usize, table: usize, stop: usize) -> (x: Result<Vec<Strip>, String>)
    requires
        table + SLICES * 2 <= stop,
        stop <= f.len(),
        start + f.len() <= usize::MAX,
    ensures
        match x {
            Ok(v) => strips_from(
                f@,
                start as int,
                table as int,
                stop as int,
                0,
                table + SLICES * 2,
                0,
                0,
                Seq::empty(),
            ) == Ok::<Seq<Strip>, Seq<char>>(v@) && forall|i: int|
                0 <= i < v@.len() ==> strip_in(#[trigger] v@[i], start + f@.len()),
            Err(e) => strips_from(
                f@,
                start as int,
                table as int,
                stop as int,
                0,
                table + SLICES * 2,
                0,
                0,
                Seq::empty(),
            ) == Err::<Seq<Strip>, Seq<char>>(e@),
        },
{
    let ghost whole = strips_from(
        f@,
        start as int,
        table as int,
        stop as int,
        0,
        table + SLICES * 2,
        0,
        0,
        Seq::empty(),
    );
    let mut slices: Vec<Strip> = Vec::new();
    let mut at: usize = table + SLICES * 2;
    let mut x: usize = 0;
    let mut y: usize = 0;
    let mut i: usize = 0;
    while i < SLICES
        invariant
            i <= SLICES,
            x < MBS,
            x < 56 ==> x % 8 == 0,
            x >= 56 ==> x == 56 || x == 60 || x == 62,
            10 * y + (if x <= 56 {
                x / 8
            } else if x == 60 {
                8
            } else {
                9
            }) == i,
            at <= stop,
            table + SLICES * 2 <= stop,
            stop <= f.len(),
            start + f.len() <= usize::MAX,
            forall|k: int| 0 <= k < slices@.len() ==> strip_in(#[trigger] slices@[k], start + f@.len()),
            whole == strips_from(
                f@,
                start as int,
                table as int,
                stop as int,
                0,
                table + SLICES * 2,
                0,
                0,
                Seq::empty(),
            ),
            whole == strips_from(
                f@,
                start as int,
                table as int,
                stop as int,
                i as int,
                at as int,
                x as int,
                y as int,
                slices@,
            ),
        decreases SLICES - i,
    {
        if at >= f.len() {
            return Err(fail("Truncated ProRes slice"));
        }
        let n = read16(f, table + i * 2) as usize;
        let sh: usize = (f[at] / 8) as usize;
        if sh < 8 || n < sh || n > stop - at || f[at + 1] != 1 {
            return Err(fail("Unsupported ProRes prediction slice"));
        }
        let a = read16(f, at + 2) as usize;
        let b = read16(f, at + 4) as usize;
        let c = read16(f, at + 6) as usize;
        if a == 0 || b == 0 || c == 0 || sh + a + b + c > n {
            return Err(fail("Invalid ProRes prediction plane sizes"));
        }
        proof {
            reveal_with_fuel(crate::scanning::fitted, 5);
        }
        let mbs: usize = fit(8, MBS - x);
        let from: usize = start + at + sh;
        slices.push(
            Strip {
                luma_at: from,
                luma_len: a,
                blue_at: from + a,
                blue_len: b,
                red_at: from + a + b,
                red_len: c,
                x: x * 2,
                y: y * 2,
                blocks: mbs * 4,
            },
        );
        x = x + mbs;
        if x == MBS {
            x = 0;
            y = y + 1;
        }
        at = at + n;
        i += 1;
    }
    if at != stop || x != 0 || y != MBS {
        return Err(fail("Incomplete ProRes prediction picture"));
    }
    Ok(slices)
}

fn read_picture(f: &[u8], start: usize, picture: usize, luma: [u8; 64], chroma: [u8; 64]) -> (x: Result<
    MovFrame,
    String,
>)
    requires
        picture < f.len(),
        start + f.len() <= usize::MAX,
    ensures
        match x {
            Ok(m) => picture_at(f@, start as int, picture as int, luma@, chroma@) == Ok::<
                Still,
                Seq<char>,
            >(m@) && m@.wf(start + f@.len()),
            Err(e) => picture_at(f@, start as int, picture as int, luma@, chroma@) == Err::<
                Still,
                Seq<char>,
            >(e@),
        },
{
    let left: usize = f.len() - picture;
    if left < 5 {
        return Err(fail("Truncated MOV header"));
    }
    if left < 7 {
        return Err(fail("Truncated ProRes header"));
    }
    if left < 8 {
        return Err(fail("Truncated ProRes picture"));
    }
    let ph: usize = (f[picture] / 8) as usize;
    let size = read32(f, picture + 1);
    let count = read16(f, picture + 5) as usize;
    if ph < 8 || f[picture + 7] != 0x30 || count != SLICES || size > left {
        return Err(fail("Unsupported ProRes prediction slice layout"));
    }
    let stop: usize = picture + size;
    if ph + SLICES * 2 > size {
        return Err(fail("Invalid ProRes prediction slice table"));
    }
    let slices = read_strips(f, start, picture + ph, stop)?;
    Ok(MovFrame { luma, chroma, slices })
}

fn mov_frame(raw: &[u8], start: usize) -> (x: Result<(usize, MovFrame), String>)
    ensures
        match x {
            Ok((n, m)) => frame_at(raw@, start as int) == Ok::<(int, Still), Seq<char>>(
                (n as int, m@),
            ) && m@.wf(raw@.len() as int) && n >= 28,
            Err(e) => frame_at(raw@, start as int) == Err::<(int, Still), Seq<char>>(e@),
        },
{
    if start > raw.len() || raw.len() - start < 4 {
        return Err(fail("Truncated MOV header"));
    }
    let len = read32(raw, start);
    let end: usize = match start.checked_add(len) {
        None => {
            return Err(fail("ProRes frame overflow"));
        },
        Some(end) => end,
    };
    if end > raw.len() {
        return Err(fail("Truncated ProRes frame"));
    }
    let f = &raw[start..end];
    let mark: [u8; 4] = [105, 99, 112, 102];
    assert(mark@ =~= crate::scanning::icpf());
    if len < 28 || !same(&f[4..8], &mark) || read16(f, 16) != 1000 || read16(f, 18) != 1000 || f[20] / 64
        != 3 || (f[20] / 4) % 4 != 0 {
        return Err(fail("Unsupported MOV prediction frame"));
    }
    let picture: usize = read16(f, 8) as usize + 8;
    if picture < 28 || picture >= len {
        return Err(fail("Invalid ProRes prediction header"));
    }
    let (luma, chroma, q) = read_weights(f)?;
    if q > picture || has_zero(&luma) || has_zero(&chroma) {
        return Err(fail("Invalid ProRes quantization matrix"));
    }
    let m = read_picture(f, start, picture, luma, chroma)?;
    Ok((len, m))
}

/// The first place at or after `i` where a frame's mark stands before `end`.
pub open spec fn mark_from(raw: Seq<u8>, i: int, end: int) -> Option<int>
    decreases end - i,
{
    if i + 4 > end {
        None
    } else if raw.subrange(i, i + 4) == crate::scanning::icpf() {
        Some(i)
    } else {
        mark_from(raw, i + 1, end)
    }
}

/// The frames in media data that lie from `p` to `end`, after those before.
pub open spec fn frames_within(raw: Seq<u8>, p: int, end: int, done: Seq<Still>) -> Outcome<Seq<Still>>
    decreases end - p,
{
    if p + 8 > end {
        Ok(done)
    } else {
        match mark_from(raw, p + 4, end) {
            None => Ok(done),
            Some(mark) => match frame_at(raw, mark - 4) {
                Err(e) => Err(e),
                Ok((n, still)) => if n > end - (mark - 4) {
                    Err("ProRes frame outside MOV atom"@)
                } else if done.len() >= crate::gif_split::MAX_FRAMES {
                    Err("Too many MOV prediction frames"@)
                } else if mark - 4 + n <= p {
                    Ok(done)
                } else {
                    frames_within(raw, mark - 4 + n, end, done.push(still))
                },
            },
        }
    }
}

/// The atom that starts at `at`: where its data start, where it ends, and whether it is media data.
pub open spec fn atom_at(raw: Seq<u8>, at: int) -> Outcome<(int, int, bool)> {
    if at + 4 > raw.len() {
        Err("Truncated MOV header"@)
    } else if at + 8 > raw.len() {
        Err("Truncated MOV atom"@)
    } else {
        let short = crate::scanning::be32(raw, at);
        if short == 1 && at + 16 > raw.len() {
            Err("Truncated MOV atom"@)
        } else if short == 1 && crate::scanning::be64(raw, at + 8) > usize::MAX {
            Err("MOV atom overflow"@)
        } else {
            let header = if short == 1 {
                16int
            } else {
                8
            };
            let n = if short == 1 {
                crate::scanning::be64(raw, at + 8)
            } else {
                short
            };
            let len = if n == 0 {
                raw.len() - at
            } else {
                n
            };
            if len < header || len > raw.len() - at {
                Err("Invalid MOV atom length"@)
            } else {
                Ok((at + header, at + len, raw.subrange(at + 4, at + 8) == crate::scanning::mdat()))
            }
        }
    }
}

/// The frames in the atoms from `at` on, after those before.
pub open spec fn frames_after(raw: Seq<u8>, at: int, done: Seq<Still>) -> Outcome<Seq<Still>>
    decreases raw.len() - at,
{
    if at >= raw.len() {
        if done.len() == 0 {
            Err("No supported MOV prediction frames"@)
        } else {
            Ok(done)
        }
    } else {
        match atom_at(raw, at) {
            Err(e) => Err(e),
            Ok((from, end, media)) => if media {
                match frames_within(raw, from, end, done) {
                    Err(e) => Err(e),
                    Ok(next) => if end <= at {
                        Ok(next)
                    } else {
                        frames_after(raw, end, next)
                    },
                }
            } else if end <= at {
                Ok(done)
            } else {
                frames_after(raw, end, done)
            },
        }
    }
}

/// The frames of a film.
pub open spec fn film(raw: Seq<u8>) -> Outcome<Seq<Still>> {
    if raw.len() > FILM_LIMIT {
        Err("MOV prediction input exceeds limit"@)
    } else {
        frames_after(raw, 0, Seq::empty())
    }
}

pub open spec fn stills(v: Seq<MovFrame>) -> Seq<Still> {
    Seq::new(v.len(), |i: int| v[i]@)
}

/// Finds a frame's mark in a piece of a film.
fn find_mark(raw: &[u8], from: usize, to: usize) -> (r: Option<usize>)
    requires
        from <= to <= raw.len(),
    ensures
        match r {
            Some(i) => mark_from(raw@, from as int, to as int) == Some(i as int) && from <= i && i + 4
                <= to,
            None => mark_from(raw@, from as int, to as int) is None,
        },
{
    let mark: [u8; 4] = [105, 99, 112, 102];
    assert(mark@ =~= crate::scanning::icpf());
    let mut i: usize = from;
    while to - i >= 4
        invariant
            from <= i <= to,
            to <= raw.len(),
            mark@ == crate::scanning::icpf(),
            mark_from(raw@, from as int, to as int) == mark_from(raw@, i as int, to as int),
        decreases to - i,
    {
        if raw[i] == 105 && same(&raw[i..i + 4], &mark) {
            return Some(i);
        }
        proof {
            let four = raw@.subrange(i as int, i + 4);
            assert(four[0] == raw@[i as int]);
        }
        i += 1;
    }
    None
}

proof fn lemma_mark_piece(raw: Seq<u8>, from: int, to: int, end: int)
    requires
        0 <= from <= to <= end <= raw.len(),
        to == end || to - from >= 4,
    ensures
        match mark_from(raw, from, to) {
            Some(i) => mark_from(raw, from, end) == Some(i),
            None => to < end ==> mark_from(raw, from, end) == mark_from(raw, to - 3, end),
        },
    decreases to - from,
{
    if from + 4 > to {
    } else if raw.subrange(from, from + 4) == crate::scanning::icpf() {
    } else if to - (from + 1) >= 4 || to == end {
        lemma_mark_piece(raw, from + 1, to, end);
    } else {
        assert(mark_from(raw, from + 1, to) is None);
    }
}

/// Finds the next frame's mark, in steps after each of which the operation can be stopped.
fn seek_mark<M: Monitor>(raw: &[u8], from: usize, end: usize, progress: &mut M, share: &Share) -> (r: Result<
    Option<usize>,
    String,
>)
    requires
        from <= end <= raw.len(),
        raw.len() <= FILM_LIMIT,
        share.fits(),
        !old(progress).stopped(),
    ensures
        match r {
            Ok(found) => !final(progress).stopped() && match found {
                Some(i) => mark_from(raw@, from as int, end as int) == Some(i as int) && from <= i && i
                    + 4 <= end,
                None => mark_from(raw@, from as int, end as int) is None,
            },
            Err(e) => final(progress).stopped() && e@ == "error.cancelled"@,
        },
{
    let mut scan: usize = from;
    while end - scan >= 4
        invariant
            from <= scan <= end,
            end <= raw.len(),
            raw.len() <= FILM_LIMIT,
            share.fits(),
            !progress.stopped(),
            mark_from(raw@, from as int, end as int) == mark_from(raw@, scan as int, end as int),
        decreases end - scan,
    {
        if !share.report(progress, 1000, 1_000_000) {
            return Err(fail("error.cancelled"));
        }
        let to: usize = if end - scan > 65536 {
            scan + 65536
        } else {
            end
        };
        proof {
            lemma_mark_piece(raw@, scan as int, to as int, end as int);
        }
        match find_mark(raw, scan, to) {
            Some(i) => {
                return Ok(Some(i));
            },
            None => {},
        }
        if to == end {
            return Ok(None);
        }
        scan = to - 3;
    }
    Ok(None)
}

/// Frames whose slices all lie in a film.
pub open spec fn all_wf(v: Seq<MovFrame>, len: int) -> bool {
    forall|i: int| 0 <= i < v.len() ==> (#[trigger] v[i])@.wf(len)
}

fn read_within<M: Monitor>(
    raw: &[u8],
    from: usize,
    end: usize,
    frames: &mut Vec<MovFrame>,
    progress: &mut M,
    share: &Share,
) -> (r: Result<(), String>)
    requires
        from <= end <= raw.len(),
        raw.len() <= FILM_LIMIT,
        share.fits(),
        !old(progress).stopped(),
        all_wf(old(frames)@, raw@.len() as int),
        old(frames)@.len() <= crate::gif_split::MAX_FRAMES,
    ensures
        all_wf(final(frames)@, raw@.len() as int),
        final(frames)@.len() <= crate::gif_split::MAX_FRAMES,
        match r {
            Ok(_) => !final(progress).stopped() && frames_within(
                raw@,
                from as int,
                end as int,
                stills(old(frames)@),
            ) == Ok::<Seq<Still>, Seq<char>>(stills(final(frames)@)),
            Err(e) => Err::<Seq<Still>, Seq<char>>(e@) == crate::wire::unless(
                final(progress).stopped(),
                frames_within(raw@, from as int, end as int, stills(old(frames)@)),
            ),
        },
{
    let ghost whole = frames_within(raw@, from as int, end as int, stills(frames@));
    let mut p: usize = from;
    while p <= end && end - p >= 8
        invariant
            from <= p,
            end <= raw.len(),
            raw.len() <= FILM_LIMIT,
            share.fits(),
            !progress.stopped(),
            all_wf(frames@, raw@.len() as int),
            frames@.len() <= crate::gif_split::MAX_FRAMES,
            whole == frames_within(raw@, from as int, end as int, stills(old(frames)@)),
            whole == frames_within(raw@, p as int, end as int, stills(frames@)),
        decreases end - p,
    {
        let mark: usize = match seek_mark(raw, p + 4, end, progress, share)? {
            None => {
                return Ok(());
            },
            Some(mark) => mark,
        };
        let start: usize = mark - 4;
        let (n, frame) = mov_frame(raw, start)?;
        if n > end - start {
            return Err(fail("ProRes frame outside MOV atom"));
        }
        if frames.len() >= crate::gif_split::MAX_FRAMES {
            return Err(fail("Too many MOV prediction frames"));
        }
        let ghost before = stills(frames@);
        frames.push(frame);
        assert(stills(frames@) =~= before.push(frame@));
        p = start + n;
    }
    Ok(())
}

pub open spec fn stills_of(r: Result<Vec<MovFrame>, String>) -> Outcome<Seq<Still>> {
    match r {
        Ok(v) => Ok(stills(v@)),
        Err(e) => Err(e@),
    }
}

fn read_atom(raw: &[u8], at: usize) -> (r: Result<(usize, usize, bool), String>)
    requires
        at < raw.len(),
    ensures
        match r {
            Ok((from, end, media)) => atom_at(raw@, at as int) == Ok::<(int, int, bool), Seq<char>>(
                (from as int, end as int, media),
            ) && at < from <= end <= raw.len(),
            Err(e) => atom_at(raw@, at as int) == Err::<(int, int, bool), Seq<char>>(e@),
        },
{
    let left: usize = raw.len() - at;
    if left < 4 {
        return Err(fail("Truncated MOV header"));
    }
    let short = read32(raw, at);
    if left < 8 {
        return Err(fail("Truncated MOV atom"));
    }
    let mut header: usize = 8;
    let mut len: usize = short;
    if short == 1 {
        if left < 16 {
            return Err(fail("Truncated MOV atom"));
        }
        let n = read64(raw, at + 8);
        if n > usize::MAX as u64 {
            return Err(fail("MOV atom overflow"));
        }
        len = n as usize;
        header = 16;
    }
    if len == 0 {
        len = left;
    }
    if len < header || len > left {
        return Err(fail("Invalid MOV atom length"));
    }
    let kind: [u8; 4] = [109, 100, 97, 116];
    assert(kind@ =~= crate::scanning::mdat());
    Ok((at + header, at + len, same(&raw[at + 4..at + 8], &kind)))
}

/// Reads the frames of a film. Reports go to a share of a longer operation.
pub fn mov_frames<M: Monitor>(raw: &[u8], progress: &mut M, share: &Share) -> (r: Result<Vec<MovFrame>, String>)
    requires
        share.fits(),
        !old(progress).stopped(),
    ensures
        stills_of(r) == crate::wire::unless(final(progress).stopped(), film(raw@)),
        r matches Ok(v) ==> all_wf(v@, raw@.len() as int) && 1 <= v@.len()
            <= crate::gif_split::MAX_FRAMES && raw@.len() <= FILM_LIMIT,
        0 < raw@.len() <= FILM_LIMIT ==> crate::monitor::heeds(*old(progress), r),
{
    if raw.len() > FILM_LIMIT {
        return Err(fail("MOV prediction input exceeds limit"));
    }
    let mut frames: Vec<MovFrame> = Vec::new();
    let ghost whole = film(raw@);
    assert(stills(frames@) =~= Seq::empty());
    let mut at: usize = 0;
    while at < raw.len()
        invariant
            at <= raw.len(),
            raw.len() <= FILM_LIMIT,
            share.fits(),
            !progress.stopped(),
            all_wf(frames@, raw@.len() as int),
            frames@.len() <= crate::gif_split::MAX_FRAMES,
            whole == film(raw@),
            whole == frames_after(raw@, at as int, stills(frames@)),
            at == 0 ==> *progress == *old(progress),
            at > 0 ==> !crate::monitor::refuses(*old(progress)),
        decreases raw.len() - at,
    {
        let ghost then = *progress;
        if !share.report(progress, 1000, 1_000_000) {
            return Err(fail("error.cancelled"));
        }
        proof {
            if at == 0 {
                let told = (share.base + 1000 * share.span / 1_000_000) as u64;
                crate::monitor::lemma_agreed(then, told, share.whole, *progress);
            }
        }
        let (from, end, media) = read_atom(raw, at)?;
        if media {
            read_within(raw, from, end, &mut frames, progress, share)?;
        }
        at = end;
    }
    if frames.len() == 0 {
        return Err(fail("No supported MOV prediction frames"));
    }
    Ok(frames)
}

}
