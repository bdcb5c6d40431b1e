//! The slices of a movie whose frames all have 1000 by 1000 pixels.

use crate::monitor::Monitor;
use crate::mov_cross::Quant;
use crate::scanning::{read16, read32, read64};
use crate::wire::{fail, same, Outcome};
use vstd::prelude::*;

verus! {

broadcast use {
    crate::monitor::lemma_climbs_on,
    crate::monitor::lemma_climbs_join,
    crate::monitor::lemma_climbs_up,
};

pub const RAW_LIMIT: usize = 268435456;

pub const MAX_FRAMES: usize = 88;

/// Where the slices of a row start, in macroblocks.
pub const SLICE_STARTS: [usize; 10] = [0, 8, 16, 24, 32, 40, 48, 56, 60, 62];

/// How many macroblocks the slices of a row have.
pub const SLICE_WIDTHS: [usize; 10] = [8, 8, 8, 8, 8, 8, 8, 4, 2, 1];

/// The coefficients of one channel of a slice.
#[derive(Clone, Copy, Debug, PartialEq, Eq)]
pub struct Plane {
    pub offset: usize,
    pub len: usize,
    pub frame: usize,
    pub channel: usize,
    pub slice: usize,
}

/// How many blocks a channel of a slice has.
pub open spec fn blocks_of(slice: int) -> int {
    SLICE_WIDTHS@[slice % 10] * 4
}

/// Where coefficient `k` of block `b` of a slice lies among those of a movie.
pub open spec fn coefficient_at(frame: int, ch: int, slice: int, b: int, k: int) -> int {
    let within = b % 4;
    let (x, y) = if ch == 0 {
        (within % 2, within / 2)
    } else {
        (within / 2, within % 2)
    };
    frame * crate::motion_pixels::FRAME + ch * crate::motion_pixels::PLANE + ((slice / 10 * 2 + y)
        * crate::motion_pixels::W + SLICE_STARTS@[slice % 10] * 2 + b / 4 * 2 + x) * 64 + k
}

/// The first column of blocks of a slice, its first row, and its number of blocks.
pub fn geometry(slice: usize) -> (r: (usize, usize, usize))
    requires
        slice < 630,
    ensures
        r.0 == SLICE_STARTS@[slice as int % 10] * 2,
        r.1 == slice as int / 10 * 2,
        r.2 == blocks_of(slice as int),
        crate::plane::block_count(r.2 as int),
        4 <= r.2 <= 32,
        r.0 + r.2 / 2 <= 126,
        r.1 <= 124,
{
    let i: usize = slice % 10;
    assert(i == 0 || i == 1 || i == 2 || i == 3 || i == 4 || i == 5 || i == 6 || i == 7 || i == 8 || i
        == 9);
    (SLICE_STARTS[i] * 2, slice / 10 * 2, SLICE_WIDTHS[i] * 4)
}

/// The place of a coefficient.
pub fn place_of(frame: usize, ch: usize, slice: usize, b: usize, k: usize) -> (i: usize)
    requires
        frame < MAX_FRAMES,
        ch < 3,
        slice < 630,
        b < blocks_of(slice as int),
        k < 64,
    ensures
        i == coefficient_at(frame as int, ch as int, slice as int, b as int, k as int),
        frame * crate::motion_pixels::FRAME <= i < (frame + 1) * crate::motion_pixels::FRAME,
{
    let (mx, my, blocks) = geometry(slice);
    let within: usize = b % 4;
    let (x, y): (usize, usize) = if ch == 0 {
        (within % 2, within / 2)
    } else {
        (within / 2, within % 2)
    };
    frame * 3048192 + ch * 1016064 + ((my + y) * 126 + mx + b / 4 * 2 + x) * 64 + k
}

/// The weights of three channels, one after another.
pub open spec fn flat(q: Quant) -> Seq<u8> {
    Seq::new(192, |i: int| q@[i / 64]@[i % 64])
}

/// The weights that 192 bytes stand for.
pub open spec fn quant_of(s: Seq<u8>) -> Quant {
    choose|q: Quant| flat(q) == s
}

pub proof fn lemma_quant_of(q: Quant, s: Seq<u8>)
    requires
        flat(q) == s,
    ensures
        quant_of(s) == q,
{
    let p = quant_of(s);
    assert(flat(p) == s);
    assert forall|ch: int| 0 <= ch < 3 implies p@[ch] == q@[ch] by {
        assert forall|k: int| 0 <= k < 64 implies p@[ch]@[k] == q@[ch]@[k] by {
            let i = ch * 64 + k;
            assert(i / 64 == ch && i % 64 == k);
            assert(flat(p)[i] == flat(q)[i]);
        }
        assert(p@[ch] =~= q@[ch]);
    }
    assert(p =~= q);
}

/// Reads the weights of three channels.
pub fn read_quant(y: &[u8], u: &[u8], v: &[u8]) -> (q: Quant)
    requires
        y.len() == 64,
        u.len() == 64,
        v.len() == 64,
    ensures
        q == quant_of(y@ + u@ + v@),
        flat(q) == y@ + u@ + v@,
{
    let mut q: Quant = [[0u8; 64], [0u8; 64], [0u8; 64]];
    q[0] = read_channel(y);
    q[1] = read_channel(u);
    q[2] = read_channel(v);
    proof {
        let s = y@ + u@ + v@;
        assert forall|i: int| 0 <= i < 192 implies #[trigger] flat(q)[i] == s[i] by {
            assert(q@[0]@ == y@ && q@[1]@ == u@ && q@[2]@ == v@);
            assert(i / 64 == 0 || i / 64 == 1 || i / 64 == 2);
        }
        assert(flat(q) =~= s);
        lemma_quant_of(q, s);
    }
    q
}

pub(crate) fn read_channel(s: &[u8]) -> (q: [u8; 64])
    requires
        s.len() == 64,
    ensures
        q@ == s@,
{
    let mut q: [u8; 64] = [0u8; 64];
    let mut k: usize = 0;
    while k < 64
        invariant
            k <= 64,
            s.len() == 64,
            forall|i: int| 0 <= i < k ==> #[trigger] q@[i] == s@[i],
        decreases 64 - k,
    {
        q[k] = s[k];
        k += 1;
    }
    assert(q@ =~= s@);
    q
}

pub open spec fn positive(s: Seq<u8>) -> bool {
    forall|i: int| 0 <= i < s.len() ==> #[trigger] s[i] > 0
}

/// Whether a string of bytes is free of zeros.
pub fn has_zero(s: &[u8]) -> (r: bool)
    ensures
        r == !positive(s@),
{
    let mut i: usize = 0;
    while i < s.len()
        invariant
            i <= s.len(),
            forall|j: int| 0 <= j < i ==> #[trigger] s@[j] > 0,
        decreases s.len() - i,
    {
        if s[i] == 0 {
            assert(s@[i as int] == 0);
            return true;
        }
        i += 1;
    }
    false
}

/// One plane, unless it is empty.
pub open spec fn plane_if(offset: int, len: int, frame: int, ch: int, slice: int) -> Seq<Plane> {
    if len > 0 {
        seq![
            Plane {
                offset: offset as usize,
                len: len as usize,
                frame: frame as usize,
                channel: ch as usize,
                slice: slice as usize,
            },
        ]
    } else {
        Seq::empty()
    }
}

/// The planes of the slices from number `slice` on, whose bytes start at `pos` of frame `f`, which
/// itself starts at `start` of the movie.
pub open spec fn slices_from(
    f: Seq<u8>,
    start: int,
    frame: int,
    table: int,
    stop: int,
    slice: int,
    pos: int,
) -> Outcome<Seq<Plane>>
    decreases 630 - slice,
{
    if slice >= 630 {
        if pos != stop {
            Err("Invalid ProRes picture suffix"@)
        } else {
            Ok(Seq::empty())
        }
    } else if pos >= f.len() {
        Err("Truncated ProRes slice"@)
    } else {
        let n = crate::scanning::be16(f, table + 2 * slice);
        let sh = f[pos] as int / 8;
        let a = crate::scanning::be16(f, pos + 2);
        let b = crate::scanning::be16(f, pos + 4);
        let c = crate::scanning::be16(f, pos + 6);
        if sh < 8 || n < sh || pos + n > stop || pos + 1 >= f.len() || f[pos + 1] != 1 {
            Err("Unsupported ProRes motion qscale or slice"@)
        } else if sh + a + b + c > n {
            Err("Invalid ProRes plane lengths"@)
        } else {
            match slices_from(f, start, frame, table, stop, slice + 1, pos + n) {
                Err(e) => Err(e),
                Ok(rest) => Ok(
                    plane_if(start + pos + sh, a, frame, 0, slice) + plane_if(
                        start + pos + sh + a,
                        b,
                        frame,
                        1,
                        slice,
                    ) + plane_if(start + pos + sh + a + b, c, frame, 2, slice) + rest,
                ),
            }
        }
    }
}

/// The weights in a frame header, and where they end.
pub open spec fn weights_at(f: Seq<u8>) -> Outcome<(Seq<u8>, int)> {
    let own = f[27] as int / 2 % 2 == 1;
    let chroma = f[27] as int % 2 == 1;
    let at = if own {
        92int
    } else {
        28int
    };
    let luma = if own {
        f.subrange(28, 92)
    } else {
        Seq::new(64, |i: int| 4u8)
    };
    if at > f.len() || (chroma && at + 64 > f.len()) {
        Err("Truncated ProRes quantization"@)
    } else if chroma {
        Ok((luma + f.subrange(at, at + 64) + f.subrange(at, at + 64), at + 64))
    } else {
        Ok((luma + luma + luma, at))
    }
}

/// The picture at `picture` of frame `f`.
pub open spec fn picture_at(f: Seq<u8>, start: int, frame: int, picture: int) -> Outcome<Seq<Plane>> {
    if picture + 5 > f.len() {
        Err("Truncated MOV header"@)
    } else if picture + 7 > f.len() {
        Err("Truncated ProRes header"@)
    } else {
        let ph = f[picture] as int / 8;
        let size = crate::scanning::be32(f, picture + 1);
        let count = crate::scanning::be16(f, picture + 5);
        if ph < 8 || picture + 8 > f.len() || f[picture + 7] != 0x30 || count != 630 || size
            > f.len() - picture || size < ph + 1260 {
            Err("Unsupported ProRes motion slices"@)
        } else {
            slices_from(f, start, frame, picture + ph, picture + size, 0, picture + ph + 1260)
        }
    }
}

/// A frame with its length, its weights, and its planes.
pub open spec fn frame_in(f: Seq<u8>, start: int, frame: int) -> Outcome<(Quant, Seq<Plane>)> {
    if f.len() < 28 || f.subrange(4, 8) != crate::scanning::icpf() || crate::scanning::be16(f, 16)
        != 1000 || crate::scanning::be16(f, 18) != 1000 || f[20] as int / 64 != 3 || f[20] as int / 4 % 4
        != 0 {
        Err("Unsupported MOV motion frame layout"@)
    } else {
        let picture = crate::scanning::be16(f, 8) + 8;
        if picture < 28 || picture >= f.len() {
            Err("Invalid ProRes frame header"@)
        } else {
            match weights_at(f) {
                Err(e) => Err(e),
                Ok((weights, at)) => if at > picture || !positive(weights) {
                    Err("Invalid ProRes quantization"@)
                } else {
                    match picture_at(f, start, frame, picture) {
                        Err(e) => Err(e),
                        Ok(planes) => Ok((quant_of(weights), planes)),
                    }
                },
            }
        }
    }
}

/// The frame at `start` of a movie.
pub open spec fn frame_at(raw: Seq<u8>, start: int, frame: int) -> Outcome<
    (int, Quant, Seq<Plane>),
> {
    if start + 4 > raw.len() {
        Err("Truncated MOV header"@)
    } else {
        let len = crate::scanning::be32(raw, start);
        if start + len > usize::MAX {
            Err("ProRes length overflow"@)
        } else if start + len > raw.len() {
            Err("Truncated ProRes frame"@)
        } else {
            match frame_in(raw.subrange(start, start + len), start, frame) {
                Err(e) => Err(e),
                Ok((q, planes)) => Ok((len, q, planes)),
            }
        }
    }
}

/// The frames between `p` and `end`, behind those found before.
pub open spec fn frames_from(
    raw: Seq<u8>,
    p: int,
    end: int,
    quant: Seq<Quant>,
    planes: Seq<Plane>,
) -> Outcome<(Seq<Quant>, Seq<Plane>)>
    decreases end - p,
{
    if p + 8 > end {
        Ok((quant, planes))
    } else if raw.subrange(p + 4, p + 8) != crate::scanning::icpf() {
        frames_from(raw, p + 1, end, quant, planes)
    } else if quant.len() >= MAX_FRAMES {
        Err("MOV motion coefficient limit"@)
    } else {
        match frame_at(raw, p, quant.len() as int) {
            Err(e) => Err(e),
            Ok((n, q, more)) => if n > end - p {
                Err("ProRes frame crosses MOV atom"@)
            } else if n <= 0 {
                Ok((quant, planes))
            } else {
                frames_from(raw, p + n, end, quant.push(q), planes + more)
            },
        }
    }
}

/// The atom at `atom`: the length of its header, and its own.
pub open spec fn atom_at(raw: Seq<u8>, atom: int) -> Outcome<(int, int)> {
    if atom + 4 > raw.len() {
        Err("Truncated MOV header"@)
    } else if atom + 8 > raw.len() {
        Err("Truncated MOV atom"@)
    } else {
        let long = crate::scanning::be32(raw, atom) == 1;
        if long && atom + 16 > raw.len() {
            Err("Truncated MOV atom"@)
        } else if long && crate::scanning::be64(raw, atom + 8) > usize::MAX {
            Err("MOV atom overflow"@)
        } else {
            let header = if long {
                16int
            } else {
                8
            };
            let said = if long {
                crate::scanning::be64(raw, atom + 8)
            } else {
                crate::scanning::be32(raw, atom)
            };
            let size = if said == 0 {
                raw.len() - atom
            } else {
                said
            };
            if size < header || size > raw.len() - atom {
                Err("Invalid MOV atom size"@)
            } else {
                Ok((header, size))
            }
        }
    }
}

/// The frames of the atoms from `atom` on, behind those found before.
pub open spec fn atoms_from(raw: Seq<u8>, atom: int, quant: Seq<Quant>, planes: Seq<Plane>) -> Outcome<
    (Seq<Quant>, Seq<Plane>),
>
    decreases raw.len() - atom,
{
    if atom >= raw.len() {
        Ok((quant, planes))
    } else {
        match atom_at(raw, atom) {
            Err(e) => Err(e),
            Ok((header, size)) => if raw.subrange(atom + 4, atom + 8) != crate::scanning::mdat() {
                atoms_from(raw, atom + size, quant, planes)
            } else {
                match frames_from(raw, atom + header, atom + size, quant, planes) {
                    Err(e) => Err(e),
                    Ok((quant, planes)) => atoms_from(raw, atom + size, quant, planes),
                }
            },
        }
    }
}

/// The weights of all frames of a movie, and all its planes.
pub open spec fn scanned(raw: Seq<u8>) -> Outcome<(Seq<Quant>, Seq<Plane>)> {
    if raw.len() > RAW_LIMIT {
        Err("MOV motion source exceeds limit"@)
    } else {
        match atoms_from(raw, 0, Seq::empty(), Seq::empty()) {
            Err(e) => Err(e),
            Ok((quant, planes)) => if quant.len() == 0 || planes.len() == 0 {
                Err("No supported MOV motion frames"@)
            } else {
                Ok((quant, planes))
            },
        }
    }
}

/// Whether planes come in order, do not overlap, end by `end`, and belong to the first `frames`
/// frames.
pub open spec fn lined(v: Seq<Plane>, end: int, frames: int) -> bool {
    &&& forall|i: int|
        0 <= i < v.len() ==> 1 <= (#[trigger] v[i]).len <= 65535 && v[i].offset + v[i].len <= end
            && v[i].frame < frames && v[i].channel < 3 && v[i].slice < 630
    &&& forall|i: int, j: int|
        0 <= i < j < v.len() ==> (#[trigger] v[i]).offset + v[i].len <= (#[trigger] v[j]).offset
}

fn put_plane(planes: &mut Vec<Plane>, offset: usize, len: usize, frame: usize, channel: usize, slice: usize)
    requires
        lined(old(planes)@, offset as int, frame + 1),
        len <= 65535,
        channel < 3,
        slice < 630,
        offset + len <= usize::MAX,
        frame < MAX_FRAMES,
    ensures
        final(planes)@ == old(planes)@ + plane_if(
            offset as int,
            len as int,
            frame as int,
            channel as int,
            slice as int,
        ),
        lined(final(planes)@, offset + len, frame + 1),
        final(planes)@.len() <= old(planes)@.len() + 1,
{
    if len > 0 {
        planes.push(Plane { offset, len, frame, channel, slice });
    }
    assert(planes@ =~= old(planes)@ + plane_if(
        offset as int,
        len as int,
        frame as int,
        channel as int,
        slice as int,
    ));
}

fn lengths_at(f: &[u8], pos: usize) -> (r: (usize, usize, usize))
    requires
        pos + 8 <= f.len(),
    ensures
        r.0 == crate::scanning::be16(f@, pos + 2),
        r.1 == crate::scanning::be16(f@, pos + 4),
        r.2 == crate::scanning::be16(f@, pos + 6),
        r.0 <= 65535,
        r.1 <= 65535,
        r.2 <= 65535,
{
    (read16(f, pos + 2), read16(f, pos + 4), read16(f, pos + 6))
}

fn read_slices<M: Monitor>(
    f: &[u8],
    start: usize,
    frame: usize,
    table: usize,
    stop: usize,
    planes: &mut Vec<Plane>,
    monitor: &mut M,
) -> (r: Result<(), String>)
    requires
        table + 1260 <= stop <= f.len(),
        start + f.len() <= RAW_LIMIT,
        frame < MAX_FRAMES,
        lined(old(planes)@, start as int, frame + 1),
        !old(monitor).stopped(),
    ensures
        crate::monitor::climbs(*old(monitor), 0, 0, 1_000_000, *final(monitor)),
        match crate::wire::unless(
            final(monitor).stopped(),
            slices_from(f@, start as int, frame as int, table as int, stop as int, 0, table + 1260),
        ) {
            Ok(more) => r is Ok && final(planes)@ == old(planes)@ + more && lined(
                final(planes)@,
                start + stop,
                frame + 1,
            ),
            Err(e) => r matches Err(m) && m@ == e,
        },
{
    proof {
        crate::monitor::lemma_stays(*monitor, 0, 0, 1_000_000);
    }
    let ghost whole = slices_from(
        f@,
        start as int,
        frame as int,
        table as int,
        stop as int,
        0,
        table + 1260,
    );
    let ghost mut got: Seq<Plane> = Seq::empty();
    let mut slice: usize = 0;
    let mut pos: usize = table + 1260;
    assert(planes@ =~= old(planes)@ + got);
    while slice < 630
        invariant
            crate::monitor::climbs(*old(monitor), 0, 0, 1_000_000, *monitor),
            slice <= 630,
            table + 1260 <= pos <= stop,
            stop <= f.len(),
            start + f.len() <= RAW_LIMIT,
            frame < MAX_FRAMES,
            lined(planes@, start + pos, frame + 1),
            planes@ == old(planes)@ + got,
            !monitor.stopped(),
            whole == slices_from(
                f@,
                start as int,
                frame as int,
                table as int,
                stop as int,
                0,
                table + 1260,
            ),
            match slices_from(
                f@,
                start as int,
                frame as int,
                table as int,
                stop as int,
                slice as int,
                pos as int,
            ) {
                Ok(rest) => whole == Ok::<Seq<Plane>, Seq<char>>(got + rest),
                Err(e) => whole == Err::<Seq<Plane>, Seq<char>>(e),
            },
        decreases 630 - slice,
    {
        if slice % 64 == 0 && !monitor.report(0, 1_000_000) {
            return Err(fail("error.cancelled"));
        }
        let ghost here = slices_from(
            f@,
            start as int,
            frame as int,
            table as int,
            stop as int,
            slice as int,
            pos as int,
        );
        let n: usize = read16(f, table + 2 * slice);
        if pos >= f.len() {
            return Err(fail("Truncated ProRes slice"));
        }
        let sh: usize = f[pos] as usize / 8;
        if sh < 8 || n < sh || n > stop - pos || f[pos + 1] != 1 {
            return Err(fail("Unsupported ProRes motion qscale or slice"));
        }
        let (a, b, c) = lengths_at(f, pos);
        if sh + a + b + c > n {
            return Err(fail("Invalid ProRes plane lengths"));
        }
        let ghost before = planes@;
        let at: usize = start + pos + sh;
        put_plane(planes, at, a, frame, 0, slice);
        put_plane(planes, at + a, b, frame, 1, slice);
        put_plane(planes, at + a + b, c, frame, 2, slice);
        proof {
            let more = plane_if(at as int, a as int, frame as int, 0, slice as int) + plane_if(
                at + a,
                b as int,
                frame as int,
                1,
                slice as int,
            ) + plane_if(at + a + b, c as int, frame as int, 2, slice as int);
            assert(planes@ =~= old(planes)@ + (got + more));
            let rest = slices_from(
                f@,
                start as int,
                frame as int,
                table as int,
                stop as int,
                slice + 1,
                pos + n,
            );
            if let Ok(tail) = rest {
                assert(got + (more + tail) =~= (got + more) + tail);
            }
            got = got + more;
        }
        pos = pos + n;
        slice += 1;
    }
    if pos != stop {
        return Err(fail("Invalid ProRes picture suffix"));
    }
    assert(got + Seq::<Plane>::empty() =~= got);
    Ok(())
}


fn read_weights(f: &[u8]) -> (r: Result<(Quant, usize, bool), String>)
    requires
        f.len() >= 28,
    ensures
        match weights_at(f@) {
            Ok((w, at)) => r matches Ok((q, n, zero)) && q == quant_of(w) && n == at && zero == !positive(
                w,
            ) && flat(q) == w,
            Err(e) => r matches Err(m) && m@ == e,
        },
{
    let own: bool = f[27] / 2 % 2 == 1;
    let chroma: bool = f[27] % 2 == 1;
    let at: usize = if own { 92 } else { 28 };
    if at > f.len() {
        return Err(fail("Truncated ProRes quantization"));
    }
    let fours: [u8; 64] = [4u8; 64];
    let luma: &[u8] = if own { &f[28..92] } else { fours.as_slice() };
    assert(!own ==> luma@ =~= Seq::new(64, |i: int| 4u8));
    if chroma {
        if f.len() - at < 64 {
            return Err(fail("Truncated ProRes quantization"));
        }
        let second = &f[at..at + 64];
        let q = read_quant(luma, second, second);
        let zero = has_zero(luma) || has_zero(second);
        proof {
            lemma_positive(luma@, second@, second@);
        }
        Ok((q, at + 64, zero))
    } else {
        let q = read_quant(luma, luma, luma);
        let zero = has_zero(luma);
        proof {
            lemma_positive(luma@, luma@, luma@);
        }
        Ok((q, at, zero))
    }
}

proof fn lemma_positive(a: Seq<u8>, b: Seq<u8>, c: Seq<u8>)
    ensures
        positive(a + b + c) == (positive(a) && positive(b) && positive(c)),
{
    let s = a + b + c;
    if positive(s) {
        assert forall|i: int| 0 <= i < a.len() implies #[trigger] a[i] > 0 by {
            assert(s[i] == a[i]);
        }
        assert forall|i: int| 0 <= i < b.len() implies #[trigger] b[i] > 0 by {
            assert(s[a.len() + i] == b[i]);
        }
        assert forall|i: int| 0 <= i < c.len() implies #[trigger] c[i] > 0 by {
            assert(s[a.len() + b.len() + i] == c[i]);
        }
    }
}

/// Whether no weight of the frames is zero.
pub proof fn lemma_weighed(q: Quant)
    requires
        positive(flat(q)),
    ensures
        crate::motion_search::weighed(q),
{
    assert forall|ch: int, k: int| 0 <= ch < 3 && 0 <= k < 64 implies #[trigger] q@[ch]@[k] > 0 by {
        assert((ch * 64 + k) / 64 == ch && (ch * 64 + k) % 64 == k);
        assert(flat(q)[ch * 64 + k] > 0);
    }
}

fn read_frame<M: Monitor>(
    f: &[u8],
    start: usize,
    frame: usize,
    planes: &mut Vec<Plane>,
    monitor: &mut M,
) -> (r: Result<Quant, String>)
    requires
        start + f.len() <= RAW_LIMIT,
        frame < MAX_FRAMES,
        lined(old(planes)@, start as int, frame + 1),
        !old(monitor).stopped(),
    ensures
        crate::monitor::climbs(*old(monitor), 0, 0, 1_000_000, *final(monitor)),
        match crate::wire::unless(
            final(monitor).stopped(),
            frame_in(f@, start as int, frame as int),
        ) {
            Ok((q, more)) => r matches Ok(w) && w == q && final(planes)@ == old(planes)@ + more && lined(
                final(planes)@,
                start + f@.len(),
                frame + 1,
            ) && positive(flat(q)) && f@.len() >= 28,
            Err(e) => r matches Err(m) && m@ == e,
        },
{
    proof {
        crate::monitor::lemma_stays(*monitor, 0, 0, 1_000_000);
    }
    let len: usize = f.len();
    if len < 28 || !same(&f[4..8], &[105u8, 99, 112, 102]) || read16(f, 16) != 1000 || read16(f, 18)
        != 1000 || f[20] / 64 != 3 || f[20] / 4 % 4 != 0 {
        return Err(fail("Unsupported MOV motion frame layout"));
    }
    let picture: usize = read16(f, 8) + 8;
    if picture < 28 || picture >= len {
        return Err(fail("Invalid ProRes frame header"));
    }
    let (q, at, zero) = read_weights(f)?;
    if at > picture || zero {
        return Err(fail("Invalid ProRes quantization"));
    }
    let ph: usize = f[picture] as usize / 8;
    if len - picture < 5 {
        return Err(fail("Truncated MOV header"));
    }
    let size = read32(f, picture + 1);
    if len - picture < 7 {
        return Err(fail("Truncated ProRes header"));
    }
    let count = read16(f, picture + 5);
    if ph < 8 || len - picture < 8 || f[picture + 7] != 0x30 || count != 630 || size > len - picture
        || size < ph + 1260 {
        return Err(fail("Unsupported ProRes motion slices"));
    }
    read_slices(f, start, frame, picture + ph, picture + size, planes, monitor)?;
    Ok(q)
}

fn parse_frame<M: Monitor>(
    raw: &[u8],
    start: usize,
    frame: usize,
    planes: &mut Vec<Plane>,
    monitor: &mut M,
) -> (r: Result<(usize, Quant), String>)
    requires
        raw.len() <= RAW_LIMIT,
        start <= raw.len(),
        frame < MAX_FRAMES,
        lined(old(planes)@, start as int, frame + 1),
        !old(monitor).stopped(),
    ensures
        crate::monitor::climbs(*old(monitor), 0, 0, 1_000_000, *final(monitor)),
        match crate::wire::unless(
            final(monitor).stopped(),
            frame_at(raw@, start as int, frame as int),
        ) {
            Ok((n, q, more)) => r matches Ok((k, w)) && k == n && w == q && final(planes)@
                == old(planes)@ + more && lined(final(planes)@, start + n, frame + 1) && positive(
                flat(q),
            ) && n >= 28 && start + n <= raw@.len(),
            Err(e) => r matches Err(m) && m@ == e,
        },
{
    proof {
        crate::monitor::lemma_stays(*monitor, 0, 0, 1_000_000);
    }
    if raw.len() - start < 4 {
        return Err(fail("Truncated MOV header"));
    }
    let len = read32(raw, start);
    if len > usize::MAX - start {
        return Err(fail("ProRes length overflow"));
    }
    if len > raw.len() - start {
        return Err(fail("Truncated ProRes frame"));
    }
    let f = &raw[start..start + len];
    let q = read_frame(f, start, frame, planes, monitor)?;
    Ok((len, q))
}

pub proof fn lemma_lined(v: Seq<Plane>, end: int, more: int, frames: int, rise: int)
    requires
        lined(v, end, frames),
        end <= more,
        frames <= rise,
    ensures
        lined(v, more, rise),
{
}

/// Whether the weights of all frames are free of zeros.
pub open spec fn all_positive(q: Seq<Quant>) -> bool {
    forall|f: int| 0 <= f < q.len() ==> positive(flat(#[trigger] q[f]))
}

fn scan_frames<M: Monitor>(
    raw: &[u8],
    from: usize,
    end: usize,
    quant: &mut Vec<Quant>,
    planes: &mut Vec<Plane>,
    monitor: &mut M,
) -> (r: Result<(), String>)
    requires
        raw.len() <= RAW_LIMIT,
        from <= end <= raw.len(),
        old(quant)@.len() <= MAX_FRAMES,
        all_positive(old(quant)@),
        lined(old(planes)@, from as int, old(quant)@.len() as int),
        !old(monitor).stopped(),
    ensures
        crate::monitor::climbs(*old(monitor), 0, 0, 1_000_000, *final(monitor)),
        match crate::wire::unless(
            final(monitor).stopped(),
            frames_from(raw@, from as int, end as int, old(quant)@, old(planes)@),
        ) {
            Ok((q, p)) => r is Ok && final(quant)@ == q && final(planes)@ == p && lined(
                p,
                end as int,
                q.len() as int,
            ) && q.len() <= MAX_FRAMES && all_positive(q),
            Err(e) => r matches Err(m) && m@ == e,
        },
{
    proof {
        crate::monitor::lemma_stays(*monitor, 0, 0, 1_000_000);
    }
    let ghost whole = frames_from(raw@, from as int, end as int, quant@, planes@);
    let mut p: usize = from;
    let mut next: usize = p;
    while end - p >= 8
        invariant
            crate::monitor::climbs(*old(monitor), 0, 0, 1_000_000, *monitor),
            raw.len() <= RAW_LIMIT,
            from <= p <= end <= raw.len(),
            next <= raw.len() + 16384,
            quant@.len() <= MAX_FRAMES,
            all_positive(quant@),
            lined(planes@, p as int, quant@.len() as int),
            !monitor.stopped(),
            whole == frames_from(raw@, from as int, end as int, old(quant)@, old(planes)@),
            whole == frames_from(raw@, p as int, end as int, quant@, planes@),
        decreases end - p,
    {
        if p >= next {
            if !monitor.report(0, 1_000_000) {
                return Err(fail("error.cancelled"));
            }
            next = p + 16384;
        }
        if same(&raw[p + 4..p + 8], &[105u8, 99, 112, 102]) {
            if quant.len() >= MAX_FRAMES {
                return Err(fail("MOV motion coefficient limit"));
            }
            proof {
                lemma_lined(planes@, p as int, p as int, quant@.len() as int, quant@.len() as int + 1);
            }
            let (n, q) = parse_frame(raw, p, quant.len(), planes, monitor)?;
            if n > end - p {
                return Err(fail("ProRes frame crosses MOV atom"));
            }
            quant.push(q);
            p = p + n;
        } else {
            proof {
                lemma_lined(
                    planes@,
                    p as int,
                    p + 1,
                    quant@.len() as int,
                    quant@.len() as int,
                );
            }
            p += 1;
        }
    }
    proof {
        lemma_lined(planes@, p as int, end as int, quant@.len() as int, quant@.len() as int);
    }
    Ok(())
}

pub open spec fn found(r: Result<(Vec<Quant>, Vec<Plane>), String>) -> Outcome<
    (Seq<Quant>, Seq<Plane>),
> {
    match r {
        Ok((q, p)) => Ok((q@, p@)),
        Err(e) => Err(e@),
    }
}

/// Finds the weights of all frames of a movie, and all its planes.
pub fn scan<M: Monitor>(raw: &[u8], monitor: &mut M) -> (r: Result<(Vec<Quant>, Vec<Plane>), String>)
    requires
        !old(monitor).stopped(),
    ensures
        crate::monitor::climbs(*old(monitor), 0, 0, 1_000_000, *final(monitor)),
        found(r) == crate::wire::unless(final(monitor).stopped(), scanned(raw@)),
        r matches Ok((q, p)) ==> 1 <= q@.len() <= MAX_FRAMES && 1 <= p@.len() && lined(
            p@,
            raw@.len() as int,
            q@.len() as int,
        ) && all_positive(q@) && raw@.len() <= RAW_LIMIT,
        0 < raw@.len() <= RAW_LIMIT ==> crate::monitor::heeds(*old(monitor), r),
{
    proof {
        crate::monitor::lemma_stays(*monitor, 0, 0, 1_000_000);
    }
    if raw.len() > RAW_LIMIT {
        return Err(fail("MOV motion source exceeds limit"));
    }
    let mut quant: Vec<Quant> = Vec::new();
    let mut planes: Vec<Plane> = Vec::new();
    let ghost whole = atoms_from(raw@, 0, Seq::empty(), Seq::empty());
    let mut atom: usize = 0;
    while atom < raw.len()
        invariant
            crate::monitor::climbs(*old(monitor), 0, 0, 1_000_000, *monitor),
            raw.len() <= RAW_LIMIT,
            atom <= raw.len(),
            quant@.len() <= MAX_FRAMES,
            all_positive(quant@),
            lined(planes@, atom as int, quant@.len() as int),
            !monitor.stopped(),
            whole == atoms_from(raw@, 0, Seq::empty(), Seq::empty()),
            whole == atoms_from(raw@, atom as int, quant@, planes@),
            atom == 0 ==> *monitor == *old(monitor),
            atom > 0 ==> !crate::monitor::refuses(*old(monitor)),
        decreases raw.len() - atom,
    {
        let ghost then = *monitor;
        if !monitor.report(0, 1_000_000) {
            return Err(fail("error.cancelled"));
        }
        proof {
            if atom == 0 {
                crate::monitor::lemma_agreed(then, 0, 1_000_000, *monitor);
            }
        }
        let left: usize = raw.len() - atom;
        if left < 4 {
            return Err(fail("Truncated MOV header"));
        }
        let mut size = read32(raw, atom);
        if left < 8 {
            return Err(fail("Truncated MOV atom"));
        }
        let mut header: usize = 8;
        if size == 1 {
            if left < 16 {
                return Err(fail("Truncated MOV atom"));
            }
            let n = read64(raw, atom + 8);
            if n > usize::MAX as u64 {
                return Err(fail("MOV atom overflow"));
            }
            size = n as usize;
            header = 16;
        }
        if size == 0 {
            size = left;
        }
        if size < header || size > left {
            return Err(fail("Invalid MOV atom size"));
        }
        if same(&raw[atom + 4..atom + 8], &[109u8, 100, 97, 116]) {
            proof {
                lemma_lined(
                    planes@,
                    atom as int,
                    atom + header,
                    quant@.len() as int,
                    quant@.len() as int,
                );
            }
            scan_frames(raw, atom + header, atom + size, &mut quant, &mut planes, monitor)?;
        } else {
            proof {
                lemma_lined(
                    planes@,
                    atom as int,
                    atom + size,
                    quant@.len() as int,
                    quant@.len() as int,
                );
            }
        }
        atom = atom + size;
    }
    if quant.len() == 0 || planes.len() == 0 {
        return Err(fail("No supported MOV motion frames"));
    }
    Ok((quant, planes))
}


/// There are no more planes than bytes.
pub proof fn lemma_lined_count(v: Seq<Plane>, end: int, frames: int)
    requires
        lined(v, end, frames),
        0 <= end,
    ensures
        v.len() <= end,
    decreases v.len(),
{
    if v.len() > 0 {
        let rest = v.drop_last();
        let last = v.last();
        assert forall|i: int| 0 <= i < rest.len() implies 1 <= (#[trigger] rest[i]).len <= 65535
            && rest[i].offset + rest[i].len <= last.offset && rest[i].frame < frames && rest[i].channel < 3
            && rest[i].slice < 630 by {
            assert(rest[i] == v[i]);
            assert(v[i].offset + v[i].len <= v[v.len() - 1].offset);
        }
        lemma_lined_count(rest, last.offset as int, frames);
        assert(v[v.len() - 1].len >= 1);
    }
}

}
