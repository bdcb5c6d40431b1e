//! Where the ProRes planes of a movie lie.

use crate::monitor::Monitor;
use crate::wire::{fail, same, Outcome};
use vstd::prelude::*;

verus! {

pub const MAX_SEGMENTS: usize = 1_000_000;

/// A plane of a movie: where it lies, how many blocks it has, the picture size, plane and slice
/// that it belongs to, and the frame.
#[derive(Debug)]
pub struct Segment {
    pub offset: usize,
    pub len: usize,
    pub blocks: usize,
    pub key: (usize, usize, u8, usize),
    pub frame: usize,
}

impl Clone for Segment {
    fn clone(&self) -> (s: Self)
        ensures
            s == *self,
    {
        Segment {
            offset: self.offset,
            len: self.len,
            blocks: self.blocks,
            key: self.key,
            frame: self.frame,
        }
    }
}

pub open spec fn be16(b: Seq<u8>, i: int) -> int {
    b[i] * 256 + b[i + 1]
}

pub open spec fn be32(b: Seq<u8>, i: int) -> int {
    be16(b, i) * 65536 + be16(b, i + 2)
}

pub open spec fn be64(b: Seq<u8>, i: int) -> int {
    be32(b, i) * 0x1_0000_0000 + be32(b, i + 4)
}

/// The mark of a ProRes frame.
pub open spec fn icpf() -> Seq<u8> {
    seq![105u8, 99, 112, 102]
}

/// The mark of media data.
pub open spec fn mdat() -> Seq<u8> {
    seq![109u8, 100, 97, 116]
}

/// How many macroblocks a slice gets when `left` are left in its row: the widest of `width` and its
/// halves that fits.
pub open spec fn fitted(width: int, left: int) -> int
    decreases width,
{
    if width <= 1 || width <= left {
        width
    } else {
        fitted(width / 2, left)
    }
}

/// How many slices a row of `mbw` macroblocks has.
pub open spec fn slices_per_row(mbw: int, width: int) -> int {
    let rest = mbw % width;
    mbw / width + rest % 2 + rest / 2 % 2 + rest / 4
}

/// What the slices of a frame have in common.
pub struct Layout {
    pub start: int,
    pub frame: int,
    pub width: int,
    pub height: int,
    pub mbw: int,
    pub chroma: int,
    pub slice_width: int,
    pub table: int,
    pub count: int,
    pub end: int,
}

/// The plane number `plane`, if it is not empty.
pub open spec fn plane_at(l: Layout, slice: int, plane: int, at: int, size: int, mbs: int) -> Seq<
    Segment,
> {
    if size == 0 {
        Seq::empty()
    } else {
        seq![
            Segment {
                offset: (l.start + at) as usize,
                len: size as usize,
                blocks: (mbs * (if plane == 0 || l.chroma == 3 {
                    4
                } else {
                    2int
                })) as usize,
                key: (l.width as usize, l.height as usize, plane as u8, slice as usize),
                frame: l.frame as usize,
            },
        ]
    }
}

/// The planes of the slice at `pos`, which is `len` bytes long.
pub open spec fn slice_at(f: Seq<u8>, l: Layout, slice: int, pos: int, x: int) -> Outcome<
    Seq<Segment>,
> {
    let len = be16(f, l.table + slice * 2);
    if len < 6 || pos + len > l.end {
        Err("invalid ProRes slice length"@)
    } else {
        let sh = f[pos] as int / 8;
        let y = be16(f, pos + 2);
        let u = be16(f, pos + 4);
        if sh < 6 || sh > len {
            Err("invalid ProRes slice header"@)
        } else if sh < 8 && sh + y + u > len {
            Err("invalid ProRes planes"@)
        } else {
            let v = if sh >= 8 {
                be16(f, pos + 6)
            } else {
                len - (sh + y + u)
            };
            let mbs = fitted(l.slice_width, l.mbw - x);
            if sh + y + u + v > len {
                Err("invalid ProRes plane size"@)
            } else {
                Ok(
                    plane_at(l, slice, 0, pos + sh, y, mbs) + plane_at(
                        l,
                        slice,
                        1,
                        pos + sh + y,
                        u,
                        mbs,
                    ) + plane_at(l, slice, 2, pos + sh + y + u, v, mbs),
                )
            }
        }
    }
}

/// The planes of the slices from number `slice` on.
pub open spec fn slices_from(f: Seq<u8>, l: Layout, slice: int, pos: int, x: int) -> Outcome<
    Seq<Segment>,
>
    decreases l.count - slice,
{
    if slice >= l.count {
        if pos != l.end {
            Err("unrecognized ProRes picture suffix"@)
        } else {
            Ok(Seq::empty())
        }
    } else {
        match slice_at(f, l, slice, pos, x) {
            Err(e) => Err(e),
            Ok(planes) => {
                let next = x + fitted(l.slice_width, l.mbw - x);
                match slices_from(
                    f,
                    l,
                    slice + 1,
                    pos + be16(f, l.table + slice * 2),
                    if next == l.mbw {
                        0
                    } else {
                        next
                    },
                ) {
                    Err(e) => Err(e),
                    Ok(rest) => Ok(planes + rest),
                }
            },
        }
    }
}

/// The layout of the picture in a frame whose headers are sound.
pub open spec fn picture_at(
    f: Seq<u8>,
    start: int,
    frame: int,
    width: int,
    height: int,
) -> Outcome<Layout> {
    let picture = be16(f, 8) + 8;
    if picture >= f.len() {
        Err("truncated ProRes picture"@)
    } else {
        let ph = f[picture] as int / 8;
        if ph < 8 {
            Err("invalid ProRes picture header"@)
        } else if picture + 5 > f.len() {
            Err("truncated MOV header"@)
        } else if picture + 7 >= f.len() {
            Err("truncated ProRes slices"@)
        } else if f[picture + 7] % 16 != 0 || f[picture + 7] / 16 > 3 {
            Err("unsupported ProRes slice layout"@)
        } else {
            let length = be32(f, picture + 1);
            let mbw = (width + 15) / 16;
            let mbh = (height + 15) / 16;
            let slice_width = (1u8 << (f[picture + 7] / 16)) as int;
            let count = mbh * slices_per_row(mbw, slice_width);
            if picture + length > usize::MAX {
                Err("ProRes size overflow"@)
            } else if count == 0 || picture + length > f.len() || length < ph + 2 * count {
                Err("invalid ProRes picture size"@)
            } else {
                Ok(
                    Layout {
                        start,
                        frame,
                        width,
                        height,
                        mbw,
                        chroma: f[20] as int / 64,
                        slice_width,
                        table: picture + ph,
                        count,
                        end: picture + length,
                    },
                )
            }
        }
    }
}

/// The layout of the frame that starts at `start`, and its length.
pub open spec fn layout_at(raw: Seq<u8>, start: int, frame: int) -> Outcome<(int, Layout)> {
    if start + 4 > raw.len() {
        Err("truncated MOV header"@)
    } else {
        let length = be32(raw, start);
        if length < 28 || start + length > raw.len() || raw.subrange(start + 4, start + 8)
            != icpf() {
            Err("invalid ProRes frame"@)
        } else {
            let f = raw.subrange(start, start + length);
            let width = be16(f, 16);
            let height = be16(f, 18);
            if be16(f, 8) < 20 || be16(f, 8) + 8 > length {
                Err("invalid ProRes frame header"@)
            } else if width == 0 || height == 0 || width > 16384 || height > 16384 {
                Err("unsupported ProRes dimensions"@)
            } else if f[20] / 4 % 4 != 0 {
                Err("interlaced ProRes is stored verbatim"@)
            } else if f[20] / 64 != 2 && f[20] / 64 != 3 {
                Err("unsupported ProRes chroma"@)
            } else {
                match picture_at(f, start, frame, width, height) {
                    Err(e) => Err(e),
                    Ok(l) => Ok((length, l)),
                }
            }
        }
    }
}

/// The length of the frame that starts at `start`, and its planes.
pub open spec fn frame_at(raw: Seq<u8>, start: int, frame: int) -> Outcome<(int, Seq<Segment>)> {
    match layout_at(raw, start, frame) {
        Err(e) => Err(e),
        Ok((length, l)) => match slices_from(
            raw.subrange(start, start + length),
            l,
            0,
            l.table + 2 * l.count,
            0,
        ) {
            Err(e) => Err(e),
            Ok(planes) => Ok((length, planes)),
        },
    }
}

/// The planes of the frames between `p` and `end`, behind those found before.
pub open spec fn frames_from(
    raw: Seq<u8>,
    p: int,
    end: int,
    frames: int,
    found: Seq<Segment>,
) -> Outcome<(int, Seq<Segment>)>
    decreases end - p,
{
    if p + 8 > end {
        Ok((frames, found))
    } else if raw.subrange(p + 4, p + 8) == icpf() {
        match frame_at(raw, p, frames) {
            Ok((length, planes)) => if 0 < length <= end - p {
                if found.len() + planes.len() > MAX_SEGMENTS {
                    Err("MOV slice limit"@)
                } else {
                    frames_from(raw, p + length, end, frames + 1, found + planes)
                }
            } else {
                frames_from(raw, p + 1, end, frames, found)
            },
            Err(_) => frames_from(raw, p + 1, end, frames, found),
        }
    } else {
        frames_from(raw, p + 1, end, frames, found)
    }
}

/// The atom that starts at `atom`: the length of its header, and its own.
pub open spec fn atom_at(raw: Seq<u8>, atom: int) -> Outcome<(int, int)> {
    if atom + 4 > raw.len() {
        Err("truncated MOV header"@)
    } else if atom + 8 > raw.len() {
        Err("truncated MOV atom"@)
    } else if be32(raw, atom) == 1 && atom + 16 > raw.len() {
        Err("truncated MOV extended atom"@)
    } else if be32(raw, atom) == 1 && be64(raw, atom + 8) > usize::MAX {
        Err("oversized MOV atom"@)
    } else {
        let header = if be32(raw, atom) == 1 {
            16int
        } else {
            8
        };
        let size = if be32(raw, atom) == 1 {
            be64(raw, atom + 8)
        } else if be32(raw, atom) == 0 {
            raw.len() - atom
        } else {
            be32(raw, atom)
        };
        if size < header || size > raw.len() - atom {
            Err("invalid MOV atom size"@)
        } else {
            Ok((header, size))
        }
    }
}

/// The planes of the atoms from `atom` on, behind those found before.
pub open spec fn atoms_from(
    raw: Seq<u8>,
    atom: int,
    frames: int,
    found: Seq<Segment>,
) -> Outcome<(int, Seq<Segment>)>
    decreases raw.len() - atom,
{
    if atom >= raw.len() {
        Ok((frames, found))
    } else {
        match atom_at(raw, atom) {
            Err(e) => Err(e),
            Ok((header, size)) => if raw.subrange(atom + 4, atom + 8) == mdat() {
                match frames_from(raw, atom + header, atom + size, frames, found) {
                    Err(e) => Err(e),
                    Ok((frames, found)) => atoms_from(raw, atom + size, frames, found),
                }
            } else {
                atoms_from(raw, atom + size, frames, found)
            },
        }
    }
}

/// The planes of a movie.
pub open spec fn segments_of(raw: Seq<u8>) -> Outcome<Seq<Segment>> {
    match atoms_from(raw, 0, 0, Seq::empty()) {
        Err(e) => Err(e),
        Ok((frames, found)) => if frames == 0 || found.len() == 0 {
            Err("MOV has no supported ProRes frames"@)
        } else {
            Ok(found)
        },
    }
}

/// How often the reading of the slices from number `slice` on asks whether it may go on.
pub open spec fn slices_asked(f: Seq<u8>, l: Layout, slice: int, pos: int, x: int) -> int
    decreases l.count - slice,
{
    if slice >= l.count {
        0
    } else {
        let here = if slice % 128 == 0 {
            1int
        } else {
            0
        };
        match slice_at(f, l, slice, pos, x) {
            Err(_) => here,
            Ok(_) => {
                let next = x + fitted(l.slice_width, l.mbw - x);
                here + slices_asked(
                    f,
                    l,
                    slice + 1,
                    pos + be16(f, l.table + slice * 2),
                    if next == l.mbw {
                        0
                    } else {
                        next
                    },
                )
            },
        }
    }
}

/// How often the reading of a frame asks whether it may go on: at every 128th slice.
pub open spec fn frame_asked(raw: Seq<u8>, start: int, frame: int) -> int {
    match layout_at(raw, start, frame) {
        Err(_) => 0,
        Ok((length, l)) => slices_asked(
            raw.subrange(start, start + length),
            l,
            0,
            l.table + 2 * l.count,
            0,
        ),
    }
}

/// How often the search for frames between `p` and `end` asks whether it may go on: at `check` or the
/// first place behind it where it looks, again 16384 bytes later, and in every frame.
pub open spec fn frames_asked(
    raw: Seq<u8>,
    p: int,
    end: int,
    frames: int,
    found: Seq<Segment>,
    check: int,
) -> int
    decreases end - p,
{
    if p + 8 > end {
        0
    } else {
        let (here, check) = if p >= check {
            (1int, p + 16384)
        } else {
            (0int, check)
        };
        if raw.subrange(p + 4, p + 8) == icpf() {
            here + frame_asked(raw, p, frames) + (match frame_at(raw, p, frames) {
                Ok((length, planes)) => if 0 < length <= end - p {
                    if found.len() + planes.len() > MAX_SEGMENTS {
                        0
                    } else {
                        frames_asked(raw, p + length, end, frames + 1, found + planes, check)
                    }
                } else {
                    frames_asked(raw, p + 1, end, frames, found, check)
                },
                Err(_) => frames_asked(raw, p + 1, end, frames, found, check),
            })
        } else {
            here + frames_asked(raw, p + 1, end, frames, found, check)
        }
    }
}

/// How often the search through the atoms from `atom` on asks whether it may go on.
pub open spec fn atoms_asked(raw: Seq<u8>, atom: int, frames: int, found: Seq<Segment>) -> int
    decreases raw.len() - atom,
{
    if atom >= raw.len() {
        0
    } else {
        match atom_at(raw, atom) {
            Err(_) => 1,
            Ok((header, size)) => if raw.subrange(atom + 4, atom + 8) == mdat() {
                1 + frames_asked(raw, atom + header, atom + size, frames, found, atom + header) + (
                match frames_from(raw, atom + header, atom + size, frames, found) {
                    Err(_) => 0,
                    Ok((frames, found)) => atoms_asked(raw, atom + size, frames, found),
                })
            } else {
                1 + atoms_asked(raw, atom + size, frames, found)
            },
        }
    }
}

/// How often the search for the planes of a movie asks whether it may go on.
pub open spec fn questions(raw: Seq<u8>) -> int {
    1 + atoms_asked(raw, 0, 0, Seq::empty())
}

proof fn lemma_slices_asked(f: Seq<u8>, l: Layout, slice: int, pos: int, x: int)
    ensures
        slices_asked(f, l, slice, pos, x) >= 0,
    decreases l.count - slice,
{
    if slice < l.count {
        let next = x + fitted(l.slice_width, l.mbw - x);
        lemma_slices_asked(
            f,
            l,
            slice + 1,
            pos + be16(f, l.table + slice * 2),
            if next == l.mbw {
                0
            } else {
                next
            },
        );
    }
}

proof fn lemma_frames_asked(raw: Seq<u8>, p: int, end: int, frames: int, found: Seq<Segment>, check: int)
    ensures
        frames_asked(raw, p, end, frames, found, check) >= 0,
    decreases end - p,
{
    if p + 8 <= end {
        let after = if p >= check {
            p + 16384
        } else {
            check
        };
        if let Ok((length, l)) = layout_at(raw, p, frames) {
            lemma_slices_asked(raw.subrange(p, p + length), l, 0, l.table + 2 * l.count, 0);
        }
        if let Ok((length, planes)) = frame_at(raw, p, frames) {
            if 0 < length <= end - p {
                lemma_frames_asked(raw, p + length, end, frames + 1, found + planes, after);
            }
        }
        lemma_frames_asked(raw, p + 1, end, frames, found, after);
    }
}

pub proof fn lemma_atoms_asked(raw: Seq<u8>, atom: int, frames: int, found: Seq<Segment>)
    ensures
        atoms_asked(raw, atom, frames, found) >= 0,
    decreases raw.len() - atom,
{
    if atom < raw.len() {
        if let Ok((header, size)) = atom_at(raw, atom) {
            lemma_frames_asked(raw, atom + header, atom + size, frames, found, atom + header);
            if let Ok((n, all)) = frames_from(raw, atom + header, atom + size, frames, found) {
                lemma_atoms_asked(raw, atom + size, n, all);
            }
            lemma_atoms_asked(raw, atom + size, frames, found);
        }
    }
}

pub(crate) fn read16(b: &[u8], i: usize) -> (n: usize)
    requires
        i + 2 <= b.len(),
    ensures
        n == be16(b@, i as int),
        n < 65536,
{
    b[i] as usize * 256 + b[i + 1] as usize
}

pub fn read32(b: &[u8], i: usize) -> (n: usize)
    requires
        i + 4 <= b.len(),
    ensures
        n == be32(b@, i as int),
        n <= 0xFFFF_FFFF,
{
    read16(b, i) * 65536 + read16(b, i + 2)
}

pub(crate) fn read64(b: &[u8], i: usize) -> (n: u64)
    requires
        i + 8 <= b.len(),
    ensures
        n == be64(b@, i as int),
{
    read32(b, i) as u64 * 0x1_0000_0000 + read32(b, i + 4) as u64
}

proof fn lemma_slice_width(k: u8)
    by (bit_vector)
    requires
        k <= 3,
    ensures
        k == 0 ==> 1u8 << k == 1,
        k == 1 ==> 1u8 << k == 2,
        k == 2 ==> 1u8 << k == 4,
        k == 3 ==> 1u8 << k == 8,
{
}

struct Grid {
    start: usize,
    frame: usize,
    width: usize,
    height: usize,
    mbw: usize,
    chroma: usize,
    slice_width: usize,
    table: usize,
    count: usize,
    end: usize,
}

impl Grid {
    spec fn model(&self) -> Layout {
        Layout {
            start: self.start as int,
            frame: self.frame as int,
            width: self.width as int,
            height: self.height as int,
            mbw: self.mbw as int,
            chroma: self.chroma as int,
            slice_width: self.slice_width as int,
            table: self.table as int,
            count: self.count as int,
            end: self.end as int,
        }
    }

    spec fn wf(&self, f: Seq<u8>) -> bool {
        &&& 1 <= self.mbw <= 1024
        &&& self.slice_width == 1 || self.slice_width == 2 || self.slice_width == 4
            || self.slice_width == 8
        &&& self.table + 2 * self.count <= self.end <= f.len()
        &&& self.start + f.len() <= usize::MAX
        &&& self.count <= 0x80_0000
    }
}

pub(crate) fn fit(width: usize, left: usize) -> (mbs: usize)
    requires
        left >= 1,
        1 <= width <= 8,
    ensures
        mbs == fitted(width as int, left as int),
        1 <= mbs <= left,
        mbs <= width,
{
    let mut mbs: usize = width;
    while mbs > left
        invariant
            left >= 1,
            1 <= mbs <= width,
            fitted(mbs as int, left as int) == fitted(width as int, left as int),
        decreases mbs,
    {
        mbs = mbs / 2;
    }
    mbs
}

fn push_plane(
    found: &mut Vec<Segment>,
    g: &Grid,
    slice: usize,
    plane: u8,
    at: usize,
    size: usize,
    mbs: usize,
)
    requires
        plane <= 2,
        g.start + at <= usize::MAX,
        mbs <= 8,
    ensures
        final(found)@ == old(found)@ + plane_at(
            g.model(),
            slice as int,
            plane as int,
            at as int,
            size as int,
            mbs as int,
        ),
{
    if size != 0 {
        found.push(
            Segment {
                offset: g.start + at,
                len: size,
                blocks: mbs * (if plane == 0 || g.chroma == 3 { 4 } else { 2 }),
                key: (g.width, g.height, plane, slice),
                frame: g.frame,
            },
        );
    }
    proof {
        assert(final(found)@ =~= old(found)@ + plane_at(
            g.model(),
            slice as int,
            plane as int,
            at as int,
            size as int,
            mbs as int,
        ));
    }
}

fn read_slice(f: &[u8], g: &Grid, slice: usize, pos: usize, x: usize, found: &mut Vec<Segment>) -> (
    r: Result<usize, String>)
    requires
        g.wf(f@),
        slice < g.count,
        x < g.mbw,
        pos <= g.end,
    ensures
        match slice_at(f@, g.model(), slice as int, pos as int, x as int) {
            Ok(planes) => r matches Ok(len) && len == be16(f@, g.table + slice * 2) && final(found)@
                == old(found)@ + planes && pos + len <= g.end,
            Err(e) => r matches Err(m) && m@ == e,
        },
{
    let len = read16(f, g.table + slice * 2);
    if len < 6 || len > g.end - pos {
        return Err(fail("invalid ProRes slice length"));
    }
    let sh: usize = f[pos] as usize / 8;
    if sh < 6 || sh > len {
        return Err(fail("invalid ProRes slice header"));
    }
    let y = read16(f, pos + 2);
    let u = read16(f, pos + 4);
    let v: usize = if sh >= 8 {
        read16(f, pos + 6)
    } else {
        if sh + y + u > len {
            return Err(fail("invalid ProRes planes"));
        }
        len - (sh + y + u)
    };
    if sh + y + u + v > len {
        return Err(fail("invalid ProRes plane size"));
    }
    let mbs = fit(g.slice_width, g.mbw - x);
    let ghost before = found@;
    push_plane(found, g, slice, 0, pos + sh, y, mbs);
    push_plane(found, g, slice, 1, pos + sh + y, u, mbs);
    push_plane(found, g, slice, 2, pos + sh + y + u, v, mbs);
    proof {
        let l = g.model();
        let (a, b, c) = (
            plane_at(l, slice as int, 0, pos + sh, y as int, mbs as int),
            plane_at(l, slice as int, 1, pos + sh + y, u as int, mbs as int),
            plane_at(l, slice as int, 2, pos + sh + y + u, v as int, mbs as int),
        );
        assert(found@ =~= before + (a + b + c));
    }
    Ok(len)
}

fn read_picture(f: &[u8], start: usize, frame: usize, width: usize, height: usize) -> (r: Result<
    Grid,
    String,
>)
    requires
        28 <= f@.len(),
        20 <= be16(f@, 8),
        1 <= width <= 16384,
        1 <= height <= 16384,
        start + f@.len() <= usize::MAX,
    ensures
        match picture_at(f@, start as int, frame as int, width as int, height as int) {
            Ok(l) => r matches Ok(g) && g.model() == l && g.wf(f@),
            Err(e) => r matches Err(m) && m@ == e,
        },
{
    let picture: usize = read16(f, 8) + 8;
    if picture >= f.len() {
        return Err(fail("truncated ProRes picture"));
    }
    let ph: usize = f[picture] as usize / 8;
    if ph < 8 {
        return Err(fail("invalid ProRes picture header"));
    }
    if f.len() - picture < 5 {
        return Err(fail("truncated MOV header"));
    }
    let length = read32(f, picture + 1);
    if f.len() - picture <= 7 {
        return Err(fail("truncated ProRes slices"));
    }
    let flag = f[picture + 7];
    if flag % 16 != 0 || flag / 16 > 3 {
        return Err(fail("unsupported ProRes slice layout"));
    }
    proof {
        lemma_slice_width(flag / 16);
    }
    let mbw: usize = (width + 15) / 16;
    let mbh: usize = (height + 15) / 16;
    let slice_width: usize = (1u8 << (flag / 16)) as usize;
    let rest: usize = mbw % slice_width;
    proof {
        assert(mbw / slice_width <= mbw && rest < slice_width) by (nonlinear_arith)
            requires
                slice_width >= 1,
                rest == mbw % slice_width,
        ;
    }
    let row: usize = mbw / slice_width + rest % 2 + rest / 2 % 2 + rest / 4;
    assert(0 <= mbh * row <= 1024 * 1040) by (nonlinear_arith)
        requires
            0 <= mbh <= 1024,
            0 <= row <= 1040,
    ;
    let count: usize = mbh * row;
    let end: usize = match picture.checked_add(length) {
        None => {
            return Err(fail("ProRes size overflow"));
        },
        Some(end) => end,
    };
    if count == 0 || end > f.len() || length < ph + 2 * count {
        return Err(fail("invalid ProRes picture size"));
    }
    Ok(
        Grid {
            start,
            frame,
            width,
            height,
            mbw,
            chroma: f[20] as usize / 64,
            slice_width,
            table: picture + ph,
            count,
            end,
        },
    )
}

fn read_layout(raw: &[u8], start: usize, frame: usize) -> (r: Result<(usize, Grid), String>)
    requires
        start <= raw@.len(),
    ensures
        match layout_at(raw@, start as int, frame as int) {
            Ok((length, l)) => r matches Ok((n, g)) && n == length && g.model() == l && n >= 28
                && start + n <= raw@.len() && g.wf(raw@.subrange(start as int, start + n)),
            Err(e) => r matches Err(m) && m@ == e,
        },
{
    if raw.len() - start < 4 {
        return Err(fail("truncated MOV header"));
    }
    let length = read32(raw, start);
    if length < 28 || length > raw.len() - start || !same(
        vstd::slice::slice_subrange(raw, start + 4, start + 8),
        &[105u8, 99, 112, 102],
    ) {
        return Err(fail("invalid ProRes frame"));
    }
    let f = vstd::slice::slice_subrange(raw, start, start + length);
    let header = read16(f, 8);
    if header < 20 || header + 8 > length {
        return Err(fail("invalid ProRes frame header"));
    }
    let width = read16(f, 16);
    let height = read16(f, 18);
    if width == 0 || height == 0 || width > 16384 || height > 16384 {
        return Err(fail("unsupported ProRes dimensions"));
    }
    if f[20] / 4 % 4 != 0 {
        return Err(fail("interlaced ProRes is stored verbatim"));
    }
    if f[20] / 64 != 2 && f[20] / 64 != 3 {
        return Err(fail("unsupported ProRes chroma"));
    }
    let g = read_picture(f, start, frame, width, height)?;
    Ok((length, g))
}

/// Whether the watcher stopped the reading of a frame, and what came of it.
fn try_frame<M: Monitor>(raw: &[u8], start: usize, frame: usize, monitor: &mut M) -> (r: (
    bool,
    Result<(usize, Vec<Segment>), String>,
))
    requires
        start <= raw@.len(),
        !old(monitor).stopped(),
    ensures
        r.0 == final(monitor).stopped(),
        match crate::wire::unless(r.0, frame_at(raw@, start as int, frame as int)) {
            Ok((length, planes)) => r.1 matches Ok((n, v)) && n == length && v@ == planes && 28 <= n
                <= raw@.len() - start,
            Err(e) => r.1 matches Err(m) && m@ == e,
        },
        crate::monitor::asked(
            *old(monitor),
            0,
            1,
            frame_asked(raw@, start as int, frame as int),
            *final(monitor),
        ),
{
    proof {
        crate::monitor::lemma_unasked(*monitor, 0, 1);
    }
    let (length, g) = match read_layout(raw, start, frame) {
        Err(e) => {
            return (false, Err(e));
        },
        Ok(x) => x,
    };
    let f = vstd::slice::slice_subrange(raw, start, start + length);
    let mut pos: usize = g.table + 2 * g.count;
    let mut x: usize = 0;
    let mut found: Vec<Segment> = Vec::new();
    let mut slice: usize = 0;
    let ghost whole = slices_from(f@, g.model(), 0, pos as int, 0);
    let ghost l = g.model();
    let ghost most = frame_asked(raw@, start as int, frame as int);
    let ghost mut n: int = 0;
    while slice < g.count
        invariant
            n >= 0,
            most == frame_asked(raw@, start as int, frame as int),
            most == n + slices_asked(f@, l, slice as int, pos as int, x as int),
            crate::monitor::agreed(*old(monitor), 0, 1, n, *monitor),
            g.wf(f@),
            f@ == raw@.subrange(start as int, start + length),
            l == g.model(),
            slice <= g.count,
            x < g.mbw,
            pos <= g.end,
            layout_at(raw@, start as int, frame as int) == Ok::<(int, Layout), Seq<char>>(
                (length as int, l),
            ),
            whole == slices_from(f@, l, 0, l.table + 2 * l.count, 0),
            !monitor.stopped(),
            match slices_from(f@, l, slice as int, pos as int, x as int) {
                Err(e) => whole == Err::<Seq<Segment>, Seq<char>>(e),
                Ok(rest) => whole == Ok::<Seq<Segment>, Seq<char>>(found@ + rest),
            },
        decreases g.count - slice,
    {
        let ghost at = pos as int;
        let ghost x0 = x as int;
        proof {
            let next = x0 + fitted(l.slice_width, l.mbw - x0);
            lemma_slices_asked(
                f@,
                l,
                slice + 1,
                at + be16(f@, l.table + slice * 2),
                if next == l.mbw {
                    0
                } else {
                    next
                },
            );
        }
        if slice % 128 == 0 {
            let ghost then = *monitor;
            if !monitor.report(0, 1) {
                return (true, Err(fail("error.cancelled")));
            }
            proof {
                crate::monitor::lemma_agreed_more(*old(monitor), 0, 1, n, then, *monitor);
                n = n + 1;
            }
        }
        let ghost before = found@;
        let len = match read_slice(f, &g, slice, pos, x, &mut found) {
            Err(e) => {
                return (false, Err(e));
            },
            Ok(len) => len,
        };
        let mbs = fit(g.slice_width, g.mbw - x);
        x = x + mbs;
        if x == g.mbw {
            x = 0;
        }
        pos = pos + len;
        proof {
            let planes = slice_at(f@, l, slice as int, at, x0)->Ok_0;
            match slices_from(f@, l, slice + 1, pos as int, x as int) {
                Err(_) => {},
                Ok(rest) => {
                    assert(before + (planes + rest) =~= found@ + rest);
                },
            }
        }
        slice += 1;
    }
    if pos != g.end {
        return (false, Err(fail("unrecognized ProRes picture suffix")));
    }
    assert(found@ + Seq::<Segment>::empty() =~= found@);
    (false, Ok((length, found)))
}

/// The length of a frame, and its planes.
pub fn frame_segments<M: Monitor>(raw: &[u8], start: usize, frame: usize, monitor: &mut M) -> (r:
    Result<(usize, Vec<Segment>), String>)
    requires
        start <= raw@.len(),
        !old(monitor).stopped(),
    ensures
        match crate::wire::unless(final(monitor).stopped(), frame_at(raw@, start as int, frame as int)) {
            Ok((length, planes)) => r matches Ok((n, v)) && n == length && v@ == planes,
            Err(e) => r matches Err(m) && m@ == e,
        },
        crate::monitor::asked(
            *old(monitor),
            0,
            1,
            frame_asked(raw@, start as int, frame as int),
            *final(monitor),
        ),
{
    try_frame(raw, start, frame, monitor).1
}

fn scan_frames<M: Monitor>(
    raw: &[u8],
    start: usize,
    end: usize,
    frames: &mut usize,
    found: &mut Vec<Segment>,
    monitor: &mut M,
) -> (r: Result<(), String>)
    requires
        start <= end <= raw@.len(),
        !old(monitor).stopped(),
        *old(frames) <= start,
        old(found)@.len() <= MAX_SEGMENTS,
    ensures
        match crate::wire::unless(
            final(monitor).stopped(),
            frames_from(raw@, start as int, end as int, *old(frames) as int, old(found)@),
        ) {
            Ok((n, all)) => r is Ok && *final(frames) == n && final(found)@ == all && n <= end
                && all.len() <= MAX_SEGMENTS,
            Err(e) => r matches Err(m) && m@ == e,
        },
        crate::monitor::asked(
            *old(monitor),
            0,
            1,
            frames_asked(raw@, start as int, end as int, *old(frames) as int, old(found)@, start as int),
            *final(monitor),
        ),
{
    let mut p: usize = start;
    let mut check: usize = start;
    let ghost mut due: int = start as int;
    let ghost mut n: int = 0;
    let ghost most = frames_asked(
        raw@,
        start as int,
        end as int,
        *old(frames) as int,
        old(found)@,
        start as int,
    );
    proof {
        crate::monitor::lemma_unasked(*monitor, 0, 1);
    }
    let ghost whole = frames_from(
        raw@,
        start as int,
        end as int,
        *old(frames) as int,
        old(found)@,
    );
    while end - p >= 8
        invariant
            p <= end <= raw@.len(),
            !monitor.stopped(),
            *frames <= p,
            found@.len() <= MAX_SEGMENTS,
            whole == frames_from(
                raw@,
                start as int,
                end as int,
                *old(frames) as int,
                old(found)@,
            ),
            whole == frames_from(raw@, p as int, end as int, *frames as int, found@),
            n >= 0,
            check == due || (check == usize::MAX && due > usize::MAX),
            most == frames_asked(
                raw@,
                start as int,
                end as int,
                *old(frames) as int,
                old(found)@,
                start as int,
            ),
            most == n + frames_asked(raw@, p as int, end as int, *frames as int, found@, due),
            crate::monitor::agreed(*old(monitor), 0, 1, n, *monitor),
        decreases end - p,
    {
        let ghost (p0, frames0, found0) = (p as int, *frames as int, found@);
        let ghost after = if p0 >= due {
            p0 + 16384
        } else {
            due
        };
        proof {
            lemma_frames_asked(raw@, p0 + 1, end as int, frames0, found0, after);
            if let Ok((length, l)) = layout_at(raw@, p0, frames0) {
                lemma_slices_asked(raw@.subrange(p0, p0 + length), l, 0, l.table + 2 * l.count, 0);
            }
            if let Ok((length, planes)) = frame_at(raw@, p0, frames0) {
                lemma_frames_asked(raw@, p0 + length, end as int, frames0 + 1, found0 + planes, after);
            }
        }
        if p >= check {
            let ghost then = *monitor;
            if !monitor.report(0, 1) {
                return Err(fail("error.cancelled"));
            }
            proof {
                crate::monitor::lemma_agreed_more(*old(monitor), 0, 1, n, then, *monitor);
                n = n + 1;
            }
            check = match p.checked_add(16384) {
                None => usize::MAX,
                Some(n) => n,
            };
        }
        proof {
            due = after;
        }
        let mut step: usize = 1;
        if same(vstd::slice::slice_subrange(raw, p + 4, p + 8), &[105u8, 99, 112, 102]) {
            let ghost then = *monitor;
            let (stopped, parsed) = try_frame(raw, p, *frames, monitor);
            let ghost more = frame_asked(raw@, p0, frames0);
            proof {
                if stopped {
                    crate::monitor::lemma_broke_off_later(*old(monitor), 0, 1, n, then, more, *monitor);
                } else {
                    crate::monitor::lemma_agreed_sum(*old(monitor), 0, 1, n, then, more, *monitor);
                }
            }
            if stopped {
                return Err(fail("error.cancelled"));
            }
            proof {
                n = n + more;
            }
            match parsed {
                Ok((length, mut planes)) => {
                    if length <= end - p {
                        if planes.len() > MAX_SEGMENTS - found.len() {
                            return Err(fail("MOV slice limit"));
                        }
                        let ghost (a, b) = (found@, planes@);
                        found.append(&mut planes);
                        assert(found@ =~= a + b);
                        *frames = *frames + 1;
                        step = length;
                    }
                },
                Err(_) => {},
            }
        }
        p = p + step;
    }
    Ok(())
}


/// The planes of a movie, unless the watcher stops the search.
pub fn find_segments_with_cancel<M: Monitor>(raw: &[u8], monitor: &mut M) -> (r: Result<
    Vec<Segment>,
    String,
>)
    requires
        !old(monitor).stopped(),
    ensures
        match crate::wire::unless(final(monitor).stopped(), segments_of(raw@)) {
            Ok(found) => r matches Ok(v) && v@ == found,
            Err(e) => r matches Err(m) && m@ == e,
        },
        crate::monitor::asked(*old(monitor), 0, 1, questions(raw@), *final(monitor)),
        crate::monitor::heeds(*old(monitor), r),
{
    proof {
        lemma_atoms_asked(raw@, 0, 0, Seq::empty());
        crate::monitor::lemma_unasked(*monitor, 0, 1);
    }
    if !monitor.report(0, 1) {
        return Err(fail("error.cancelled"));
    }
    let ghost most = questions(raw@);
    let ghost mut n: int = 1;
    proof {
        crate::monitor::lemma_agreed_more(*old(monitor), 0, 1, 0, *old(monitor), *monitor);
        crate::monitor::lemma_agreed(*old(monitor), 0, 1, *monitor);
    }
    let mut found: Vec<Segment> = Vec::new();
    let mut atom: usize = 0;
    let mut frames: usize = 0;
    let ghost whole = atoms_from(raw@, 0, 0, Seq::empty());
    while atom < raw.len()
        invariant
            atom <= raw@.len(),
            frames <= atom,
            found@.len() <= MAX_SEGMENTS,
            !monitor.stopped(),
            whole == atoms_from(raw@, 0, 0, Seq::empty()),
            whole == atoms_from(raw@, atom as int, frames as int, found@),
            n >= 1,
            most == questions(raw@),
            most == n + atoms_asked(raw@, atom as int, frames as int, found@),
            crate::monitor::agreed(*old(monitor), 0, 1, n, *monitor),
            !crate::monitor::refuses(*old(monitor)),
        decreases raw.len() - atom,
    {
        let ghost (atom0, frames0, found0) = (atom as int, frames as int, found@);
        proof {
            lemma_atoms_asked(raw@, atom0, frames0, found0);
            if let Ok((header, size)) = atom_at(raw@, atom0) {
                lemma_frames_asked(
                    raw@,
                    atom0 + header,
                    atom0 + size,
                    frames0,
                    found0,
                    atom0 + header,
                );
                if let Ok((n, all)) = frames_from(raw@, atom0 + header, atom0 + size, frames0, found0) {
                    lemma_atoms_asked(raw@, atom0 + size, n, all);
                }
                lemma_atoms_asked(raw@, atom0 + size, frames0, found0);
            }
        }
        let ghost then = *monitor;
        if !monitor.report(0, 1) {
            return Err(fail("error.cancelled"));
        }
        proof {
            crate::monitor::lemma_agreed_more(*old(monitor), 0, 1, n, then, *monitor);
            n = n + 1;
        }
        let left: usize = raw.len() - atom;
        if left < 4 {
            return Err(fail("truncated MOV header"));
        }
        let mut size = read32(raw, atom);
        if left < 8 {
            return Err(fail("truncated MOV atom"));
        }
        let mut header: usize = 8;
        if size == 1 {
            if left < 16 {
                return Err(fail("truncated MOV extended atom"));
            }
            let n = read64(raw, atom + 8);
            if n > usize::MAX as u64 {
                return Err(fail("oversized MOV atom"));
            }
            size = n as usize;
            header = 16;
        } else if size == 0 {
            size = left;
        }
        if size < header || size > left {
            return Err(fail("invalid MOV atom size"));
        }
        if same(vstd::slice::slice_subrange(raw, atom + 4, atom + 8), &[109u8, 100, 97, 116]) {
            let ghost then = *monitor;
            let ghost more = frames_asked(
                raw@,
                atom + header,
                atom + size,
                frames0,
                found0,
                atom + header,
            );
            let x = scan_frames(
                raw,
                atom + header,
                atom + size,
                &mut frames,
                &mut found,
                monitor,
            );
            proof {
                if monitor.stopped() {
                    crate::monitor::lemma_broke_off_later(*old(monitor), 0, 1, n, then, more, *monitor);
                } else {
                    crate::monitor::lemma_agreed_sum(*old(monitor), 0, 1, n, then, more, *monitor);
                }
                n = n + more;
            }
            x?;
        }
        atom = atom + size;
    }
    if frames == 0 || found.len() == 0 {
        return Err(fail("MOV has no supported ProRes frames"));
    }
    Ok(found)
}

/// The planes of a movie.
pub fn find_segments(raw: &[u8]) -> (r: Result<Vec<Segment>, String>)
    ensures
        match segments_of(raw@) {
            Ok(found) => r matches Ok(v) && v@ == found,
            Err(e) => r matches Err(m) && m@ == e,
        },
{
    find_segments_with_cancel(raw, &mut crate::monitor::Unwatched)
}


/// What holds of every plane that is found.
pub open spec fn proper(s: Segment, end: int) -> bool {
    &&& 1 <= s.len <= 65535
    &&& s.offset + s.len <= end
    &&& crate::plane::block_count(s.blocks as int)
    &&& s.key.0 <= 16384
    &&& s.key.1 <= 16384
    &&& s.key.2 <= 2
    &&& s.key.3 < 0x100_0000
}

/// Whether planes lie between `start` and `end`, one behind the other.
pub open spec fn in_line(v: Seq<Segment>, start: int, end: int) -> bool {
    &&& forall|i: int| 0 <= i < v.len() ==> proper(#[trigger] v[i], end) && start <= v[i].offset
    &&& forall|i: int, j: int|
        0 <= i < j < v.len() ==> (#[trigger] v[i]).offset + v[i].len <= (#[trigger] v[j]).offset
}

proof fn lemma_in_line(a: Seq<Segment>, b: Seq<Segment>, start: int, mid: int, end: int)
    requires
        in_line(a, start, mid),
        in_line(b, mid, end),
        start <= mid <= end,
    ensures
        in_line(a + b, start, end),
{
    let c = a + b;
    assert forall|i: int| 0 <= i < c.len() implies proper(#[trigger] c[i], end) && start
        <= c[i].offset by {
        if i < a.len() {
            assert(c[i] == a[i]);
        } else {
            assert(c[i] == b[i - a.len()]);
        }
    }
    assert forall|i: int, j: int| 0 <= i < j < c.len() implies (#[trigger] c[i]).offset + c[i].len
        <= (#[trigger] c[j]).offset by {
        if j < a.len() {
            assert(c[i] == a[i] && c[j] == a[j]);
        } else if i < a.len() {
            assert(c[i] == a[i] && c[j] == b[j - a.len()]);
            assert(proper(a[i], mid));
            assert(mid <= b[j - a.len()].offset);
        } else {
            assert(c[i] == b[i - a.len()] && c[j] == b[j - a.len()]);
        }
    }
}

spec fn sound(l: Layout, f: Seq<u8>) -> bool {
    &&& 1 <= l.mbw <= 1024
    &&& l.slice_width == 1 || l.slice_width == 2 || l.slice_width == 4 || l.slice_width == 8
    &&& l.width <= 16384
    &&& l.height <= 16384
    &&& 0 <= l.width
    &&& 0 <= l.height
    &&& 0 <= l.start
    &&& 0 <= l.table
    &&& l.start + l.end <= usize::MAX
    &&& l.count <= 0x80_0000
}

proof fn lemma_fitted(width: int, left: int)
    requires
        width == 1 || width == 2 || width == 4 || width == 8,
        left >= 1,
    ensures
        ({
            let m = fitted(width, left);
            (m == 1 || m == 2 || m == 4 || m == 8) && m <= left
        }),
{
    reveal_with_fuel(fitted, 4);
}

proof fn lemma_plane_in_line(l: Layout, slice: int, plane: int, at: int, size: int, mbs: int)
    requires
        0 <= plane <= 2,
        0 <= slice < 0x80_0000,
        0 <= at,
        0 <= size <= 65535,
        mbs == 1 || mbs == 2 || mbs == 4 || mbs == 8,
        0 <= l.width <= 16384,
        0 <= l.height <= 16384,
        0 <= l.start,
        l.start + at + size <= usize::MAX,
    ensures
        in_line(plane_at(l, slice, plane, at, size, mbs), l.start + at, l.start + at + size),
{
}

proof fn lemma_slice_in_line(f: Seq<u8>, l: Layout, slice: int, pos: int, x: int)
    requires
        sound(l, f),
        0 <= slice < l.count,
        0 <= pos,
        0 <= x < l.mbw,
        slice_at(f, l, slice, pos, x) is Ok,
    ensures
        in_line(
            slice_at(f, l, slice, pos, x)->Ok_0,
            l.start + pos,
            l.start + pos + be16(f, l.table + slice * 2),
        ),
{
    let len = be16(f, l.table + slice * 2);
    let sh = f[pos] as int / 8;
    let y = be16(f, pos + 2);
    let u = be16(f, pos + 4);
    let v = if sh >= 8 {
        be16(f, pos + 6)
    } else {
        len - (sh + y + u)
    };
    let mbs = fitted(l.slice_width, l.mbw - x);
    lemma_fitted(l.slice_width, l.mbw - x);
    let base = l.start + pos + sh;
    lemma_plane_in_line(l, slice, 0, pos + sh, y, mbs);
    lemma_plane_in_line(l, slice, 1, pos + sh + y, u, mbs);
    lemma_plane_in_line(l, slice, 2, pos + sh + y + u, v, mbs);
    let a = plane_at(l, slice, 0, pos + sh, y, mbs);
    let b = plane_at(l, slice, 1, pos + sh + y, u, mbs);
    let c = plane_at(l, slice, 2, pos + sh + y + u, v, mbs);
    lemma_in_line(a, b, base, base + y, base + y + u);
    lemma_in_line(a + b, c, base, base + y + u, base + y + u + v);
    lemma_wider(a + b + c, base, base + y + u + v, l.start + pos, l.start + pos + len);
}

proof fn lemma_wider(v: Seq<Segment>, start: int, end: int, first: int, last: int)
    requires
        in_line(v, start, end),
        first <= start,
        end <= last,
    ensures
        in_line(v, first, last),
{
}

proof fn lemma_slices_in_line(f: Seq<u8>, l: Layout, slice: int, pos: int, x: int)
    requires
        sound(l, f),
        0 <= slice <= l.count,
        0 <= pos <= l.end,
        0 <= x < l.mbw,
    ensures
        slices_from(f, l, slice, pos, x) matches Ok(v) ==> in_line(
            v,
            l.start + pos,
            l.start + l.end,
        ),
    decreases l.count - slice,
{
    if slice < l.count {
        match slice_at(f, l, slice, pos, x) {
            Err(_) => {},
            Ok(planes) => {
                lemma_slice_in_line(f, l, slice, pos, x);
                lemma_fitted(l.slice_width, l.mbw - x);
                let len = be16(f, l.table + slice * 2);
                let next = x + fitted(l.slice_width, l.mbw - x);
                let nx = if next == l.mbw {
                    0
                } else {
                    next
                };
                lemma_slices_in_line(f, l, slice + 1, pos + len, nx);
                if let Ok(rest) = slices_from(f, l, slice + 1, pos + len, nx) {
                    lemma_in_line(
                        planes,
                        rest,
                        l.start + pos,
                        l.start + pos + len,
                        l.start + l.end,
                    );
                }
            },
        }
    }
}

proof fn lemma_layout_sound(raw: Seq<u8>, start: int, frame: int)
    requires
        0 <= start,
        raw.len() <= usize::MAX,
    ensures
        layout_at(raw, start, frame) matches Ok((length, l)) ==> 28 <= length <= raw.len() - start
            && l.start == start && l.end <= length && l.table + 2 * l.count <= l.end && l.count > 0
            && sound(l, raw.subrange(start, start + length)),
{
    if let Ok((length, l)) = layout_at(raw, start, frame) {
        let f = raw.subrange(start, start + length);
        let picture = be16(f, 8) + 8;
        let flag = f[picture + 7];
        lemma_slice_width(flag / 16);
        let mbw = l.mbw;
        let w = l.slice_width;
        let mbh = (l.height + 15) / 16;
        assert(mbw / w <= mbw && 0 <= mbw % w < w && mbw / w >= 0) by (nonlinear_arith)
            requires
                1 <= w <= 8,
                mbw >= 0,
        ;
        let row = slices_per_row(mbw, w);
        assert(0 <= mbh * row <= 1024 * 1040) by (nonlinear_arith)
            requires
                0 <= mbh <= 1024,
                0 <= row <= 1040,
        ;
    }
}

proof fn lemma_frame_in_line(raw: Seq<u8>, start: int, frame: int)
    requires
        0 <= start,
        raw.len() <= usize::MAX,
    ensures
        frame_at(raw, start, frame) matches Ok((length, v)) ==> 28 <= length <= raw.len() - start
            && in_line(v, start, start + length),
{
    lemma_layout_sound(raw, start, frame);
    if let Ok((length, l)) = layout_at(raw, start, frame) {
        let f = raw.subrange(start, start + length);
        lemma_slices_in_line(f, l, 0, l.table + 2 * l.count, 0);
        if let Ok(v) = slices_from(f, l, 0, l.table + 2 * l.count, 0) {
            lemma_wider(v, start + l.table + 2 * l.count, start + l.end, start, start + length);
        }
    }
}

proof fn lemma_frames_in_line(
    raw: Seq<u8>,
    p: int,
    end: int,
    frames: int,
    found: Seq<Segment>,
)
    requires
        0 <= p <= end <= raw.len() <= usize::MAX,
        in_line(found, 0, p),
        found.len() <= MAX_SEGMENTS,
    ensures
        frames_from(raw, p, end, frames, found) matches Ok((n, v)) ==> in_line(v, 0, end) && v.len()
            <= MAX_SEGMENTS,
    decreases end - p,
{
    if p + 8 > end {
        lemma_wider(found, 0, p, 0, end);
    } else {
        lemma_wider(found, 0, p, 0, p + 1);
        if raw.subrange(p + 4, p + 8) == icpf() {
            lemma_frame_in_line(raw, p, frames);
            match frame_at(raw, p, frames) {
                Ok((length, planes)) => {
                    if 0 < length <= end - p {
                        lemma_in_line(found, planes, 0, p, p + length);
                        if found.len() + planes.len() <= MAX_SEGMENTS {
                            lemma_frames_in_line(
                                raw,
                                p + length,
                                end,
                                frames + 1,
                                found + planes,
                            );
                        }
                    } else {
                        lemma_frames_in_line(raw, p + 1, end, frames, found);
                    }
                },
                Err(_) => {
                    lemma_frames_in_line(raw, p + 1, end, frames, found);
                },
            }
        } else {
            lemma_frames_in_line(raw, p + 1, end, frames, found);
        }
    }
}

proof fn lemma_atoms_in_line(raw: Seq<u8>, atom: int, frames: int, found: Seq<Segment>)
    requires
        0 <= atom <= raw.len() <= usize::MAX,
        in_line(found, 0, atom),
        found.len() <= MAX_SEGMENTS,
    ensures
        atoms_from(raw, atom, frames, found) matches Ok((n, v)) ==> in_line(v, 0, raw.len() as int)
            && v.len() <= MAX_SEGMENTS,
    decreases raw.len() - atom,
{
    if atom < raw.len() {
        if let Ok((header, size)) = atom_at(raw, atom) {
            if raw.subrange(atom + 4, atom + 8) == mdat() {
                lemma_wider(found, 0, atom, 0, atom + header);
                lemma_frames_in_line(raw, atom + header, atom + size, frames, found);
                if let Ok((n, v)) = frames_from(
                    raw,
                    atom + header,
                    atom + size,
                    frames,
                    found,
                ) {
                    lemma_atoms_in_line(raw, atom + size, n, v);
                }
            } else {
                lemma_wider(found, 0, atom, 0, atom + size);
                lemma_atoms_in_line(raw, atom + size, frames, found);
            }
        }
    }
}

/// The planes of a movie are proper, lie one behind the other, and are not too many.
pub proof fn law_segments_in_line(raw: Seq<u8>)
    requires
        raw.len() <= usize::MAX,
    ensures
        segments_of(raw) matches Ok(v) ==> in_line(v, 0, raw.len() as int) && 0 < v.len()
            <= MAX_SEGMENTS,
{
    lemma_atoms_in_line(raw, 0, 0, Seq::empty());
}

}
