//! The layout of a ProRes frame with full chroma.

use crate::scanning::{fit, read16, read32, read64};
use crate::wire::{fail, same, Outcome};
use vstd::prelude::*;

verus! {

pub const MAX_DIM: usize = 8192;

/// A slice: the macroblocks that it covers, how strongly it is quantized, and where its four planes
/// lie, each an offset and a length.
#[derive(Debug)]
pub struct Slice {
    pub mb_x: usize,
    pub mb_y: usize,
    pub mbs: usize,
    pub qscale: u8,
    pub header: usize,
    pub luma: (usize, usize),
    pub blue: (usize, usize),
    pub red: (usize, usize),
    pub alpha: (usize, usize),
}

impl Clone for Slice {
    fn clone(&self) -> (s: Self)
        ensures
            s == *self,
    {
        Slice {
            mb_x: self.mb_x,
            mb_y: self.mb_y,
            mbs: self.mbs,
            qscale: self.qscale,
            header: self.header,
            luma: self.luma,
            blue: self.blue,
            red: self.red,
            alpha: self.alpha,
        }
    }
}

/// What a frame says of itself.
pub struct Frame {
    pub offset: usize,
    pub len: usize,
    pub width: usize,
    pub height: usize,
    pub alpha: bool,
    pub qmat: [[u8; 64]; 2],
    pub head_len: usize,
    pub slices: Vec<Slice>,
}

/// The contents of a frame.
#[verifier::ext_equal]
pub struct Contents {
    pub offset: int,
    pub len: int,
    pub width: int,
    pub height: int,
    pub alpha: bool,
    pub luma: Seq<u8>,
    pub chroma: Seq<u8>,
    pub head_len: int,
    pub slices: Seq<Slice>,
}

impl View for Frame {
    type V = Contents;

    open spec fn view(&self) -> Contents {
        Contents {
            offset: self.offset as int,
            len: self.len as int,
            width: self.width as int,
            height: self.height as int,
            alpha: self.alpha,
            luma: self.qmat@[0]@,
            chroma: self.qmat@[1]@,
            head_len: self.head_len as int,
            slices: self.slices@,
        }
    }
}

/// How many blocks of sixteen cover a length.
pub open spec fn sixteenths(n: int) -> int {
    (n + 15) / 16
}

/// Whether a slice lies within its frame.
pub open spec fn fits_in(s: Slice, width: int, height: int) -> bool {
    &&& s.mb_x + s.mbs <= sixteenths(width)
    &&& s.mb_y < sixteenths(height)
    &&& s.mbs == 1 || s.mbs == 2 || s.mbs == 4 || s.mbs == 8
    &&& s.luma.0 + s.luma.1 <= usize::MAX
    &&& s.blue.0 + s.blue.1 <= usize::MAX
    &&& s.red.0 + s.red.1 <= usize::MAX
    &&& s.alpha.0 + s.alpha.1 <= usize::MAX
    &&& s.luma.1 <= 65535
    &&& s.blue.1 <= 65535
    &&& s.red.1 <= 65535
    &&& s.alpha.1 <= 65535
}

impl Contents {
    pub open spec fn wf(self) -> bool {
        &&& 1 <= self.width <= MAX_DIM
        &&& 1 <= self.height <= MAX_DIM
        &&& forall|i: int|
            0 <= i < self.slices.len() ==> fits_in(
                #[trigger] self.slices[i],
                self.width,
                self.height,
            )
    }
}

impl Frame {
    /// How many macroblocks a row has.
    pub fn mbw(&self) -> (n: usize)
        requires
            self.width <= usize::MAX - 15,
        ensures
            n == sixteenths(self.width as int),
    {
        (self.width + 15) / 16
    }

    /// How many rows of macroblocks there are.
    pub fn mbh(&self) -> (n: usize)
        requires
            self.height <= usize::MAX - 15,
        ensures
            n == sixteenths(self.height as int),
    {
        (self.height + 15) / 16
    }
}

/// How many pixel rows of alpha a slice has.
pub open spec fn alpha_rows(height: int, s: Slice) -> int {
    crate::plane::min(16, height - s.mb_y * 16)
}

/// The weights of a frame, from the byte that says which of them it brings along.
pub open spec fn weights_of(f: Seq<u8>) -> Outcome<(Seq<u8>, Seq<u8>)> {
    let own = f[27] as int / 2 % 2 == 1;
    let second = f[27] as int % 2 == 1;
    let at = if own {
        92int
    } else {
        28int
    };
    if at > f.len() || (second && at + 64 > f.len()) {
        Err("truncated ProRes matrix"@)
    } else {
        let luma = if own {
            f.subrange(28, 92)
        } else {
            Seq::new(64, |i: int| 4u8)
        };
        let chroma = if second {
            f.subrange(at, at + 64)
        } else {
            luma
        };
        if !crate::motion_scan::positive(luma) || !crate::motion_scan::positive(chroma) {
            Err("invalid ProRes matrix"@)
        } else {
            Ok((luma, chroma))
        }
    }
}

/// The slice at `pos`, where number `n` of the slice lengths stands at `table`, and the position
/// behind it.
pub open spec fn slice_at(
    f: Seq<u8>,
    start: int,
    x: int,
    y: int,
    mbs: int,
    table: int,
    n: int,
    pos: int,
) -> Outcome<(Slice, int)> {
    if table + 2 * n + 2 > f.len() {
        Err("truncated ProRes header"@)
    } else if pos >= f.len() {
        Err("truncated ProRes slice"@)
    } else {
        let len = crate::scanning::be16(f, table + 2 * n);
        let sh = f[pos] as int / 8;
        let (a, b, c) = (
            crate::scanning::be16(f, pos + 2),
            crate::scanning::be16(f, pos + 4),
            crate::scanning::be16(f, pos + 6),
        );
        if sh < 8 || sh > len {
            Err("unsupported ProRes slice header"@)
        } else if pos + 8 > f.len() {
            Err("truncated ProRes header"@)
        } else if sh + a + b + c > len {
            Err("invalid ProRes plane sizes"@)
        } else {
            let at = start + pos + sh;
            Ok(
                (
                    Slice {
                        mb_x: x as usize,
                        mb_y: y as usize,
                        mbs: mbs as usize,
                        qscale: f[pos + 1],
                        header: sh as usize,
                        luma: (at as usize, a as usize),
                        blue: ((at + a) as usize, b as usize),
                        red: ((at + a + b) as usize, c as usize),
                        alpha: ((at + a + b + c) as usize, (len - sh - a - b - c) as usize),
                    },
                    pos + len,
                ),
            )
        }
    }
}

/// A slice of which only its place is known.
pub open spec fn bare_slice(x: int, y: int, mbs: int) -> Slice {
    Slice {
        mb_x: x as usize,
        mb_y: y as usize,
        mbs: mbs as usize,
        qscale: 1,
        header: 8,
        luma: (0, 0),
        blue: (0, 0),
        red: (0, 0),
        alpha: (0, 0),
    }
}

/// How the slices of a frame are laid out.
pub struct Grid {
    pub start: int,
    pub mbw: int,
    pub mbh: int,
    pub slice_width: int,
    pub table: int,
    pub known: bool,
}

/// The slices from macroblock `x` of row `y` on, behind those found before, and the position behind
/// them.
pub open spec fn slices_from(f: Seq<u8>, g: Grid, y: int, x: int, pos: int, done: Seq<Slice>) -> Outcome<
    (Seq<Slice>, int),
>
    decreases g.mbh - y, g.mbw - x,
{
    if y >= g.mbh {
        Ok((done, pos))
    } else if x >= g.mbw {
        slices_from(f, g, y + 1, 0, pos, done)
    } else {
        let mbs = crate::scanning::fitted(g.slice_width, g.mbw - x);
        if mbs <= 0 || x + mbs > g.mbw {
            Ok((done, pos))
        } else if !g.known {
            slices_from(f, g, y, x + mbs, pos, done.push(bare_slice(x, y, mbs)))
        } else {
            match slice_at(f, g.start, x, y, mbs, g.table, done.len() as int, pos) {
                Err(e) => Err(e),
                Ok((s, next)) => slices_from(f, g, y, x + mbs, next, done.push(s)),
            }
        }
    }
}

/// The slices of a picture whose header is at `picture`, and where their table stands.
pub open spec fn picture_at(f: Seq<u8>, start: int, known: bool, width: int, height: int, picture: int) -> Outcome<
    (Seq<Slice>, int),
> {
    if picture + 8 > f.len() {
        Err("truncated ProRes picture"@)
    } else {
        let ph = f[picture] as int / 8;
        let flag = f[picture + 7] as int;
        let table = picture + ph;
        if ph < 8 || flag % 16 != 0 || flag / 16 > 3 {
            Err("unsupported ProRes slice layout"@)
        } else {
            let slice_width = crate::codeword::power2(flag / 16);
            let (mbw, mbh) = (sixteenths(width), sixteenths(height));
            let count = mbh * crate::scanning::slices_per_row(mbw, slice_width);
            let g = Grid { start, mbw, mbh, slice_width, table, known };
            let first = if known {
                table + 2 * count
            } else {
                table
            };
            match slices_from(f, g, 0, 0, first, Seq::empty()) {
                Err(e) => Err(e),
                Ok((slices, end)) => if known && (end != picture + crate::scanning::be32(
                    f,
                    picture + 1,
                ) || end > crate::scanning::be32(f, 0) || crate::scanning::be32(f, 0) > f.len()) {
                    Err("unrecognized ProRes picture layout"@)
                } else {
                    Ok((slices, table))
                },
            }
        }
    }
}

/// The frame whose first bytes are `f`, which stand at `start` of a movie. Where the slices are not
/// known, only their places are found.
pub open spec fn parsed(f: Seq<u8>, start: int, known: bool) -> Outcome<Contents> {
    if f.len() < 4 {
        Err("truncated ProRes header"@)
    } else if crate::scanning::be32(f, 0) < 28 || f.len() < 8 || f.subrange(4, 8)
        != crate::scanning::icpf() {
        Err("not a ProRes frame"@)
    } else if f.len() < 21 {
        Err("truncated ProRes header"@)
    } else {
        let width = crate::scanning::be16(f, 16);
        let height = crate::scanning::be16(f, 18);
        let flags = f[20] as int;
        if width == 0 || height == 0 || width > MAX_DIM || height > MAX_DIM {
            Err("unsupported ProRes dimensions"@)
        } else if flags / 64 != 3 || flags / 4 % 4 != 0 {
            Err("only progressive 4:4:4 ProRes is supported"@)
        } else if f.len() < 28 {
            Err("truncated ProRes header"@)
        } else {
            match weights_of(f) {
                Err(e) => Err(e),
                Ok((luma, chroma)) => match picture_at(
                    f,
                    start,
                    known,
                    width,
                    height,
                    crate::scanning::be16(f, 8) + 8,
                ) {
                    Err(e) => Err(e),
                    Ok((slices, head_len)) => Ok(
                        Contents {
                            offset: start,
                            len: crate::scanning::be32(f, 0),
                            width,
                            height,
                            alpha: f[25] as int % 16 != 0,
                            luma,
                            chroma,
                            head_len,
                            slices,
                        },
                    ),
                },
            }
        }
    }
}

/// A frame whose head is `head`, and which is `frame_len` bytes long.
pub open spec fn parsed_head(head: Seq<u8>, frame_len: int) -> Outcome<Contents> {
    match parsed(head, 0, false) {
        Err(e) => Err(e),
        Ok(f) => if f.head_len != head.len() || f.len != frame_len {
            Err("inconsistent ProRes frame head"@)
        } else {
            Ok(f)
        },
    }
}

/// The frame at `p` of a movie, if one stands there.
pub open spec fn frame_at(raw: Seq<u8>, p: int) -> Option<Contents> {
    let len = crate::scanning::be32(raw, p);
    if p + len > raw.len() {
        None
    } else {
        match parsed(raw.subrange(p, p + len), p, true) {
            Err(_) => None,
            Ok(f) => Some(f),
        }
    }
}

/// The frames between `p` and `end`, behind those found before.
pub open spec fn frames_from(raw: Seq<u8>, p: int, end: int, done: Seq<Contents>) -> Seq<Contents>
    decreases end - p,
{
    if p + 8 > end {
        done
    } else if raw.subrange(p + 4, p + 8) != crate::scanning::icpf() {
        frames_from(raw, p + 1, end, done)
    } else {
        match frame_at(raw, p) {
            Some(f) => if 0 < f.len <= end - p {
                frames_from(raw, p + f.len, end, done.push(f))
            } else {
                frames_from(raw, p + 1, end, done)
            },
            None => frames_from(raw, p + 1, end, done),
        }
    }
}

/// The length of the header of the atom at `atom`, and its own, if it is whole.
pub open spec fn atom_at(raw: Seq<u8>, atom: int) -> Option<(int, int)> {
    let said = crate::scanning::be32(raw, atom);
    if said == 1 && atom + 16 > raw.len() {
        None
    } else {
        let header = if said == 1 {
            16int
        } else {
            8
        };
        let size = if said == 1 {
            crate::scanning::be64(raw, atom + 8)
        } else if said == 0 {
            raw.len() - atom
        } else {
            said
        };
        if size < header || size > raw.len() - atom {
            None
        } else {
            Some((header, size))
        }
    }
}

/// The frames of the atoms from `atom` on, behind those found before.
pub open spec fn atoms_from(raw: Seq<u8>, atom: int, done: Seq<Contents>) -> Seq<Contents>
    decreases raw.len() - atom,
{
    if atom + 8 > raw.len() {
        done
    } else {
        match atom_at(raw, atom) {
            None => done,
            Some((header, size)) => if raw.subrange(atom + 4, atom + 8) == crate::scanning::mdat() {
                atoms_from(
                    raw,
                    atom + size,
                    frames_from(raw, atom + header, atom + size, done),
                )
            } else {
                atoms_from(raw, atom + size, done)
            },
        }
    }
}

/// The frames of a movie.
pub open spec fn frames_of(raw: Seq<u8>) -> Seq<Contents> {
    atoms_from(raw, 0, Seq::empty())
}


fn read_weights(f: &[u8]) -> (r: Result<[[u8; 64]; 2], String>)
    requires
        f.len() >= 28,
    ensures
        match weights_of(f@) {
            Err(e) => r matches Err(m) && m@ == e,
            Ok((luma, chroma)) => r matches Ok(q) && q@[0]@ == luma && q@[1]@ == chroma,
        },
{
    let own: bool = f[27] / 2 % 2 == 1;
    let second: bool = f[27] % 2 == 1;
    let at: usize = if own { 92 } else { 28 };
    if at > f.len() || (second && f.len() - at < 64) {
        return Err(fail("truncated ProRes matrix"));
    }
    let fours: [u8; 64] = [4u8; 64];
    let luma: &[u8] = if own { &f[28..92] } else { fours.as_slice() };
    assert(!own ==> luma@ =~= Seq::new(64, |i: int| 4u8));
    let chroma: &[u8] = if second { &f[at..at + 64] } else { luma };
    if crate::motion_scan::has_zero(luma) || crate::motion_scan::has_zero(chroma) {
        return Err(fail("invalid ProRes matrix"));
    }
    let a = crate::motion_scan::read_channel(luma);
    let b = crate::motion_scan::read_channel(chroma);
    Ok([a, b])
}

/// How many bytes a movie may have, so that no position in it overflows.
pub open spec fn addressable(len: int) -> bool {
    len + 0x100_0000 <= usize::MAX
}

fn read_slice(f: &[u8], start: usize, x: usize, y: usize, mbs: usize, table: usize, n: usize, pos: usize) -> (r:
    Result<(Slice, usize), String>)
    requires
        addressable(start + f.len()),
        n <= 0x10_0000,
        table <= 0x2_0000,
        pos <= f.len() + 0x20_0000,
    ensures
        match slice_at(
            f@,
            start as int,
            x as int,
            y as int,
            mbs as int,
            table as int,
            n as int,
            pos as int,
        ) {
            Err(e) => r matches Err(m) && m@ == e,
            Ok((s, end)) => r matches Ok((t, p)) && t == s && p == end && p <= f.len() + 65535
                && s.luma.0 + s.luma.1 <= usize::MAX && s.blue.0 + s.blue.1 <= usize::MAX && s.red.0
                + s.red.1 <= usize::MAX && s.alpha.0 + s.alpha.1 <= usize::MAX && s.luma.1 <= 65535
                && s.blue.1 <= 65535 && s.red.1 <= 65535 && s.alpha.1 <= 65535,
        },
{
    if table + 2 * n + 2 > f.len() {
        return Err(fail("truncated ProRes header"));
    }
    let len = read16(f, table + 2 * n);
    if pos >= f.len() {
        return Err(fail("truncated ProRes slice"));
    }
    let sh: usize = f[pos] as usize / 8;
    if sh < 8 || sh > len {
        return Err(fail("unsupported ProRes slice header"));
    }
    if f.len() - pos < 8 {
        return Err(fail("truncated ProRes header"));
    }
    let (a, b, c) = (read16(f, pos + 2), read16(f, pos + 4), read16(f, pos + 6));
    if sh + a + b + c > len {
        return Err(fail("invalid ProRes plane sizes"));
    }
    let at: usize = start + pos + sh;
    let s = Slice {
        mb_x: x,
        mb_y: y,
        mbs,
        qscale: f[pos + 1],
        header: sh,
        luma: (at, a),
        blue: (at + a, b),
        red: (at + a + b, c),
        alpha: (at + a + b + c, len - sh - a - b - c),
    };
    Ok((s, pos + len))
}

proof fn lemma_fitted(width: int, left: int)
    requires
        width == 1 || width == 2 || width == 4 || width == 8,
        left >= 1,
    ensures
        ({
            let m = crate::scanning::fitted(width, left);
            (m == 1 || m == 2 || m == 4 || m == 8) && m <= left && m <= width
        }),
{
    reveal_with_fuel(crate::scanning::fitted, 5);
}

struct Scan {
    start: usize,
    mbw: usize,
    mbh: usize,
    slice_width: usize,
    table: usize,
    known: bool,
}

impl Scan {
    spec fn model(&self) -> Grid {
        Grid {
            start: self.start as int,
            mbw: self.mbw as int,
            mbh: self.mbh as int,
            slice_width: self.slice_width as int,
            table: self.table as int,
            known: self.known,
        }
    }
}

fn read_slices(f: &[u8], g: &Scan, first: usize, Ghost(width): Ghost<int>, Ghost(height): Ghost<int>) -> (r:
    Result<(Vec<Slice>, usize), String>)
    requires
        addressable(g.start + f.len()),
        g.table <= 0x2_0000,
        first <= f.len() + 0x20_0000,
        1 <= width <= MAX_DIM,
        1 <= height <= MAX_DIM,
        g.mbw == sixteenths(width),
        g.mbh == sixteenths(height),
        g.slice_width == 1 || g.slice_width == 2 || g.slice_width == 4 || g.slice_width == 8,
    ensures
        match slices_from(f@, g.model(), 0, 0, first as int, Seq::empty()) {
            Err(e) => r matches Err(m) && m@ == e,
            Ok((s, end)) => r matches Ok((t, p)) && t@ == s && p == end && (forall|i: int|
                0 <= i < s.len() ==> fits_in(#[trigger] s[i], width, height)) && end >= first,
        },
{
    let ghost whole = slices_from(f@, g.model(), 0, 0, first as int, Seq::empty());
    let mut slices: Vec<Slice> = Vec::new();
    let mut pos: usize = first;
    let mut y: usize = 0;
    let mut x: usize = 0;
    assert(slices@ =~= Seq::<Slice>::empty());
    while y < g.mbh
        invariant
            addressable(g.start + f.len()),
            g.table <= 0x2_0000,
            first <= pos <= f.len() + 0x20_0000,
            1 <= width <= MAX_DIM,
            1 <= height <= MAX_DIM,
            g.mbw == sixteenths(width),
            g.mbh == sixteenths(height),
            g.slice_width == 1 || g.slice_width == 2 || g.slice_width == 4 || g.slice_width == 8,
            y <= g.mbh,
            x <= g.mbw,
            y == g.mbh ==> x == 0,
            slices@.len() <= y * 512 + x,
            whole == slices_from(f@, g.model(), 0, 0, first as int, Seq::empty()),
            whole == slices_from(f@, g.model(), y as int, x as int, pos as int, slices@),
            forall|i: int| 0 <= i < slices@.len() ==> fits_in(#[trigger] slices@[i], width, height),
        decreases g.mbh - y, g.mbw - x,
    {
        if x >= g.mbw {
            y += 1;
            x = 0;
        } else {
            proof {
                lemma_fitted(g.slice_width as int, g.mbw - x);
            }
            let mbs = fit(g.slice_width, g.mbw - x);
            if g.known {
                let (s, next) = read_slice(f, g.start, x, y, mbs, g.table, slices.len(), pos)?;
                slices.push(s);
                pos = next;
            } else {
                slices.push(
                    Slice {
                        mb_x: x,
                        mb_y: y,
                        mbs,
                        qscale: 1,
                        header: 8,
                        luma: (0, 0),
                        blue: (0, 0),
                        red: (0, 0),
                        alpha: (0, 0),
                    },
                );
            }
            x = x + mbs;
        }
    }
    Ok((slices, pos))
}

pub open spec fn contents(r: Result<Frame, String>) -> Outcome<Contents> {
    match r {
        Ok(f) => Ok(f@),
        Err(e) => Err(e@),
    }
}

fn read_picture(f: &[u8], start: usize, known: bool, width: usize, height: usize) -> (r: Result<
    (Vec<Slice>, usize),
    String,
>)
    requires
        addressable(start + f.len()),
        f.len() >= 28,
        1 <= width <= MAX_DIM,
        1 <= height <= MAX_DIM,
    ensures
        match picture_at(
            f@,
            start as int,
            known,
            width as int,
            height as int,
            crate::scanning::be16(f@, 8) + 8,
        ) {
            Err(e) => r matches Err(m) && m@ == e,
            Ok((s, table)) => r matches Ok((t, p)) && t@ == s && p == table && (forall|i: int|
                0 <= i < s.len() ==> fits_in(#[trigger] s[i], width as int, height as int)) && (known
                ==> table <= crate::scanning::be32(f@, 0) <= f@.len()),
        },
{
    let length = read32(f, 0);
    let picture: usize = read16(f, 8) + 8;
    if f.len() < picture + 8 {
        return Err(fail("truncated ProRes picture"));
    }
    let ph: usize = f[picture] as usize / 8;
    let flag: u8 = f[picture + 7];
    if ph < 8 || flag % 16 != 0 || flag / 16 > 3 {
        return Err(fail("unsupported ProRes slice layout"));
    }
    proof {
        reveal_with_fuel(crate::codeword::power2, 4);
    }
    let slice_width: usize = if flag / 16 == 0 {
        1
    } else if flag / 16 == 1 {
        2
    } else if flag / 16 == 2 {
        4
    } else {
        8
    };
    let mbw: usize = (width + 15) / 16;
    let mbh: usize = (height + 15) / 16;
    let table: usize = picture + ph;
    let rest: usize = mbw % slice_width;
    let per_row: usize = mbw / slice_width + rest % 2 + rest / 2 % 2 + rest / 4;
    assert(mbw / slice_width <= mbw && rest < slice_width) by (nonlinear_arith)
        requires
            1 <= slice_width <= 8,
            rest == mbw % slice_width,
    ;
    assert(mbh * per_row <= 512 * 1024) by (nonlinear_arith)
        requires
            0 <= mbh <= 512,
            0 <= per_row <= 1024,
    ;
    let count: usize = mbh * per_row;
    let first: usize = if known { table + 2 * count } else { table };
    let g = Scan { start, mbw, mbh, slice_width, table, known };
    let (slices, end) = read_slices(f, &g, first, Ghost(width as int), Ghost(height as int))?;
    if known {
        let said = read32(f, picture + 1);
        if end < picture || end - picture != said || end > length || length > f.len() {
            return Err(fail("unrecognized ProRes picture layout"));
        }
    }
    Ok((slices, table))
}

fn parse(f: &[u8], start: usize, known: bool) -> (r: Result<Frame, String>)
    requires
        addressable(start + f.len()),
    ensures
        contents(r) == parsed(f@, start as int, known),
        r matches Ok(x) ==> x@.wf() && x.len >= 28 && (known ==> x.head_len <= x.len <= f@.len()),
{
    if f.len() < 4 {
        return Err(fail("truncated ProRes header"));
    }
    let length = read32(f, 0);
    if length < 28 || f.len() < 8 || !same(&f[4..8], &[105u8, 99, 112, 102]) {
        return Err(fail("not a ProRes frame"));
    }
    if f.len() < 21 {
        return Err(fail("truncated ProRes header"));
    }
    let width = read16(f, 16);
    let height = read16(f, 18);
    let flags: u8 = f[20];
    if width == 0 || height == 0 || width > MAX_DIM || height > MAX_DIM {
        return Err(fail("unsupported ProRes dimensions"));
    }
    if flags / 64 != 3 || flags / 4 % 4 != 0 {
        return Err(fail("only progressive 4:4:4 ProRes is supported"));
    }
    if f.len() < 28 {
        return Err(fail("truncated ProRes header"));
    }
    let qmat = read_weights(f)?;
    let (slices, table) = read_picture(f, start, known, width, height)?;
    let frame = Frame {
        offset: start,
        len: length,
        width,
        height,
        alpha: f[25] % 16 != 0,
        qmat,
        head_len: table,
        slices,
    };
    Ok(frame)
}

/// Reads the head of a frame.
pub fn parse_head(head: &[u8], frame_len: usize) -> (r: Result<Frame, String>)
    requires
        addressable(head.len() as int),
    ensures
        contents(r) == parsed_head(head@, frame_len as int),
        r matches Ok(x) ==> x@.wf(),
{
    let f = parse(head, 0, false)?;
    if f.head_len != head.len() || f.len != frame_len {
        return Err(fail("inconsistent ProRes frame head"));
    }
    Ok(f)
}

pub open spec fn views(v: Seq<Frame>) -> Seq<Contents> {
    Seq::new(v.len(), |i: int| v[i]@)
}

pub open spec fn all_wf(v: Seq<Frame>) -> bool {
    forall|i: int| 0 <= i < v.len() ==> (#[trigger] v[i])@.wf()
}

/// Frames that lie in a movie of `n` bytes.
pub open spec fn all_in(v: Seq<Frame>, n: int) -> bool {
    forall|i: int|
        0 <= i < v.len() ==> (#[trigger] v[i]).offset + v[i].len <= n && v[i].head_len <= v[i].len
            && 28 <= v[i].len
}

fn scan_frames(raw: &[u8], from: usize, end: usize, out: &mut Vec<Frame>)
    requires
        addressable(raw.len() as int),
        from <= end <= raw.len(),
        all_wf(old(out)@),
        all_in(old(out)@, raw.len() as int),
    ensures
        views(final(out)@) == frames_from(raw@, from as int, end as int, views(old(out)@)),
        all_wf(final(out)@),
        all_in(final(out)@, raw.len() as int),
{
    let ghost whole = frames_from(raw@, from as int, end as int, views(out@));
    let mut p: usize = from;
    while end - p >= 8
        invariant
            addressable(raw.len() as int),
            from <= p <= end <= raw.len(),
            all_wf(out@),
            all_in(out@, raw.len() as int),
            whole == frames_from(raw@, p as int, end as int, views(out@)),
        decreases end - p,
    {
        let mut step: usize = 1;
        if same(&raw[p + 4..p + 8], &[105u8, 99, 112, 102]) {
            let len = read32(raw, p);
            if len <= raw.len() - p {
                match parse(&raw[p..p + len], p, true) {
                    Err(_) => {},
                    Ok(f) => {
                        if f.len <= end - p {
                            step = f.len;
                            let ghost before = out@;
                            out.push(f);
                            assert(views(out@) =~= views(before).push(f@));
                        }
                    },
                }
            }
        }
        p = p + step;
    }
}

/// Finds the frames of a movie.
pub fn frames(raw: &[u8]) -> (out: Vec<Frame>)
    requires
        addressable(raw.len() as int),
    ensures
        views(out@) == frames_of(raw@),
        all_wf(out@),
        all_in(out@, raw.len() as int),
{
    let mut out: Vec<Frame> = Vec::new();
    let ghost whole = frames_of(raw@);
    let mut atom: usize = 0;
    assert(views(out@) =~= Seq::<Contents>::empty());
    while raw.len() - atom >= 8
        invariant
            addressable(raw.len() as int),
            atom <= raw.len(),
            all_wf(out@),
            all_in(out@, raw.len() as int),
            whole == frames_of(raw@),
            whole == atoms_from(raw@, atom as int, views(out@)),
        decreases raw.len() - atom,
    {
        let left: usize = raw.len() - atom;
        let said = read32(raw, atom);
        let mut size: u64 = said as u64;
        let mut header: usize = 8;
        if said == 1 {
            if left < 16 {
                return out;
            }
            size = read64(raw, atom + 8);
            header = 16;
        } else if said == 0 {
            size = left as u64;
        }
        if size < header as u64 || size > left as u64 {
            return out;
        }
        let n: usize = size as usize;
        if same(&raw[atom + 4..atom + 8], &[109u8, 100, 97, 116]) {
            scan_frames(raw, atom + header, atom + n, &mut out);
        }
        atom = atom + n;
    }
    out
}

}
