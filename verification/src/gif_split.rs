//! The exact form of a GIF file taken apart into pixels and all the rest.

use crate::gif_exact::Reader;
use crate::text::same_text;
use crate::wire::{fail, same, Outcome};
use vstd::prelude::*;

verus! {

/// The longest GIF file, and the longest exact form, that is predicted.
pub const LIMIT: usize = 0x800_0000;

/// The longest description of all but the pixels.
pub const SIDE_LIMIT: usize = 0x100_0000;

/// The most pixels.
pub const PIXEL_LIMIT: usize = 0x400_0000;

/// The most frames.
pub const MAX_FRAMES: usize = 1024;

/// The width and height of the canvas.
pub const CANVAS: usize = 300;

/// An error of reading, in the words used here.
pub open spec fn reworded(e: Seq<char>) -> Seq<char> {
    if e == "GIF length overflow"@ {
        "GIF prediction length overflow"@
    } else if e == "Truncated GIF data"@ {
        "Truncated GIF prediction data"@
    } else {
        "GIF prediction integer overflow"@
    }
}

pub open spec fn told<T>(o: Outcome<T>) -> Outcome<T> {
    match o {
        Ok(x) => Ok(x),
        Err(e) => Err(reworded(e)),
    }
}

fn reword(e: String) -> (r: String)
    ensures
        r@ == reworded(e@),
{
    if same_text(&e, "GIF length overflow") {
        fail("GIF prediction length overflow")
    } else if same_text(&e, "Truncated GIF data") {
        fail("Truncated GIF prediction data")
    } else {
        fail("GIF prediction integer overflow")
    }
}

pub open spec fn next_byte(b: Seq<u8>, p: int) -> Outcome<u8> {
    told(crate::gif_exact::byte_at(b, p))
}

pub open spec fn next_bytes(b: Seq<u8>, p: int, n: int) -> Outcome<Seq<u8>> {
    told(crate::gif_exact::take_at(b, p, n))
}

pub open spec fn next_var(b: Seq<u8>, p: int) -> Outcome<(int, int)> {
    told(crate::gif_exact::var_at(b, p))
}

pub open spec fn next_blob(b: Seq<u8>, p: int) -> Outcome<(Seq<u8>, int)> {
    told(crate::gif_exact::blob_at(b, p))
}

fn read_byte(r: &mut Reader<'_>) -> (x: Result<u8, String>)
    requires
        old(r).wf(),
    ensures
        final(r).wf(),
        final(r).bytes == old(r).bytes,
        crate::wire::plain(x) == next_byte(old(r).bytes@, old(r).pos as int),
        x is Ok ==> final(r).pos == old(r).pos + 1,
{
    match r.byte() {
        Ok(b) => Ok(b),
        Err(e) => Err(reword(e)),
    }
}

fn read_bytes<'a>(r: &mut Reader<'a>, n: usize) -> (x: Result<&'a [u8], String>)
    requires
        old(r).wf(),
    ensures
        final(r).wf(),
        final(r).bytes == old(r).bytes,
        match x {
            Ok(s) => next_bytes(old(r).bytes@, old(r).pos as int, n as int) == Ok::<
                Seq<u8>,
                Seq<char>,
            >(s@) && final(r).pos == old(r).pos + n,
            Err(e) => next_bytes(old(r).bytes@, old(r).pos as int, n as int) == Err::<
                Seq<u8>,
                Seq<char>,
            >(e@),
        },
{
    match r.take(n) {
        Ok(b) => Ok(b),
        Err(e) => Err(reword(e)),
    }
}

proof fn lemma_groups_forward(b: Seq<u8>, pos: int, group: int, sum: int, scale: int)
    requires
        sum >= 0,
        scale >= 1,
    ensures
        crate::gif_exact::read_groups(b, pos, group, sum, scale) matches Ok((n, p)) ==> p > pos && n
            >= 0,
    decreases 10 - group,
{
    if group < 10 && pos < b.len() {
        assert(0 <= (b[pos] % 128) * scale && 0 <= b[pos] * scale) by (nonlinear_arith)
            requires
                scale >= 1,
                b[pos] % 128 >= 0,
                b[pos] >= 0,
        ;
        lemma_groups_forward(
            b,
            pos + 1,
            group + 1,
            sum + (b[pos] % 128) * scale,
            scale * 128,
        );
    }
}

pub proof fn lemma_forward(b: Seq<u8>, p: int)
    ensures
        next_var(b, p) matches Ok((n, q)) ==> q > p,
        next_blob(b, p) matches Ok((s, q)) ==> q > p,
{
    lemma_groups_forward(b, p, 0, 0, 1);
}

fn read_var(r: &mut Reader<'_>) -> (x: Result<usize, String>)
    requires
        old(r).wf(),
    ensures
        final(r).wf(),
        final(r).bytes == old(r).bytes,
        match x {
            Ok(n) => next_var(old(r).bytes@, old(r).pos as int) == Ok::<(int, int), Seq<char>>(
                (n as int, final(r).pos as int),
            ) && final(r).pos > old(r).pos,
            Err(e) => next_var(old(r).bytes@, old(r).pos as int) == Err::<(int, int), Seq<char>>(e@),
        },
{
    proof {
        lemma_forward(r.bytes@, r.pos as int);
    }
    match r.var() {
        Ok(n) => Ok(n),
        Err(e) => Err(reword(e)),
    }
}

fn read_blob<'a>(r: &mut Reader<'a>) -> (x: Result<&'a [u8], String>)
    requires
        old(r).wf(),
    ensures
        final(r).wf(),
        final(r).bytes == old(r).bytes,
        match x {
            Ok(s) => next_blob(old(r).bytes@, old(r).pos as int) == Ok::<(Seq<u8>, int), Seq<char>>(
                (s@, final(r).pos as int),
            ) && final(r).pos > old(r).pos,
            Err(e) => next_blob(old(r).bytes@, old(r).pos as int) == Err::<(Seq<u8>, int), Seq<char>>(
                e@,
            ),
        },
{
    proof {
        lemma_forward(r.bytes@, r.pos as int);
    }
    match r.blob() {
        Ok(s) => Ok(s),
        Err(e) => Err(reword(e)),
    }
}

/// A frame of a GIF file: where it lies, how its rows are ordered, its colours, and its pixels from
/// top to bottom.
#[verifier::ext_equal]
pub struct Shot {
    pub w: int,
    pub h: int,
    pub x: int,
    pub y: int,
    pub interlace: bool,
    pub palette: Seq<u8>,
    pub transparent: Option<u8>,
    pub pixels: Seq<u8>,
}

/// A frame of a GIF file.
pub struct GifFrame {
    pub w: usize,
    pub h: usize,
    pub x: usize,
    pub y: usize,
    pub interlace: bool,
    pub palette: Vec<u8>,
    pub transparent: Option<u8>,
    pub pixels: Vec<u8>,
}

impl View for GifFrame {
    type V = Shot;

    open spec fn view(&self) -> Shot {
        Shot {
            w: self.w as int,
            h: self.h as int,
            x: self.x as int,
            y: self.y as int,
            interlace: self.interlace,
            palette: self.palette@,
            transparent: self.transparent,
            pixels: self.pixels@,
        }
    }
}

impl Shot {
    /// Whether a frame lies on the canvas and has colours.
    pub open spec fn framed(self) -> bool {
        &&& 1 <= self.w
        &&& 1 <= self.h
        &&& 0 <= self.x
        &&& 0 <= self.y
        &&& self.x + self.w <= CANVAS
        &&& self.y + self.h <= CANVAS
        &&& 6 <= self.palette.len() <= 768
        &&& self.palette.len() % 3 == 0
    }

    pub open spec fn wf(self) -> bool {
        self.framed() && self.pixels.len() == self.w * self.h
    }
}

pub open spec fn shots(v: Seq<GifFrame>) -> Seq<Shot> {
    Seq::new(v.len(), |i: int| v[i]@)
}

/// How many bytes of colours the flags of a table announce.
pub open spec fn colour_bytes(flags: u8) -> int {
    let k = flags % 8;
    if k == 0 {
        6
    } else if k == 1 {
        12
    } else if k == 2 {
        24
    } else if k == 3 {
        48
    } else if k == 4 {
        96
    } else if k == 5 {
        192
    } else if k == 6 {
        384
    } else {
        768
    }
}

fn colour_length(flags: u8) -> (n: usize)
    ensures
        n == colour_bytes(flags),
{
    let k: u8 = flags % 8;
    if k == 0 {
        6
    } else if k == 1 {
        12
    } else if k == 2 {
        24
    } else if k == 3 {
        48
    } else if k == 4 {
        96
    } else if k == 5 {
        192
    } else if k == 6 {
        384
    } else {
        768
    }
}

/// Where the blocks of data that start at `p` end.
pub open spec fn skipped(b: Seq<u8>, p: int) -> Outcome<int>
    decreases b.len() - p,
{
    match next_byte(b, p) {
        Err(e) => Err(e),
        Ok(n) => if n == 0 {
            Ok(p + 1)
        } else {
            match next_bytes(b, p + 1, n as int) {
                Err(e) => Err(e),
                Ok(_) => skipped(b, p + 1 + n),
            }
        },
    }
}

fn skip_blocks(r: &mut Reader<'_>) -> (x: Result<(), String>)
    requires
        old(r).wf(),
    ensures
        final(r).wf(),
        final(r).bytes == old(r).bytes,
        match x {
            Ok(_) => skipped(old(r).bytes@, old(r).pos as int) == Ok::<int, Seq<char>>(
                final(r).pos as int,
            ) && final(r).pos > old(r).pos,
            Err(e) => skipped(old(r).bytes@, old(r).pos as int) == Err::<int, Seq<char>>(e@),
        },
{
    let ghost whole = skipped(r.bytes@, r.pos as int);
    loop
        invariant
            r.wf(),
            r.bytes == old(r).bytes,
            r.pos >= old(r).pos,
            whole == skipped(old(r).bytes@, old(r).pos as int),
            whole == skipped(r.bytes@, r.pos as int),
        decreases r.bytes.len() - r.pos,
    {
        let n = read_byte(r)?;
        if n == 0 {
            return Ok(());
        }
        read_bytes(r, n as usize)?;
    }
}

/// A block that describes frames: the end, the transparent colour of the next frame, something
/// else, or a frame without its pixels.
pub enum Block {
    End,
    Control(Option<u8>),
    Other,
    Frame(Shot),
}

/// The block that starts at `p`, and where it ends.
pub open spec fn block_at(b: Seq<u8>, p: int, global: Seq<u8>, transparent: Option<u8>, count: int) -> Outcome<
    (Block, int),
> {
    match next_byte(b, p) {
        Err(e) => Err(e),
        Ok(tag) => if tag == 0x3b {
            Ok((Block::End, p + 1))
        } else if tag == 0x21 {
            extension_at(b, p + 1)
        } else if tag == 0x2c {
            frame_at(b, p + 1, global, transparent, count)
        } else {
            Err("Unsupported GIF prediction block"@)
        },
    }
}

pub open spec fn extension_at(b: Seq<u8>, p: int) -> Outcome<(Block, int)> {
    match next_byte(b, p) {
        Err(e) => Err(e),
        Ok(label) => if label == 0xf9 {
            match next_blob(b, p + 1) {
                Err(e) => Err(e),
                Ok((c, q)) => if c.len() != 4 {
                    Err("Invalid GIF control extension"@)
                } else {
                    match next_byte(b, q) {
                        Err(e) => Err(e),
                        Ok(z) => if z != 0 {
                            Err("Invalid GIF control extension"@)
                        } else {
                            Ok(
                                (
                                    Block::Control(
                                        if c[0] % 2 == 1 {
                                            Some(c[3])
                                        } else {
                                            None
                                        },
                                    ),
                                    q + 1,
                                ),
                            )
                        },
                    }
                },
            }
        } else {
            match skipped(b, p + 1) {
                Err(e) => Err(e),
                Ok(q) => Ok((Block::Other, q)),
            }
        },
    }
}

pub open spec fn frame_at(b: Seq<u8>, p: int, global: Seq<u8>, transparent: Option<u8>, count: int) -> Outcome<
    (Block, int),
> {
    match next_bytes(b, p, 9) {
        Err(e) => Err(e),
        Ok(d) => {
            let (x, y) = (crate::wire::le16(d, 0), crate::wire::le16(d, 2));
            let (w, h) = (crate::wire::le16(d, 4), crate::wire::le16(d, 6));
            if w == 0 || h == 0 || x + w > CANVAS || y + h > CANVAS || count >= MAX_FRAMES {
                Err("Unsupported GIF prediction frame dimensions"@)
            } else {
                let own = d[8] >= 128;
                let n = if own {
                    colour_bytes(d[8])
                } else {
                    0
                };
                match next_bytes(b, p + 9, n) {
                    Err(e) => Err(e),
                    Ok(local) => {
                        let palette = if own {
                            local
                        } else {
                            global
                        };
                        if palette.len() == 0 || (transparent matches Some(t) && t * 3 >= palette.len()) {
                            Err("Invalid GIF prediction palette"@)
                        } else {
                            match next_byte(b, p + 9 + n) {
                                Err(e) => Err(e),
                                Ok(_) => match skipped(b, p + 9 + n + 1) {
                                    Err(e) => Err(e),
                                    Ok(q) => Ok(
                                        (
                                            Block::Frame(
                                                Shot {
                                                    w,
                                                    h,
                                                    x,
                                                    y,
                                                    interlace: (d[8] / 64) % 2 == 1,
                                                    palette,
                                                    transparent,
                                                    pixels: Seq::empty(),
                                                },
                                            ),
                                            q,
                                        ),
                                    ),
                                },
                            }
                        }
                    },
                }
            }
        },
    }
}

/// The frames that the blocks from `p` on describe, after those before.
pub open spec fn frames_from(b: Seq<u8>, p: int, global: Seq<u8>, transparent: Option<u8>, done: Seq<Shot>) -> Outcome<
    Seq<Shot>,
>
    decreases b.len() - p,
{
    match block_at(b, p, global, transparent, done.len() as int) {
        Err(e) => Err(e),
        Ok((block, q)) => match block {
            Block::End => if done.len() == 0 {
                Err("No GIF prediction frames"@)
            } else {
                Ok(done)
            },
            _ => if q <= p || q > b.len() {
                Ok(done)
            } else {
                match block {
                    Block::Control(t) => frames_from(b, q, global, t, done),
                    Block::Frame(f) => frames_from(b, q, global, None, done.push(f)),
                    _ => frames_from(b, q, global, transparent, done),
                }
            },
        },
    }
}

/// The frames that the skeleton of a GIF file describes.
pub open spec fn metadata(b: Seq<u8>) -> Outcome<Seq<Shot>> {
    match next_bytes(b, 0, 13) {
        Err(e) => Err(e),
        Ok(head) => if (head.take(6) != seq![71u8, 73, 70, 56, 55, 97] && head.take(6) != seq![
            71u8,
            73,
            70,
            56,
            57,
            97,
        ]) || crate::wire::le16(head, 6) != CANVAS || crate::wire::le16(head, 8) != CANVAS {
            Err("MOV prediction requires a 300 \u{d7} 300 GIF canvas"@)
        } else {
            let n = if head[10] >= 128 {
                colour_bytes(head[10])
            } else {
                0
            };
            match next_bytes(b, 13, n) {
                Err(e) => Err(e),
                Ok(global) => frames_from(b, 13 + n, global, None, Seq::empty()),
            }
        },
    }
}

fn read_extension(r: &mut Reader<'_>) -> (x: Result<Option<Option<u8>>, String>)
    requires
        old(r).wf(),
    ensures
        final(r).wf(),
        final(r).bytes == old(r).bytes,
        match x {
            Ok(c) => extension_at(old(r).bytes@, old(r).pos as int) == Ok::<(Block, int), Seq<char>>(
                (
                    match c {
                        Some(t) => Block::Control(t),
                        None => Block::Other,
                    },
                    final(r).pos as int,
                ),
            ) && final(r).pos > old(r).pos,
            Err(e) => extension_at(old(r).bytes@, old(r).pos as int) == Err::<(Block, int), Seq<char>>(
                e@,
            ),
        },
{
    let label = read_byte(r)?;
    if label != 0xf9 {
        skip_blocks(r)?;
        return Ok(None);
    }
    let c = read_blob(r)?;
    if c.len() != 4 {
        return Err(fail("Invalid GIF control extension"));
    }
    let z = read_byte(r)?;
    if z != 0 {
        return Err(fail("Invalid GIF control extension"));
    }
    Ok(
        Some(
            if c[0] % 2 == 1 {
                Some(c[3])
            } else {
                None
            },
        ),
    )
}

fn copy_bytes(b: &[u8]) -> (v: Vec<u8>)
    ensures
        v@ == b@,
{
    let mut v: Vec<u8> = Vec::new();
    v.extend_from_slice(b);
    v
}

fn read_frame(r: &mut Reader<'_>, global: &[u8], transparent: Option<u8>, count: usize) -> (x: Result<
    GifFrame,
    String,
>)
    requires
        old(r).wf(),
        global@.len() == 0 || (6 <= global@.len() <= 768 && global@.len() % 3 == 0),
    ensures
        final(r).wf(),
        final(r).bytes == old(r).bytes,
        match x {
            Ok(f) => frame_at(
                old(r).bytes@,
                old(r).pos as int,
                global@,
                transparent,
                count as int,
            ) == Ok::<(Block, int), Seq<char>>((Block::Frame(f@), final(r).pos as int)) && f@.framed()
                && final(r).pos > old(r).pos,
            Err(e) => frame_at(
                old(r).bytes@,
                old(r).pos as int,
                global@,
                transparent,
                count as int,
            ) == Err::<(Block, int), Seq<char>>(e@),
        },
{
    let d = read_bytes(r, 9)?;
    let x = crate::wire::read_le16(d, 0) as usize;
    let y = crate::wire::read_le16(d, 2) as usize;
    let w = crate::wire::read_le16(d, 4) as usize;
    let h = crate::wire::read_le16(d, 6) as usize;
    if w == 0 || h == 0 || x + w > CANVAS || y + h > CANVAS || count >= MAX_FRAMES {
        return Err(fail("Unsupported GIF prediction frame dimensions"));
    }
    let own: bool = d[8] >= 128;
    let n: usize = if own {
        colour_length(d[8])
    } else {
        0
    };
    let local = read_bytes(r, n)?;
    let palette = if own {
        copy_bytes(local)
    } else {
        copy_bytes(global)
    };
    let bad: bool = match transparent {
        Some(t) => t as usize * 3 >= palette.len(),
        None => false,
    };
    if palette.len() == 0 || bad {
        return Err(fail("Invalid GIF prediction palette"));
    }
    read_byte(r)?;
    skip_blocks(r)?;
    let f = GifFrame {
        w,
        h,
        x,
        y,
        interlace: (d[8] / 64) % 2 == 1,
        palette,
        transparent,
        pixels: Vec::new(),
    };
    assert(f@.pixels =~= Seq::empty());
    Ok(f)
}

/// Reads the frames that the skeleton of a GIF file describes.
fn gif_metadata(skeleton: &[u8]) -> (x: Result<Vec<GifFrame>, String>)
    ensures
        match x {
            Ok(v) => metadata(skeleton@) == Ok::<Seq<Shot>, Seq<char>>(shots(v@)) && forall|i: int|
                0 <= i < v@.len() ==> (#[trigger] v@[i])@.framed(),
            Err(e) => metadata(skeleton@) == Err::<Seq<Shot>, Seq<char>>(e@),
        },
{
    let mut r = Reader { bytes: skeleton, pos: 0 };
    let head = read_bytes(&mut r, 13)?;
    let old: [u8; 6] = [71, 73, 70, 56, 55, 97];
    let new: [u8; 6] = [71, 73, 70, 56, 57, 97];
    proof {
        assert(old@ =~= seq![71u8, 73, 70, 56, 55, 97]);
        assert(new@ =~= seq![71u8, 73, 70, 56, 57, 97]);
        assert(head@.subrange(0, 6) =~= head@.take(6));
    }
    if (!same(&head[0..6], &old) && !same(&head[0..6], &new)) || crate::wire::read_le16(head, 6) as usize
        != CANVAS || crate::wire::read_le16(head, 8) as usize != CANVAS {
        return Err(fail("MOV prediction requires a 300 \u{d7} 300 GIF canvas"));
    }
    let n: usize = if head[10] >= 128 {
        colour_length(head[10])
    } else {
        0
    };
    let global = read_bytes(&mut r, n)?;
    let mut transparent: Option<u8> = None;
    let mut frames: Vec<GifFrame> = Vec::new();
    let ghost whole = metadata(skeleton@);
    assert(shots(frames@) =~= Seq::empty());
    loop
        invariant
            r.wf(),
            r.bytes == skeleton,
            global@.len() == 0 || (6 <= global@.len() <= 768 && global@.len() % 3 == 0),
            whole == metadata(skeleton@),
            whole == frames_from(skeleton@, r.pos as int, global@, transparent, shots(frames@)),
            forall|i: int| 0 <= i < frames@.len() ==> (#[trigger] frames@[i])@.framed(),
        decreases r.bytes.len() - r.pos,
    {
        let ghost at = r.pos as int;
        let tag = read_byte(&mut r)?;
        if tag == 0x3b {
            if frames.len() == 0 {
                return Err(fail("No GIF prediction frames"));
            }
            return Ok(frames);
        } else if tag == 0x21 {
            match read_extension(&mut r)? {
                Some(t) => {
                    transparent = t;
                },
                None => {},
            }
        } else if tag == 0x2c {
            let f = read_frame(&mut r, global, transparent, frames.len())?;
            let ghost before = shots(frames@);
            frames.push(f);
            assert(shots(frames@) =~= before.push(f@));
            transparent = None;
        } else {
            return Err(fail("Unsupported GIF prediction block"));
        }
    }
}

/// How many rows of an interlaced frame of height `h` come in the first, the first two, and the first
/// three passes.
pub open spec fn passes(h: int) -> (int, int, int) {
    ((h + 7) / 8, (h + 7) / 8 + (h + 3) / 8, (h + 7) / 8 + (h + 3) / 8 + (h + 1) / 4)
}

/// When row `y` of an interlaced frame of height `h` comes.
pub open spec fn rank(h: int, y: int) -> int {
    let (a, b, c) = passes(h);
    if y % 8 == 0 {
        y / 8
    } else if y % 8 == 4 {
        a + y / 8
    } else if y % 4 == 2 {
        b + y / 4
    } else {
        c + y / 2
    }
}

/// Which row of an interlaced frame of height `h` comes at `k`.
pub open spec fn row_of(h: int, k: int) -> int {
    let (a, b, c) = passes(h);
    if k < a {
        8 * k
    } else if k < b {
        4 + 8 * (k - a)
    } else if k < c {
        2 + 4 * (k - b)
    } else {
        1 + 2 * (k - c)
    }
}

/// The pixels of a frame from top to bottom, or as they come in the file.
pub open spec fn reordered(b: Seq<u8>, w: int, h: int, interlace: bool, to_raster: bool) -> Seq<u8> {
    if !interlace {
        b
    } else {
        Seq::new(
            b.len(),
            |i: int|
                b[(if to_raster {
                    rank(h, i / w)
                } else {
                    row_of(h, i / w)
                }) * w + i % w],
        )
    }
}

proof fn lemma_passes(h: int, t: int, s: int)
    requires
        0 <= h,
        h == 8 * t + s,
        0 <= s < 8,
    ensures
        (h + 7) / 8 == t + (if s >= 1 {
            1int
        } else {
            0
        }),
        (h + 3) / 8 == t + (if s >= 5 {
            1int
        } else {
            0
        }),
        (h + 1) / 4 == 2 * t + (if s >= 7 {
            2int
        } else if s >= 3 {
            1
        } else {
            0
        }),
{
}

/// The numbers that leave a remainder on division by eight, by four and by two.
proof fn lemma_rests(n: int)
    requires
        0 <= n,
    ensures
        (4 + 8 * n) % 8 == 4 && (4 + 8 * n) / 8 == n,
        (2 + 4 * n) % 4 == 2 && (2 + 4 * n) / 4 == n && (2 + 4 * n) % 8 != 0 && (2 + 4 * n) % 8 != 4,
        (1 + 2 * n) % 2 == 1 && (1 + 2 * n) / 2 == n && (1 + 2 * n) % 8 != 0 && (1 + 2 * n) % 8 != 4 && (1 + 2
            * n) % 4 != 2,
{
}

#[verifier::spinoff_prover]
#[verifier::rlimit(30)]
proof fn lemma_rank_of(h: int, y: int)
    requires
        0 <= y < h,
    ensures
        0 <= rank(h, y) < h,
        row_of(h, rank(h, y)) == y,
{
    let (a, b, c) = passes(h);
    let q = y / 8;
    let r = y % 8;
    let (t, s) = (h / 8, h % 8);
    assert(y == 8 * q + r && h == 8 * t + s && 0 <= r < 8 && 0 <= s < 8);
    lemma_passes(h, t, s);
    if r == 0 {
        assert(rank(h, y) == q && q < a);
    } else if r == 4 {
        assert(rank(h, y) == a + q && q < b - a);
    } else if y % 4 == 2 {
        assert(y == 4 * (y / 4) + 2);
        assert(rank(h, y) == b + y / 4 && y / 4 < c - b);
    } else {
        assert(y == 2 * (y / 2) + 1);
        assert(rank(h, y) == c + y / 2);
    }
}

#[verifier::spinoff_prover]
#[verifier::rlimit(30)]
proof fn lemma_row_of(h: int, k: int)
    requires
        0 <= k < h,
    ensures
        0 <= row_of(h, k) < h,
        rank(h, row_of(h, k)) == k,
{
    let (a, b, c) = passes(h);
    let (t, s) = (h / 8, h % 8);
    assert(h == 8 * t + s && 0 <= s < 8);
    lemma_passes(h, t, s);
    let y = row_of(h, k);
    if k < a {
        assert(y == 8 * k && y < h);
        assert(y % 8 == 0 && y / 8 == k);
    } else if k < b {
        assert(y == 4 + 8 * (k - a) && y < h);
        lemma_rests(k - a);
    } else if k < c {
        assert(y == 2 + 4 * (k - b) && y < h);
        lemma_rests(k - b);
    } else {
        assert(y == 1 + 2 * (k - c) && y < h);
        lemma_rests(k - c);
    }
}

proof fn lemma_rank(h: int, y: int)
    requires
        0 <= y < h,
    ensures
        0 <= rank(h, y) < h,
        row_of(h, rank(h, y)) == y,
        0 <= row_of(h, y) < h,
        rank(h, row_of(h, y)) == y,
{
    lemma_rank_of(h, y);
    lemma_row_of(h, y);
}

fn reorder(bytes: &[u8], w: usize, h: usize, interlace: bool, to_raster: bool) -> (out: Vec<u8>)
    requires
        1 <= w <= CANVAS,
        1 <= h <= CANVAS,
        bytes@.len() == w * h,
    ensures
        out@ == reordered(bytes@, w as int, h as int, interlace, to_raster),
{
    if !interlace {
        return copy_bytes(bytes);
    }
    let a: usize = (h + 7) / 8;
    let b: usize = a + (h + 3) / 8;
    let c: usize = b + (h + 1) / 4;
    let mut out: Vec<u8> = Vec::with_capacity(bytes.len());
    let mut i: usize = 0;
    while i < bytes.len()
        invariant
            i <= bytes.len(),
            1 <= w <= CANVAS,
            1 <= h <= CANVAS,
            bytes@.len() == w * h,
            (a as int, b as int, c as int) == passes(h as int),
            out@.len() == i,
            forall|k: int|
                0 <= k < i ==> #[trigger] out@[k] == reordered(
                    bytes@,
                    w as int,
                    h as int,
                    true,
                    to_raster,
                )[k],
        decreases bytes.len() - i,
    {
        let y: usize = i / w;
        assert(y < h) by (nonlinear_arith)
            requires
                y == i / w,
                i < w * h,
                w >= 1,
        ;
        proof {
            lemma_rank(h as int, y as int);
        }
        let from: usize = if to_raster {
            if y % 8 == 0 {
                y / 8
            } else if y % 8 == 4 {
                a + y / 8
            } else if y % 4 == 2 {
                b + y / 4
            } else {
                c + y / 2
            }
        } else {
            if y < a {
                8 * y
            } else if y < b {
                4 + 8 * (y - a)
            } else if y < c {
                2 + 4 * (y - b)
            } else {
                1 + 2 * (y - c)
            }
        };
        assert(0 <= from * w && from * w + i % w < w * h && from * w <= 300 * 300) by (nonlinear_arith)
            requires
                0 <= from < h,
                0 <= i % w < w,
                h <= 300,
                w <= 300,
        ;
        out.push(bytes[from * w + i % w]);
        i += 1;
    }
    assert(out@ =~= reordered(bytes@, w as int, h as int, interlace, to_raster));
    out
}

/// Ordering the rows of a frame as they come in the file undoes ordering them from top to bottom.
pub proof fn law_reorder_is_undone(b: Seq<u8>, w: int, h: int, interlace: bool)
    requires
        1 <= w,
        1 <= h,
        b.len() == w * h,
    ensures
        reordered(reordered(b, w, h, interlace, true), w, h, interlace, false) == b,
        reordered(reordered(b, w, h, interlace, false), w, h, interlace, true) == b,
{
    if interlace {
        let up = reordered(b, w, h, true, true);
        let down = reordered(b, w, h, true, false);
        assert forall|i: int| 0 <= i < b.len() implies reordered(up, w, h, true, false)[i] == b[i]
            && reordered(down, w, h, true, true)[i] == b[i] by {
            let (y, x) = (i / w, i % w);
            vstd::arithmetic::div_mod::lemma_fundamental_div_mod(i, w);
            assert(0 <= y < h && 0 <= x < w && i == y * w + x) by (nonlinear_arith)
                requires
                    0 <= i < w * h,
                    w >= 1,
                    y == i / w,
                    x == i % w,
                    i == w * (i / w) + i % w,
            ;
            lemma_rank(h, y);
            let (p, q) = (row_of(h, y), rank(h, y));
            assert(0 <= p * w + x < w * h && 0 <= q * w + x < w * h) by (nonlinear_arith)
                requires
                    0 <= p < h,
                    0 <= q < h,
                    0 <= x < w,
            ;
            vstd::arithmetic::div_mod::lemma_fundamental_div_mod_converse(p * w + x, w, p, x);
            vstd::arithmetic::div_mod::lemma_fundamental_div_mod_converse(q * w + x, w, q, x);
        }
        assert(reordered(up, w, h, true, false) =~= b);
        assert(reordered(down, w, h, true, true) =~= b);
    }
}

/// Rows of zeros are zeros in any order.
pub proof fn lemma_reordered_zeros(b: Seq<u8>, w: int, h: int, interlace: bool)
    requires
        1 <= w,
        1 <= h,
        b.len() == w * h,
        forall|i: int| 0 <= i < b.len() ==> #[trigger] b[i] == 0,
    ensures
        reordered(b, w, h, interlace, true).len() == b.len(),
        forall|i: int| 0 <= i < b.len() ==> #[trigger] reordered(b, w, h, interlace, true)[i] == 0,
{
    if interlace {
        assert forall|i: int| 0 <= i < b.len() implies #[trigger] reordered(b, w, h, interlace, true)[i] == 0 by {
            let (y, x) = (i / w, i % w);
            vstd::arithmetic::div_mod::lemma_fundamental_div_mod(i, w);
            assert(0 <= y < h && 0 <= x < w) by (nonlinear_arith)
                requires
                    0 <= i < w * h,
                    w >= 1,
                    y == i / w,
                    x == i % w,
                    i == w * (i / w) + i % w,
            ;
            lemma_rank(h, y);
            let q = rank(h, y);
            assert(0 <= q * w + x < w * h) by (nonlinear_arith)
                requires
                    0 <= q < h,
                    0 <= x < w,
            ;
            assert(b[q * w + x] == 0);
        }
    }
}

/// What has been read of an exact form: how far, how many records, all but the pixels, the GIF file
/// without the data of its frames, and the pixels.
#[verifier::ext_equal]
pub struct Gathered {
    pub pos: int,
    pub records: int,
    pub side: Seq<u8>,
    pub skeleton: Seq<u8>,
    pub pixels: Seq<Seq<u8>>,
    pub sum: int,
}

/// The pixels of a frame, or as many zeros where they are left out, and where they end.
pub open spec fn pixels_at(b: Seq<u8>, p: int, n: int, present: bool) -> Outcome<(Seq<u8>, int)> {
    if present {
        match next_bytes(b, p, n) {
            Err(e) => Err(e),
            Ok(s) => Ok((s, p + n)),
        }
    } else {
        Ok((Seq::new(n as nat, |i: int| 0u8), p))
    }
}

/// Where what follows the pixels of a frame ends.
pub open spec fn trailer_at(b: Seq<u8>, p: int) -> Outcome<int> {
    match next_var(b, p) {
        Err(e) => Err(e),
        Ok((_, q)) => match next_blob(b, q) {
            Err(e) => Err(e),
            Ok((_, q)) => match next_blob(b, q) {
                Err(e) => Err(e),
                Ok((_, q)) => Ok(q),
            },
        },
    }
}

/// How many pixels a frame has whose record goes on at `p`, and where the number ends.
pub open spec fn leader_at(b: Seq<u8>, p: int) -> Outcome<(int, int)> {
    match next_byte(b, p) {
        Err(e) => Err(e),
        Ok(_) => match next_blob(b, p + 1) {
            Err(e) => Err(e),
            Ok((_, q)) => next_var(b, q),
        },
    }
}

/// What is gathered with the record of a frame, whose tag stands at `s.pos`.
pub open spec fn with_frame(b: Seq<u8>, s: Gathered, present: bool) -> Outcome<Gathered> {
    match leader_at(b, s.pos + 1) {
        Err(e) => Err(e),
        Ok((n, q)) => if n == 0 || n > 90_000 || s.sum > PIXEL_LIMIT - n || s.pixels.len() >= MAX_FRAMES {
            Err("GIF prediction pixels exceed limit"@)
        } else {
            match pixels_at(b, q, n, present) {
                Err(e) => Err(e),
                Ok((px, rest)) => match trailer_at(b, rest) {
                    Err(e) => Err(e),
                    Ok(end) => Ok(
                        Gathered {
                            pos: end,
                            records: s.records,
                            side: s.side + b.subrange(s.pos, q) + b.subrange(rest, end),
                            skeleton: s.skeleton.push(0),
                            pixels: s.pixels.push(px),
                            sum: s.sum + n,
                        },
                    ),
                },
            }
        },
    }
}

/// What is gathered with a record of other bytes.
pub open spec fn with_bytes(b: Seq<u8>, s: Gathered) -> Outcome<Gathered> {
    match next_blob(b, s.pos + 1) {
        Err(e) => Err(e),
        Ok((data, q)) => Ok(
            Gathered {
                pos: q,
                side: s.side + b.subrange(s.pos, q),
                skeleton: s.skeleton + data,
                ..s
            },
        ),
    }
}

/// What is gathered with the next record, and whether it is the last one.
pub open spec fn with_record(b: Seq<u8>, s: Gathered, present: bool) -> Outcome<(Gathered, bool)> {
    match next_byte(b, s.pos) {
        Err(e) => Err(e),
        Ok(tag) => {
            let s = Gathered { records: s.records + 1, ..s };
            if s.records > 3073 {
                Err("Too many GIF prediction records"@)
            } else if tag == 255 {
                Ok((Gathered { pos: s.pos + 1, side: s.side.push(255), ..s }, true))
            } else if tag > 1 {
                Err("Invalid SGIF prediction record"@)
            } else {
                match if tag == 0 {
                    with_bytes(b, s)
                } else {
                    with_frame(b, s, present)
                } {
                    Err(e) => Err(e),
                    Ok(next) => if next.side.len() > SIDE_LIMIT || next.skeleton.len() > SIDE_LIMIT {
                        Err("GIF prediction metadata exceeds limit"@)
                    } else {
                        Ok((next, false))
                    },
                }
            }
        },
    }
}

/// What is gathered with all records that follow.
pub open spec fn with_records(b: Seq<u8>, s: Gathered, present: bool) -> Outcome<Gathered>
    decreases b.len() - s.pos,
{
    match with_record(b, s, present) {
        Err(e) => Err(e),
        Ok((next, last)) => if last || next.pos <= s.pos || next.pos > b.len() {
            Ok(next)
        } else {
            with_records(b, next, present)
        },
    }
}

/// Whether all pixels stand for colours.
pub open spec fn coloured(px: Seq<u8>, palette: Seq<u8>) -> bool {
    forall|i: int| 0 <= i < px.len() ==> (#[trigger] px[i]) * 3 < palette.len()
}

/// The frames with their pixels, from number `i` on.
pub open spec fn filled_from(frames: Seq<Shot>, pixels: Seq<Seq<u8>>, present: bool, i: int, done: Seq<Shot>) -> Outcome<
    Seq<Shot>,
>
    decreases frames.len() - i,
{
    if i >= frames.len() {
        Ok(done)
    } else {
        let f = frames[i];
        if pixels[i].len() != f.w * f.h {
            Err("GIF prediction pixel dimensions mismatch"@)
        } else {
            let px = reordered(pixels[i], f.w, f.h, f.interlace, true);
            if present && !coloured(px, f.palette) {
                Err("GIF index exceeds palette"@)
            } else {
                filled_from(frames, pixels, present, i + 1, done.push(Shot { pixels: px, ..f }))
            }
        }
    }
}

/// All but the pixels of an exact form, and its frames. Where the pixels are left out, they are taken
/// for zeros.
pub open spec fn parted(input: Seq<u8>, present: bool) -> Outcome<(Seq<u8>, Seq<Shot>)> {
    if input.len() > LIMIT {
        Err("GIF prediction input exceeds limit"@)
    } else {
        match next_bytes(input, 0, 8) {
            Err(e) => Err(e),
            Ok(magic) => if magic != crate::gif_exact::MAGIC@ {
                Err("Invalid SGIF prediction input"@)
            } else {
                match next_var(input, 8) {
                    Err(e) => Err(e),
                    Ok((n, p)) => if n > LIMIT {
                        Err("GIF prediction original exceeds limit"@)
                    } else {
                        let start = Gathered {
                            pos: p,
                            records: 0,
                            side: input.subrange(0, p),
                            skeleton: Seq::empty(),
                            pixels: Seq::empty(),
                            sum: 0,
                        };
                        match with_records(input, start, present) {
                            Err(e) => Err(e),
                            Ok(all) => if all.pos != input.len() {
                                Err("Trailing SGIF prediction bytes"@)
                            } else {
                                match metadata(all.skeleton) {
                                    Err(e) => Err(e),
                                    Ok(frames) => if frames.len() != all.pixels.len() {
                                        Err("GIF prediction frame count mismatch"@)
                                    } else {
                                        match filled_from(
                                            frames,
                                            all.pixels,
                                            present,
                                            0,
                                            Seq::empty(),
                                        ) {
                                            Err(e) => Err(e),
                                            Ok(full) => Ok((all.side, full)),
                                        }
                                    },
                                }
                            },
                        }
                    },
                }
            },
        }
    }
}

/// What has been gathered so far.
struct Pieces {
    records: usize,
    side: Vec<u8>,
    skeleton: Vec<u8>,
    pixels: Vec<Vec<u8>>,
    sum: usize,
}

impl Pieces {
    spec fn at(&self, pos: int) -> Gathered {
        Gathered {
            pos,
            records: self.records as int,
            side: self.side@,
            skeleton: self.skeleton@,
            pixels: crate::prores_bits::each(self.pixels@),
            sum: self.sum as int,
        }
    }
}

fn read_leader(r: &mut Reader<'_>) -> (x: Result<usize, String>)
    requires
        old(r).wf(),
    ensures
        final(r).wf(),
        final(r).bytes == old(r).bytes,
        match x {
            Ok(n) => leader_at(old(r).bytes@, old(r).pos as int) == Ok::<(int, int), Seq<char>>(
                (n as int, final(r).pos as int),
            ) && final(r).pos > old(r).pos,
            Err(e) => leader_at(old(r).bytes@, old(r).pos as int) == Err::<(int, int), Seq<char>>(e@),
        },
{
    read_byte(r)?;
    read_blob(r)?;
    read_var(r)
}

fn read_trailer(r: &mut Reader<'_>) -> (x: Result<(), String>)
    requires
        old(r).wf(),
    ensures
        final(r).wf(),
        final(r).bytes == old(r).bytes,
        match x {
            Ok(_) => trailer_at(old(r).bytes@, old(r).pos as int) == Ok::<int, Seq<char>>(
                final(r).pos as int,
            ) && final(r).pos > old(r).pos,
            Err(e) => trailer_at(old(r).bytes@, old(r).pos as int) == Err::<int, Seq<char>>(e@),
        },
{
    read_var(r)?;
    read_blob(r)?;
    read_blob(r)?;
    Ok(())
}

fn gather_frame(r: &mut Reader<'_>, s: &mut Pieces, start: usize, present: bool) -> (x: Result<(), String>)
    requires
        old(r).wf(),
        old(r).pos == start + 1,
        old(s).sum <= PIXEL_LIMIT,
    ensures
        final(r).wf(),
        final(r).bytes == old(r).bytes,
        final(s).sum <= PIXEL_LIMIT,
        match x {
            Ok(_) => with_frame(old(r).bytes@, old(s).at(start as int), present) == Ok::<
                Gathered,
                Seq<char>,
            >(final(s).at(final(r).pos as int)) && final(r).pos > old(r).pos,
            Err(e) => with_frame(old(r).bytes@, old(s).at(start as int), present) == Err::<
                Gathered,
                Seq<char>,
            >(e@),
        },
{
    let ghost before = s.at(start as int);
    let n = read_leader(r)?;
    if n == 0 || n > 90_000 || s.sum > PIXEL_LIMIT - n || s.pixels.len() >= MAX_FRAMES {
        return Err(fail("GIF prediction pixels exceed limit"));
    }
    let q: usize = r.pos;
    let px = if present {
        copy_bytes(read_bytes(r, n)?)
    } else {
        let px = vec![0u8; n];
        assert(px@ =~= Seq::new(n as nat, |i: int| 0u8));
        px
    };
    let rest: usize = r.pos;
    read_trailer(r)?;
    s.sum = s.sum + n;
    s.side.extend_from_slice(&r.bytes[start..q]);
    s.side.extend_from_slice(&r.bytes[rest..r.pos]);
    s.skeleton.push(0);
    s.pixels.push(px);
    assert(crate::prores_bits::each(s.pixels@) =~= before.pixels.push(px@));
    assert(s.at(r.pos as int) =~= with_frame(r.bytes@, before, present)->Ok_0);
    Ok(())
}

fn gather_bytes(r: &mut Reader<'_>, s: &mut Pieces, start: usize) -> (x: Result<(), String>)
    requires
        old(r).wf(),
        old(r).pos == start + 1,
    ensures
        final(r).wf(),
        final(r).bytes == old(r).bytes,
        final(s).sum == old(s).sum,
        match x {
            Ok(_) => with_bytes(old(r).bytes@, old(s).at(start as int)) == Ok::<Gathered, Seq<char>>(
                final(s).at(final(r).pos as int),
            ) && final(r).pos > old(r).pos,
            Err(e) => with_bytes(old(r).bytes@, old(s).at(start as int)) == Err::<Gathered, Seq<char>>(
                e@,
            ),
        },
{
    let ghost before = s.at(start as int);
    let data = read_blob(r)?;
    s.skeleton.extend_from_slice(data);
    s.side.extend_from_slice(&r.bytes[start..r.pos]);
    assert(s.at(r.pos as int) =~= with_bytes(r.bytes@, before)->Ok_0);
    Ok(())
}

fn gather(r: &mut Reader<'_>, s: &mut Pieces, present: bool) -> (x: Result<(), String>)
    requires
        old(r).wf(),
        old(s).sum <= PIXEL_LIMIT,
        old(s).records == 0,
    ensures
        final(r).wf(),
        final(r).bytes == old(r).bytes,
        match x {
            Ok(_) => with_records(old(r).bytes@, old(s).at(old(r).pos as int), present) == Ok::<
                Gathered,
                Seq<char>,
            >(final(s).at(final(r).pos as int)),
            Err(e) => with_records(old(r).bytes@, old(s).at(old(r).pos as int), present) == Err::<
                Gathered,
                Seq<char>,
            >(e@),
        },
{
    let ghost whole = with_records(r.bytes@, s.at(r.pos as int), present);
    loop
        invariant
            r.wf(),
            r.bytes == old(r).bytes,
            s.sum <= PIXEL_LIMIT,
            s.records <= 3073,
            whole == with_records(old(r).bytes@, old(s).at(old(r).pos as int), present),
            whole == with_records(r.bytes@, s.at(r.pos as int), present),
        decreases r.bytes.len() - r.pos,
    {
        let start: usize = r.pos;
        let tag = read_byte(r)?;
        s.records = s.records + 1;
        if s.records > 3073 {
            return Err(fail("Too many GIF prediction records"));
        }
        if tag == 255 {
            s.side.push(255);
            return Ok(());
        }
        if tag > 1 {
            return Err(fail("Invalid SGIF prediction record"));
        }
        if tag == 0 {
            gather_bytes(r, s, start)?;
        } else {
            gather_frame(r, s, start, present)?;
        }
        if s.side.len() > SIDE_LIMIT || s.skeleton.len() > SIDE_LIMIT {
            return Err(fail("GIF prediction metadata exceeds limit"));
        }
    }
}

fn all_coloured(px: &[u8], palette: &[u8]) -> (r: bool)
    ensures
        r == coloured(px@, palette@),
{
    let mut i: usize = 0;
    while i < px.len()
        invariant
            i <= px.len(),
            forall|k: int| 0 <= k < i ==> (#[trigger] px@[k]) * 3 < palette@.len(),
        decreases px.len() - i,
    {
        if px[i] as usize * 3 >= palette.len() {
            return false;
        }
        i += 1;
    }
    true
}

/// Frames whose pixels all lie on the canvas.
pub open spec fn all_wf(v: Seq<GifFrame>) -> bool {
    forall|i: int| 0 <= i < v.len() ==> (#[trigger] v[i])@.wf()
}

fn fill_frames(frames: Vec<GifFrame>, pixels: &Vec<Vec<u8>>, present: bool) -> (x: Result<
    Vec<GifFrame>,
    String,
>)
    requires
        frames@.len() == pixels@.len(),
        forall|i: int| 0 <= i < frames@.len() ==> (#[trigger] frames@[i])@.framed(),
    ensures
        match x {
            Ok(v) => filled_from(
                shots(frames@),
                crate::prores_bits::each(pixels@),
                present,
                0,
                Seq::empty(),
            ) == Ok::<Seq<Shot>, Seq<char>>(shots(v@)) && all_wf(v@),
            Err(e) => filled_from(
                shots(frames@),
                crate::prores_bits::each(pixels@),
                present,
                0,
                Seq::empty(),
            ) == Err::<Seq<Shot>, Seq<char>>(e@),
        },
{
    let ghost (all, px) = (shots(frames@), crate::prores_bits::each(pixels@));
    let ghost whole = filled_from(all, px, present, 0, Seq::empty());
    let mut left = frames;
    let ghost first = left@;
    let mut out: Vec<GifFrame> = Vec::new();
    assert(shots(out@) =~= Seq::empty());
    assert(left@ =~= first.skip(0));
    while left.len() > 0
        invariant
            left@.len() + out@.len() == first.len(),
            first.len() == pixels@.len(),
            left@ == first.skip(out@.len() as int),
            first == frames@,
            all == shots(first),
            px == crate::prores_bits::each(pixels@),
            whole == filled_from(all, px, present, 0, Seq::empty()),
            whole == filled_from(all, px, present, out@.len() as int, shots(out@)),
            forall|i: int| 0 <= i < first.len() ==> (#[trigger] first[i])@.framed(),
            all_wf(out@),
        decreases left.len(),
    {
        let i: usize = out.len();
        let mut f = left.remove(0);
        assert(f == first[i as int]);
        assert(all[i as int] == f@);
        assert(left@ =~= first.skip(i + 1));
        assert(f.w * f.h <= 90000) by (nonlinear_arith)
            requires
                f.w <= 300,
                f.h <= 300,
        ;
        if pixels[i].len() != f.w * f.h {
            return Err(fail("GIF prediction pixel dimensions mismatch"));
        }
        let full = reorder(&pixels[i], f.w, f.h, f.interlace, true);
        if present && !all_coloured(&full, &f.palette) {
            return Err(fail("GIF index exceeds palette"));
        }
        f.pixels = full;
        let ghost before = shots(out@);
        out.push(f);
        assert(shots(out@) =~= before.push(f@));
    }
    Ok(out)
}

/// Takes an exact form apart.
pub fn split(input: &[u8], present: bool) -> (x: Result<(Vec<u8>, Vec<GifFrame>), String>)
    ensures
        match x {
            Ok((side, frames)) => parted(input@, present) == Ok::<(Seq<u8>, Seq<Shot>), Seq<char>>(
                (side@, shots(frames@)),
            ) && all_wf(frames@) && 8 <= input@.len() <= LIMIT,
            Err(e) => parted(input@, present) == Err::<(Seq<u8>, Seq<Shot>), Seq<char>>(e@),
        },
{
    if input.len() > LIMIT {
        return Err(fail("GIF prediction input exceeds limit"));
    }
    let mut r = Reader { bytes: input, pos: 0 };
    let magic = read_bytes(&mut r, 8)?;
    if !same(magic, &crate::gif_exact::MAGIC) {
        return Err(fail("Invalid SGIF prediction input"));
    }
    if read_var(&mut r)? > LIMIT {
        return Err(fail("GIF prediction original exceeds limit"));
    }
    let mut s = Pieces {
        records: 0,
        side: copy_bytes(&input[0..r.pos]),
        skeleton: Vec::new(),
        pixels: Vec::new(),
        sum: 0,
    };
    proof {
        assert(crate::prores_bits::each(s.pixels@) =~= Seq::empty());
        assert(s.skeleton@ =~= Seq::empty());
    }
    gather(&mut r, &mut s, present)?;
    if r.pos != input.len() {
        return Err(fail("Trailing SGIF prediction bytes"));
    }
    let frames = gif_metadata(&s.skeleton)?;
    if frames.len() != s.pixels.len() {
        return Err(fail("GIF prediction frame count mismatch"));
    }
    let full = fill_frames(frames, &s.pixels, present)?;
    Ok((s.side, full))
}

/// What has been put together again: how far the rest was read, the exact form, and how many frames
/// it has.
pub open spec fn record_joined(side: Seq<u8>, frames: Seq<Shot>, p: int, out: Seq<u8>, n: int) -> Outcome<
    (int, Seq<u8>, int, bool),
> {
    match next_byte(side, p) {
        Err(e) => Err(e),
        Ok(tag) => if tag == 0 {
            match next_blob(side, p + 1) {
                Err(e) => Err(e),
                Ok((_, q)) => Ok((q, out + side.subrange(p, q), n, false)),
            }
        } else if tag == 1 {
            match leader_at(side, p + 1) {
                Err(e) => Err(e),
                Ok((count, q)) => if n >= frames.len() {
                    Err("Missing GIF prediction frame"@)
                } else {
                    let f = frames[n];
                    if count != f.pixels.len() {
                        Err("GIF prediction frame length mismatch"@)
                    } else {
                        match trailer_at(side, q) {
                            Err(e) => Err(e),
                            Ok(end) => Ok(
                                (
                                    end,
                                    out + side.subrange(p, q) + reordered(
                                        f.pixels,
                                        f.w,
                                        f.h,
                                        f.interlace,
                                        false,
                                    ) + side.subrange(q, end),
                                    n + 1,
                                    false,
                                ),
                            ),
                        }
                    }
                },
            }
        } else if tag == 255 {
            Ok((p + 1, out.push(255), n, true))
        } else {
            Err("Invalid GIF prediction side record"@)
        },
    }
}

/// The exact form that records make up, from `p` on.
pub open spec fn joined_from(side: Seq<u8>, frames: Seq<Shot>, p: int, out: Seq<u8>, n: int) -> Outcome<
    Seq<u8>,
>
    decreases side.len() - p,
{
    match record_joined(side, frames, p, out, n) {
        Err(e) => Err(e),
        Ok((q, next, m, last)) => if last || q <= p || q > side.len() {
            if q != side.len() || m != frames.len() {
                Err("Incomplete GIF prediction reconstruction"@)
            } else {
                Ok(next)
            }
        } else if next.len() > LIMIT {
            Err("GIF prediction reconstruction exceeds limit"@)
        } else {
            joined_from(side, frames, q, next, m)
        },
    }
}

/// The exact form that pixels and all the rest make up.
pub open spec fn joined(side: Seq<u8>, frames: Seq<Shot>) -> Outcome<Seq<u8>> {
    match next_var(side, 8) {
        Err(e) => Err(e),
        Ok((_, p)) => joined_from(side, frames, p, side.subrange(0, p), 0),
    }
}

/// Puts an exact form together.
pub fn join(side: &[u8], frames: &[GifFrame]) -> (x: Result<Vec<u8>, String>)
    requires
        side@.len() >= 8,
        all_wf(frames@),
    ensures
        crate::wire::bytes_of(x) == joined(side@, shots(frames@)),
{
    let ghost all = shots(frames@);
    let mut r = Reader { bytes: side, pos: 8 };
    read_var(&mut r)?;
    let mut out = copy_bytes(&side[0..r.pos]);
    let mut n: usize = 0;
    let ghost whole = joined(side@, all);
    loop
        invariant
            r.wf(),
            r.bytes == side,
            all == shots(frames@),
            all_wf(frames@),
            n <= frames.len(),
            whole == joined(side@, all),
            whole == joined_from(side@, all, r.pos as int, out@, n as int),
        decreases r.bytes.len() - r.pos,
    {
        let start: usize = r.pos;
        let ghost (before, m) = (out@, n as int);
        let tag = read_byte(&mut r)?;
        if tag == 0 {
            read_blob(&mut r)?;
            out.extend_from_slice(&side[start..r.pos]);
            assert(out@ =~= before + side@.subrange(start as int, r.pos as int));
        } else if tag == 1 {
            let count = read_leader(&mut r)?;
            let q: usize = r.pos;
            if n >= frames.len() {
                return Err(fail("Missing GIF prediction frame"));
            }
            let f = &frames[n];
            assert(all[n as int] == f@ && f@.wf());
            if count != f.pixels.len() {
                return Err(fail("GIF prediction frame length mismatch"));
            }
            read_trailer(&mut r)?;
            out.extend_from_slice(&side[start..q]);
            out.extend_from_slice(&reorder(&f.pixels, f.w, f.h, f.interlace, false));
            out.extend_from_slice(&side[q..r.pos]);
            n += 1;
            assert(out@ =~= before + side@.subrange(start as int, q as int) + reordered(
                f@.pixels,
                f@.w,
                f@.h,
                f@.interlace,
                false,
            ) + side@.subrange(q as int, r.pos as int));
        } else if tag == 255 {
            out.push(255);
            if r.pos != side.len() || n != frames.len() {
                return Err(fail("Incomplete GIF prediction reconstruction"));
            }
            return Ok(out);
        } else {
            return Err(fail("Invalid GIF prediction side record"));
        }
        assert(record_joined(side@, all, start as int, before, m) == Ok::<
            (int, Seq<u8>, int, bool),
            Seq<char>,
        >((r.pos as int, out@, n as int, false)));
        if out.len() > LIMIT {
            return Err(fail("GIF prediction reconstruction exceeds limit"));
        }
    }
}

}
