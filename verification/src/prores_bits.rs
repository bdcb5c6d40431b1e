//! The coefficients and alpha values of a ProRes frame, and the frame that they make up.

use crate::alpha::{pack_alpha, unpack_alpha};
use crate::loose::{pack_plane, unpack_plane};
use crate::mov_cross::SCAN;
use crate::prores_frame::{Contents, Frame, Slice, MAX_DIM};
use crate::wire::{fail, Outcome};
use vstd::prelude::*;

verus! {

/// Where coefficient number `scan` of block `blk` of a slice lies in plane `p`, which is `wp` wide.
pub open spec fn place(s: Slice, p: int, blk: int, scan: int, wp: int) -> int {
    let sub = blk % 4;
    let (dy, dx) = if p == 0 {
        (sub / 2, sub % 2)
    } else {
        (sub % 2, sub / 2)
    };
    let spot = SCAN@[scan] as int;
    ((s.mb_y * 2 + dy) * 8 + spot / 8) * wp + ((s.mb_x + blk / 4) * 2 + dx) * 8 + spot % 8
}

pub proof fn lemma_place(s: Slice, p: int, blk: int, scan: int, width: int, height: int)
    requires
        crate::prores_frame::fits_in(s, width, height),
        0 <= blk < s.mbs * 4,
        0 <= scan < 64,
        1 <= width <= MAX_DIM,
        1 <= height <= MAX_DIM,
    ensures
        ({
            let wp = crate::prores_frame::sixteenths(width) * 16;
            let hp = crate::prores_frame::sixteenths(height) * 16;
            0 <= place(s, p, blk, scan, wp) < wp * hp
        }),
{
    let wp = crate::prores_frame::sixteenths(width) * 16;
    let hp = crate::prores_frame::sixteenths(height) * 16;
    let sub = blk % 4;
    let (dy, dx) = if p == 0 {
        (sub / 2, sub % 2)
    } else {
        (sub % 2, sub / 2)
    };
    let spot = SCAN@[scan] as int;
    assert(spot < 64);
    let y = (s.mb_y * 2 + dy) * 8 + spot / 8;
    let x = ((s.mb_x + blk / 4) * 2 + dx) * 8 + spot % 8;
    assert(0 <= y < hp && 0 <= x < wp);
    assert(0 <= y * wp + x < wp * hp) by (nonlinear_arith)
        requires
            0 <= y < hp,
            0 <= x < wp,
    ;
}

/// The coefficients of a plane with those of a slice among them that are not zero.
pub open spec fn scattered(c: Seq<i16>, wp: int, s: Slice, p: int, v: Seq<i16>, n: int) -> Seq<i16>
    decreases n,
{
    if n <= 0 {
        c
    } else {
        let before = scattered(c, wp, s, p, v, n - 1);
        let blocks = s.mbs * 4;
        if v[n - 1] != 0 {
            before.update(place(s, p, (n - 1) % blocks, (n - 1) / blocks, wp), v[n - 1])
        } else {
            before
        }
    }
}

/// The coefficients of a slice.
pub open spec fn gathered(c: Seq<i16>, wp: int, s: Slice, p: int) -> Seq<i16> {
    let blocks = s.mbs * 4;
    Seq::new((blocks * 64) as nat, |i: int| c[place(s, p, i % blocks, i / blocks, wp)])
}

/// Where the alpha values of a slice lie: the first column, the first row, and how many there are of
/// each.
pub open spec fn alpha_area(s: Slice, height: int) -> (int, int, int, int) {
    (s.mb_x * 16, s.mb_y * 16, s.mbs * 16, crate::prores_frame::alpha_rows(height, s))
}

/// Alpha values with those of a slice among them.
pub open spec fn alpha_put(a: Seq<u16>, wp: int, s: Slice, height: int, v: Seq<u16>) -> Seq<u16> {
    let (x0, y0, w, rows) = alpha_area(s, height);
    Seq::new(
        a.len(),
        |i: int|
            {
                let (y, x) = (i / wp - y0, i % wp - x0);
                if 0 <= y < rows && 0 <= x < w {
                    v[y * w + x]
                } else {
                    a[i]
                }
            },
    )
}

/// The alpha values of a slice.
pub open spec fn alpha_got(a: Seq<u16>, wp: int, s: Slice, height: int) -> Seq<u16> {
    let (x0, y0, w, rows) = alpha_area(s, height);
    Seq::new((rows * w) as nat, |i: int| a[(y0 + i / w) * wp + x0 + i % w])
}

/// How strongly every macroblock is quantized, with those of a slice.
pub open spec fn scales_put(q: Seq<u8>, mbw: int, s: Slice) -> Seq<u8> {
    let at = s.mb_y * mbw + s.mb_x;
    Seq::new(
        q.len(),
        |i: int|
            if at <= i < at + s.mbs {
                s.qscale
            } else {
                q[i]
            },
    )
}

/// What the slices of a frame hold.
#[verifier::ext_equal]
pub struct Planes {
    pub luma: Seq<i16>,
    pub blue: Seq<i16>,
    pub red: Seq<i16>,
    pub alpha: Seq<u16>,
    pub qmb: Seq<u8>,
}

/// A plane of a slice.
pub open spec fn plane_read(raw: Seq<u8>, at: (usize, usize), blocks: int) -> Outcome<Seq<i16>> {
    if at.0 + at.1 > raw.len() {
        Err("truncated ProRes plane"@)
    } else {
        crate::loose::soft_plane(raw.subrange(at.0 as int, at.0 + at.1), blocks)
    }
}

/// The planes of a frame with those of a slice among them.
pub open spec fn slice_in(raw: Seq<u8>, fr: Contents, s: Slice, d: Planes) -> Outcome<Planes> {
    let wp = crate::prores_frame::sixteenths(fr.width) * 16;
    let blocks = s.mbs * 4;
    let n = blocks * 64;
    let qmb = scales_put(d.qmb, crate::prores_frame::sixteenths(fr.width), s);
    match plane_read(raw, s.luma, blocks) {
        Err(e) => Err(e),
        Ok(a) => match plane_read(raw, s.blue, blocks) {
            Err(e) => Err(e),
            Ok(b) => match plane_read(raw, s.red, blocks) {
                Err(e) => Err(e),
                Ok(c) => if fr.alpha && s.alpha.1 > 0 && s.alpha.0 + s.alpha.1 > raw.len() {
                    Err("truncated ProRes alpha"@)
                } else {
                    Ok(
                        Planes {
                            luma: scattered(d.luma, wp, s, 0, a, n),
                            blue: scattered(d.blue, wp, s, 1, b, n),
                            red: scattered(d.red, wp, s, 2, c, n),
                            alpha: if fr.alpha && s.alpha.1 > 0 {
                                alpha_put(
                                    d.alpha,
                                    wp,
                                    s,
                                    fr.height,
                                    crate::alpha::alpha_of(
                                        raw.subrange(s.alpha.0 as int, s.alpha.0 + s.alpha.1),
                                        s.mbs * 16 * crate::prores_frame::alpha_rows(fr.height, s),
                                    ),
                                )
                            } else {
                                d.alpha
                            },
                            qmb,
                        },
                    )
                },
            },
        },
    }
}

/// The planes of a frame with those of the slices from number `i` on among them.
pub open spec fn slices_in(raw: Seq<u8>, fr: Contents, i: int, d: Planes) -> Outcome<Planes>
    decreases fr.slices.len() - i,
{
    if i >= fr.slices.len() {
        Ok(d)
    } else {
        match slice_in(raw, fr, fr.slices[i], d) {
            Err(e) => Err(e),
            Ok(next) => slices_in(raw, fr, i + 1, next),
        }
    }
}

pub open spec fn blank(fr: Contents) -> Planes {
    let n = (crate::prores_frame::sixteenths(fr.width) * 16 * (crate::prores_frame::sixteenths(
        fr.height,
    ) * 16)) as nat;
    Planes {
        luma: Seq::new(n, |i: int| 0i16),
        blue: Seq::new(n, |i: int| 0i16),
        red: Seq::new(n, |i: int| 0i16),
        alpha: Seq::new(n, |i: int| 0u16),
        qmb: Seq::new(
            (crate::prores_frame::sixteenths(fr.width) * crate::prores_frame::sixteenths(fr.height)) as nat,
            |i: int| 0u8,
        ),
    }
}

/// What a frame of a movie holds.
pub open spec fn decoded(raw: Seq<u8>, fr: Contents) -> Outcome<Planes> {
    slices_in(raw, fr, 0, blank(fr))
}

/// What a frame holds: coefficients, alpha values, and how strongly every macroblock is quantized.
pub struct Decoded {
    pub wp: usize,
    pub hp: usize,
    pub luma: Vec<i16>,
    pub blue: Vec<i16>,
    pub red: Vec<i16>,
    pub alpha: Vec<u16>,
    pub qmb: Vec<u8>,
}

impl View for Decoded {
    type V = Planes;

    open spec fn view(&self) -> Planes {
        Planes {
            luma: self.luma@,
            blue: self.blue@,
            red: self.red@,
            alpha: self.alpha@,
            qmb: self.qmb@,
        }
    }
}

impl Decoded {
    pub open spec fn sized(&self, width: int, height: int) -> bool {
        &&& 1 <= width <= MAX_DIM
        &&& 1 <= height <= MAX_DIM
        &&& self.wp == crate::prores_frame::sixteenths(width) * 16
        &&& self.hp == crate::prores_frame::sixteenths(height) * 16
        &&& self.luma@.len() == self.wp * self.hp
        &&& self.blue@.len() == self.wp * self.hp
        &&& self.red@.len() == self.wp * self.hp
        &&& self.alpha@.len() == self.wp * self.hp
        &&& self.qmb@.len() == crate::prores_frame::sixteenths(width)
            * crate::prores_frame::sixteenths(height)
    }
}

fn find_place(s: &Slice, p: usize, blk: usize, scan: usize, wp: usize, Ghost(width): Ghost<int>, Ghost(
    height,
): Ghost<int>) -> (i: usize)
    requires
        crate::prores_frame::fits_in(*s, width, height),
        blk < s.mbs * 4,
        scan < 64,
        1 <= width <= MAX_DIM,
        1 <= height <= MAX_DIM,
        wp == crate::prores_frame::sixteenths(width) * 16,
    ensures
        i == place(*s, p as int, blk as int, scan as int, wp as int),
        i < wp * (crate::prores_frame::sixteenths(height) * 16),
{
    proof {
        lemma_place(*s, p as int, blk as int, scan as int, width, height);
    }
    let sub: usize = blk % 4;
    let (dy, dx): (usize, usize) = if p == 0 {
        (sub / 2, sub % 2)
    } else {
        (sub % 2, sub / 2)
    };
    let spot = SCAN[scan];
    let y: usize = (s.mb_y * 2 + dy) * 8 + spot / 8;
    let x: usize = ((s.mb_x + blk / 4) * 2 + dx) * 8 + spot % 8;
    assert(y * wp <= 8192 * 8192) by (nonlinear_arith)
        requires
            0 <= y <= 8192,
            0 <= wp <= 8192,
    ;
    y * wp + x
}

fn scatter(c: &mut Vec<i16>, wp: usize, s: &Slice, p: usize, v: &Vec<i16>, Ghost(width): Ghost<int>, Ghost(
    height,
): Ghost<int>)
    requires
        crate::prores_frame::fits_in(*s, width, height),
        1 <= width <= MAX_DIM,
        1 <= height <= MAX_DIM,
        wp == crate::prores_frame::sixteenths(width) * 16,
        old(c)@.len() == wp * (crate::prores_frame::sixteenths(height) * 16),
        v@.len() == s.mbs * 4 * 64,
    ensures
        final(c)@ == scattered(
            old(c)@,
            wp as int,
            *s,
            p as int,
            v@,
            s.mbs * 4 * 64,
        ),
        final(c)@.len() == old(c)@.len(),
{
    let blocks: usize = s.mbs * 4;
    let mut n: usize = 0;
    while n < v.len()
        invariant
            n <= v.len(),
            crate::prores_frame::fits_in(*s, width, height),
            1 <= width <= MAX_DIM,
            1 <= height <= MAX_DIM,
            wp == crate::prores_frame::sixteenths(width) * 16,
            c@.len() == old(c)@.len(),
            c@.len() == wp * (crate::prores_frame::sixteenths(height) * 16),
            blocks == s.mbs * 4,
            v@.len() == blocks * 64,
            c@ == scattered(old(c)@, wp as int, *s, p as int, v@, n as int),
        decreases v.len() - n,
    {
        if v[n] != 0 {
            assert(n as int / blocks as int <= 63) by (nonlinear_arith)
                requires
                    n < blocks * 64,
                    blocks >= 1,
            ;
            let at = find_place(s, p, n % blocks, n / blocks, wp, Ghost(width), Ghost(height));
            c[at] = v[n];
        }
        n += 1;
    }
}

fn read_plane(raw: &[u8], at: (usize, usize), blocks: usize) -> (r: Result<Vec<i16>, String>)
    requires
        at.0 + at.1 <= usize::MAX,
        at.1 <= 65535,
        1 <= blocks <= 32,
    ensures
        crate::mov_cross::numbers(r) == plane_read(raw@, at, blocks as int),
        r matches Ok(v) ==> v@.len() == blocks * 64,
{
    if at.0 > raw.len() || at.1 > raw.len() - at.0 {
        return Err(fail("truncated ProRes plane"));
    }
    unpack_plane(&raw[at.0..at.0 + at.1], blocks)
}

pub(crate) fn put_scales(q: &mut Vec<u8>, mbw: usize, s: &Slice, Ghost(width): Ghost<int>, Ghost(height): Ghost<int>)
    requires
        crate::prores_frame::fits_in(*s, width, height),
        1 <= width <= MAX_DIM,
        1 <= height <= MAX_DIM,
        mbw == crate::prores_frame::sixteenths(width),
        old(q)@.len() == mbw * crate::prores_frame::sixteenths(height),
    ensures
        final(q)@ == scales_put(old(q)@, mbw as int, *s),
        final(q)@.len() == old(q)@.len(),
{
    let ghost mbh = crate::prores_frame::sixteenths(height);
    proof {
        assert(s.mb_y * mbw + s.mb_x + s.mbs <= mbw * mbh && s.mb_y * mbw <= 512 * 512)
            by (nonlinear_arith)
            requires
                0 <= s.mb_y < mbh,
                mbh <= 512,
                s.mb_x + s.mbs <= mbw,
                mbw <= 512,
        ;
    }
    let at: usize = s.mb_y * mbw + s.mb_x;
    let mut m: usize = 0;
    while m < s.mbs
        invariant
            m <= s.mbs,
            at == s.mb_y * mbw + s.mb_x,
            at + s.mbs <= q.len(),
            q@.len() == old(q)@.len(),
            forall|i: int|
                0 <= i < q@.len() ==> #[trigger] q@[i] == (if at <= i < at + m {
                    s.qscale
                } else {
                    old(q)@[i]
                }),
        decreases s.mbs - m,
    {
        q[at + m] = s.qscale;
        m += 1;
    }
    assert(q@ =~= scales_put(old(q)@, mbw as int, *s));
}

/// The first column and row of the alpha values of a slice, and how many there are of each.
fn area(s: &Slice, height: usize, Ghost(width): Ghost<int>) -> (r: (usize, usize, usize, usize))
    requires
        crate::prores_frame::fits_in(*s, width, height as int),
        1 <= width <= MAX_DIM,
        1 <= height <= MAX_DIM,
    ensures
        (r.0 as int, r.1 as int, r.2 as int, r.3 as int) == alpha_area(*s, height as int),
        1 <= r.3 <= 16,
        16 <= r.2 <= 128,
        r.0 + r.2 <= crate::prores_frame::sixteenths(width) * 16,
        r.1 + r.3 <= crate::prores_frame::sixteenths(height as int) * 16,
{
    let left: usize = height - s.mb_y * 16;
    (s.mb_x * 16, s.mb_y * 16, s.mbs * 16, if left < 16 { left } else { 16 })
}

proof fn lemma_alpha_cell(wp: int, y: int, x: int)
    requires
        0 <= x < wp,
        0 <= y,
    ensures
        (y * wp + x) / wp == y,
        (y * wp + x) % wp == x,
{
    vstd::arithmetic::div_mod::lemma_fundamental_div_mod_converse(y * wp + x, wp, y, x);
}

fn put_alpha(a: &mut Vec<u16>, wp: usize, s: &Slice, height: usize, v: &Vec<u16>, Ghost(width): Ghost<int>)
    requires
        crate::prores_frame::fits_in(*s, width, height as int),
        1 <= width <= MAX_DIM,
        1 <= height <= MAX_DIM,
        wp == crate::prores_frame::sixteenths(width) * 16,
        old(a)@.len() == wp * (crate::prores_frame::sixteenths(height as int) * 16),
        v@.len() == s.mbs * 16 * crate::prores_frame::alpha_rows(height as int, *s),
    ensures
        final(a)@ == alpha_put(old(a)@, wp as int, *s, height as int, v@),
        final(a)@.len() == old(a)@.len(),
{
    let (x0, y0, w, rows) = area(s, height, Ghost(width));
    let ghost hp = crate::prores_frame::sixteenths(height as int) * 16;
    let ghost whole = alpha_put(old(a)@, wp as int, *s, height as int, v@);
    let mut r: usize = 0;
    let mut x: usize = 0;
    assert forall|i: int| 0 <= i < a@.len() implies #[trigger] a@[i] == old(a)@[i] by {}
    while r < rows
        invariant
            r <= rows,
            x < w,
            r == rows ==> x == 0,
            (x0 as int, y0 as int, w as int, rows as int) == alpha_area(*s, height as int),
            1 <= rows <= 16,
            16 <= w <= 128,
            x0 + w <= wp,
            y0 + rows <= hp,
            16 <= wp <= 8192,
            hp <= 8192,
            a@.len() == old(a)@.len(),
            a@.len() == wp * hp,
            v@.len() == w * rows,
            whole == alpha_put(old(a)@, wp as int, *s, height as int, v@),
            forall|i: int|
                0 <= i < a@.len() ==> #[trigger] a@[i] == ({
                    let (dy, dx) = (i / (wp as int) - y0, i % (wp as int) - x0);
                    if 0 <= dy < rows && 0 <= dx < w && (dy < r || (dy == r && dx < x)) {
                        v@[dy * w + dx]
                    } else {
                        old(a)@[i]
                    }
                }),
        decreases rows - r, w - x,
    {
        proof {
            assert(0 <= (y0 + r) * wp && (y0 + r) * wp + x0 + x < wp * hp && (y0 + r) * wp <= 8192
                * 8192) by (nonlinear_arith)
                requires
                    0 <= y0 + r < hp,
                    0 <= x0 + x < wp,
                    hp <= 8192,
                    wp <= 8192,
            ;
            assert(0 <= r * w && r * w + x < w * rows && r * w <= 2048) by (nonlinear_arith)
                requires
                    0 <= r < rows,
                    0 <= x < w,
                    rows <= 16,
                    w <= 128,
            ;
            lemma_alpha_cell(wp as int, y0 + r, x0 + x);
        }
        let at: usize = (y0 + r) * wp + x0 + x;
        let value: u16 = v[r * w + x];
        let ghost before = a@;
        a[at] = value;
        let (old_r, old_x) = (r, x);
        x += 1;
        if x == w {
            x = 0;
            r += 1;
        }
        proof {
            assert forall|i: int| 0 <= i < a@.len() implies #[trigger] a@[i] == ({
                let (dy, dx) = (i / (wp as int) - y0, i % (wp as int) - x0);
                if 0 <= dy < rows && 0 <= dx < w && (dy < r || (dy == r && dx < x)) {
                    v@[dy * w + dx]
                } else {
                    old(a)@[i]
                }
            }) by {
                let (dy, dx) = (i / (wp as int) - y0, i % (wp as int) - x0);
                if dy == old_r && dx == old_x {
                    vstd::arithmetic::div_mod::lemma_fundamental_div_mod(i, wp as int);
                    assert(i == at) by (nonlinear_arith)
                        requires
                            i == wp * (i / wp as int) + i % wp as int,
                            i / wp as int == y0 + old_r,
                            i % wp as int == x0 + old_x,
                            at == (y0 + old_r) * wp + x0 + old_x,
                    ;
                } else {
                    assert(i != at);
                    assert(a@[i] == before[i]);
                }
            }
        }
    }
    assert(a@ =~= whole);
}

/// Reads a slice of a frame into its planes.
fn read_slice(raw: &[u8], alpha: bool, height: usize, s: &Slice, d: &mut Decoded, Ghost(fr): Ghost<Contents>) -> (r:
    Result<(), String>)
    requires
        fr.alpha == alpha,
        fr.height == height,
        crate::prores_frame::fits_in(*s, fr.width, fr.height),
        old(d).sized(fr.width, fr.height),
    ensures
        final(d).sized(fr.width, fr.height),
        match r {
            Ok(_) => slice_in(raw@, fr, *s, old(d)@) == Ok::<Planes, Seq<char>>(final(d)@),
            Err(e) => slice_in(raw@, fr, *s, old(d)@) == Err::<Planes, Seq<char>>(e@),
        },
{
    let ghost (width, tall) = (fr.width, fr.height);
    let blocks: usize = s.mbs * 4;
    let wp: usize = d.wp;
    put_scales(&mut d.qmb, wp / 16, s, Ghost(width), Ghost(tall));
    let luma = read_plane(raw, s.luma, blocks)?;
    let blue = read_plane(raw, s.blue, blocks)?;
    let red = read_plane(raw, s.red, blocks)?;
    scatter(&mut d.luma, wp, s, 0, &luma, Ghost(width), Ghost(tall));
    scatter(&mut d.blue, wp, s, 1, &blue, Ghost(width), Ghost(tall));
    scatter(&mut d.red, wp, s, 2, &red, Ghost(width), Ghost(tall));
    if alpha && s.alpha.1 > 0 {
        if s.alpha.0 > raw.len() || s.alpha.1 > raw.len() - s.alpha.0 {
            return Err(fail("truncated ProRes alpha"));
        }
        let (_, _, w, rows) = area(s, height, Ghost(width));
        assert(w * rows <= 2048) by (nonlinear_arith)
            requires
                w <= 128,
                rows <= 16,
        ;
        let v = unpack_alpha(&raw[s.alpha.0..s.alpha.0 + s.alpha.1], w * rows);
        put_alpha(&mut d.alpha, wp, s, height, &v, Ghost(width));
    }
    Ok(())
}

/// Reads the coefficients, the alpha values and the quantization of a frame of a movie.
pub fn decode(raw: &[u8], fr: &Frame) -> (r: Result<Decoded, String>)
    requires
        fr@.wf(),
    ensures
        match r {
            Ok(d) => decoded(raw@, fr@) == Ok::<Planes, Seq<char>>(d@) && d.sized(
                fr@.width,
                fr@.height,
            ),
            Err(e) => decoded(raw@, fr@) == Err::<Planes, Seq<char>>(e@),
        },
{
    let mbw = fr.mbw();
    let mbh = fr.mbh();
    let wp: usize = mbw * 16;
    let hp: usize = mbh * 16;
    assert(0 <= wp * hp <= 8192 * 8192 && 0 <= mbw * mbh <= 512 * 512) by (nonlinear_arith)
        requires
            0 <= wp <= 8192,
            0 <= hp <= 8192,
            0 <= mbw <= 512,
            0 <= mbh <= 512,
    ;
    let mut d = Decoded {
        wp,
        hp,
        luma: vec![0i16; wp * hp],
        blue: vec![0i16; wp * hp],
        red: vec![0i16; wp * hp],
        alpha: vec![0u16; wp * hp],
        qmb: vec![0u8; mbw * mbh],
    };
    let ghost whole = decoded(raw@, fr@);
    assert(d@ =~= blank(fr@));
    let mut i: usize = 0;
    while i < fr.slices.len()
        invariant
            i <= fr.slices.len(),
            fr@.wf(),
            d.sized(fr@.width, fr@.height),
            whole == decoded(raw@, fr@),
            whole == slices_in(raw@, fr@, i as int, d@),
        decreases fr.slices.len() - i,
    {
        read_slice(raw, fr.alpha, fr.height, &fr.slices[i], &mut d, Ghost(fr@))?;
        i += 1;
    }
    Ok(d)
}

/// A length in two bytes, the most significant first.
pub open spec fn length_bytes(n: int) -> Seq<u8> {
    seq![(n / 256) as u8, (n % 256) as u8]
}

/// The bytes of a slice, quantized with `q`.
pub open spec fn slice_bytes(fr: Contents, s: Slice, q: u8, d: Planes) -> Seq<u8> {
    let wp = crate::prores_frame::sixteenths(fr.width) * 16;
    let a = crate::loose::tight_plane(gathered(d.luma, wp, s, 0), s.mbs * 4);
    let b = crate::loose::tight_plane(gathered(d.blue, wp, s, 1), s.mbs * 4);
    let c = crate::loose::tight_plane(gathered(d.red, wp, s, 2), s.mbs * 4);
    let planes = seq![64u8, q] + length_bytes(a.len() as int) + length_bytes(b.len() as int)
        + length_bytes(c.len() as int) + a + b + c;
    if fr.alpha {
        planes + crate::alpha::filled(crate::alpha::alpha_bits(alpha_got(d.alpha, wp, s, fr.height)))
    } else {
        planes
    }
}

/// The bytes of every slice, from number `i` on.
pub open spec fn slices_out(fr: Contents, i: int, qs: Seq<u8>, d: Planes) -> Seq<Seq<u8>> {
    Seq::new(
        (fr.slices.len() - i) as nat,
        |k: int| slice_bytes(fr, fr.slices[i + k], qs[i + k], d),
    )
}

/// The lengths of the first `n` slices.
pub open spec fn lengths(parts: Seq<Seq<u8>>, n: int) -> Seq<u8>
    decreases n,
{
    if n <= 0 {
        Seq::empty()
    } else {
        lengths(parts, n - 1) + length_bytes(parts[n - 1].len() as int)
    }
}

/// The first `n` slices, one after another.
pub open spec fn joined(parts: Seq<Seq<u8>>, n: int) -> Seq<u8>
    decreases n,
{
    if n <= 0 {
        Seq::empty()
    } else {
        joined(parts, n - 1) + parts[n - 1]
    }
}

/// A frame made up of a header and slices, as long as it has to be.
pub open spec fn framed(len: int, head: Seq<u8>, parts: Seq<Seq<u8>>) -> Outcome<Seq<u8>> {
    let n = parts.len() as int;
    let bytes = head + lengths(parts, n) + joined(parts, n);
    if exists|k: int| 0 <= k < n && (#[trigger] parts[k]).len() > 65535 {
        Err("ProRes slice too large"@)
    } else if bytes.len() > len {
        Err("rebuilt ProRes frame exceeds its size"@)
    } else {
        Ok(bytes + Seq::new((len - bytes.len()) as nat, |i: int| 0u8))
    }
}

/// The bytes of a frame.
pub open spec fn rebuilt(fr: Contents, head: Seq<u8>, qs: Seq<u8>, d: Planes) -> Outcome<Seq<u8>> {
    framed(fr.len, head, slices_out(fr, 0, qs, d))
}

fn gather(c: &Vec<i16>, wp: usize, s: &Slice, p: usize, Ghost(width): Ghost<int>, Ghost(height): Ghost<
    int,
>) -> (v: Vec<i16>)
    requires
        crate::prores_frame::fits_in(*s, width, height),
        1 <= width <= MAX_DIM,
        1 <= height <= MAX_DIM,
        wp == crate::prores_frame::sixteenths(width) * 16,
        c@.len() == wp * (crate::prores_frame::sixteenths(height) * 16),
    ensures
        v@ == gathered(c@, wp as int, *s, p as int),
        v@.len() == s.mbs * 4 * 64,
{
    let blocks: usize = s.mbs * 4;
    let mut v: Vec<i16> = Vec::with_capacity(blocks * 64);
    let mut n: usize = 0;
    while n < blocks * 64
        invariant
            n <= blocks * 64,
            crate::prores_frame::fits_in(*s, width, height),
            1 <= width <= MAX_DIM,
            1 <= height <= MAX_DIM,
            wp == crate::prores_frame::sixteenths(width) * 16,
            c@.len() == wp * (crate::prores_frame::sixteenths(height) * 16),
            blocks == s.mbs * 4,
            v@.len() == n,
            forall|i: int|
                0 <= i < n ==> #[trigger] v@[i] == c@[place(
                    *s,
                    p as int,
                    i % (blocks as int),
                    i / (blocks as int),
                    wp as int,
                )],
        decreases blocks * 64 - n,
    {
        assert(n as int / blocks as int <= 63) by (nonlinear_arith)
            requires
                n < blocks * 64,
                blocks >= 1,
        ;
        let at = find_place(s, p, n % blocks, n / blocks, wp, Ghost(width), Ghost(height));
        v.push(c[at]);
        n += 1;
    }
    assert(v@ =~= gathered(c@, wp as int, *s, p as int));
    v
}

fn get_alpha(a: &Vec<u16>, wp: usize, s: &Slice, height: usize, Ghost(width): Ghost<int>) -> (v: Vec<u16>)
    requires
        crate::prores_frame::fits_in(*s, width, height as int),
        1 <= width <= MAX_DIM,
        1 <= height <= MAX_DIM,
        wp == crate::prores_frame::sixteenths(width) * 16,
        a@.len() == wp * (crate::prores_frame::sixteenths(height as int) * 16),
    ensures
        v@ == alpha_got(a@, wp as int, *s, height as int),
        16 <= v@.len() <= 2048,
{
    let (x0, y0, w, rows) = area(s, height, Ghost(width));
    let ghost hp = crate::prores_frame::sixteenths(height as int) * 16;
    assert(16 <= w * rows <= 2048 && w * rows == rows * w) by (nonlinear_arith)
        requires
            16 <= w <= 128,
            1 <= rows <= 16,
    ;
    let n: usize = w * rows;
    let mut v: Vec<u16> = Vec::with_capacity(n);
    let mut k: usize = 0;
    while k < n
        invariant
            k <= n,
            n == rows * w,
            x0 + w <= wp,
            y0 + rows <= hp,
            16 <= w <= 128,
            1 <= rows <= 16,
            wp <= 8192,
            hp <= 8192,
            a@.len() == wp * hp,
            v@.len() == k,
            forall|i: int|
                0 <= i < k ==> #[trigger] v@[i] == a@[(y0 + i / (w as int)) * wp + x0 + i % (w as int)],
        decreases n - k,
    {
        let y: usize = k / w;
        let x: usize = k % w;
        assert(y < rows) by (nonlinear_arith)
            requires
                y == k / w,
                k < rows * w,
                w >= 1,
        ;
        assert(0 <= (y0 + y) * wp && (y0 + y) * wp + x0 + x < wp * hp && (y0 + y) * wp <= 8192 * 8192)
            by (nonlinear_arith)
            requires
                0 <= y0 + y < hp,
                0 <= x0 + x < wp,
                hp <= 8192,
                wp <= 8192,
        ;
        v.push(a[(y0 + y) * wp + x0 + x]);
        k += 1;
    }
    assert(v@ =~= alpha_got(a@, wp as int, *s, height as int));
    v
}

fn put_length(out: &mut Vec<u8>, n: usize)
    requires
        n <= 65535,
    ensures
        final(out)@ == old(out)@ + length_bytes(n as int),
{
    out.push((n / 256) as u8);
    out.push((n % 256) as u8);
    assert(out@ =~= old(out)@ + length_bytes(n as int));
}

fn build_slice(alpha: bool, height: usize, s: &Slice, q: u8, d: &Decoded, Ghost(fr): Ghost<Contents>) -> (out:
    Vec<u8>)
    requires
        fr.alpha == alpha,
        fr.height == height,
        crate::prores_frame::fits_in(*s, fr.width, fr.height),
        d.sized(fr.width, fr.height),
    ensures
        out@ == slice_bytes(fr, *s, q, d@),
{
    let ghost (width, tall) = (fr.width, fr.height);
    let blocks: usize = s.mbs * 4;
    let wp: usize = d.wp;
    let a = pack_plane(gather(&d.luma, wp, s, 0, Ghost(width), Ghost(tall)).as_slice(), blocks);
    let b = pack_plane(gather(&d.blue, wp, s, 1, Ghost(width), Ghost(tall)).as_slice(), blocks);
    let c = pack_plane(gather(&d.red, wp, s, 2, Ghost(width), Ghost(tall)).as_slice(), blocks);
    let mut out: Vec<u8> = Vec::new();
    out.push(64);
    out.push(q);
    assert(out@ =~= seq![64u8, q]);
    put_length(&mut out, a.len());
    put_length(&mut out, b.len());
    put_length(&mut out, c.len());
    out.extend_from_slice(a.as_slice());
    out.extend_from_slice(b.as_slice());
    out.extend_from_slice(c.as_slice());
    if alpha {
        let v = get_alpha(&d.alpha, wp, s, height, Ghost(width));
        out.extend_from_slice(pack_alpha(v.as_slice()).as_slice());
    }
    out
}

/// The sequences that vectors hold.
pub open spec fn each(v: Seq<Vec<u8>>) -> Seq<Seq<u8>> {
    Seq::new(v.len(), |i: int| v[i]@)
}

/// Puts a frame together from its header and its slices.
pub fn assemble(len: usize, head: &[u8], parts: &Vec<Vec<u8>>) -> (r: Result<Vec<u8>, String>)
    ensures
        crate::wire::bytes_of(r) == framed(len as int, head@, each(parts@)),
{
    let ghost all = each(parts@);
    let mut out: Vec<u8> = Vec::new();
    out.extend_from_slice(head);
    assert(out@ =~= head@ + lengths(all, 0));
    let mut i: usize = 0;
    while i < parts.len()
        invariant
            i <= parts.len(),
            all == each(parts@),
            out@ == head@ + lengths(all, i as int),
            forall|k: int| 0 <= k < i ==> (#[trigger] all[k]).len() <= 65535,
        decreases parts.len() - i,
    {
        assert(all[i as int] == parts@[i as int]@);
        if parts[i].len() > 65535 {
            return Err(fail("ProRes slice too large"));
        }
        put_length(&mut out, parts[i].len());
        i += 1;
        assert(out@ =~= head@ + lengths(all, i as int));
    }
    let ghost start = out@;
    let mut j: usize = 0;
    assert(out@ =~= start + joined(all, 0));
    while j < parts.len()
        invariant
            j <= parts.len(),
            all == each(parts@),
            out@ == start + joined(all, j as int),
        decreases parts.len() - j,
    {
        out.extend_from_slice(parts[j].as_slice());
        j += 1;
        assert(out@ =~= start + joined(all, j as int));
    }
    if out.len() > len {
        return Err(fail("rebuilt ProRes frame exceeds its size"));
    }
    let ghost bytes = out@;
    out.resize(len, 0);
    assert(out@ =~= bytes + Seq::new((len - bytes.len()) as nat, |i: int| 0u8));
    Ok(out)
}

/// Builds the bytes of a frame from its header, the quantization of its slices, and its planes.
pub fn rebuild(fr: &Frame, head: &[u8], qscale: &[u8], d: &Decoded) -> (r: Result<Vec<u8>, String>)
    requires
        fr@.wf(),
        d.sized(fr@.width, fr@.height),
        qscale@.len() == fr@.slices.len(),
    ensures
        crate::wire::bytes_of(r) == rebuilt(fr@, head@, qscale@, d@),
{
    let mut parts: Vec<Vec<u8>> = Vec::new();
    let mut i: usize = 0;
    while i < fr.slices.len()
        invariant
            i <= fr.slices.len(),
            fr@.wf(),
            d.sized(fr@.width, fr@.height),
            qscale@.len() == fr@.slices.len(),
            parts@.len() == i,
            forall|k: int|
                0 <= k < i ==> (#[trigger] parts@[k])@ == slice_bytes(
                    fr@,
                    fr@.slices[k],
                    qscale@[k],
                    d@,
                ),
        decreases fr.slices.len() - i,
    {
        parts.push(build_slice(fr.alpha, fr.height, &fr.slices[i], qscale[i], d, Ghost(fr@)));
        i += 1;
    }
    assert(each(parts@) =~= slices_out(fr@, 0, qscale@, d@));
    assemble(fr.len, head, &parts)
}

}
