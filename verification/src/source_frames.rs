//! What is known of the frames of a movie whose pictures are coded: the picture, and how far the
//! coefficients are from what the picture lets expect.

use crate::prores_bits::Decoded;
use crate::prores_frame::{Contents, Frame};
use crate::source_planes::{Image, Planes};
use vstd::prelude::*;

verus! {

/// What a picture lets expect of the coefficients of a frame: for each the value, how strong the
/// signal is, and whether it is negative. The planes follow each other.
pub struct Expected {
    pub levels: Vec<i16>,
    pub strength: Vec<u8>,
    pub negative: Vec<bool>,
}

#[verifier::ext_equal]
pub struct Expectation {
    pub levels: Seq<i16>,
    pub strength: Seq<u8>,
    pub negative: Seq<bool>,
}

impl View for Expected {
    type V = Expectation;

    open spec fn view(&self) -> Expectation {
        Expectation { levels: self.levels@, strength: self.strength@, negative: self.negative@ }
    }
}

/// Some values, cut off or filled up so that there are `n`.
pub open spec fn cut_to<T>(s: Seq<T>, n: int, fill: T) -> Seq<T> {
    Seq::new(
        n as nat,
        |i: int|
            if i < s.len() {
                s[i]
            } else {
                fill
            },
    )
}

impl Expectation {
    /// Whether there is an expectation for each of three planes of `n` coefficients.
    pub open spec fn fits(self, n: int) -> bool {
        self.levels.len() == 3 * n && self.strength.len() == 3 * n && self.negative.len() == 3 * n
    }

    /// An expectation for each of three planes of `n` coefficients. Where there is none, it is nothing.
    pub open spec fn fitted(self, n: int) -> Expectation {
        Expectation {
            levels: cut_to(self.levels, 3 * n, 0i16),
            strength: cut_to(self.strength, 3 * n, 0u8),
            negative: cut_to(self.negative, 3 * n, false),
        }
    }

    /// What fits stays as it is.
    pub proof fn lemma_fitted(self, n: int)
        requires
            self.fits(n),
        ensures
            self.fitted(n) == self,
    {
        assert(self.fitted(n) =~= self);
    }
}

impl Expected {
    /// Takes as many expectations as there are coefficients in three planes of `n`.
    pub(crate) fn fit(&mut self, n: usize)
        requires
            3 * n <= usize::MAX,
        ensures
            final(self)@ == old(self)@.fitted(n as int),
            final(self)@.fits(n as int),
    {
        let ghost start = self@;
        self.levels.resize(3 * n, 0i16);
        self.strength.resize(3 * n, 0u8);
        self.negative.resize(3 * n, false);
        proof {
            let (a, b) = (self@, start.fitted(n as int));
            assert forall|i: int| 0 <= i < 3 * n implies a.levels[i] == b.levels[i] && a.strength[i]
                == b.strength[i] && a.negative[i] == b.negative[i] by {
                if i < start.levels.len() {
                    assert(a.levels.subrange(0, if 3 * n <= start.levels.len() {
                        3 * n
                    } else {
                        start.levels.len() as int
                    })[i] == start.levels[i]);
                }
                if i < start.strength.len() {
                    assert(a.strength.subrange(0, if 3 * n <= start.strength.len() {
                        3 * n
                    } else {
                        start.strength.len() as int
                    })[i] == start.strength[i]);
                }
                if i < start.negative.len() {
                    assert(a.negative.subrange(0, if 3 * n <= start.negative.len() {
                        3 * n
                    } else {
                        start.negative.len() as int
                    })[i] == start.negative[i]);
                }
            }
            assert(a =~= b);
        }
    }
}

/// Takes as many values as are asked for.
pub(crate) fn take_values(v: Vec<u8>, n: usize) -> (out: Vec<u8>)
    ensures
        out@ == cut_to(v@, n as int, 0u8),
{
    let ghost start = v@;
    let mut out = v;
    out.resize(n, 0u8);
    proof {
        assert forall|i: int| 0 <= i < n implies out@[i] == cut_to(start, n as int, 0u8)[i] by {
            if i < start.len() {
                assert(out@.subrange(0, if n <= start.len() {
                    n as int
                } else {
                    start.len() as int
                })[i] == start[i]);
            }
        }
        assert(out@ =~= cut_to(start, n as int, 0u8));
    }
    out
}

/// Bytes, as contracts speak of them.
pub type Bytes = Seq<u8>;

/// Someone who turns coefficients into colours, and colours into coefficients.
pub trait Painter {
    /// Whether the painter can paint what a frame holds in these colours, and is then as `after` is.
    spec fn paints(&self, d: crate::prores_bits::Planes, frame: Contents, colours: Bytes, after: &Self) -> bool;

    /// Whether the painter can expect this of a frame by its picture, and is then as `after` is.
    spec fn expects(
        &self,
        picture: Image,
        frame: Contents,
        qmb: Bytes,
        e: Expectation,
        after: &Self,
    ) -> bool;

    /// The colours of a frame: green, red and blue of every pixel, plane by plane. Any colours are
    /// good enough to restore the frame; the right ones make a record shorter. Where there are too few,
    /// the rest are zeros.
    fn paint(&mut self, d: &Decoded, frame: &Frame) -> (colours: Vec<u8>)
        ensures
            old(self).paints(d@, frame@, colours@, final(self)),
    ;

    /// What the colours of a picture let expect of the coefficients of a frame. Where nothing is said of
    /// one, nothing is expected of it.
    fn expect(&mut self, picture: &Planes, frame: &Frame, qmb: &[u8]) -> (e: Expected)
        ensures
            old(self).expects(picture@, frame@, qmb@, e@, final(self)),
    ;
}

/// Someone who paints everything black, and expects nothing.
pub struct Unpainted;

impl Painter for Unpainted {
    open spec fn paints(
        &self,
        d: crate::prores_bits::Planes,
        frame: Contents,
        colours: Bytes,
        after: &Self,
    ) -> bool {
        colours.len() == 0
    }

    open spec fn expects(
        &self,
        picture: Image,
        frame: Contents,
        qmb: Bytes,
        e: Expectation,
        after: &Self,
    ) -> bool {
        e.levels.len() == 0 && e.strength.len() == 0 && e.negative.len() == 0
    }

    fn paint(&mut self, d: &Decoded, frame: &Frame) -> (colours: Vec<u8>) {
        Vec::new()
    }

    fn expect(&mut self, picture: &Planes, frame: &Frame, qmb: &[u8]) -> (e: Expected) {
        Expected { levels: Vec::new(), strength: Vec::new(), negative: Vec::new() }
    }
}

/// Whether two frames tell a painter the same: their size, whether they have alpha, and how their coefficients
/// are weighed.
pub open spec fn same_head(f: Contents, g: Contents) -> bool {
    &&& f.width == g.width
    &&& f.height == g.height
    &&& f.alpha == g.alpha
    &&& f.luma == g.luma
    &&& f.chroma == g.chroma
}

/// Whether two colourings of what a frame holds are the same.
pub open spec fn paints_alike<P: Painter>(
    a: P,
    b: P,
    d: crate::prores_bits::Planes,
    f: Contents,
    x: Seq<u8>,
    y: Seq<u8>,
    a2: P,
    b2: P,
) -> bool {
    a.paints(d, f, x, &a2) && b.paints(d, f, y, &b2) ==> x == y
}

/// Whether two expectations of frames that tell the same, by one picture, are the same.
pub open spec fn expects_alike<P: Painter>(
    a: P,
    b: P,
    picture: Image,
    f: Contents,
    g: Contents,
    qmb: Seq<u8>,
    x: Expectation,
    y: Expectation,
    a2: P,
    b2: P,
) -> bool {
    a.expects(picture, f, qmb, x, &a2) && b.expects(picture, g, qmb, y, &b2) && same_head(f, g) ==> x == y
}

/// Whether all painters of a kind give one answer to one question.
#[verifier::opaque]
pub open spec fn steady<P: Painter>() -> bool {
    &&& forall|
        a: P,
        b: P,
        d: crate::prores_bits::Planes,
        f: Contents,
        x: Seq<u8>,
        y: Seq<u8>,
        a2: P,
        b2: P,
    | #[trigger]
        paints_alike(a, b, d, f, x, y, a2, b2)
    &&& forall|
        a: P,
        b: P,
        picture: Image,
        f: Contents,
        g: Contents,
        qmb: Seq<u8>,
        x: Expectation,
        y: Expectation,
        a2: P,
        b2: P,
    | #[trigger]
        expects_alike(a, b, picture, f, g, qmb, x, y, a2, b2)
}

/// Painters who paint everything black give one answer to one question.
pub proof fn law_unpainted_is_steady()
    ensures
        steady::<Unpainted>(),
{
    reveal(steady);
    assert forall|
        a: Unpainted,
        b: Unpainted,
        d: crate::prores_bits::Planes,
        f: Contents,
        x: Seq<u8>,
        y: Seq<u8>,
        a2: Unpainted,
        b2: Unpainted,
    | #[trigger]
        paints_alike(a, b, d, f, x, y, a2, b2) by {
        if x.len() == 0 && y.len() == 0 {
            assert(x =~= y);
        }
    }
    assert forall|
        a: Unpainted,
        b: Unpainted,
        picture: Image,
        f: Contents,
        g: Contents,
        qmb: Seq<u8>,
        x: Expectation,
        y: Expectation,
        a2: Unpainted,
        b2: Unpainted,
    | #[trigger]
        expects_alike(a, b, picture, f, g, qmb, x, y, a2, b2) by {
        if a.expects(picture, f, qmb, x, &a2) && b.expects(picture, g, qmb, y, &b2) {
            assert(x =~= y);
        }
    }
}

/// A frame: its picture, the errors of what was expected of its coefficients, and how strongly its
/// macroblocks are quantized.
pub struct Seen {
    pub picture: Planes,
    pub resid: Vec<i16>,
    pub qmb: Vec<u8>,
}

#[verifier::ext_equal]
pub struct Sight {
    pub picture: Image,
    pub resid: Seq<i16>,
    pub qmb: Seq<u8>,
}

impl View for Seen {
    type V = Sight;

    open spec fn view(&self) -> Sight {
        Sight { picture: self.picture@, resid: self.resid@, qmb: self.qmb@ }
    }
}

/// Whether a picture has the shape of a frame.
pub open spec fn shaped(i: Image) -> bool {
    &&& 16 <= i.w <= 8192
    &&& 16 <= i.h <= 8192
    &&& i.w % 16 == 0
    &&& i.h % 16 == 0
}

impl Seen {
    pub open spec fn wf(&self) -> bool {
        &&& self.picture.wf()
        &&& self@.picture.wf()
        &&& shaped(self@.picture)
        &&& self.resid@.len() == 3 * (self@.picture.w * self@.picture.h)
        &&& self.qmb@.len() == (self@.picture.w / 16) * (self@.picture.h / 16)
    }
}

/// A number in sixteen bits.
pub open spec fn wrap16(n: int) -> int {
    (n + 32768) % 65536 - 32768
}

pub fn to_i16(n: i32) -> (v: i16)
    requires
        -0x2_0000 <= n <= 0x2_0000,
    ensures
        v == wrap16(n as int),
{
    let m: u32 = (n + 0x4_8000) as u32 % 65536;
    (m as i32 - 32768) as i16
}

/// Adding back what was subtracted gives the same number, though both wrap.
pub proof fn law_wrapping_is_undone(a: i16, b: i16)
    ensures
        wrap16(b + wrap16(a - b)) == a,
{
}

/// The coefficients of all planes.
pub open spec fn coefficients(d: crate::prores_bits::Planes) -> Seq<i16> {
    d.luma + d.blue + d.red
}

/// How far coefficients are from what was expected.
pub open spec fn errors(c: Seq<i16>, levels: Seq<i16>) -> Seq<i16> {
    Seq::new(c.len(), |i: int| wrap16(c[i] - levels[i]) as i16)
}

/// The coefficients that are so far from what was expected.
pub open spec fn corrected(levels: Seq<i16>, resid: Seq<i16>) -> Seq<i16> {
    Seq::new(resid.len(), |i: int| wrap16(levels[i] + resid[i]) as i16)
}

/// Coefficients come back from their errors.
pub proof fn law_errors_restore(c: Seq<i16>, levels: Seq<i16>)
    ensures
        corrected(levels, errors(c, levels)) == c,
{
    assert forall|i: int| 0 <= i < c.len() implies corrected(levels, errors(c, levels))[i] == c[i] by {
        law_wrapping_is_undone(c[i], levels[i]);
    }
    assert(corrected(levels, errors(c, levels)) =~= c);
}

/// The bytes of a picture: alpha, and the colours.
pub open spec fn shown(alpha: Seq<u16>, colours: Seq<u8>) -> Seq<u8> {
    Seq::new(alpha.len(), |i: int| (alpha[i] / 257) as u8) + colours
}

/// The alpha values of a picture.
pub open spec fn alpha_of(picture: Image) -> Seq<u16> {
    Seq::new(
        (picture.h * picture.w) as nat,
        |i: int| (picture.px[0][i / picture.w][i % picture.w] * 257) as u16,
    )
}

/// Finds how far the coefficients of a frame are from what was expected.
pub(crate) fn find_errors(d: &Decoded, e: &Expected) -> (resid: Vec<i16>)
    requires
        d.luma@.len() == d.blue@.len() == d.red@.len(),
        3 * d.luma.len() <= usize::MAX,
        e@.fits(d.luma@.len() as int),
    ensures
        resid@ == errors(coefficients(d@), e.levels@),
{
    let n: usize = d.luma.len();
    let ghost all = coefficients(d@);
    let mut resid: Vec<i16> = Vec::with_capacity(3 * n);
    let mut i: usize = 0;
    while i < 3 * n
        invariant
            i <= 3 * n,
            n == d.luma@.len() == d.blue@.len() == d.red@.len(),
            3 * n <= usize::MAX,
            e@.fits(n as int),
            all == coefficients(d@),
            resid@.len() == i,
            forall|k: int| 0 <= k < i ==> #[trigger] resid@[k] == wrap16(all[k] - e.levels@[k]),
        decreases 3 * n - i,
    {
        let c: i16 = if i < n {
            d.luma[i]
        } else if i < 2 * n {
            d.blue[i - n]
        } else {
            d.red[i - 2 * n]
        };
        assert(c == all[i as int]);
        resid.push(to_i16(c as i32 - e.levels[i] as i32));
        i += 1;
    }
    assert(resid@ =~= errors(all, e.levels@));
    resid
}

/// Puts coefficients right, for the plane that starts at `from`.
pub(crate) fn correct(e: &Expected, resid: &Vec<i16>, from: usize, n: usize) -> (c: Vec<i16>)
    requires
        from + n <= resid.len(),
        e.levels@.len() == resid@.len(),
    ensures
        c@ == corrected(e.levels@, resid@).subrange(from as int, from + n),
{
    let mut c: Vec<i16> = Vec::with_capacity(n);
    let mut i: usize = 0;
    while i < n
        invariant
            i <= n,
            from + n <= resid.len(),
            e.levels@.len() == resid@.len(),
            c@.len() == i,
            forall|k: int|
                0 <= k < i ==> #[trigger] c@[k] == wrap16(e.levels@[from + k] + resid@[from + k]),
        decreases n - i,
    {
        c.push(to_i16(e.levels[from + i] as i32 + resid[from + i] as i32));
        i += 1;
    }
    assert(c@ =~= corrected(e.levels@, resid@).subrange(from as int, from + n));
    c
}

/// Makes a picture out of alpha values and colours.
pub(crate) fn compose(w: usize, h: usize, alpha: &Vec<u16>, colours: &Vec<u8>) -> (r: Planes)
    requires
        alpha@.len() == w * h,
        colours@.len() == 3 * (w * h),
        4 * (w * h) <= usize::MAX,
    ensures
        r.wf(),
        r@.wf(),
        r@ == crate::source_planes::image_of(w as int, h as int, shown(alpha@, colours@)),
        r@.w == w,
        r@.h == h,
{
    let mut px: Vec<u8> = Vec::with_capacity(alpha.len());
    let mut i: usize = 0;
    while i < alpha.len()
        invariant
            i <= alpha.len(),
            px@.len() == i,
            forall|k: int| 0 <= k < i ==> #[trigger] px@[k] == alpha@[k] / 257,
        decreases alpha.len() - i,
    {
        px.push((alpha[i] / 257) as u8);
        i += 1;
    }
    px.extend_from_slice(colours.as_slice());
    assert(px@ =~= shown(alpha@, colours@));
    let r = Planes { w, h, px };
    proof {
        r.lemma_bytes();
        r.lemma_shape();
        assert(w * h == h * w) by (nonlinear_arith);
    }
    r
}

/// Finds the alpha values of a picture.
pub(crate) fn find_alpha(picture: &Planes) -> (alpha: Vec<u16>)
    requires
        picture.wf(),
        shaped(picture@),
    ensures
        alpha@ == alpha_of(picture@),
{
    proof {
        picture.lemma_shape();
    }
    let (w, h) = (picture.w, picture.h);
    assert(0 <= h * w <= 8192 * 8192) by (nonlinear_arith)
        requires
            0 <= w <= 8192,
            0 <= h <= 8192,
    ;
    let n: usize = h * w;
    let mut alpha: Vec<u16> = Vec::with_capacity(n);
    let mut i: usize = 0;
    while i < n
        invariant
            i <= n,
            n == h * w,
            picture.wf(),
            picture@.wf(),
            picture@.w == w,
            picture@.h == h,
            w >= 16,
            alpha@.len() == i,
            forall|k: int|
                0 <= k < i ==> #[trigger] alpha@[k] == picture@.px[0][k / picture@.w][k % picture@.w] * 257,
        decreases n - i,
    {
        assert((i as int / w as int) < h) by (nonlinear_arith)
            requires
                0 <= i < h * w,
                w >= 1,
        ;
        alpha.push(picture.get(0, i / w, i % w) as u16 * 257);
        i += 1;
    }
    assert(alpha@ =~= alpha_of(picture@));
    alpha
}

/// Whether a block is the same in two pictures, in the channels from `first` on.
pub open spec fn matching(a: Image, b: Image, by: int, bx: int, first: int) -> bool {
    forall|c: int, y: int, x: int|
        first <= c < 4 && by * 8 <= y < by * 8 + 8 && bx * 8 <= x < bx * 8 + 8 ==> #[trigger] a.at(c, y, x)
            == b.at(c, y, x)
}

/// Whether a block is the same in two pictures of one shape.
pub(crate) fn block_same(a: &Planes, b: &Planes, by: usize, bx: usize, first: usize) -> (r: bool)
    requires
        a.wf(),
        b.wf(),
        a@.w == b@.w,
        a@.h == b@.h,
        by * 8 + 8 <= a@.h,
        bx * 8 + 8 <= a@.w,
        first < 4,
    ensures
        r == matching(a@, b@, by as int, bx as int, first as int),
{
    proof {
        a.lemma_shape();
        b.lemma_shape();
    }
    let mut c: usize = first;
    while c < 4
        invariant
            first <= c <= 4,
            a.wf(),
            b.wf(),
            a@.w == b@.w,
            a@.h == b@.h,
            a@.h <= usize::MAX,
            a@.w <= usize::MAX,
            by * 8 + 8 <= a@.h,
            bx * 8 + 8 <= a@.w,
            forall|d: int, y: int, x: int|
                first <= d < c && by * 8 <= y < by * 8 + 8 && bx * 8 <= x < bx * 8 + 8 ==> #[trigger] a@.at(
                    d,
                    y,
                    x,
                ) == b@.at(d, y, x),
        decreases 4 - c,
    {
        let mut i: usize = 0;
        while i < 64
            invariant
                i <= 64,
                first <= c < 4,
                a.wf(),
                b.wf(),
                a@.w == b@.w,
                a@.h == b@.h,
                a@.h <= usize::MAX,
                a@.w <= usize::MAX,
                by * 8 + 8 <= a@.h,
                bx * 8 + 8 <= a@.w,
                forall|y: int, x: int|
                    by * 8 <= y < by * 8 + 8 && bx * 8 <= x < bx * 8 + 8 && (y - by * 8) * 8 + x - bx * 8 < i
                        ==> #[trigger] a@.at(c as int, y, x) == b@.at(c as int, y, x),
            decreases 64 - i,
        {
            let y: usize = by * 8 + i / 8;
            let x: usize = bx * 8 + i % 8;
            if a.get(c, y, x) != b.get(c, y, x) {
                assert(a@.at(c as int, y as int, x as int) != b@.at(c as int, y as int, x as int));
                return false;
            }
            assert forall|v: int, u: int|
                by * 8 <= v < by * 8 + 8 && bx * 8 <= u < bx * 8 + 8 && (v - by * 8) * 8 + u - bx * 8 < i
                    + 1 implies #[trigger] a@.at(c as int, v, u) == b@.at(c as int, v, u) by {
                if (v - by * 8) * 8 + u - bx * 8 == i {
                    assert(v == y && u == x);
                }
            }
            i += 1;
        }
        c += 1;
    }
    true
}

/// How many of the first `k` blocks of a picture another one has that the one before has not.
pub open spec fn novel(cur: Image, other: Image, before: Option<Image>, k: int) -> int
    decreases k,
{
    if k <= 0 {
        0
    } else {
        let (by, bx) = ((k - 1) / (cur.w / 8), (k - 1) % (cur.w / 8));
        let known = before matches Some(p) && matching(p, cur, by, bx, 0);
        novel(cur, other, before, k - 1) + if matching(other, cur, by, bx, 0) && !known {
            1int
        } else {
            0
        }
    }
}

proof fn lemma_block_place(k: int, bw: int, bh: int)
    requires
        0 <= k < bw * bh,
        bw >= 1,
    ensures
        0 <= k / bw < bh,
        0 <= k % bw < bw,
{
    assert(k / bw < bh) by (nonlinear_arith)
        requires
            0 <= k < bw * bh,
            bw >= 1,
    ;
    assert(k / bw >= 0) by (nonlinear_arith)
        requires
            0 <= k,
            bw >= 1,
    ;
}

/// Whether two pictures have one shape.
pub open spec fn same_shape(a: Image, b: Image) -> bool {
    a.w == b.w && a.h == b.h
}

/// Counts the blocks that a picture shares with another one, but not with the one before.
pub fn novel_matches(cur: &Planes, other: &Planes, before: Option<&Planes>) -> (n: usize)
    requires
        cur.wf(),
        shaped(cur@),
        other.wf(),
        same_shape(other@, cur@),
        before matches Some(p) ==> p.wf() && same_shape(p@, cur@),
    ensures
        n == novel(
            cur@,
            other@,
            (match before {
                Some(p) => Some(p@),
                None => None,
            }),
            (cur@.w / 8) * (cur@.h / 8),
        ),
        n <= (cur@.w / 8) * (cur@.h / 8),
{
    proof {
        cur.lemma_shape();
    }
    let ghost known = match before {
        Some(p) => Some(p@),
        None => None,
    };
    let (bw, bh) = (cur.w / 8, cur.h / 8);
    assert(0 <= bw * bh <= 1024 * 1024) by (nonlinear_arith)
        requires
            0 <= bw <= 1024,
            0 <= bh <= 1024,
    ;
    let total: usize = bw * bh;
    let mut n: usize = 0;
    let mut k: usize = 0;
    while k < total
        invariant
            k <= total,
            total == bw * bh,
            bw == cur@.w / 8,
            bh == cur@.h / 8,
            bw >= 1,
            n <= k,
            cur.wf(),
            other.wf(),
            same_shape(other@, cur@),
            before matches Some(p) ==> p.wf() && same_shape(p@, cur@),
            known == (match before {
                Some(p) => Some(p@),
                None => None,
            }),
            n == novel(cur@, other@, known, k as int),
        decreases total - k,
    {
        proof {
            lemma_block_place(k as int, bw as int, bh as int);
        }
        let (by, bx) = (k / bw, k % bw);
        if block_same(other, cur, by, bx, 0) {
            let old_news: bool = match before {
                Some(p) => block_same(p, cur, by, bx, 0),
                None => false,
            };
            if !old_news {
                n += 1;
            }
        }
        k += 1;
    }
    n
}

/// The first of some frames that a block of another one can be compared with: of one shape, quantized
/// alike there, and of the same colours.
pub open spec fn reused(cands: Seq<Sight>, picture: Image, qmb: Seq<u8>, by: int, bx: int, i: int) -> Option<int>
    decreases cands.len() - i,
{
    if i < 0 || i >= cands.len() {
        None
    } else {
        let m = (by / 2) * (picture.w / 16) + bx / 2;
        let c = cands[i];
        if same_shape(c.picture, picture) && c.qmb[m] == qmb[m] && matching(c.picture, picture, by, bx, 1) {
            Some(i)
        } else {
            reused(cands, picture, qmb, by, bx, i + 1)
        }
    }
}

pub open spec fn sights(v: Seq<&Seen>) -> Seq<Sight> {
    Seq::new(v.len(), |i: int| v[i]@)
}

pub open spec fn all_seen(v: Seq<&Seen>) -> bool {
    forall|i: int| 0 <= i < v.len() ==> (#[trigger] v[i]).wf()
}

/// Finds the frame that a block can be compared with.
pub fn reuse(cands: &Vec<&Seen>, picture: &Planes, qmb: &Vec<u8>, by: usize, bx: usize) -> (r: Option<usize>)
    requires
        all_seen(cands@),
        picture.wf(),
        shaped(picture@),
        qmb@.len() == (picture@.w / 16) * (picture@.h / 16),
        by < picture@.h / 8,
        bx < picture@.w / 8,
    ensures
        match r {
            Some(i) => i < cands@.len() && reused(
                sights(cands@),
                picture@,
                qmb@,
                by as int,
                bx as int,
                0,
            ) == Some(i as int) && same_shape(cands@[i as int]@.picture, picture@),
            None => reused(sights(cands@), picture@, qmb@, by as int, bx as int, 0) is None,
        },
{
    proof {
        picture.lemma_shape();
    }
    let mbw: usize = picture.w / 16;
    let ghost mbh = picture@.h / 16;
    assert((by / 2) * mbw + bx / 2 < mbw * mbh && 0 <= (by / 2) * mbw <= 512 * 512) by (nonlinear_arith)
        requires
            0 <= by / 2 < mbh,
            0 <= bx / 2 < mbw,
            mbw <= 512,
            mbh <= 512,
    ;
    let m: usize = (by / 2) * mbw + bx / 2;
    let ghost all = sights(cands@);
    let mut i: usize = 0;
    while i < cands.len()
        invariant
            i <= cands.len(),
            all == sights(cands@),
            all_seen(cands@),
            picture.wf(),
            picture@.w == picture.w,
            picture@.h == picture.h,
            shaped(picture@),
            qmb@.len() == (picture@.w / 16) * (picture@.h / 16),
            m < qmb@.len(),
            m == (by as int / 2) * (picture@.w / 16) + bx as int / 2,
            by < picture@.h / 8,
            bx < picture@.w / 8,
            reused(all, picture@, qmb@, by as int, bx as int, 0) == reused(
                all,
                picture@,
                qmb@,
                by as int,
                bx as int,
                i as int,
            ),
        decreases cands.len() - i,
    {
        let c: &Seen = cands[i];
        assert(cands@[i as int].wf());
        proof {
            c.picture.lemma_shape();
        }
        if c.picture.w == picture.w && c.picture.h == picture.h && c.qmb[m] == qmb[m] && block_same(
            &c.picture,
            picture,
            by,
            bx,
            1,
        ) {
            return Some(i);
        }
        i += 1;
    }
    None
}

/// Where the first `k` pixels of a picture, which a square of 32 cells covers, lie in their cells: the
/// sum of each channel in each cell.
pub open spec fn summed(p: Image, k: int) -> Seq<int>
    decreases k,
{
    if k <= 0 {
        Seq::new(4096, |i: int| 0int)
    } else {
        let (y, x) = ((k - 1) / p.w, (k - 1) % p.w);
        let b = (y * 32 / p.h * 32 + x * 32 / p.w) * 4;
        let t = summed(p, k - 1);
        Seq::new(
            4096,
            |i: int|
                if b <= i < b + 4 {
                    t[i] + p.at(i - b, y, x)
                } else {
                    t[i]
                },
        )
    }
}

/// A small picture of a picture.
pub open spec fn thumbnail(p: Image) -> Seq<int> {
    summed(p, p.h * p.w)
}

pub open spec fn wide(v: Seq<i64>) -> Seq<int> {
    Seq::new(v.len(), |i: int| v[i] as int)
}

proof fn lemma_cell(v: int, n: int)
    requires
        0 <= v < n,
    ensures
        0 <= v * 32 / n < 32,
{
    assert(0 <= v * 32 / n && v * 32 / n < 32) by (nonlinear_arith)
        requires
            0 <= v < n,
    ;
}

/// The most that a cell of a small picture can hold.
pub const BRIGHT: i64 = 0x4_0000_0000;

/// Makes a small picture of a picture.
pub fn thumb(p: &Planes) -> (t: Vec<i64>)
    requires
        p.wf(),
        shaped(p@),
    ensures
        wide(t@) == thumbnail(p@),
        t@.len() == 4096,
        forall|i: int| 0 <= i < 4096 ==> 0 <= #[trigger] t@[i] <= BRIGHT,
{
    proof {
        p.lemma_shape();
    }
    let (w, h) = (p.w, p.h);
    assert(0 <= h * w <= 8192 * 8192) by (nonlinear_arith)
        requires
            0 <= w <= 8192,
            0 <= h <= 8192,
    ;
    let n: usize = h * w;
    let mut t: Vec<i64> = vec![0i64; 4096];
    assert(wide(t@) =~= summed(p@, 0));
    let mut k: usize = 0;
    while k < n
        invariant
            k <= n <= 8192 * 8192,
            n == h * w,
            p.wf(),
            p@.w == w,
            p@.h == h,
            16 <= w <= 8192,
            16 <= h <= 8192,
            t@.len() == 4096,
            forall|i: int| 0 <= i < 4096 ==> 0 <= #[trigger] t@[i] <= 255 * k,
            wide(t@) == summed(p@, k as int),
        decreases n - k,
    {
        proof {
            assert(h * w == w * h) by (nonlinear_arith);
            lemma_block_place(k as int, w as int, h as int);
        }
        let (y, x) = (k / w, k % w);
        proof {
            lemma_cell(y as int, h as int);
            lemma_cell(x as int, w as int);
        }
        let b: usize = (y * 32 / h * 32 + x * 32 / w) * 4;
        let ghost before = t@;
        let mut c: usize = 0;
        while c < 4
            invariant
                c <= 4,
                k < n <= 8192 * 8192,
                b + 4 <= 4096,
                p.wf(),
                p@.w == w,
                p@.h == h,
                y < h,
                x < w,
                t@.len() == 4096,
                before.len() == 4096,
                forall|i: int| 0 <= i < 4096 ==> 0 <= #[trigger] before[i] <= 255 * k,
                forall|i: int|
                    0 <= i < 4096 ==> #[trigger] t@[i] == (if b <= i < b + c {
                        before[i] + p@.at(i - b, y as int, x as int)
                    } else {
                        before[i] as int
                    }),
            decreases 4 - c,
        {
            assert(t@[b + c] == before[b + c]);
            let v: i64 = p.get(c, y, x) as i64;
            t.set(b + c, t[b + c] + v);
            c += 1;
        }
        assert(wide(t@) =~= summed(p@, k + 1)) by {
            assert forall|i: int| 0 <= i < 4096 implies wide(t@)[i] == summed(p@, k + 1)[i] by {
                assert(wide(before)[i] == before[i]);
            }
        }
        assert forall|i: int| 0 <= i < 4096 implies 0 <= #[trigger] t@[i] <= 255 * (k + 1) by {
            assert(0 <= before[i] <= 255 * k);
        }
        k += 1;
    }
    t
}

}
