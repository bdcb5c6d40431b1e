//! Pictures of four channels, and how their pixels are predicted.

use vstd::prelude::*;

verus! {

/// The most rows, and the most columns, that a picture can have.
pub const MAX_SIDE: usize = 65536;

/// A picture: for every channel the rows, and for every row the pixels.
#[verifier::ext_equal]
pub struct Image {
    pub w: int,
    pub h: int,
    pub px: Seq<Seq<Seq<u8>>>,
}

impl Image {
    pub open spec fn blank(w: int, h: int) -> Image {
        Image {
            w,
            h,
            px: Seq::new(4, |c: int| Seq::new(h as nat, |y: int| Seq::new(w as nat, |x: int| 0u8))),
        }
    }

    pub open spec fn wf(self) -> bool {
        &&& 0 <= self.w
        &&& 0 <= self.h
        &&& self.px.len() == 4
        &&& forall|c: int| 0 <= c < 4 ==> (#[trigger] self.px[c]).len() == self.h
        &&& forall|c: int, y: int|
            0 <= c < 4 && 0 <= y < self.h ==> (#[trigger] self.px[c][y]).len() == self.w
    }

    pub open spec fn at(self, c: int, y: int, x: int) -> int {
        self.px[c][y][x] as int
    }

    pub open spec fn inside(self, c: int, y: int, x: int) -> bool {
        0 <= c < 4 && 0 <= y < self.h && 0 <= x < self.w
    }

    /// The picture with one pixel changed.
    pub open spec fn with(self, c: int, y: int, x: int, v: u8) -> Image {
        Image {
            px: self.px.update(c, self.px[c].update(y, self.px[c][y].update(x, v))),
            ..self
        }
    }

    /// The pixel nearest to a place, which may lie outside.
    pub open spec fn near(self, c: int, y: int, x: int) -> int {
        self.at(c, held(y, self.h), held(x, self.w))
    }

    /// The value at a place given in half pixels.
    pub open spec fn half(self, c: int, y2: int, x2: int) -> int {
        let (y, x) = (y2 / 2, x2 / 2);
        if y2 % 2 == 0 && x2 % 2 == 0 {
            self.near(c, y, x)
        } else if y2 % 2 == 0 {
            (self.near(c, y, x) + self.near(c, y, x + 1) + 1) / 2
        } else if x2 % 2 == 0 {
            (self.near(c, y, x) + self.near(c, y + 1, x) + 1) / 2
        } else {
            (self.near(c, y, x) + self.near(c, y, x + 1) + self.near(c, y + 1, x) + self.near(
                c,
                y + 1,
                x + 1,
            ) + 2) / 4
        }
    }
}

/// The place nearest to `v` among the first `n`.
pub open spec fn held(v: int, n: int) -> int {
    if v < 0 {
        0
    } else if v >= n {
        n - 1
    } else {
        v
    }
}

/// Two pictures that differ in at most one pixel.
pub proof fn lemma_with(i: Image, c: int, y: int, x: int, v: u8)
    requires
        i.wf(),
        i.inside(c, y, x),
    ensures
        i.with(c, y, x, v).wf(),
        i.with(c, y, x, v).at(c, y, x) == v,
        forall|d: int, b: int, a: int|
            i.inside(d, b, a) && (d != c || b != y || a != x) ==> #[trigger] i.with(c, y, x, v).at(
                d,
                b,
                a,
            ) == i.at(d, b, a),
{
    let j = i.with(c, y, x, v);
    assert forall|d: int, b: int| 0 <= d < 4 && 0 <= b < j.h implies (#[trigger] j.px[d][b]).len()
        == j.w by {
        assert(i.px[d][b].len() == i.w);
        if d == c {
            if b == y {
            }
        }
    }
}

/// A picture of four channels.
pub struct Planes {
    pub w: usize,
    pub h: usize,
    pub px: Vec<u8>,
}

/// Where a pixel stands among those of all channels.
pub open spec fn index(w: int, h: int, c: int, y: int, x: int) -> int {
    (c * h + y) * w + x
}

proof fn lemma_index(w: int, h: int, c: int, y: int, x: int)
    requires
        0 <= c < 4,
        0 <= y < h,
        0 <= x < w,
    ensures
        0 <= index(w, h, c, y, x) < 4 * (h * w),
        0 <= c * h + y < 4 * h,
        0 <= (c * h + y) * w <= index(w, h, c, y, x),
        index(w, h, c, y, x) / w == c * h + y,
        index(w, h, c, y, x) % w == x,
        (c * h + y) / h == c,
        (c * h + y) % h == y,
{
    assert(0 <= c * h + y < 4 * h) by (nonlinear_arith)
        requires
            0 <= c < 4,
            0 <= y < h,
    ;
    let r = c * h + y;
    assert(0 <= r * w && r * w + x < 4 * (h * w)) by (nonlinear_arith)
        requires
            0 <= r < 4 * h,
            0 <= x < w,
    ;
    vstd::arithmetic::div_mod::lemma_fundamental_div_mod_converse(r * w + x, w, r, x);
    vstd::arithmetic::div_mod::lemma_fundamental_div_mod_converse(c * h + y, h, c, y);
}

/// A picture whose pixels stand one after the other, channel by channel and row by row.
pub open spec fn image_of(w: int, h: int, px: Seq<u8>) -> Image {
    Image {
        w,
        h,
        px: Seq::new(
            4,
            |c: int| Seq::new(h as nat, |y: int| Seq::new(w as nat, |x: int| px[index(w, h, c, y, x)])),
        ),
    }
}

/// The pixels of a picture, channel by channel and row by row.
pub open spec fn flat_of(i: Image) -> Seq<u8> {
    Seq::new((4 * (i.h * i.w)) as nat, |k: int| i.px[k / i.w / i.h][k / i.w % i.h][k % i.w])
}

/// A picture comes back from its pixels.
pub proof fn law_pixels_restore(i: Image)
    requires
        i.wf(),
        1 <= i.w,
        1 <= i.h,
    ensures
        image_of(i.w, i.h, flat_of(i)) == i,
{
    let j = image_of(i.w, i.h, flat_of(i));
    assert forall|c: int| 0 <= c < 4 implies #[trigger] j.px[c] == i.px[c] by {
        assert forall|y: int| 0 <= y < i.h implies #[trigger] j.px[c][y] == i.px[c][y] by {
            assert forall|x: int| 0 <= x < i.w implies j.px[c][y][x] == i.px[c][y][x] by {
                lemma_index(i.w, i.h, c, y, x);
            }
            assert(i.px[c][y].len() == i.w);
            assert(j.px[c][y] =~= i.px[c][y]);
        }
        assert(i.px[c].len() == i.h);
        assert(j.px[c] =~= i.px[c]);
    }
    assert(j.px =~= i.px);
}

impl View for Planes {
    type V = Image;

    closed spec fn view(&self) -> Image {
        image_of(self.w as int, self.h as int, self.px@)
    }
}

impl Clone for Planes {
    fn clone(&self) -> (r: Self)
        ensures
            r@ == self@,
            r.wf() == self.wf(),
    {
        let r = Planes { w: self.w, h: self.h, px: self.px.clone() };
        assert(r.px@ =~= self.px@);
        r
    }
}

impl Planes {
    pub closed spec fn wf(&self) -> bool {
        self.px.len() == 4 * (self.h * self.w)
    }

    /// A picture whose pixels are all zero.
    pub fn new(w: usize, h: usize) -> (r: Self)
        requires
            4 * (h * w) <= usize::MAX,
        ensures
            r.wf(),
            r@ == Image::blank(w as int, h as int),
            r@.wf(),
    {
        assert(h * w <= usize::MAX && h * w >= 0) by (nonlinear_arith)
            requires
                4 * (h * w) <= usize::MAX,
                h >= 0,
                w >= 0,
        ;
        let n: usize = h * w;
        let r = Planes { w, h, px: vec![0u8; 4 * n] };
        proof {
            assert forall|c: int, y: int, x: int|
                0 <= c < 4 && 0 <= y < h && 0 <= x < w implies r.px@[#[trigger] index(
                w as int,
                h as int,
                c,
                y,
                x,
            )] == 0 by {
                lemma_index(w as int, h as int, c, y, x);
            }
            assert(r@.px =~~= Image::blank(w as int, h as int).px);
        }
        r
    }

    /// The bytes of a picture, which its view is made of.
    pub proof fn lemma_bytes(&self)
        ensures
            self@ == image_of(self.w as int, self.h as int, self.px@),
            self.wf() == (self.px@.len() == 4 * (self.h * self.w)),
    {
    }

    /// The pixels of a picture stand as its view has them.
    pub proof fn lemma_flat(&self)
        requires
            self.wf(),
            1 <= self.w,
            1 <= self.h,
        ensures
            self.px@ == flat_of(self@),
    {
        let (w, h) = (self.w as int, self.h as int);
        assert forall|k: int| 0 <= k < 4 * (h * w) implies self.px@[k] == flat_of(self@)[k] by {
            let r = k / w;
            let (c, y, x) = (r / h, r % h, k % w);
            vstd::arithmetic::div_mod::lemma_fundamental_div_mod(k, w);
            vstd::arithmetic::div_mod::lemma_fundamental_div_mod(r, h);
            assert(0 <= r < 4 * h) by (nonlinear_arith)
                requires
                    r == k / w,
                    0 <= k < 4 * (h * w),
                    w >= 1,
            ;
            assert(0 <= c < 4) by (nonlinear_arith)
                requires
                    c == r / h,
                    0 <= r < 4 * h,
                    h >= 1,
            ;
            assert(c * h + y == r && r * w + x == k) by (nonlinear_arith)
                requires
                    r == h * c + y,
                    k == w * r + x,
            ;
        }
        assert(self.px@ =~= flat_of(self@));
    }

    /// The shape of a picture, which its view shares.
    pub proof fn lemma_shape(&self)
        ensures
            self@.wf(),
            self@.w == self.w,
            self@.h == self.h,
    {
    }

    /// The pixels of a picture have room in memory.
    pub proof fn lemma_room(&self)
        requires
            self.wf(),
        ensures
            4 * (self.h * self.w) <= usize::MAX,
    {
    }

    pub fn get(&self, c: usize, y: usize, x: usize) -> (v: u8)
        requires
            self.wf(),
            self@.inside(c as int, y as int, x as int),
        ensures
            v == self@.px[c as int][y as int][x as int],
            v == self@.at(c as int, y as int, x as int),
    {
        proof {
            lemma_index(self.w as int, self.h as int, c as int, y as int, x as int);
            assert(c * self.h <= c * self.h + y);
            assert(0 <= c * self.h) by (nonlinear_arith)
                requires
                    c >= 0,
                    self.h >= 0,
            ;
            assert(4 * self.h <= 4 * (self.h * self.w)) by (nonlinear_arith)
                requires
                    self.w >= 1,
                    self.h >= 0,
            ;
        }
        self.px[(c * self.h + y) * self.w + x]
    }

    pub fn set(&mut self, c: usize, y: usize, x: usize, v: u8)
        requires
            old(self).wf(),
            old(self)@.inside(c as int, y as int, x as int),
        ensures
            final(self).wf(),
            final(self)@ == old(self)@.with(c as int, y as int, x as int, v),
    {
        let ghost (w, h) = (self.w as int, self.h as int);
        proof {
            lemma_index(w, h, c as int, y as int, x as int);
            assert(0 <= c * h) by (nonlinear_arith)
                requires
                    c >= 0,
                    h >= 0,
            ;
            assert(4 * h <= 4 * (h * w)) by (nonlinear_arith)
                requires
                    w >= 1,
                    h >= 0,
            ;
        }
        let at: usize = (c * self.h + y) * self.w + x;
        self.px[at] = v;
        proof {
            let then = old(self)@.with(c as int, y as int, x as int, v);
            assert forall|d: int, b: int, a: int| #[trigger]
                self@.inside(d, b, a) implies self@.px[d][b][a] == then.px[d][b][a] by {
                lemma_index(w, h, d, b, a);
            }
            assert forall|d: int| 0 <= d < 4 implies #[trigger] self@.px[d] == then.px[d] by {
                assert forall|b: int| 0 <= b < h implies #[trigger] self@.px[d][b] == then.px[d][b] by {
                    assert forall|a: int| 0 <= a < w implies self@.px[d][b][a] == then.px[d][b][a] by {
                        assert(self@.inside(d, b, a));
                    }
                    assert(self@.px[d][b] =~= then.px[d][b]);
                }
                assert(self@.px[d] =~= then.px[d]);
            }
            assert(self@.px =~= then.px);
        }
    }

    /// The pixel nearest to a place.
    fn near(&self, c: usize, y: i64, x: i64) -> (v: i32)
        requires
            self.wf(),
            c < 4,
            1 <= self.w <= MAX_SIDE,
            1 <= self.h <= MAX_SIDE,
        ensures
            v == self@.near(c as int, y as int, x as int),
            0 <= v <= 255,
    {
        let y = hold(y, self.h);
        let x = hold(x, self.w);
        self.get(c, y, x) as i32
    }

    /// The value at a place given in half pixels.
    pub fn half(&self, c: usize, y2: i64, x2: i64) -> (v: i32)
        requires
            self.wf(),
            c < 4,
            1 <= self.w <= MAX_SIDE,
            1 <= self.h <= MAX_SIDE,
            -0x4000_0000_0000_0000 <= y2 <= 0x4000_0000_0000_0000,
            -0x4000_0000_0000_0000 <= x2 <= 0x4000_0000_0000_0000,
        ensures
            v == self@.half(c as int, y2 as int, x2 as int),
            0 <= v <= 255,
    {
        let (y, x) = (halve(y2), halve(x2));
        let low: bool = y2 - 2 * y == 0;
        let left: bool = x2 - 2 * x == 0;
        if low && left {
            self.near(c, y, x)
        } else if low {
            (self.near(c, y, x) + self.near(c, y, x + 1) + 1) / 2
        } else if left {
            (self.near(c, y, x) + self.near(c, y + 1, x) + 1) / 2
        } else {
            (self.near(c, y, x) + self.near(c, y, x + 1) + self.near(c, y + 1, x) + self.near(
                c,
                y + 1,
                x + 1,
            ) + 2) / 4
        }
    }
}

fn hold(v: i64, n: usize) -> (r: usize)
    requires
        1 <= n <= MAX_SIDE,
    ensures
        r == held(v as int, n as int),
{
    if v < 0 {
        0
    } else if v >= n as i64 {
        n - 1
    } else {
        v as usize
    }
}

fn halve(n: i64) -> (r: i64)
    requires
        n > i64::MIN,
    ensures
        r == n as int / 2,
{
    if n >= 0 {
        n / 2
    } else {
        -((-(n + 1)) / 2) - 1
    }
}

/// How a block is predicted: not at all, since it equals that of the last picture; from its
/// neighbours; from another picture; or from how its neighbours differ from another picture.
pub const SAME: usize = 0;

pub const SPATIAL: usize = 1;

pub const TCOPY: usize = 2;

pub const TGRAD: usize = 3;

/// How far, in half pixels, a block has moved.
#[derive(Clone, Copy, PartialEq, Eq, Structural)]
pub struct Shift {
    pub dy: i64,
    pub dx: i64,
}

impl Shift {
    pub open spec fn below(self, n: int) -> bool {
        -n <= self.dy <= n && -n <= self.dx <= n
    }
}

/// The median of `a`, `b` and `a + b - c`.
pub open spec fn med(a: int, b: int, c: int) -> int {
    let (mn, mx) = if a < b {
        (a, b)
    } else {
        (b, a)
    };
    if c >= mx {
        mn
    } else if c <= mn {
        mx
    } else {
        a + b - c
    }
}

/// A number between -128 and 127 that differs from `e` by a multiple of 256.
pub open spec fn wrapped(e: int) -> int {
    (e + 128) % 256 - 128
}

/// What a pixel is predicted from alone.
pub open spec fn ground(cur: Image, rf: Image, mode: usize, mv: Shift, c: int, y: int, x: int) -> int {
    if mode != SPATIAL {
        rf.half(c, 2 * y + mv.dy, 2 * x + mv.dx)
    } else if c >= 2 {
        cur.at(1, y, x)
    } else {
        0
    }
}

/// How a pixel differs from its ground.
pub open spec fn rise(cur: Image, rf: Image, mode: usize, mv: Shift, c: int, y: int, x: int) -> int {
    cur.at(c, y, x) - ground(cur, rf, mode, mv, c, y, x)
}

/// What a pixel is expected to be, by the ones to its left and above it, of which none above row
/// `top` is known.
pub open spec fn predicted(
    cur: Image,
    rf: Image,
    top: int,
    mode: usize,
    mv: Shift,
    c: int,
    y: int,
    x: int,
) -> int {
    let base = ground(cur, rf, mode, mv, c, y, x);
    if mode == TCOPY {
        base
    } else if y > top && x > 0 {
        base + med(
            rise(cur, rf, mode, mv, c, y, x - 1),
            rise(cur, rf, mode, mv, c, y - 1, x),
            rise(cur, rf, mode, mv, c, y - 1, x - 1),
        )
    } else if y > top {
        base + rise(cur, rf, mode, mv, c, y - 1, x)
    } else if x > 0 {
        base + rise(cur, rf, mode, mv, c, y, x - 1)
    } else {
        base
    }
}

fn middle(a: i32, b: i32, c: i32) -> (r: i32)
    requires
        -1000 <= a <= 1000,
        -1000 <= b <= 1000,
        -1000 <= c <= 1000,
    ensures
        r == med(a as int, b as int, c as int),
        -3000 <= r <= 3000,
{
    let (mn, mx): (i32, i32) = if a < b {
        (a, b)
    } else {
        (b, a)
    };
    if c >= mx {
        mn
    } else if c <= mn {
        mx
    } else {
        a + b - c
    }
}

pub fn wrap(e: i32) -> (r: i32)
    requires
        -1_000_000 <= e <= 1_000_000,
    ensures
        r == wrapped(e as int),
        -128 <= r <= 127,
{
    let n: i32 = (e + 1_048_576 + 128) % 256;
    n - 128
}

fn find_ground(cur: &Planes, rf: &Planes, mode: usize, mv: Shift, c: usize, y: usize, x: usize) -> (v:
    i32)
    requires
        cur.wf(),
        rf.wf(),
        cur@.inside(c as int, y as int, x as int),
        cur.w <= MAX_SIDE,
        cur.h <= MAX_SIDE,
        1 <= rf.w <= MAX_SIDE,
        1 <= rf.h <= MAX_SIDE,
        mv.below(0x1000_0000_0000_0000),
    ensures
        v == ground(cur@, rf@, mode, mv, c as int, y as int, x as int),
        0 <= v <= 255,
{
    if mode != SPATIAL {
        rf.half(c, 2 * y as i64 + mv.dy, 2 * x as i64 + mv.dx)
    } else if c >= 2 {
        cur.get(1, y, x) as i32
    } else {
        0
    }
}

fn find_rise(cur: &Planes, rf: &Planes, mode: usize, mv: Shift, c: usize, y: usize, x: usize) -> (v: i32)
    requires
        cur.wf(),
        rf.wf(),
        cur@.inside(c as int, y as int, x as int),
        cur.w <= MAX_SIDE,
        cur.h <= MAX_SIDE,
        1 <= rf.w <= MAX_SIDE,
        1 <= rf.h <= MAX_SIDE,
        mv.below(0x1000_0000_0000_0000),
    ensures
        v == rise(cur@, rf@, mode, mv, c as int, y as int, x as int),
        -255 <= v <= 255,
{
    cur.get(c, y, x) as i32 - find_ground(cur, rf, mode, mv, c, y, x)
}

/// Predicts a pixel.
pub fn predict(
    cur: &Planes,
    rf: &Planes,
    top: usize,
    mode: usize,
    mv: Shift,
    c: usize,
    y: usize,
    x: usize,
) -> (v: i32)
    requires
        cur.wf(),
        rf.wf(),
        cur@.inside(c as int, y as int, x as int),
        cur.w <= MAX_SIDE,
        cur.h <= MAX_SIDE,
        1 <= rf.w <= MAX_SIDE,
        1 <= rf.h <= MAX_SIDE,
        mv.below(0x1000_0000_0000_0000),
    ensures
        v == predicted(cur@, rf@, top as int, mode, mv, c as int, y as int, x as int),
        -4000 <= v <= 4000,
{
    let base = find_ground(cur, rf, mode, mv, c, y, x);
    if mode == TCOPY {
        base
    } else if y > top && x > 0 {
        base + middle(
            find_rise(cur, rf, mode, mv, c, y, x - 1),
            find_rise(cur, rf, mode, mv, c, y - 1, x),
            find_rise(cur, rf, mode, mv, c, y - 1, x - 1),
        )
    } else if y > top {
        base + find_rise(cur, rf, mode, mv, c, y - 1, x)
    } else if x > 0 {
        base + find_rise(cur, rf, mode, mv, c, y, x - 1)
    } else {
        base
    }
}

/// A prediction and a wrapped error make up the pixel.
pub proof fn law_error_restores(v: u8, p: int)
    ensures
        (p + wrapped(v - p)) % 256 == v,
        -128 <= wrapped(v - p) <= 127,
{
}

}
