//! The arithmetic code of predicted pixels: each pixel is coded bit by bit, in the light of the
//! pixel to its left, the pixel above, and the prediction.

use crate::gif_split::{GifFrame, LIMIT};
use crate::monitor::{Monitor, Share};
use crate::source_rc::{Dec, Enc, Reading, Writing};
use crate::wire::{fail, Outcome};
use vstd::prelude::*;

verus! {

/// How many contexts a pair of neighbours gives.
pub const PAIRS: usize = 0x100_0000;

/// How many contexts one neighbour gives.
pub const SINGLES: usize = 0x1_0000;

/// What is known of the bits: for each context of two neighbours a probability and a count, and
/// for each context of one neighbour a probability.
#[verifier::ext_equal]
pub struct Memory {
    pub p: Seq<u16>,
    pub n: Seq<u8>,
    pub low: Seq<u16>,
}

/// One memory for each pair among left, above and predicted, and each one of them.
#[verifier::ext_equal]
pub struct Trio {
    pub a: Memory,
    pub b: Memory,
    pub c: Memory,
}

/// A probability after the bit `b` was seen.
pub open spec fn nudged(p: int, b: bool) -> int {
    let v = if b {
        if p / 4 > 1 {
            p - p / 4
        } else {
            p - 1
        }
    } else {
        if (4096 - p) / 4 > 1 {
            p + (4096 - p) / 4
        } else {
            p + 1
        }
    };
    if v < 1 {
        1
    } else if v > 4095 {
        4095
    } else {
        v
    }
}

impl Memory {
    pub open spec fn start() -> Memory {
        Memory {
            p: Seq::new(PAIRS as nat, |i: int| 2048u16),
            n: Seq::new(PAIRS as nat, |i: int| 0u8),
            low: Seq::new(SINGLES as nat, |i: int| 2048u16),
        }
    }

    pub open spec fn wf(self) -> bool {
        &&& self.p.len() == PAIRS
        &&& self.n.len() == PAIRS
        &&& self.low.len() == SINGLES
        &&& forall|i: int| 0 <= i < PAIRS ==> 0 < #[trigger] self.p[i] < 4096
        &&& forall|i: int| 0 <= i < SINGLES ==> 0 < #[trigger] self.low[i] < 4096
    }

    /// The probability of a context, where `low` is what single neighbours say.
    pub open spec fn chance(self, at: int, low: int) -> int {
        (self.p[at] * self.n[at] + low * 32) / (self.n[at] + 32)
    }

    /// What is known after the bit `b` was seen.
    pub open spec fn learned(self, pair: int, single: int, b: bool) -> Memory {
        Memory {
            p: self.p.update(pair, nudged(self.p[pair] as int, b) as u16),
            n: self.n.update(
                pair,
                if self.n[pair] < 255 {
                    (self.n[pair] + 1) as u8
                } else {
                    255u8
                },
            ),
            low: self.low.update(single, nudged(self.low[single] as int, b) as u16),
        }
    }
}

/// The number of a context: two neighbours, and the bits that came before.
pub open spec fn pair_at(x: int, y: int, pre: int) -> int {
    (x * 256 + y) * 256 + pre
}

impl Trio {
    pub open spec fn start() -> Trio {
        Trio { a: Memory::start(), b: Memory::start(), c: Memory::start() }
    }

    pub open spec fn wf(self) -> bool {
        self.a.wf() && self.b.wf() && self.c.wf()
    }

    /// The probability, out of 4096, that the next bit of a pixel is 0.
    pub open spec fn odds(self, l: int, u: int, g: int, pre: int) -> int {
        let x = self.a.low[l * 256 + pre] as int;
        let y = self.b.low[u * 256 + pre] as int;
        let z = self.c.low[g * 256 + pre] as int;
        let v = (self.a.chance(pair_at(l, u, pre), (x + y) / 2) + self.b.chance(
            pair_at(l, g, pre),
            (x + z) / 2,
        ) + self.c.chance(pair_at(u, g, pre), (y + z) / 2)) / 3;
        if v < 1 {
            1
        } else if v > 4095 {
            4095
        } else {
            v
        }
    }

    /// What is known after a bit of a pixel.
    pub open spec fn learned(self, l: int, u: int, g: int, pre: int, b: bool) -> Trio {
        Trio {
            a: self.a.learned(pair_at(l, u, pre), l * 256 + pre, b),
            b: self.b.learned(pair_at(l, g, pre), u * 256 + pre, b),
            c: self.c.learned(pair_at(u, g, pre), g * 256 + pre, b),
        }
    }
}

/// The pixel to the left of number `i`, or 0 at the edge.
pub open spec fn left_of(px: Seq<u8>, w: int, i: int) -> int {
    if i % w != 0 {
        px[i - 1] as int
    } else {
        0
    }
}

/// The pixel above number `i`, or 0 at the edge.
pub open spec fn above(px: Seq<u8>, w: int, i: int) -> int {
    if i >= w {
        px[i - w] as int
    } else {
        0
    }
}

/// Writes the last `k` bits of a pixel, which are the top bits of `v`.
pub open spec fn put_bits(t: Trio, s: Writing, l: int, u: int, g: int, v: int, pre: int, k: int) -> (Trio, Writing)
    decreases k,
{
    if k <= 0 {
        (t, s)
    } else {
        let b = v >= 128;
        put_bits(
            t.learned(l, u, g, pre, b),
            s.bit(t.odds(l, u, g, pre) as u16, b),
            l,
            u,
            g,
            v % 128 * 2,
            pre * 2 + if b {
                1int
            } else {
                0
            },
            k - 1,
        )
    }
}

/// Writes the pixels of a frame from number `i` on.
pub open spec fn put_from(t: Trio, s: Writing, f: crate::gif_split::Shot, guess: Seq<u8>, i: int) -> Outcome<
    (Trio, Writing),
>
    decreases f.pixels.len() - i,
{
    if i < 0 || i >= f.pixels.len() {
        Ok((t, s))
    } else if i % (f.w * 16) == 0 && s.out.len() > LIMIT {
        Err("GIF arithmetic output exceeds limit"@)
    } else {
        let (t1, s1) = put_bits(
            t,
            s,
            left_of(f.pixels, f.w, i),
            above(f.pixels, f.w, i),
            guess[i] as int,
            f.pixels[i] as int,
            1,
            8,
        );
        put_from(t1, s1, f, guess, i + 1)
    }
}

/// Writes the frames from number `k` on.
pub open spec fn put_frames(
    t: Trio,
    s: Writing,
    frames: Seq<crate::gif_split::Shot>,
    guesses: Seq<Seq<u8>>,
    k: int,
) -> Outcome<Writing>
    decreases frames.len() - k,
{
    if k < 0 || k >= frames.len() {
        Ok(s)
    } else {
        match put_from(t, s, frames[k], guesses[k], 0) {
            Err(e) => Err(e),
            Ok((t1, s1)) => put_frames(t1, s1, frames, guesses, k + 1),
        }
    }
}

/// The code of the pixels of all frames.
pub open spec fn coded(frames: Seq<crate::gif_split::Shot>, guesses: Seq<Seq<u8>>) -> Outcome<Seq<u8>> {
    match put_frames(Trio::start(), Writing::start(), frames, guesses, 0) {
        Err(e) => Err(e),
        Ok(s) => if s.finish().len() > LIMIT {
            Err("GIF arithmetic output exceeds limit"@)
        } else {
            Ok(s.finish())
        },
    }
}

/// Reads `k` bits of a pixel.
pub open spec fn get_bits(t: Trio, s: Reading, l: int, u: int, g: int, pre: int, k: int) -> Option<
    (Trio, Reading, int),
>
    decreases k,
{
    if k <= 0 {
        Some((t, s, pre))
    } else {
        let q = t.odds(l, u, g, pre) as u16;
        let b = s.points(q);
        match s.strict_bit(q) {
            None => None,
            Some(next) => get_bits(
                t.learned(l, u, g, pre, b),
                next,
                l,
                u,
                g,
                pre * 2 + if b {
                    1int
                } else {
                    0
                },
                k - 1,
            ),
        }
    }
}

/// Reads the pixels of a frame that follow those before.
pub open spec fn get_from(
    t: Trio,
    s: Reading,
    w: int,
    colours: int,
    guess: Seq<u8>,
    done: Seq<u8>,
) -> Outcome<(Trio, Reading, Seq<u8>)>
    decreases guess.len() - done.len(),
{
    let i = done.len() as int;
    if i >= guess.len() {
        Ok((t, s, done))
    } else {
        match get_bits(t, s, left_of(done, w, i), above(done, w, i), guess[i] as int, 1, 8) {
            None => Err("Truncated GIF arithmetic stream"@),
            Some((t1, s1, pre)) => if pre - 256 >= colours {
                Err("Decoded GIF index exceeds palette"@)
            } else {
                get_from(t1, s1, w, colours, guess, done.push((pre - 256) as u8))
            },
        }
    }
}

/// Reads the pixels of the frames that follow those before.
pub open spec fn get_frames(
    t: Trio,
    s: Reading,
    frames: Seq<crate::gif_split::Shot>,
    guesses: Seq<Seq<u8>>,
    done: Seq<crate::gif_split::Shot>,
) -> Outcome<(Reading, Seq<crate::gif_split::Shot>)>
    decreases frames.len() - done.len(),
{
    let k = done.len() as int;
    if k >= frames.len() {
        Ok((s, done))
    } else {
        let f = frames[k];
        match get_from(t, s, f.w, f.palette.len() as int / 3, guesses[k], Seq::empty()) {
            Err(e) => Err(e),
            Ok((t1, s1, pixels)) => get_frames(
                t1,
                s1,
                frames,
                guesses,
                done.push(crate::gif_split::Shot { pixels, ..f }),
            ),
        }
    }
}

/// The frames with the pixels that a code stands for.
pub open spec fn decoded(frames: Seq<crate::gif_split::Shot>, guesses: Seq<Seq<u8>>, code: Seq<u8>) -> Outcome<
    Seq<crate::gif_split::Shot>,
> {
    if code.len() < 5 {
        Err("Truncated GIF arithmetic stream"@)
    } else if code[0] != 0 {
        Err("Invalid GIF arithmetic prefix"@)
    } else {
        match get_frames(Trio::start(), Reading::start(code), frames, guesses, Seq::empty()) {
            Err(e) => Err(e),
            Ok((s, done)) => if s.pos != code.len() {
                Err("Trailing GIF arithmetic bytes"@)
            } else {
                Ok(done)
            },
        }
    }
}

fn nudge(p: u16, b: bool) -> (r: u16)
    requires
        0 < p < 4096,
    ensures
        r == nudged(p as int, b),
        0 < r < 4096,
{
    let v: u16 = if b {
        if p / 4 > 1 {
            p - p / 4
        } else {
            p - 1
        }
    } else {
        if (4096 - p) / 4 > 1 {
            p + (4096 - p) / 4
        } else {
            p + 1
        }
    };
    if v < 1 {
        1
    } else if v > 4095 {
        4095
    } else {
        v
    }
}

struct Table {
    p: Vec<u16>,
    n: Vec<u8>,
    low: Vec<u16>,
}

impl View for Table {
    type V = Memory;

    closed spec fn view(&self) -> Memory {
        Memory { p: self.p@, n: self.n@, low: self.low@ }
    }
}

impl Table {
    fn new() -> (t: Self)
        ensures
            t@ == Memory::start(),
            t@.wf(),
    {
        let t = Table {
            p: vec![2048u16; PAIRS],
            n: vec![0u8; PAIRS],
            low: vec![2048u16; SINGLES],
        };
        assert(t@ =~= Memory::start());
        t
    }

    fn chance(&self, at: usize, low: u32) -> (v: u32)
        requires
            self@.wf(),
            at < PAIRS,
            low < 4096,
        ensures
            v == self@.chance(at as int, low as int),
            v < 4096,
    {
        let n: u32 = self.n[at] as u32;
        let p: u32 = self.p[at] as u32;
        assert(0 <= p * n && p * n + low * 32 < 4096 * (n + 32) && p * n <= 4095 * 255)
            by (nonlinear_arith)
            requires
                0 <= p < 4096,
                0 <= n <= 255,
                0 <= low < 4096,
        ;
        let v: u32 = (p * n + low * 32) / (n + 32);
        assert(v < 4096) by (nonlinear_arith)
            requires
                v == (p * n + low * 32) / (n + 32),
                p * n + low * 32 < 4096 * (n + 32),
                0 <= p * n,
        ;
        v
    }

    fn learn(&mut self, pair: usize, single: usize, b: bool)
        requires
            old(self)@.wf(),
            pair < PAIRS,
            single < SINGLES,
        ensures
            final(self)@ == old(self)@.learned(pair as int, single as int, b),
            final(self)@.wf(),
    {
        self.p.set(pair, nudge(self.p[pair], b));
        let n: u8 = self.n[pair];
        self.n.set(
            pair,
            if n < 255 {
                n + 1
            } else {
                255
            },
        );
        self.low.set(single, nudge(self.low[single], b));
        assert(self@ =~= old(self)@.learned(pair as int, single as int, b));
    }
}

struct Model {
    a: Table,
    b: Table,
    c: Table,
}

impl View for Model {
    type V = Trio;

    closed spec fn view(&self) -> Trio {
        Trio { a: self.a@, b: self.b@, c: self.c@ }
    }
}

impl Model {
    fn new() -> (m: Self)
        ensures
            m@ == Trio::start(),
            m@.wf(),
    {
        Model { a: Table::new(), b: Table::new(), c: Table::new() }
    }

    fn odds(&self, l: usize, u: usize, g: usize, pre: usize) -> (v: u16)
        requires
            self@.wf(),
            l < 256,
            u < 256,
            g < 256,
            pre < 256,
        ensures
            v == self@.odds(l as int, u as int, g as int, pre as int),
            crate::source_rc::open_slot(v),
    {
        let x: u32 = self.a.low[l * 256 + pre] as u32;
        let y: u32 = self.b.low[u * 256 + pre] as u32;
        let z: u32 = self.c.low[g * 256 + pre] as u32;
        assert(0 < self.a@.low[l * 256 + pre] < 4096);
        assert(0 < self.b@.low[u * 256 + pre] < 4096);
        assert(0 < self.c@.low[g * 256 + pre] < 4096);
        let v: u32 = (self.a.chance((l * 256 + u) * 256 + pre, (x + y) / 2) + self.b.chance(
            (l * 256 + g) * 256 + pre,
            (x + z) / 2,
        ) + self.c.chance((u * 256 + g) * 256 + pre, (y + z) / 2)) / 3;
        if v < 1 {
            1
        } else if v > 4095 {
            4095
        } else {
            v as u16
        }
    }

    fn learn(&mut self, l: usize, u: usize, g: usize, pre: usize, b: bool)
        requires
            old(self)@.wf(),
            l < 256,
            u < 256,
            g < 256,
            pre < 256,
        ensures
            final(self)@ == old(self)@.learned(l as int, u as int, g as int, pre as int, b),
            final(self)@.wf(),
    {
        self.a.learn((l * 256 + u) * 256 + pre, l * 256 + pre, b);
        self.b.learn((l * 256 + g) * 256 + pre, u * 256 + pre, b);
        self.c.learn((u * 256 + g) * 256 + pre, g * 256 + pre, b);
    }
}

/// Whether `pre` can come up when `k` bits of a pixel are left.
spec fn prefix(pre: int, k: int) -> bool {
    &&& 0 <= k <= 8
    &&& k == 8 ==> pre == 1
    &&& k == 7 ==> 2 <= pre < 4
    &&& k == 6 ==> 4 <= pre < 8
    &&& k == 5 ==> 8 <= pre < 16
    &&& k == 4 ==> 16 <= pre < 32
    &&& k == 3 ==> 32 <= pre < 64
    &&& k == 2 ==> 64 <= pre < 128
    &&& k == 1 ==> 128 <= pre < 256
    &&& k == 0 ==> 256 <= pre < 512
}

fn write_pixel(m: &mut Model, e: &mut Enc, l: usize, u: usize, g: usize, value: u8)
    requires
        old(m)@.wf(),
        old(e)@.wf(),
        old(e).cache_size < u64::MAX - 64,
        l < 256,
        u < 256,
        g < 256,
    ensures
        final(m)@.wf(),
        final(e)@.wf(),
        final(e).cache_size <= old(e).cache_size + 16,
        put_bits(old(m)@, old(e)@, l as int, u as int, g as int, value as int, 1, 8) == (
            final(m)@,
            final(e)@,
        ),
{
    let ghost whole = put_bits(m@, e@, l as int, u as int, g as int, value as int, 1, 8);
    let mut v: u32 = value as u32;
    let mut pre: usize = 1;
    let mut k: usize = 8;
    while k > 0
        invariant
            prefix(pre as int, k as int),
            m@.wf(),
            e@.wf(),
            e.cache_size <= old(e).cache_size + 2 * (8 - k),
            old(e).cache_size < u64::MAX - 64,
            l < 256,
            u < 256,
            g < 256,
            v < 256,
            whole == put_bits(old(m)@, old(e)@, l as int, u as int, g as int, value as int, 1, 8),
            whole == put_bits(m@, e@, l as int, u as int, g as int, v as int, pre as int, k as int),
        decreases k,
    {
        let b: bool = v >= 128;
        e.code(m.odds(l, u, g, pre), b);
        m.learn(l, u, g, pre, b);
        pre = pre * 2 + if b {
            1
        } else {
            0
        };
        v = v % 128 * 2;
        k -= 1;
    }
}

fn read_pixel(m: &mut Model, d: &mut Dec<'_>, l: usize, u: usize, g: usize) -> (r: Option<usize>)
    requires
        old(m)@.wf(),
        old(d)@.wf(),
        l < 256,
        u < 256,
        g < 256,
    ensures
        final(d).data == old(d).data,
        match r {
            Some(pre) => final(m)@.wf() && final(d)@.wf() && 256 <= pre < 512 && get_bits(
                old(m)@,
                old(d)@,
                l as int,
                u as int,
                g as int,
                1,
                8,
            ) == Some((final(m)@, final(d)@, pre as int)),
            None => get_bits(old(m)@, old(d)@, l as int, u as int, g as int, 1, 8) is None,
        },
{
    let ghost whole = get_bits(m@, d@, l as int, u as int, g as int, 1, 8);
    let mut pre: usize = 1;
    let mut k: usize = 8;
    while k > 0
        invariant
            prefix(pre as int, k as int),
            m@.wf(),
            d@.wf(),
            d.data == old(d).data,
            l < 256,
            u < 256,
            g < 256,
            whole == get_bits(old(m)@, old(d)@, l as int, u as int, g as int, 1, 8),
            whole == get_bits(m@, d@, l as int, u as int, g as int, pre as int, k as int),
        decreases k,
    {
        let b: bool = match d.strict(m.odds(l, u, g, pre)) {
            None => {
                return None;
            },
            Some(b) => b,
        };
        m.learn(l, u, g, pre, b);
        pre = pre * 2 + if b {
            1
        } else {
            0
        };
        k -= 1;
    }
    Some(pre)
}

/// How much is done before pixel `i` of `n` of frame `k` of `count`, of a million.
fn mark(k: usize, count: usize, i: usize, n: usize) -> (at: u64)
    requires
        k < count,
        i < n <= 90000,
        count <= 0x1_0000_0000,
    ensures
        at <= 1_000_000,
{
    let c: u64 = count as u64;
    assert(k * 997_000 <= 0x1_0000_0000 * 997_000);
    let base: u64 = 2000 + k as u64 * 997_000 / c;
    let span: u64 = 997_000 / c;
    assert(base + span <= 999_000) by (nonlinear_arith)
        requires
            base == 2000 + (k as u64 * 997_000) / c as int,
            span == 997_000int / c as int,
            0 <= k < c,
    ;
    assert(span / 2 * i <= 500_000 * 90000) by (nonlinear_arith)
        requires
            0 <= span / 2 <= 500_000,
            0 <= i <= 90000,
    ;
    let part: u64 = span / 2 * i as u64 / n as u64;
    assert(part <= span / 2) by (nonlinear_arith)
        requires
            part == (span / 2 * i as u64) / n as int,
            0 <= i < n,
    ;
    base + span / 2 + part
}

fn write_frame<M: Monitor>(
    m: &mut Model,
    e: &mut Enc,
    f: &GifFrame,
    guess: &[u8],
    k: usize,
    count: usize,
    progress: &mut M,
    share: &Share,
) -> (r: Result<(), String>)
    requires
        old(m)@.wf(),
        old(e)@.wf(),
        old(e).cache_size <= 1 + 1_440_000 * k,
        k < count <= crate::gif_split::MAX_FRAMES,
        f@.wf(),
        guess@.len() == f@.pixels.len(),
        share.fits(),
        !old(progress).stopped(),
    ensures
        match r {
            Ok(_) => !final(progress).stopped() && final(m)@.wf() && final(e)@.wf() && final(e).cache_size
                <= 1 + 1_440_000 * (k + 1) && put_from(old(m)@, old(e)@, f@, guess@, 0) == Ok::<
                (Trio, Writing),
                Seq<char>,
            >((final(m)@, final(e)@)),
            Err(x) => Err::<(Trio, Writing), Seq<char>>(x@) == crate::wire::unless(
                final(progress).stopped(),
                put_from(old(m)@, old(e)@, f@, guess@, 0),
            ),
        },
{
    let ghost whole = put_from(m@, e@, f@, guess@, 0);
    assert(f@.w * f@.h <= 90000) by (nonlinear_arith)
        requires
            1 <= f@.w <= 300,
            1 <= f@.h <= 300,
    ;
    let w: usize = f.w;
    let n: usize = f.pixels.len();
    let mut i: usize = 0;
    while i < n
        invariant
            i <= n <= 90000,
            n == f.pixels.len(),
            w == f.w,
            1 <= w <= 300,
            f@.wf(),
            guess@.len() == n,
            k < count <= crate::gif_split::MAX_FRAMES,
            m@.wf(),
            e@.wf(),
            e.cache_size <= 1 + 1_440_000 * k + 16 * i,
            share.fits(),
            !progress.stopped(),
            whole == put_from(old(m)@, old(e)@, f@, guess@, 0),
            whole == put_from(m@, e@, f@, guess@, i as int),
        decreases n - i,
    {
        if i % (w * 16) == 0 {
            if !share.report(progress, mark(k, count, i, n), 1_000_000) {
                return Err(fail("error.cancelled"));
            }
            if e.out.len() > LIMIT {
                return Err(fail("GIF arithmetic output exceeds limit"));
            }
        }
        proof {
            if i == 0 {
                assert(0int % w as int == 0) by (nonlinear_arith)
                    requires
                        w >= 1,
                ;
            }
        }
        let l: usize = if i % w != 0 {
            f.pixels[i - 1] as usize
        } else {
            0
        };
        let u: usize = if i >= w {
            f.pixels[i - w] as usize
        } else {
            0
        };
        write_pixel(m, e, l, u, guess[i] as usize, f.pixels[i]);
        i += 1;
    }
    Ok(())
}

/// Whether there is a prediction for each pixel.
pub open spec fn matched(frames: Seq<crate::gif_split::Shot>, guesses: Seq<Seq<u8>>) -> bool {
    &&& frames.len() == guesses.len()
    &&& forall|i: int| 0 <= i < frames.len() ==> (#[trigger] guesses[i]).len() == frames[i].w * frames[i].h
}

/// Codes the pixels of all frames.
pub fn encode_pixels<M: Monitor>(
    frames: &[GifFrame],
    guesses: &Vec<Vec<u8>>,
    progress: &mut M,
    share: &Share,
) -> (r: Result<Vec<u8>, String>)
    requires
        crate::gif_split::all_wf(frames@),
        matched(crate::gif_split::shots(frames@), crate::prores_bits::each(guesses@)),
        frames@.len() <= crate::gif_split::MAX_FRAMES,
        share.fits(),
        !old(progress).stopped(),
    ensures
        crate::wire::bytes_of(r) == crate::wire::unless(
            final(progress).stopped(),
            coded(crate::gif_split::shots(frames@), crate::prores_bits::each(guesses@)),
        ),
{
    let ghost shots = crate::gif_split::shots(frames@);
    let ghost given = crate::prores_bits::each(guesses@);
    let mut m = Model::new();
    let mut e = Enc::new();
    let ghost whole = put_frames(Trio::start(), Writing::start(), shots, given, 0);
    let mut k: usize = 0;
    while k < frames.len()
        invariant
            k <= frames.len() <= crate::gif_split::MAX_FRAMES,
            shots == crate::gif_split::shots(frames@),
            given == crate::prores_bits::each(guesses@),
            crate::gif_split::all_wf(frames@),
            matched(shots, given),
            m@.wf(),
            e@.wf(),
            e.cache_size <= 1 + 1_440_000 * k,
            share.fits(),
            !progress.stopped(),
            whole == put_frames(Trio::start(), Writing::start(), shots, given, 0),
            whole == put_frames(m@, e@, shots, given, k as int),
        decreases frames.len() - k,
    {
        assert(given[k as int].len() == shots[k as int].w * shots[k as int].h);
        write_frame(&mut m, &mut e, &frames[k], &guesses[k], k, frames.len(), progress, share)?;
        k += 1;
    }
    let out = e.finish();
    if out.len() > LIMIT {
        return Err(fail("GIF arithmetic output exceeds limit"));
    }
    Ok(out)
}

fn read_frame<M: Monitor>(
    m: &mut Model,
    d: &mut Dec<'_>,
    f: &GifFrame,
    guess: &[u8],
    k: usize,
    count: usize,
    progress: &mut M,
    share: &Share,
) -> (r: Result<Vec<u8>, String>)
    requires
        old(m)@.wf(),
        old(d)@.wf(),
        k < count <= 0x1_0000_0000,
        f@.framed(),
        guess@.len() == f@.w * f@.h,
        share.fits(),
        !old(progress).stopped(),
    ensures
        final(d).data == old(d).data,
        match r {
            Ok(px) => !final(progress).stopped() && final(m)@.wf() && final(d)@.wf() && px@.len()
                == guess@.len() && get_from(
                old(m)@,
                old(d)@,
                f@.w,
                f@.palette.len() as int / 3,
                guess@,
                Seq::empty(),
            ) == Ok::<(Trio, Reading, Seq<u8>), Seq<char>>((final(m)@, final(d)@, px@)),
            Err(x) => Err::<(Trio, Reading, Seq<u8>), Seq<char>>(x@) == crate::wire::unless(
                final(progress).stopped(),
                get_from(
                    old(m)@,
                    old(d)@,
                    f@.w,
                    f@.palette.len() as int / 3,
                    guess@,
                    Seq::empty(),
                ),
            ),
        },
{
    let ghost shown = f@.palette.len() as int / 3;
    let ghost whole = get_from(m@, d@, f@.w, shown, guess@, Seq::empty());
    assert(f@.w * f@.h <= 90000) by (nonlinear_arith)
        requires
            1 <= f@.w <= 300,
            1 <= f@.h <= 300,
    ;
    let w: usize = f.w;
    let n: usize = guess.len();
    let colours: usize = f.palette.len() / 3;
    let mut px: Vec<u8> = Vec::with_capacity(n);
    assert(px@ =~= Seq::empty());
    let mut i: usize = 0;
    while i < n
        invariant
            i <= n <= 90000,
            px.len() == i,
            guess@.len() == n,
            w == f.w,
            1 <= w <= 300,
            colours == shown,
            colours <= 256,
            k < count <= 0x1_0000_0000,
            m@.wf(),
            d@.wf(),
            d.data == old(d).data,
            share.fits(),
            !progress.stopped(),
            shown == f@.palette.len() as int / 3,
            whole == get_from(old(m)@, old(d)@, f@.w, shown, guess@, Seq::empty()),
            whole == get_from(m@, d@, f@.w, shown, guess@, px@),
        decreases n - i,
    {
        if i % (w * 16) == 0 {
            if !share.report(progress, mark(k, count, i, n), 1_000_000) {
                return Err(fail("error.cancelled"));
            }
        }
        proof {
            if i == 0 {
                assert(0int % w as int == 0) by (nonlinear_arith)
                    requires
                        w >= 1,
                ;
            }
        }
        let l: usize = if i % w != 0 {
            px[i - 1] as usize
        } else {
            0
        };
        let u: usize = if i >= w {
            px[i - w] as usize
        } else {
            0
        };
        let pre: usize = match read_pixel(m, d, l, u, guess[i] as usize) {
            None => {
                return Err(fail("Truncated GIF arithmetic stream"));
            },
            Some(pre) => pre,
        };
        if pre - 256 >= colours {
            return Err(fail("Decoded GIF index exceeds palette"));
        }
        px.push((pre - 256) as u8);
        i += 1;
    }
    Ok(px)
}

/// Fills in the pixels that a code stands for.
pub fn decode_pixels<M: Monitor>(
    frames: Vec<GifFrame>,
    guesses: &Vec<Vec<u8>>,
    code: &[u8],
    progress: &mut M,
    share: &Share,
) -> (r: Result<Vec<GifFrame>, String>)
    requires
        crate::gif_split::all_wf(frames@),
        matched(crate::gif_split::shots(frames@), crate::prores_bits::each(guesses@)),
        frames@.len() <= crate::gif_split::MAX_FRAMES,
        share.fits(),
        !old(progress).stopped(),
    ensures
        match r {
            Ok(v) => !final(progress).stopped() && crate::gif_split::all_wf(v@) && decoded(
                crate::gif_split::shots(frames@),
                crate::prores_bits::each(guesses@),
                code@,
            ) == Ok::<Seq<crate::gif_split::Shot>, Seq<char>>(crate::gif_split::shots(v@)),
            Err(x) => Err::<Seq<crate::gif_split::Shot>, Seq<char>>(x@) == crate::wire::unless(
                final(progress).stopped(),
                decoded(
                    crate::gif_split::shots(frames@),
                    crate::prores_bits::each(guesses@),
                    code@,
                ),
            ),
        },
{
    if code.len() < 5 {
        return Err(fail("Truncated GIF arithmetic stream"));
    }
    if code[0] != 0 {
        return Err(fail("Invalid GIF arithmetic prefix"));
    }
    let ghost first = frames@;
    let ghost shots = crate::gif_split::shots(first);
    let ghost given = crate::prores_bits::each(guesses@);
    let mut m = Model::new();
    let mut d = Dec::new(code);
    let ghost whole = get_frames(Trio::start(), Reading::start(code@), shots, given, Seq::empty());
    let count: usize = frames.len();
    let mut left = frames;
    let mut out: Vec<GifFrame> = Vec::with_capacity(count);
    assert(crate::gif_split::shots(out@) =~= Seq::empty());
    let mut k: usize = 0;
    while k < count
        invariant
            k <= count <= crate::gif_split::MAX_FRAMES,
            count == first.len(),
            first == frames@,
            out.len() == k,
            left@ == first.subrange(k as int, count as int),
            shots == crate::gif_split::shots(first),
            given == crate::prores_bits::each(guesses@),
            crate::gif_split::all_wf(first),
            crate::gif_split::all_wf(out@),
            matched(shots, given),
            m@.wf(),
            d@.wf(),
            d.data == code,
            code@.len() >= 5,
            code@[0] == 0,
            share.fits(),
            !progress.stopped(),
            whole == get_frames(Trio::start(), Reading::start(code@), shots, given, Seq::empty()),
            whole == get_frames(m@, d@, shots, given, crate::gif_split::shots(out@)),
        decreases count - k,
    {
        assert(given[k as int].len() == shots[k as int].w * shots[k as int].h);
        assert(left@[0] == first[k as int]);
        let mut f = left.remove(0);
        assert(left@ =~= first.subrange(k + 1, count as int));
        assert(f@ == shots[k as int]);
        assert(guesses@[k as int]@ == given[k as int]);
        let px = read_frame(&mut m, &mut d, &f, &guesses[k], k, count, progress, share)?;
        f.pixels = px;
        let ghost before = crate::gif_split::shots(out@);
        out.push(f);
        assert(crate::gif_split::shots(out@) =~= before.push(f@));
        k += 1;
    }
    if d.pos != code.len() {
        return Err(fail("Trailing GIF arithmetic bytes"));
    }
    Ok(out)
}

}
