//! An adaptive binary range coder, and the residual model on top of it.

use vstd::prelude::*;

verus! {

/// The probability, out of 4096, that a slot starts with.
pub const PROB_INIT: u16 = 2048;

/// The number of exponents that a residual model tells apart.
pub const EXP_MAX: usize = 16;

/// Whether a probability leaves room for both bits.
pub open spec fn open_slot(p: u16) -> bool {
    0 < p < 4096
}

/// A probability after the bit `b` was seen.
pub open spec fn adapted(p: u16, b: bool, shift: u32) -> u16 {
    if b {
        (p - (p >> shift)) as u16
    } else {
        (p + (((4096 - p) as u16) >> shift)) as u16
    }
}

/// The state of an encoder: the interval that is left starts at `low` and is `range` long. Bytes
/// that a carry can still reach are `cache` and `pending - 1` bytes of 255 behind it.
#[verifier::ext_equal]
pub struct Writing {
    pub low: int,
    pub range: int,
    pub cache: u8,
    pub pending: int,
    pub out: Seq<u8>,
}

impl Writing {
    pub open spec fn start() -> Writing {
        Writing { low: 0, range: 0xFFFF_FFFF, cache: 0, pending: 1, out: Seq::empty() }
    }

    /// Moves the top byte of `low` out.
    #[verifier::opaque]
    pub open spec fn shifted(self) -> Writing {
        let low = (self.low % 0x100_0000) * 256;
        if self.low < 0xFF00_0000 || self.low >= 0x1_0000_0000 {
            let carry = self.low / 0x1_0000_0000;
            Writing {
                low,
                cache: (self.low / 0x100_0000 % 256) as u8,
                pending: 1,
                out: self.out.push(((self.cache + carry) % 256) as u8) + Seq::new(
                    (self.pending - 1) as nat,
                    |i: int| ((255 + carry) % 256) as u8,
                ),
                ..self
            }
        } else {
            Writing { low, pending: self.pending + 1, ..self }
        }
    }

    /// Shifts until the interval is at least three bytes wide.
    pub open spec fn normal(self) -> Writing
        decreases 0x1_0000_0000 - self.range,
    {
        if 0 < self.range < 0x100_0000 {
            proof {
                reveal(Writing::shifted);
            }
            (Writing { range: self.range * 256, ..self }).shifted().normal()
        } else {
            self
        }
    }

    /// The part of the interval that stands for the bit `b`.
    pub open spec fn split(self, p: u16, b: bool) -> Writing {
        let bound = self.range / 4096 * p;
        if b {
            Writing { low: self.low + bound, range: self.range - bound, ..self }
        } else {
            Writing { range: bound, ..self }
        }
    }

    /// Writes the bit `b`, which is 0 with probability `p` out of 4096.
    pub open spec fn bit(self, p: u16, b: bool) -> Writing {
        self.split(p, b).normal()
    }

    /// All bytes of the stream, when nothing follows.
    pub open spec fn finish(self) -> Seq<u8> {
        self.shifted().shifted().shifted().shifted().shifted().out
    }

    /// What holds of every state between two bits.
    pub open spec fn wf(self) -> bool {
        &&& self.sound()
        &&& 0x100_0000 <= self.range <= 0xFFFF_FFFF
    }

    /// No carry can run past `cache`.
    pub open spec fn sound(self) -> bool {
        &&& self.pending >= 1
        &&& 0 <= self.low
        &&& 0 < self.range
        &&& self.low + self.range <= 0x2_0000_0000
        &&& self.cache == 255 ==> self.low + self.range <= 0x1_0000_0000
    }
}

/// The state of a decoder: `code` is how far into the interval the stream points.
#[verifier::ext_equal]
pub struct Reading {
    pub data: Seq<u8>,
    pub pos: int,
    pub range: int,
    pub code: int,
}

impl Reading {
    /// Takes in one byte, or a zero past the end.
    pub open spec fn shifted(self) -> Reading {
        let byte = if self.pos < self.data.len() {
            self.data[self.pos] as int
        } else {
            0
        };
        Reading {
            pos: if self.pos < self.data.len() {
                self.pos + 1
            } else {
                self.pos
            },
            code: self.code % 0x100_0000 * 256 + byte,
            ..self
        }
    }

    pub open spec fn start(data: Seq<u8>) -> Reading {
        (Reading { data, pos: 0, range: 0xFFFF_FFFF, code: 0 }).shifted().shifted().shifted().shifted().shifted()
    }

    pub open spec fn normal(self) -> Reading
        decreases 0x1_0000_0000 - self.range,
    {
        if 0 < self.range < 0x100_0000 {
            (Reading { range: self.range * 256, ..self }).shifted().normal()
        } else {
            self
        }
    }

    /// The bit that the stream points to.
    pub open spec fn points(self, p: u16) -> bool {
        self.code >= self.range / 4096 * p
    }

    /// The state behind that bit.
    pub open spec fn bit(self, p: u16) -> Reading {
        let bound = self.range / 4096 * p;
        (if self.points(p) {
            Reading { code: self.code - bound, range: self.range - bound, ..self }
        } else {
            Reading { range: bound, ..self }
        }).normal()
    }

    pub open spec fn wf(self) -> bool {
        &&& 0x100_0000 <= self.range <= 0xFFFF_FFFF
        &&& 0 <= self.code <= 0xFFFF_FFFF
        &&& 0 <= self.pos <= self.data.len()
    }

    /// Shifts like `normal`, but does not read past the end.
    pub open spec fn filled(self) -> Option<Reading>
        decreases 0x1_0000_0000 - self.range,
    {
        if 0 < self.range < 0x100_0000 {
            if self.pos >= self.data.len() {
                None
            } else {
                (Reading { range: self.range * 256, ..self }).shifted().filled()
            }
        } else {
            Some(self)
        }
    }

    /// The state behind a bit, if the stream has all the bytes that it takes.
    pub open spec fn strict_bit(self, p: u16) -> Option<Reading> {
        let bound = self.range / 4096 * p;
        (if self.points(p) {
            Reading { code: self.code - bound, range: self.range - bound, ..self }
        } else {
            Reading { range: bound, ..self }
        }).filled()
    }
}

proof fn lemma_halves(p: u16, shift: u32)
    by (bit_vector)
    requires
        1 <= shift <= 15,
    ensures
        (p >> shift) <= p / 2,
{
}

proof fn lemma_bound(range: int, p: u16)
    requires
        0x100_0000 <= range <= 0xFFFF_FFFF,
        open_slot(p),
    ensures
        4096 <= range / 4096 * p,
        range / 4096 * p <= range - 4096,
{
    assert(4096 <= range / 4096 * p && range / 4096 * p <= range / 4096 * 4095) by (nonlinear_arith)
        requires
            range / 4096 >= 4096,
            1 <= p <= 4095,
    ;
}

/// A slot never reaches certainty.
pub proof fn law_slots_stay_open(p: u16, b: bool, shift: u32)
    requires
        open_slot(p),
        1 <= shift <= 15,
    ensures
        open_slot(adapted(p, b, shift)),
{
    lemma_halves(p, shift);
    lemma_halves((4096 - p) as u16, shift);
}

pub struct Enc {
    pub low: u64,
    pub range: u32,
    pub cache: u8,
    pub cache_size: u64,
    pub out: Vec<u8>,
}

impl View for Enc {
    type V = Writing;

    open spec fn view(&self) -> Writing {
        Writing {
            low: self.low as int,
            range: self.range as int,
            cache: self.cache,
            pending: self.cache_size as int,
            out: self.out@,
        }
    }
}

impl Enc {
    /// An encoder that has written nothing.
    pub fn new() -> (e: Self)
        ensures
            e@ == Writing::start(),
            e@.wf(),
    {
        Enc { low: 0, range: 0xFFFF_FFFF, cache: 0, cache_size: 1, out: Vec::new() }
    }

    fn shift_low(&mut self)
        requires
            1 <= old(self).cache_size < u64::MAX,
            old(self).low < 0x2_0000_0000,
        ensures
            final(self)@ == old(self)@.shifted(),
            1 <= final(self).cache_size <= old(self).cache_size + 1,
            final(self).low < 0x1_0000_0000,
    {
        if self.low < 0xFF00_0000 || self.low >= 0x1_0000_0000 {
            let carry: u8 = (self.low / 0x1_0000_0000) as u8;
            let first: u8 = ((self.cache as u16 + carry as u16) % 256) as u8;
            let rest: u8 = ((255 + carry as u16) % 256) as u8;
            let ghost before = self.out@.push(first);
            self.out.push(first);
            let mut left: u64 = self.cache_size - 1;
            while left > 0
                invariant
                    left < old(self).cache_size,
                    self.out@ == before + Seq::new(
                        (old(self).cache_size - 1 - left) as nat,
                        |i: int| rest,
                    ),
                    self.low == old(self).low,
                    self.range == old(self).range,
                    self.cache == old(self).cache,
                decreases left,
            {
                let ghost part = Seq::new((old(self).cache_size - 1 - left) as nat, |i: int| rest);
                self.out.push(rest);
                left -= 1;
                assert(self.out@ =~= before + Seq::new(
                    (old(self).cache_size - 1 - left) as nat,
                    |i: int| rest,
                ));
            }
            self.cache_size = 0;
            self.cache = (self.low / 0x100_0000 % 256) as u8;
        }
        self.cache_size = self.cache_size + 1;
        self.low = (self.low % 0x100_0000) * 256;
        proof {
            reveal(Writing::shifted);
            assert(self@ =~= old(self)@.shifted());
        }
    }

    /// Writes one bit, which is 0 with probability `p` out of 4096.
    pub fn code(&mut self, p: u16, b: bool)
        requires
            old(self)@.wf(),
            old(self).cache_size < u64::MAX - 8,
            open_slot(p),
        ensures
            final(self)@ == old(self)@.bit(p, b),
            final(self)@.wf(),
            final(self).cache_size <= old(self).cache_size + 2,
    {
        proof {
            lemma_bound(self.range as int, p);
        }
        let bound: u32 = self.range / 4096 * (p as u32);
        if b {
            self.low = self.low + bound as u64;
            self.range = self.range - bound;
        } else {
            self.range = bound;
        }
        let ghost whole = old(self)@.bit(p, b);
        while self.range < 0x100_0000
            invariant
                self@.normal() == whole,
                whole == old(self)@.bit(p, b),
                self@.sound(),
                4096 <= self.range <= 0xFFFF_FFFF,
                self.cache_size <= old(self).cache_size + 2,
                self.range < 0x10_0000 ==> self.cache_size <= old(self).cache_size,
                self.range < 0x100_0000 ==> self.cache_size <= old(self).cache_size + 1,
                old(self).cache_size < u64::MAX - 8,
            decreases 0x1_0000_0000 - self.range,
        {
            let ghost before = self@;
            self.range = self.range * 256;
            self.shift_low();
            proof {
                lemma_shift_sound(before);
            }
        }
    }

    /// Writes one bit, and adapts its slot.
    pub fn bit(&mut self, p: &mut u16, b: u32, shift: u32)
        requires
            old(self)@.wf(),
            old(self).cache_size < u64::MAX - 8,
            open_slot(*old(p)),
            1 <= shift <= 15,
        ensures
            final(self)@ == old(self)@.bit(*old(p), b != 0),
            final(self)@.wf(),
            final(self).cache_size <= old(self).cache_size + 2,
            *final(p) == adapted(*old(p), b != 0, shift),
            open_slot(*final(p)),
    {
        proof {
            law_slots_stay_open(*p, b != 0, shift);
            lemma_halves(*p, shift);
            lemma_halves((4096 - *p) as u16, shift);
        }
        self.code(*p, b != 0);
        if b == 0 {
            *p = *p + ((4096 - *p) >> shift);
        } else {
            *p = *p - (*p >> shift);
        }
    }

    /// The bytes of the stream.
    pub fn finish(self) -> (out: Vec<u8>)
        requires
            self@.wf(),
            self.cache_size < u64::MAX - 8,
        ensures
            out@ == self@.finish(),
    {
        let mut e = self;
        let ghost s = self@;
        e.shift_low();
        e.shift_low();
        e.shift_low();
        e.shift_low();
        e.shift_low();
        e.out
    }
}

/// Shifting keeps a state sound.
proof fn lemma_shift_sound(w: Writing)
    requires
        w.sound(),
        w.range < 0x100_0000,
    ensures
        (Writing { range: w.range * 256, ..w }).shifted().sound(),
        (Writing { range: w.range * 256, ..w }).shifted().range == w.range * 256,
        (Writing { range: w.range * 256, ..w }).shifted().pending <= w.pending + 1,
{
    reveal(Writing::shifted);
}

pub struct Dec<'a> {
    pub data: &'a [u8],
    pub pos: usize,
    pub range: u32,
    pub code: u32,
}

impl<'a> View for Dec<'a> {
    type V = Reading;

    open spec fn view(&self) -> Reading {
        Reading {
            data: self.data@,
            pos: self.pos as int,
            range: self.range as int,
            code: self.code as int,
        }
    }
}

impl<'a> Dec<'a> {
    /// A decoder at the start of a stream.
    pub fn new(data: &'a [u8]) -> (d: Self)
        ensures
            d@ == Reading::start(data@),
            d.data == data,
            d@.wf(),
    {
        let mut d = Dec { data, pos: 0, range: 0xFFFF_FFFF, code: 0 };
        d.byte();
        d.byte();
        d.byte();
        d.byte();
        d.byte();
        d
    }

    fn byte(&mut self)
        requires
            old(self).pos <= old(self).data@.len(),
        ensures
            final(self)@ == old(self)@.shifted(),
            final(self).data == old(self).data,
            final(self).pos <= final(self).data@.len(),
    {
        let mut b: u32 = 0;
        if self.pos < self.data.len() {
            b = self.data[self.pos] as u32;
            self.pos += 1;
        }
        self.code = self.code % 0x100_0000 * 256 + b;
    }

    /// Reads one bit, which is 0 with probability `p` out of 4096, unless the stream ends.
    pub fn strict(&mut self, p: u16) -> (r: Option<bool>)
        requires
            old(self)@.wf(),
            open_slot(p),
        ensures
            final(self).data == old(self).data,
            match r {
                Some(b) => b == old(self)@.points(p) && old(self)@.strict_bit(p) == Some(final(self)@)
                    && final(self)@.wf(),
                None => old(self)@.strict_bit(p) is None,
            },
    {
        proof {
            lemma_bound(self.range as int, p);
        }
        let bound: u32 = self.range / 4096 * (p as u32);
        let b: bool = self.code >= bound;
        if b {
            self.code = self.code - bound;
            self.range = self.range - bound;
        } else {
            self.range = bound;
        }
        let ghost whole = old(self)@.strict_bit(p);
        while self.range < 0x100_0000
            invariant
                self@.filled() == whole,
                whole == old(self)@.strict_bit(p),
                4096 <= self.range,
                self.pos <= self.data@.len(),
                self.data == old(self).data,
            decreases 0x1_0000_0000 - self.range,
        {
            if self.pos >= self.data.len() {
                return None;
            }
            self.range = self.range * 256;
            self.byte();
        }
        Some(b)
    }

    /// Reads one bit, and adapts its slot.
    pub fn bit(&mut self, p: &mut u16, shift: u32) -> (r: u32)
        requires
            old(self)@.wf(),
            open_slot(*old(p)),
            1 <= shift <= 15,
        ensures
            r == (if old(self)@.points(*old(p)) {
                1u32
            } else {
                0u32
            }),
            final(self)@ == old(self)@.bit(*old(p)),
            final(self)@.wf(),
            final(self).data == old(self).data,
            *final(p) == adapted(*old(p), r == 1, shift),
            open_slot(*final(p)),
    {
        let ghost start = *p;
        proof {
            lemma_bound(self.range as int, *p);
            lemma_halves(*p, shift);
            lemma_halves((4096 - *p) as u16, shift);
        }
        let bound: u32 = self.range / 4096 * (*p as u32);
        let b: bool = self.code >= bound;
        proof {
            law_slots_stay_open(*p, b, shift);
        }
        if !b {
            self.range = bound;
            *p = *p + ((4096 - *p) >> shift);
        } else {
            self.code = self.code - bound;
            self.range = self.range - bound;
            *p = *p - (*p >> shift);
        }
        let ghost whole = old(self)@.bit(start);
        while self.range < 0x100_0000
            invariant
                self@.normal() == whole,
                whole == old(self)@.bit(*old(p)),
                4096 <= self.range,
                self.pos <= self.data@.len(),
                self.data == old(self).data,
                *p == adapted(*old(p), b, shift),
                open_slot(*p),
            decreases 0x1_0000_0000 - self.range,
        {
            self.range = self.range * 256;
            self.byte();
        }
        if b {
            1
        } else {
            0
        }
    }
}


/// The number that a byte string is in base 256, high byte first.
pub open spec fn number(s: Seq<u8>) -> int
    decreases s.len(),
{
    if s.len() == 0 {
        0
    } else {
        number(s.drop_last()) * 256 + s.last()
    }
}

pub open spec fn pow256(n: int) -> int
    decreases n,
{
    if n <= 0 {
        1
    } else {
        256 * pow256(n - 1)
    }
}

impl Writing {
    /// Where the interval starts, in units of the last byte of `low`.
    pub open spec fn value(self) -> int {
        let ones = pow256(self.pending - 1);
        ((number(self.out) * 256 + self.cache) * ones + ones - 1) * 0x1_0000_0000 + self.low
    }

    /// How many bytes `value` has.
    pub open spec fn size(self) -> int {
        self.out.len() + self.pending + 4
    }

    /// Whether a stream points into the interval.
    pub open spec fn leads(self, data: Seq<u8>) -> bool {
        let unit = pow256(data.len() - self.size());
        &&& self.size() <= data.len()
        &&& self.value() * unit <= number(data)
        &&& number(data) < (self.value() + self.range) * unit
    }

    /// Whether a decoder has come to where this encoder was.
    pub open spec fn followed(self, r: Reading) -> bool {
        &&& r.range == self.range
        &&& r.pos == self.size()
        &&& r.pos <= r.data.len()
        &&& r.code == number(r.data.subrange(0, r.pos)) - self.value()
    }
}

proof fn lemma_pow256(n: int)
    ensures
        pow256(n) >= 1,
    decreases n,
{
    if n > 0 {
        lemma_pow256(n - 1);
    }
}

proof fn lemma_number_repeat(s: Seq<u8>, n: nat, c: u8)
    requires
        c == 255 || c == 0,
    ensures
        number(s + Seq::new(n, |i: int| c)) == number(s) * pow256(n as int) + (if c == 255 {
            pow256(n as int) - 1
        } else {
            0
        }),
    decreases n,
{
    let t = s + Seq::new(n, |i: int| c);
    if n == 0 {
        assert(t =~= s);
    } else {
        let m = (n - 1) as nat;
        lemma_number_repeat(s, m, c);
        assert(t.drop_last() =~= s + Seq::new(m, |i: int| c));
        let (a, q) = (number(s), pow256(m as int));
        assert((a * q + (q - 1)) * 256 + 255 == a * (256 * q) + 256 * q - 1) by (nonlinear_arith);
        assert((a * q) * 256 == a * (256 * q)) by (nonlinear_arith);
    }
}

/// Shifting multiplies the start of the interval by 256.
proof fn lemma_shift_value(w: Writing)
    requires
        w.pending >= 1,
        0 <= w.low < 0x2_0000_0000,
        w.cache == 255 ==> w.low < 0x1_0000_0000,
    ensures
        w.shifted().value() == w.value() * 256,
        w.shifted().size() == w.size() + 1,
{
    reveal(Writing::shifted);
    let ones = pow256(w.pending - 1);
    let n = number(w.out) * 256 + w.cache;
    if w.low < 0xFF00_0000 || w.low >= 0x1_0000_0000 {
        let carry = w.low / 0x1_0000_0000;
        let first = w.out.push(((w.cache + carry) % 256) as u8);
        let c = ((255 + carry) % 256) as u8;
        assert(first.drop_last() =~= w.out);
        assert(number(first) == n + carry);
        lemma_number_repeat(first, (w.pending - 1) as nat, c);
        assert(Seq::new((w.pending - 1) as nat, |i: int| ((255 + carry) % 256) as u8) =~= Seq::new(
            (w.pending - 1) as nat,
            |i: int| c,
        ));
        assert(number(w.shifted().out) == n * ones + ones - 1 + carry) by {
            assert((n + 1) * ones == n * ones + ones) by (nonlinear_arith);
        }
        assert(pow256(0) == 1);
    } else {
        assert(pow256(w.pending) == 256 * ones);
        assert(n * (256 * ones) == 256 * (n * ones)) by (nonlinear_arith);
    }
}

proof fn lemma_shift_leads(w: Writing, data: Seq<u8>)
    requires
        w.sound(),
        w.range < 0x100_0000,
        (Writing { range: w.range * 256, ..w }).shifted().leads(data),
    ensures
        w.leads(data),
{
    let v = (Writing { range: w.range * 256, ..w }).shifted();
    lemma_shift_sound(w);
    lemma_shift_value(Writing { range: w.range * 256, ..w });
    let unit = pow256(data.len() - v.size());
    assert(pow256(data.len() - w.size()) == 256 * unit);
    let (a, r) = (w.value(), w.range);
    assert((a * 256) * unit == a * (256 * unit)) by (nonlinear_arith);
    assert((a * 256 + r * 256) * unit == (a + r) * (256 * unit)) by (nonlinear_arith);
}

proof fn lemma_normal_leads(w: Writing, data: Seq<u8>)
    requires
        w.sound(),
        w.range <= 0xFFFF_FFFF,
        w.normal().leads(data),
    ensures
        w.leads(data),
        w.normal().wf(),
    decreases 0x1_0000_0000 - w.range,
{
    if w.range < 0x100_0000 {
        let v = (Writing { range: w.range * 256, ..w }).shifted();
        lemma_shift_sound(w);
        lemma_normal_leads(v, data);
        lemma_shift_leads(w, data);
    }
}

/// What a later state leads to, the state before the bit leads to as well.
pub proof fn lemma_bit_leads(w: Writing, p: u16, b: bool, data: Seq<u8>)
    requires
        w.wf(),
        open_slot(p),
        w.bit(p, b).leads(data),
    ensures
        w.leads(data),
        w.split(p, b).leads(data),
        w.bit(p, b).wf(),
{
    lemma_bound(w.range, p);
    let v = w.split(p, b);
    lemma_normal_leads(v, data);
    let unit = pow256(data.len() - w.size());
    lemma_pow256(data.len() - w.size());
    let (a, r, x) = (w.value(), w.range, w.range / 4096 * p);
    assert(a * unit <= (a + x) * unit && (a + x) * unit <= (a + r) * unit) by (nonlinear_arith)
        requires
            0 <= x <= r,
            unit >= 1,
    ;
}

proof fn lemma_number_split(s: Seq<u8>, k: int)
    requires
        0 <= k <= s.len(),
    ensures
        number(s.subrange(0, k)) * pow256(s.len() - k) <= number(s),
        number(s) < (number(s.subrange(0, k)) + 1) * pow256(s.len() - k),
    decreases s.len() - k,
{
    if k == s.len() {
        assert(s.subrange(0, k) =~= s);
    } else {
        let t = s.drop_last();
        lemma_number_split(t, k);
        assert(t.subrange(0, k) =~= s.subrange(0, k));
        let (a, q) = (number(s.subrange(0, k)), pow256(t.len() - k));
        assert(pow256(s.len() - k) == 256 * q);
        assert(a * (256 * q) == (a * q) * 256) by (nonlinear_arith);
        assert((a + 1) * (256 * q) == ((a + 1) * q) * 256) by (nonlinear_arith);
    }
}

/// The first bytes of a stream point into the interval as well.
proof fn lemma_prefix(w: Writing, data: Seq<u8>)
    requires
        w.leads(data),
        w.size() >= 0,
    ensures
        w.value() <= number(data.subrange(0, w.size())) < w.value() + w.range,
{
    let k = w.size();
    lemma_number_split(data, k);
    let q = pow256(data.len() - k);
    let (a, c, r, x) = (w.value(), number(data.subrange(0, k)), w.range, number(data));
    lemma_pow256(data.len() - k);
    assert(a <= c) by (nonlinear_arith)
        requires
            a * q <= x,
            x < (c + 1) * q,
            q >= 1,
    ;
    assert(c < a + r) by (nonlinear_arith)
        requires
            x < (a + r) * q,
            c * q <= x,
            q >= 1,
    ;
}

proof fn lemma_normal_followed(w: Writing, r: Reading)
    requires
        w.sound(),
        w.range <= 0xFFFF_FFFF,
        w.normal().leads(r.data),
        w.followed(r),
        0 <= r.code < w.range,
    ensures
        w.normal().followed(r.normal()),
        r.normal().data == r.data,
    decreases 0x1_0000_0000 - w.range,
{
    if w.range < 0x100_0000 {
        let v = (Writing { range: w.range * 256, ..w }).shifted();
        let n = (Reading { range: r.range * 256, ..r }).shifted();
        lemma_shift_sound(w);
        lemma_shift_value(Writing { range: w.range * 256, ..w });
        lemma_normal_leads(v, r.data);
        assert(v.size() <= r.data.len());
        let t = r.data.subrange(0, r.pos + 1);
        assert(t.drop_last() =~= r.data.subrange(0, r.pos));
        assert(v.followed(n));
        lemma_prefix(v, r.data);
        lemma_normal_followed(v, n);
    }
}

/// A decoder that has come to where the encoder was reads the bit that the encoder wrote, and
/// comes to where the encoder went.
pub proof fn law_bit_round_trip(w: Writing, p: u16, b: bool, r: Reading)
    requires
        w.wf(),
        open_slot(p),
        w.bit(p, b).leads(r.data),
        w.followed(r),
    ensures
        r.points(p) == b,
        w.bit(p, b).followed(r.bit(p)),
        r.bit(p).data == r.data,
        w.leads(r.data),
        w.bit(p, b).wf(),
{
    lemma_bound(w.range, p);
    lemma_bit_leads(w, p, b, r.data);
    let v = w.split(p, b);
    lemma_prefix(v, r.data);
    let bound = w.range / 4096 * p;
    let s = if r.points(p) {
        Reading { code: r.code - bound, range: r.range - bound, ..r }
    } else {
        Reading { range: bound, ..r }
    };
    assert(v.value() == w.value() + (if b {
        bound
    } else {
        0
    }));
    assert(r.points(p) == b);
    assert(v.followed(s));
    lemma_normal_followed(v, s);
}

proof fn lemma_low_part(h: int, l: int)
    requires
        0 <= l < 0x100_0000,
    ensures
        (h * 0x100_0000 + l) % 0x100_0000 == l,
{
}

/// Four shifts empty `low`.
proof fn lemma_drained(x: int)
    ensures
        ((((x % 0x100_0000) * 256 % 0x100_0000) * 256 % 0x100_0000) * 256 % 0x100_0000) * 256 == 0,
{
    let y = x % 0x100_0000;
    let (h, l) = (y / 0x1_0000, y % 0x1_0000);
    let (i, k) = (l / 0x100, l % 0x100);
    assert(y * 256 == h * 0x100_0000 + l * 256);
    lemma_low_part(h, l * 256);
    assert(l * 256 * 256 == i * 0x100_0000 + k * 0x1_0000);
    lemma_low_part(i, k * 0x1_0000);
    assert(k * 0x1_0000 * 256 == k * 0x100_0000 + 0);
    lemma_low_part(k, 0);
}

proof fn lemma_shift_low(w: Writing)
    requires
        w.pending >= 1,
        0 <= w.low < 0x2_0000_0000,
        w.cache == 255 ==> w.low < 0x1_0000_0000,
    ensures
        w.shifted().low == (w.low % 0x100_0000) * 256,
        0 <= w.shifted().low < 0x1_0000_0000,
        w.shifted().pending >= 1,
        w.shifted().value() == w.value() * 256,
        w.shifted().size() == w.size() + 1,
        w.low == 0 ==> w.shifted().cache == 0 && w.shifted().pending == 1,
{
    reveal(Writing::shifted);
    lemma_shift_value(w);
}

proof fn lemma_normal_filled(w: Writing, r: Reading)
    requires
        w.sound(),
        w.range <= 0xFFFF_FFFF,
        w.normal().leads(r.data),
        w.followed(r),
        0 <= r.code < w.range,
    ensures
        r.filled() == Some(r.normal()),
    decreases 0x1_0000_0000 - w.range,
{
    if w.range < 0x100_0000 {
        let v = (Writing { range: w.range * 256, ..w }).shifted();
        let n = (Reading { range: r.range * 256, ..r }).shifted();
        lemma_shift_sound(w);
        lemma_shift_value(Writing { range: w.range * 256, ..w });
        lemma_normal_leads(v, r.data);
        let t = r.data.subrange(0, r.pos + 1);
        assert(t.drop_last() =~= r.data.subrange(0, r.pos));
        assert(v.followed(n));
        lemma_prefix(v, r.data);
        lemma_normal_filled(v, n);
    }
}

/// Reading back what was written never meets the end of the stream.
pub proof fn law_strict_round_trip(w: Writing, p: u16, b: bool, r: Reading)
    requires
        w.wf(),
        open_slot(p),
        w.bit(p, b).leads(r.data),
        w.followed(r),
    ensures
        r.strict_bit(p) == Some(r.bit(p)),
{
    law_bit_round_trip(w, p, b, r);
    lemma_bound(w.range, p);
    lemma_bit_leads(w, p, b, r.data);
    let v = w.split(p, b);
    lemma_prefix(v, r.data);
    let bound = w.range / 4096 * p;
    let s = if r.points(p) {
        Reading { code: r.code - bound, range: r.range - bound, ..r }
    } else {
        Reading { range: bound, ..r }
    };
    assert(v.value() == w.value() + (if b {
        bound
    } else {
        0
    }));
    lemma_normal_filled(v, s);
}

/// A finished stream points into the interval that the encoder ended with.
pub proof fn law_finish_leads(w: Writing)
    requires
        w.wf(),
    ensures
        w.leads(w.finish()),
        w.finish().len() == w.size(),
{
    let a = w.shifted();
    let b = a.shifted();
    let c = b.shifted();
    let d = c.shifted();
    let e = d.shifted();
    lemma_shift_low(w);
    lemma_shift_low(a);
    lemma_shift_low(b);
    lemma_shift_low(c);
    lemma_shift_low(d);
    lemma_drained(w.low);
    lemma_finished(w, e);
}

proof fn lemma_finished(w: Writing, e: Writing)
    requires
        w.range >= 1,
        e.low == 0,
        e.cache == 0,
        e.pending == 1,
        e.size() == w.size() + 5,
        e.value() == w.value() * 256 * 256 * 256 * 256 * 256,
    ensures
        w.leads(e.out),
        e.out.len() == w.size(),
{
    assert(pow256(0) == 1);
    assert(number(e.out) == w.value());
    let unit = pow256(e.out.len() - w.size());
    assert(unit == 1);
    assert(w.value() * unit == w.value() && (w.value() + w.range) * unit == w.value() + w.range)
        by (nonlinear_arith)
        requires
            unit == 1,
    ;
}


/// A decoder at the start of a stream is where a fresh encoder is, if the stream came from it.
pub proof fn law_start(data: Seq<u8>)
    requires
        Writing::start().leads(data),
    ensures
        Writing::start().followed(Reading::start(data)),
        Reading::start(data).data == data,
        data.len() >= 5,
        data[0] == 0,
{
    let w = Writing::start();
    assert(number(Seq::<u8>::empty()) == 0);
    assert(pow256(0) == 1);
    assert(w.value() == 0);
    lemma_prefix(w, data);
    assert(data.subrange(0, 0) =~= Seq::empty());
    assert(data.subrange(0, 1).drop_last() =~= data.subrange(0, 0));
    assert(data.subrange(0, 2).drop_last() =~= data.subrange(0, 1));
    assert(data.subrange(0, 3).drop_last() =~= data.subrange(0, 2));
    assert(data.subrange(0, 4).drop_last() =~= data.subrange(0, 3));
    assert(data.subrange(0, 5).drop_last() =~= data.subrange(0, 4));
    assert(number(data.subrange(0, 1)) == data[0]);
    assert(number(data.subrange(0, 2)) == data[0] * 256 + data[1]);
    assert(number(data.subrange(0, 3)) == data[0] * 65536 + data[1] * 256 + data[2]);
    assert(number(data.subrange(0, 4)) == data[0] * 0x100_0000 + data[1] * 65536 + data[2] * 256
        + data[3]);
    assert(number(data.subrange(0, 5)) == data[0] * 0x1_0000_0000 + data[1] * 0x100_0000 + data[2]
        * 65536 + data[3] * 256 + data[4]);
    assert(data[0] == 0);
}

/// Writes a bit with the slot number `i`.
pub open spec fn put(slots: Seq<u16>, w: Writing, i: int, b: bool, shift: u32) -> (
    Seq<u16>,
    Writing,
) {
    (slots.update(i, adapted(slots[i], b, shift)), w.bit(slots[i], b))
}

/// Reads a bit with the slot number `i`.
pub open spec fn get(slots: Seq<u16>, r: Reading, i: int, shift: u32) -> (
    bool,
    Seq<u16>,
    Reading,
) {
    let b = r.points(slots[i]);
    (b, slots.update(i, adapted(slots[i], b, shift)), r.bit(slots[i]))
}

/// Whether every slot leaves room for both bits.
pub open spec fn all_open(slots: Seq<u16>) -> bool {
    forall|i: int| 0 <= i < slots.len() ==> open_slot(#[trigger] slots[i])
}

pub proof fn lemma_put(slots: Seq<u16>, w: Writing, i: int, b: bool, shift: u32, data: Seq<u8>)
    requires
        all_open(slots),
        w.wf(),
        0 <= i < slots.len(),
        1 <= shift <= 15,
    ensures
        all_open(put(slots, w, i, b, shift).0),
        put(slots, w, i, b, shift).0.len() == slots.len(),
        put(slots, w, i, b, shift).1.wf(),
        put(slots, w, i, b, shift).1.leads(data) ==> w.leads(data),
{
    law_slots_stay_open(slots[i], b, shift);
    lemma_bit_wf(w, slots[i], b);
    if put(slots, w, i, b, shift).1.leads(data) {
        lemma_bit_leads(w, slots[i], b, data);
    }
}

proof fn lemma_normal_wf(w: Writing)
    requires
        w.sound(),
        w.range <= 0xFFFF_FFFF,
    ensures
        w.normal().wf(),
    decreases 0x1_0000_0000 - w.range,
{
    if w.range < 0x100_0000 {
        lemma_shift_sound(w);
        lemma_normal_wf((Writing { range: w.range * 256, ..w }).shifted());
    }
}

pub proof fn lemma_bit_wf(w: Writing, p: u16, b: bool)
    requires
        w.wf(),
        open_slot(p),
    ensures
        w.bit(p, b).wf(),
{
    lemma_bound(w.range, p);
    lemma_normal_wf(w.split(p, b));
}

pub proof fn lemma_put_get(slots: Seq<u16>, w: Writing, i: int, b: bool, shift: u32, r: Reading)
    requires
        all_open(slots),
        w.wf(),
        0 <= i < slots.len(),
        1 <= shift <= 15,
        put(slots, w, i, b, shift).1.leads(r.data),
        w.followed(r),
    ensures
        get(slots, r, i, shift).0 == b,
        get(slots, r, i, shift).1 == put(slots, w, i, b, shift).0,
        put(slots, w, i, b, shift).1.followed(get(slots, r, i, shift).2),
        get(slots, r, i, shift).2.data == r.data,
{
    law_bit_round_trip(w, slots[i], b, r);
}

/// Writes ones from slot `base + i` up to slot `base + k`.
pub open spec fn put_ones(slots: Seq<u16>, w: Writing, base: int, i: int, k: int) -> (
    Seq<u16>,
    Writing,
)
    decreases k - i,
{
    if i >= k {
        (slots, w)
    } else {
        let (slots, w) = put(slots, w, base + i, true, 4);
        put_ones(slots, w, base, i + 1, k)
    }
}

/// Counts ones from slot `base + k` on, up to sixteen.
pub open spec fn get_ones(slots: Seq<u16>, r: Reading, base: int, k: int) -> (
    int,
    Seq<u16>,
    Reading,
)
    decreases 16 - k,
{
    if k >= 16 {
        (k, slots, r)
    } else {
        let (b, slots, r) = get(slots, r, base + k, 4);
        if b {
            get_ones(slots, r, base, k + 1)
        } else {
            (k, slots, r)
        }
    }
}

/// Writes the lowest `n` bits of `m`, high bit first, all with the slot `at`.
pub open spec fn put_bits(slots: Seq<u16>, w: Writing, at: int, m: int, n: int) -> (
    Seq<u16>,
    Writing,
)
    decreases n,
{
    if n <= 0 {
        (slots, w)
    } else {
        let (slots, w) = put(slots, w, at, m / crate::codeword::power2(n - 1) % 2 == 1, 6);
        put_bits(slots, w, at, m, n - 1)
    }
}

/// Reads `n` bits behind the bits of `m`.
pub open spec fn get_bits(slots: Seq<u16>, r: Reading, at: int, m: int, n: int) -> (
    int,
    Seq<u16>,
    Reading,
)
    decreases n,
{
    if n <= 0 {
        (m, slots, r)
    } else {
        let (b, slots, r) = get(slots, r, at, 6);
        get_bits(
            slots,
            r,
            at,
            2 * m + if b {
                1int
            } else {
                0int
            },
            n - 1,
        )
    }
}

/// The slots of a residual model: whether a value is zero, its sign, its exponent, and the bits
/// below the highest one, for every context.
#[verifier::ext_equal]
pub struct Residual {
    pub zero: Seq<u16>,
    pub sign: Seq<u16>,
    pub expo: Seq<u16>,
    pub mant: Seq<u16>,
}

impl Residual {
    pub open spec fn fresh(ctxs: nat) -> Residual {
        Residual {
            zero: Seq::new(ctxs, |i: int| PROB_INIT),
            sign: Seq::new(ctxs, |i: int| PROB_INIT),
            expo: Seq::new(ctxs * 16, |i: int| PROB_INIT),
            mant: Seq::new(ctxs * 16 * 2, |i: int| PROB_INIT),
        }
    }

    pub open spec fn wf(self, ctxs: int) -> bool {
        &&& self.zero.len() == ctxs
        &&& self.sign.len() == ctxs
        &&& self.expo.len() == ctxs * 16
        &&& self.mant.len() == ctxs * 16 * 2
        &&& all_open(self.zero)
        &&& all_open(self.sign)
        &&& all_open(self.expo)
        &&& all_open(self.mant)
    }

    /// Writes `v` in the context `ctx`.
    pub open spec fn encode(self, w: Writing, ctx: int, v: int) -> (Residual, Writing) {
        let (zero, w) = put(self.zero, w, ctx, v != 0, 4);
        if v == 0 {
            (Residual { zero, ..self }, w)
        } else {
            let m = if v < 0 {
                -v
            } else {
                v
            };
            let k = crate::codeword::top_bit(m);
            let (sign, w) = put(self.sign, w, ctx, v < 0, 5);
            let (expo, w) = put_ones(self.expo, w, ctx * 16, 0, k);
            let (expo, w) = put(expo, w, ctx * 16 + k, false, 4);
            if k > 0 {
                let at = (ctx * 16 + k) * 2;
                let (mant, w) = put(self.mant, w, at, m / crate::codeword::power2(k - 1) % 2 == 1, 5);
                let (mant, w) = put_bits(mant, w, at + 1, m, k - 1);
                (Residual { zero, sign, expo, mant }, w)
            } else {
                (Residual { zero, sign, expo, ..self }, w)
            }
        }
    }

    /// Reads a value in the context `ctx`.
    pub open spec fn decode(self, r: Reading, ctx: int) -> (int, Residual, Reading) {
        let (b, zero, r) = get(self.zero, r, ctx, 4);
        if !b {
            (0, Residual { zero, ..self }, r)
        } else {
            let (negative, sign, r) = get(self.sign, r, ctx, 5);
            let (ones, expo, r) = get_ones(self.expo, r, ctx * 16, 0);
            let k = if ones < 16 {
                ones
            } else {
                15
            };
            let (m, mant, r) = if k > 0 {
                let at = (ctx * 16 + k) * 2;
                let (b, mant, r) = get(self.mant, r, at, 5);
                get_bits(
                    mant,
                    r,
                    at + 1,
                    2 + if b {
                        1int
                    } else {
                        0int
                    },
                    k - 1,
                )
            } else {
                (1, self.mant, r)
            };
            (
                if negative {
                    -m
                } else {
                    m
                },
                Residual { zero, sign, expo, mant },
                r,
            )
        }
    }
}

proof fn lemma_put_ones(
    slots: Seq<u16>,
    w: Writing,
    base: int,
    i: int,
    k: int,
    data: Seq<u8>,
)
    requires
        all_open(slots),
        w.wf(),
        0 <= base,
        0 <= i <= k <= 16,
        base + k <= slots.len(),
    ensures
        all_open(put_ones(slots, w, base, i, k).0),
        put_ones(slots, w, base, i, k).0.len() == slots.len(),
        put_ones(slots, w, base, i, k).1.wf(),
        put_ones(slots, w, base, i, k).1.leads(data) ==> w.leads(data),
    decreases k - i,
{
    if i < k {
        lemma_put(slots, w, base + i, true, 4, data);
        let (s, v) = put(slots, w, base + i, true, 4);
        lemma_put_ones(s, v, base, i + 1, k, data);
    }
}

/// A count comes back from its ones and the zero behind them.
proof fn lemma_ones_round_trip(
    slots: Seq<u16>,
    w: Writing,
    base: int,
    i: int,
    k: int,
    r: Reading,
)
    requires
        all_open(slots),
        w.wf(),
        0 <= base,
        0 <= i <= k < 16,
        base + 16 <= slots.len(),
        w.followed(r),
        ({
            let (s, v) = put_ones(slots, w, base, i, k);
            put(s, v, base + k, false, 4).1.leads(r.data)
        }),
    ensures
        ({
            let (s, v) = put_ones(slots, w, base, i, k);
            let (s, v) = put(s, v, base + k, false, 4);
            let (n, t, q) = get_ones(slots, r, base, i);
            n == k && t == s && v.followed(q) && q.data == r.data
        }),
    decreases k - i,
{
    let (s, v) = put_ones(slots, w, base, i, k);
    lemma_put_ones(slots, w, base, i, k, r.data);
    lemma_put(s, v, base + k, false, 4, r.data);
    if i < k {
        let (s1, v1) = put(slots, w, base + i, true, 4);
        lemma_put(slots, w, base + i, true, 4, r.data);
        lemma_put_ones(s1, v1, base, i + 1, k, r.data);
        lemma_put_get(slots, w, base + i, true, 4, r);
        lemma_ones_round_trip(s1, v1, base, i + 1, k, get(slots, r, base + i, 4).2);
    } else {
        lemma_put_get(slots, w, base + k, false, 4, r);
    }
}

proof fn lemma_put_bits(slots: Seq<u16>, w: Writing, at: int, m: int, n: int, data: Seq<u8>)
    requires
        all_open(slots),
        w.wf(),
        0 <= at < slots.len(),
    ensures
        all_open(put_bits(slots, w, at, m, n).0),
        put_bits(slots, w, at, m, n).0.len() == slots.len(),
        put_bits(slots, w, at, m, n).1.wf(),
        put_bits(slots, w, at, m, n).1.leads(data) ==> w.leads(data),
    decreases n,
{
    if n > 0 {
        let b = m / crate::codeword::power2(n - 1) % 2 == 1;
        lemma_put(slots, w, at, b, 6, data);
        let (s, v) = put(slots, w, at, b, 6);
        lemma_put_bits(s, v, at, m, n - 1, data);
    }
}

proof fn lemma_next_bit(m: int, n: int)
    requires
        m >= 0,
        n >= 1,
    ensures
        m / crate::codeword::power2(n - 1) == 2 * (m / crate::codeword::power2(n)) + m / crate::codeword::power2(n - 1) % 2,
{
    let q = crate::codeword::power2(n - 1);
    crate::codeword::lemma_power2(n - 1);
    assert(crate::codeword::power2(n) == 2 * q);
    vstd::arithmetic::div_mod::lemma_div_denominator(m, q, 2);
}

proof fn lemma_bits_round_trip(
    slots: Seq<u16>,
    w: Writing,
    at: int,
    m: int,
    n: int,
    r: Reading,
)
    requires
        all_open(slots),
        w.wf(),
        0 <= at < slots.len(),
        0 <= m,
        0 <= n,
        w.followed(r),
        put_bits(slots, w, at, m, n).1.leads(r.data),
    ensures
        ({
            let (s, v) = put_bits(slots, w, at, m, n);
            let (x, t, q) = get_bits(slots, r, at, m / crate::codeword::power2(n), n);
            x == m && t == s && v.followed(q) && q.data == r.data
        }),
    decreases n,
{
    if n > 0 {
        let b = m / crate::codeword::power2(n - 1) % 2 == 1;
        lemma_put(slots, w, at, b, 6, r.data);
        let (s, v) = put(slots, w, at, b, 6);
        lemma_put_bits(s, v, at, m, n - 1, r.data);
        lemma_put_get(slots, w, at, b, 6, r);
        lemma_next_bit(m, n);
        lemma_bits_round_trip(s, v, at, m, n - 1, get(slots, r, at, 6).2);
    } else {
        assert(m / 1 == m);
    }
}

proof fn lemma_exponent(v: int)
    requires
        -0x1_0000 < v < 0x1_0000,
        v != 0,
    ensures
        0 <= crate::codeword::top_bit(if v < 0 {
            -v
        } else {
            v
        }) < 16,
{
    let m = if v < 0 {
        -v
    } else {
        v
    };
    crate::codeword::lemma_top_bit(m);
    if crate::codeword::top_bit(m) >= 16 {
        crate::codeword::lemma_power2_grows(16, crate::codeword::top_bit(m));
        reveal_with_fuel(crate::codeword::power2, 17);
    }
}

/// What holds of a residual model and its encoder after a value was written.
pub proof fn lemma_residual(m: Residual, ctxs: int, w: Writing, ctx: int, v: int, data: Seq<u8>)
    requires
        m.wf(ctxs),
        w.wf(),
        0 <= ctx < ctxs,
        -0x1_0000 < v < 0x1_0000,
    ensures
        m.encode(w, ctx, v).0.wf(ctxs),
        m.encode(w, ctx, v).1.wf(),
        m.encode(w, ctx, v).1.leads(data) ==> w.leads(data),
{
    lemma_put(m.zero, w, ctx, v != 0, 4, data);
    if v != 0 {
        let a = if v < 0 {
            -v
        } else {
            v
        };
        let k = crate::codeword::top_bit(a);
        lemma_exponent(v);
        let w1 = put(m.zero, w, ctx, true, 4).1;
        lemma_put(m.sign, w1, ctx, v < 0, 5, data);
        let w2 = put(m.sign, w1, ctx, v < 0, 5).1;
        lemma_put_ones(m.expo, w2, ctx * 16, 0, k, data);
        let (e3, w3) = put_ones(m.expo, w2, ctx * 16, 0, k);
        lemma_put(e3, w3, ctx * 16 + k, false, 4, data);
        let w4 = put(e3, w3, ctx * 16 + k, false, 4).1;
        if k > 0 {
            let at = (ctx * 16 + k) * 2;
            let b = a / crate::codeword::power2(k - 1) % 2 == 1;
            lemma_put(m.mant, w4, at, b, 5, data);
            let (m5, w5) = put(m.mant, w4, at, b, 5);
            lemma_put_bits(m5, w5, at + 1, a, k - 1, data);
        }
    }
}

/// A value comes back from the stream, and the model adapts alike on both sides.
pub proof fn law_residual_round_trip(
    m: Residual,
    ctxs: int,
    w: Writing,
    ctx: int,
    v: int,
    r: Reading,
)
    requires
        m.wf(ctxs),
        w.wf(),
        0 <= ctx < ctxs,
        -0x1_0000 < v < 0x1_0000,
        w.followed(r),
        m.encode(w, ctx, v).1.leads(r.data),
    ensures
        ({
            let (m2, w2) = m.encode(w, ctx, v);
            let (x, n2, r2) = m.decode(r, ctx);
            x == v && n2 == m2 && w2.followed(r2) && r2.data == r.data
        }),
{
    let data = r.data;
    lemma_put(m.zero, w, ctx, v != 0, 4, data);
    if v == 0 {
        lemma_put_get(m.zero, w, ctx, false, 4, r);
    } else {
        let a = if v < 0 {
            -v
        } else {
            v
        };
        let k = crate::codeword::top_bit(a);
        lemma_exponent(v);
        let w1 = put(m.zero, w, ctx, true, 4).1;
        lemma_put(m.sign, w1, ctx, v < 0, 5, data);
        let w2 = put(m.sign, w1, ctx, v < 0, 5).1;
        lemma_put_ones(m.expo, w2, ctx * 16, 0, k, data);
        let (e3, w3) = put_ones(m.expo, w2, ctx * 16, 0, k);
        lemma_put(e3, w3, ctx * 16 + k, false, 4, data);
        let w4 = put(e3, w3, ctx * 16 + k, false, 4).1;
        let at = (ctx * 16 + k) * 2;
        let b = a / crate::codeword::power2(k - 1) % 2 == 1;
        let (m5, w5) = put(m.mant, w4, at, b, 5);
        if k > 0 {
            lemma_put(m.mant, w4, at, b, 5, data);
            lemma_put_bits(m5, w5, at + 1, a, k - 1, data);
        }
        lemma_put_get(m.zero, w, ctx, true, 4, r);
        let r1 = get(m.zero, r, ctx, 4).2;
        lemma_put_get(m.sign, w1, ctx, v < 0, 5, r1);
        let r2 = get(m.sign, r1, ctx, 5).2;
        lemma_ones_round_trip(m.expo, w2, ctx * 16, 0, k, r2);
        let r3 = get_ones(m.expo, r2, ctx * 16, 0).2;
        crate::codeword::lemma_top_bit(a);
        if k > 0 {
            lemma_put_get(m.mant, w4, at, b, 5, r3);
            let r4 = get(m.mant, r3, at, 5).2;
            lemma_bits_round_trip(m5, w5, at + 1, a, k - 1, r4);
            lemma_next_bit(a, k);
            lemma_quotient_one(a, crate::codeword::power2(k));
        } else {
            assert(a == 1);
        }
    }
}

proof fn lemma_quotient_one(a: int, q: int)
    requires
        q >= 1,
        q <= a < 2 * q,
    ensures
        a / q == 1,
{
    assert(a / q == 1) by (nonlinear_arith)
        requires
            q >= 1,
            q <= a < 2 * q,
    ;
}

pub struct ResidualModel {
    pub zero: Vec<u16>,
    pub sign: Vec<u16>,
    pub expo: Vec<u16>,
    pub mant: Vec<u16>,
    pub ctxs: usize,
}

impl View for ResidualModel {
    type V = Residual;

    open spec fn view(&self) -> Residual {
        Residual {
            zero: self.zero@,
            sign: self.sign@,
            expo: self.expo@,
            mant: self.mant@,
        }
    }
}

/// Writes a bit with one of many slots.
pub fn put_bit(slots: &mut Vec<u16>, e: &mut Enc, i: usize, b: u32, shift: u32)
    requires
        all_open(old(slots)@),
        old(e)@.wf(),
        old(e).cache_size < u64::MAX - 8,
        i < old(slots)@.len(),
        1 <= shift <= 15,
    ensures
        (final(slots)@, final(e)@) == put(old(slots)@, old(e)@, i as int, b != 0, shift),
        all_open(final(slots)@),
        final(slots)@.len() == old(slots)@.len(),
        final(e)@.wf(),
        final(e).cache_size <= old(e).cache_size + 2,
{
    let mut p: u16 = slots[i];
    e.bit(&mut p, b, shift);
    slots[i] = p;
}

/// Reads a bit with one of many slots.
pub fn get_bit(slots: &mut Vec<u16>, d: &mut Dec<'_>, i: usize, shift: u32) -> (b: u32)
    requires
        all_open(old(slots)@),
        old(d)@.wf(),
        i < old(slots)@.len(),
        1 <= shift <= 15,
    ensures
        (b == 1, final(slots)@, final(d)@) == get(old(slots)@, old(d)@, i as int, shift),
        b <= 1,
        all_open(final(slots)@),
        final(slots)@.len() == old(slots)@.len(),
        final(d)@.wf(),
        final(d).data == old(d).data,
{
    let mut p: u16 = slots[i];
    let b = d.bit(&mut p, shift);
    slots[i] = p;
    b
}

impl ResidualModel {
    pub open spec fn wf(&self) -> bool {
        self@.wf(self.ctxs as int)
    }

    /// A model with `ctxs` contexts that has seen nothing.
    pub fn new(ctxs: usize) -> (m: Self)
        requires
            ctxs * 32 <= usize::MAX,
        ensures
            m.wf(),
            m.ctxs == ctxs,
            m@ == Residual::fresh(ctxs as nat),
    {
        let m = ResidualModel {
            zero: vec![PROB_INIT; ctxs],
            sign: vec![PROB_INIT; ctxs],
            expo: vec![PROB_INIT; ctxs * EXP_MAX],
            mant: vec![PROB_INIT; ctxs * EXP_MAX * 2],
            ctxs,
        };
        assert(m@ =~= Residual::fresh(ctxs as nat));
        m
    }

    /// Writes a value.
    pub fn encode(&mut self, e: &mut Enc, ctx: usize, v: i32)
        requires
            old(self).wf(),
            ctx < old(self).ctxs,
            old(self).ctxs * 32 <= usize::MAX,
            old(e)@.wf(),
            old(e).cache_size < u64::MAX - 128,
            -0x1_0000 < v < 0x1_0000,
        ensures
            final(self).wf(),
            final(self).ctxs == old(self).ctxs,
            final(e)@.wf(),
            final(e).cache_size <= old(e).cache_size + 70,
            (final(self)@, final(e)@) == old(self)@.encode(old(e)@, ctx as int, v as int),
    {
        if v == 0 {
            put_bit(&mut self.zero, e, ctx, 0, 4);
            return ;
        }
        put_bit(&mut self.zero, e, ctx, 1, 4);
        put_bit(&mut self.sign, e, ctx, if v < 0 { 1 } else { 0 }, 5);
        let m: u32 = if v < 0 { (-v) as u32 } else { v as u32 };
        proof {
            lemma_exponent(v as int);
            crate::codeword::lemma_top_bit(m as int);
        }
        let k: usize = highest(m);
        let base: usize = ctx * EXP_MAX;
        let ghost (expo0, w0) = (self.expo@, e@);
        let ghost whole = put_ones(expo0, w0, base as int, 0, k as int);
        let mut i: usize = 0;
        while i < k
            invariant
                i <= k < 16,
                base + 16 <= self.expo.len(),
                self.expo@.len() == expo0.len(),
                all_open(self.expo@),
                e@.wf(),
                e.cache_size <= old(e).cache_size + 4 + 2 * i,
                old(e).cache_size < u64::MAX - 128,
                whole == put_ones(self.expo@, e@, base as int, i as int, k as int),
                self.zero@.len() == old(self).ctxs,
                self.sign@.len() == old(self).ctxs,
                self.mant@ == old(self).mant@,
                self.ctxs == old(self).ctxs,
                all_open(self.zero@),
                all_open(self.sign@),
                self.zero@ == put(old(self).zero@, old(e)@, ctx as int, true, 4).0,
                self.sign@ == put(
                    old(self).sign@,
                    put(old(self).zero@, old(e)@, ctx as int, true, 4).1,
                    ctx as int,
                    v < 0,
                    5,
                ).0,
            decreases k - i,
        {
            put_bit(&mut self.expo, e, base + i, 1, 4);
            i += 1;
        }
        put_bit(&mut self.expo, e, base + k, 0, 4);
        if k > 0 {
            let at: usize = (base + k) * 2;
            let top: u32 = bit_of(m, k - 1);
            put_bit(&mut self.mant, e, at, top, 5);
            let ghost (mant0, w1) = (self.mant@, e@);
            let ghost rest = put_bits(mant0, w1, at + 1, m as int, k - 1);
            let ghost held = *self;
            let mut n: usize = k - 1;
            while n > 0
                invariant
                    n < k < 16,
                    at + 1 < self.mant.len(),
                    self.mant@.len() == held.mant@.len(),
                    all_open(self.mant@),
                    e@.wf(),
                    e.cache_size <= old(e).cache_size + 40 + 2 * (k - 1 - n),
                    old(e).cache_size < u64::MAX - 128,
                    rest == put_bits(self.mant@, e@, at + 1, m as int, n as int),
                    self.zero == held.zero,
                    self.sign == held.sign,
                    self.expo == held.expo,
                    self.ctxs == held.ctxs,
                decreases n,
            {
                let b: u32 = bit_of(m, n - 1);
                put_bit(&mut self.mant, e, at + 1, b, 6);
                n -= 1;
            }
        }
    }

    /// Reads a value.
    pub fn decode(&mut self, d: &mut Dec<'_>, ctx: usize) -> (v: i32)
        requires
            old(self).wf(),
            ctx < old(self).ctxs,
            old(self).ctxs * 32 <= usize::MAX,
            old(d)@.wf(),
        ensures
            final(self).wf(),
            final(self).ctxs == old(self).ctxs,
            final(d)@.wf(),
            final(d).data == old(d).data,
            (v as int, final(self)@, final(d)@) == old(self)@.decode(old(d)@, ctx as int),
            -0x1_0000 < v < 0x1_0000,
    {
        if get_bit(&mut self.zero, d, ctx, 4) == 0 {
            return 0;
        }
        let negative: bool = get_bit(&mut self.sign, d, ctx, 5) == 1;
        let base: usize = ctx * EXP_MAX;
        let ghost held = *self;
        let ghost whole = get_ones(self.expo@, d@, base as int, 0);
        let mut ones: usize = 0;
        let mut more = true;
        while more && ones < EXP_MAX
            invariant
                ones <= 16,
                base + 16 <= self.expo.len(),
                self.expo@.len() == held.expo@.len(),
                all_open(self.expo@),
                d@.wf(),
                d.data == old(d).data,
                more ==> whole == get_ones(self.expo@, d@, base as int, ones as int),
                !more ==> whole == (ones as int, self.expo@, d@) && ones < 16,
                self.zero == held.zero,
                self.sign == held.sign,
                self.mant == held.mant,
                self.ctxs == held.ctxs,
            decreases 16 - ones, more as int,
        {
            if get_bit(&mut self.expo, d, base + ones, 4) == 1 {
                ones += 1;
            } else {
                more = false;
            }
        }
        let k: usize = if ones < 16 { ones } else { 15 };
        let mut m: u32 = 1;
        if k > 0 {
            let at: usize = (base + k) * 2;
            let top = get_bit(&mut self.mant, d, at, 5);
            m = 2 + top;
            let ghost held = *self;
            let ghost rest = get_bits(self.mant@, d@, at + 1, m as int, k - 1);
            let mut n: usize = k - 1;
            proof {
                reveal_with_fuel(crate::codeword::power2, 3);
            }
            while n > 0
                invariant
                    n < k < 16,
                    at + 1 < self.mant.len(),
                    self.mant@.len() == held.mant@.len(),
                    all_open(self.mant@),
                    d@.wf(),
                    d.data == old(d).data,
                    rest == get_bits(self.mant@, d@, at + 1, m as int, n as int),
                    1 <= m < crate::codeword::power2(k + 1 - n),
                    self.zero == held.zero,
                    self.sign == held.sign,
                    self.expo == held.expo,
                    self.ctxs == held.ctxs,
                decreases n,
            {
                proof {
                    crate::codeword::lemma_power2_grows(k + 1 - n, 16);
                    reveal_with_fuel(crate::codeword::power2, 17);
                }
                let b = get_bit(&mut self.mant, d, at + 1, 6);
                m = 2 * m + b;
                n -= 1;
            }
            proof {
                crate::codeword::lemma_power2_grows(k + 1 - n, 16);
                reveal_with_fuel(crate::codeword::power2, 17);
            }
        }
        if negative {
            -(m as i32)
        } else {
            m as i32
        }
    }
}

/// The position of the highest bit.
pub(crate) fn highest(m: u32) -> (k: usize)
    requires
        m >= 1,
    ensures
        k == crate::codeword::top_bit(m as int),
        k < 32,
{
    let mut k: usize = 0;
    let mut left: u32 = m;
    proof {
        crate::codeword::lemma_top_bit(m as int);
        if crate::codeword::top_bit(m as int) >= 32 {
            crate::codeword::lemma_power2_grows(32, crate::codeword::top_bit(m as int));
            reveal_with_fuel(crate::codeword::power2, 33);
        }
    }
    while left >= 2
        invariant
            left >= 1,
            k + crate::codeword::top_bit(left as int) == crate::codeword::top_bit(m as int),
            crate::codeword::top_bit(m as int) < 32,
        decreases left,
    {
        proof {
            crate::codeword::lemma_top_bit((left / 2) as int);
        }
        left = left / 2;
        k += 1;
    }
    k
}

/// Bit number `n` of a value.
fn bit_of(m: u32, n: usize) -> (b: u32)
    ensures
        b == m as int / crate::codeword::power2(n as int) % 2,
{
    let mut left: u32 = m;
    let mut i: usize = 0;
    proof {
        assert(m as int / 1 == m);
    }
    while i < n
        invariant
            i <= n,
            left == m as int / crate::codeword::power2(i as int),
        decreases n - i,
    {
        proof {
            crate::codeword::lemma_power2(i as int);
            vstd::arithmetic::div_mod::lemma_div_denominator(m as int, crate::codeword::power2(i as int), 2);
        }
        left = left / 2;
        i += 1;
    }
    left % 2
}

/// What is written of the first `k` of some values, each beside its context.
pub open spec fn written_all(m: Residual, w: Writing, steps: Seq<(int, int)>, k: int) -> (Residual, Writing)
    decreases k,
{
    if k <= 0 {
        (m, w)
    } else {
        let (m1, w1) = written_all(m, w, steps, k - 1);
        m1.encode(w1, steps[k - 1].0, steps[k - 1].1)
    }
}

/// The first `k` values that are read beside some contexts.
pub open spec fn read_all(m: Residual, r: Reading, steps: Seq<(int, int)>, k: int) -> (Seq<int>, Residual, Reading)
    decreases k,
{
    if k <= 0 {
        (Seq::empty(), m, r)
    } else {
        let (done, m1, r1) = read_all(m, r, steps, k - 1);
        let (x, m2, r2) = m1.decode(r1, steps[k - 1].0);
        (done.push(x), m2, r2)
    }
}

/// Whether values can be written, each beside its context.
pub open spec fn writable(steps: Seq<(int, int)>, ctxs: int) -> bool {
    forall|i: int|
        0 <= i < steps.len() ==> 0 <= (#[trigger] steps[i]).0 < ctxs && -0x1_0000 < steps[i].1 < 0x1_0000
}

proof fn lemma_written_all(m: Residual, ctxs: int, w: Writing, steps: Seq<(int, int)>, k: int, n: int, data: Seq<u8>)
    requires
        m.wf(ctxs),
        w.wf(),
        writable(steps, ctxs),
        0 <= k <= n <= steps.len(),
    ensures
        written_all(m, w, steps, n).0.wf(ctxs),
        written_all(m, w, steps, n).1.wf(),
        written_all(m, w, steps, n).1.leads(data) ==> written_all(m, w, steps, k).1.leads(data),
    decreases n,
{
    if n > 0 {
        lemma_written_all(m, ctxs, w, steps, if k < n {
            k
        } else {
            n - 1
        }, n - 1, data);
        let (m1, w1) = written_all(m, w, steps, n - 1);
        assert(0 <= steps[n - 1].0 < ctxs);
        lemma_residual(m1, ctxs, w1, steps[n - 1].0, steps[n - 1].1, data);
    }
}

/// All values of a list come back from the stream, and the model has adapted alike on both sides.
pub proof fn law_residuals_round_trip(m: Residual, ctxs: int, w: Writing, steps: Seq<(int, int)>, r: Reading, k: int)
    requires
        m.wf(ctxs),
        w.wf(),
        writable(steps, ctxs),
        w.followed(r),
        0 <= k <= steps.len(),
        written_all(m, w, steps, k).1.leads(r.data),
    ensures
        ({
            let (m2, w2) = written_all(m, w, steps, k);
            let (got, n2, r2) = read_all(m, r, steps, k);
            &&& got == Seq::new(k as nat, |i: int| steps[i].1)
            &&& n2 == m2
            &&& w2.followed(r2)
            &&& r2.data == r.data
        }),
    decreases k,
{
    if k > 0 {
        lemma_written_all(m, ctxs, w, steps, k - 1, k, r.data);
        lemma_written_all(m, ctxs, w, steps, k - 1, k - 1, r.data);
        law_residuals_round_trip(m, ctxs, w, steps, r, k - 1);
        let (m1, w1) = written_all(m, w, steps, k - 1);
        let (done, n1, r1) = read_all(m, r, steps, k - 1);
        assert(0 <= steps[k - 1].0 < ctxs);
        law_residual_round_trip(m1, ctxs, w1, steps[k - 1].0, steps[k - 1].1, r1);
        assert(read_all(m, r, steps, k).0 =~= Seq::new(k as nat, |i: int| steps[i].1));
    } else {
        assert(read_all(m, r, steps, k).0 =~= Seq::new(k as nat, |i: int| steps[i].1));
    }
}

}
