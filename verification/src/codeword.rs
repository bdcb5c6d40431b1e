//! Bit strings and the variable-length codewords of ProRes planes.

use crate::wire::{fail, Outcome};
use vstd::prelude::*;

verus! {

pub open spec fn power2(n: int) -> int
    decreases n,
{
    if n <= 0 {
        1
    } else {
        2 * power2(n - 1)
    }
}

/// The position of the highest bit of a positive number.
pub open spec fn top_bit(m: int) -> int
    decreases m,
{
    if m < 2 {
        0
    } else {
        1 + top_bit(m / 2)
    }
}

pub proof fn lemma_power2(n: int)
    ensures
        power2(n) >= 1,
    decreases n,
{
    if n > 0 {
        lemma_power2(n - 1);
    }
}

pub proof fn lemma_power2_grows(a: int, b: int)
    requires
        a <= b,
    ensures
        power2(a) <= power2(b),
    decreases b - a,
{
    if a < b {
        lemma_power2_grows(a, b - 1);
        lemma_power2(b - 1);
    }
}

pub proof fn lemma_top_bit(m: int)
    requires
        m >= 1,
    ensures
        power2(top_bit(m)) <= m < 2 * power2(top_bit(m)),
        top_bit(m) >= 0,
    decreases m,
{
    if m >= 2 {
        lemma_top_bit(m / 2);
    }
}

pub proof fn lemma_top_bit_below(m: int, n: int)
    requires
        1 <= m < power2(n),
        n >= 1,
    ensures
        0 <= top_bit(m) < n,
{
    lemma_top_bit(m);
    if top_bit(m) >= n {
        lemma_power2_grows(n, top_bit(m));
    }
}

pub proof fn lemma_top_bit_at_least(m: int, n: int)
    requires
        m >= power2(n),
        n >= 0,
    ensures
        top_bit(m) >= n,
{
    lemma_power2(n);
    lemma_top_bit(m);
    if top_bit(m) < n {
        lemma_power2_grows(top_bit(m) + 1, n);
    }
}

pub fn highest(m: u32) -> (k: usize)
    requires
        m >= 1,
    ensures
        k == top_bit(m as int),
        k < 32,
{
    let mut k: usize = 0;
    let mut left: u32 = m;
    proof {
        reveal_with_fuel(power2, 33);
        lemma_top_bit_below(m as int, 32);
    }
    while left >= 2
        invariant
            left >= 1,
            k + top_bit(left as int) == top_bit(m as int),
            top_bit(m as int) < 32,
        decreases left,
    {
        proof {
            lemma_top_bit((left / 2) as int);
        }
        left = left / 2;
        k += 1;
    }
    k
}

/// Two to the power of `n`.
pub fn power(n: usize) -> (p: u32)
    requires
        n <= 31,
    ensures
        p == power2(n as int),
{
    let mut p: u32 = 1;
    let mut i: usize = 0;
    while i < n
        invariant
            i <= n <= 31,
            p == power2(i as int),
        decreases n - i,
    {
        proof {
            lemma_power2_grows(i as int, 30);
            reveal_with_fuel(power2, 31);
        }
        p = p * 2;
        i += 1;
    }
    p
}

/// Bit number `i` of a byte string, high bits first.
pub open spec fn bit_at(data: Seq<u8>, i: int) -> bool {
    data[i / 8] / (1u8 << ((7 - i % 8) as u8)) % 2 == 1
}

/// All bits of a byte string.
pub open spec fn bits_of(data: Seq<u8>) -> Seq<bool> {
    Seq::new(data.len() * 8, |i: int| bit_at(data, i))
}

pub open spec fn one(b: bool) -> int {
    if b {
        1
    } else {
        0
    }
}

/// The number that a bit string is, high bit first.
pub open spec fn number(bits: Seq<bool>) -> int
    decreases bits.len(),
{
    if bits.len() == 0 {
        0
    } else {
        2 * number(bits.drop_last()) + one(bits.last())
    }
}

/// The lowest `n` bits of a number, high bit first.
pub open spec fn digits(value: int, n: int) -> Seq<bool>
    decreases n,
{
    if n <= 0 {
        Seq::empty()
    } else {
        digits(value / 2, n - 1).push(value % 2 == 1)
    }
}

pub open spec fn zeros(n: int) -> Seq<bool> {
    Seq::new(n as nat, |i: int| false)
}

pub proof fn lemma_digits(value: int, n: int)
    requires
        0 <= n,
        0 <= value,
    ensures
        digits(value, n).len() == n,
        value < power2(n) ==> number(digits(value, n)) == value,
    decreases n,
{
    if n > 0 {
        lemma_digits(value / 2, n - 1);
        assert(digits(value, n).drop_last() =~= digits(value / 2, n - 1));
    }
}

/// The fields of a codebook: how many low bits a short codeword carries, how many a long one
/// starts with, and how many zeros may stand before a short one.
pub open spec fn rice(book: u8) -> int {
    (book / 32) as int
}

pub open spec fn exp(book: u8) -> int {
    (book / 4 % 8) as int
}

pub open spec fn switch(book: u8) -> int {
    (book % 4) as int
}

/// The first value that gets a long codeword.
pub open spec fn threshold(book: u8) -> int {
    (switch(book) + 1) * power2(rice(book))
}

/// The codeword of a value.
#[verifier::opaque]
pub open spec fn codeword(value: int, book: u8) -> Seq<bool> {
    if value < threshold(book) {
        zeros(value / power2(rice(book))).push(true) + digits(
            value % power2(rice(book)),
            rice(book),
        )
    } else {
        let adjusted = value + power2(exp(book)) - threshold(book);
        let top = top_bit(adjusted);
        zeros(top + switch(book) + 1 - exp(book)) + digits(adjusted, top + 1)
    }
}

/// How many zero bits stand at `pos`, of which `count` were seen before. At most fifteen may.
pub open spec fn zeros_at(bits: Seq<bool>, pos: int, count: int) -> Outcome<int>
    decreases bits.len() - pos,
{
    if pos >= bits.len() {
        Err("truncated ProRes codeword"@)
    } else if bits[pos] {
        Ok(count)
    } else if count >= 15 {
        Err("oversized ProRes codeword"@)
    } else {
        zeros_at(bits, pos + 1, count + 1)
    }
}

/// The number of `n` bits at `pos`.
pub open spec fn field_at(bits: Seq<bool>, pos: int, n: int) -> Outcome<int> {
    if pos + n > bits.len() {
        Err("truncated ProRes codeword"@)
    } else {
        Ok(number(bits.subrange(pos, pos + n)))
    }
}

/// The value of the codeword at `pos`, and the position behind it.
#[verifier::opaque]
pub open spec fn word_at(bits: Seq<bool>, pos: int, book: u8) -> Outcome<(int, int)> {
    match zeros_at(bits, pos, 0) {
        Err(e) => Err(e),
        Ok(n) => if n <= switch(book) {
            match field_at(bits, pos + n + 1, rice(book)) {
                Err(e) => Err(e),
                Ok(low) => Ok((n * power2(rice(book)) + low, pos + n + 1 + rice(book))),
            }
        } else {
            let suffix = exp(book) + n - switch(book) - 1;
            match field_at(bits, pos + n + 1, suffix) {
                Err(e) => Err(e),
                Ok(low) => Ok(
                    (
                        power2(suffix) + low - power2(exp(book)) + threshold(book),
                        pos + n + 1 + suffix,
                    ),
                ),
            }
        },
    }
}

proof fn lemma_zeros_found(bits: Seq<bool>, pos: int, count: int, n: int)
    requires
        0 <= pos,
        0 <= count <= n <= 15,
        pos + n - count < bits.len(),
        forall|i: int| pos <= i < pos + n - count ==> !bits[i],
        bits[pos + n - count],
    ensures
        zeros_at(bits, pos, count) == Ok::<int, Seq<char>>(n),
    decreases n - count,
{
    if count < n {
        lemma_zeros_found(bits, pos + 1, count + 1, n);
    }
}

pub proof fn lemma_zeros_bounds(bits: Seq<bool>, pos: int, count: int)
    requires
        0 <= pos,
        0 <= count <= 15,
    ensures
        zeros_at(bits, pos, count) matches Ok(n) ==> count <= n <= 15 && pos + n - count < bits.len()
            && bits[pos + n - count] && (forall|i: int|
            pos <= i < pos + n - count ==> !bits[i]),
    decreases bits.len() - pos,
{
    if pos < bits.len() && !bits[pos] && count < 15 {
        lemma_zeros_bounds(bits, pos + 1, count + 1);
    }
}

/// How many zeros a codeword starts with.
#[verifier::opaque]
pub open spec fn leading(value: int, book: u8) -> int {
    if value < threshold(book) {
        value / power2(rice(book))
    } else {
        top_bit(value + power2(exp(book)) - threshold(book)) + switch(book) + 1 - exp(book)
    }
}

pub proof fn lemma_codeword(value: int, book: u8)
    requires
        0 <= value,
    ensures
        codeword(value, book).len() >= 1,
        0 <= leading(value, book) < codeword(value, book).len(),
        codeword(value, book)[leading(value, book)],
        forall|i: int| 0 <= i < leading(value, book) ==> !codeword(value, book)[i],
        value >= threshold(book) ==> top_bit(value + power2(exp(book)) - threshold(book)) >= exp(
            book,
        ) && codeword(value, book).len() == leading(value, book) + top_bit(
            value + power2(exp(book)) - threshold(book),
        ) + 1,
        value < threshold(book) ==> leading(value, book) <= switch(book) && codeword(
            value,
            book,
        ).len() == leading(value, book) + 1 + rice(book),
{
    reveal(codeword);
    reveal(leading);
    lemma_power2(rice(book));
    lemma_power2(exp(book));
    if value < threshold(book) {
        let q = power2(rice(book));
        assert(0 <= value / q && value / q < switch(book) + 1 && 0 <= value % q) by (nonlinear_arith)
            requires
                0 <= value < (switch(book) + 1) * q,
                q >= 1,
        ;
        lemma_digits(value % q, rice(book));
    } else {
        let adjusted = value + power2(exp(book)) - threshold(book);
        lemma_top_bit_at_least(adjusted, exp(book));
        let top = top_bit(adjusted);
        lemma_digits(adjusted, top + 1);
        lemma_top_bit(adjusted);
        lemma_first_digit(adjusted, top + 1);
    }
}

/// A number that needs all its bits starts with a one.
proof fn lemma_first_digit(value: int, n: int)
    requires
        n >= 1,
        power2(n - 1) <= value < power2(n),
    ensures
        digits(value, n).len() == n,
        digits(value, n)[0],
    decreases n,
{
    lemma_power2(n - 1);
    lemma_digits(value, n);
    if n > 1 {
        lemma_first_digit(value / 2, n - 1);
        lemma_digits(value / 2, n - 1);
    } else {
        assert(value == 1);
    }
}

/// The bits below the first one of a number.
proof fn lemma_tail_digits(value: int, n: int)
    requires
        n >= 1,
        power2(n - 1) <= value < power2(n),
    ensures
        digits(value, n).len() == n,
        number(digits(value, n).subrange(1, n)) == value - power2(n - 1),
    decreases n,
{
    lemma_digits(value, n);
    lemma_power2(n - 1);
    let d = digits(value, n);
    if n > 1 {
        let e = digits(value / 2, n - 1);
        lemma_tail_digits(value / 2, n - 1);
        lemma_digits(value / 2, n - 1);
        assert(d.subrange(1, n).drop_last() =~= e.subrange(1, n - 1));
        assert(d.subrange(1, n).last() == d.last());
    } else {
        assert(d.subrange(1, 1) =~= Seq::empty());
    }
}

/// A value comes back from its codeword, whatever follows it.
pub proof fn law_codeword_round_trip(bits: Seq<bool>, pos: int, value: int, book: u8)
    requires
        0 <= value,
        0 <= pos,
        leading(value, book) <= 15,
        pos + codeword(value, book).len() <= bits.len(),
        bits.subrange(pos, pos + codeword(value, book).len()) == codeword(value, book),
    ensures
        word_at(bits, pos, book) == Ok::<(int, int), Seq<char>>(
            (value, pos + codeword(value, book).len()),
        ),
{
    reveal(codeword);
    reveal(leading);
    reveal(word_at);
    let w = codeword(value, book);
    let n = leading(value, book);
    lemma_codeword(value, book);
    assert forall|i: int| 0 <= i < w.len() implies bits[pos + i] == w[i] by {
        assert(bits.subrange(pos, pos + w.len())[i] == w[i]);
    }
    assert forall|i: int| pos <= i < pos + n implies !bits[i] by {
        assert(bits[pos + (i - pos)] == w[i - pos]);
    }
    assert(bits[pos + n] == w[n]);
    lemma_zeros_found(bits, pos, 0, n);
    lemma_power2(rice(book));
    lemma_power2(exp(book));
    if value < threshold(book) {
        let q = power2(rice(book));
        let low = digits(value % q, rice(book));
        assert(0 <= value % q < q) by (nonlinear_arith)
            requires
                q >= 1,
        ;
        lemma_digits(value % q, rice(book));
        assert(bits.subrange(pos + n + 1, pos + n + 1 + rice(book)) =~= low) by {
            assert forall|i: int| 0 <= i < rice(book) implies bits[pos + n + 1 + i] == low[i] by {
                assert(w[n + 1 + i] == low[i]);
            }
        }
        assert((value / q) * q + value % q == value) by (nonlinear_arith)
            requires
                q >= 1,
        ;
    } else {
        let adjusted = value + power2(exp(book)) - threshold(book);
        let top = top_bit(adjusted);
        lemma_top_bit(adjusted);
        lemma_tail_digits(adjusted, top + 1);
        let d = digits(adjusted, top + 1);
        let suffix = exp(book) + n - switch(book) - 1;
        assert(suffix == top);
        if n <= switch(book) {
            // A long codeword has more zeros than any short one.
            assert(top >= exp(book));
            assert(false);
        }
        let x = bits.subrange(pos + n + 1, pos + n + 1 + suffix);
        let y = d.subrange(1, top + 1);
        assert forall|i: int| 0 <= i < top implies x[i] == y[i] by {
            assert(x[i] == bits[pos + (n + 1 + i)]);
            assert(w[n + 1 + i] == d[1 + i]);
        }
        assert(x =~= y);
    }
}

pub struct Bits<'a> {
    pub data: &'a [u8],
    pub pos: usize,
}

/// The largest byte string that bits are counted in.
pub const MOST: usize = usize::MAX / 8 - 1000;

impl<'a> Bits<'a> {
    pub open spec fn wf(&self) -> bool {
        self.data@.len() <= MOST && self.pos <= self.data@.len() * 8
    }

    fn next(&mut self) -> (b: bool)
        requires
            old(self).wf(),
            old(self).pos < old(self).data@.len() * 8,
        ensures
            b == bits_of(old(self).data@)[old(self).pos as int],
            final(self).data == old(self).data,
            final(self).pos == old(self).pos + 1,
    {
        proof {
            lemma_mask((7 - self.pos % 8) as u8);
        }
        let b: bool = self.data[self.pos / 8] / (1u8 << ((7 - self.pos % 8) as u8)) % 2 == 1;
        self.pos += 1;
        b
    }

    /// Reads a number of `n` bits.
    pub fn get(&mut self, n: usize) -> (r: Result<u32, String>)
        requires
            old(self).wf(),
        ensures
            final(self).wf(),
            final(self).data == old(self).data,
            match r {
                Ok(v) => n <= 31 && field_at(bits_of(old(self).data@), old(self).pos as int, n as int)
                    == Ok::<int, Seq<char>>(v as int) && final(self).pos == old(self).pos + n && v
                    < power2(n as int),
                Err(e) => (n > 31 || old(self).pos + n > old(self).data@.len() * 8) && e@
                    == "truncated ProRes codeword"@ && *final(self) == *old(self),
            },
    {
        if n > 31 || self.pos + n > self.data.len() * 8 {
            return Err(fail("truncated ProRes codeword"));
        }
        let ghost bits = bits_of(self.data@);
        let start: usize = self.pos;
        let mut v: u32 = 0;
        let mut i: usize = 0;
        assert(bits.subrange(start as int, start as int) =~= Seq::empty());
        while i < n
            invariant
                self.wf(),
                i <= n <= 31,
                start + n <= self.data@.len() * 8,
                self.data == old(self).data,
                bits == bits_of(self.data@),
                self.pos == start + i,
                v == number(bits.subrange(start as int, start + i)),
                v < power2(i as int),
            decreases n - i,
        {
            proof {
                lemma_power2_grows(i as int, 30);
                reveal_with_fuel(power2, 31);
                let next = bits.subrange(start as int, start + i + 1);
                assert(next.drop_last() =~= bits.subrange(start as int, start + i));
            }
            let b = self.next();
            v = v * 2 + if b { 1 } else { 0 };
            i += 1;
        }
        Ok(v)
    }

    /// Whether fewer than 32 bits are left, all of them zero.
    pub fn zero_tail(&self) -> (r: bool)
        requires
            self.wf(),
        ensures
            r == zero_tail_at(bits_of(self.data@), self.pos as int),
    {
        let end: usize = self.data.len() * 8;
        if end - self.pos >= 32 {
            return false;
        }
        let mut rest = Bits { data: self.data, pos: self.pos };
        while rest.pos < end
            invariant
                rest.wf(),
                rest.data == self.data,
                end == self.data@.len() * 8,
                self.pos <= rest.pos <= end,
                forall|i: int| self.pos <= i < rest.pos ==> !bits_of(self.data@)[i],
            decreases end - rest.pos,
        {
            let ghost at = rest.pos as int;
            if rest.next() {
                assert(bits_of(self.data@)[at]);
                return false;
            }
        }
        true
    }

    /// Reads the value of a codeword.
    pub fn word(&mut self, book: u8) -> (r: Result<u32, String>)
        requires
            old(self).wf(),
        ensures
            final(self).wf(),
            final(self).data == old(self).data,
            match r {
                Ok(v) => word_at(bits_of(old(self).data@), old(self).pos as int, book) == Ok::<
                    (int, int),
                    Seq<char>,
                >((v as int, final(self).pos as int)) && v < 0x100_0000 && final(self).pos > old(
                    self,
                ).pos,
                Err(e) => word_at(bits_of(old(self).data@), old(self).pos as int, book) == Err::<
                    (int, int),
                    Seq<char>,
                >(e@),
            },
    {
        proof {
            reveal(word_at);
        }
        let ghost bits = bits_of(self.data@);
        let start: usize = self.pos;
        let mut zeros: usize = 0;
        let mut open = true;
        let ghost whole = zeros_at(bits, start as int, 0);
        while open
            invariant
                self.wf(),
                self.data == old(self).data,
                start == old(self).pos,
                bits == bits_of(self.data@),
                zeros <= 15,
                whole == zeros_at(bits, start as int, 0),
                open ==> self.pos == start + zeros && whole == zeros_at(
                    bits,
                    self.pos as int,
                    zeros as int,
                ),
                !open ==> self.pos == start + zeros + 1 && whole == Ok::<int, Seq<char>>(
                    zeros as int,
                ),
            decreases self.data@.len() * 8 - self.pos,
        {
            proof {
                reveal(word_at);
            }
            if self.pos >= self.data.len() * 8 {
                return Err(fail("truncated ProRes codeword"));
            }
            if self.next() {
                open = false;
            } else {
                if zeros >= 15 {
                    return Err(fail("oversized ProRes codeword"));
                }
                zeros += 1;
            }
        }
        let rice: usize = (book / 32) as usize;
        let exp: usize = (book / 4 % 8) as usize;
        let switch: usize = (book % 4) as usize;
        proof {
            reveal_with_fuel(power2, 23);
            lemma_power2_grows(rice as int, 7);
            lemma_power2_grows(exp as int, 7);
            lemma_power2(rice as int);
            lemma_power2(exp as int);
            assert(zeros * power2(rice as int) <= 15 * 128) by (nonlinear_arith)
                requires
                    0 <= zeros <= 15,
                    0 <= power2(rice as int) <= 128,
            ;
            assert((switch + 1) * power2(rice as int) <= 4 * 128) by (nonlinear_arith)
                requires
                    0 <= switch <= 3,
                    0 <= power2(rice as int) <= 128,
            ;
        }
        if zeros <= switch {
            let low = self.get(rice)?;
            Ok(zeros as u32 * power(rice) + low)
        } else {
            let suffix: usize = exp + zeros - switch - 1;
            let low = self.get(suffix)?;
            proof {
                lemma_power2_grows(exp as int, suffix as int);
                lemma_power2_grows(suffix as int, 21);
            }
            Ok(power(suffix) + low - power(exp) + (switch as u32 + 1) * power(rice))
        }
    }
}

/// Whether fewer than 32 bits are left behind `pos`, all of them zero.
pub open spec fn zero_tail_at(bits: Seq<bool>, pos: int) -> bool {
    bits.len() - pos < 32 && forall|i: int| pos <= i < bits.len() ==> !bits[i]
}

pub proof fn lemma_mask(k: u8)
    by (bit_vector)
    requires
        k < 8,
    ensures
        1u8 << k >= 1,
{
}

proof fn lemma_set_bit(b: u8, k: u8, j: u8)
    by (bit_vector)
    requires
        k < 8,
        j < 8,
        b / (1u8 << k) % 2 == 0,
    ensures
        b + (1u8 << k) <= 255,
        ((b + (1u8 << k)) as u8) / (1u8 << j) % 2 == (if j == k {
            1
        } else {
            b / (1u8 << j) % 2
        }),
{
}

pub struct Writer {
    pub data: Vec<u8>,
    pub pos: usize,
}

impl Writer {
    /// The bits behind `pos` are still zero.
    pub open spec fn wf(&self) -> bool {
        &&& self.data@.len() <= MOST
        &&& self.pos <= self.data@.len() * 8
        &&& forall|i: int| self.pos <= i < self.data@.len() * 8 ==> !#[trigger] bits_of(self.data@)[i]
    }

    /// The bits written so far.
    pub open spec fn bits(&self) -> Seq<bool> {
        bits_of(self.data@).subrange(0, self.pos as int)
    }

    fn push(&mut self, b: bool)
        requires
            old(self).wf(),
            old(self).pos < old(self).data@.len() * 8,
        ensures
            final(self).wf(),
            final(self).data@.len() == old(self).data@.len(),
            final(self).pos == old(self).pos + 1,
            final(self).bits() == old(self).bits().push(b),
    {
        let at: usize = self.pos / 8;
        let k: u8 = (7 - self.pos % 8) as u8;
        proof {
            assert(!bits_of(self.data@)[self.pos as int]);
            lemma_mask(k);
        }
        if b {
            proof {
                lemma_set_bit(self.data@[at as int], k, k);
            }
            self.data[at] = self.data[at] + (1u8 << k);
            proof {
                let (before, after) = (bits_of(old(self).data@), bits_of(self.data@));
                assert forall|i: int| 0 <= i < after.len() && i != self.pos implies after[i]
                    == before[i] by {
                    if i / 8 == at {
                        lemma_set_bit(old(self).data@[at as int], k, (7 - i % 8) as u8);
                    }
                }
                assert(after[self.pos as int]);
            }
        }
        self.pos += 1;
        proof {
            assert(self.bits() =~= old(self).bits().push(b));
        }
    }

    /// Writes the lowest `n` bits of a value.
    pub fn put(&mut self, value: u32, n: usize) -> (r: Result<(), String>)
        requires
            old(self).wf(),
        ensures
            final(self).wf(),
            final(self).data@.len() == old(self).data@.len(),
            match r {
                Ok(_) => n <= 31 && final(self).bits() == old(self).bits() + digits(
                    value as int,
                    n as int,
                ) && final(self).pos == old(self).pos + n,
                Err(e) => (n > 31 || old(self).pos + n > old(self).data@.len() * 8) && e@
                    == "ProRes re-encoding overflow"@ && *final(self) == *old(self),
            },
    {
        if n > 31 || self.pos + n > self.data.len() * 8 {
            return Err(fail("ProRes re-encoding overflow"));
        }
        let ghost before = self.bits();
        let mut left: usize = n;
        proof {
            assert(value as int / 1 == value);
            lemma_shifted_digits(value as int, n as int, 0);
            assert(before + digits(value as int, n as int).subrange(0, 0) =~= before);
        }
        while left > 0
            invariant
                self.wf(),
                left <= n <= 31,
                self.data@.len() == old(self).data@.len(),
                old(self).pos + n <= self.data@.len() * 8,
                self.pos == old(self).pos + n - left,
                digits(value as int, n as int).len() == n,
                self.bits() == before + digits(value as int, n as int).subrange(0, n - left),
            decreases left,
        {
            proof {
                lemma_power2_grows(0, left - 1);
                lemma_shifted_digits(value as int, n as int, left - 1);
            }
            let b: bool = value / power(left - 1) % 2 == 1;
            self.push(b);
            proof {
                let d = digits(value as int, n as int);
                assert(before + d.subrange(0, n - left + 1) =~= (before + d.subrange(
                    0,
                    n - left,
                )).push(d[n - left]));
            }
            left -= 1;
        }
        proof {
            assert(digits(value as int, n as int).subrange(0, n as int) =~= digits(
                value as int,
                n as int,
            ));
        }
        Ok(())
    }

    /// Writes the codeword of a value.
    pub fn word(&mut self, value: u32, book: u8) -> (r: Result<(), String>)
        requires
            old(self).wf(),
            value < 0x4000_0000,
        ensures
            final(self).wf(),
            final(self).data@.len() == old(self).data@.len(),
            match r {
                Ok(_) => final(self).bits() == old(self).bits() + codeword(value as int, book),
                Err(e) => e@ == "ProRes re-encoding overflow"@ && (old(self).pos + codeword(
                    value as int,
                    book,
                ).len() > old(self).data@.len() * 8 || leading(value as int, book) > 31),
            },
    {
        proof {
            reveal(codeword);
            reveal(leading);
        }
        let rice: usize = (book / 32) as usize;
        let exp: usize = (book / 4 % 8) as usize;
        let switch: usize = (book % 4) as usize;
        proof {
            reveal_with_fuel(power2, 33);
            lemma_power2_grows(rice as int, 7);
            lemma_power2_grows(exp as int, 7);
            lemma_power2(rice as int);
            lemma_power2(exp as int);
            assert((switch + 1) * power2(rice as int) <= 4 * 128) by (nonlinear_arith)
                requires
                    0 <= switch <= 3,
                    0 <= power2(rice as int) <= 128,
            ;
            lemma_codeword(value as int, book);
        }
        let unit: u32 = power(rice);
        let threshold: u32 = (switch as u32 + 1) * unit;
        let ghost before = self.bits();
        if value < threshold {
            proof {
                lemma_zero_digits(value as int / power2(rice as int));
                assert(digits(1, 1) =~= seq![true]) by {
                    reveal_with_fuel(digits, 2);
                }
            }
            let ghost w = codeword(value as int, book);
            self.put(0, (value / unit) as usize)?;
            self.put(1, 1)?;
            self.put(value % unit, rice)?;
            proof {
                assert(self.bits() =~= before + w);
            }
            Ok(())
        } else {
            let adjusted: u32 = value + power(exp) - threshold;
            let top: usize = highest(adjusted);
            proof {
                lemma_top_bit_below(adjusted as int, 31);
                lemma_zero_digits(top + switch + 1 - exp);
            }
            let ghost w = codeword(value as int, book);
            self.put(0, top + switch + 1 - exp)?;
            self.put(adjusted, top + 1)?;
            proof {
                assert(self.bits() =~= before + w);
            }
            Ok(())
        }
    }
}

/// Bit number `k` from the end of the digits of a number.
proof fn lemma_shifted_digits(value: int, n: int, k: int)
    requires
        0 <= value,
        0 <= n,
        0 <= k <= n,
    ensures
        digits(value, n).len() == n,
        k < n ==> digits(value, n)[n - 1 - k] == (value / power2(k) % 2 == 1),
    decreases n,
{
    lemma_digits(value, n);
    if k < n {
        if k == 0 {
            assert(value / 1 == value);
        } else {
            lemma_shifted_digits(value / 2, n - 1, k - 1);
            lemma_digits(value / 2, n - 1);
            lemma_power2(k - 1);
            vstd::arithmetic::div_mod::lemma_div_denominator(value, 2, power2(k - 1));
        }
    }
}

proof fn lemma_zero_digits(n: int)
    requires
        0 <= n,
    ensures
        digits(0, n) == zeros(n),
    decreases n,
{
    if n > 0 {
        lemma_zero_digits(n - 1);
        assert(digits(0, n) =~= zeros(n));
    } else {
        assert(digits(0, n) =~= zeros(n));
    }
}

}
