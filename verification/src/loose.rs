//! Reading of bits that goes on with zeros behind the end.

use crate::codeword::{power, MOST};
use crate::plane::{DC_BOOKS, LEVEL_BOOKS, RUN_BOOKS};
use crate::wire::{fail, Outcome};
use vstd::prelude::*;

verus! {

/// Bit number `i`, where all bits behind the end are zero.
pub open spec fn soft_bit(bits: Seq<bool>, i: int) -> bool {
    0 <= i < bits.len() && bits[i]
}

/// The number of `n` bits at `pos`.
pub open spec fn soft_number(bits: Seq<bool>, pos: int, n: int) -> int
    decreases n,
{
    if n <= 0 {
        0
    } else {
        2 * soft_number(bits, pos, n - 1) + crate::codeword::one(soft_bit(bits, pos + n - 1))
    }
}

/// How many zero bits stand at `pos`, of which `count` were seen before, and the position behind
/// the one that follows.
pub open spec fn soft_zeros(bits: Seq<bool>, pos: int, count: int) -> Outcome<(int, int)>
    decreases 16 - count,
{
    if soft_bit(bits, pos) {
        Ok((count, pos + 1))
    } else if count >= 15 || pos + 1 > bits.len() {
        Err("invalid ProRes codeword"@)
    } else {
        soft_zeros(bits, pos + 1, count + 1)
    }
}

/// The value of the codeword at `pos`, and the position behind it.
#[verifier::opaque]
pub open spec fn soft_word(bits: Seq<bool>, pos: int, book: u8) -> Outcome<(int, int)> {
    let (r, e, w) = (
        crate::codeword::rice(book),
        crate::codeword::exp(book),
        crate::codeword::switch(book),
    );
    match soft_zeros(bits, pos, 0) {
        Err(e) => Err(e),
        Ok((n, p)) => if n <= w {
            Ok((n * crate::codeword::power2(r) + soft_number(bits, p, r), p + r))
        } else {
            let suffix = e + n - w - 1;
            Ok(
                (
                    crate::codeword::power2(suffix) + soft_number(bits, p, suffix)
                        - crate::codeword::power2(e) + crate::codeword::threshold(book),
                    p + suffix,
                ),
            )
        },
    }
}

/// Whether fewer than 32 bits are left behind `pos`, all of them zero.
pub open spec fn soft_tail(bits: Seq<bool>, pos: int) -> bool {
    bits.len() - pos < 32 && forall|i: int| pos <= i < bits.len() ==> !soft_bit(bits, i)
}

proof fn lemma_soft_number(bits: Seq<bool>, pos: int, n: int)
    requires
        0 <= n,
    ensures
        0 <= soft_number(bits, pos, n) < crate::codeword::power2(n),
    decreases n,
{
    if n > 0 {
        lemma_soft_number(bits, pos, n - 1);
    }
}

pub struct Soft<'a> {
    pub data: &'a [u8],
    pub pos: usize,
}

impl<'a> Soft<'a> {
    pub open spec fn wf(&self) -> bool {
        self.data@.len() <= MOST && self.pos <= self.data@.len() * 8 + 1000
    }

    pub open spec fn bits(&self) -> Seq<bool> {
        crate::codeword::bits_of(self.data@)
    }

    pub fn next(&mut self) -> (b: bool)
        requires
            old(self).data@.len() <= MOST,
            old(self).pos <= old(self).data@.len() * 8 + 2000,
        ensures
            b == soft_bit(old(self).bits(), old(self).pos as int),
            final(self).data == old(self).data,
            final(self).pos == old(self).pos + 1,
    {
        let at: usize = self.pos / 8;
        let b: bool = if at < self.data.len() {
            proof {
                crate::codeword::lemma_mask((7 - self.pos % 8) as u8);
            }
            self.data[at] / (1u8 << ((7 - self.pos % 8) as u8)) % 2 == 1
        } else {
            false
        };
        self.pos += 1;
        b
    }

    pub fn get(&mut self, n: usize) -> (v: u32)
        requires
            old(self).wf(),
            n <= 31,
        ensures
            v == soft_number(old(self).bits(), old(self).pos as int, n as int),
            v < crate::codeword::power2(n as int),
            final(self).data == old(self).data,
            final(self).pos == old(self).pos + n,
    {
        let mut v: u32 = 0;
        let mut i: usize = 0;
        while i < n
            invariant
                i <= n <= 31,
                self.data == old(self).data,
                old(self).wf(),
                self.pos == old(self).pos + i,
                v == soft_number(self.bits(), old(self).pos as int, i as int),
            decreases n - i,
        {
            proof {
                lemma_soft_number(self.bits(), old(self).pos as int, i as int);
                crate::codeword::lemma_power2_grows(i as int, 30);
                reveal_with_fuel(crate::codeword::power2, 31);
            }
            let b = self.next();
            v = v * 2 + if b { 1 } else { 0 };
            i += 1;
        }
        proof {
            lemma_soft_number(self.bits(), old(self).pos as int, n as int);
        }
        v
    }

    /// Whether fewer than 32 bits are left, all of them zero.
    pub fn tail(&self) -> (r: bool)
        requires
            self.wf(),
        ensures
            r == soft_tail(self.bits(), self.pos as int),
    {
        let end: usize = self.data.len() * 8;
        if self.pos >= end {
            return true;
        }
        if end - self.pos >= 32 {
            return false;
        }
        let mut rest = Soft { data: self.data, pos: self.pos };
        while rest.pos < end
            invariant
                rest.wf(),
                rest.data == self.data,
                end == self.data@.len() * 8,
                self.pos <= rest.pos <= end,
                forall|i: int| self.pos <= i < rest.pos ==> !soft_bit(self.bits(), i),
            decreases end - rest.pos,
        {
            let ghost at = rest.pos as int;
            if rest.next() {
                assert(soft_bit(self.bits(), at));
                return false;
            }
        }
        true
    }

    /// Reads the value of a codeword.
    pub fn word(&mut self, book: u8) -> (r: Result<u32, String>)
        requires
            old(self).wf(),
        ensures
            final(self).data == old(self).data,
            match r {
                Ok(v) => soft_word(old(self).bits(), old(self).pos as int, book) == Ok::<
                    (int, int),
                    Seq<char>,
                >((v as int, final(self).pos as int)) && v < 0x100_0000 && final(self).pos
                    > old(self).pos && final(self).pos <= old(self).data@.len() * 8 + 40,
                Err(e) => soft_word(old(self).bits(), old(self).pos as int, book) == Err::<
                    (int, int),
                    Seq<char>,
                >(e@),
            },
    {
        proof {
            reveal(soft_word);
        }
        let ghost bits = self.bits();
        let ghost start = self.pos as int;
        let mut zeros: usize = 0;
        let mut open = true;
        let ghost whole = soft_zeros(bits, start, 0);
        while open
            invariant
                old(self).wf(),
                self.data == old(self).data,
                bits == self.bits(),
                start == old(self).pos,
                zeros <= 15,
                whole == soft_zeros(bits, start, 0),
                self.pos <= self.data@.len() * 8 + 1016,
                zeros > 0 ==> self.pos <= self.data@.len() * 8 + 1,
                open ==> self.pos == start + zeros && whole == soft_zeros(
                    bits,
                    self.pos as int,
                    zeros as int,
                ) && (zeros > 0 ==> self.pos <= self.data@.len() * 8),
                !open ==> self.pos == start + zeros + 1 && self.pos <= self.data@.len() * 8 && whole
                    == Ok::<(int, int), Seq<char>>((zeros as int, self.pos as int)),
                whole matches Err(e) ==> soft_word(old(self).bits(), old(self).pos as int, book)
                    == Err::<(int, int), Seq<char>>(e),
            decreases 16 - zeros, open as int,
        {
            if self.next() {
                open = false;
            } else {
                if zeros >= 15 || self.pos > self.data.len() * 8 {
                    return Err(fail("invalid ProRes codeword"));
                }
                zeros += 1;
            }
        }
        let rice: usize = (book / 32) as usize;
        let exp: usize = (book / 4 % 8) as usize;
        let switch: usize = (book % 4) as usize;
        proof {
            reveal_with_fuel(crate::codeword::power2, 23);
            crate::codeword::lemma_power2_grows(rice as int, 7);
            crate::codeword::lemma_power2_grows(exp as int, 7);
            crate::codeword::lemma_power2(rice as int);
            crate::codeword::lemma_power2(exp as int);
            let unit = crate::codeword::power2(rice as int);
            assert(zeros * unit <= 15 * 128) by (nonlinear_arith)
                requires
                    0 <= zeros <= 15,
                    0 <= unit <= 128,
            ;
            assert((switch + 1) * unit <= 4 * 128) by (nonlinear_arith)
                requires
                    0 <= switch <= 3,
                    0 <= unit <= 128,
            ;
        }
        if zeros <= switch {
            let low = self.get(rice);
            Ok(zeros as u32 * power(rice) + low)
        } else {
            let suffix: usize = exp + zeros - switch - 1;
            let low = self.get(suffix);
            proof {
                crate::codeword::lemma_power2_grows(exp as int, suffix as int);
                crate::codeword::lemma_power2_grows(suffix as int, 21);
            }
            Ok(power(suffix) + low - power(exp) + (switch as u32 + 1) * power(rice))
        }
    }
}

/// Reads the first coefficients behind those in `c`.
pub open spec fn soft_dc(
    bits: Seq<bool>,
    pos: int,
    c: Seq<i16>,
    blocks: int,
    code: int,
    negative: bool,
) -> Outcome<(Seq<i16>, int)>
    decreases blocks - c.len(),
{
    if c.len() >= blocks {
        Ok((c, pos))
    } else {
        match soft_word(bits, pos, DC_BOOKS@[crate::plane::min(code, 6)]) {
            Err(e) => Err(e),
            Ok((code, pos)) => {
                let negative = if code == 0 {
                    false
                } else {
                    negative != (code % 2 == 1)
                };
                let step = (code + 1) / 2;
                let dc = c.last() + if negative {
                    -step
                } else {
                    step
                };
                if dc < i16::MIN || dc > i16::MAX {
                    Err("ProRes DC overflow"@)
                } else {
                    soft_dc(bits, pos, c.push(dc as i16), blocks, code, negative)
                }
            },
        }
    }
}

/// Reads the other coefficients behind `position`, up to a short tail of zeros.
pub open spec fn soft_ac(
    bits: Seq<bool>,
    pos: int,
    c: Seq<i16>,
    position: int,
    run: int,
    level: int,
) -> Outcome<Seq<i16>>
    decreases c.len() - position,
{
    if soft_tail(bits, pos) {
        Ok(c)
    } else {
        match soft_word(bits, pos, RUN_BOOKS@[crate::plane::min(run, 15)]) {
            Err(e) => Err(e),
            Ok((run, pos)) => {
                let position = position + run + 1;
                if run < 0 || !(0 <= position < c.len()) {
                    Err("invalid ProRes coefficient run"@)
                } else {
                    match soft_word(bits, pos, LEVEL_BOOKS@[crate::plane::min(level, 9)]) {
                        Err(e) => Err(e),
                        Ok((less, pos)) => if less + 1 > 32767 {
                            Err("ProRes AC overflow"@)
                        } else {
                            let value = if soft_bit(bits, pos) {
                                -(less + 1)
                            } else {
                                less + 1
                            };
                            soft_ac(
                                bits,
                                pos + 1,
                                c.update(position, value as i16),
                                position,
                                run,
                                less + 1,
                            )
                        },
                    }
                }
            },
        }
    }
}

/// The coefficients of a plane.
pub open spec fn soft_plane(data: Seq<u8>, blocks: int) -> Outcome<Seq<i16>> {
    let bits = crate::codeword::bits_of(data);
    match soft_word(bits, 0, 0xb8) {
        Err(e) => Err(e),
        Ok((first, pos)) => {
            let dc = crate::plane::unzig(first);
            if dc < i16::MIN || dc > i16::MAX {
                Err("ProRes DC overflow"@)
            } else {
                match soft_dc(bits, pos, seq![dc as i16], blocks, 5, false) {
                    Err(e) => Err(e),
                    Ok((c, pos)) => soft_ac(
                        bits,
                        pos,
                        c + Seq::new((blocks * 63) as nat, |i: int| 0i16),
                        blocks - 1,
                        4,
                        2,
                    ),
                }
            }
        },
    }
}

/// Decodes a plane.
pub fn unpack_plane(data: &[u8], blocks: usize) -> (r: Result<Vec<i16>, String>)
    requires
        data@.len() <= MOST,
        1 <= blocks <= 32,
    ensures
        match r {
            Ok(c) => soft_plane(data@, blocks as int) == Ok::<Seq<i16>, Seq<char>>(c@) && c@.len()
                == blocks * 64,
            Err(e) => soft_plane(data@, blocks as int) == Err::<Seq<i16>, Seq<char>>(e@),
        },
{
    let ghost whole = soft_plane(data@, blocks as int);
    let ghost bits = crate::codeword::bits_of(data@);
    let mut reader = Soft { data, pos: 0 };
    let first = reader.word(0xb8)?;
    let half: i32 = (first / 2) as i32;
    let mut dc: i32 = if first % 2 == 0 { half } else { -half - 1 };
    if dc < -32768 || dc > 32767 {
        return Err(fail("ProRes DC overflow"));
    }
    let mut coeffs: Vec<i16> = Vec::new();
    coeffs.push(dc as i16);
    let mut code: u32 = 5;
    let mut negative = false;
    let ghost dcs = soft_dc(bits, reader.pos as int, coeffs@, blocks as int, 5, false);
    assert(coeffs@ =~= seq![crate::plane::unzig(first as int) as i16]);
    while coeffs.len() < blocks
        invariant
            reader.wf(),
            reader.data == data,
            bits == crate::codeword::bits_of(data@),
            whole == soft_plane(data@, blocks as int),
            dcs matches Err(e) ==> whole == Err::<Seq<i16>, Seq<char>>(e),
            1 <= coeffs@.len() <= blocks <= 32,
            -32768 <= dc <= 32767,
            coeffs@.last() == dc,
            code < 0x100_0000,
            dcs == soft_dc(
                bits,
                reader.pos as int,
                coeffs@,
                blocks as int,
                code as int,
                negative,
            ),
        decreases blocks - coeffs@.len(),
    {
        let book: u8 = DC_BOOKS[if code < 6 { code as usize } else { 6 }];
        code = reader.word(book)?;
        if code == 0 {
            negative = false;
        } else if code % 2 == 1 {
            negative = !negative;
        }
        let step: i32 = ((code + 1) / 2) as i32;
        dc = dc + if negative { -step } else { step };
        if dc < -32768 || dc > 32767 {
            return Err(fail("ProRes DC overflow"));
        }
        coeffs.push(dc as i16);
    }
    let ghost firsts = coeffs@;
    coeffs.resize(blocks * 64, 0);
    assert(coeffs@ =~= firsts + Seq::new((blocks * 63) as nat, |i: int| 0i16));
    let mut position: usize = blocks - 1;
    let mut run: u32 = 4;
    let mut level: u32 = 2;
    while !reader.tail()
        invariant
            reader.wf(),
            reader.data == data,
            bits == crate::codeword::bits_of(data@),
            whole == soft_plane(data@, blocks as int),
            coeffs@.len() == blocks * 64,
            blocks <= 32,
            position < coeffs@.len(),
            run < 0x100_0000,
            level <= 32767,
            whole == soft_ac(
                bits,
                reader.pos as int,
                coeffs@,
                position as int,
                run as int,
                level as int,
            ),
        decreases coeffs@.len() - position,
    {
        let book: u8 = RUN_BOOKS[if run < 15 { run as usize } else { 15 }];
        run = reader.word(book)?;
        position = position + run as usize + 1;
        if position >= coeffs.len() {
            return Err(fail("invalid ProRes coefficient run"));
        }
        let book: u8 = LEVEL_BOOKS[if level < 9 { level as usize } else { 9 }];
        level = reader.word(book)? + 1;
        if level > 32767 {
            return Err(fail("ProRes AC overflow"));
        }
        let negative = reader.next();
        coeffs[position] = if negative { -(level as i16) } else { level as i16 };
    }
    Ok(coeffs)
}

/// How many bytes a bit string fills, the last of them perhaps in part.
pub open spec fn byte_count(bits: int) -> int {
    (bits + 7) / 8
}

/// The code of a plane, in as many bytes as it fills.
pub open spec fn tight_plane(c: Seq<i16>, blocks: int) -> Seq<u8> {
    let bits = crate::plane::plane_bits(c, blocks);
    crate::plane::to_bytes(
        bits + crate::codeword::zeros(byte_count(bits.len() as int) * 8 - bits.len()),
    )
}

/// Encodes a plane.
pub fn pack_plane(coeffs: &[i16], blocks: usize) -> (data: Vec<u8>)
    requires
        crate::plane::block_count(blocks as int),
        coeffs.len() == blocks * 64,
    ensures
        data@ == tight_plane(coeffs@, blocks as int),
        0 < data@.len() <= 32768,
{
    let ghost bits = crate::plane::plane_bits(coeffs@, blocks as int);
    proof {
        crate::plane::lemma_plane_len(coeffs@, blocks as int);
    }
    match crate::plane::write_plane(coeffs, blocks, 32768) {
        Ok(w) => {
            let n: usize = (w.pos + 7) / 8;
            let mut data = w.data;
            let ghost all = data@;
            data.truncate(n);
            proof {
                let spare = n * 8 - bits.len();
                assert(data@ =~= all.take(n as int));
                assert(crate::codeword::bits_of(data@) =~= bits + crate::codeword::zeros(spare)) by {
                    assert forall|i: int| 0 <= i < n * 8 implies #[trigger] crate::codeword::bits_of(
                        data@,
                    )[i] == (bits + crate::codeword::zeros(spare))[i] by {
                        assert(crate::codeword::bits_of(all)[i] == crate::codeword::bits_of(data@)[i]);
                    }
                }
                crate::plane::law_bytes_from_bits(data@);
            }
            data
        },
        Err(_) => Vec::new(),
    }
}


pub proof fn lemma_same_number(bits: Seq<bool>, pos: int, n: int)
    requires
        0 <= pos,
        0 <= n,
        pos + n <= bits.len(),
    ensures
        soft_number(bits, pos, n) == crate::codeword::number(bits.subrange(pos, pos + n)),
    decreases n,
{
    let s = bits.subrange(pos, pos + n);
    if n > 0 {
        lemma_same_number(bits, pos, n - 1);
        assert(s.drop_last() =~= bits.subrange(pos, pos + n - 1));
    }
}

proof fn lemma_same_zeros(bits: Seq<bool>, pos: int, count: int)
    requires
        0 <= pos,
        0 <= count <= 15,
    ensures
        crate::codeword::zeros_at(bits, pos, count) matches Ok(n) ==> soft_zeros(bits, pos, count)
            == Ok::<(int, int), Seq<char>>((n, pos + n - count + 1)),
    decreases bits.len() - pos,
{
    if pos < bits.len() && !bits[pos] && count < 15 {
        lemma_same_zeros(bits, pos + 1, count + 1);
    }
}

/// What a strict reader takes, a lenient one takes for the same.
pub proof fn law_strict_words_are_soft(bits: Seq<bool>, pos: int, book: u8)
    requires
        0 <= pos,
    ensures
        crate::codeword::word_at(bits, pos, book) matches Ok(x) ==> soft_word(bits, pos, book)
            == Ok::<(int, int), Seq<char>>(x) && x.1 >= pos,
{
    reveal(crate::codeword::word_at);
    reveal(soft_word);
    lemma_same_zeros(bits, pos, 0);
    crate::codeword::lemma_zeros_bounds(bits, pos, 0);
    if let Ok(n) = crate::codeword::zeros_at(bits, pos, 0) {
        let (r, e, w) = (
            crate::codeword::rice(book),
            crate::codeword::exp(book),
            crate::codeword::switch(book),
        );
        let size = if n <= w {
            r
        } else {
            e + n - w - 1
        };
        if pos + n + 1 + size <= bits.len() {
            lemma_same_number(bits, pos + n + 1, size);
        }
    }
}

proof fn lemma_same_dc(bits: Seq<bool>, pos: int, c: Seq<i16>, blocks: int, code: int, negative: bool)
    requires
        0 <= pos,
        c.len() >= 1,
    ensures
        crate::plane::dc_read(bits, pos, c, blocks, code, negative) matches Ok(x) ==> soft_dc(
            bits,
            pos,
            c,
            blocks,
            code,
            negative,
        ) == Ok::<(Seq<i16>, int), Seq<char>>(x) && x.1 >= 0,
    decreases blocks - c.len(),
{
    if c.len() < blocks {
        let book = DC_BOOKS@[crate::plane::min(code, 6)];
        law_strict_words_are_soft(bits, pos, book);
        if let Ok((code, next)) = crate::codeword::word_at(bits, pos, book) {
            let negative = if code == 0 {
                false
            } else {
                negative != (code % 2 == 1)
            };
            let step = (code + 1) / 2;
            let dc = c.last() + if negative {
                -step
            } else {
                step
            };
            lemma_same_dc(bits, next, c.push(dc as i16), blocks, code, negative);
        }
    }
}

proof fn lemma_same_ac(bits: Seq<bool>, pos: int, c: Seq<i16>, position: int, run: int, level: int)
    requires
        0 <= pos,
    ensures
        crate::plane::ac_read(bits, pos, c, position, run, level) matches Ok(x) ==> soft_ac(
            bits,
            pos,
            c,
            position,
            run,
            level,
        ) == Ok::<Seq<i16>, Seq<char>>(x),
    decreases c.len() - position,
{
    if crate::codeword::zero_tail_at(bits, pos) {
        assert(soft_tail(bits, pos));
    } else {
        assert(!soft_tail(bits, pos)) by {
            if bits.len() - pos < 32 {
                let i = choose|i: int| pos <= i < bits.len() && bits[i];
                assert(soft_bit(bits, i));
            }
        }
        let run_book = RUN_BOOKS@[crate::plane::min(run, 15)];
        law_strict_words_are_soft(bits, pos, run_book);
        if let Ok((run, next)) = crate::codeword::word_at(bits, pos, run_book) {
            let place = position + run + 1;
            if run >= 0 && 0 <= place < c.len() {
                let book = LEVEL_BOOKS@[crate::plane::min(level, 9)];
                law_strict_words_are_soft(bits, next, book);
                if let Ok((less, end)) = crate::codeword::word_at(bits, next, book) {
                    if less + 1 <= 32767 && end < bits.len() {
                        let value = if bits[end] {
                            -(less + 1)
                        } else {
                            less + 1
                        };
                        lemma_same_ac(
                            bits,
                            end + 1,
                            c.update(place, value as i16),
                            place,
                            run,
                            less + 1,
                        );
                    }
                }
            }
        }
    }
}

/// A plane comes back from its code, when a reader takes its codewords.
pub proof fn law_tight_plane_round_trip(c: Seq<i16>, blocks: int)
    requires
        crate::plane::block_count(blocks),
        c.len() == blocks * 64,
        crate::plane::readable(c, blocks),
    ensures
        soft_plane(tight_plane(c, blocks), blocks) == Ok::<Seq<i16>, Seq<char>>(c),
{
    let code = crate::plane::plane_bits(c, blocks);
    let n = byte_count(code.len() as int);
    let data = tight_plane(c, blocks);
    crate::plane::lemma_plane_len(c, blocks);
    crate::plane::law_plane_round_trip(c, blocks, n);
    let bits = crate::codeword::bits_of(data);
    law_strict_words_are_soft(bits, 0, 0xb8);
    if let Ok((first, pos)) = crate::codeword::word_at(bits, 0, 0xb8) {
        let dc = crate::plane::unzig(first);
        lemma_same_dc(bits, pos, seq![dc as i16], blocks, 5, false);
        if let Ok((d, pos)) = crate::plane::dc_read(bits, pos, seq![dc as i16], blocks, 5, false) {
            lemma_same_ac(
                bits,
                pos,
                d + Seq::new((blocks * 63) as nat, |i: int| 0i16),
                blocks - 1,
                4,
                2,
            );
        }
    }
}

}
