//! The coefficients of a ProRes plane and their entropy code.

use crate::codeword::{Bits, Writer, MOST};
use crate::wire::{fail, Outcome};
use vstd::prelude::*;

verus! {

pub const DC_BOOKS: [u8; 7] = [0x04, 0x28, 0x28, 0x4d, 0x4d, 0x70, 0x70];

pub const RUN_BOOKS: [u8; 16] = [
    0x06,
    0x06,
    0x05,
    0x05,
    0x04,
    0x29,
    0x29,
    0x29,
    0x29,
    0x28,
    0x28,
    0x28,
    0x28,
    0x28,
    0x28,
    0x4c,
];

pub const LEVEL_BOOKS: [u8; 10] = [0x04, 0x0a, 0x05, 0x06, 0x04, 0x28, 0x28, 0x28, 0x28, 0x4c];

pub open spec fn min(a: int, b: int) -> int {
    if a < b {
        a
    } else {
        b
    }
}

/// The number of blocks that a plane may have.
pub open spec fn block_count(n: int) -> bool {
    n == 1 || n == 2 || n == 4 || n == 8 || n == 16 || n == 32
}

/// Signed numbers as unsigned ones: 0, -1, 1, -2, ...
pub open spec fn zig(v: int) -> int {
    if v >= 0 {
        2 * v
    } else {
        -2 * v - 1
    }
}

pub open spec fn unzig(n: int) -> int {
    if n % 2 == 0 {
        n / 2
    } else {
        -(n + 1) / 2
    }
}

/// The code of the difference between two neighbouring first coefficients: twice its size, less
/// one if its sign differs from that of the difference before.
pub open spec fn dc_code(delta: int, negative: bool) -> int {
    if delta == 0 {
        0
    } else {
        2 * (if delta < 0 {
            -delta
        } else {
            delta
        }) - crate::codeword::one((delta < 0) != negative)
    }
}

/// The first coefficients of the blocks from number `i` on.
pub open spec fn dc_words(c: Seq<i16>, i: int, blocks: int, code: int, negative: bool) -> Seq<bool>
    decreases blocks - i,
{
    if i >= blocks {
        Seq::empty()
    } else {
        let delta = c[i] - c[i - 1];
        let next = dc_code(delta, negative);
        crate::codeword::codeword(next, DC_BOOKS@[min(code, 6)]) + dc_words(
            c,
            i + 1,
            blocks,
            next,
            delta < 0,
        )
    }
}

/// The size of a coefficient.
pub open spec fn size(c: i16) -> int {
    if c < 0 {
        -(c as int)
    } else {
        c as int
    }
}

/// The other coefficients from `position` on: of each that is not zero, the number of zeros since
/// the one before, its size less one, and its sign.
pub open spec fn ac_words(c: Seq<i16>, position: int, last: int, run: int, level: int) -> Seq<bool>
    decreases c.len() - position,
{
    if position >= c.len() {
        Seq::empty()
    } else if c[position] == 0 {
        ac_words(c, position + 1, last, run, level)
    } else {
        let zeros = position - last - 1;
        crate::codeword::codeword(zeros, RUN_BOOKS@[min(run, 15)]) + crate::codeword::codeword(
            size(c[position]) - 1,
            LEVEL_BOOKS@[min(level, 9)],
        ) + seq![c[position] < 0] + ac_words(
            c,
            position + 1,
            position,
            zeros,
            size(c[position]),
        )
    }
}

/// The entropy code of a plane.
pub open spec fn plane_bits(c: Seq<i16>, blocks: int) -> Seq<bool> {
    crate::codeword::codeword(zig(c[0] as int), 0xb8) + dc_words(c, 1, blocks, 5, false)
        + ac_words(c, blocks, blocks - 1, 4, 2)
}

/// The bytes that a bit string fills.
pub open spec fn to_bytes(bits: Seq<bool>) -> Seq<u8> {
    Seq::new(
        bits.len() / 8,
        |i: int| crate::codeword::number(bits.subrange(8 * i, 8 * i + 8)) as u8,
    )
}

/// A plane in `bytes` bytes: its code, followed by zeros.
pub open spec fn packed_plane(c: Seq<i16>, blocks: int, bytes: int) -> Outcome<Seq<u8>> {
    if !block_count(blocks) || c.len() != blocks * 64 || bytes > 65535 {
        Err("invalid ProRes coefficients"@)
    } else if plane_bits(c, blocks).len() > bytes * 8 {
        Err("ProRes re-encoding overflow"@)
    } else {
        Ok(
            to_bytes(
                plane_bits(c, blocks) + crate::codeword::zeros(
                    bytes * 8 - plane_bits(c, blocks).len(),
                ),
            ),
        )
    }
}

/// Reads the first coefficients behind those in `c`.
pub open spec fn dc_read(
    bits: Seq<bool>,
    pos: int,
    c: Seq<i16>,
    blocks: int,
    code: int,
    negative: bool,
) -> Outcome<(Seq<i16>, int)>
    decreases blocks - c.len(),
{
    if c.len() >= blocks {
        Ok((c, pos))
    } else {
        match crate::codeword::word_at(bits, pos, DC_BOOKS@[min(code, 6)]) {
            Err(e) => Err(e),
            Ok((code, pos)) => {
                let negative = if code == 0 {
                    false
                } else {
                    negative != (code % 2 == 1)
                };
                let step = (code + 1) / 2;
                let dc = c.last() + if negative {
                    -step
                } else {
                    step
                };
                if dc < i16::MIN || dc > i16::MAX {
                    Err("ProRes DC overflow"@)
                } else {
                    dc_read(bits, pos, c.push(dc as i16), blocks, code, negative)
                }
            },
        }
    }
}

/// Reads the other coefficients behind `position`, up to a short tail of zeros.
pub open spec fn ac_read(
    bits: Seq<bool>,
    pos: int,
    c: Seq<i16>,
    position: int,
    run: int,
    level: int,
) -> Outcome<Seq<i16>>
    decreases c.len() - position,
{
    if crate::codeword::zero_tail_at(bits, pos) {
        Ok(c)
    } else {
        match crate::codeword::word_at(bits, pos, RUN_BOOKS@[min(run, 15)]) {
            Err(e) => Err(e),
            Ok((run, pos)) => {
                let position = position + run + 1;
                if run < 0 || !(0 <= position < c.len()) {
                    Err("invalid ProRes coefficient run"@)
                } else {
                    match crate::codeword::word_at(bits, pos, LEVEL_BOOKS@[min(level, 9)]) {
                        Err(e) => Err(e),
                        Ok((less, pos)) => if less + 1 > 32767 {
                            Err("ProRes AC overflow"@)
                        } else if pos >= bits.len() {
                            Err("truncated ProRes codeword"@)
                        } else {
                            let value = if bits[pos] {
                                -(less + 1)
                            } else {
                                less + 1
                            };
                            ac_read(
                                bits,
                                pos + 1,
                                c.update(position, value as i16),
                                position,
                                run,
                                less + 1,
                            )
                        },
                    }
                }
            },
        }
    }
}

/// The coefficients of a plane.
pub open spec fn unpacked_plane(data: Seq<u8>, blocks: int) -> Outcome<Seq<i16>> {
    let bits = crate::codeword::bits_of(data);
    if !block_count(blocks) || data.len() == 0 {
        Err("unsupported ProRes plane"@)
    } else {
        match crate::codeword::word_at(bits, 0, 0xb8) {
            Err(e) => Err(e),
            Ok((first, pos)) => {
                let dc = unzig(first);
                if dc < i16::MIN || dc > i16::MAX {
                    Err("ProRes DC overflow"@)
                } else {
                    match dc_read(bits, pos, seq![dc as i16], blocks, 5, false) {
                        Err(e) => Err(e),
                        Ok((c, pos)) => ac_read(
                            bits,
                            pos,
                            c + Seq::new((blocks * 63) as nat, |i: int| 0i16),
                            blocks - 1,
                            4,
                            2,
                        ),
                    }
                }
            },
        }
    }
}

pub fn power_of_two(blocks: usize) -> (r: bool)
    ensures
        r == block_count(blocks as int),
{
    blocks == 1 || blocks == 2 || blocks == 4 || blocks == 8 || blocks == 16 || blocks == 32
}

/// Decodes a plane.
pub fn unpack_plane(data: &[u8], blocks: usize) -> (r: Result<Vec<i16>, String>)
    requires
        data@.len() <= MOST,
    ensures
        match r {
            Ok(c) => unpacked_plane(data@, blocks as int) == Ok::<Seq<i16>, Seq<char>>(c@) && c@.len()
                == blocks * 64,
            Err(e) => unpacked_plane(data@, blocks as int) == Err::<Seq<i16>, Seq<char>>(e@),
        },
{
    if !power_of_two(blocks) || data.len() == 0 {
        return Err(fail("unsupported ProRes plane"));
    }
    let ghost whole = unpacked_plane(data@, blocks as int);
    let ghost bits = crate::codeword::bits_of(data@);
    let mut reader = Bits { data, pos: 0 };
    let first = reader.word(0xb8)?;
    let half: i32 = (first / 2) as i32;
    let mut dc: i32 = if first % 2 == 0 { half } else { -half - 1 };
    if dc < -32768 || dc > 32767 {
        return Err(fail("ProRes DC overflow"));
    }
    let mut coeffs: Vec<i16> = Vec::new();
    coeffs.push(dc as i16);
    let mut code: u32 = 5;
    let mut negative = false;
    let ghost dcs = dc_read(bits, reader.pos as int, coeffs@, blocks as int, 5, false);
    assert(coeffs@ =~= seq![unzig(first as int) as i16]);
    while coeffs.len() < blocks
        invariant
            reader.wf(),
            reader.data == data,
            bits == crate::codeword::bits_of(data@),
            whole == unpacked_plane(data@, blocks as int),
            dcs matches Err(e) ==> whole == Err::<Seq<i16>, Seq<char>>(e),
            1 <= coeffs@.len() <= blocks <= 32,
            -32768 <= dc <= 32767,
            coeffs@.last() == dc,
            code < 0x100_0000,
            dcs == dc_read(
                bits,
                reader.pos as int,
                coeffs@,
                blocks as int,
                code as int,
                negative,
            ),
        decreases blocks - coeffs@.len(),
    {
        let book: u8 = DC_BOOKS[if code < 6 { code as usize } else { 6 }];
        code = reader.word(book)?;
        if code == 0 {
            negative = false;
        } else if code % 2 == 1 {
            negative = !negative;
        }
        let step: i32 = ((code + 1) / 2) as i32;
        dc = dc + if negative { -step } else { step };
        if dc < -32768 || dc > 32767 {
            return Err(fail("ProRes DC overflow"));
        }
        coeffs.push(dc as i16);
    }
    let ghost firsts = coeffs@;
    coeffs.resize(blocks * 64, 0);
    assert(coeffs@ =~= firsts + Seq::new((blocks * 63) as nat, |i: int| 0i16));
    let mut position: usize = blocks - 1;
    let mut run: u32 = 4;
    let mut level: u32 = 2;
    while !reader.zero_tail()
        invariant
            reader.wf(),
            reader.data == data,
            bits == crate::codeword::bits_of(data@),
            whole == unpacked_plane(data@, blocks as int),
            coeffs@.len() == blocks * 64,
            blocks <= 32,
            position < coeffs@.len(),
            run < 0x100_0000,
            level <= 32767,
            whole == ac_read(
                bits,
                reader.pos as int,
                coeffs@,
                position as int,
                run as int,
                level as int,
            ),
        decreases coeffs@.len() - position,
    {
        let book: u8 = RUN_BOOKS[if run < 15 { run as usize } else { 15 }];
        run = reader.word(book)?;
        position = position + run as usize + 1;
        if position >= coeffs.len() {
            return Err(fail("invalid ProRes coefficient run"));
        }
        let book: u8 = LEVEL_BOOKS[if level < 9 { level as usize } else { 9 }];
        level = reader.word(book)? + 1;
        if level > 32767 {
            return Err(fail("ProRes AC overflow"));
        }
        let ghost at = reader.pos as int;
        let sign = reader.get(1)?;
        proof {
            let one = bits.subrange(at, at + 1);
            assert(one.drop_last() =~= Seq::empty());
            reveal_with_fuel(crate::codeword::number, 2);
            assert(one.last() == bits[at]);
        }
        coeffs[position] = if sign == 0 { level as i16 } else { -(level as i16) };
    }
    Ok(coeffs)
}


proof fn lemma_byte(b: u8)
    by (bit_vector)
    ensures
        b == b / (1u8 << 7u8) % 2 * 128 + b / (1u8 << 6u8) % 2 * 64 + b / (1u8 << 5u8) % 2 * 32 + b
            / (1u8 << 4u8) % 2 * 16 + b / (1u8 << 3u8) % 2 * 8 + b / (1u8 << 2u8) % 2 * 4 + b / (1u8
            << 1u8) % 2 * 2 + b / (1u8 << 0u8) % 2,
{
}

/// The number that eight bits are.
pub proof fn lemma_octet(bits: Seq<bool>)
    requires
        bits.len() == 8,
    ensures
        crate::codeword::number(bits) == crate::codeword::one(bits[0]) * 128
            + crate::codeword::one(bits[1]) * 64 + crate::codeword::one(bits[2]) * 32
            + crate::codeword::one(bits[3]) * 16 + crate::codeword::one(bits[4]) * 8
            + crate::codeword::one(bits[5]) * 4 + crate::codeword::one(bits[6]) * 2
            + crate::codeword::one(bits[7]),
{
    let b7 = bits.drop_last();
    let b6 = b7.drop_last();
    let b5 = b6.drop_last();
    let b4 = b5.drop_last();
    let b3 = b4.drop_last();
    let b2 = b3.drop_last();
    let b1 = b2.drop_last();
    reveal_with_fuel(crate::codeword::number, 2);
    assert(crate::codeword::number(b1) == crate::codeword::one(bits[0]));
    assert(crate::codeword::number(b2) == 2 * crate::codeword::number(b1) + crate::codeword::one(
        bits[1],
    ));
    assert(crate::codeword::number(b3) == 2 * crate::codeword::number(b2) + crate::codeword::one(
        bits[2],
    ));
    assert(crate::codeword::number(b4) == 2 * crate::codeword::number(b3) + crate::codeword::one(
        bits[3],
    ));
    assert(crate::codeword::number(b5) == 2 * crate::codeword::number(b4) + crate::codeword::one(
        bits[4],
    ));
    assert(crate::codeword::number(b6) == 2 * crate::codeword::number(b5) + crate::codeword::one(
        bits[5],
    ));
    assert(crate::codeword::number(b7) == 2 * crate::codeword::number(b6) + crate::codeword::one(
        bits[6],
    ));
}

/// A byte string is what its bits fill.
pub proof fn law_bytes_from_bits(data: Seq<u8>)
    ensures
        to_bytes(crate::codeword::bits_of(data)) == data,
{
    let bits = crate::codeword::bits_of(data);
    assert forall|i: int| 0 <= i < data.len() implies to_bytes(bits)[i] == data[i] by {
        let o = bits.subrange(8 * i, 8 * i + 8);
        assert forall|k: int| 0 <= k < 8 implies o[k] == (data[i] / (1u8 << ((7 - k) as u8)) % 2
            == 1) by {
            assert((8 * i + k) / 8 == i && (8 * i + k) % 8 == k);
        }
        lemma_octet(o);
        lemma_byte(data[i]);
    }
    assert(to_bytes(bits) =~= data);
}

proof fn lemma_small_leading(value: int, book: u8)
    requires
        0 <= value < 0x4_0000,
    ensures
        crate::codeword::leading(value, book) <= 31,
{
    crate::codeword::lemma_codeword(value, book);
    reveal(crate::codeword::leading);
    if value >= crate::codeword::threshold(book) {
        crate::codeword::lemma_power2_grows(crate::codeword::exp(book), 7);
        crate::codeword::lemma_power2(crate::codeword::exp(book));
        crate::codeword::lemma_power2(crate::codeword::rice(book));
        reveal_with_fuel(crate::codeword::power2, 20);
        assert(crate::codeword::threshold(book) >= 0) by (nonlinear_arith)
            requires
                crate::codeword::switch(book) >= 0,
                crate::codeword::power2(crate::codeword::rice(book)) >= 0,
                crate::codeword::threshold(book) == (crate::codeword::switch(book) + 1)
                    * crate::codeword::power2(crate::codeword::rice(book)),
        ;
        crate::codeword::lemma_top_bit_below(
            value + crate::codeword::power2(crate::codeword::exp(book))
                - crate::codeword::threshold(book),
            19,
        );
    }
}

/// Writes the code of a plane into a buffer of `bytes` bytes.
pub(crate) fn write_plane(coeffs: &[i16], blocks: usize, bytes: usize) -> (r: Result<Writer, String>)
    ensures
        match r {
            Ok(w) => packed_plane(coeffs@, blocks as int, bytes as int) == Ok::<Seq<u8>, Seq<char>>(
                w.data@,
            ) && w.data@.len() == bytes && w.pos == plane_bits(coeffs@, blocks as int).len()
                && w.pos <= bytes * 8 && crate::codeword::bits_of(w.data@) == plane_bits(
                coeffs@,
                blocks as int,
            ) + crate::codeword::zeros(bytes * 8 - plane_bits(coeffs@, blocks as int).len()),
            Err(e) => packed_plane(coeffs@, blocks as int, bytes as int) == Err::<
                Seq<u8>,
                Seq<char>,
            >(e@),
        },
{
    if !power_of_two(blocks) || coeffs.len() != blocks * 64 || bytes > 65535 {
        return Err(fail("invalid ProRes coefficients"));
    }
    let ghost c = coeffs@;
    let ghost whole = plane_bits(c, blocks as int);
    let ghost dcs = dc_words(c, 1, blocks as int, 5, false);
    let ghost acs = ac_words(c, blocks as int, blocks - 1, 4, 2);
    let mut writer = Writer { data: vec![0u8; bytes], pos: 0 };
    proof {
        assert forall|i: int| 0 <= i < writer.data@.len() * 8 implies !#[trigger]
            crate::codeword::bits_of(writer.data@)[i] by {
            lemma_zero_byte((7 - i % 8) as u8);
        }
        assert(writer.bits() =~= Seq::empty());
    }
    let dc: i32 = coeffs[0] as i32;
    let first: u32 = if dc >= 0 { (2 * dc) as u32 } else { (-2 * dc - 1) as u32 };
    proof {
        lemma_small_leading(first as int, 0xb8);
    }
    writer.word(first, 0xb8)?;
    let mut code: u32 = 5;
    let mut negative = false;
    let mut i: usize = 1;
    assert(writer.bits() + dcs + acs =~= whole);
    while i < blocks
        invariant
            writer.wf(),
            writer.data@.len() == bytes <= 65535,
            c == coeffs@,
            block_count(blocks as int),
            c.len() == blocks * 64,
            1 <= i <= blocks <= 32,
            whole == plane_bits(c, blocks as int),
            code < 0x4_0000,
            writer.bits() + dc_words(c, i as int, blocks as int, code as int, negative) + acs
                == whole,
        decreases blocks - i,
    {
        let ghost written = writer.bits();
        let delta: i32 = coeffs[i] as i32 - coeffs[i - 1] as i32;
        let next: u32 = if delta == 0 {
            0
        } else {
            let changes: u32 = if (delta < 0) != negative { 1 } else { 0 };
            (if delta < 0 { -delta } else { delta }) as u32 * 2 - changes
        };
        let book: u8 = DC_BOOKS[if code < 6 { code as usize } else { 6 }];
        let ghost rest = dc_words(c, i + 1, blocks as int, next as int, delta < 0);
        proof {
            lemma_small_leading(next as int, book);
            assert(written + (crate::codeword::codeword(next as int, book) + rest) + acs =~= (
            written + crate::codeword::codeword(next as int, book)) + rest + acs);
        }
        writer.word(next, book)?;
        negative = delta < 0;
        code = next;
        i += 1;
    }
    let mut last: usize = blocks - 1;
    let mut run: usize = 4;
    let mut level: usize = 2;
    let mut position: usize = blocks;
    assert(writer.bits() + acs =~= whole);
    while position < coeffs.len()
        invariant
            writer.wf(),
            writer.data@.len() == bytes <= 65535,
            c == coeffs@,
            block_count(blocks as int),
            c.len() == blocks * 64,
            blocks <= 32,
            whole == plane_bits(c, blocks as int),
            last < position <= c.len(),
            writer.bits() + ac_words(c, position as int, last as int, run as int, level as int)
                == whole,
        decreases coeffs.len() - position,
    {
        let v: i16 = coeffs[position];
        if v != 0 {
            let ghost written = writer.bits();
            let zeros: usize = position - last - 1;
            let magnitude: usize = if v < 0 { (-(v as i32)) as usize } else { v as usize };
            let run_book: u8 = RUN_BOOKS[if run < 15 { run } else { 15 }];
            let level_book: u8 = LEVEL_BOOKS[if level < 9 { level } else { 9 }];
            let ghost rest = ac_words(
                c,
                position + 1,
                position as int,
                zeros as int,
                magnitude as int,
            );
            let ghost a = crate::codeword::codeword(zeros as int, run_book);
            let ghost b = crate::codeword::codeword(magnitude - 1, level_book);
            proof {
                lemma_small_leading(zeros as int, run_book);
                lemma_small_leading(magnitude - 1, level_book);
                assert(ac_words(c, position as int, last as int, run as int, level as int) == a + b
                    + seq![v < 0] + rest);
                assert(whole =~= written + a + b + seq![v < 0] + rest);
            }
            writer.word(zeros as u32, run_book)?;
            writer.word(magnitude as u32 - 1, level_book)?;
            writer.put(if v < 0 { 1 } else { 0 }, 1)?;
            proof {
                reveal_with_fuel(crate::codeword::digits, 2);
                assert(crate::codeword::digits(
                    if v < 0 {
                        1
                    } else {
                        0
                    },
                    1,
                ) =~= seq![v < 0]);
            }
            run = zeros;
            level = magnitude;
            last = position;
        }
        position += 1;
    }
    proof {
        assert(writer.bits() =~= whole);
        let all = crate::codeword::bits_of(writer.data@);
        assert(all =~= whole + crate::codeword::zeros(bytes * 8 - whole.len()));
        law_bytes_from_bits(writer.data@);
    }
    Ok(writer)
}

/// Encodes a plane into `bytes` bytes.
pub fn pack_plane(coeffs: &[i16], blocks: usize, bytes: usize) -> (r: Result<Vec<u8>, String>)
    ensures
        crate::wire::bytes_of(r) == packed_plane(coeffs@, blocks as int, bytes as int),
        r matches Ok(data) ==> data@.len() == bytes && crate::codeword::bits_of(data@)
            == plane_bits(coeffs@, blocks as int) + crate::codeword::zeros(
            bytes * 8 - plane_bits(coeffs@, blocks as int).len(),
        ),
{
    let writer = write_plane(coeffs, blocks, bytes)?;
    Ok(writer.data)
}

pub proof fn lemma_zero_byte(k: u8)
    by (bit_vector)
    requires
        k < 8,
    ensures
        0u8 / (1u8 << k) % 2 == 0,
{
}

/// Whether `bits` continue with `words` from `pos` on.
pub open spec fn starts(bits: Seq<bool>, pos: int, words: Seq<bool>) -> bool {
    &&& 0 <= pos
    &&& pos + words.len() <= bits.len()
    &&& bits.subrange(pos, pos + words.len()) == words
}

pub proof fn lemma_starts(bits: Seq<bool>, pos: int, a: Seq<bool>, b: Seq<bool>)
    requires
        starts(bits, pos, a + b),
    ensures
        starts(bits, pos, a),
        starts(bits, pos + a.len(), b),
{
    let w = a + b;
    assert forall|i: int| 0 <= i < w.len() implies bits[pos + i] == w[i] by {
        assert(bits.subrange(pos, pos + w.len())[i] == w[i]);
    }
    assert(bits.subrange(pos, pos + a.len()) =~= a) by {
        assert forall|i: int| 0 <= i < a.len() implies bits[pos + i] == a[i] by {
            assert(w[i] == a[i]);
        }
    }
    let x = bits.subrange(pos + a.len(), pos + a.len() + b.len());
    assert forall|i: int| 0 <= i < b.len() implies x[i] == b[i] by {
        assert(x[i] == bits[pos + (a.len() + i)]);
        assert(w[a.len() + i] == b[i]);
    }
    assert(x =~= b);
}

/// Whether the differences of the first coefficients from number `i` on have codewords that a
/// reader takes.
pub open spec fn dc_readable(c: Seq<i16>, i: int, blocks: int, code: int, negative: bool) -> bool
    decreases blocks - i,
{
    i >= blocks || {
        let delta = c[i] - c[i - 1];
        let next = dc_code(delta, negative);
        crate::codeword::leading(next, DC_BOOKS@[min(code, 6)]) <= 15 && dc_readable(
            c,
            i + 1,
            blocks,
            next,
            delta < 0,
        )
    }
}

/// Whether the other coefficients from `position` on have such codewords, and are not -32768.
pub open spec fn ac_readable(c: Seq<i16>, position: int, last: int, run: int, level: int) -> bool
    decreases c.len() - position,
{
    if position >= c.len() {
        true
    } else if c[position] == 0 {
        ac_readable(c, position + 1, last, run, level)
    } else {
        let zeros = position - last - 1;
        &&& crate::codeword::leading(zeros, RUN_BOOKS@[min(run, 15)]) <= 15
        &&& crate::codeword::leading(size(c[position]) - 1, LEVEL_BOOKS@[min(level, 9)]) <= 15
        &&& c[position] != -32768
        &&& ac_readable(c, position + 1, position, zeros, size(c[position]))
    }
}

/// Whether a reader takes every codeword of a plane.
pub open spec fn readable(c: Seq<i16>, blocks: int) -> bool {
    dc_readable(c, 1, blocks, 5, false) && ac_readable(c, blocks, blocks - 1, 4, 2)
}

proof fn lemma_leading(value: int, book: u8)
    requires
        book == 0xb8 ==> 0 <= value < 0x1_0000,
        DC_BOOKS@.contains(book) ==> 0 <= value <= 65534,
        RUN_BOOKS@.contains(book) || LEVEL_BOOKS@.contains(book) ==> 0 <= value <= 16384,
        book == 0xb8 || DC_BOOKS@.contains(book) || RUN_BOOKS@.contains(book)
            || LEVEL_BOOKS@.contains(book),
    ensures
        crate::codeword::leading(value, book) <= 15,
{
    crate::codeword::lemma_codeword(value, book);
    assert(book == 0xb8 || book == 0x04 || book == 0x28 || book == 0x4d || book == 0x70 || book
        == 0x06 || book == 0x05 || book == 0x29 || book == 0x4c || book == 0x0a);
    assert(book == 0x06 ==> RUN_BOOKS@[0] == book);
    assert(book == 0x05 ==> RUN_BOOKS@[2] == book);
    assert(book == 0x0a ==> LEVEL_BOOKS@[1] == book);
    assert(book == 0x29 ==> RUN_BOOKS@[5] == book);
    reveal(crate::codeword::leading);
    reveal_with_fuel(crate::codeword::power2, 20);
    if value >= crate::codeword::threshold(book) {
        let adjusted = value + crate::codeword::power2(crate::codeword::exp(book))
            - crate::codeword::threshold(book);
        crate::codeword::lemma_top_bit_below(
            adjusted,
            if book == 0x06 {
                14
            } else if book == 0x05 || book == 0x0a || book == 0x29 {
                15
            } else if book == 0x04 {
                16
            } else {
                17
            },
        );
    }
}

proof fn lemma_dc_round_trip(
    c: Seq<i16>,
    i: int,
    blocks: int,
    code: int,
    negative: bool,
    bits: Seq<bool>,
    pos: int,
)
    requires
        1 <= i <= blocks <= c.len(),
        0 <= code,
        starts(bits, pos, dc_words(c, i, blocks, code, negative)),
        dc_readable(c, i, blocks, code, negative),
    ensures
        dc_read(bits, pos, c.subrange(0, i), blocks, code, negative) == Ok::<
            (Seq<i16>, int),
            Seq<char>,
        >((c.subrange(0, blocks), pos + dc_words(c, i, blocks, code, negative).len())),
    decreases blocks - i,
{
    if i < blocks {
        let delta = c[i] - c[i - 1];
        let next = dc_code(delta, negative);
        let book = DC_BOOKS@[min(code, 6)];
        let word = crate::codeword::codeword(next, book);
        let rest = dc_words(c, i + 1, blocks, next, delta < 0);
        lemma_starts(bits, pos, word, rest);
        crate::codeword::law_codeword_round_trip(bits, pos, next, book);
        assert(c.subrange(0, i).push(c[i]) =~= c.subrange(0, i + 1));
        assert(c.subrange(0, i).last() == c[i - 1]);
        lemma_dc_round_trip(c, i + 1, blocks, next, delta < 0, bits, pos + word.len());
    }
}

/// The coefficients up to `n`, followed by zeros.
spec fn known(c: Seq<i16>, n: int) -> Seq<i16> {
    Seq::new(
        c.len(),
        |i: int|
            if i < n {
                c[i]
            } else {
                0i16
            },
    )
}

proof fn lemma_ac_round_trip(
    c: Seq<i16>,
    position: int,
    last: int,
    run: int,
    level: int,
    bits: Seq<bool>,
    pos: int,
)
    requires
        0 <= last < position <= c.len(),
        0 <= run,
        0 <= level,
        starts(bits, pos, ac_words(c, position, last, run, level)),
        ac_readable(c, position, last, run, level),
        crate::codeword::zero_tail_at(
            bits,
            pos + ac_words(c, position, last, run, level).len(),
        ),
        forall|i: int| last < i < position ==> c[i] == 0,
    ensures
        ac_read(bits, pos, known(c, position), last, run, level) == Ok::<Seq<i16>, Seq<char>>(c),
    decreases c.len() - position,
{
    if position == c.len() {
        assert(known(c, position) =~= c);
    } else if c[position] == 0 {
        assert(known(c, position) =~= known(c, position + 1));
        lemma_ac_round_trip(c, position + 1, last, run, level, bits, pos);
    } else {
        let zeros = position - last - 1;
        let run_book = RUN_BOOKS@[min(run, 15)];
        let level_book = LEVEL_BOOKS@[min(level, 9)];
        let a = crate::codeword::codeword(zeros, run_book);
        let b = crate::codeword::codeword(size(c[position]) - 1, level_book);
        let s = seq![c[position] < 0];
        let rest = ac_words(c, position + 1, position, zeros, size(c[position]));
        assert(ac_words(c, position, last, run, level) == a + b + s + rest);
        lemma_starts(bits, pos, a + b + s, rest);
        lemma_starts(bits, pos, a + b, s);
        lemma_starts(bits, pos, a, b);
        let p1 = pos + a.len();
        let p2 = p1 + b.len();
        assert(bits.subrange(p2, p2 + 1)[0] == s[0]);
        crate::codeword::lemma_codeword(zeros, run_book);
        let k = crate::codeword::leading(zeros, run_book);
        assert(bits[pos + k]) by {
            assert(bits.subrange(pos, pos + a.len())[k] == a[k]);
        }
        assert(!crate::codeword::zero_tail_at(bits, pos));
        crate::codeword::law_codeword_round_trip(bits, pos, zeros, run_book);
        crate::codeword::law_codeword_round_trip(bits, p1, size(c[position]) - 1, level_book);
        assert(known(c, position).update(position, c[position]) =~= known(c, position + 1));
        lemma_ac_round_trip(
            c,
            position + 1,
            position,
            zeros,
            size(c[position]),
            bits,
            p2 + 1,
        );
    }
}

proof fn lemma_octet_bits(a: u8, b: u8, c: u8, d: u8, e: u8, f: u8, g: u8, h: u8)
    by (bit_vector)
    requires
        a <= 1,
        b <= 1,
        c <= 1,
        d <= 1,
        e <= 1,
        f <= 1,
        g <= 1,
        h <= 1,
    ensures
        ({
            let v = (a * 128 + b * 64 + c * 32 + d * 16 + e * 8 + f * 4 + g * 2 + h) as u8;
            v / (1u8 << 7u8) % 2 == a && v / (1u8 << 6u8) % 2 == b && v / (1u8 << 5u8) % 2 == c && v
                / (1u8 << 4u8) % 2 == d && v / (1u8 << 3u8) % 2 == e && v / (1u8 << 2u8) % 2 == f
                && v / (1u8 << 1u8) % 2 == g && v / (1u8 << 0u8) % 2 == h
        }),
{
}

spec fn as_byte(b: bool) -> u8 {
    if b {
        1
    } else {
        0
    }
}

/// A bit string of whole bytes comes back from the bytes that it fills.
pub proof fn law_bits_from_bytes(bits: Seq<bool>)
    requires
        bits.len() % 8 == 0,
    ensures
        crate::codeword::bits_of(to_bytes(bits)) == bits,
{
    let data = to_bytes(bits);
    let back = crate::codeword::bits_of(data);
    assert forall|i: int| 0 <= i < bits.len() implies back[i] == bits[i] by {
        let n = i / 8;
        let o = bits.subrange(8 * n, 8 * n + 8);
        lemma_octet(o);
        lemma_octet_bits(
            as_byte(o[0]),
            as_byte(o[1]),
            as_byte(o[2]),
            as_byte(o[3]),
            as_byte(o[4]),
            as_byte(o[5]),
            as_byte(o[6]),
            as_byte(o[7]),
        );
        let k = i % 8;
        assert(o[k] == bits[i]);
        assert(k == 0 || k == 1 || k == 2 || k == 3 || k == 4 || k == 5 || k == 6 || k == 7);
    }
    assert(back =~= bits);
}

proof fn lemma_plane_read(c: Seq<i16>, blocks: int, bits: Seq<bool>, spare: int)
    requires
        block_count(blocks),
        c.len() == blocks * 64,
        0 <= spare < 32,
        bits == plane_bits(c, blocks) + crate::codeword::zeros(spare),
        readable(c, blocks),
    ensures
        ({
            let first = crate::codeword::word_at(bits, 0, 0xb8);
            let (n, p) = first->Ok_0;
            let dcs = dc_read(bits, p, seq![c[0]], blocks, 5, false);
            let (firsts, q) = dcs->Ok_0;
            &&& first is Ok
            &&& n == zig(c[0] as int)
            &&& dcs is Ok
            &&& ac_read(
                bits,
                q,
                firsts + Seq::new((blocks * 63) as nat, |i: int| 0i16),
                blocks - 1,
                4,
                2,
            ) == Ok::<Seq<i16>, Seq<char>>(c)
        }),
{
    let all = plane_bits(c, blocks);
    let first = crate::codeword::codeword(zig(c[0] as int), 0xb8);
    let dcs = dc_words(c, 1, blocks, 5, false);
    let acs = ac_words(c, blocks, blocks - 1, 4, 2);
    assert(bits.subrange(0, all.len() as int) =~= all);
    lemma_starts(bits, 0, first + dcs, acs);
    lemma_starts(bits, 0, first, dcs);
    lemma_leading(zig(c[0] as int), 0xb8);
    crate::codeword::law_codeword_round_trip(bits, 0, zig(c[0] as int), 0xb8);
    assert(seq![c[0]] =~= c.subrange(0, 1));
    lemma_dc_round_trip(c, 1, blocks, 5, false, bits, first.len() as int);
    assert(c.subrange(0, blocks) + Seq::new((blocks * 63) as nat, |i: int| 0i16) =~= known(
        c,
        blocks,
    ));
    lemma_ac_round_trip(c, blocks, blocks - 1, 4, 2, bits, (first + dcs).len() as int);
}

/// A plane comes back from its bytes, when a reader takes its codewords and fewer than 32 bits are
/// left over.
pub proof fn law_plane_round_trip(c: Seq<i16>, blocks: int, bytes: int)
    requires
        bytes > 0,
        readable(c, blocks),
        bytes * 8 - plane_bits(c, blocks).len() < 32,
    ensures
        packed_plane(c, blocks, bytes) matches Ok(data) ==> unpacked_plane(data, blocks) == Ok::<
            Seq<i16>,
            Seq<char>,
        >(c),
{
    if let Ok(data) = packed_plane(c, blocks, bytes) {
        let spare = bytes * 8 - plane_bits(c, blocks).len();
        let bits = plane_bits(c, blocks) + crate::codeword::zeros(spare);
        law_bits_from_bytes(bits);
        lemma_plane_read(c, blocks, bits, spare);
        assert(unzig(zig(c[0] as int)) == c[0]);
    }
}

/// Coefficients of at most fifteen bits are always readable.
pub proof fn law_small_planes_readable(c: Seq<i16>, blocks: int)
    requires
        block_count(blocks),
        c.len() == blocks * 64,
        forall|i: int| 0 <= i < c.len() ==> -16383 <= #[trigger] c[i] <= 16383,
    ensures
        readable(c, blocks),
{
    lemma_small_dc(c, 1, blocks, 5, false);
    lemma_small_ac(c, blocks, blocks - 1, 4, 2);
}

proof fn lemma_small_dc(c: Seq<i16>, i: int, blocks: int, code: int, negative: bool)
    requires
        1 <= i <= blocks <= c.len(),
        0 <= code,
        forall|i: int| 0 <= i < c.len() ==> -16383 <= #[trigger] c[i] <= 16383,
    ensures
        dc_readable(c, i, blocks, code, negative),
    decreases blocks - i,
{
    if i < blocks {
        let delta = c[i] - c[i - 1];
        let next = dc_code(delta, negative);
        let book = DC_BOOKS@[min(code, 6)];
        assert(DC_BOOKS@.contains(book));
        lemma_dc_leading(next, min(code, 6));
        lemma_small_dc(c, i + 1, blocks, next, delta < 0);
    }
}

proof fn lemma_dc_leading(value: int, i: int)
    requires
        0 <= value <= 65534,
        0 <= i <= 6,
    ensures
        crate::codeword::leading(value, DC_BOOKS@[i]) <= 15,
{
    let book = DC_BOOKS@[i];
    crate::codeword::lemma_codeword(value, book);
    assert(book == 0x04 || book == 0x28 || book == 0x4d || book == 0x70);
    reveal(crate::codeword::leading);
    reveal_with_fuel(crate::codeword::power2, 20);
    if value >= crate::codeword::threshold(book) {
        let adjusted = value + crate::codeword::power2(crate::codeword::exp(book))
            - crate::codeword::threshold(book);
        crate::codeword::lemma_top_bit_below(
            adjusted,
            if book == 0x04 {
                16
            } else {
                17
            },
        );
    }
}

proof fn lemma_small_ac(c: Seq<i16>, position: int, last: int, run: int, level: int)
    requires
        0 <= last < position <= c.len() <= 2048,
        0 <= run,
        0 <= level,
        forall|i: int| 0 <= i < c.len() ==> -16383 <= #[trigger] c[i] <= 16383,
    ensures
        ac_readable(c, position, last, run, level),
    decreases c.len() - position,
{
    if position < c.len() {
        if c[position] == 0 {
            lemma_small_ac(c, position + 1, last, run, level);
        } else {
            let zeros = position - last - 1;
            let run_book = RUN_BOOKS@[min(run, 15)];
            let level_book = LEVEL_BOOKS@[min(level, 9)];
            assert(RUN_BOOKS@.contains(run_book));
            assert(LEVEL_BOOKS@.contains(level_book));
            lemma_leading(zeros, run_book);
            lemma_leading(size(c[position]) - 1, level_book);
            lemma_small_ac(c, position + 1, position, zeros, size(c[position]));
        }
    }
}


proof fn lemma_codeword_len(value: int, book: u8)
    requires
        0 <= value < 0x4_0000,
    ensures
        crate::codeword::codeword(value, book).len() <= 41,
{
    reveal_with_fuel(crate::codeword::power2, 20);
    crate::codeword::lemma_codeword(value, book);
    let (r, e) = (crate::codeword::rice(book), crate::codeword::exp(book));
    crate::codeword::lemma_power2_grows(r, 7);
    crate::codeword::lemma_power2_grows(e, 7);
    crate::codeword::lemma_power2(r);
    crate::codeword::lemma_power2(e);
    if value >= crate::codeword::threshold(book) {
        let adjusted = value + crate::codeword::power2(e) - crate::codeword::threshold(book);
        assert(crate::codeword::threshold(book) >= 1) by (nonlinear_arith)
            requires
                crate::codeword::threshold(book) == (crate::codeword::switch(book) + 1)
                    * crate::codeword::power2(r),
                crate::codeword::switch(book) >= 0,
                crate::codeword::power2(r) >= 1,
        ;
        crate::codeword::lemma_top_bit_below(adjusted, 19);
        reveal(crate::codeword::leading);
    }
}

proof fn lemma_dc_len(c: Seq<i16>, i: int, blocks: int, code: int, negative: bool)
    requires
        1 <= i <= blocks <= c.len(),
    ensures
        dc_words(c, i, blocks, code, negative).len() <= 41 * (blocks - i),
    decreases blocks - i,
{
    if i < blocks {
        let delta = c[i] - c[i - 1];
        let next = dc_code(delta, negative);
        lemma_codeword_len(next, DC_BOOKS@[min(code, 6)]);
        lemma_dc_len(c, i + 1, blocks, next, delta < 0);
    }
}

proof fn lemma_ac_len(c: Seq<i16>, position: int, last: int, run: int, level: int)
    requires
        -1 <= last < position <= c.len() <= 2048,
    ensures
        ac_words(c, position, last, run, level).len() <= 83 * (c.len() - position),
    decreases c.len() - position,
{
    if position < c.len() {
        if c[position] == 0 {
            lemma_ac_len(c, position + 1, last, run, level);
        } else {
            lemma_codeword_len(position - last - 1, RUN_BOOKS@[min(run, 15)]);
            lemma_codeword_len(size(c[position]) - 1, LEVEL_BOOKS@[min(level, 9)]);
            lemma_ac_len(c, position + 1, position, position - last - 1, size(c[position]));
        }
    }
}

/// The code of a plane is never long.
pub proof fn lemma_plane_len(c: Seq<i16>, blocks: int)
    requires
        block_count(blocks),
        c.len() == blocks * 64,
    ensures
        0 < plane_bits(c, blocks).len() <= 32768 * 8,
{
    lemma_codeword_len(zig(c[0] as int), 0xb8);
    crate::codeword::lemma_codeword(zig(c[0] as int), 0xb8);
    lemma_dc_len(c, 1, blocks, 5, false);
    lemma_ac_len(c, blocks, blocks - 1, 4, 2);
}

}
