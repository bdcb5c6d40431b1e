//! How the movie model codes the coefficients of one plane.

use crate::model_coder::{emit_value, magnitude_bits, read_value, take_block, zero_context};
use crate::model_coder::{BlockDictionary, Blocks, Coder, Decoder};
use crate::source_rc::{Reading, Writing};
use crate::wire::{fail, Outcome};
use vstd::prelude::*;

verus! {

/// The slot for whether a block is a copy.
pub open spec fn copy_slot(channel: int, block: int, copied: Seq<bool>, prev: Seq<i16>) -> int {
    channel * 4 + crate::model_coder::flag(block > 0 && copied[block - 1]) * 2
        + crate::model_coder::flag(prev[block] == 0)
}

/// The slot for whether a block is coded as a difference.
pub open spec fn temporal_slot(channel: int, block: int, temporal: Seq<bool>, prev: Seq<i16>) -> int {
    32 + channel * 4 + crate::model_coder::flag(block > 0 && temporal[block - 1]) * 2
        + crate::model_coder::flag(prev[block] == 0)
}

/// What the coefficients of a block from frequency `f` on would cost, as they are.
pub open spec fn direct_cost(c: Seq<i16>, blocks: int, block: int, f: int) -> int
    decreases 64 - f,
{
    if f >= 64 {
        0
    } else {
        let v = c[f * blocks + block] as int;
        crate::model_coder::bits_in(v) * 2 + crate::model_coder::flag(v != 0) + direct_cost(
            c,
            blocks,
            block,
            f + 1,
        )
    }
}

/// What they would cost as differences.
pub open spec fn temporal_cost(c: Seq<i16>, prev: Seq<i16>, blocks: int, block: int, f: int) -> int
    decreases 64 - f,
{
    if f >= 64 {
        0
    } else {
        let v = c[f * blocks + block] - prev[f * blocks + block];
        crate::model_coder::bits_in(v) * 2 + crate::model_coder::flag(v != 0) + temporal_cost(
            c,
            prev,
            blocks,
            block,
            f + 1,
        )
    }
}

/// Whether a block is cheaper as a difference.
pub open spec fn prefers(c: Seq<i16>, prev: Seq<i16>, blocks: int, block: int) -> bool {
    temporal_cost(c, prev, blocks, block, 0) < direct_cost(c, blocks, block, 0)
}

/// Writes the lowest `n` bits of a place in the dictionary.
pub open spec fn put_place(s: (Seq<u16>, Writing), place: int, n: int) -> (Seq<u16>, Writing)
    decreases n,
{
    if n <= 0 {
        s
    } else {
        put_place(
            crate::model_coder::put(
                s,
                90016 + n - 1,
                place / crate::codeword::power2(n - 1) % 2 == 1,
            ),
            place,
            n - 1,
        )
    }
}

/// Reads `n` bits of a place behind the bits of `place`.
pub open spec fn get_place(s: (Seq<u16>, Reading), place: int, n: int) -> Outcome<
    (int, (Seq<u16>, Reading)),
>
    decreases n,
{
    if n <= 0 {
        Ok((place, s))
    } else {
        match crate::model_coder::get(s, 90016 + n - 1) {
            Err(e) => Err(e),
            Ok((b, s)) => get_place(s, 2 * place + crate::model_coder::flag(b), n - 1),
        }
    }
}

/// The coder, and for every block whether it is a copy and whether it is coded as a difference.
pub struct Flags<T> {
    pub s: T,
    pub copied: Seq<bool>,
    pub temporal: Seq<bool>,
}

/// Writes how the blocks from number `block` on are coded: as a copy of the block before it in
/// time, if there is one (`exists`), as a place in the dictionary, as a difference, or as it is.
pub open spec fn put_flags(
    t: Flags<(Seq<u16>, Writing)>,
    c: Seq<i16>,
    prev: Seq<i16>,
    blocks: int,
    block: int,
    exists_before: bool,
    channel: int,
    dict: Option<Blocks>,
) -> Flags<(Seq<u16>, Writing)>
    decreases blocks - block,
{
    if block >= blocks {
        t
    } else {
        let v = crate::model_coder::block_of(c, blocks, block);
        let same = exists_before && v == crate::model_coder::block_of(prev, blocks, block);
        let s = crate::model_coder::put(t.s, copy_slot(channel, block, t.copied, prev), same);
        let next = if same {
            Flags { s, copied: t.copied.push(true), temporal: t.temporal.push(false) }
        } else {
            let place = match dict {
                None => None,
                Some(d) => d.find(v),
            };
            let s = if dict is Some {
                crate::model_coder::put(s, 90000 + channel, place is Some)
            } else {
                s
            };
            if place is Some {
                Flags {
                    s: put_place(s, place->0, 19),
                    copied: t.copied.push(true),
                    temporal: t.temporal.push(false),
                }
            } else {
                let diff = prefers(c, prev, blocks, block);
                Flags {
                    s: crate::model_coder::put(
                        s,
                        temporal_slot(channel, block, t.temporal, prev),
                        diff,
                    ),
                    copied: t.copied.push(false),
                    temporal: t.temporal.push(diff),
                }
            }
        };
        put_flags(next, c, prev, blocks, block + 1, exists_before, channel, dict)
    }
}

/// What is coded of coefficient number `i`.
pub open spec fn residual(
    c: Seq<i16>,
    prev: Seq<i16>,
    blocks: int,
    copied: Seq<bool>,
    temporal: Seq<bool>,
    i: int,
) -> int {
    if copied[i % blocks] {
        0
    } else if temporal[i % blocks] {
        c[i] - prev[i]
    } else {
        c[i] as int
    }
}

/// Writes the residuals from number `i` on.
pub open spec fn put_values(
    s: (Seq<u16>, Writing),
    c: Seq<i16>,
    prev: Seq<i16>,
    blocks: int,
    copied: Seq<bool>,
    temporal: Seq<bool>,
    channel: int,
    i: int,
) -> (Seq<u16>, Writing)
    decreases c.len() - i,
{
    if i >= c.len() {
        s
    } else if copied[i % blocks] {
        put_values(s, c, prev, blocks, copied, temporal, channel, i + 1)
    } else {
        let left = if i % blocks > 0 {
            residual(c, prev, blocks, copied, temporal, i - 1)
        } else {
            0
        };
        let above = if i >= blocks {
            residual(c, prev, blocks, copied, temporal, i - blocks)
        } else {
            0
        };
        let zero = crate::model_coder::zero_slot(
            channel,
            i / blocks,
            prev[i] as int,
            left,
            above,
            temporal[i % blocks],
        );
        let s = crate::model_coder::put_value(
            s,
            residual(c, prev, blocks, copied, temporal, i),
            channel * 64 + i / blocks,
            zero,
            left,
            prev[i] as int,
        );
        put_values(s, c, prev, blocks, copied, temporal, channel, i + 1)
    }
}

/// Writes a plane.
pub open spec fn put_plane(
    s: (Seq<u16>, Writing),
    c: Seq<i16>,
    prev: Seq<i16>,
    blocks: int,
    exists_before: bool,
    channel: int,
    dict: Option<Blocks>,
) -> (Seq<u16>, Writing) {
    let t = put_flags(
        Flags { s, copied: Seq::empty(), temporal: Seq::empty() },
        c,
        prev,
        blocks,
        0,
        exists_before,
        channel,
        dict,
    );
    put_values(t.s, c, prev, blocks, t.copied, t.temporal, channel, 0)
}

/// A plane with the coefficients of one block replaced.
pub open spec fn with_block(c: Seq<i16>, blocks: int, block: int, v: Seq<i16>) -> Seq<i16> {
    Seq::new(
        c.len(),
        |i: int|
            if i % blocks == block {
                v[i / blocks]
            } else {
                c[i]
            },
    )
}

/// Reads how the blocks from number `block` on are coded, and fills in those that are copies.
pub open spec fn get_flags(
    t: Flags<(Seq<u16>, Reading)>,
    c: Seq<i16>,
    prev: Seq<i16>,
    blocks: int,
    block: int,
    reset: bool,
    channel: int,
    dict: Option<Blocks>,
) -> Outcome<(Flags<(Seq<u16>, Reading)>, Seq<i16>)>
    decreases blocks - block,
{
    if block >= blocks {
        Ok((t, c))
    } else {
        match crate::model_coder::get(t.s, copy_slot(channel, block, t.copied, prev)) {
            Err(e) => Err(e),
            Ok((same, s)) => if same {
                if reset {
                    Err("invalid initial ProRes model reference"@)
                } else {
                    get_flags(
                        Flags { s, copied: t.copied.push(true), temporal: t.temporal.push(false) },
                        with_block(
                            c,
                            blocks,
                            block,
                            crate::model_coder::block_of(prev, blocks, block),
                        ),
                        prev,
                        blocks,
                        block + 1,
                        reset,
                        channel,
                        dict,
                    )
                }
            } else {
                let known = match dict {
                    None => Ok((false, s)),
                    Some(d) => crate::model_coder::get(s, 90000 + channel),
                };
                match known {
                    Err(e) => Err(e),
                    Ok((listed, s)) => if listed {
                        match get_place(s, 0, 19) {
                            Err(e) => Err(e),
                            Ok((place, s)) => if place >= dict->0.values.len() {
                                Err("invalid ProRes shared block reference"@)
                            } else {
                                get_flags(
                                    Flags {
                                        s,
                                        copied: t.copied.push(true),
                                        temporal: t.temporal.push(false),
                                    },
                                    with_block(c, blocks, block, dict->0.values[place]),
                                    prev,
                                    blocks,
                                    block + 1,
                                    reset,
                                    channel,
                                    dict,
                                )
                            },
                        }
                    } else {
                        match crate::model_coder::get(
                            s,
                            temporal_slot(channel, block, t.temporal, prev),
                        ) {
                            Err(e) => Err(e),
                            Ok((diff, s)) => get_flags(
                                Flags {
                                    s,
                                    copied: t.copied.push(false),
                                    temporal: t.temporal.push(diff),
                                },
                                c,
                                prev,
                                blocks,
                                block + 1,
                                reset,
                                channel,
                                dict,
                            ),
                        }
                    },
                }
            },
        }
    }
}

/// Reads the residuals from number `i` on; those before are in `done`.
pub open spec fn get_values(
    s: (Seq<u16>, Reading),
    c: Seq<i16>,
    done: Seq<int>,
    prev: Seq<i16>,
    blocks: int,
    copied: Seq<bool>,
    temporal: Seq<bool>,
    channel: int,
) -> Outcome<((Seq<u16>, Reading), Seq<i16>)>
    decreases c.len() - done.len(),
{
    let i = done.len() as int;
    if i >= c.len() {
        Ok((s, c))
    } else if copied[i % blocks] {
        get_values(s, c, done.push(0), prev, blocks, copied, temporal, channel)
    } else {
        let left = if i % blocks > 0 {
            done[i - 1]
        } else {
            0
        };
        let above = if i >= blocks {
            done[i - blocks]
        } else {
            0
        };
        let zero = crate::model_coder::zero_slot(
            channel,
            i / blocks,
            prev[i] as int,
            left,
            above,
            temporal[i % blocks],
        );
        match crate::model_coder::get_value(
            s,
            channel * 64 + i / blocks,
            zero,
            left,
            prev[i] as int,
        ) {
            Err(e) => Err(e),
            Ok((v, s)) => {
                let value = v + if temporal[i % blocks] {
                    prev[i] as int
                } else {
                    0
                };
                if value < i16::MIN || value > i16::MAX {
                    Err("ProRes model coefficient overflow"@)
                } else {
                    get_values(
                        s,
                        c.update(i, value as i16),
                        done.push(v),
                        prev,
                        blocks,
                        copied,
                        temporal,
                        channel,
                    )
                }
            },
        }
    }
}

/// Reads a plane.
pub open spec fn get_plane(
    s: (Seq<u16>, Reading),
    prev: Seq<i16>,
    blocks: int,
    reset: bool,
    channel: int,
    dict: Option<Blocks>,
) -> Outcome<((Seq<u16>, Reading), Seq<i16>)> {
    match get_flags(
        Flags { s, copied: Seq::empty(), temporal: Seq::empty() },
        Seq::new((blocks * 64) as nat, |i: int| 0i16),
        prev,
        blocks,
        0,
        reset,
        channel,
        dict,
    ) {
        Err(e) => Err(e),
        Ok((t, c)) => get_values(
            t.s,
            c,
            Seq::empty(),
            prev,
            blocks,
            t.copied,
            t.temporal,
            channel,
        ),
    }
}

pub open spec fn known_blocks(shared: bool, d: Blocks) -> Option<Blocks> {
    if shared {
        Some(d)
    } else {
        None
    }
}

pub proof fn lemma_cell(i: int, blocks: int, f: int, block: int)
    requires
        blocks >= 1,
        0 <= block < blocks,
        i == f * blocks + block,
    ensures
        i / blocks == f,
        i % blocks == block,
{
    vstd::arithmetic::div_mod::lemma_fundamental_div_mod_converse(i, blocks, f, block);
}

pub proof fn lemma_row(i: int, blocks: int)
    requires
        blocks >= 1,
        0 <= i < blocks * 64,
    ensures
        0 <= i / blocks < 64,
        0 <= i % blocks < blocks,
        i == (i / blocks) * blocks + i % blocks,
{
    vstd::arithmetic::div_mod::lemma_fundamental_div_mod(i, blocks);
    assert(0 <= i % blocks < blocks && 0 <= i / blocks) by (nonlinear_arith)
        requires
            blocks >= 1,
            0 <= i,
    ;
    assert(i / blocks < 64) by (nonlinear_arith)
        requires
            blocks >= 1,
            0 <= i < blocks * 64,
            i == blocks * (i / blocks) + i % blocks,
            0 <= i % blocks,
    ;
}

fn is_copy(c: &Vec<i16>, prev: &Vec<i16>, blocks: usize, block: usize) -> (r: bool)
    requires
        block < blocks <= 32,
        c@.len() == blocks * 64,
        prev@.len() == blocks * 64,
    ensures
        r == (crate::model_coder::block_of(c@, blocks as int, block as int)
            == crate::model_coder::block_of(prev@, blocks as int, block as int)),
{
    let ghost a = crate::model_coder::block_of(c@, blocks as int, block as int);
    let ghost b = crate::model_coder::block_of(prev@, blocks as int, block as int);
    let mut f: usize = 0;
    while f < 64
        invariant
            f <= 64,
            block < blocks <= 32,
            c@.len() == blocks * 64,
            prev@.len() == blocks * 64,
            a == crate::model_coder::block_of(c@, blocks as int, block as int),
            b == crate::model_coder::block_of(prev@, blocks as int, block as int),
            forall|j: int| 0 <= j < f ==> a[j] == b[j],
        decreases 64 - f,
    {
        assert(f * blocks + block < blocks * 64) by (nonlinear_arith)
            requires
                f < 64,
                block < blocks,
        ;
        if c[f * blocks + block] != prev[f * blocks + block] {
            assert(a[f as int] != b[f as int]);
            return false;
        }
        f += 1;
    }
    assert(a =~= b);
    true
}

fn compare_costs(c: &Vec<i16>, prev: &Vec<i16>, blocks: usize, block: usize) -> (r: bool)
    requires
        block < blocks <= 32,
        c@.len() == blocks * 64,
        prev@.len() == blocks * 64,
    ensures
        r == prefers(c@, prev@, blocks as int, block as int),
{
    let mut direct: usize = 0;
    let mut temporal: usize = 0;
    let mut f: usize = 0;
    let ghost (n, b) = (blocks as int, block as int);
    while f < 64
        invariant
            f <= 64,
            block < blocks <= 32,
            n == blocks,
            b == block,
            c@.len() == blocks * 64,
            prev@.len() == blocks * 64,
            direct <= f * 33,
            temporal <= f * 33,
            direct + direct_cost(c@, n, b, f as int) == direct_cost(c@, n, b, 0),
            temporal + temporal_cost(c@, prev@, n, b, f as int) == temporal_cost(
                c@,
                prev@,
                n,
                b,
                0,
            ),
        decreases 64 - f,
    {
        assert(f * blocks + block < blocks * 64) by (nonlinear_arith)
            requires
                f < 64,
                block < blocks,
        ;
        let i: usize = f * blocks + block;
        let v: i32 = c[i] as i32;
        let d: i32 = v - prev[i] as i32;
        direct = direct + magnitude_bits(v) * 2 + (if v != 0 { 1 } else { 0 });
        temporal = temporal + magnitude_bits(d) * 2 + (if d != 0 { 1 } else { 0 });
        f += 1;
    }
    temporal < direct
}

fn write_place(coder: &mut Coder, place: usize)
    requires
        old(coder).wf(),
        old(coder).slots@.len() == crate::model_coder::CONTEXTS,
        old(coder).room(20),
        place < 524288,
    ensures
        final(coder).wf(),
        final(coder).slots@.len() == crate::model_coder::CONTEXTS,
        final(coder).enc.cache_size <= old(coder).enc.cache_size + 40,
        final(coder).model() == put_place(old(coder).model(), place as int, 19),
{
    let mut n: usize = 19;
    while n > 0
        invariant
            coder.wf(),
            coder.slots@.len() == crate::model_coder::CONTEXTS,
            n <= 19,
            place < 524288,
            old(coder).room(20),
            coder.enc.cache_size <= old(coder).enc.cache_size + 2 * (19 - n),
            put_place(coder.model(), place as int, n as int) == put_place(
                old(coder).model(),
                place as int,
                19,
            ),
        decreases n,
    {
        proof {
            crate::codeword::lemma_power2(n - 1);
        }
        let b: bool = place as u32 / crate::codeword::power(n - 1) % 2 == 1;
        coder.bit(90016 + n - 1, b);
        n -= 1;
    }
}

fn read_place(coder: &mut Decoder<'_>) -> (r: Result<usize, String>)
    requires
        old(coder).wf(),
        old(coder).slots@.len() == crate::model_coder::CONTEXTS,
    ensures
        match get_place(old(coder).model(), 0, 19) {
            Ok((place, s)) => r == Ok::<usize, String>(place as usize) && 0 <= place < 524288
                && final(coder).model() == s && final(coder).wf() && final(coder).slots@.len()
                == crate::model_coder::CONTEXTS,
            Err(e) => r matches Err(m) && m@ == e,
        },
{
    let mut place: usize = 0;
    let mut n: usize = 19;
    let ghost whole = get_place(coder.model(), 0, 19);
    proof {
        reveal_with_fuel(crate::codeword::power2, 20);
    }
    while n > 0
        invariant
            coder.wf(),
            coder.slots@.len() == crate::model_coder::CONTEXTS,
            n <= 19,
            place < crate::codeword::power2(19 - n),
            whole == get_place(old(coder).model(), 0, 19),
            whole == get_place(coder.model(), place as int, n as int),
        decreases n,
    {
        proof {
            crate::codeword::lemma_power2_grows(20 - n, 19);
            reveal_with_fuel(crate::codeword::power2, 20);
        }
        let b = coder.bit(90016 + n - 1)?;
        place = 2 * place + if b { 1 } else { 0 };
        n -= 1;
    }
    proof {
        reveal_with_fuel(crate::codeword::power2, 20);
    }
    Ok(place)
}

fn write_flags(
    coder: &mut Coder,
    c: &Vec<i16>,
    prev: &Vec<i16>,
    blocks: usize,
    exists_before: bool,
    channel: usize,
    dict: &BlockDictionary,
    shared: bool,
) -> (r: (Vec<bool>, Vec<bool>))
    requires
        old(coder).wf(),
        old(coder).slots@.len() == crate::model_coder::CONTEXTS,
        old(coder).room(1000),
        1 <= blocks <= 32,
        c@.len() == blocks * 64,
        prev@.len() == blocks * 64,
        channel < 3,
        dict@.wf(),
    ensures
        final(coder).wf(),
        final(coder).slots@.len() == crate::model_coder::CONTEXTS,
        final(coder).enc.cache_size <= old(coder).enc.cache_size + 1600,
        r.0@.len() == blocks,
        r.1@.len() == blocks,
        ({
            let t = put_flags(
                Flags { s: old(coder).model(), copied: Seq::empty(), temporal: Seq::empty() },
                c@,
                prev@,
                blocks as int,
                0,
                exists_before,
                channel as int,
                known_blocks(shared, dict@),
            );
            t.s == final(coder).model() && t.copied == r.0@ && t.temporal == r.1@
        }),
{
    let mut copied: Vec<bool> = Vec::new();
    let mut temporal: Vec<bool> = Vec::new();
    let mut block: usize = 0;
    let ghost d = known_blocks(shared, dict@);
    let ghost whole = put_flags(
        Flags { s: coder.model(), copied: Seq::empty(), temporal: Seq::empty() },
        c@,
        prev@,
        blocks as int,
        0,
        exists_before,
        channel as int,
        d,
    );
    assert(copied@ =~= Seq::empty());
    assert(temporal@ =~= Seq::empty());
    while block < blocks
        invariant
            coder.wf(),
            coder.slots@.len() == crate::model_coder::CONTEXTS,
            block <= blocks <= 32,
            c@.len() == blocks * 64,
            prev@.len() == blocks * 64,
            channel < 3,
            dict@.wf(),
            d == known_blocks(shared, dict@),
            copied@.len() == block,
            temporal@.len() == block,
            old(coder).room(1000),
            coder.enc.cache_size <= old(coder).enc.cache_size + 50 * block,
            whole == put_flags(
                Flags { s: coder.model(), copied: copied@, temporal: temporal@ },
                c@,
                prev@,
                blocks as int,
                block as int,
                exists_before,
                channel as int,
                d,
            ),
        decreases blocks - block,
    {
        let same: bool = exists_before && is_copy(c, prev, blocks, block);
        let slot: usize = channel * 4 + (if block > 0 && copied[block - 1] { 2 } else { 0 }) + (
        if prev[block] == 0 { 1 } else { 0 });
        coder.bit(slot, same);
        if same {
            copied.push(true);
            temporal.push(false);
        } else {
            let mut place: Option<usize> = None;
            if shared {
                let v = take_block(c, blocks, block);
                place = dict.find(&v);
                coder.bit(90000 + channel, place.is_some());
            }
            match place {
                Some(p) => {
                    write_place(coder, p);
                    copied.push(true);
                    temporal.push(false);
                },
                None => {
                    let diff = compare_costs(c, prev, blocks, block);
                    let slot: usize = 32 + channel * 4 + (if block > 0 && temporal[block - 1] {
                        2
                    } else {
                        0
                    }) + (if prev[block] == 0 { 1 } else { 0 });
                    coder.bit(slot, diff);
                    copied.push(false);
                    temporal.push(diff);
                },
            }
        }
        block += 1;
    }
    (copied, temporal)
}

fn write_values(
    coder: &mut Coder,
    c: &Vec<i16>,
    prev: &Vec<i16>,
    blocks: usize,
    channel: usize,
    copied: &Vec<bool>,
    temporal: &Vec<bool>,
)
    requires
        old(coder).wf(),
        old(coder).slots@.len() == crate::model_coder::CONTEXTS,
        old(coder).room(100000),
        1 <= blocks <= 32,
        c@.len() == blocks * 64,
        prev@.len() == blocks * 64,
        channel < 3,
        copied@.len() == blocks,
        temporal@.len() == blocks,
    ensures
        final(coder).wf(),
        final(coder).slots@.len() == crate::model_coder::CONTEXTS,
        final(coder).enc.cache_size <= old(coder).enc.cache_size + 80 * 2048,
        final(coder).model() == put_values(
            old(coder).model(),
            c@,
            prev@,
            blocks as int,
            copied@,
            temporal@,
            channel as int,
            0,
        ),
{
    let total: usize = blocks * 64;
    let mut residuals: Vec<i32> = Vec::new();
    let mut i: usize = 0;
    let ghost whole = put_values(
        coder.model(),
        c@,
        prev@,
        blocks as int,
        copied@,
        temporal@,
        channel as int,
        0,
    );
    while i < total
        invariant
            coder.wf(),
            coder.slots@.len() == crate::model_coder::CONTEXTS,
            i <= total == blocks * 64,
            1 <= blocks <= 32,
            c@.len() == total,
            prev@.len() == total,
            channel < 3,
            copied@.len() == blocks,
            temporal@.len() == blocks,
            old(coder).room(100000),
            coder.enc.cache_size <= old(coder).enc.cache_size + 80 * i,
            residuals@.len() == i,
            forall|j: int|
                0 <= j < i ==> #[trigger] residuals@[j] == residual(
                    c@,
                    prev@,
                    blocks as int,
                    copied@,
                    temporal@,
                    j,
                ),
            whole == put_values(
                coder.model(),
                c@,
                prev@,
                blocks as int,
                copied@,
                temporal@,
                channel as int,
                i as int,
            ),
        decreases total - i,
    {
        proof {
            lemma_row(i as int, blocks as int);
        }
        let block: usize = i % blocks;
        let frequency: usize = i / blocks;
        if copied[block] {
            residuals.push(0);
        } else {
            let p: i32 = prev[i] as i32;
            let value: i32 = if temporal[block] { c[i] as i32 - p } else { c[i] as i32 };
            let left: i32 = if block > 0 { residuals[i - 1] } else { 0 };
            let above: i32 = if i >= blocks { residuals[i - blocks] } else { 0 };
            let zero = zero_context(channel, frequency, p, left, above, temporal[block]);
            emit_value(coder, value, channel * 64 + frequency, zero, left, p);
            residuals.push(value);
        }
        i += 1;
    }
}

/// Writes a plane.
pub fn write_plane(
    coder: &mut Coder,
    c: &Vec<i16>,
    prev: &Vec<i16>,
    blocks: usize,
    exists_before: bool,
    channel: usize,
    dict: &BlockDictionary,
    shared: bool,
)
    requires
        old(coder).wf(),
        old(coder).slots@.len() == crate::model_coder::CONTEXTS,
        old(coder).room(101000),
        1 <= blocks <= 32,
        c@.len() == blocks * 64,
        prev@.len() == blocks * 64,
        channel < 3,
        dict@.wf(),
    ensures
        final(coder).wf(),
        final(coder).slots@.len() == crate::model_coder::CONTEXTS,
        final(coder).enc.cache_size <= old(coder).enc.cache_size + 200000,
        final(coder).model() == put_plane(
            old(coder).model(),
            c@,
            prev@,
            blocks as int,
            exists_before,
            channel as int,
            known_blocks(shared, dict@),
        ),
{
    let (copied, temporal) = write_flags(
        coder,
        c,
        prev,
        blocks,
        exists_before,
        channel,
        dict,
        shared,
    );
    write_values(coder, c, prev, blocks, channel, &copied, &temporal);
}

fn set_block(c: &mut Vec<i16>, blocks: usize, block: usize, v: &Vec<i16>)
    requires
        block < blocks <= 32,
        old(c)@.len() == blocks * 64,
        v@.len() == 64,
    ensures
        final(c)@ == with_block(old(c)@, blocks as int, block as int, v@),
{
    let mut f: usize = 0;
    while f < 64
        invariant
            f <= 64,
            block < blocks <= 32,
            c@.len() == blocks * 64,
            old(c)@.len() == blocks * 64,
            v@.len() == 64,
            forall|i: int|
                0 <= i < c@.len() ==> #[trigger] c@[i] == (if i % (blocks as int) == block && i / (
                blocks as int) < f {
                    v@[i / (blocks as int)]
                } else {
                    old(c)@[i]
                }),
        decreases 64 - f,
    {
        assert(f * blocks + block < blocks * 64) by (nonlinear_arith)
            requires
                f < 64,
                block < blocks,
        ;
        let at: usize = f * blocks + block;
        let ghost before = c@;
        c[at] = v[f];
        proof {
            lemma_cell(at as int, blocks as int, f as int, block as int);
            assert forall|i: int| 0 <= i < c@.len() implies #[trigger] c@[i] == (if i % (
            blocks as int) == block && i / (blocks as int) < f + 1 {
                v@[i / (blocks as int)]
            } else {
                old(c)@[i]
            }) by {
                lemma_row(i, blocks as int);
                if i != at {
                    assert(c@[i] == before[i]);
                }
            }
        }
        f += 1;
    }
    proof {
        assert forall|i: int| 0 <= i < c@.len() implies c@[i] == with_block(
            old(c)@,
            blocks as int,
            block as int,
            v@,
        )[i] by {
            lemma_row(i, blocks as int);
        }
        assert(c@ =~= with_block(old(c)@, blocks as int, block as int, v@));
    }
}

fn read_flags(
    coder: &mut Decoder<'_>,
    c: &mut Vec<i16>,
    prev: &Vec<i16>,
    blocks: usize,
    reset: bool,
    channel: usize,
    dict: &BlockDictionary,
    shared: bool,
) -> (r: Result<(Vec<bool>, Vec<bool>), String>)
    requires
        old(coder).wf(),
        old(coder).slots@.len() == crate::model_coder::CONTEXTS,
        1 <= blocks <= 32,
        old(c)@.len() == blocks * 64,
        prev@.len() == blocks * 64,
        channel < 3,
        dict@.wf(),
    ensures
        match get_flags(
            Flags { s: old(coder).model(), copied: Seq::empty(), temporal: Seq::empty() },
            old(c)@,
            prev@,
            blocks as int,
            0,
            reset,
            channel as int,
            known_blocks(shared, dict@),
        ) {
            Ok((t, d)) => r matches Ok((a, b)) && t.s == final(coder).model() && final(coder).wf() && final(coder).slots@.len()
                == crate::model_coder::CONTEXTS && final(coder).slots@.len()
                == crate::model_coder::CONTEXTS && t.copied == a@ && t.temporal == b@ && d == final(c)@ && a@.len() == blocks
                && b@.len() == blocks && d.len() == blocks * 64,
            Err(e) => r matches Err(m) && m@ == e,
        },
{
    let mut copied: Vec<bool> = Vec::new();
    let mut temporal: Vec<bool> = Vec::new();
    let mut block: usize = 0;
    let ghost d = known_blocks(shared, dict@);
    let ghost whole = get_flags(
        Flags { s: coder.model(), copied: Seq::empty(), temporal: Seq::empty() },
        c@,
        prev@,
        blocks as int,
        0,
        reset,
        channel as int,
        d,
    );
    assert(copied@ =~= Seq::empty());
    assert(temporal@ =~= Seq::empty());
    while block < blocks
        invariant
            coder.wf(),
            coder.slots@.len() == crate::model_coder::CONTEXTS,
            block <= blocks <= 32,
            c@.len() == blocks * 64,
            prev@.len() == blocks * 64,
            channel < 3,
            dict@.wf(),
            d == known_blocks(shared, dict@),
            copied@.len() == block,
            temporal@.len() == block,
            whole == get_flags(
                Flags { s: old(coder).model(), copied: Seq::empty(), temporal: Seq::empty() },
                old(c)@,
                prev@,
                blocks as int,
                0,
                reset,
                channel as int,
                d,
            ),
            whole == get_flags(
                Flags { s: coder.model(), copied: copied@, temporal: temporal@ },
                c@,
                prev@,
                blocks as int,
                block as int,
                reset,
                channel as int,
                d,
            ),
        decreases blocks - block,
    {
        let slot: usize = channel * 4 + (if block > 0 && copied[block - 1] { 2 } else { 0 }) + (
        if prev[block] == 0 { 1 } else { 0 });
        let same = coder.bit(slot)?;
        if same {
            if reset {
                return Err(fail("invalid initial ProRes model reference"));
            }
            let v = take_block(prev, blocks, block);
            set_block(c, blocks, block, &v);
            copied.push(true);
            temporal.push(false);
        } else {
            let mut listed = false;
            if shared {
                listed = coder.bit(90000 + channel)?;
            }
            if listed {
                let place = read_place(coder)?;
                if place >= dict.values.len() {
                    return Err(fail("invalid ProRes shared block reference"));
                }
                assert(dict@.values[place as int] == dict.values@[place as int]@);
                set_block(c, blocks, block, &dict.values[place]);
                copied.push(true);
                temporal.push(false);
            } else {
                let slot: usize = 32 + channel * 4 + (if block > 0 && temporal[block - 1] {
                    2
                } else {
                    0
                }) + (if prev[block] == 0 { 1 } else { 0 });
                let diff = coder.bit(slot)?;
                copied.push(false);
                temporal.push(diff);
            }
        }
        block += 1;
    }
    Ok((copied, temporal))
}

/// Whole numbers as the mathematical ones that they are.
pub open spec fn ints(v: Seq<i32>) -> Seq<int> {
    v.map_values(|x: i32| x as int)
}

fn read_values(
    coder: &mut Decoder<'_>,
    c: &mut Vec<i16>,
    prev: &Vec<i16>,
    blocks: usize,
    channel: usize,
    copied: &Vec<bool>,
    temporal: &Vec<bool>,
) -> (r: Result<(), String>)
    requires
        old(coder).wf(),
        old(coder).slots@.len() == crate::model_coder::CONTEXTS,
        1 <= blocks <= 32,
        old(c)@.len() == blocks * 64,
        prev@.len() == blocks * 64,
        channel < 3,
        copied@.len() == blocks,
        temporal@.len() == blocks,
    ensures
        match get_values(
            old(coder).model(),
            old(c)@,
            Seq::empty(),
            prev@,
            blocks as int,
            copied@,
            temporal@,
            channel as int,
        ) {
            Ok((s, d)) => r is Ok && s == final(coder).model() && final(coder).wf() && final(coder).slots@.len()
                == crate::model_coder::CONTEXTS && d == final(c)@
                && d.len() == blocks * 64,
            Err(e) => r matches Err(m) && m@ == e,
        },
{
    let total: usize = blocks * 64;
    let mut residuals: Vec<i32> = Vec::new();
    let mut i: usize = 0;
    let ghost whole = get_values(
        coder.model(),
        c@,
        Seq::empty(),
        prev@,
        blocks as int,
        copied@,
        temporal@,
        channel as int,
    );
    assert(ints(residuals@) =~= Seq::empty());
    while i < total
        invariant
            coder.wf(),
            coder.slots@.len() == crate::model_coder::CONTEXTS,
            i <= total == blocks * 64,
            1 <= blocks <= 32,
            c@.len() == total,
            prev@.len() == total,
            channel < 3,
            copied@.len() == blocks,
            temporal@.len() == blocks,
            residuals@.len() == i,
            whole == get_values(
                old(coder).model(),
                old(c)@,
                Seq::empty(),
                prev@,
                blocks as int,
                copied@,
                temporal@,
                channel as int,
            ),
            whole == get_values(
                coder.model(),
                c@,
                ints(residuals@),
                prev@,
                blocks as int,
                copied@,
                temporal@,
                channel as int,
            ),
        decreases total - i,
    {
        proof {
            lemma_row(i as int, blocks as int);
        }
        let ghost done = ints(residuals@);
        let block: usize = i % blocks;
        let frequency: usize = i / blocks;
        if copied[block] {
            residuals.push(0);
            assert(ints(residuals@) =~= done.push(0));
        } else {
            let p: i32 = prev[i] as i32;
            let left: i32 = if block > 0 { residuals[i - 1] } else { 0 };
            let above: i32 = if i >= blocks { residuals[i - blocks] } else { 0 };
            let zero = zero_context(channel, frequency, p, left, above, temporal[block]);
            let v = read_value(coder, channel * 64 + frequency, zero, left, p)?;
            let value: i32 = v + if temporal[block] { p } else { 0 };
            if value < -32768 || value > 32767 {
                return Err(fail("ProRes model coefficient overflow"));
            }
            c[i] = value as i16;
            residuals.push(v);
            assert(ints(residuals@) =~= done.push(v as int));
        }
        i += 1;
    }
    Ok(())
}

/// Reads a plane.
pub fn read_plane(
    coder: &mut Decoder<'_>,
    prev: &Vec<i16>,
    blocks: usize,
    reset: bool,
    channel: usize,
    dict: &BlockDictionary,
    shared: bool,
) -> (r: Result<Vec<i16>, String>)
    requires
        old(coder).wf(),
        old(coder).slots@.len() == crate::model_coder::CONTEXTS,
        1 <= blocks <= 32,
        prev@.len() == blocks * 64,
        channel < 3,
        dict@.wf(),
    ensures
        match get_plane(
            old(coder).model(),
            prev@,
            blocks as int,
            reset,
            channel as int,
            known_blocks(shared, dict@),
        ) {
            Ok((s, c)) => r matches Ok(v) && v@ == c && c.len() == blocks * 64 && s == final(
                coder).model() && final(coder).wf() && final(coder).slots@.len()
                == crate::model_coder::CONTEXTS,
            Err(e) => r matches Err(m) && m@ == e,
        },
{
    let mut c: Vec<i16> = vec![0i16; blocks * 64];
    assert(c@ =~= Seq::new((blocks * 64) as nat, |i: int| 0i16));
    let (copied, temporal) = read_flags(coder, &mut c, prev, blocks, reset, channel, dict, shared)?;
    read_values(coder, &mut c, prev, blocks, channel, &copied, &temporal)?;
    Ok(c)
}

}
