//! The adaptive slots, the coefficient code and the block dictionary of the movie model.

use crate::source_rc::{Dec, Enc, Reading, Writing};
use crate::wire::{fail, Outcome};
use std::collections::HashMap;
use vstd::prelude::*;

verus! {

broadcast use vstd::std_specs::hash::group_hash_axioms;

pub const CONTEXTS: usize = 90100;

pub const DICTIONARY_CAPACITY: usize = 524288;

/// A probability after a bit was seen: it moves by a thirty-second of the way, and by at least one.
pub open spec fn stepped(p: u16, b: bool) -> u16 {
    let moved = if b {
        p - (if p / 32 > 1 {
            (p / 32) as int
        } else {
            1
        })
    } else {
        p + (if (4096 - p) / 32 > 1 {
            (4096 - p) / 32
        } else {
            1
        })
    };
    if moved < 1 {
        1
    } else if moved > 4095 {
        4095
    } else {
        moved as u16
    }
}

/// Moves a probability towards the bit that was seen.
pub fn update_probability(probability: &mut u16, bit: bool)
    requires
        crate::source_rc::open_slot(*old(probability)),
    ensures
        *final(probability) == stepped(*old(probability), bit),
        crate::source_rc::open_slot(*final(probability)),
{
    let p: u16 = *probability;
    if bit {
        let step: u16 = if p / 32 > 1 { p / 32 } else { 1 };
        *probability = if p - step < 1 { 1 } else { p - step };
    } else {
        let step: u16 = if (4096 - p) / 32 > 1 { (4096 - p) / 32 } else { 1 };
        *probability = if p + step > 4095 { 4095 } else { p + step };
    }
}

/// Writes a bit with the slot number `i`.
pub open spec fn put(s: (Seq<u16>, Writing), i: int, b: bool) -> (Seq<u16>, Writing) {
    (s.0.update(i, stepped(s.0[i], b)), s.1.bit(s.0[i], b))
}

/// Reads a bit with the slot number `i`.
pub open spec fn get(s: (Seq<u16>, Reading), i: int) -> Outcome<(bool, (Seq<u16>, Reading))> {
    let b = s.1.points(s.0[i]);
    match s.1.strict_bit(s.0[i]) {
        None => Err("truncated ProRes model codeword"@),
        Some(r) => Ok((b, (s.0.update(i, stepped(s.0[i], b)), r))),
    }
}

/// Whether there are `n` slots, and each leaves room for both bits.
pub open spec fn slots_ok(slots: Seq<u16>, n: int) -> bool {
    slots.len() == n && crate::source_rc::all_open(slots)
}

/// An encoder and its slots.
pub struct Coder {
    pub slots: Vec<u16>,
    pub enc: Enc,
}

impl Coder {
    pub open spec fn model(&self) -> (Seq<u16>, Writing) {
        (self.slots@, self.enc@)
    }

    pub open spec fn wf(&self) -> bool {
        crate::source_rc::all_open(self.slots@) && self.enc@.wf()
    }

    /// Whether the counters of the encoder have room for `n` more bits.
    pub open spec fn room(&self, n: int) -> bool {
        self.enc.cache_size + 2 * n < u64::MAX - 8
    }

    pub fn bit(&mut self, i: usize, b: bool)
        requires
            old(self).wf(),
            old(self).room(1),
            i < old(self).slots@.len(),
        ensures
            final(self).wf(),
            final(self).slots@.len() == old(self).slots@.len(),
            final(self).model() == put(old(self).model(), i as int, b),
            final(self).enc.cache_size <= old(self).enc.cache_size + 2,
    {
        let mut p: u16 = self.slots[i];
        self.enc.code(p, b);
        update_probability(&mut p, b);
        self.slots[i] = p;
    }
}

/// A decoder and its slots.
pub struct Decoder<'a> {
    pub slots: Vec<u16>,
    pub dec: Dec<'a>,
}

impl<'a> Decoder<'a> {
    pub open spec fn model(&self) -> (Seq<u16>, Reading) {
        (self.slots@, self.dec@)
    }

    pub open spec fn wf(&self) -> bool {
        crate::source_rc::all_open(self.slots@) && self.dec@.wf()
    }

    pub fn bit(&mut self, i: usize) -> (r: Result<bool, String>)
        requires
            old(self).wf(),
            i < old(self).slots@.len(),
        ensures
            final(self).slots@.len() == old(self).slots@.len(),
            final(self).dec.data == old(self).dec.data,
            match get(old(self).model(), i as int) {
                Ok((b, s)) => r == Ok::<bool, String>(b) && final(self).model() == s && final(self).wf(),
                Err(e) => r matches Err(m) && m@ == e,
            },
    {
        let mut p: u16 = self.slots[i];
        match self.dec.strict(p) {
            None => Err(fail("truncated ProRes model codeword")),
            Some(b) => {
                update_probability(&mut p, b);
                self.slots[i] = p;
                Ok(b)
            },
        }
    }
}

pub open spec fn flag(b: bool) -> int {
    if b {
        1
    } else {
        0
    }
}

/// The slot for whether a residual is zero.
pub open spec fn zero_slot(
    channel: int,
    frequency: int,
    previous: int,
    left: int,
    above: int,
    temporal: bool,
) -> int {
    128 + (channel * 64 + frequency) * 16 + flag(previous == 0) * 8 + flag(left == 0) * 4 + flag(
        above == 0,
    ) * 2 + flag(temporal)
}

pub fn zero_context(
    channel: usize,
    frequency: usize,
    previous: i32,
    left: i32,
    above: i32,
    temporal: bool,
) -> (slot: usize)
    requires
        channel < 3,
        frequency < 64,
    ensures
        slot == zero_slot(
            channel as int,
            frequency as int,
            previous as int,
            left as int,
            above as int,
            temporal,
        ),
        slot < 4096,
{
    128 + (channel * 64 + frequency) * 16 + (if previous == 0 { 8 } else { 0 }) + (if left == 0 {
        4
    } else {
        0
    }) + (if above == 0 { 2 } else { 0 }) + (if temporal { 1 } else { 0 })
}

/// The slot for the sign of a residual.
pub open spec fn sign_slot(context: int, left: int, previous: int) -> int {
    85000 + context * 4 + flag(left < 0) * 2 + flag(previous < 0)
}

/// Writes ones with the slots from `base + i` up to `base + k`.
pub open spec fn put_ones(s: (Seq<u16>, Writing), base: int, i: int, k: int) -> (
    Seq<u16>,
    Writing,
)
    decreases k - i,
{
    if i >= k {
        s
    } else {
        put_ones(put(s, base + i, true), base, i + 1, k)
    }
}

/// Writes the lowest `n` bits of `m`, high bit first, each with its own slot.
pub open spec fn put_low(s: (Seq<u16>, Writing), base: int, m: int, n: int) -> (Seq<u16>, Writing)
    decreases n,
{
    if n <= 0 {
        s
    } else {
        put_low(
            put(s, base + n - 1, m / crate::codeword::power2(n - 1) % 2 == 1),
            base,
            m,
            n - 1,
        )
    }
}

pub open spec fn size(v: int) -> int {
    if v < 0 {
        -v
    } else {
        v
    }
}

/// The slots of a number: for whether it is zero, the first for the position of its highest bit, the
/// first for the bits below, and the one for its sign.
pub struct Slots {
    pub zero: int,
    pub ones: int,
    pub low: int,
    pub sign: int,
}

/// Writes a number: whether it is zero, the position of its highest bit, the bits below, and its
/// sign.
pub open spec fn put_number(s: (Seq<u16>, Writing), value: int, at: Slots) -> (Seq<u16>, Writing) {
    let s = put(s, at.zero, value != 0);
    if value == 0 {
        s
    } else {
        let k = crate::codeword::top_bit(size(value));
        let s = put_ones(s, at.ones, 0, k);
        let s = put(s, at.ones + k, false);
        let s = put_low(s, at.low + k * 16, size(value), k);
        put(s, at.sign, value < 0)
    }
}

/// The slots of a residual.
pub open spec fn value_slots(context: int, zero: int, left: int, previous: int) -> Slots {
    Slots {
        zero,
        ones: 4096 + context * 128,
        low: 32768 + context * 256,
        sign: sign_slot(context, left, previous),
    }
}

/// Writes a residual.
pub open spec fn put_value(
    s: (Seq<u16>, Writing),
    value: int,
    context: int,
    zero: int,
    left: int,
    previous: int,
) -> (Seq<u16>, Writing) {
    put_number(s, value, value_slots(context, zero, left, previous))
}

/// Counts ones with the slots from `base + k` on. Sixteen are too many, which `text` says.
pub open spec fn get_ones(
    s: (Seq<u16>, Reading),
    base: int,
    k: int,
    text: Seq<char>,
) -> Outcome<(int, (Seq<u16>, Reading))>
    decreases 16 - k,
{
    if k >= 16 {
        Err(text)
    } else {
        match get(s, base + k) {
            Err(e) => Err(e),
            Ok((b, s)) => if b {
                get_ones(s, base, k + 1, text)
            } else {
                Ok((k, s))
            },
        }
    }
}

/// Reads `n` bits behind the bits of `m`.
pub open spec fn get_low(s: (Seq<u16>, Reading), base: int, m: int, n: int) -> Outcome<
    (int, (Seq<u16>, Reading)),
>
    decreases n,
{
    if n <= 0 {
        Ok((m, s))
    } else {
        match get(s, base + n - 1) {
            Err(e) => Err(e),
            Ok((b, s)) => get_low(s, base, 2 * m + flag(b), n - 1),
        }
    }
}

/// Reads a number.
pub open spec fn get_number(s: (Seq<u16>, Reading), at: Slots, text: Seq<char>) -> Outcome<
    (int, (Seq<u16>, Reading)),
> {
    match get(s, at.zero) {
        Err(e) => Err(e),
        Ok((b, s)) => if !b {
            Ok((0, s))
        } else {
            match get_ones(s, at.ones, 0, text) {
                Err(e) => Err(e),
                Ok((k, s)) => match get_low(s, at.low + k * 16, 1, k) {
                    Err(e) => Err(e),
                    Ok((m, s)) => match get(s, at.sign) {
                        Err(e) => Err(e),
                        Ok((negative, s)) => Ok(
                            (
                                if negative {
                                    -m
                                } else {
                                    m
                                },
                                s,
                            ),
                        ),
                    },
                },
            }
        },
    }
}

/// Reads a residual.
pub open spec fn get_value(
    s: (Seq<u16>, Reading),
    context: int,
    zero: int,
    left: int,
    previous: int,
) -> Outcome<(int, (Seq<u16>, Reading))> {
    get_number(
        s,
        value_slots(context, zero, left, previous),
        "ProRes model coefficient overflow"@,
    )
}

proof fn lemma_top(value: int)
    requires
        -65536 < value < 65536,
        value != 0,
    ensures
        0 <= crate::codeword::top_bit(size(value)) < 16,
{
    reveal_with_fuel(crate::codeword::power2, 17);
    crate::codeword::lemma_top_bit_below(size(value), 16);
}

/// Writes a number.
pub fn emit_number(
    coder: &mut Coder,
    value: i32,
    zero: usize,
    ones: usize,
    low: usize,
    sign: usize,
)
    requires
        old(coder).wf(),
        old(coder).room(40),
        -65536 < value < 65536,
        zero < old(coder).slots.len(),
        ones + 16 <= old(coder).slots.len(),
        low + 256 <= old(coder).slots.len(),
        sign < old(coder).slots.len(),
    ensures
        final(coder).wf(),
        final(coder).slots@.len() == old(coder).slots@.len(),
        final(coder).enc.cache_size <= old(coder).enc.cache_size + 80,
        final(coder).model() == put_number(
            old(coder).model(),
            value as int,
            (Slots { zero: zero as int, ones: ones as int, low: low as int, sign: sign as int }),
        ),
{
    coder.bit(zero, value != 0);
    if value == 0 {
        return ;
    }
    let magnitude: u32 = if value < 0 { (-value) as u32 } else { value as u32 };
    let exponent: usize = crate::codeword::highest(magnitude);
    proof {
        lemma_top(value as int);
    }
    let mut i: usize = 0;
    let ghost whole = put_ones(coder.model(), ones as int, 0, exponent as int);
    while i < exponent
        invariant
            coder.wf(),
            coder.slots@.len() == old(coder).slots@.len(),
            i <= exponent < 16,
            ones + 16 <= coder.slots.len(),
            coder.enc.cache_size <= old(coder).enc.cache_size + 2 + 2 * i,
            old(coder).room(40),
            whole == put_ones(coder.model(), ones as int, i as int, exponent as int),
        decreases exponent - i,
    {
        coder.bit(ones + i, true);
        i += 1;
    }
    coder.bit(ones + exponent, false);
    let base: usize = low + exponent * 16;
    let mut n: usize = exponent;
    let ghost rest = put_low(coder.model(), base as int, magnitude as int, exponent as int);
    while n > 0
        invariant
            coder.wf(),
            coder.slots@.len() == old(coder).slots@.len(),
            n <= exponent < 16,
            base + 16 <= coder.slots.len(),
            coder.enc.cache_size <= old(coder).enc.cache_size + 36 + 2 * (exponent - n),
            old(coder).room(40),
            rest == put_low(coder.model(), base as int, magnitude as int, n as int),
        decreases n,
    {
        proof {
            crate::codeword::lemma_power2(n - 1);
        }
        let b: bool = magnitude / crate::codeword::power(n - 1) % 2 == 1;
        coder.bit(base + n - 1, b);
        n -= 1;
    }
    coder.bit(sign, value < 0);
}

/// Writes a residual.
pub fn emit_value(
    coder: &mut Coder,
    value: i32,
    context: usize,
    zero: usize,
    left: i32,
    previous: i32,
)
    requires
        old(coder).wf(),
        old(coder).slots@.len() == CONTEXTS,
        old(coder).room(40),
        -65536 < value < 65536,
        context < 192,
        zero < 4096,
    ensures
        final(coder).wf(),
        final(coder).slots@.len() == CONTEXTS,
        final(coder).enc.cache_size <= old(coder).enc.cache_size + 80,
        final(coder).model() == put_value(
            old(coder).model(),
            value as int,
            context as int,
            zero as int,
            left as int,
            previous as int,
        ),
{
    let sign: usize = 85000 + context * 4 + (if left < 0 { 2 } else { 0 }) + (if previous < 0 {
        1
    } else {
        0
    });
    emit_number(coder, value, zero, 4096 + context * 128, 32768 + context * 256, sign);
}

/// Reads a number. The message `text` says that it is too large.
pub fn read_number(
    coder: &mut Decoder<'_>,
    zero: usize,
    ones: usize,
    low: usize,
    sign: usize,
    text: &str,
) -> (r: Result<i32, String>)
    requires
        old(coder).wf(),
        zero < old(coder).slots.len(),
        ones + 16 <= old(coder).slots.len(),
        low + 256 <= old(coder).slots.len(),
        sign < old(coder).slots.len(),
    ensures
        final(coder).slots@.len() == old(coder).slots@.len(),
        final(coder).dec.data == old(coder).dec.data,
        match get_number(
            old(coder).model(),
            (Slots { zero: zero as int, ones: ones as int, low: low as int, sign: sign as int }),
            text@,
        ) {
            Ok((v, s)) => r == Ok::<i32, String>(v as i32) && final(coder).model() == s
                && final(coder).wf() && -65536 < v < 65536,
            Err(e) => r matches Err(m) && m@ == e,
        },
{
    let ghost at = Slots {
        zero: zero as int,
        ones: ones as int,
        low: low as int,
        sign: sign as int,
    };
    let b = coder.bit(zero)?;
    if !b {
        return Ok(0);
    }
    let ghost result = get_number(old(coder).model(), at, text@);
    let mut exponent: usize = 0;
    let mut more = true;
    let ghost count = get_ones(coder.model(), ones as int, 0, text@);
    while more
        invariant
            coder.wf(),
            coder.slots@.len() == old(coder).slots@.len(),
            coder.dec.data == old(coder).dec.data,
            exponent < 16,
            ones + 16 <= coder.slots.len(),
            count matches Err(e) ==> result == Err::<(int, (Seq<u16>, Reading)), Seq<char>>(e),
            result == get_number(old(coder).model(), at, text@),
            at == (Slots {
                zero: zero as int,
                ones: ones as int,
                low: low as int,
                sign: sign as int,
            }),
            more ==> count == get_ones(coder.model(), ones as int, exponent as int, text@),
            !more ==> count == Ok::<(int, (Seq<u16>, Reading)), Seq<char>>(
                (exponent as int, coder.model()),
            ),
        decreases 16 - exponent, more as int,
    {
        let b = coder.bit(ones + exponent)?;
        if b {
            exponent += 1;
            if exponent > 15 {
                return Err(fail(text));
            }
        } else {
            more = false;
        }
    }
    let base: usize = low + exponent * 16;
    let mut magnitude: u32 = 1;
    let mut n: usize = exponent;
    let ghost lows = get_low(coder.model(), base as int, 1, exponent as int);
    proof {
        reveal_with_fuel(crate::codeword::power2, 3);
    }
    while n > 0
        invariant
            coder.wf(),
            coder.slots@.len() == old(coder).slots@.len(),
            coder.dec.data == old(coder).dec.data,
            n <= exponent < 16,
            base + 16 <= coder.slots.len(),
            result == get_number(old(coder).model(), at, text@),
            at == (Slots {
                zero: zero as int,
                ones: ones as int,
                low: low as int,
                sign: sign as int,
            }),
            lows matches Err(e) ==> result == Err::<(int, (Seq<u16>, Reading)), Seq<char>>(e),
            1 <= magnitude < crate::codeword::power2(exponent + 1 - n),
            lows == get_low(coder.model(), base as int, magnitude as int, n as int),
        decreases n,
    {
        proof {
            crate::codeword::lemma_power2_grows(exponent + 1 - n, 16);
            reveal_with_fuel(crate::codeword::power2, 17);
        }
        let b = coder.bit(base + n - 1)?;
        magnitude = 2 * magnitude + if b { 1 } else { 0 };
        n -= 1;
    }
    proof {
        crate::codeword::lemma_power2_grows(exponent + 1 - n, 16);
        reveal_with_fuel(crate::codeword::power2, 17);
    }
    let negative = coder.bit(sign)?;
    Ok(
        if negative {
            -(magnitude as i32)
        } else {
            magnitude as i32
        },
    )
}

/// Reads a residual.
pub fn read_value(
    coder: &mut Decoder<'_>,
    context: usize,
    zero: usize,
    left: i32,
    previous: i32,
) -> (r: Result<i32, String>)
    requires
        old(coder).wf(),
        old(coder).slots@.len() == CONTEXTS,
        context < 192,
        zero < 4096,
    ensures
        final(coder).slots@.len() == CONTEXTS,
        final(coder).dec.data == old(coder).dec.data,
        match get_value(
            old(coder).model(),
            context as int,
            zero as int,
            left as int,
            previous as int,
        ) {
            Ok((v, s)) => r == Ok::<i32, String>(v as i32) && final(coder).model() == s
                && final(coder).wf() && -65536 < v < 65536,
            Err(e) => r matches Err(m) && m@ == e,
        },
{
    let sign: usize = 85000 + context * 4 + (if left < 0 { 2 } else { 0 }) + (if previous < 0 {
        1
    } else {
        0
    });
    read_number(
        coder,
        zero,
        4096 + context * 128,
        32768 + context * 256,
        sign,
        "ProRes model coefficient overflow",
    )
}

/// Whether an encoder and its slots are in order.
pub open spec fn ready(s: (Seq<u16>, Writing), n: int) -> bool {
    slots_ok(s.0, n) && s.1.wf()
}

/// Whether a decoder has come to where this encoder was, with the same slots.
pub open spec fn followed(s: (Seq<u16>, Writing), t: (Seq<u16>, Reading)) -> bool {
    s.0 == t.0 && s.1.followed(t.1)
}

pub proof fn lemma_put(s: (Seq<u16>, Writing), n: int, i: int, b: bool, data: Seq<u8>)
    requires
        ready(s, n),
        0 <= i < n,
    ensures
        ready(put(s, i, b), n),
        put(s, i, b).1.leads(data) ==> s.1.leads(data),
{
    crate::source_rc::lemma_bit_wf(s.1, s.0[i], b);
    if put(s, i, b).1.leads(data) {
        crate::source_rc::lemma_bit_leads(s.1, s.0[i], b, data);
    }
}

/// A bit comes back, and both sides adapt alike.
pub proof fn law_put_get(s: (Seq<u16>, Writing), n: int, i: int, b: bool, t: (Seq<u16>, Reading))
    requires
        ready(s, n),
        0 <= i < n,
        followed(s, t),
        put(s, i, b).1.leads(t.1.data),
    ensures
        get(t, i) matches Ok((c, u)) && c == b && followed(put(s, i, b), u) && u.1.data == t.1.data,
{
    crate::source_rc::law_bit_round_trip(s.1, s.0[i], b, t.1);
    crate::source_rc::law_strict_round_trip(s.1, s.0[i], b, t.1);
}

proof fn lemma_put_ones(s: (Seq<u16>, Writing), n: int, base: int, i: int, k: int, data: Seq<u8>)
    requires
        ready(s, n),
        0 <= base,
        0 <= i <= k,
        base + k <= n,
    ensures
        ready(put_ones(s, base, i, k), n),
        put_ones(s, base, i, k).1.leads(data) ==> s.1.leads(data),
    decreases k - i,
{
    if i < k {
        lemma_put(s, n, base + i, true, data);
        lemma_put_ones(put(s, base + i, true), n, base, i + 1, k, data);
    }
}

proof fn lemma_ones_round_trip(
    s: (Seq<u16>, Writing),
    n: int,
    base: int,
    i: int,
    k: int,
    t: (Seq<u16>, Reading),
    text: Seq<char>,
)
    requires
        ready(s, n),
        0 <= base,
        0 <= i <= k < 16,
        base + 16 <= n,
        followed(s, t),
        put(put_ones(s, base, i, k), base + k, false).1.leads(t.1.data),
    ensures
        get_ones(t, base, i, text) matches Ok((c, u)) && c == k && followed(
            put(put_ones(s, base, i, k), base + k, false),
            u,
        ) && u.1.data == t.1.data,
    decreases k - i,
{
    let data = t.1.data;
    lemma_put_ones(s, n, base, i, k, data);
    lemma_put(put_ones(s, base, i, k), n, base + k, false, data);
    if i < k {
        let s1 = put(s, base + i, true);
        lemma_put(s, n, base + i, true, data);
        lemma_put_ones(s1, n, base, i + 1, k, data);
        law_put_get(s, n, base + i, true, t);
        lemma_ones_round_trip(s1, n, base, i + 1, k, get(t, base + i)->Ok_0.1, text);
    } else {
        law_put_get(s, n, base + k, false, t);
    }
}

pub proof fn lemma_put_low(s: (Seq<u16>, Writing), n: int, base: int, m: int, k: int, data: Seq<u8>)
    requires
        ready(s, n),
        0 <= base,
        0 <= k,
        base + k <= n,
    ensures
        ready(put_low(s, base, m, k), n),
        put_low(s, base, m, k).1.leads(data) ==> s.1.leads(data),
    decreases k,
{
    if k > 0 {
        let b = m / crate::codeword::power2(k - 1) % 2 == 1;
        lemma_put(s, n, base + k - 1, b, data);
        lemma_put_low(put(s, base + k - 1, b), n, base, m, k - 1, data);
    }
}

proof fn lemma_next_bit(m: int, k: int)
    requires
        m >= 0,
        k >= 1,
    ensures
        m / crate::codeword::power2(k - 1) == 2 * (m / crate::codeword::power2(k)) + m
            / crate::codeword::power2(k - 1) % 2,
{
    let q = crate::codeword::power2(k - 1);
    crate::codeword::lemma_power2(k - 1);
    assert(crate::codeword::power2(k) == 2 * q);
    vstd::arithmetic::div_mod::lemma_div_denominator(m, q, 2);
}

pub proof fn lemma_low_round_trip(
    s: (Seq<u16>, Writing),
    n: int,
    base: int,
    m: int,
    k: int,
    t: (Seq<u16>, Reading),
)
    requires
        ready(s, n),
        0 <= base,
        0 <= k,
        0 <= m,
        base + k <= n,
        followed(s, t),
        put_low(s, base, m, k).1.leads(t.1.data),
    ensures
        get_low(t, base, m / crate::codeword::power2(k), k) matches Ok((c, u)) && c == m
            && followed(put_low(s, base, m, k), u) && u.1.data == t.1.data,
    decreases k,
{
    if k > 0 {
        let b = m / crate::codeword::power2(k - 1) % 2 == 1;
        let s1 = put(s, base + k - 1, b);
        lemma_put(s, n, base + k - 1, b, t.1.data);
        lemma_put_low(s1, n, base, m, k - 1, t.1.data);
        law_put_get(s, n, base + k - 1, b, t);
        lemma_next_bit(m, k);
        lemma_low_round_trip(s1, n, base, m, k - 1, get(t, base + k - 1)->Ok_0.1);
    } else {
        assert(m / 1 == m);
    }
}

/// Whether a number's slots are among `n`.
pub open spec fn slots_in(at: Slots, n: int) -> bool {
    &&& 0 <= at.zero < n
    &&& 0 <= at.ones
    &&& at.ones + 16 <= n
    &&& 0 <= at.low
    &&& at.low + 256 <= n
    &&& 0 <= at.sign < n
}

pub proof fn lemma_put_number(
    s: (Seq<u16>, Writing),
    n: int,
    value: int,
    at: Slots,
    data: Seq<u8>,
)
    requires
        ready(s, n),
        slots_in(at, n),
        -65536 < value < 65536,
    ensures
        ready(put_number(s, value, at), n),
        put_number(s, value, at).1.leads(data) ==> s.1.leads(data),
{
    lemma_put(s, n, at.zero, value != 0, data);
    if value != 0 {
        let k = crate::codeword::top_bit(size(value));
        lemma_top(value);
        let s1 = put(s, at.zero, true);
        lemma_put_ones(s1, n, at.ones, 0, k, data);
        let s2 = put_ones(s1, at.ones, 0, k);
        lemma_put(s2, n, at.ones + k, false, data);
        let s3 = put(s2, at.ones + k, false);
        lemma_put_low(s3, n, at.low + k * 16, size(value), k, data);
        let s4 = put_low(s3, at.low + k * 16, size(value), k);
        lemma_put(s4, n, at.sign, value < 0, data);
    }
}

/// A number comes back, and both sides adapt alike.
pub proof fn law_number_round_trip(
    s: (Seq<u16>, Writing),
    n: int,
    value: int,
    at: Slots,
    t: (Seq<u16>, Reading),
    text: Seq<char>,
)
    requires
        ready(s, n),
        slots_in(at, n),
        -65536 < value < 65536,
        followed(s, t),
        put_number(s, value, at).1.leads(t.1.data),
    ensures
        get_number(t, at, text) matches Ok((v, u)) && v == value && followed(
            put_number(s, value, at),
            u,
        ) && u.1.data == t.1.data,
{
    let data = t.1.data;
    lemma_put(s, n, at.zero, value != 0, data);
    if value == 0 {
        law_put_get(s, n, at.zero, false, t);
    } else {
        let m = size(value);
        let k = crate::codeword::top_bit(m);
        lemma_top(value);
        let s1 = put(s, at.zero, true);
        lemma_put_ones(s1, n, at.ones, 0, k, data);
        let s2 = put_ones(s1, at.ones, 0, k);
        lemma_put(s2, n, at.ones + k, false, data);
        let s3 = put(s2, at.ones + k, false);
        lemma_put_low(s3, n, at.low + k * 16, m, k, data);
        let s4 = put_low(s3, at.low + k * 16, m, k);
        lemma_put(s4, n, at.sign, value < 0, data);
        law_put_get(s, n, at.zero, true, t);
        let t1 = get(t, at.zero)->Ok_0.1;
        lemma_ones_round_trip(s1, n, at.ones, 0, k, t1, text);
        let t3 = get_ones(t1, at.ones, 0, text)->Ok_0.1;
        crate::codeword::lemma_top_bit(m);
        assert(m / crate::codeword::power2(k) == 1) by (nonlinear_arith)
            requires
                crate::codeword::power2(k) <= m < 2 * crate::codeword::power2(k),
        ;
        lemma_low_round_trip(s3, n, at.low + k * 16, m, k, t3);
        let t4 = get_low(t3, at.low + k * 16, 1, k)->Ok_0.1;
        law_put_get(s4, n, at.sign, value < 0, t4);
    }
}

/// How many bits a number has.
pub open spec fn bits_in(v: int) -> int {
    if v == 0 {
        0
    } else {
        1 + crate::codeword::top_bit(size(v))
    }
}

pub fn magnitude_bits(value: i32) -> (n: usize)
    requires
        -65536 < value < 65536,
    ensures
        n == bits_in(value as int),
        n <= 16,
{
    if value == 0 {
        return 0;
    }
    proof {
        lemma_top(value as int);
    }
    let magnitude: u32 = if value < 0 { (-value) as u32 } else { value as u32 };
    1 + crate::codeword::highest(magnitude)
}

/// The blocks that a dictionary holds. When it is full, new blocks take the place of the oldest
/// ones in turn; `index` leads from the hash of a block to the place of the latest block with it.
#[verifier::ext_equal]
pub struct Blocks {
    pub values: Seq<Seq<i16>>,
    pub hashes: Seq<u64>,
    pub index: Map<u64, u32>,
    pub next: int,
}

/// Four coefficients as one word.
pub open spec fn word_of(v: Seq<i16>, i: int) -> u64 {
    ((v[i] as u16) + (v[i + 1] as u16) * 0x1_0000 + (v[i + 2] as u16) * 0x1_0000_0000 + (v[i
        + 3] as u16) * 0x1_0000_0000_0000) as u64
}

/// The hash of a block, of which `k` words went into `h`.
pub open spec fn hashed(v: Seq<i16>, k: int, h: u64) -> u64
    decreases 16 - k,
{
    if k >= 16 {
        h
    } else {
        let m = (h ^ word_of(v, 4 * k)).wrapping_mul(0xbf58476d1ce4e5b9);
        hashed(v, k + 1, m ^ (m >> 29u64))
    }
}

pub open spec fn hash_of(v: Seq<i16>) -> u64 {
    hashed(v, 0, 0x9e3779b97f4a7c15)
}

impl Blocks {
    pub open spec fn fresh() -> Blocks {
        Blocks { values: Seq::empty(), hashes: Seq::empty(), index: Map::empty(), next: 0 }
    }

    pub open spec fn wf(self) -> bool {
        &&& self.values.len() == self.hashes.len()
        &&& self.values.len() <= DICTIONARY_CAPACITY
        &&& 0 <= self.next < DICTIONARY_CAPACITY
        &&& forall|i: int| 0 <= i < self.values.len() ==> (#[trigger] self.values[i]).len() == 64
        &&& forall|h: u64| #[trigger]
            self.index.contains_key(h) ==> self.index[h] < self.values.len()
    }

    /// Where a block stands.
    pub open spec fn find(self, v: Seq<i16>) -> Option<int> {
        if self.index.contains_key(hash_of(v)) && self.values[self.index[hash_of(v)] as int] == v {
            Some(self.index[hash_of(v)] as int)
        } else {
            None
        }
    }

    /// The dictionary after a block was added.
    pub open spec fn insert(self, v: Seq<i16>) -> Blocks {
        let h = hash_of(v);
        if self.find(v) is Some {
            self
        } else if self.values.len() < DICTIONARY_CAPACITY {
            Blocks {
                values: self.values.push(v),
                hashes: self.hashes.push(h),
                index: self.index.insert(h, self.values.len() as u32),
                ..self
            }
        } else {
            let old = self.hashes[self.next];
            let index = if self.index.contains_key(old) && self.index[old] == self.next {
                self.index.remove(old)
            } else {
                self.index
            };
            Blocks {
                values: self.values.update(self.next, v),
                hashes: self.hashes.update(self.next, h),
                index: index.insert(h, self.next as u32),
                next: (self.next + 1) % (DICTIONARY_CAPACITY as int),
            }
        }
    }

    /// The dictionary after the blocks of a plane from number `block` on were added.
    pub open spec fn add_plane(self, c: Seq<i16>, blocks: int, block: int) -> Blocks
        decreases blocks - block,
    {
        if block >= blocks {
            self
        } else {
            self.insert(block_of(c, blocks, block)).add_plane(c, blocks, block + 1)
        }
    }
}

/// The coefficients of one block of a plane.
pub open spec fn block_of(c: Seq<i16>, blocks: int, block: int) -> Seq<i16> {
    Seq::new(64, |f: int| c[f * blocks + block])
}

pub struct BlockDictionary {
    pub values: Vec<Vec<i16>>,
    pub hashes: Vec<u64>,
    pub index: HashMap<u64, u32>,
    pub next: usize,
}

/// The contents of rows.
pub open spec fn rows(v: Seq<Vec<i16>>) -> Seq<Seq<i16>> {
    v.map_values(|r: Vec<i16>| r@)
}

impl View for BlockDictionary {
    type V = Blocks;

    open spec fn view(&self) -> Blocks {
        Blocks {
            values: rows(self.values@),
            hashes: self.hashes@,
            index: self.index@,
            next: self.next as int,
        }
    }
}

/// A copy of a block.
pub fn copy_block(v: &Vec<i16>) -> (c: Vec<i16>)
    ensures
        c@ == v@,
{
    let mut c: Vec<i16> = Vec::new();
    c.extend_from_slice(v);
    c
}

fn same_block(a: &Vec<i16>, b: &Vec<i16>) -> (r: bool)
    ensures
        r == (a@ == b@),
{
    if a.len() != b.len() {
        return false;
    }
    let mut i: usize = 0;
    while i < a.len()
        invariant
            a@.len() == b@.len(),
            i <= a@.len(),
            forall|j: int| 0 <= j < i ==> a@[j] == b@[j],
        decreases a.len() - i,
    {
        if a[i] != b[i] {
            return false;
        }
        i += 1;
    }
    assert(a@ =~= b@);
    true
}

/// The coefficients of one block of a plane.
pub fn take_block(c: &Vec<i16>, blocks: usize, block: usize) -> (v: Vec<i16>)
    requires
        block < blocks <= 32,
        c@.len() == blocks * 64,
    ensures
        v@ == block_of(c@, blocks as int, block as int),
{
    let mut v: Vec<i16> = Vec::new();
    let mut f: usize = 0;
    while f < 64
        invariant
            f <= 64,
            block < blocks <= 32,
            c@.len() == blocks * 64,
            v@.len() == f,
            forall|j: int| 0 <= j < f ==> v@[j] == c@[j * blocks + block],
        decreases 64 - f,
    {
        assert(f * blocks + block < blocks * 64) by (nonlinear_arith)
            requires
                f < 64,
                block < blocks,
        ;
        v.push(c[f * blocks + block]);
        f += 1;
    }
    assert(v@ =~= block_of(c@, blocks as int, block as int));
    v
}

impl BlockDictionary {
    /// A dictionary that holds nothing.
    pub fn new() -> (d: Self)
        ensures
            d@ == Blocks::fresh(),
            d@.wf(),
    {
        let d = BlockDictionary {
            values: Vec::new(),
            hashes: Vec::new(),
            index: HashMap::new(),
            next: 0,
        };
        assert(d@ =~= Blocks::fresh());
        d
    }

    fn hash(values: &Vec<i16>) -> (h: u64)
        requires
            values@.len() == 64,
        ensures
            h == hash_of(values@),
    {
        let mut h: u64 = 0x9e3779b97f4a7c15;
        let mut k: usize = 0;
        while k < 16
            invariant
                k <= 16,
                values@.len() == 64,
                hashed(values@, k as int, h) == hash_of(values@),
            decreases 16 - k,
        {
            let i: usize = 4 * k;
            let word: u64 = (values[i] as u16) as u64 + (values[i + 1] as u16) as u64 * 0x1_0000 + (
            values[i + 2] as u16) as u64 * 0x1_0000_0000 + (values[i + 3] as u16) as u64
                * 0x1_0000_0000_0000;
            let m: u64 = (h ^ word).wrapping_mul(0xbf58476d1ce4e5b9);
            h = m ^ (m >> 29u64);
            k += 1;
        }
        h
    }

    /// Where a block stands.
    pub fn find(&self, values: &Vec<i16>) -> (r: Option<usize>)
        requires
            self@.wf(),
            values@.len() == 64,
        ensures
            match r {
                Some(i) => self@.find(values@) == Some(i as int) && i < self@.values.len(),
                None => self@.find(values@) is None,
            },
    {
        let h = Self::hash(values);
        match self.index.get(&h) {
            None => None,
            Some(i) => {
                let at: usize = *i as usize;
                assert(self@.index.contains_key(h));
                assert(self@.values[at as int] == self.values@[at as int]@);
                if same_block(&self.values[at], values) {
                    Some(at)
                } else {
                    None
                }
            },
        }
    }

    /// Adds a block.
    pub fn insert(&mut self, values: Vec<i16>)
        requires
            old(self)@.wf(),
            values@.len() == 64,
        ensures
            final(self)@ == old(self)@.insert(values@),
            final(self)@.wf(),
    {
        if self.find(&values).is_some() {
            return ;
        }
        let h = Self::hash(&values);
        let ghost before = self@;
        let ghost v = values@;
        if self.values.len() < DICTIONARY_CAPACITY {
            let at: u32 = self.values.len() as u32;
            self.values.push(values);
            self.hashes.push(h);
            self.index.insert(h, at);
            proof {
                assert(rows(self.values@) =~= before.values.push(v));
                assert(self@ =~= before.insert(v));
            }
        } else {
            let at: usize = self.next;
            self.next = (self.next + 1) % DICTIONARY_CAPACITY;
            let old_hash: u64 = self.hashes[at];
            let stale: bool = match self.index.get(&old_hash) {
                Some(i) => *i == at as u32,
                None => false,
            };
            if stale {
                self.index.remove(&old_hash);
            }
            self.values[at] = values;
            self.hashes[at] = h;
            self.index.insert(h, at as u32);
            proof {
                assert(rows(self.values@) =~= before.values.update(at as int, v));
                assert(self@ =~= before.insert(v));
            }
        }
    }

    /// Adds every block of a plane.
    pub fn add_plane(&mut self, c: &Vec<i16>, blocks: usize)
        requires
            old(self)@.wf(),
            blocks <= 32,
            c@.len() == blocks * 64,
        ensures
            final(self)@ == old(self)@.add_plane(c@, blocks as int, 0),
            final(self)@.wf(),
    {
        let mut block: usize = 0;
        while block < blocks
            invariant
                self@.wf(),
                block <= blocks <= 32,
                c@.len() == blocks * 64,
                self@.add_plane(c@, blocks as int, block as int) == old(self)@.add_plane(
                    c@,
                    blocks as int,
                    0,
                ),
            decreases blocks - block,
        {
            let v = take_block(c, blocks, block);
            self.insert(v);
            block += 1;
        }
    }

    /// A copy of the dictionary.
    pub fn duplicate(&self) -> (d: Self)
        ensures
            d@ == self@,
    {
        let mut values: Vec<Vec<i16>> = Vec::new();
        let mut i: usize = 0;
        while i < self.values.len()
            invariant
                i <= self.values@.len(),
                values@.len() == i,
                forall|j: int| 0 <= j < i ==> (#[trigger] values@[j])@ == self.values@[j]@,
            decreases self.values.len() - i,
        {
            values.push(copy_block(&self.values[i]));
            i += 1;
        }
        let mut hashes: Vec<u64> = Vec::new();
        hashes.extend_from_slice(&self.hashes);
        let d = BlockDictionary {
            values,
            hashes,
            index: self.index.clone(),
            next: self.next,
        };
        assert(rows(d.values@) =~= rows(self.values@));
        assert(d@ =~= self@);
        d
    }
}

}
