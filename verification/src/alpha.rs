//! The alpha values of a slice.

use crate::codeword::{Writer, MOST};
use crate::loose::Soft;
use vstd::prelude::*;

verus! {

/// The code of the step from one value to the next.
pub open spec fn step_bits(cur: int, prev: int) -> Seq<bool> {
    let d = cur - prev;
    if d < -64 || d > 64 || d == 0 {
        seq![true] + crate::codeword::digits(d % 65536, 16)
    } else if d < 0 {
        seq![false] + crate::codeword::digits(-d - 1, 6) + seq![true]
    } else {
        seq![false] + crate::codeword::digits(d - 1, 6) + seq![false]
    }
}

/// The code of `r` repetitions.
pub open spec fn run_bits(r: int) -> Seq<bool> {
    if r <= 0 {
        seq![true]
    } else if r < 16 {
        seq![false] + crate::codeword::digits(r, 4)
    } else {
        seq![false] + crate::codeword::digits(r % 32768, 15)
    }
}

/// The code of the values from number `i` on, when the value before them is `prev` and was repeated
/// `r` times.
pub open spec fn values_bits(v: Seq<u16>, i: int, prev: int, r: int) -> Seq<bool>
    decreases v.len() - i,
{
    if i >= v.len() {
        run_bits(r)
    } else if v[i] != prev {
        run_bits(r) + step_bits(v[i] as int, prev) + values_bits(v, i + 1, v[i] as int, 0)
    } else {
        values_bits(v, i + 1, prev, r + 1)
    }
}

/// The code of alpha values.
pub open spec fn alpha_bits(v: Seq<u16>) -> Seq<bool> {
    step_bits(v[0] as int, -1) + values_bits(v, 1, v[0] as int, 0)
}

/// A bit string in as many bytes as it fills.
pub open spec fn filled(bits: Seq<bool>) -> Seq<u8> {
    crate::plane::to_bytes(
        bits + crate::codeword::zeros(
            crate::loose::byte_count(bits.len() as int) * 8 - bits.len(),
        ),
    )
}

/// The step at `pos`, and the position behind it.
pub open spec fn step_at(bits: Seq<bool>, pos: int) -> (int, int) {
    if crate::loose::soft_bit(bits, pos) {
        (crate::loose::soft_number(bits, pos + 1, 16), pos + 17)
    } else {
        let v = crate::loose::soft_number(bits, pos + 1, 7);
        let m = (v + 2) / 2;
        (
            if v % 2 == 1 {
                -m
            } else {
                m
            },
            pos + 8,
        )
    }
}

/// The repetitions at `pos`, and the position behind them.
pub open spec fn run_at(bits: Seq<bool>, pos: int) -> (int, int) {
    let r = crate::loose::soft_number(bits, pos, 4);
    if r == 0 {
        (crate::loose::soft_number(bits, pos + 4, 11), pos + 15)
    } else {
        (r, pos + 4)
    }
}

/// Reads values behind those in `out`, the last of which is `a`, until there are `n`.
pub open spec fn values_at(bits: Seq<bool>, pos: int, a: int, out: Seq<u16>, n: int) -> Seq<u16>
    decreases n - out.len(),
{
    let (step, p) = step_at(bits, pos);
    let b = (a + step) % 65536;
    let more = out.push(b as u16);
    if more.len() >= n {
        more
    } else if p < bits.len() && crate::loose::soft_bit(bits, p) {
        values_at(bits, p + 1, b, more, n)
    } else {
        let q = if p < bits.len() {
            p + 1
        } else {
            p
        };
        let (said, e) = run_at(bits, q);
        let r = if said < n - more.len() {
            said
        } else {
            n - more.len()
        };
        let all = more + Seq::new(r as nat, |i: int| b as u16);
        if all.len() >= n || bits.len() - e < -64 {
            all
        } else {
            values_at(bits, e, b, all, n)
        }
    }
}

/// Exactly `n` values: the first ones, or the last one repeated.
pub open spec fn resized(v: Seq<u16>, n: int) -> Seq<u16> {
    Seq::new(
        n as nat,
        |i: int|
            if i < v.len() {
                v[i]
            } else {
                v.last()
            },
    )
}

/// The `n` alpha values that a byte string stands for.
pub open spec fn alpha_of(data: Seq<u8>, n: int) -> Seq<u16> {
    resized(values_at(crate::codeword::bits_of(data), 0, 65535, Seq::empty(), n), n)
}

fn read_step(g: &mut Soft<'_>) -> (v: i32)
    requires
        old(g).wf(),
        old(g).pos <= old(g).data@.len() * 8 + 100,
    ensures
        (v as int, final(g).pos as int) == step_at(old(g).bits(), old(g).pos as int),
        final(g).data == old(g).data,
        -65536 < v < 65536,
        final(g).pos <= old(g).pos + 17,
{
    proof {
        reveal_with_fuel(crate::codeword::power2, 17);
    }
    if g.next() {
        g.get(16) as i32
    } else {
        let v: i32 = g.get(7) as i32;
        let m: i32 = (v + 2) / 2;
        if v % 2 == 1 {
            -m
        } else {
            m
        }
    }
}

/// Decodes `n` alpha values.
#[verifier::spinoff_prover]
#[verifier::rlimit(40)]
pub fn unpack_alpha(data: &[u8], n: usize) -> (out: Vec<u16>)
    requires
        data@.len() <= MOST,
    ensures
        out@ == alpha_of(data@, n as int),
{
    let mut g = Soft { data, pos: 0 };
    let ghost bits = g.bits();
    let ghost whole = values_at(bits, 0, 65535, Seq::empty(), n as int);
    let mut out: Vec<u16> = Vec::new();
    let mut a: i32 = 65535;
    let mut more = true;
    assert(out@ =~= Seq::<u16>::empty());
    while more
        invariant
            g.wf(),
            g.data == data,
            bits == crate::codeword::bits_of(data@),
            0 <= a <= 65535,
            more ==> g.pos <= data@.len() * 8 + 64,
            more ==> whole == values_at(bits, g.pos as int, a as int, out@, n as int),
            more ==> out@.len() < n || out@.len() == 0,
            !more ==> whole == out@ && out@.len() > 0 && out@.last() == a,
        decreases n - out@.len() + 1, more as int,
    {
        let step = read_step(&mut g);
        a = (a + step + 65536) % 65536;
        out.push(a as u16);
        if out.len() >= n {
            more = false;
        } else {
            let ghost held = out@;
            let ghost p = g.pos as int;
            let total: usize = data.len() * 8;
            let again: bool = g.pos < total && g.next();
            if !again {
                proof {
                    reveal_with_fuel(crate::codeword::power2, 12);
                }
                let mut r: usize = g.get(4) as usize;
                if r == 0 {
                    r = g.get(11) as usize;
                }
                let room: usize = n - out.len();
                if r > room {
                    r = room;
                }
                let mut i: usize = 0;
                while i < r
                    invariant
                        i <= r,
                        r <= n - held.len(),
                        0 <= a <= 65535,
                        out@ == held + Seq::new(i as nat, |i: int| a as u16),
                    decreases r - i,
                {
                    out.push(a as u16);
                    assert(out@ =~= held + Seq::new((i + 1) as nat, |i: int| a as u16));
                    i += 1;
                }
                assert(out@.last() == a) by {
                    if r == 0 {
                        assert(out@ =~= held);
                    }
                }
                if out.len() >= n || g.pos > total + 64 {
                    more = false;
                }
            }
        }
    }
    let ghost got = out@;
    out.resize(n, a as u16);
    assert(out@ =~= resized(got, n as int));
    out
}


/// Whether a writer has room for `n` more bits.
spec fn roomy(w: &Writer, n: int) -> bool {
    w.wf() && w.pos + n <= w.data@.len() * 8
}

fn put_bits(w: &mut Writer, value: u32, n: usize)
    requires
        roomy(old(w), n as int),
        n <= 31,
    ensures
        final(w).wf(),
        final(w).data@.len() == old(w).data@.len(),
        final(w).pos == old(w).pos + n,
        final(w).bits() == old(w).bits() + crate::codeword::digits(value as int, n as int),
{
    let r = w.put(value, n);
    assert(r is Ok);
}

proof fn lemma_one_digit(b: bool)
    ensures
        crate::codeword::digits(crate::codeword::one(b), 1) == seq![b],
{
    reveal_with_fuel(crate::codeword::digits, 2);
    assert(crate::codeword::digits(crate::codeword::one(b), 1) =~= seq![b]);
}

fn put_one(w: &mut Writer, b: bool)
    requires
        roomy(old(w), 1),
    ensures
        final(w).wf(),
        final(w).data@.len() == old(w).data@.len(),
        final(w).pos == old(w).pos + 1,
        final(w).bits() == old(w).bits() + seq![b],
{
    proof {
        lemma_one_digit(b);
    }
    put_bits(w, if b { 1 } else { 0 }, 1);
}

fn put_step(w: &mut Writer, cur: i32, prev: i32)
    requires
        roomy(old(w), 17),
        0 <= cur <= 65535,
        -1 <= prev <= 65535,
    ensures
        final(w).wf(),
        final(w).data@.len() == old(w).data@.len(),
        final(w).pos <= old(w).pos + 17,
        final(w).bits() == old(w).bits() + step_bits(cur as int, prev as int),
{
    let d: i32 = cur - prev;
    if d < -64 || d > 64 || d == 0 {
        put_one(w, true);
        let low: u32 = if d < 0 {
            (d + 65536) as u32
        } else if d == 65536 {
            0
        } else {
            d as u32
        };
        assert(low == d as int % 65536);
        put_bits(w, low, 16);
    } else {
        put_one(w, false);
        put_bits(w, (if d < 0 { -d } else { d }) as u32 - 1, 6);
        put_one(w, d < 0);
    }
    assert(w.bits() =~= old(w).bits() + step_bits(cur as int, prev as int));
}

fn put_run(w: &mut Writer, r: usize)
    requires
        roomy(old(w), 16),
    ensures
        final(w).wf(),
        final(w).data@.len() == old(w).data@.len(),
        final(w).pos <= old(w).pos + 16,
        final(w).bits() == old(w).bits() + run_bits(r as int),
{
    if r > 0 {
        put_one(w, false);
        if r < 16 {
            put_bits(w, r as u32, 4);
        } else {
            put_bits(w, (r % 32768) as u32, 15);
        }
    } else {
        put_one(w, true);
    }
    assert(w.bits() =~= old(w).bits() + run_bits(r as int));
}

/// Encodes alpha values.
pub fn pack_alpha(vals: &[u16]) -> (data: Vec<u8>)
    requires
        1 <= vals@.len(),
        vals@.len() * 5 + 8 <= MOST,
    ensures
        data@ == filled(alpha_bits(vals@)),
{
    let ghost whole = alpha_bits(vals@);
    let mut w = Writer { data: vec![0u8; vals.len() * 5 + 8], pos: 0 };
    proof {
        assert forall|i: int| 0 <= i < w.data@.len() * 8 implies !#[trigger] crate::codeword::bits_of(
            w.data@,
        )[i] by {
            crate::plane::lemma_zero_byte((7 - i % 8) as u8);
        }
        assert(w.bits() =~= Seq::empty());
    }
    put_step(&mut w, vals[0] as i32, -1);
    let mut prev: u16 = vals[0];
    let mut r: usize = 0;
    let mut i: usize = 1;
    assert(w.bits() + values_bits(vals@, 1, vals@[0] as int, 0) =~= whole);
    while i < vals.len()
        invariant
            w.wf(),
            1 <= vals@.len(),
            vals@.len() * 5 + 8 <= MOST,
            1 <= i <= vals@.len(),
            r < i,
            w.data@.len() == vals@.len() * 5 + 8,
            w.pos <= 33 * i,
            w.bits() + values_bits(vals@, i as int, prev as int, r as int) == whole,
        decreases vals.len() - i,
    {
        let cur: u16 = vals[i];
        if cur != prev {
            let ghost before = w.bits();
            put_run(&mut w, r);
            put_step(&mut w, cur as i32, prev as i32);
            proof {
                let rest = values_bits(vals@, i + 1, cur as int, 0);
                let (a, b) = (run_bits(r as int), step_bits(cur as int, prev as int));
                assert(before + (a + b + rest) =~= (before + a + b) + rest);
            }
            prev = cur;
            r = 0;
        } else {
            r += 1;
        }
        i += 1;
    }
    put_run(&mut w, r);
    let n: usize = (w.pos + 7) / 8;
    proof {
        assert(w.bits() =~= whole);
    }
    let end: usize = w.pos;
    let mut data = w.data;
    let ghost all = data@;
    data.truncate(n);
    proof {
        let spare = n * 8 - whole.len();
        assert(data@ =~= all.take(n as int));
        assert(crate::codeword::bits_of(data@) =~= whole + crate::codeword::zeros(spare)) by {
            assert forall|i: int| 0 <= i < n * 8 implies #[trigger] crate::codeword::bits_of(data@)[i] == (
            whole + crate::codeword::zeros(spare))[i] by {
                assert(crate::codeword::bits_of(all)[i] == crate::codeword::bits_of(data@)[i]);
                if i < whole.len() {
                    assert(crate::codeword::bits_of(all).subrange(0, end as int)[i] == whole[i]);
                }
            }
        }
        crate::plane::law_bytes_from_bits(data@);
    }
    data
}

/// How many values from number `i` on equal `prev`.
pub open spec fn repeats(v: Seq<u16>, i: int, prev: int) -> int
    decreases v.len() - i,
{
    if i < v.len() && v[i] == prev {
        1 + repeats(v, i + 1, prev)
    } else {
        0
    }
}

proof fn lemma_repeats(v: Seq<u16>, i: int, prev: int)
    requires
        0 <= i <= v.len(),
    ensures
        0 <= repeats(v, i, prev),
        i + repeats(v, i, prev) <= v.len(),
        forall|j: int| i <= j < i + repeats(v, i, prev) ==> v[j] == prev,
        i + repeats(v, i, prev) < v.len() ==> v[i + repeats(v, i, prev)] != prev,
    decreases v.len() - i,
{
    if i < v.len() && v[i] == prev {
        lemma_repeats(v, i + 1, prev);
    }
}

proof fn lemma_values_bits(v: Seq<u16>, i: int, prev: int, r: int)
    requires
        0 <= i <= v.len(),
        0 <= r,
    ensures
        ({
            let n = repeats(v, i, prev);
            let j = i + n;
            values_bits(v, i, prev, r) == (if j >= v.len() {
                run_bits(r + n)
            } else {
                run_bits(r + n) + step_bits(v[j] as int, prev) + values_bits(v, j + 1, v[j] as int, 0)
            })
        }),
    decreases v.len() - i,
{
    if i < v.len() && v[i] == prev {
        lemma_values_bits(v, i + 1, prev, r + 1);
    }
}

/// Whether no value is repeated more than 2047 times on end.
pub open spec fn short_runs(v: Seq<u16>) -> bool {
    forall|i: int| 0 <= i < v.len() ==> #[trigger] repeats(v, i + 1, v[i] as int) <= 2047
}

proof fn lemma_field(bits: Seq<bool>, pos: int, value: int, n: int)
    requires
        crate::plane::starts(bits, pos, crate::codeword::digits(value, n)),
        0 <= value < crate::codeword::power2(n),
        0 <= n,
    ensures
        crate::loose::soft_number(bits, pos, n) == value,
{
    crate::codeword::lemma_digits(value, n);
    crate::loose::lemma_same_number(bits, pos, n);
}

proof fn lemma_starts_bit(bits: Seq<bool>, pos: int, b: bool)
    requires
        crate::plane::starts(bits, pos, seq![b]),
    ensures
        crate::loose::soft_bit(bits, pos) == b,
        pos < bits.len(),
{
    assert(bits.subrange(pos, pos + 1)[0] == b);
}

/// A step comes back from its code.
proof fn lemma_step(bits: Seq<bool>, pos: int, cur: int, prev: int)
    requires
        0 <= cur <= 65535,
        -1 <= prev <= 65535,
        crate::plane::starts(bits, pos, step_bits(cur, prev)),
    ensures
        ({
            let (step, p) = step_at(bits, pos);
            &&& p == pos + step_bits(cur, prev).len()
            &&& (prev + step) % 65536 == cur
            &&& prev == -1 ==> (65535 + step) % 65536 == cur
        }),
{
    reveal_with_fuel(crate::codeword::power2, 17);
    let d = cur - prev;
    if d < -64 || d > 64 || d == 0 {
        let low = d % 65536;
        let word = crate::codeword::digits(low, 16);
        crate::codeword::lemma_digits(low, 16);
        crate::plane::lemma_starts(bits, pos, seq![true], word);
        lemma_starts_bit(bits, pos, true);
        lemma_field(bits, pos + 1, low, 16);
    } else {
        let size = if d < 0 {
            -d
        } else {
            d
        };
        let word = crate::codeword::digits(size - 1, 6);
        crate::codeword::lemma_digits(size - 1, 6);
        crate::plane::lemma_starts(bits, pos, seq![false] + word, seq![d < 0]);
        crate::plane::lemma_starts(bits, pos, seq![false], word);
        lemma_starts_bit(bits, pos, false);
        lemma_field(bits, pos + 1, size - 1, 6);
        lemma_starts_bit(bits, pos + 7, d < 0);
        assert(crate::loose::soft_number(bits, pos + 1, 7) == 2 * (size - 1)
            + crate::codeword::one(d < 0)) by {
            reveal_with_fuel(crate::loose::soft_number, 2);
        }
    }
}

/// Long runs start with four zeros.
proof fn lemma_long_run(bits: Seq<bool>, pos: int, r: int)
    requires
        16 <= r <= 2047,
        crate::plane::starts(bits, pos, crate::codeword::digits(r, 15)),
    ensures
        crate::loose::soft_number(bits, pos, 4) == 0,
        crate::loose::soft_number(bits, pos + 4, 11) == r,
{
    let d = crate::codeword::digits(r, 15);
    let tail = crate::codeword::digits(r, 11);
    reveal_with_fuel(crate::codeword::power2, 16);
    crate::codeword::lemma_digits(r, 15);
    crate::codeword::lemma_digits(r, 11);
    lemma_split(r, 11, 4);
    let head = crate::codeword::digits(r / 2048, 4);
    crate::codeword::lemma_digits(0, 4);
    assert(r / 2048 == 0);
    crate::plane::lemma_starts(bits, pos, head, tail);
    lemma_field(bits, pos, 0, 4);
    lemma_field(bits, pos + 4, r, 11);
}

/// The high digits and the low digits of a number.
proof fn lemma_split(v: int, low: int, high: int)
    requires
        0 <= v,
        0 <= low,
        0 <= high,
    ensures
        crate::codeword::digits(v, low + high) == crate::codeword::digits(
            v / crate::codeword::power2(low),
            high,
        ) + crate::codeword::digits(v, low),
    decreases low,
{
    if low == 0 {
        assert(crate::codeword::digits(v, high) =~= crate::codeword::digits(v, high)
            + crate::codeword::digits(v, 0));
    } else {
        lemma_split(v / 2, low - 1, high);
        let p = crate::codeword::power2(low - 1);
        crate::codeword::lemma_power2(low - 1);
        assert(v / 2 / p == v / (2 * p)) by (nonlinear_arith)
            requires
                v >= 0,
                p >= 1,
        ;
        assert(crate::codeword::digits(v, low + high) =~= crate::codeword::digits(
            v / crate::codeword::power2(low),
            high,
        ) + crate::codeword::digits(v, low));
    }
}

/// Repetitions come back from their code.
proof fn lemma_run(bits: Seq<bool>, pos: int, r: int)
    requires
        0 <= r <= 2047,
        crate::plane::starts(bits, pos, run_bits(r)),
    ensures
        pos < bits.len(),
        crate::loose::soft_bit(bits, pos) == (r == 0),
        r == 0 ==> run_bits(r).len() == 1,
        r > 0 ==> run_at(bits, pos + 1) == (r, pos + run_bits(r).len()),
{
    reveal_with_fuel(crate::codeword::power2, 16);
    if r == 0 {
        lemma_starts_bit(bits, pos, true);
    } else if r < 16 {
        let d = crate::codeword::digits(r, 4);
        crate::codeword::lemma_digits(r, 4);
        crate::plane::lemma_starts(bits, pos, seq![false], d);
        lemma_starts_bit(bits, pos, false);
        lemma_field(bits, pos + 1, r, 4);
    } else {
        let d = crate::codeword::digits(r, 15);
        crate::codeword::lemma_digits(r, 15);
        crate::plane::lemma_starts(bits, pos, seq![false], d);
        lemma_starts_bit(bits, pos, false);
        lemma_long_run(bits, pos + 1, r);
    }
}

/// Values come back from their code, from the step to value `k` on.
proof fn lemma_values(v: Seq<u16>, k: int, prev: int, a: int, bits: Seq<bool>, pos: int)
    requires
        0 <= k < v.len(),
        short_runs(v),
        0 <= a <= 65535,
        prev == a || (prev == -1 && a == 65535),
        crate::plane::starts(
            bits,
            pos,
            step_bits(v[k] as int, prev) + values_bits(v, k + 1, v[k] as int, 0),
        ),
    ensures
        values_at(bits, pos, a, v.take(k), v.len() as int) == v,
    decreases v.len() - k,
{
    let n = v.len() as int;
    let cur = v[k] as int;
    let word = step_bits(cur, prev);
    let rest = values_bits(v, k + 1, cur, 0);
    crate::plane::lemma_starts(bits, pos, word, rest);
    lemma_step(bits, pos, cur, prev);
    let p = pos + word.len();
    let r = repeats(v, k + 1, cur);
    let j = k + 1 + r;
    assert(v.take(k).push(cur as u16) =~= v.take(k + 1));
    lemma_repeats(v, k + 1, cur);
    lemma_values_bits(v, k + 1, cur, 0);
    assert(repeats(v, k + 1, v[k] as int) <= 2047);
    if k + 1 >= n {
        assert(v.take(k + 1) =~= v);
    } else {
        let run = run_bits(r);
        if j < n {
            let more = step_bits(v[j] as int, cur) + values_bits(v, j + 1, v[j] as int, 0);
            assert(rest =~= run + more);
            crate::plane::lemma_starts(bits, p, run, more);
        }
        lemma_run(bits, p, r);
        if r == 0 {
            lemma_values(v, k + 1, cur, cur, bits, p + 1);
        } else {
            assert(v.take(k + 1) + Seq::new(r as nat, |i: int| cur as u16) =~= v.take(j));
            if j >= n {
                assert(v.take(j) =~= v);
            } else {
                lemma_values(v, j, cur, cur, bits, p + run.len());
            }
        }
    }
}

/// Alpha values come back from their code, if none is repeated more than 2047 times on end.
pub proof fn law_alpha_round_trip(v: Seq<u16>)
    requires
        v.len() >= 1,
        short_runs(v),
    ensures
        alpha_of(filled(alpha_bits(v)), v.len() as int) == v,
{
    let code = alpha_bits(v);
    let spare = crate::loose::byte_count(code.len() as int) * 8 - code.len();
    let bits = code + crate::codeword::zeros(spare);
    crate::plane::law_bits_from_bytes(bits);
    assert(crate::plane::starts(bits, 0, code)) by {
        assert(bits.subrange(0, code.len() as int) =~= code);
    }
    assert(v.take(0) =~= Seq::<u16>::empty());
    lemma_values(v, 0, -1, 65535, bits, 0);
    assert(resized(v, v.len() as int) =~= v);
}

/// A slice never has so many values that a run could be too long.
pub proof fn law_slices_have_short_runs(v: Seq<u16>)
    requires
        v.len() <= 2048,
    ensures
        short_runs(v),
{
    assert forall|i: int| 0 <= i < v.len() implies #[trigger] repeats(v, i + 1, v[i] as int) <= 2047 by {
        lemma_repeats(v, i + 1, v[i] as int);
    }
}

}
