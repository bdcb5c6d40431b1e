//! Image data that were taken apart are put together again as they were.

use crate::gif_exact::{Packing, MAX_BYTES};
use crate::lzw::{Lzw, TABLE};
use vstd::prelude::*;

verus! {

proof fn lemma_shift(x: u32, s: u32)
    by (bit_vector)
    requires
        s < 8,
        x < 0x1000000,
    ensures
        x / (1u32 << s) == x >> s,
{
}

proof fn lemma_low(x: u32, w: u32)
    by (bit_vector)
    requires
        1 <= w <= 12,
    ensures
        x % (1u32 << w) == x & !(0xffff_ffffu32 << w),
        x & !(0xffff_ffffu32 << w) <= 4095,
        1u32 << w == (1u16 << w) as u32,
{
}

proof fn lemma_up(c: u32, s: u32)
    by (bit_vector)
    requires
        s < 8,
        c <= 4095,
    ensures
        c * (1u32 << s) == c << s,
        (c << s) % 256 == (c << s) & 255,
        (c << s) / 256 % 256 == ((c << s) >> 8) & 255,
        (c << s) / 65536 % 256 == ((c << s) >> 16) & 255,
{
}

proof fn lemma_word(b0: u8, b1: u8, b2: u8)
    by (bit_vector)
    ensures
        b0 as u32 + b1 as u32 * 256 + b2 as u32 * 65536 == (b0 as u32) | ((b1 as u32) << 8) | ((b2 as u32)
            << 16),
        ((b0 as u32) | ((b1 as u32) << 8) | ((b2 as u32) << 16)) < 0x1000000,
{
}

proof fn lemma_bits(b0: u8, b1: u8, b2: u8, s: u32, w: u32)
    by (bit_vector)
    requires
        s < 8,
        1 <= w <= 12,
    ensures
        ({
            let word = (b0 as u32) | ((b1 as u32) << 8) | ((b2 as u32) << 16);
            let x = ((word >> s) & !(0xffff_ffffu32 << w)) << s;
            let m = !(0xffff_ffffu32 << ((s + w) as u32));
            &&& (b0 & !(255u8 << s)) | ((x & 255) as u8) == b0 & ((m & 255) as u8)
            &&& ((x >> 8) & 255) as u8 == b1 & (((m >> 8) & 255) as u8)
            &&& ((x >> 16) & 255) as u8 == b2 & (((m >> 16) & 255) as u8)
        }),
{
}

proof fn lemma_mask(e: u32, b: u8)
    by (bit_vector)
    requires
        1 <= e <= 19,
    ensures
        ({
            let m = !(0xffff_ffffu32 << e);
            &&& e >= 8 ==> b & ((m & 255) as u8) == b
            &&& e < 8 ==> (m & 255) as u8 == !(255u8 << e)
            &&& e >= 16 ==> b & (((m >> 8) & 255) as u8) == b
            &&& 8 <= e < 16 ==> ((m >> 8) & 255) as u8 == !(255u8 << ((e - 8) as u32))
            &&& e >= 16 ==> ((m >> 16) & 255) as u8 == !(255u8 << ((e - 16) as u32))
            &&& b & !(255u8 << 0u32) == 0
            &&& 0u8 | b == b
        }),
{
}

proof fn lemma_tail(b: u8, s: u8)
    by (bit_vector)
    requires
        1 <= s < 8,
    ensures
        (b & !(255u8 << (s as u32))) | ((b - b % (1u8 << s)) as u8) == b,
        ((b - b % (1u8 << s)) as u8) % (1u8 << s) == 0,
{
}

/// Byte number `j` of some bytes, without the bits from position `bit` on.
spec fn kept_byte(b: Seq<u8>, bit: int, j: int) -> u8 {
    if j < bit / 8 {
        b[j]
    } else {
        b[j] & !(255u8 << ((bit % 8) as u32))
    }
}

/// The bytes up to position `bit`, without the bits from there on.
spec fn prefix(b: Seq<u8>, bit: int) -> Seq<u8> {
    Seq::new(((bit + 7) / 8) as nat, |j: int| kept_byte(b, bit, j))
}

/// The code at a position, in bits.
proof fn lemma_code(b: Seq<u8>, bit: int, width: u8)
    requires
        0 <= bit,
        1 <= width <= 12,
    ensures
        ({
            let b0 = crate::gif_exact::byte_or_zero(b, bit / 8) as u8;
            let b1 = crate::gif_exact::byte_or_zero(b, bit / 8 + 1) as u8;
            let b2 = crate::gif_exact::byte_or_zero(b, bit / 8 + 2) as u8;
            let s = (bit % 8) as u32;
            let w = width as u32;
            let word = (b0 as u32) | ((b1 as u32) << 8) | ((b2 as u32) << 16);
            let c = (word >> s) & !(0xffff_ffffu32 << w);
            let x = c << s;
            let code = crate::gif_exact::code_at(b, bit, width);
            let up = code * (1u32 << s);
            &&& code == c
            &&& 0 <= code <= 4095
            &&& code < 1u16 << width
            &&& (up % 256) as u8 == (x & 255) as u8
            &&& (up / 256 % 256) as u8 == ((x >> 8) & 255) as u8
            &&& (up / 65536 % 256) as u8 == ((x >> 16) & 255) as u8
        }),
{
    let b0 = crate::gif_exact::byte_or_zero(b, bit / 8) as u8;
    let b1 = crate::gif_exact::byte_or_zero(b, bit / 8 + 1) as u8;
    let b2 = crate::gif_exact::byte_or_zero(b, bit / 8 + 2) as u8;
    let s = (bit % 8) as u32;
    let w = width as u32;
    let word = (b0 as u32) | ((b1 as u32) << 8) | ((b2 as u32) << 16);
    lemma_word(b0, b1, b2);
    lemma_shift(word, s);
    lemma_low(word >> s, w);
    lemma_up((word >> s) & !(0xffff_ffffu32 << w), s);
    lemma_less((word >> s), width);
}

proof fn lemma_less(x: u32, width: u8)
    by (bit_vector)
    requires
        1 <= width <= 12,
    ensures
        x & !(0xffff_ffffu32 << (width as u32)) < (1u16 << width) as u32,
{
}

/// Writing the code that was read at a position gives the bits that stood there.
proof fn lemma_put(b: Seq<u8>, bit: int, width: u8)
    requires
        0 <= bit,
        1 <= width <= 12,
        bit + width <= b.len() * 8,
    ensures
        crate::gif_exact::put_code(
            prefix(b, bit),
            bit,
            width,
            crate::gif_exact::code_at(b, bit, width),
        ) == prefix(b, bit + width),
{
    let out = crate::gif_exact::put_code(
        prefix(b, bit),
        bit,
        width,
        crate::gif_exact::code_at(b, bit, width),
    );
    let at = bit / 8;
    let b0 = crate::gif_exact::byte_or_zero(b, at) as u8;
    let b1 = crate::gif_exact::byte_or_zero(b, at + 1) as u8;
    let b2 = crate::gif_exact::byte_or_zero(b, at + 2) as u8;
    let s = (bit % 8) as u32;
    let e = (s + width) as u32;
    lemma_code(b, bit, width);
    lemma_bits(b0, b1, b2, s, width as u32);
    lemma_mask(e, b0);
    lemma_mask(e, b1);
    lemma_mask(e, b2);
    let end = bit + width;
    assert(end == at * 8 + e);
    assert(prefix(b, bit).len() == (if s == 0 {
        at
    } else {
        at + 1
    }));
    assert forall|j: int| 0 <= j < (end + 7) / 8 implies out[j] == kept_byte(b, end, j) by {
        if j == at {
            assert(crate::gif_exact::byte_or_zero(prefix(b, bit), j) as u8 == b0 & !(255u8 << s));
            if e >= 8 {
                assert(j < end / 8);
            } else {
                assert(j == end / 8 && end % 8 == e);
            }
        } else if j == at + 1 {
            assert(crate::gif_exact::byte_or_zero(prefix(b, bit), j) == 0);
            if e >= 16 {
                assert(j < end / 8);
            } else {
                assert(j == end / 8 && end % 8 == e - 8);
            }
            lemma_zero(b1 & (((!(0xffff_ffffu32 << e) >> 8) & 255) as u8));
        } else if j == at + 2 {
            assert(crate::gif_exact::byte_or_zero(prefix(b, bit), j) == 0);
            assert(j == end / 8 && end % 8 == e - 16);
            lemma_zero(b2 & (((!(0xffff_ffffu32 << e) >> 16) & 255) as u8));
        }
    }
    assert(out =~= prefix(b, end));
}

proof fn lemma_zero(x: u8)
    by (bit_vector)
    ensures
        0u8 | x == x,
{
}

/// Whether a dictionary is one that phrase codes lead to.
spec fn sound(d: Lzw) -> bool {
    &&& 1 <= d.minimum <= 8
    &&& d.minimum + 1 <= d.width <= 12
    &&& d.next() <= TABLE
    &&& forall|i: int|
        0 <= i < d.links.len() ==> (#[trigger] d.links[i]).suffix < d.clear() && d.known(d.links[i].prefix)
            && d.links[i].prefix < d.clear() + 2 + i
    &&& d.prev matches Some(p) ==> d.known(p)
}

/// Whether all pixels are below a bound.
spec fn below(px: Seq<u8>, bound: int) -> bool {
    forall|i: int| 0 <= i < px.len() ==> #[trigger] px[i] < bound
}

proof fn lemma_fresh(minimum: u8)
    requires
        1 <= minimum <= 8,
    ensures
        sound(Lzw::fresh(minimum)),
{
    crate::lzw::lemma_clear(minimum);
}

/// What a known code stands for has pixels, all of the alphabet.
proof fn lemma_chain(d: Lzw, code: int)
    requires
        sound(d),
        d.known(code),
    ensures
        d.chain(code).len() >= 1,
        below(d.chain(code), d.clear()),
    decreases code,
{
    crate::lzw::lemma_clear(d.minimum);
    if code >= d.clear() {
        let i = code - d.clear() - 2;
        assert(d.links[i].suffix < d.clear());
        lemma_chain(d, d.links[i].prefix);
    }
}

proof fn lemma_phrase(d: Lzw, code: int)
    requires
        sound(d),
        d.legal(code),
    ensures
        d.phrase(code).len() >= 1,
        below(d.phrase(code), d.clear()),
        sound(d.apply(code)),
        d.apply(code).minimum == d.minimum,
{
    if d.known(code) {
        lemma_chain(d, code);
    } else {
        lemma_chain(d, d.prev->0);
    }
    let next = d.apply(code);
    assert(next.clear() == d.clear());
    assert forall|i: int| 0 <= i < next.links.len() implies (#[trigger] next.links[i]).suffix < d.clear()
        && next.known(next.links[i].prefix) && next.links[i].prefix < d.clear() + 2 + i by {
        if i < d.links.len() {
            assert(next.links[i] == d.links[i]);
        }
    }
}

/// Pixels that are decoded are of the alphabet.
proof fn lemma_pixels(b: Seq<u8>, d: Lzw, bit: int, pixels: Seq<u8>, events: int, expected: int)
    requires
        sound(d),
        below(pixels, d.clear()),
    ensures
        crate::gif_exact::read_codes(b, d, bit, pixels, events, expected) matches Ok((all, _, _)) ==> below(
            all,
            d.clear(),
        ),
    decreases b.len() * 8 - bit,
{
    if bit + d.width <= b.len() * 8 {
        let code = crate::gif_exact::code_at(b, bit, d.width);
        if code == d.clear() {
            lemma_fresh(d.minimum);
            lemma_pixels(b, Lzw::fresh(d.minimum), bit + d.width, pixels, events + 1, expected);
        } else if code != d.clear() + 1 && d.legal(code) {
            lemma_phrase(d, code);
            lemma_pixels(
                b,
                d.apply(code),
                bit + d.width,
                pixels + d.phrase(code),
                events + 1,
                expected,
            );
        }
    }
}

/// The first exception among those from a decision on, if there is one: which decision it is for, and what
/// follows it.
proof fn lemma_first(
    b: Seq<u8>,
    d: Lzw,
    bit: int,
    pixels: Seq<u8>,
    pos: int,
    event: int,
    events: int,
    last: int,
) -> (r: (int, Seq<u8>))
    ensures
        ({
            let all = crate::gif_exact::deviations(b, d, bit, pixels, pos, event, events, last);
            all.len() == 0 || (event <= r.0 < events && all == crate::gif_exact::var_bytes(r.0 - last) + r.1)
        }),
    decreases events - event,
{
    let all = crate::gif_exact::deviations(b, d, bit, pixels, pos, event, events, last);
    if event >= events {
        (event, Seq::empty())
    } else {
        let code = crate::gif_exact::code_at(b, bit, d.width);
        let next = if code == d.clear() {
            Lzw::fresh(d.minimum)
        } else if code == d.clear() + 1 {
            d
        } else {
            d.apply(code)
        };
        let to = if code == d.clear() || code == d.clear() + 1 {
            pos
        } else {
            pos + d.phrase(code).len()
        };
        if d.predict(pixels, pos, event) != code {
            let rest = crate::gif_exact::deviations(
                b,
                next,
                bit + d.width,
                pixels,
                to,
                event + 1,
                events,
                event + 1,
            );
            let behind = crate::gif_exact::var_bytes(code) + rest;
            assert(all =~= crate::gif_exact::var_bytes(event - last) + behind);
            (event, behind)
        } else {
            let rest = crate::gif_exact::deviations(
                b,
                next,
                bit + d.width,
                pixels,
                to,
                event + 1,
                events,
                last,
            );
            assert(all =~= rest);
            lemma_first(b, next, bit + d.width, pixels, to, event + 1, events, last)
        }
    }
}

proof fn lemma_var(e: Seq<u8>, at: int, n: int, rest: Seq<u8>)
    requires
        0 <= at <= e.len(),
        0 <= n <= usize::MAX,
        e.skip(at) == crate::gif_exact::var_bytes(n) + rest,
    ensures
        crate::gif_exact::var_at(e, at) == Ok::<(int, int), Seq<char>>(
            (n, at + crate::gif_exact::var_bytes(n).len()),
        ),
        at + crate::gif_exact::var_bytes(n).len() <= e.len(),
        e.skip(at + crate::gif_exact::var_bytes(n).len()) == rest,
        crate::gif_exact::var_bytes(n).len() >= 1,
{
    let v = crate::gif_exact::var_bytes(n);
    crate::gif_exact::law_var_round_trip(e.take(at), n as usize, rest);
    assert(e.take(at) + v + rest =~= e) by {
        assert(e =~= e.take(at) + e.skip(at));
    }
    assert(e.skip(at + v.len()) =~= rest) by {
        assert(e.skip(at).skip(v.len() as int) =~= rest);
        assert(e.skip(at + v.len()) =~= e.skip(at).skip(v.len() as int));
    }
}

/// The exceptions from a decision on are found where they were written.
proof fn lemma_change(
    b: Seq<u8>,
    d: Lzw,
    bit: int,
    pixels: Seq<u8>,
    pos: int,
    event: int,
    events: int,
    last: int,
    e: Seq<u8>,
    at: int,
)
    requires
        0 <= last <= event,
        events <= usize::MAX,
        0 <= at <= e.len(),
        e.skip(at) == crate::gif_exact::deviations(b, d, bit, pixels, pos, event, events, last),
    ensures
        crate::gif_exact::change_at(e, at, last) is Ok,
        at == e.len() ==> crate::gif_exact::change_at(e, at, last)->Ok_0 == (None::<int>, at),
        at < e.len() ==> (crate::gif_exact::change_at(e, at, last)->Ok_0.0 matches Some(k) && event <= k
            < events),
{
    let (k, rest) = lemma_first(b, d, bit, pixels, pos, event, events, last);
    if at < e.len() {
        assert(e.skip(at).len() > 0);
        lemma_var(e, at, k - last, rest);
    }
}

/// Whether packing has come to where reading was, at decision `event`.
spec fn beside(
    b: Seq<u8>,
    p: Packing,
    bit: int,
    pixels: Seq<u8>,
    e: Seq<u8>,
    event: int,
    events: int,
    last: int,
    at: int,
) -> bool {
    &&& p.bit == bit
    &&& p.out == prefix(b, bit)
    &&& !p.ended
    &&& 0 <= last <= event
    &&& 0 <= at <= e.len()
    &&& e.skip(at) == crate::gif_exact::deviations(b, p.dict, bit, pixels, p.pos, event, events, last)
    &&& crate::gif_exact::change_at(e, at, last) == Ok::<(Option<int>, int), Seq<char>>((p.change, p.at))
}

/// The decision that is taken next is the code that was read, and the exceptions behind it are found.
proof fn lemma_decided(
    b: Seq<u8>,
    p: Packing,
    bit: int,
    pixels: Seq<u8>,
    e: Seq<u8>,
    event: int,
    events: int,
    last: int,
    at: int,
    next: Lzw,
    to: int,
) -> (r: (int, int))
    requires
        beside(b, p, bit, pixels, e, event, events, last, at),
        event < events <= usize::MAX,
        0 <= bit,
        1 <= p.dict.width <= 12,
        ({
            let code = crate::gif_exact::code_at(b, bit, p.dict.width);
            &&& next == (if code == p.dict.clear() {
                Lzw::fresh(p.dict.minimum)
            } else if code == p.dict.clear() + 1 {
                p.dict
            } else {
                p.dict.apply(code)
            })
            &&& to == (if code == p.dict.clear() || code == p.dict.clear() + 1 {
                p.pos
            } else {
                p.pos + p.dict.phrase(code).len()
            })
        }),
    ensures
        0 <= r.0 <= event + 1,
        0 <= r.1 <= e.len(),
        e.skip(r.1) == crate::gif_exact::deviations(
            b,
            next,
            bit + p.dict.width,
            pixels,
            to,
            event + 1,
            events,
            r.0,
        ),
        crate::gif_exact::change_at(e, r.1, r.0) is Ok,
        crate::gif_exact::decided(p, pixels, e, event) == Ok::<(int, Option<int>, int), Seq<char>>(
            (
                crate::gif_exact::code_at(b, bit, p.dict.width),
                crate::gif_exact::change_at(e, r.1, r.0)->Ok_0.0,
                crate::gif_exact::change_at(e, r.1, r.0)->Ok_0.1,
            ),
        ),
{
    let code = crate::gif_exact::code_at(b, bit, p.dict.width);
    let on = bit + p.dict.width;
    lemma_code(b, bit, p.dict.width);
    if p.dict.predict(pixels, p.pos, event) != code {
        let rest = crate::gif_exact::deviations(b, next, on, pixels, to, event + 1, events, event + 1);
        let behind = crate::gif_exact::var_bytes(code) + rest;
        assert(e.skip(at) =~= crate::gif_exact::var_bytes(event - last) + behind);
        lemma_var(e, at, event - last, behind);
        let mid = at + crate::gif_exact::var_bytes(event - last).len();
        assert(p.change == Some(event) && p.at == mid);
        lemma_var(e, mid, code, rest);
        let far = mid + crate::gif_exact::var_bytes(code).len();
        lemma_change(b, next, on, pixels, to, event + 1, events, event + 1, e, far);
        (event + 1, far)
    } else {
        let rest = crate::gif_exact::deviations(b, next, on, pixels, to, event + 1, events, last);
        assert(e.skip(at) =~= rest);
        lemma_change(b, next, on, pixels, to, event + 1, events, last, e, at);
        assert(p.change != Some(event));
        (last, at)
    }
}

/// Packing the decisions that were read gives back the bits that they were read from.
#[verifier::rlimit(30)]
proof fn lemma_packed(
    b: Seq<u8>,
    p: Packing,
    bit: int,
    pixels: Seq<u8>,
    e: Seq<u8>,
    event: int,
    events: int,
    last: int,
    at: int,
    end: int,
)
    requires
        sound(p.dict),
        0 <= bit,
        b.len() <= MAX_BYTES,
        0 <= p.pos <= pixels.len(),
        events <= usize::MAX,
        beside(b, p, bit, pixels, e, event, events, last, at),
        crate::gif_exact::read_codes(
            b,
            p.dict,
            bit,
            pixels.take(p.pos),
            event,
            pixels.len() as int,
        ) == Ok::<(Seq<u8>, int, int), Seq<char>>((pixels, end, events)),
    ensures
        crate::gif_exact::pack_codes(p, pixels, e, event, events, b.len() as int) matches Ok(q) && {
            &&& q.ended
            &&& q.change is None
            &&& q.at == e.len()
            &&& q.bit == end
            &&& q.out == prefix(b, end)
        },
        0 <= end <= b.len() * 8,
    decreases b.len() * 8 - bit,
{
    let d = p.dict;
    let code = crate::gif_exact::code_at(b, bit, d.width);
    let on = bit + d.width;
    let so_far = pixels.take(p.pos);
    let limit = b.len() as int;
    crate::gif_exact::lemma_codes_add(b, d, bit, so_far, event, pixels.len() as int);
    let next = if code == d.clear() {
        Lzw::fresh(d.minimum)
    } else if code == d.clear() + 1 {
        d
    } else {
        d.apply(code)
    };
    let to = if code == d.clear() || code == d.clear() + 1 {
        p.pos
    } else {
        p.pos + d.phrase(code).len()
    };
    let (last2, at2) = lemma_decided(b, p, bit, pixels, e, event, events, last, at, next, to);
    let (change, behind) = crate::gif_exact::change_at(e, at2, last2)->Ok_0;
    lemma_code(b, bit, d.width);
    lemma_put(b, bit, d.width);
    let q = Packing { out: prefix(b, on), bit: on, at: behind, change, ..p };
    if code == d.clear() {
        lemma_fresh(d.minimum);
        let p2 = Packing { dict: next, ..q };
        assert(crate::gif_exact::pack_step(p, pixels, e, event, events, limit) == Ok::<Packing, Seq<char>>(p2));
        lemma_packed(b, p2, on, pixels, e, event + 1, events, last2, at2, end);
    } else if code == d.clear() + 1 {
        assert(so_far.len() == p.pos);
        assert(e.skip(at2).len() == 0);
        let p2 = Packing { ended: true, ..q };
        assert(crate::gif_exact::pack_step(p, pixels, e, event, events, limit) == Ok::<Packing, Seq<char>>(p2));
        assert(crate::gif_exact::pack_codes(p2, pixels, e, event + 1, events, limit) == Ok::<
            Packing,
            Seq<char>,
        >(p2));
    } else {
        let phrase = d.phrase(code);
        let more = so_far + phrase;
        lemma_phrase(d, code);
        crate::gif_exact::lemma_codes_add(b, next, on, more, event + 1, pixels.len() as int);
        assert(pixels.take(to) =~= more);
        assert(pixels.subrange(p.pos, to) =~= phrase) by {
            assert forall|i: int| 0 <= i < phrase.len() implies pixels.subrange(p.pos, to)[i] == phrase[i] by {
                assert(pixels.take(to)[p.pos + i] == more[p.pos + i]);
            }
        }
        let p2 = Packing { dict: next, pos: to, ..q };
        assert(crate::gif_exact::pack_step(p, pixels, e, event, events, limit) == Ok::<Packing, Seq<char>>(p2));
        lemma_packed(b, p2, on, pixels, e, event + 1, events, last2, at2, end);
    }
}

/// Putting image data together undoes taking them apart: the pixels, the exceptions, the number of decisions
/// and the tail give back the bytes that they were taken from.
pub proof fn law_pack_undoes_unpack(b: Seq<u8>, minimum: u8, expected: int)
    requires
        b.len() <= MAX_BYTES,
        b.len() * 8 <= usize::MAX,
        0 <= expected,
    ensures
        crate::gif_exact::unpacked(b, minimum, expected) matches Ok(i) ==> crate::gif_exact::packed(
            minimum,
            i.pixels,
            i.exceptions,
            i.events,
            i.tail,
            b.len() as int,
        ) == Ok::<Seq<u8>, Seq<char>>(b),
{
    if let Ok(i) = crate::gif_exact::unpacked(b, minimum, expected) {
        let d = Lzw::fresh(minimum);
        let none = Seq::<u8>::empty();
        let (pixels, end, events) = crate::gif_exact::read_codes(b, d, 0, none, 0, expected)->Ok_0;
        let e = i.exceptions;
        lemma_fresh(minimum);
        lemma_pixels(b, d, 0, none, 0, expected);
        crate::gif_exact::lemma_codes_add(b, d, 0, none, 0, expected);
        assert(e.skip(0) =~= e);
        lemma_change(b, d, 0, pixels, 0, 0, events, 0, e, 0);
        let (change, at) = crate::gif_exact::change_at(e, 0, 0)->Ok_0;
        let p = Packing { dict: d, out: none, bit: 0, pos: 0, at, change, ended: false };
        assert(prefix(b, 0) =~= none);
        assert(pixels.take(0) =~= none);
        lemma_packed(b, p, 0, pixels, e, 0, events, 0, 0, end);
        let q = crate::gif_exact::pack_codes(p, pixels, e, 0, events, b.len() as int)->Ok_0;
        let s = end % 8;
        if s != 0 {
            let first = end / 8;
            lemma_tail(b[first], s as u8);
            let whole = q.out.update(q.out.len() - 1, q.out.last() | i.tail[0]) + i.tail.subrange(
                1,
                i.tail.len() as int,
            );
            assert(q.out.len() == first + 1);
            assert(whole =~= b);
        } else {
            assert(q.out + i.tail =~= b);
        }
    }
}

}
