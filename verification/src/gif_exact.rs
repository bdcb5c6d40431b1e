//! GIF files taken apart into pixels and coding decisions, and put back together byte for byte.

use crate::wire::{fail, same, Outcome};
use crate::lzw::{Dict, Lzw};
use vstd::prelude::*;

verus! {

pub const MAGIC: [u8; 8] = [83, 71, 73, 70, 1, 0, 0, 0];

pub const MAX_BYTES: usize = 536870912;

pub const MAX_ORIGINAL_BYTES: usize = 268435456;

pub const MAX_FRAME_PIXELS: usize = 16777216;

/// The groups of seven bits of `n`, lowest first; every group but the last has its top bit set.
pub open spec fn var_bytes(n: int) -> Seq<u8>
    decreases n,
{
    if n < 128 {
        seq![n as u8]
    } else {
        seq![(n % 128 + 128) as u8] + var_bytes(n / 128)
    }
}

/// Reads the remaining groups of a number, of which `group` groups gave `sum` so far.
pub open spec fn read_groups(b: Seq<u8>, pos: int, group: int, sum: int, scale: int) -> Outcome<
    (int, int),
>
    decreases 10 - group,
{
    if group >= 10 {
        Err("GIF variable integer overflow"@)
    } else if pos >= b.len() {
        Err("Truncated GIF data"@)
    } else if (b[pos] % 128) as int > u64::MAX as int / scale {
        Err("GIF variable integer overflow"@)
    } else if b[pos] >= 128 {
        read_groups(b, pos + 1, group + 1, sum + (b[pos] % 128) * scale, scale * 128)
    } else if sum + b[pos] * scale > usize::MAX {
        Err("GIF variable integer overflow"@)
    } else {
        Ok((sum + b[pos] * scale, pos + 1))
    }
}

/// The number that starts at `pos`, and the position behind it.
pub open spec fn var_at(b: Seq<u8>, pos: int) -> Outcome<(int, int)> {
    read_groups(b, pos, 0, 0, 1)
}

/// The `n` bytes that start at `pos`.
pub open spec fn take_at(b: Seq<u8>, pos: int, n: int) -> Outcome<Seq<u8>> {
    if pos + n > usize::MAX {
        Err("GIF length overflow"@)
    } else if pos + n > b.len() {
        Err("Truncated GIF data"@)
    } else {
        Ok(b.subrange(pos, pos + n))
    }
}

/// The byte at `pos`.
pub open spec fn byte_at(b: Seq<u8>, pos: int) -> Outcome<u8> {
    if pos < b.len() {
        Ok(b[pos])
    } else {
        Err("Truncated GIF data"@)
    }
}

/// The length-prefixed byte string that starts at `pos`, and the position behind it.
pub open spec fn blob_at(b: Seq<u8>, pos: int) -> Outcome<(Seq<u8>, int)> {
    match var_at(b, pos) {
        Err(e) => Err(e),
        Ok((n, at)) => match take_at(b, at, n) {
            Err(e) => Err(e),
            Ok(s) => Ok((s, at + n)),
        },
    }
}

/// A byte string with its length in front.
pub open spec fn blob_bytes(s: Seq<u8>) -> Seq<u8> {
    var_bytes(s.len() as int) + s
}

/// Appends `n` in groups of seven bits.
pub fn put_var(n: usize, out: &mut Vec<u8>)
    ensures
        final(out)@ == old(out)@ + var_bytes(n as int),
{
    let mut n: usize = n;
    let ghost whole = old(out)@ + var_bytes(n as int);
    while n >= 128
        invariant
            out@ + var_bytes(n as int) == whole,
        decreases n,
    {
        let ghost before = out@;
        out.push((n % 128 + 128) as u8);
        proof {
            assert(out@ + var_bytes(n as int / 128) =~= before + var_bytes(n as int));
        }
        n = n / 128;
    }
    out.push(n as u8);
}

/// Appends a byte string with its length in front.
pub fn put_blob(bytes: &[u8], out: &mut Vec<u8>)
    ensures
        final(out)@ == old(out)@ + blob_bytes(bytes@),
{
    put_var(bytes.len(), out);
    out.extend_from_slice(bytes);
    proof {
        assert(out@ =~= old(out)@ + blob_bytes(bytes@));
    }
}

proof fn lemma_groups(b: Seq<u8>, pos: int, group: int, sum: int, scale: int, n: int)
    requires
        0 <= pos,
        0 <= n,
        0 <= group <= 10,
        0 <= sum,
        1 <= scale,
        group == 10 ==> scale > u64::MAX && n > 0,
        group < 10 ==> scale == groups_scale(group),
        sum + n * scale <= usize::MAX,
        pos + var_bytes(n).len() <= b.len(),
        b.subrange(pos, pos + var_bytes(n).len()) == var_bytes(n),
    ensures
        read_groups(b, pos, group, sum, scale) == Ok::<(int, int), Seq<char>>(
            (sum + n * scale, pos + var_bytes(n).len()),
        ),
    decreases n,
{
    let s = b.subrange(pos, pos + var_bytes(n).len());
    assert(s[0] == b[pos]);
    if group == 10 {
        assert(n * scale > u64::MAX) by (nonlinear_arith)
            requires
                n > 0,
                scale > u64::MAX,
        ;
        assert(false);
    }
    assert(n <= u64::MAX as int / scale) by (nonlinear_arith)
        requires
            n * scale <= u64::MAX,
            scale >= 1,
    ;
    if n >= 128 {
        let rest = var_bytes(n / 128);
        assert(b.subrange(pos + 1, pos + 1 + rest.len()) =~= rest) by {
            assert forall|j: int| 0 <= j < rest.len() implies b[pos + 1 + j] == rest[j] by {
                assert(s[j + 1] == b[pos + 1 + j]);
                assert(var_bytes(n)[j + 1] == rest[j]);
            }
        }
        assert(n % 128 * scale + n / 128 * (scale * 128) == n * scale) by (nonlinear_arith);
        assert(0 <= n % 128 * scale) by (nonlinear_arith)
            requires
                scale >= 1,
        ;
        reveal_with_fuel(groups_scale, 11);
        lemma_groups(b, pos + 1, group + 1, sum + (n % 128) * scale, scale * 128, n / 128);
    }
}

spec fn groups_scale(group: int) -> int
    decreases group,
{
    if group <= 0 {
        1
    } else {
        groups_scale(group - 1) * 128
    }
}

proof fn lemma_group_room(group: int)
    requires
        0 <= group < 10,
    ensures
        (u64::MAX as int / groups_scale(group)) * groups_scale(group) + groups_scale(group) - 1
            <= u64::MAX,
{
    reveal_with_fuel(groups_scale, 11);
    let scale = groups_scale(group);
    let all: int = 0x1_0000_0000_0000_0000;
    assert(scale == 1 || scale == 0x80 || scale == 0x4000 || scale == 0x20_0000 || scale
        == 0x1000_0000 || scale == 0x8_0000_0000 || scale == 0x400_0000_0000 || scale
        == 0x2_0000_0000_0000 || scale == 0x100_0000_0000_0000 || scale == 0x8000_0000_0000_0000);
    let times: int = if scale == 1 {
        0x10000000000000000
    } else if scale == 0x80 {
        0x200000000000000
    } else if scale == 0x4000 {
        0x4000000000000
    } else if scale == 0x20_0000 {
        0x80000000000
    } else if scale == 0x1000_0000 {
        0x1000000000
    } else if scale == 0x8_0000_0000 {
        0x20000000
    } else if scale == 0x400_0000_0000 {
        0x400000
    } else if scale == 0x2_0000_0000_0000 {
        0x8000
    } else if scale == 0x100_0000_0000_0000 {
        0x100
    } else {
        2
    };
    assert(times * scale == all);
    assert((all - 1) / scale * scale + scale - 1 <= all - 1) by (nonlinear_arith)
        requires
            times * scale == all,
            scale >= 1,
            all >= 1,
    ;
}

/// A number comes back from its groups, whatever stands around them.
pub proof fn law_var_round_trip(before: Seq<u8>, n: usize, after: Seq<u8>)
    ensures
        var_at(before + var_bytes(n as int) + after, before.len() as int) == Ok::<
            (int, int),
            Seq<char>,
        >((n as int, before.len() as int + var_bytes(n as int).len())),
{
    let b = before + var_bytes(n as int) + after;
    let v = var_bytes(n as int);
    assert(b.subrange(before.len() as int, before.len() as int + v.len()) =~= v);
    reveal_with_fuel(groups_scale, 11);
    lemma_groups(b, before.len() as int, 0, 0, 1, n as int);
}

pub struct Reader<'a> {
    pub bytes: &'a [u8],
    pub pos: usize,
}

impl<'a> Reader<'a> {
    pub open spec fn wf(&self) -> bool {
        self.pos <= self.bytes@.len()
    }

    pub(crate) fn byte(&mut self) -> (r: Result<u8, String>)
        requires
            old(self).wf(),
        ensures
            final(self).wf(),
            final(self).bytes == old(self).bytes,
            crate::wire::plain(r) == byte_at(old(self).bytes@, old(self).pos as int),
            r is Ok ==> final(self).pos == old(self).pos + 1,
    {
        if self.pos < self.bytes.len() {
            let b = self.bytes[self.pos];
            self.pos += 1;
            Ok(b)
        } else {
            Err(fail("Truncated GIF data"))
        }
    }

    pub(crate) fn take(&mut self, n: usize) -> (r: Result<&'a [u8], String>)
        requires
            old(self).wf(),
        ensures
            final(self).wf(),
            final(self).bytes == old(self).bytes,
            match r {
                Ok(s) => take_at(old(self).bytes@, old(self).pos as int, n as int) == Ok::<
                    Seq<u8>,
                    Seq<char>,
                >(s@) && final(self).pos == old(self).pos + n,
                Err(e) => take_at(old(self).bytes@, old(self).pos as int, n as int) == Err::<
                    Seq<u8>,
                    Seq<char>,
                >(e@),
            },
    {
        match self.pos.checked_add(n) {
            None => Err(fail("GIF length overflow")),
            Some(end) => {
                if end > self.bytes.len() {
                    return Err(fail("Truncated GIF data"));
                }
                let s = vstd::slice::slice_subrange(self.bytes, self.pos, end);
                self.pos = end;
                Ok(s)
            },
        }
    }

    pub(crate) fn var(&mut self) -> (r: Result<usize, String>)
        requires
            old(self).wf(),
        ensures
            final(self).wf(),
            final(self).bytes == old(self).bytes,
            match r {
                Ok(n) => var_at(old(self).bytes@, old(self).pos as int) == Ok::<
                    (int, int),
                    Seq<char>,
                >((n as int, final(self).pos as int)),
                Err(e) => var_at(old(self).bytes@, old(self).pos as int) == Err::<
                    (int, int),
                    Seq<char>,
                >(e@),
            },
    {
        let ghost whole = var_at(self.bytes@, self.pos as int);
        let ghost bytes = self.bytes;
        let mut sum: u64 = 0;
        let mut scale: u64 = 1;
        let mut group: u8 = 0;
        while group < 10
            invariant
                self.wf(),
                self.bytes == bytes,
                bytes == old(self).bytes,
                whole == var_at(old(self).bytes@, old(self).pos as int),
                group <= 10,
                1 <= scale,
                group < 10 ==> scale == groups_scale(group as int),
                group < 10 ==> sum < scale,
                group < 10 ==> read_groups(
                    bytes@,
                    self.pos as int,
                    group as int,
                    sum as int,
                    scale as int,
                ) == whole,
                group == 10 ==> whole == Err::<(int, int), Seq<char>>(
                    "GIF variable integer overflow"@,
                ),
            decreases 10 - group,
        {
            proof {
                reveal_with_fuel(groups_scale, 11);
            }
            let b = self.byte()?;
            let part: u64 = (b % 128) as u64;
            if part > u64::MAX / scale {
                return Err(fail("GIF variable integer overflow"));
            }
            assert(part * scale <= (u64::MAX / scale) * scale) by (nonlinear_arith)
                requires
                    part <= u64::MAX / scale,
            ;
            proof {
                lemma_group_room(group as int);
            }
            let more: u64 = part * scale;
            sum = sum + more;
            if b < 128 {
                if sum > usize::MAX as u64 {
                    return Err(fail("GIF variable integer overflow"));
                }
                return Ok(sum as usize);
            }
            assert(sum < scale * 128) by (nonlinear_arith)
                requires
                    sum < scale + part * scale,
                    part <= 127,
            ;
            assert(read_groups(bytes@, self.pos as int, group + 1, sum as int, scale * 128) == whole);
            group += 1;
            if group < 10 {
                scale = scale * 128;
            }
        }
        Err(fail("GIF variable integer overflow"))
    }

    pub(crate) fn blob(&mut self) -> (r: Result<&'a [u8], String>)
        requires
            old(self).wf(),
        ensures
            final(self).wf(),
            final(self).bytes == old(self).bytes,
            match r {
                Ok(s) => blob_at(old(self).bytes@, old(self).pos as int) == Ok::<
                    (Seq<u8>, int),
                    Seq<char>,
                >((s@, final(self).pos as int)),
                Err(e) => blob_at(old(self).bytes@, old(self).pos as int) == Err::<
                    (Seq<u8>, int),
                    Seq<char>,
                >(e@),
            },
    {
        let n = self.var()?;
        self.take(n)
    }
}


pub open spec fn byte_or_zero(b: Seq<u8>, i: int) -> int {
    if 0 <= i < b.len() {
        b[i] as int
    } else {
        0
    }
}

/// The number of `width` bits that starts at position `bit`, low bits first.
pub open spec fn code_at(b: Seq<u8>, bit: int, width: u8) -> int {
    let word = byte_or_zero(b, bit / 8) + byte_or_zero(b, bit / 8 + 1) * 256 + byte_or_zero(
        b,
        bit / 8 + 2,
    ) * 65536;
    (word / (1u32 << ((bit % 8) as u32)) as int) % (1u32 << (width as u32)) as int
}

/// The bytes after a code of `width` bits was set at position `bit`.
pub open spec fn put_code(out: Seq<u8>, bit: int, width: u8, code: int) -> Seq<u8> {
    let word = code * (1u32 << ((bit % 8) as u32));
    Seq::new(
        ((bit + width + 7) / 8) as nat,
        |j: int|
            {
                let old = byte_or_zero(out, j) as u8;
                if j == bit / 8 {
                    old | (word % 256) as u8
                } else if j == bit / 8 + 1 {
                    old | (word / 256 % 256) as u8
                } else if j == bit / 8 + 2 {
                    old | (word / 65536 % 256) as u8
                } else {
                    old
                }
            },
    )
}

proof fn lemma_power(k: u32)
    by (bit_vector)
    requires
        k <= 15,
    ensures
        1 <= 1u32 << k <= 32768,
        1u32 << k == (1u16 << k) as u32,
        k < 8 ==> 1u32 << k == (1u8 << k) as u32 && (1u8 << k) >= 1,
{
}

pub fn read_code(bytes: &[u8], bit: &mut u64, width: u8) -> (r: Result<u16, String>)
    requires
        bytes@.len() <= MAX_BYTES,
        *old(bit) <= bytes@.len() * 8,
        1 <= width <= 12,
    ensures
        match r {
            Ok(code) => *old(bit) + width <= bytes@.len() * 8 && code == code_at(
                bytes@,
                *old(bit) as int,
                width,
            ) && *final(bit) == *old(bit) + width,
            Err(e) => *old(bit) + width > bytes@.len() * 8 && e@ == "Missing GIF LZW end code"@
                && *final(bit) == *old(bit),
        },
{
    if *bit + width as u64 > bytes.len() as u64 * 8 {
        return Err(fail("Missing GIF LZW end code"));
    }
    let at: usize = (*bit / 8) as usize;
    let low: u32 = if at < bytes.len() { bytes[at] as u32 } else { 0 };
    let mid: u32 = if at + 1 < bytes.len() { bytes[at + 1] as u32 } else { 0 };
    let high: u32 = if at + 2 < bytes.len() { bytes[at + 2] as u32 } else { 0 };
    let word: u32 = low + mid * 256 + high * 65536;
    proof {
        lemma_power((*bit % 8) as u32);
        lemma_power(width as u32);
    }
    let code: u32 = (word / (1u32 << ((*bit % 8) as u32))) % (1u32 << (width as u32));
    *bit = *bit + width as u64;
    Ok(code as u16)
}

pub fn write_code(out: &mut Vec<u8>, bit: &mut u64, width: u8, code: u16) -> (r: Result<
    (),
    String,
>)
    requires
        *old(bit) <= MAX_BYTES * 8,
        1 <= width <= 12,
    ensures
        match r {
            Ok(_) => code < 1u16 << width && (*old(bit) + width + 7) / 8 <= MAX_BYTES && *final(bit)
                == *old(bit) + width && final(out)@ == put_code(
                old(out)@,
                *old(bit) as int,
                width,
                code as int,
            ),
            Err(e) => {
                &&& *final(bit) == *old(bit)
                &&& final(out)@ == old(out)@
                &&& if code >= 1u16 << width {
                    e@ == "GIF code does not fit its bit width"@
                } else {
                    (*old(bit) + width + 7) / 8 > MAX_BYTES && e@ == "GIF LZW output exceeds limit"@
                }
            },
        },
{
    if code >= (1u16 << width) {
        return Err(fail("GIF code does not fit its bit width"));
    }
    let end: u64 = *bit + width as u64;
    if (end + 7) / 8 > MAX_BYTES as u64 {
        return Err(fail("GIF LZW output exceeds limit"));
    }
    let ghost before = out@;
    out.resize(((end + 7) / 8) as usize, 0);
    proof {
        lemma_power((*bit % 8) as u32);
        lemma_power(width as u32);
        assert(code * (1u32 << ((*bit % 8) as u32)) <= 32768 * 32768) by (nonlinear_arith)
            requires
                code <= 32768,
                0 <= 1u32 << ((*bit % 8) as u32) <= 32768,
        ;
    }
    let word: u32 = code as u32 * (1u32 << ((*bit % 8) as u32));
    let at: usize = (*bit / 8) as usize;
    if at < out.len() {
        out[at] = out[at] | (word % 256) as u8;
    }
    if at + 1 < out.len() {
        out[at + 1] = out[at + 1] | (word / 256 % 256) as u8;
    }
    if at + 2 < out.len() {
        out[at + 2] = out[at + 2] | (word / 65536 % 256) as u8;
    }
    proof {
        assert(out@ =~= put_code(before, *bit as int, width, code as int));
    }
    *bit = end;
    Ok(())
}

/// An image taken apart: its pixels, the decisions that an ordinary encoder would not have made,
/// the number of decisions, and what follows the end code.
#[verifier::ext_equal]
pub struct Picture {
    pub pixels: Seq<u8>,
    pub exceptions: Seq<u8>,
    pub events: int,
    pub tail: Seq<u8>,
}

pub struct Image {
    pub pixels: Vec<u8>,
    pub exceptions: Vec<u8>,
    pub events: usize,
    pub tail: Vec<u8>,
}

impl View for Image {
    type V = Picture;

    open spec fn view(&self) -> Picture {
        Picture {
            pixels: self.pixels@,
            exceptions: self.exceptions@,
            events: self.events as int,
            tail: self.tail@,
        }
    }
}

/// Decodes codes from position `bit` to the end code: the pixels, the position behind the end
/// code, and the number of codes.
pub open spec fn read_codes(
    b: Seq<u8>,
    d: Lzw,
    bit: int,
    pixels: Seq<u8>,
    events: int,
    expected: int,
) -> Outcome<(Seq<u8>, int, int)>
    decreases b.len() * 8 - bit,
{
    if d.width == 0 || bit + d.width > b.len() * 8 {
        Err("Missing GIF LZW end code"@)
    } else {
        let code = code_at(b, bit, d.width);
        let bit = bit + d.width;
        if code == d.clear() {
            read_codes(b, Lzw::fresh(d.minimum), bit, pixels, events + 1, expected)
        } else if code == d.clear() + 1 {
            Ok((pixels, bit, events + 1))
        } else if !d.legal(code) {
            Err("Invalid GIF LZW phrase code"@)
        } else if d.phrase(code).len() > expected - pixels.len() {
            Err("GIF LZW pixels exceed frame dimensions"@)
        } else {
            read_codes(b, d.apply(code), bit, pixels + d.phrase(code), events + 1, expected)
        }
    }
}

/// Of each code that is not the predicted one, the number of decisions since the one before it,
/// and the code.
pub open spec fn deviations(
    b: Seq<u8>,
    d: Lzw,
    bit: int,
    pixels: Seq<u8>,
    pos: int,
    event: int,
    events: int,
    last: int,
) -> Seq<u8>
    decreases events - event,
{
    if event >= events {
        Seq::empty()
    } else {
        let code = code_at(b, bit, d.width);
        let odd = d.predict(pixels, pos, event) != code;
        let here = if odd {
            var_bytes(event - last) + var_bytes(code)
        } else {
            Seq::empty()
        };
        let last = if odd {
            event + 1
        } else {
            last
        };
        let bit = bit + d.width;
        here + if code == d.clear() {
            deviations(b, Lzw::fresh(d.minimum), bit, pixels, pos, event + 1, events, last)
        } else if code == d.clear() + 1 {
            deviations(b, d, bit, pixels, pos, event + 1, events, last)
        } else {
            deviations(
                b,
                d.apply(code),
                bit,
                pixels,
                pos + d.phrase(code).len(),
                event + 1,
                events,
                last,
            )
        }
    }
}

/// What follows position `bit`, with the bits before it in the same byte set to zero.
pub open spec fn tail_at(b: Seq<u8>, bit: int) -> Seq<u8> {
    let tail = b.subrange(bit / 8, b.len() as int);
    if bit % 8 != 0 {
        tail.update(0, (tail[0] - tail[0] % (1u8 << ((bit % 8) as u8))) as u8)
    } else {
        tail
    }
}

/// Image data taken apart.
pub open spec fn unpacked(b: Seq<u8>, minimum: u8, expected: int) -> Outcome<Picture> {
    if expected == 0 || expected > MAX_FRAME_PIXELS {
        Err("GIF frame exceeds pixel limit"@)
    } else if !(1 <= minimum <= 8) {
        Err("Unsupported GIF LZW minimum code size"@)
    } else {
        match read_codes(b, Lzw::fresh(minimum), 0, Seq::empty(), 0, expected) {
            Err(e) => Err(e),
            Ok((pixels, bit, events)) => if pixels.len() != expected {
                Err("GIF LZW pixels do not match frame dimensions"@)
            } else {
                Ok(
                    Picture {
                        pixels,
                        exceptions: deviations(
                            b,
                            Lzw::fresh(minimum),
                            0,
                            pixels,
                            0,
                            0,
                            events,
                            0,
                        ),
                        events,
                        tail: tail_at(b, bit),
                    },
                )
            },
        }
    }
}

/// Decoding only adds pixels.
pub proof fn lemma_codes_add(
    b: Seq<u8>,
    d: Lzw,
    bit: int,
    pixels: Seq<u8>,
    events: int,
    expected: int,
)
    requires
        bit >= 0,
    ensures
        match read_codes(b, d, bit, pixels, events, expected) {
            Ok((all, end, count)) => pixels.len() <= all.len() && all.subrange(
                0,
                pixels.len() as int,
            ) == pixels && bit <= end <= b.len() * 8 && events < count <= events + end - bit,
            Err(_) => true,
        },
    decreases b.len() * 8 - bit,
{
    if d.width == 0 || bit + d.width > b.len() * 8 {
    } else {
        let code = code_at(b, bit, d.width);
        let bit2 = bit + d.width;
        if code == d.clear() {
            lemma_codes_add(b, Lzw::fresh(d.minimum), bit2, pixels, events + 1, expected);
        } else if code == d.clear() + 1 {
            assert(pixels.subrange(0, pixels.len() as int) =~= pixels);
        } else {
            let more = pixels + d.phrase(code);
            lemma_codes_add(b, d.apply(code), bit2, more, events + 1, expected);
            match read_codes(b, d.apply(code), bit2, more, events + 1, expected) {
                Ok((all, _, _)) => {
                    assert(all.subrange(0, pixels.len() as int) =~= pixels) by {
                        assert(all.subrange(0, more.len() as int) == more);
                        assert forall|i: int| 0 <= i < pixels.len() implies all[i] == pixels[i] by {
                            assert(all.subrange(0, more.len() as int)[i] == more[i]);
                        }
                    }
                },
                Err(_) => {},
            }
        }
    }
}

/// Takes image data apart.
pub fn unpack_lzw(bytes: &[u8], minimum: u8, expected: usize) -> (r: Result<Image, String>)
    requires
        bytes@.len() <= MAX_ORIGINAL_BYTES,
    ensures
        match r {
            Ok(image) => unpacked(bytes@, minimum, expected as int) == Ok::<Picture, Seq<char>>(
                image@,
            ),
            Err(e) => unpacked(bytes@, minimum, expected as int) == Err::<Picture, Seq<char>>(e@),
        },
{
    if expected == 0 || expected > MAX_FRAME_PIXELS {
        return Err(fail("GIF frame exceeds pixel limit"));
    }
    let mut dict = Dict::new(minimum)?;
    let mut pixels: Vec<u8> = Vec::new();
    let mut scratch: Vec<u8> = vec![0u8; 4096];
    let mut bit: u64 = 0;
    let mut events: usize = 0;
    let mut open = true;
    let ghost whole = read_codes(
        bytes@,
        Lzw::fresh(minimum),
        0,
        Seq::empty(),
        0,
        expected as int,
    );
    while open
        invariant
            bytes@.len() <= MAX_ORIGINAL_BYTES,
            dict.wf(),
            dict.minimum == minimum,
            1 <= minimum <= 8,
            0 < expected <= MAX_FRAME_PIXELS,
            scratch@.len() == 4096,
            bit <= bytes@.len() * 8,
            events <= bit,
            pixels@.len() <= expected,
            whole == read_codes(
                bytes@,
                Lzw::fresh(minimum),
                0,
                Seq::empty(),
                0,
                expected as int,
            ),
            open ==> read_codes(
                bytes@,
                dict@,
                bit as int,
                pixels@,
                events as int,
                expected as int,
            ) == whole,
            !open ==> whole == Ok::<(Seq<u8>, int, int), Seq<char>>(
                (pixels@, bit as int, events as int),
            ),
        decreases bytes@.len() * 8 - bit,
    {
        let code = read_code(bytes, &mut bit, dict.width)?;
        events += 1;
        if code == dict.clear {
            dict.reset();
        } else if code == dict.clear + 1 {
            open = false;
        } else {
            let ghost before = dict@;
            let ghost shown = pixels@;
            let n = dict.apply(code)?;
            if n > expected - pixels.len() {
                return Err(fail("GIF LZW pixels exceed frame dimensions"));
            }
            let n = dict.expand(code, &mut scratch);
            pixels.extend_from_slice(vstd::slice::slice_subrange(&scratch, 0, n));
            assert(pixels@ =~= shown + before.phrase(code as int));
        }
    }
    if pixels.len() != expected {
        return Err(fail("GIF LZW pixels do not match frame dimensions"));
    }
    let ghost end = bit as int;
    let mut tail: Vec<u8> = Vec::new();
    tail.extend_from_slice(
        vstd::slice::slice_subrange(bytes, (bit / 8) as usize, bytes.len()),
    );
    if bit % 8 != 0 {
        proof {
            lemma_power((bit % 8) as u32);
        }
        let first: u8 = tail[0];
        let step: u8 = 1u8 << ((bit % 8) as u8);
        assert(first % step <= first) by (nonlinear_arith)
            requires
                step >= 1,
        ;
        tail[0] = first - first % step;
    }
    proof {
        assert(tail@ =~= tail_at(bytes@, end));
    }
    dict.reset();
    bit = 0;
    let mut pos: usize = 0;
    let mut exceptions: Vec<u8> = Vec::new();
    let mut last: usize = 0;
    let mut event: usize = 0;
    let ghost all = deviations(
        bytes@,
        Lzw::fresh(minimum),
        0,
        pixels@,
        0,
        0,
        events as int,
        0,
    );
    proof {
        assert(pixels@.subrange(0, 0) =~= Seq::empty());
        assert(exceptions@ + all =~= all);
    }
    while event < events
        invariant
            bytes@.len() <= MAX_ORIGINAL_BYTES,
            dict.wf(),
            dict.minimum == minimum,
            bit <= bytes@.len() * 8,
            events <= bytes@.len() * 8,
            event <= events,
            last <= event,
            pos <= pixels@.len() == expected,
            event < events ==> read_codes(
                bytes@,
                dict@,
                bit as int,
                pixels@.subrange(0, pos as int),
                event as int,
                expected as int,
            ) == Ok::<(Seq<u8>, int, int), Seq<char>>((pixels@, end, events as int)),
            exceptions@ + deviations(
                bytes@,
                dict@,
                bit as int,
                pixels@,
                pos as int,
                event as int,
                events as int,
                last as int,
            ) == all,
        decreases events - event,
    {
        let ghost d = dict@;
        let ghost at = bit as int;
        let ghost said = exceptions@;
        let ghost last0 = last as int;
        let code = read_code(bytes, &mut bit, dict.width)?;
        let expected_code: u16 = dict.predict(&pixels, pos, event);
        if expected_code != code {
            put_var(event - last, &mut exceptions);
            put_var(code as usize, &mut exceptions);
            last = event + 1;
        }
        let ghost here = if expected_code != code {
            var_bytes(event - last0) + var_bytes(code as int)
        } else {
            Seq::empty()
        };
        proof {
            assert(exceptions@ =~= said + here);
        }
        let ghost rest;
        if code == dict.clear {
            dict.reset();
            proof {
                rest = deviations(
                    bytes@,
                    Lzw::fresh(minimum),
                    bit as int,
                    pixels@,
                    pos as int,
                    event + 1,
                    events as int,
                    last as int,
                );
            }
        } else if code == dict.clear + 1 {
            proof {
                rest = deviations(
                    bytes@,
                    d,
                    bit as int,
                    pixels@,
                    pos as int,
                    event + 1,
                    events as int,
                    last as int,
                );
            }
        } else {
            let n = dict.apply(code)?;
            proof {
                let now = pixels@.subrange(0, pos as int) + d.phrase(code as int);
                lemma_codes_add(
                    bytes@,
                    d.apply(code as int),
                    bit as int,
                    now,
                    event + 1,
                    expected as int,
                );
                assert(pixels@.subrange(0, pos + n) == now);
                rest = deviations(
                    bytes@,
                    d.apply(code as int),
                    bit as int,
                    pixels@,
                    pos + n,
                    event + 1,
                    events as int,
                    last as int,
                );
            }
            pos = pos + n;
        }
        proof {
            assert(deviations(
                bytes@,
                d,
                at,
                pixels@,
                if code == d.clear() || code == d.clear() + 1 {
                    pos as int
                } else {
                    pos - d.phrase(code as int).len()
                },
                event as int,
                events as int,
                last0,
            ) == here + rest);
            assert(said + (here + rest) =~= (said + here) + rest);
        }
        event += 1;
    }
    proof {
        assert(exceptions@ =~= all);
    }
    Ok(Image { pixels, exceptions, events, tail })
}


/// How far the putting together of an image has come: the dictionary, the bytes and bits written,
/// the pixels covered, the exceptions read, the decision that the next exception is for, and
/// whether the end code was written.
#[verifier::ext_equal]
pub struct Packing {
    pub dict: Lzw,
    pub out: Seq<u8>,
    pub bit: int,
    pub pos: int,
    pub at: int,
    pub change: Option<int>,
    pub ended: bool,
}

/// The decision that the exception at `at` is for, which counts from `base`.
pub open spec fn change_at(exceptions: Seq<u8>, at: int, base: int) -> Outcome<(Option<int>, int)> {
    if at >= exceptions.len() {
        Ok((None, at))
    } else {
        match var_at(exceptions, at) {
            Err(e) => Err(e),
            Ok((gap, at)) => if base + gap > usize::MAX {
                Err("Invalid GIF exception position"@)
            } else {
                Ok((Some(base + gap), at))
            },
        }
    }
}

/// The code of decision `event`: that of an exception, or the predicted one.
pub open spec fn decided(p: Packing, pixels: Seq<u8>, exceptions: Seq<u8>, event: int) -> Outcome<
    (int, Option<int>, int),
> {
    if p.change == Some(event) {
        match var_at(exceptions, p.at) {
            Err(e) => Err(e),
            Ok((code, at)) => if code >= 4096 {
                Err("Invalid GIF exception code"@)
            } else {
                match change_at(exceptions, at, event + 1) {
                    Err(e) => Err(e),
                    Ok((change, at)) => Ok((code, change, at)),
                }
            },
        }
    } else {
        Ok((p.dict.predict(pixels, p.pos, event), p.change, p.at))
    }
}

/// Writes the code of decision `event`.
pub open spec fn pack_step(
    p: Packing,
    pixels: Seq<u8>,
    exceptions: Seq<u8>,
    event: int,
    events: int,
    limit: int,
) -> Outcome<Packing> {
    match decided(p, pixels, exceptions, event) {
        Err(e) => Err(e),
        Ok((code, change, at)) => {
            let out = put_code(p.out, p.bit, p.dict.width, code);
            let q = Packing { out, bit: p.bit + p.dict.width, at, change, ..p };
            if code >= 1u16 << p.dict.width {
                Err("GIF code does not fit its bit width"@)
            } else if (q.bit + 7) / 8 > MAX_BYTES {
                Err("GIF LZW output exceeds limit"@)
            } else if out.len() > limit {
                Err("GIF LZW record exceeds declared length"@)
            } else if code == p.dict.clear() {
                Ok(Packing { dict: Lzw::fresh(p.dict.minimum), ..q })
            } else if code == p.dict.clear() + 1 {
                if event + 1 != events || p.pos != pixels.len() {
                    Err("Unexpected GIF LZW end code"@)
                } else {
                    Ok(Packing { ended: true, ..q })
                }
            } else if !p.dict.legal(code) {
                Err("Invalid GIF LZW phrase code"@)
            } else {
                let phrase = p.dict.phrase(code);
                let end = p.pos + phrase.len();
                if end > pixels.len() || pixels.subrange(p.pos, end) != phrase {
                    Err("GIF exception does not match decoded pixels"@)
                } else {
                    Ok(Packing { dict: p.dict.apply(code), pos: end, ..q })
                }
            }
        },
    }
}

/// Writes the codes of every decision from `event` on.
pub open spec fn pack_codes(
    p: Packing,
    pixels: Seq<u8>,
    exceptions: Seq<u8>,
    event: int,
    events: int,
    limit: int,
) -> Outcome<Packing>
    decreases events - event,
{
    if event >= events {
        Ok(p)
    } else {
        match pack_step(p, pixels, exceptions, event, events, limit) {
            Err(e) => Err(e),
            Ok(q) => pack_codes(q, pixels, exceptions, event + 1, events, limit),
        }
    }
}

/// The codes of an image, followed by its tail, which starts in the last byte of the codes when
/// they do not fill it.
pub open spec fn with_tail(p: Packing, exceptions: Seq<u8>, tail: Seq<u8>, limit: int) -> Outcome<
    Seq<u8>,
> {
    let full = limit - p.bit / 8;
    if !p.ended || p.change is Some || p.at != exceptions.len() {
        Err("Incomplete GIF LZW decisions"@)
    } else if tail.len() != (if full > 0 {
        full
    } else {
        0
    }) {
        Err("GIF LZW tail length mismatch"@)
    } else if p.bit % 8 != 0 && (tail.len() == 0 || tail[0] % (1u8 << ((p.bit % 8) as u8)) != 0) {
        Err("Invalid GIF LZW padding bits"@)
    } else {
        let bytes = if p.bit % 8 != 0 {
            p.out.update(p.out.len() - 1, p.out.last() | tail[0]) + tail.subrange(
                1,
                tail.len() as int,
            )
        } else {
            p.out + tail
        };
        if bytes.len() != limit {
            Err("GIF LZW length mismatch"@)
        } else {
            Ok(bytes)
        }
    }
}

/// The image data, `limit` bytes long, that the parts of an image stand for.
pub open spec fn packed(
    minimum: u8,
    pixels: Seq<u8>,
    exceptions: Seq<u8>,
    events: int,
    tail: Seq<u8>,
    limit: int,
) -> Outcome<Seq<u8>> {
    if pixels.len() == 0 || pixels.len() > MAX_FRAME_PIXELS || events == 0 || (events > limit * 8
        && limit * 8 <= usize::MAX) {
        Err("GIF image record exceeds limits"@)
    } else if !(1 <= minimum <= 8) {
        Err("Unsupported GIF LZW minimum code size"@)
    } else if exists|i: int| 0 <= i < pixels.len() && pixels[i] >= 1u16 << minimum {
        Err("GIF pixel exceeds LZW alphabet"@)
    } else {
        match change_at(exceptions, 0, 0) {
            Err(e) => Err(e),
            Ok((change, at)) => {
                let start = Packing {
                    dict: Lzw::fresh(minimum),
                    out: Seq::empty(),
                    bit: 0,
                    pos: 0,
                    at,
                    change,
                    ended: false,
                };
                match pack_codes(start, pixels, exceptions, 0, events, limit) {
                    Err(e) => Err(e),
                    Ok(p) => with_tail(p, exceptions, tail, limit),
                }
            },
        }
    }
}

struct Packer<'a> {
    dict: Dict,
    output: Vec<u8>,
    bit: u64,
    pos: usize,
    changes: Reader<'a>,
    change: Option<usize>,
    ended: bool,
    scratch: Vec<u8>,
}

impl<'a> Packer<'a> {
    spec fn wf(&self) -> bool {
        &&& self.dict.wf()
        &&& self.changes.wf()
        &&& self.scratch@.len() == 4096
        &&& self.bit <= MAX_BYTES * 8
        &&& self.output@.len() == (self.bit + 7) / 8
    }

    spec fn model(&self) -> Packing {
        Packing {
            dict: self.dict@,
            out: self.output@,
            bit: self.bit as int,
            pos: self.pos as int,
            at: self.changes.pos as int,
            change: match self.change {
                None => None,
                Some(c) => Some(c as int),
            },
            ended: self.ended,
        }
    }

    /// Reads the decision that the next exception is for.
    fn advance(&mut self, base: usize) -> (r: Result<(), String>)
        requires
            old(self).wf(),
        ensures
            final(self).wf(),
            final(self).changes.bytes == old(self).changes.bytes,
            match change_at(old(self).changes.bytes@, old(self).changes.pos as int, base as int) {
                Ok((change, at)) => r is Ok && final(self).model() == (Packing {
                    change,
                    at,
                    ..old(self).model()
                }),
                Err(e) => r matches Err(f) && f@ == e,
            },
    {
        if self.changes.pos < self.changes.bytes.len() {
            let gap = self.changes.var()?;
            match base.checked_add(gap) {
                None => {
                    return Err(fail("Invalid GIF exception position"));
                },
                Some(c) => {
                    self.change = Some(c);
                },
            }
        } else {
            self.change = None;
        }
        Ok(())
    }

    fn step(&mut self, pixels: &[u8], event: usize, events: usize, limit: usize) -> (r: Result<
        (),
        String,
    >)
        requires
            old(self).wf(),
            old(self).pos <= pixels@.len() <= MAX_FRAME_PIXELS,
            event < events,
        ensures
            final(self).wf(),
            final(self).changes.bytes == old(self).changes.bytes,
            r is Ok ==> final(self).pos <= pixels@.len(),
            match pack_step(
                old(self).model(),
                pixels@,
                old(self).changes.bytes@,
                event as int,
                events as int,
                limit as int,
            ) {
                Ok(q) => r is Ok && final(self).model() == q,
                Err(e) => r matches Err(f) && f@ == e,
            },
    {
        let code: u16 = if self.change == Some(event) {
            let code = self.changes.var()?;
            if code >= 4096 {
                return Err(fail("Invalid GIF exception code"));
            }
            self.advance(event + 1)?;
            code as u16
        } else {
            self.dict.predict(pixels, self.pos, event)
        };
        write_code(&mut self.output, &mut self.bit, self.dict.width, code)?;
        if self.output.len() > limit {
            return Err(fail("GIF LZW record exceeds declared length"));
        }
        if code == self.dict.clear {
            self.dict.reset();
        } else if code == self.dict.clear + 1 {
            if event + 1 != events || self.pos != pixels.len() {
                return Err(fail("Unexpected GIF LZW end code"));
            }
            self.ended = true;
        } else {
            let n = self.dict.apply(code)?;
            let m = self.dict.expand(code, &mut self.scratch);
            let end: usize = self.pos + m;
            if end > pixels.len() || !same(
                vstd::slice::slice_subrange(pixels, self.pos, end),
                vstd::slice::slice_subrange(&self.scratch, 0, m),
            ) {
                return Err(fail("GIF exception does not match decoded pixels"));
            }
            self.pos = end;
        }
        Ok(())
    }
}

/// Puts image data together.
pub fn pack_lzw(
    minimum: u8,
    pixels: &[u8],
    exceptions: &[u8],
    events: usize,
    tail: &[u8],
    limit: usize,
) -> (r: Result<Vec<u8>, String>)
    ensures
        crate::wire::bytes_of(r) == packed(
            minimum,
            pixels@,
            exceptions@,
            events as int,
            tail@,
            limit as int,
        ),
{
    let over: bool = match limit.checked_mul(8) {
        None => false,
        Some(most) => events > most,
    };
    if pixels.len() == 0 || pixels.len() > MAX_FRAME_PIXELS || events == 0 || over {
        return Err(fail("GIF image record exceeds limits"));
    }
    let dict = Dict::new(minimum)?;
    let mut i: usize = 0;
    while i < pixels.len()
        invariant
            i <= pixels@.len(),
            dict.clear == 1u16 << minimum,
            forall|j: int| 0 <= j < i ==> pixels@[j] < 1u16 << minimum,
            1 <= minimum <= 8,
            0 < pixels@.len() <= MAX_FRAME_PIXELS,
            events > 0,
            events <= limit * 8 || limit * 8 > usize::MAX,
        decreases pixels.len() - i,
    {
        if pixels[i] as u16 >= dict.clear {
            assert(pixels@[i as int] >= 1u16 << minimum);
            return Err(fail("GIF pixel exceeds LZW alphabet"));
        }
        i += 1;
    }
    let mut p = Packer {
        dict,
        output: Vec::new(),
        bit: 0,
        pos: 0,
        changes: Reader { bytes: exceptions, pos: 0 },
        change: None,
        ended: false,
        scratch: vec![0u8; 4096],
    };
    p.advance(0)?;
    let mut event: usize = 0;
    let ghost whole = pack_codes(
        p.model(),
        pixels@,
        exceptions@,
        0,
        events as int,
        limit as int,
    );
    let ghost result = packed(
        minimum,
        pixels@,
        exceptions@,
        events as int,
        tail@,
        limit as int,
    );
    proof {
        assert(match whole {
            Err(e) => result == Err::<Seq<u8>, Seq<char>>(e),
            Ok(q) => result == with_tail(q, exceptions@, tail@, limit as int),
        });
    }
    while event < events
        invariant
            p.wf(),
            p.changes.bytes == exceptions,
            event <= events,
            p.pos <= pixels@.len() <= MAX_FRAME_PIXELS,
            result == packed(
                minimum,
                pixels@,
                exceptions@,
                events as int,
                tail@,
                limit as int,
            ),
            match whole {
                Err(e) => result == Err::<Seq<u8>, Seq<char>>(e),
                Ok(q) => result == with_tail(q, exceptions@, tail@, limit as int),
            },
            whole == pack_codes(
                p.model(),
                pixels@,
                exceptions@,
                event as int,
                events as int,
                limit as int,
            ),
        decreases events - event,
    {
        p.step(pixels, event, events, limit)?;
        event += 1;
    }
    if !p.ended || p.change.is_some() || p.changes.pos != exceptions.len() {
        return Err(fail("Incomplete GIF LZW decisions"));
    }
    let full: usize = (p.bit / 8) as usize;
    if tail.len() != limit.saturating_sub(full) {
        return Err(fail("GIF LZW tail length mismatch"));
    }
    let mut output = p.output;
    let ghost codes = output@;
    if p.bit % 8 != 0 {
        proof {
            lemma_power((p.bit % 8) as u32);
        }
        if tail.len() == 0 || tail[0] % (1u8 << ((p.bit % 8) as u8)) != 0 {
            return Err(fail("Invalid GIF LZW padding bits"));
        }
        let last: usize = output.len() - 1;
        output[last] = output[last] | tail[0];
        output.extend_from_slice(vstd::slice::slice_subrange(tail, 1, tail.len()));
        assert(output@ =~= codes.update(codes.len() - 1, codes.last() | tail@[0])
            + tail@.subrange(1, tail@.len() as int));
    } else {
        output.extend_from_slice(tail);
        assert(output@ =~= codes + tail@);
    }
    if output.len() != limit {
        return Err(fail("GIF LZW length mismatch"));
    }
    Ok(output)
}

/// The position behind the sub-blocks that start at `pos`.
pub open spec fn skipped(raw: Seq<u8>, pos: int) -> Outcome<int>
    decreases raw.len() - pos,
{
    if pos >= raw.len() {
        Err("Truncated GIF data"@)
    } else if raw[pos] == 0 {
        Ok(pos + 1)
    } else if pos + 1 + raw[pos] > raw.len() {
        Err("Truncated GIF data"@)
    } else {
        skipped(raw, pos + 1 + raw[pos])
    }
}


/// The lengths of the sub-blocks that start at `pos`, their contents, and the position behind
/// them.
pub open spec fn gathered(raw: Seq<u8>, pos: int) -> Outcome<(Seq<u8>, Seq<u8>, int)>
    decreases raw.len() - pos,
{
    if pos >= raw.len() {
        Err("Truncated GIF data"@)
    } else if raw[pos] == 0 {
        Ok((Seq::empty(), Seq::empty(), pos + 1))
    } else if pos + 1 + raw[pos] > raw.len() {
        Err("Truncated GIF data"@)
    } else {
        match gathered(raw, pos + 1 + raw[pos]) {
            Err(e) => Err(e),
            Ok((lengths, data, end)) => Ok(
                (
                    seq![raw[pos]] + lengths,
                    raw.subrange(pos + 1, pos + 1 + raw[pos]) + data,
                    end,
                ),
            ),
        }
    }
}

/// The size of the colour table that a flags byte announces.
pub open spec fn table_size(flags: u8) -> int {
    if flags >= 128 {
        3 * (1u16 << ((flags % 8 + 1) as u8))
    } else {
        0
    }
}

/// How far the parsing of a file has come: the position, how much of the file has been put into
/// the output, the number of images, and the output.
pub struct Parse {
    pub pos: int,
    pub saved: int,
    pub frames: int,
    pub out: Seq<u8>,
}

/// How many more bytes fit behind `out`, when `slack` bytes are kept free.
pub open spec fn room(out: Seq<u8>, slack: int) -> int {
    if MAX_BYTES - out.len() - slack > 0 {
        MAX_BYTES - out.len() - slack
    } else {
        0
    }
}

/// The record of an image: its parts, each with its length in front.
pub open spec fn image_record(minimum: u8, lengths: Seq<u8>, image: Picture, out: Seq<u8>) -> Seq<
    u8,
> {
    out.push(1).push(minimum) + blob_bytes(lengths) + blob_bytes(image.pixels) + var_bytes(
        image.events,
    ) + blob_bytes(image.exceptions) + blob_bytes(image.tail)
}

/// The image block whose descriptor starts at `pos`: the position behind it, and the output with
/// its record. What stands between `saved` and the image data goes before the record.
pub open spec fn parse_image(raw: Seq<u8>, pos: int, saved: int, out: Seq<u8>) -> Outcome<
    (int, Seq<u8>),
> {
    if pos + 9 > raw.len() {
        Err("Truncated GIF data"@)
    } else {
        let width = raw[pos + 4] + raw[pos + 5] * 256;
        let height = raw[pos + 6] + raw[pos + 7] * 256;
        let data = pos + 9 + table_size(raw[pos + 8]);
        if data >= raw.len() {
            Err("Truncated GIF data"@)
        } else if data + 1 - saved > room(out, 16) {
            Err("GIF transformed data exceeds limit"@)
        } else {
            let out = out.push(0) + blob_bytes(raw.subrange(saved, data + 1));
            match gathered(raw, data + 1) {
                Err(e) => Err(e),
                Ok((lengths, lzw, end)) => match unpacked(lzw, raw[data], width * height) {
                    Err(e) => Err(e),
                    Ok(image) => {
                        let added = lengths.len() + image.pixels.len() + image.exceptions.len()
                            + image.tail.len();
                        if added > usize::MAX {
                            Err("GIF transform size overflow"@)
                        } else if added > room(out, 64) {
                            Err("GIF transformed data exceeds limit"@)
                        } else {
                            Ok((end, image_record(raw[data], lengths, image, out)))
                        }
                    },
                },
            }
        }
    }
}

/// The blocks from `s.pos` to the trailer.
pub open spec fn parse_blocks(raw: Seq<u8>, s: Parse) -> Outcome<Parse>
    decreases raw.len() - s.pos,
{
    if !(0 <= s.pos < raw.len()) {
        Err("Truncated GIF data"@)
    } else if raw[s.pos] == 0x3b {
        Ok(Parse { pos: s.pos + 1, ..s })
    } else if raw[s.pos] == 0x21 {
        proof {
            lemma_skipped(raw, s.pos + 2);
        }
        if s.pos + 1 >= raw.len() {
            Err("Truncated GIF data"@)
        } else {
            match skipped(raw, s.pos + 2) {
                Err(e) => Err(e),
                Ok(pos) => parse_blocks(raw, Parse { pos, ..s }),
            }
        }
    } else if raw[s.pos] == 0x2c {
        proof {
            lemma_image_moves(raw, s.pos + 1, s.saved, s.out);
        }
        match parse_image(raw, s.pos + 1, s.saved, s.out) {
            Err(e) => Err(e),
            Ok((pos, out)) => parse_blocks(
                raw,
                Parse { pos, saved: pos, frames: s.frames + 1, out },
            ),
        }
    } else {
        Err("Unsupported GIF block (store original bytes instead)"@)
    }
}

pub proof fn lemma_image_moves(raw: Seq<u8>, pos: int, saved: int, out: Seq<u8>)
    requires
        0 <= pos,
    ensures
        parse_image(raw, pos, saved, out) matches Ok((end, _)) ==> pos < end <= raw.len(),
{
    if pos + 9 <= raw.len() {
        let flags = raw[pos + 8];
        if flags >= 128 {
            crate::lzw::lemma_clear((flags % 8 + 1) as u8);
        }
        lemma_gathered(raw, pos + 9 + table_size(flags) + 1);
    }
}

/// A GIF file taken apart: literal bytes, and images with their coding decisions.
pub open spec fn transformed(raw: Seq<u8>) -> Outcome<Seq<u8>> {
    if raw.len() > MAX_ORIGINAL_BYTES || raw.len() < 13 || (raw.subrange(0, 6)
        != seq![71u8, 73, 70, 56, 55, 97] && raw.subrange(0, 6) != seq![71u8, 73, 70, 56, 57, 97]) {
        Err("Unsupported GIF header or size"@)
    } else if 13 + table_size(raw[10]) > raw.len() {
        Err("Truncated GIF data"@)
    } else {
        let start = Parse {
            pos: 13 + table_size(raw[10]),
            saved: 0,
            frames: 0,
            out: MAGIC@ + var_bytes(raw.len() as int),
        };
        match parse_blocks(raw, start) {
            Err(e) => Err(e),
            Ok(s) => {
                let out = (s.out.push(0) + blob_bytes(
                    raw.subrange(s.saved, raw.len() as int),
                )).push(255);
                if s.frames == 0 {
                    Err("GIF contains no image frames"@)
                } else if raw.len() - s.saved > room(s.out, 16) {
                    Err("GIF transformed data exceeds limit"@)
                } else if out.len() > MAX_BYTES {
                    Err("GIF transformed data exceeds limit"@)
                } else {
                    Ok(out)
                }
            },
        }
    }
}

pub proof fn lemma_skipped(raw: Seq<u8>, pos: int)
    requires
        0 <= pos,
    ensures
        skipped(raw, pos) matches Ok(end) ==> pos < end <= raw.len(),
    decreases raw.len() - pos,
{
    if pos < raw.len() && raw[pos] != 0 && pos + 1 + raw[pos] <= raw.len() {
        lemma_skipped(raw, pos + 1 + raw[pos]);
    }
}

proof fn lemma_gathered(raw: Seq<u8>, pos: int)
    requires
        0 <= pos,
    ensures
        gathered(raw, pos) matches Ok((lengths, data, end)) ==> pos < end <= raw.len()
            && lengths.len() + data.len() < end - pos,
    decreases raw.len() - pos,
{
    if pos < raw.len() && raw[pos] != 0 && pos + 1 + raw[pos] <= raw.len() {
        lemma_gathered(raw, pos + 1 + raw[pos]);
    }
}

fn skip_blocks(r: &mut Reader<'_>) -> (res: Result<(), String>)
    requires
        old(r).wf(),
        old(r).bytes@.len() <= MAX_ORIGINAL_BYTES,
    ensures
        final(r).wf(),
        final(r).bytes == old(r).bytes,
        match skipped(old(r).bytes@, old(r).pos as int) {
            Ok(pos) => res is Ok && final(r).pos == pos,
            Err(e) => res matches Err(f) && f@ == e,
        },
{
    let ghost whole = skipped(r.bytes@, r.pos as int);
    loop
        invariant
            r.wf(),
            r.bytes == old(r).bytes,
            r.bytes@.len() <= MAX_ORIGINAL_BYTES,
            whole == skipped(old(r).bytes@, old(r).pos as int),
            skipped(r.bytes@, r.pos as int) == whole,
        decreases r.bytes@.len() - r.pos,
    {
        let n: usize = r.byte()? as usize;
        if n == 0 {
            return Ok(());
        }
        r.take(n)?;
    }
}

fn gather_blocks(r: &mut Reader<'_>) -> (res: Result<(Vec<u8>, Vec<u8>), String>)
    requires
        old(r).wf(),
        old(r).bytes@.len() <= MAX_ORIGINAL_BYTES,
    ensures
        final(r).wf(),
        final(r).bytes == old(r).bytes,
        match gathered(old(r).bytes@, old(r).pos as int) {
            Ok((lengths, data, pos)) => res matches Ok((a, b)) && a@ == lengths && b@ == data
                && final(r).pos == pos,
            Err(e) => res matches Err(f) && f@ == e,
        },
{
    let mut lengths: Vec<u8> = Vec::new();
    let mut lzw: Vec<u8> = Vec::new();
    let ghost whole = gathered(r.bytes@, r.pos as int);
    loop
        invariant
            r.wf(),
            r.bytes == old(r).bytes,
            r.bytes@.len() <= MAX_ORIGINAL_BYTES,
            whole == gathered(old(r).bytes@, old(r).pos as int),
            match gathered(r.bytes@, r.pos as int) {
                Ok((l, d, pos)) => whole == Ok::<(Seq<u8>, Seq<u8>, int), Seq<char>>(
                    (lengths@ + l, lzw@ + d, pos),
                ),
                Err(e) => whole == Err::<(Seq<u8>, Seq<u8>, int), Seq<char>>(e),
            },
        decreases r.bytes@.len() - r.pos,
    {
        let ghost at = r.pos as int;
        let ghost l0 = lengths@;
        let ghost d0 = lzw@;
        let n = r.byte()?;
        if n == 0 {
            proof {
                assert(l0 + Seq::<u8>::empty() =~= l0);
                assert(d0 + Seq::<u8>::empty() =~= d0);
            }
            return Ok((lengths, lzw));
        }
        lengths.push(n);
        let part = r.take(n as usize)?;
        lzw.extend_from_slice(part);
        proof {
            match gathered(r.bytes@, r.pos as int) {
                Ok((l, d, pos)) => {
                    assert(l0 + (seq![n] + l) =~= lengths@ + l);
                    assert(d0 + (part@ + d) =~= lzw@ + d);
                },
                Err(_) => {},
            }
        }
    }
}

fn skip_table(r: &mut Reader<'_>, flags: u8) -> (res: Result<(), String>)
    requires
        old(r).wf(),
        old(r).bytes@.len() <= MAX_ORIGINAL_BYTES,
    ensures
        final(r).wf(),
        final(r).bytes == old(r).bytes,
        0 <= table_size(flags) <= 768,
        match res {
            Ok(_) => final(r).pos == old(r).pos + table_size(flags),
            Err(e) => old(r).pos + table_size(flags) > old(r).bytes@.len() && e@
                == "Truncated GIF data"@,
        },
{
    if flags >= 128 {
        proof {
            crate::lzw::lemma_clear((flags % 8 + 1) as u8);
        }
        r.take(3 * (1u16 << ((flags % 8 + 1) as u8)) as usize)?;
    }
    Ok(())
}

fn encode_image(input: &mut Reader<'_>, saved: usize, output: &mut Vec<u8>) -> (res: Result<
    (),
    String,
>)
    requires
        old(input).wf(),
        old(input).bytes@.len() <= MAX_ORIGINAL_BYTES,
        saved <= old(input).pos,
    ensures
        final(input).wf(),
        final(input).bytes == old(input).bytes,
        match parse_image(old(input).bytes@, old(input).pos as int, saved as int, old(output)@) {
            Ok((end, out)) => res is Ok && out == final(output)@ && end == final(input).pos && end
                > old(input).pos,
            Err(e) => res matches Err(f) && f@ == e,
        },
{
    let raw = input.bytes;
    let descriptor = input.take(9)?;
    let width: usize = descriptor[4] as usize + descriptor[5] as usize * 256;
    let height: usize = descriptor[6] as usize + descriptor[7] as usize * 256;
    let flags = descriptor[8];
    skip_table(input, flags)?;
    let minimum = input.byte()?;
    if input.pos - saved > MAX_BYTES.saturating_sub(output.len()).saturating_sub(16) {
        return Err(fail("GIF transformed data exceeds limit"));
    }
    output.push(0);
    put_blob(vstd::slice::slice_subrange(raw, saved, input.pos), output);
    let ghost data = input.pos - 1;
    let ghost out = output@;
    proof {
        lemma_gathered(raw@, input.pos as int);
    }
    let (lengths, lzw) = gather_blocks(input)?;
    assert(width * height <= 65535 * 65535) by (nonlinear_arith)
        requires
            0 <= width <= 65535,
            0 <= height <= 65535,
    ;
    let image = unpack_lzw(&lzw, minimum, width * height)?;
    let added: u64 = match (lengths.len() as u64).checked_add(image.pixels.len() as u64) {
        None => {
            return Err(fail("GIF transform size overflow"));
        },
        Some(n) => match n.checked_add(image.exceptions.len() as u64) {
            None => {
                return Err(fail("GIF transform size overflow"));
            },
            Some(n) => match n.checked_add(image.tail.len() as u64) {
                None => {
                    return Err(fail("GIF transform size overflow"));
                },
                Some(n) => n,
            },
        },
    };
    if added > usize::MAX as u64 {
        return Err(fail("GIF transform size overflow"));
    }
    if added > MAX_BYTES.saturating_sub(output.len()).saturating_sub(64) as u64 {
        return Err(fail("GIF transformed data exceeds limit"));
    }
    put_image(minimum, &lengths, &image, output);
    Ok(())
}

fn put_image(minimum: u8, lengths: &[u8], image: &Image, output: &mut Vec<u8>)
    ensures
        final(output)@ == image_record(minimum, lengths@, image@, old(output)@),
{
    output.push(1);
    output.push(minimum);
    put_blob(lengths, output);
    put_blob(&image.pixels, output);
    put_var(image.events, output);
    put_blob(&image.exceptions, output);
    put_blob(&image.tail, output);
}

fn encode_inner(raw: &[u8]) -> (r: Result<Vec<u8>, String>)
    ensures
        crate::wire::bytes_of(r) == transformed(raw@),
{
    if raw.len() > MAX_ORIGINAL_BYTES || raw.len() < 13 {
        return Err(fail("Unsupported GIF header or size"));
    }
    let head = vstd::slice::slice_subrange(raw, 0, 6);
    if !same(head, &[71u8, 73, 70, 56, 55, 97]) && !same(head, &[71u8, 73, 70, 56, 57, 97]) {
        return Err(fail("Unsupported GIF header or size"));
    }
    let mut input = Reader { bytes: raw, pos: 13 };
    skip_table(&mut input, raw[10])?;
    let mut output: Vec<u8> = Vec::new();
    output.extend_from_slice(&MAGIC);
    put_var(raw.len(), &mut output);
    let mut saved: usize = 0;
    let mut frames: usize = 0;
    let mut open = true;
    let ghost start = Parse {
        pos: input.pos as int,
        saved: 0,
        frames: 0,
        out: output@,
    };
    let ghost whole = parse_blocks(raw@, start);
    let ghost result = transformed(raw@);
    proof {
        assert(output@ =~= MAGIC@ + var_bytes(raw@.len() as int));
        assert(whole matches Err(e) ==> result == Err::<Seq<u8>, Seq<char>>(e));
    }
    while open
        invariant
            input.wf(),
            input.bytes == raw,
            raw@.len() <= MAX_ORIGINAL_BYTES,
            saved <= input.pos,
            frames <= input.pos,
            result == transformed(raw@),
            whole matches Err(e) ==> result == Err::<Seq<u8>, Seq<char>>(e),
            open ==> whole == parse_blocks(
                raw@,
                Parse {
                    pos: input.pos as int,
                    saved: saved as int,
                    frames: frames as int,
                    out: output@,
                },
            ),
            !open ==> whole == Ok::<Parse, Seq<char>>(
                Parse {
                    pos: input.pos as int,
                    saved: saved as int,
                    frames: frames as int,
                    out: output@,
                },
            ),
        decreases raw@.len() - input.pos,
    {
        let kind = input.byte()?;
        if kind == 0x3b {
            open = false;
        } else if kind == 0x21 {
            input.byte()?;
            proof {
                lemma_skipped(raw@, input.pos as int);
            }
            skip_blocks(&mut input)?;
        } else if kind == 0x2c {
            encode_image(&mut input, saved, &mut output)?;
            saved = input.pos;
            frames += 1;
        } else {
            return Err(fail("Unsupported GIF block (store original bytes instead)"));
        }
    }
    if frames == 0 {
        return Err(fail("GIF contains no image frames"));
    }
    if raw.len() - saved > MAX_BYTES.saturating_sub(output.len()).saturating_sub(16) {
        return Err(fail("GIF transformed data exceeds limit"));
    }
    output.push(0);
    put_blob(vstd::slice::slice_subrange(raw, saved, raw.len()), &mut output);
    output.push(255);
    if output.len() > MAX_BYTES {
        return Err(fail("GIF transformed data exceeds limit"));
    }
    Ok(output)
}


/// The sum of the lengths from number `i` on.
pub open spec fn total(lengths: Seq<u8>, i: int) -> int
    decreases lengths.len() - i,
{
    if i >= lengths.len() {
        0
    } else {
        lengths[i] + total(lengths, i + 1)
    }
}

/// The sub-blocks from number `i` on, each with its length in front; their contents start at
/// `pos`.
pub open spec fn framed(lengths: Seq<u8>, data: Seq<u8>, i: int, pos: int) -> Seq<u8>
    decreases lengths.len() - i,
{
    if i >= lengths.len() {
        Seq::empty()
    } else {
        seq![lengths[i]] + data.subrange(pos, pos + lengths[i]) + framed(
            lengths,
            data,
            i + 1,
            pos + lengths[i],
        )
    }
}

/// The image record that starts behind its mark at `pos`: the position behind it, and the
/// sub-blocks that it stands for. They may take `room` bytes.
pub open spec fn restore_image(b: Seq<u8>, pos: int, room: int) -> Outcome<(int, Seq<u8>)> {
    match byte_at(b, pos) {
        Err(e) => Err(e),
        Ok(minimum) => match blob_at(b, pos + 1) {
            Err(e) => Err(e),
            Ok((lengths, pos)) => {
                let size = total(lengths, 0);
                if lengths.len() == 0 || lengths.contains(0) {
                    Err("Invalid GIF sub-block boundaries"@)
                } else if size + lengths.len() + 1 > usize::MAX {
                    Err("GIF block length overflow"@)
                } else if size + lengths.len() + 1 > room {
                    Err("GIF image exceeds declared length"@)
                } else {
                    match blob_at(b, pos) {
                        Err(e) => Err(e),
                        Ok((pixels, pos)) => match var_at(b, pos) {
                            Err(e) => Err(e),
                            Ok((events, pos)) => match blob_at(b, pos) {
                                Err(e) => Err(e),
                                Ok((exceptions, pos)) => match blob_at(b, pos) {
                                    Err(e) => Err(e),
                                    Ok((tail, pos)) => match packed(
                                        minimum,
                                        pixels,
                                        exceptions,
                                        events,
                                        tail,
                                        size,
                                    ) {
                                        Err(e) => Err(e),
                                        Ok(data) => Ok(
                                            (pos, framed(lengths, data, 0, 0).push(0)),
                                        ),
                                    },
                                },
                            },
                        },
                    }
                }
            },
        },
    }
}

/// The records from `pos` on, whose bytes go behind `out`: the position behind the end mark, and
/// the file.
pub open spec fn restore_records(b: Seq<u8>, pos: int, out: Seq<u8>, expected: int) -> Outcome<
    (int, Seq<u8>),
>
    decreases b.len() - pos,
{
    let room = if expected > out.len() {
        expected - out.len()
    } else {
        0
    };
    if !(0 <= pos < b.len()) {
        Err("Truncated GIF data"@)
    } else if b[pos] == 0 {
        proof {
            lemma_blob_moves(b, pos + 1);
        }
        match blob_at(b, pos + 1) {
            Err(e) => Err(e),
            Ok((bytes, at)) => if bytes.len() > room {
                Err("GIF literal exceeds declared length"@)
            } else {
                restore_records(b, at, out + bytes, expected)
            },
        }
    } else if b[pos] == 1 {
        proof {
            lemma_restore_moves(b, pos + 1, room);
        }
        match restore_image(b, pos + 1, room) {
            Err(e) => Err(e),
            Ok((at, bytes)) => restore_records(b, at, out + bytes, expected),
        }
    } else if b[pos] == 255 {
        Ok((pos + 1, out))
    } else {
        Err("Invalid GIF transform record"@)
    }
}

/// The GIF file that a transformed file stands for.
pub open spec fn restored(b: Seq<u8>) -> Outcome<Seq<u8>> {
    if b.len() > MAX_BYTES {
        Err("GIF transformed data exceeds limit"@)
    } else if b.len() < 8 {
        Err("Truncated GIF data"@)
    } else if b.subrange(0, 8) != MAGIC@ {
        Err("Invalid GIF transform signature"@)
    } else {
        match var_at(b, 8) {
            Err(e) => Err(e),
            Ok((expected, pos)) => if expected > MAX_ORIGINAL_BYTES {
                Err("GIF original size exceeds limit"@)
            } else {
                match restore_records(b, pos, Seq::empty(), expected) {
                    Err(e) => Err(e),
                    Ok((end, out)) => if end != b.len() || out.len() != expected {
                        Err("GIF transform total length mismatch"@)
                    } else {
                        Ok(out)
                    },
                }
            },
        }
    }
}

pub proof fn lemma_var_moves(b: Seq<u8>, pos: int, group: int, sum: int, scale: int)
    requires
        sum >= 0,
        scale >= 0,
    ensures
        read_groups(b, pos, group, sum, scale) matches Ok((n, end)) ==> pos < end <= b.len() && 0
            <= n <= usize::MAX,
    decreases 10 - group,
{
    if group < 10 && pos < b.len() {
        assert((b[pos] % 128) * scale >= 0) by (nonlinear_arith)
            requires
                scale >= 0,
        ;
        assert(b[pos] * scale >= 0) by (nonlinear_arith)
            requires
                scale >= 0,
        ;
        lemma_var_moves(b, pos + 1, group + 1, sum + (b[pos] % 128) * scale, scale * 128);
    }
}

pub proof fn lemma_blob_moves(b: Seq<u8>, pos: int)
    requires
        0 <= pos,
    ensures
        blob_at(b, pos) matches Ok((s, end)) ==> pos < end <= b.len() && s.len() <= b.len(),
{
    lemma_var_moves(b, pos, 0, 0, 1);
}

pub proof fn lemma_restore_moves(b: Seq<u8>, pos: int, room: int)
    requires
        0 <= pos,
    ensures
        restore_image(b, pos, room) matches Ok((end, bytes)) ==> pos < end <= b.len(),
{
    match blob_at(b, pos + 1) {
        Err(_) => {},
        Ok((_, pos1)) => {
            lemma_blob_moves(b, pos + 1);
            lemma_blob_moves(b, pos1);
            match blob_at(b, pos1) {
                Err(_) => {},
                Ok((_, pos2)) => {
                    lemma_var_moves(b, pos2, 0, 0, 1);
                    match var_at(b, pos2) {
                        Err(_) => {},
                        Ok((_, pos3)) => {
                            lemma_blob_moves(b, pos3);
                            match blob_at(b, pos3) {
                                Err(_) => {},
                                Ok((_, pos4)) => {
                                    lemma_blob_moves(b, pos4);
                                },
                            }
                        },
                    }
                },
            }
        },
    }
}

proof fn lemma_total(lengths: Seq<u8>, i: int)
    requires
        0 <= i <= lengths.len(),
    ensures
        0 <= total(lengths, i) <= 255 * (lengths.len() - i),
    decreases lengths.len() - i,
{
    if i < lengths.len() {
        lemma_total(lengths, i + 1);
    }
}

/// Checks the lengths of the sub-blocks, and returns their sum.
fn measure(lengths: &[u8]) -> (r: Result<u64, String>)
    requires
        lengths@.len() <= MAX_BYTES,
    ensures
        match r {
            Ok(n) => n == total(lengths@, 0) && n <= 255 * lengths@.len() && lengths@.len() > 0
                && !lengths@.contains(0),
            Err(e) => (lengths@.len() == 0 || lengths@.contains(0)) && e@
                == "Invalid GIF sub-block boundaries"@,
        },
{
    if lengths.len() == 0 {
        return Err(fail("Invalid GIF sub-block boundaries"));
    }
    let mut sum: u64 = 0;
    let mut i: usize = 0;
    while i < lengths.len()
        invariant
            i <= lengths@.len() <= MAX_BYTES,
            sum <= 255 * i,
            sum + total(lengths@, i as int) == total(lengths@, 0),
            forall|j: int| 0 <= j < i ==> lengths@[j] != 0,
        decreases lengths.len() - i,
    {
        if lengths[i] == 0 {
            assert(lengths@.contains(lengths@[i as int]));
            return Err(fail("Invalid GIF sub-block boundaries"));
        }
        sum = sum + lengths[i] as u64;
        i += 1;
    }
    Ok(sum)
}

fn decode_image(input: &mut Reader<'_>, room: usize, output: &mut Vec<u8>) -> (res: Result<
    (),
    String,
>)
    requires
        old(input).wf(),
        old(input).bytes@.len() <= MAX_BYTES,
    ensures
        final(input).wf(),
        final(input).bytes == old(input).bytes,
        match restore_image(old(input).bytes@, old(input).pos as int, room as int) {
            Ok((end, bytes)) => res is Ok && final(input).pos == end && final(output)@ == old(
                output,
            )@ + bytes,
            Err(e) => res matches Err(f) && f@ == e,
        },
{
    let minimum = input.byte()?;
    proof {
        lemma_blob_moves(input.bytes@, input.pos as int);
    }
    let lengths = input.blob()?;
    let size = measure(lengths)?;
    let framed_len: u64 = size + lengths.len() as u64 + 1;
    if framed_len > usize::MAX as u64 {
        return Err(fail("GIF block length overflow"));
    }
    if framed_len > room as u64 {
        return Err(fail("GIF image exceeds declared length"));
    }
    let pixels = input.blob()?;
    let events = input.var()?;
    let exceptions = input.blob()?;
    let tail = input.blob()?;
    let data = pack_lzw(minimum, pixels, exceptions, events, tail, size as usize)?;
    let mut pos: usize = 0;
    let mut i: usize = 0;
    let ghost out = output@;
    let ghost whole = framed(lengths@, data@, 0, 0);
    assert(out + whole =~= output@ + whole);
    while i < lengths.len()
        invariant
            i <= lengths@.len(),
            pos + total(lengths@, i as int) == data.len(),
            output@ + framed(lengths@, data@, i as int, pos as int) == out + whole,
        decreases lengths.len() - i,
    {
        proof {
            lemma_total(lengths@, i + 1);
        }
        let n = lengths[i];
        let ghost before = output@;
        let ghost rest = framed(lengths@, data@, i + 1, pos + n);
        output.push(n);
        output.extend_from_slice(vstd::slice::slice_subrange(&data, pos, pos + n as usize));
        assert(before + (seq![n] + data@.subrange(pos as int, pos + n) + rest) =~= output@ + rest);
        pos = pos + n as usize;
        i += 1;
    }
    output.push(0);
    assert(output@ =~= out + whole.push(0));
    Ok(())
}

/// Puts a GIF file together from its transformed form.
pub fn decode(encoded: &[u8]) -> (r: Result<Vec<u8>, String>)
    ensures
        crate::wire::bytes_of(r) == restored(encoded@),
{
    if encoded.len() > MAX_BYTES {
        return Err(fail("GIF transformed data exceeds limit"));
    }
    let mut input = Reader { bytes: encoded, pos: 0 };
    let magic = input.take(8)?;
    if !same(magic, &MAGIC) {
        return Err(fail("Invalid GIF transform signature"));
    }
    let expected = input.var()?;
    if expected > MAX_ORIGINAL_BYTES {
        return Err(fail("GIF original size exceeds limit"));
    }
    let mut output: Vec<u8> = Vec::new();
    let mut open = true;
    let ghost whole = restore_records(encoded@, input.pos as int, Seq::empty(), expected as int);
    let ghost result = restored(encoded@);
    assert(whole matches Err(e) ==> result == Err::<Seq<u8>, Seq<char>>(e));
    while open
        invariant
            input.wf(),
            input.bytes == encoded,
            encoded@.len() <= MAX_BYTES,
            result == restored(encoded@),
            whole matches Err(e) ==> result == Err::<Seq<u8>, Seq<char>>(e),
            open ==> whole == restore_records(
                encoded@,
                input.pos as int,
                output@,
                expected as int,
            ),
            !open ==> whole == Ok::<(int, Seq<u8>), Seq<char>>((input.pos as int, output@)),
        decreases encoded@.len() - input.pos,
    {
        let ghost at = input.pos as int;
        let kind = input.byte()?;
        let room: usize = expected.saturating_sub(output.len());
        if kind == 0 {
            proof {
                lemma_blob_moves(encoded@, at + 1);
            }
            let bytes = input.blob()?;
            if bytes.len() > room {
                return Err(fail("GIF literal exceeds declared length"));
            }
            let ghost before = output@;
            output.extend_from_slice(bytes);
            assert(output@ =~= before + bytes@);
        } else if kind == 1 {
            proof {
                lemma_restore_moves(encoded@, at + 1, room as int);
            }
            decode_image(&mut input, room, &mut output)?;
        } else if kind == 255 {
            open = false;
        } else {
            return Err(fail("Invalid GIF transform record"));
        }
    }
    if input.pos != encoded.len() || output.len() != expected {
        return Err(fail("GIF transform total length mismatch"));
    }
    Ok(output)
}

/// What encoding yields: the transformed file, provided that it stands for the original.
pub open spec fn encoded(raw: Seq<u8>) -> Outcome<Seq<u8>> {
    match transformed(raw) {
        Err(e) => Err(e),
        Ok(t) => match restored(t) {
            Err(e) => Err(e),
            Ok(back) => if back != raw {
                Err("GIF byte-exact transform self-check failed"@)
            } else {
                Ok(t)
            },
        },
    }
}

/// Takes a GIF file apart, and makes sure that it comes back byte for byte.
pub fn encode(raw: &[u8]) -> (r: Result<Vec<u8>, String>)
    ensures
        crate::wire::bytes_of(r) == encoded(raw@),
{
    let encoded = encode_inner(raw)?;
    let back = decode(&encoded)?;
    if !same(&back, raw) {
        return Err(fail("GIF byte-exact transform self-check failed"));
    }
    Ok(encoded)
}

/// What was encoded decodes to the original file.
pub proof fn law_decode_undoes_encode(raw: Seq<u8>)
    ensures
        encoded(raw) matches Ok(t) ==> restored(t) == Ok::<Seq<u8>, Seq<char>>(raw),
{
}

proof fn lemma_groups_longer(b: Seq<u8>, more: Seq<u8>, pos: int, group: int, sum: int, scale: int)
    requires
        0 <= pos,
        read_groups(b, pos, group, sum, scale) is Ok,
    ensures
        read_groups(b + more, pos, group, sum, scale) == read_groups(b, pos, group, sum, scale),
    decreases 10 - group,
{
    if group < 10 && pos < b.len() {
        assert((b + more)[pos] == b[pos]);
        if b[pos] >= 128 {
            lemma_groups_longer(b, more, pos + 1, group + 1, sum + (b[pos] % 128) * scale, scale * 128);
        }
    }
}

proof fn lemma_blob_longer(b: Seq<u8>, more: Seq<u8>, pos: int)
    requires
        0 <= pos,
        blob_at(b, pos) is Ok,
    ensures
        blob_at(b + more, pos) == blob_at(b, pos),
{
    lemma_groups_longer(b, more, pos, 0, 0, 1);
    lemma_var_moves(b, pos, 0, 0, 1);
    let (n, at) = var_at(b, pos)->Ok_0;
    assert((b + more).subrange(at, at + n) =~= b.subrange(at, at + n));
}

proof fn lemma_image_longer(b: Seq<u8>, more: Seq<u8>, pos: int, room: int)
    requires
        0 <= pos,
        restore_image(b, pos, room) is Ok,
    ensures
        restore_image(b + more, pos, room) == restore_image(b, pos, room),
{
    assert((b + more)[pos] == b[pos]);
    lemma_blob_longer(b, more, pos + 1);
    lemma_blob_moves(b, pos + 1);
    let p1 = blob_at(b, pos + 1)->Ok_0.1;
    lemma_blob_longer(b, more, p1);
    lemma_blob_moves(b, p1);
    let p2 = blob_at(b, p1)->Ok_0.1;
    lemma_groups_longer(b, more, p2, 0, 0, 1);
    lemma_var_moves(b, p2, 0, 0, 1);
    let p3 = var_at(b, p2)->Ok_0.1;
    lemma_blob_longer(b, more, p3);
    lemma_blob_moves(b, p3);
    let p4 = blob_at(b, p3)->Ok_0.1;
    lemma_blob_longer(b, more, p4);
}

proof fn lemma_records_longer(b: Seq<u8>, more: Seq<u8>, pos: int, out: Seq<u8>, expected: int)
    requires
        restore_records(b, pos, out, expected) is Ok,
    ensures
        restore_records(b + more, pos, out, expected) == restore_records(b, pos, out, expected),
    decreases b.len() - pos,
{
    let room = if expected > out.len() {
        expected - out.len()
    } else {
        0
    };
    assert((b + more)[pos] == b[pos]);
    if b[pos] == 0 {
        lemma_blob_longer(b, more, pos + 1);
        lemma_blob_moves(b, pos + 1);
        let (bytes, at) = blob_at(b, pos + 1)->Ok_0;
        lemma_records_longer(b, more, at, out + bytes, expected);
    } else if b[pos] == 1 {
        lemma_image_longer(b, more, pos + 1, room);
        lemma_restore_moves(b, pos + 1, room);
        let (at, bytes) = restore_image(b, pos + 1, room)->Ok_0;
        lemma_records_longer(b, more, at, out + bytes, expected);
    }
}

/// An exact form that is made longer is refused.
pub proof fn law_longer_forms_are_refused(b: Seq<u8>, more: Seq<u8>)
    requires
        restored(b) is Ok,
        more.len() > 0,
    ensures
        restored(b + more) is Err,
{
    let c = b + more;
    assert(c.subrange(0, 8) =~= b.subrange(0, 8));
    lemma_groups_longer(b, more, 8, 0, 0, 1);
    let (expected, pos) = var_at(b, 8)->Ok_0;
    lemma_records_longer(b, more, pos, Seq::empty(), expected);
}

/// An exact form that is cut off is refused.
pub proof fn law_cut_forms_are_refused(b: Seq<u8>, n: int)
    requires
        restored(b) is Ok,
        0 <= n < b.len(),
    ensures
        restored(b.take(n)) is Err,
{
    if restored(b.take(n)) is Ok {
        law_longer_forms_are_refused(b.take(n), b.skip(n));
        assert(b.take(n) + b.skip(n) =~= b);
    }
}

/// Every decoded file is within the size limit.
pub proof fn law_decoded_size(b: Seq<u8>)
    ensures
        restored(b) matches Ok(raw) ==> raw.len() <= MAX_ORIGINAL_BYTES && b.len() <= MAX_BYTES,
{
}

}
