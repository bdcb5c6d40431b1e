//! Byte strings, error messages and the other plain values that the codecs share.

use vstd::prelude::*;

verus! {

/// What a fallible operation yields: a value, or the text of an error.
pub type Outcome<T> = Result<T, Seq<char>>;

/// The outcome that an executable result stands for.
pub open spec fn bytes_of(r: Result<Vec<u8>, String>) -> Outcome<Seq<u8>> {
    match r {
        Ok(v) => Ok(v@),
        Err(e) => Err(e@),
    }
}

/// The outcome of an operation whose value is its own model.
pub open spec fn plain<T>(r: Result<T, String>) -> Outcome<T> {
    match r {
        Ok(v) => Ok(v),
        Err(e) => Err(e@),
    }
}

/// An owned copy of an error message.
pub fn fail(text: &str) -> (owned: String)
    ensures
        owned@ == text@,
{
    text.to_owned()
}

/// Whether two byte strings are equal.
pub fn same(a: &[u8], b: &[u8]) -> (r: bool)
    ensures
        r == (a@ == b@),
{
    if a.len() != b.len() {
        return false;
    }
    let mut i: usize = 0;
    while i < a.len()
        invariant
            a.len() == b.len(),
            i <= a.len(),
            forall|j: int| 0 <= j < i ==> a@[j] == b@[j],
        decreases a.len() - i,
    {
        if a[i] != b[i] {
            assert(a@[i as int] != b@[i as int]);
            return false;
        }
        i += 1;
    }
    assert(a@ =~= b@);
    true
}


/// The lowest `k` bytes of a number, low byte first.
pub open spec fn le_bytes(n: int, k: int) -> Seq<u8>
    decreases k,
{
    if k <= 0 {
        Seq::empty()
    } else {
        seq![(n % 256) as u8] + le_bytes(n / 256, k - 1)
    }
}

/// Appends the lowest `k` bytes of a number.
pub fn put_le(n: u64, k: usize, out: &mut Vec<u8>)
    ensures
        final(out)@ == old(out)@ + le_bytes(n as int, k as int),
{
    let mut n: u64 = n;
    let mut k: usize = k;
    let ghost whole = out@ + le_bytes(n as int, k as int);
    while k > 0
        invariant
            out@ + le_bytes(n as int, k as int) == whole,
        decreases k,
    {
        let ghost before = out@;
        let ghost rest = le_bytes(n as int / 256, k - 1);
        out.push((n % 256) as u8);
        assert(before + (seq![(n % 256) as u8] + rest) =~= out@ + rest);
        n = n / 256;
        k -= 1;
    }
    assert(out@ =~= whole);
}

pub open spec fn le16(b: Seq<u8>, i: int) -> int {
    b[i] + b[i + 1] * 256
}

pub open spec fn le32(b: Seq<u8>, i: int) -> int {
    le16(b, i) + le16(b, i + 2) * 65536
}

pub open spec fn le64(b: Seq<u8>, i: int) -> int {
    le32(b, i) + le32(b, i + 4) * 0x1_0000_0000
}

pub fn read_le16(b: &[u8], i: usize) -> (n: u16)
    requires
        i + 2 <= b.len(),
    ensures
        n == le16(b@, i as int),
{
    b[i] as u16 + b[i + 1] as u16 * 256
}

pub fn read_le32(b: &[u8], i: usize) -> (n: u32)
    requires
        i + 4 <= b.len(),
    ensures
        n == le32(b@, i as int),
{
    read_le16(b, i) as u32 + read_le16(b, i + 2) as u32 * 65536
}

pub fn read_le64(b: &[u8], i: usize) -> (n: u64)
    requires
        i + 8 <= b.len(),
    ensures
        n == le64(b@, i as int),
{
    read_le32(b, i) as u64 + read_le32(b, i + 4) as u64 * 0x1_0000_0000
}

/// A number comes back from its eight bytes.
pub proof fn law_le64(n: u64)
    ensures
        le_bytes(n as int, 8).len() == 8,
        le64(le_bytes(n as int, 8), 0) == n,
{
    lemma_le(n as int);
    reveal_with_fuel(le_bytes, 9);
}

proof fn lemma_le(n: int)
    ensures
        le_bytes(n, 1) == seq![(n % 256) as u8],
{
    reveal_with_fuel(le_bytes, 2);
    assert(le_bytes(n, 1) =~= seq![(n % 256) as u8]);
}

pub proof fn lemma_lengths(n: int)
    ensures
        le_bytes(n, 8).len() == 8,
        le_bytes(n, 4).len() == 4,
{
    reveal_with_fuel(le_bytes, 9);
}

pub proof fn lemma_le64_at(b: Seq<u8>, at: int, n: int)
    requires
        0 <= at <= b.len() - 8,
        0 <= n <= u64::MAX,
        b.subrange(at, at + 8) == le_bytes(n, 8),
    ensures
        le64(b, at) == n,
{
    law_le64(n as u64);
    assert(le64(b, at) == le64(b.subrange(at, at + 8), 0));
}

pub proof fn lemma_le32_at(b: Seq<u8>, at: int, n: int)
    requires
        0 <= at <= b.len() - 4,
        0 <= n <= u32::MAX,
        b.subrange(at, at + 4) == le_bytes(n, 4),
    ensures
        le32(b, at) == n,
{
    reveal_with_fuel(le_bytes, 5);
    let s = b.subrange(at, at + 4);
    assert(s[0] == b[at] && s[1] == b[at + 1] && s[2] == b[at + 2] && s[3] == b[at + 3]);
}

/// The outcome of an operation that its watcher may have stopped.
pub open spec fn unless<T>(stopped: bool, outcome: Outcome<T>) -> Outcome<T> {
    if stopped {
        Err("error.cancelled"@)
    } else {
        outcome
    }
}

/// `out` with `bytes` at `at`.
pub open spec fn overwritten(out: Seq<u8>, at: int, bytes: Seq<u8>) -> Seq<u8> {
    Seq::new(
        out.len(),
        |i: int|
            if at <= i < at + bytes.len() {
                bytes[i - at]
            } else {
                out[i]
            },
    )
}

/// Writes `bytes` into `out` at `at`.
pub fn overwrite(out: &mut Vec<u8>, at: usize, bytes: &[u8])
    requires
        at + bytes@.len() <= old(out)@.len(),
    ensures
        final(out)@ == overwritten(old(out)@, at as int, bytes@),
{
    let mut i: usize = 0;
    while i < bytes.len()
        invariant
            i <= bytes@.len(),
            at + bytes@.len() <= out@.len(),
            out.len() == out@.len(),
            out@ == overwritten(old(out)@, at as int, bytes@.subrange(0, i as int)),
        decreases bytes.len() - i,
    {
        out[at + i] = bytes[i];
        i += 1;
        assert(out@ =~= overwritten(old(out)@, at as int, bytes@.subrange(0, i as int)));
    }
    assert(bytes@.subrange(0, i as int) =~= bytes@);
}

/// The number that two bytes stand for in two's complement.
pub open spec fn signed16(b: Seq<u8>, i: int) -> int {
    let n = le16(b, i);
    if n < 32768 {
        n
    } else {
        n - 65536
    }
}

/// A 16-bit number without its sign, as its two's complement reads.
pub open spec fn unsigned16(v: int) -> int {
    if v < 0 {
        v + 65536
    } else {
        v
    }
}

pub fn read_signed16(b: &[u8], i: usize) -> (v: i16)
    requires
        i + 2 <= b.len(),
    ensures
        v == signed16(b@, i as int),
{
    let n: i32 = read_le16(b, i) as i32;
    if n < 32768 {
        n as i16
    } else {
        (n - 65536) as i16
    }
}

pub fn put_signed16(v: i16, out: &mut Vec<u8>)
    ensures
        final(out)@ == old(out)@ + le_bytes(unsigned16(v as int), 2),
{
    let n: u64 = if v < 0 {
        (v as i32 + 65536) as u64
    } else {
        v as u64
    };
    put_le(n, 2, out);
}

/// A number comes back from its two bytes.
pub proof fn law_signed16(v: i16)
    ensures
        le_bytes(unsigned16(v as int), 2).len() == 2,
        signed16(le_bytes(unsigned16(v as int), 2), 0) == v,
{
    reveal_with_fuel(le_bytes, 3);
}

/// The largest integer at most `n / d`.
pub fn floor_div(n: i64, d: i64) -> (q: i64)
    requires
        d > 0,
        n > i64::MIN,
    ensures
        q == n as int / d as int,
{
    if n >= 0 {
        (n as u64 / d as u64) as i64
    } else {
        let m: u64 = (-n) as u64;
        let q: u64 = (m - 1) / d as u64;
        assert(-(q as int) - 1 == n as int / d as int && q < 0x7fff_ffff_ffff_ffff) by (nonlinear_arith)
            requires
                q == (m - 1) as int / d as int,
                m == -n,
                1 <= m <= 0x7fff_ffff_ffff_ffff,
                d > 0,
        ;
        -(q as i64) - 1
    }
}

}
