//! The fixed-point cosine transform of blocks of 8 by 8 pixels.

use crate::mov_cross::SCAN;
use crate::wire::floor_div;
use vstd::prelude::*;

verus! {

/// The transform matrix, scaled by 16384.
pub const T: [[i64; 8]; 8] = [
    [5793, 8035, 7568, 6811, 5793, 4551, 3135, 1598],
    [5793, 6811, 3135, -1598, -5793, -8035, -7568, -4551],
    [5793, 4551, -3135, -8035, -5793, 1598, 7568, 6811],
    [5793, 1598, -7568, -4551, 5793, 6811, -3135, -8035],
    [5793, -1598, -7568, 4551, 5793, -6811, -3135, 8035],
    [5793, -4551, -3135, 8035, -5793, -1598, 7568, -6811],
    [5793, -6811, 3135, 1598, -5793, 8035, -7568, 4551],
    [5793, -8035, 7568, -6811, 5793, -4551, 3135, -1598],
];

pub open spec fn entry(y: int, k: int) -> int {
    T@[y]@[k] as int
}

/// The product of row `y` of the matrix with a vector.
pub open spec fn across(y: int, s: Seq<int>) -> int {
    entry(y, 0) * s[0] + entry(y, 1) * s[1] + entry(y, 2) * s[2] + entry(y, 3) * s[3] + entry(y, 4)
        * s[4] + entry(y, 5) * s[5] + entry(y, 6) * s[6] + entry(y, 7) * s[7]
}

/// The product of column `u` of the matrix with a vector.
pub open spec fn down(u: int, s: Seq<int>) -> int {
    entry(0, u) * s[0] + entry(1, u) * s[1] + entry(2, u) * s[2] + entry(3, u) * s[3] + entry(4, u)
        * s[4] + entry(5, u) * s[5] + entry(6, u) * s[6] + entry(7, u) * s[7]
}

pub open spec fn column(n: Seq<int>, x: int) -> Seq<int> {
    Seq::new(8, |k: int| n[k * 8 + x])
}

pub open spec fn row(n: Seq<int>, y: int) -> Seq<int> {
    Seq::new(8, |k: int| n[y * 8 + k])
}

/// The first `k` coefficients of a block, in coding order, at their places in the transform and
/// with their weights.
pub open spec fn natural(c: Seq<i16>, q: Seq<u8>, k: int) -> Seq<int>
    decreases k,
{
    if k <= 0 {
        Seq::new(64, |i: int| 0)
    } else {
        natural(c, q, k - 1).update(
            SCAN@[k - 1] as int,
            c[k - 1] * q[SCAN@[k - 1] as int],
        )
    }
}

pub open spec fn half_inverse(n: Seq<int>) -> Seq<int> {
    Seq::new(64, |i: int| across(i / 8, column(n, i % 8)))
}

/// The pixels that the coefficients of a block stand for.
pub open spec fn pixels_of(c: Seq<i16>, q: Seq<u8>) -> Seq<int> {
    let temp = half_inverse(natural(c, q, 64));
    Seq::new(64, |i: int| (across(i % 8, row(temp, i / 8)) + 0x40_0000) / 0x80_0000)
}

pub open spec fn half_forward(p: Seq<int>) -> Seq<int> {
    Seq::new(64, |i: int| down(i / 8, column(p, i % 8)))
}

pub open spec fn clamped(v: int) -> int {
    if v < -32768 {
        -32768
    } else if v > 32767 {
        32767
    } else {
        v
    }
}

/// The quantized coefficient at place `i` of the transform.
pub open spec fn quantized(temp: Seq<int>, q: Seq<u8>, i: int) -> int {
    let den = q[i] * 0x2_0000_0000;
    clamped((down(i % 8, row(temp, i / 8)) + q[i] * 0x1_0000_0000) / den)
}

/// The coefficients, in coding order, that stand for the pixels of a block.
pub open spec fn coefficients_of(p: Seq<int>, q: Seq<u8>) -> Seq<int> {
    Seq::new(64, |k: int| quantized(half_forward(p), q, SCAN@[k] as int))
}

pub open spec fn magnitude(v: int) -> int {
    if v < 0 {
        -v
    } else {
        v
    }
}

proof fn lemma_rows(y: int)
    requires
        0 <= y < 8,
    ensures
        magnitude(entry(y, 0)) + magnitude(entry(y, 1)) + magnitude(entry(y, 2)) + magnitude(
            entry(y, 3),
        ) + magnitude(entry(y, 4)) + magnitude(entry(y, 5)) + magnitude(entry(y, 6)) + magnitude(
            entry(y, 7),
        ) == 43284,
{
    assert(y == 0 || y == 1 || y == 2 || y == 3 || y == 4 || y == 5 || y == 6 || y == 7);
}

proof fn lemma_columns(u: int)
    requires
        0 <= u < 8,
    ensures
        magnitude(entry(0, u)) + magnitude(entry(1, u)) + magnitude(entry(2, u)) + magnitude(
            entry(3, u),
        ) + magnitude(entry(4, u)) + magnitude(entry(5, u)) + magnitude(entry(6, u)) + magnitude(
            entry(7, u),
        ) <= 46344,
{
    assert(u == 0 || u == 1 || u == 2 || u == 3 || u == 4 || u == 5 || u == 6 || u == 7);
}

pub open spec fn bounded(s: Seq<int>, m: int) -> bool {
    forall|k: int| 0 <= k < s.len() ==> -m <= #[trigger] s[k] <= m
}

/// A sum of eight products, computed from left to right.
fn weigh(a: &[i64; 8], s: &[i64; 8], Ghost(m): Ghost<int>) -> (r: i64)
    requires
        0 <= m <= 99_523_000_000_000,
        forall|k: int| 0 <= k < 8 ==> -m <= #[trigger] s@[k] <= m,
        magnitude(a@[0] as int) + magnitude(a@[1] as int) + magnitude(a@[2] as int) + magnitude(
            a@[3] as int,
        ) + magnitude(a@[4] as int) + magnitude(a@[5] as int) + magnitude(a@[6] as int) + magnitude(
            a@[7] as int,
        ) <= 46344,
    ensures
        r == a@[0] * s@[0] + a@[1] * s@[1] + a@[2] * s@[2] + a@[3] * s@[3] + a@[4] * s@[4] + a@[5]
            * s@[5] + a@[6] * s@[6] + a@[7] * s@[7],
        -((magnitude(a@[0] as int) + magnitude(a@[1] as int) + magnitude(a@[2] as int) + magnitude(
            a@[3] as int,
        ) + magnitude(a@[4] as int) + magnitude(a@[5] as int) + magnitude(a@[6] as int) + magnitude(
            a@[7] as int,
        )) * m) <= r <= (magnitude(a@[0] as int) + magnitude(a@[1] as int) + magnitude(
            a@[2] as int,
        ) + magnitude(a@[3] as int) + magnitude(a@[4] as int) + magnitude(a@[5] as int) + magnitude(
            a@[6] as int,
        ) + magnitude(a@[7] as int)) * m,
{
    let mut total: i64 = 0;
    let mut k: usize = 0;
    let ghost mut weight: int = 0;
    proof {
        reveal_with_fuel(weights, 9);
        reveal_with_fuel(products, 9);
    }
    while k < 8
        invariant
            k <= 8,
            0 <= m <= 99_523_000_000_000,
            forall|j: int| 0 <= j < 8 ==> -m <= #[trigger] s@[j] <= m,
            weight == weights(a@, k as int),
            total == products(a@, s@, k as int),
            -(weight * m) <= total <= weight * m,
            0 <= weight,
            weights(a@, 8) <= 46344,
        decreases 8 - k,
    {
        let ghost (x, y, w) = (a@[k as int] as int, s@[k as int] as int, weight);
        proof {
            lemma_weights(a@, k as int + 1, 8);
            assert(-(magnitude(x) * m) <= x * y <= magnitude(x) * m) by (nonlinear_arith)
                requires
                    -m <= y <= m,
                    0 <= m,
            ;
            assert((w + magnitude(x)) * m == w * m + magnitude(x) * m) by (nonlinear_arith);
            assert(0 <= (w + magnitude(x)) * m <= 46344 * 99_523_000_000_000) by (nonlinear_arith)
                requires
                    0 <= w + magnitude(x) <= 46344,
                    0 <= m <= 99_523_000_000_000,
            ;
            assert(0 <= w * m) by (nonlinear_arith)
                requires
                    0 <= w,
                    0 <= m,
            ;
            weight = w + magnitude(x);
        }
        total = total + a[k] * s[k];
        k += 1;
    }
    total
}

spec fn weights(a: Seq<i64>, k: int) -> int
    decreases k,
{
    if k <= 0 {
        0
    } else {
        weights(a, k - 1) + magnitude(a[k - 1] as int)
    }
}

spec fn products(a: Seq<i64>, s: Seq<i64>, k: int) -> int
    decreases k,
{
    if k <= 0 {
        0
    } else {
        products(a, s, k - 1) + a[k - 1] * s[k - 1]
    }
}

proof fn lemma_weights(a: Seq<i64>, i: int, j: int)
    requires
        0 <= i <= j,
    ensures
        weights(a, i) <= weights(a, j),
    decreases j,
{
    if i < j {
        lemma_weights(a, i, j - 1);
    }
}


spec fn wide(s: Seq<i64>) -> Seq<int> {
    Seq::new(s.len(), |k: int| s[k] as int)
}

pub open spec fn ints(s: Seq<i32>) -> Seq<int> {
    Seq::new(s.len(), |k: int| s[k] as int)
}

fn columns_of(n: &[i64; 64], x: usize) -> (s: [i64; 8])
    requires
        x < 8,
    ensures
        wide(s@) == column(wide(n@), x as int),
{
    let s = [n[x], n[8 + x], n[16 + x], n[24 + x], n[32 + x], n[40 + x], n[48 + x], n[56 + x]];
    assert(wide(s@) =~= column(wide(n@), x as int));
    s
}

fn row_of(n: &[i64; 64], y: usize) -> (s: [i64; 8])
    requires
        y < 8,
    ensures
        wide(s@) == row(wide(n@), y as int),
{
    let b: usize = y * 8;
    let s = [n[b], n[b + 1], n[b + 2], n[b + 3], n[b + 4], n[b + 5], n[b + 6], n[b + 7]];
    assert(wide(s@) =~= row(wide(n@), y as int));
    s
}

fn weigh_across(y: usize, s: &[i64; 8], Ghost(m): Ghost<int>) -> (r: i64)
    requires
        y < 8,
        0 <= m <= 99_523_000_000_000,
        bounded(wide(s@), m),
    ensures
        r == across(y as int, wide(s@)),
        -(43284 * m) <= r <= 43284 * m,
{
    proof {
        lemma_rows(y as int);
        assert forall|k: int| 0 <= k < 8 implies -m <= #[trigger] s@[k] <= m by {
            assert(wide(s@)[k] == s@[k]);
        }
    }
    weigh(&T[y], s, Ghost(m))
}

fn weigh_down(u: usize, s: &[i64; 8], Ghost(m): Ghost<int>) -> (r: i64)
    requires
        u < 8,
        0 <= m <= 99_523_000_000_000,
        bounded(wide(s@), m),
    ensures
        r == down(u as int, wide(s@)),
        -(46344 * m) <= r <= 46344 * m,
{
    let a = [T[0][u], T[1][u], T[2][u], T[3][u], T[4][u], T[5][u], T[6][u], T[7][u]];
    proof {
        lemma_columns(u as int);
        assert forall|k: int| 0 <= k < 8 implies -m <= #[trigger] s@[k] <= m by {
            assert(wide(s@)[k] == s@[k]);
        }
    }
    let r = weigh(&a, s, Ghost(m));
    proof {
        let w = magnitude(a@[0] as int) + magnitude(a@[1] as int) + magnitude(a@[2] as int)
            + magnitude(a@[3] as int) + magnitude(a@[4] as int) + magnitude(a@[5] as int)
            + magnitude(a@[6] as int) + magnitude(a@[7] as int);
        assert(w * m <= 46344 * m) by (nonlinear_arith)
            requires
                w <= 46344,
                0 <= m,
        ;
    }
    r
}

proof fn lemma_column_bounded(n: Seq<int>, x: int, m: int)
    requires
        n.len() == 64,
        0 <= x < 8,
        bounded(n, m),
    ensures
        bounded(column(n, x), m),
        bounded(row(n, x), m),
{
    assert forall|k: int| 0 <= k < 8 implies -m <= #[trigger] column(n, x)[k] <= m by {
        assert(-m <= n[k * 8 + x] <= m);
    }
    assert forall|k: int| 0 <= k < 8 implies -m <= #[trigger] row(n, x)[k] <= m by {
        assert(-m <= n[x * 8 + k] <= m);
    }
}

/// Where only the first coefficient of a block is not zero, all its pixels are alike.
proof fn lemma_flat(c: Seq<i16>, q: Seq<u8>, i: int)
    requires
        c.len() == 64,
        q.len() == 64,
        forall|k: int| 1 <= k < 64 ==> c[k] == 0,
        0 <= i < 64,
    ensures
        pixels_of(c, q)[i] == (c[0] * q[0] * 5793 * 5793 + 0x40_0000) / 0x80_0000,
{
    let n = natural(c, q, 64);
    let temp = half_inverse(n);
    lemma_flat_natural(c, q, 64);
    let (y, x) = (i / 8, i % 8);
    let d = c[0] * q[0];
    assert forall|j: int| 0 <= j < 64 implies #[trigger] temp[j] == (if j % 8 == 0 {
        5793 * d
    } else {
        0
    }) by {
        let s = column(n, j % 8);
        assert(s[0] == n[j % 8]);
        assert(forall|k: int| 1 <= k < 8 ==> s[k] == 0);
        assert(entry(j / 8, 0) == 5793) by {
            let y = j / 8;
            assert(y == 0 || y == 1 || y == 2 || y == 3 || y == 4 || y == 5 || y == 6 || y == 7);
        }
    }
    let s = row(temp, y);
    assert(s[0] == temp[y * 8]);
    assert(forall|k: int| 1 <= k < 8 ==> s[k] == 0);
    assert(entry(x, 0) == 5793) by {
        assert(x == 0 || x == 1 || x == 2 || x == 3 || x == 4 || x == 5 || x == 6 || x == 7);
    }
}

proof fn lemma_flat_natural(c: Seq<i16>, q: Seq<u8>, k: int)
    requires
        c.len() == 64,
        q.len() == 64,
        forall|j: int| 1 <= j < 64 ==> c[j] == 0,
        1 <= k <= 64,
    ensures
        natural(c, q, k).len() == 64,
        natural(c, q, k)[0] == c[0] * q[0],
        forall|i: int| 1 <= i < 64 ==> #[trigger] natural(c, q, k)[i] == 0,
    decreases k,
{
    reveal_with_fuel(natural, 2);
    if k > 1 {
        lemma_flat_natural(c, q, k - 1);
        assert(SCAN@[k - 1] != 0);
    }
}

/// The pixels that the coefficients of a block stand for.
pub fn idct(c: &[i16], q: &[u8; 64]) -> (r: [i32; 64])
    requires
        c.len() == 64,
    ensures
        ints(r@) == pixels_of(c@, q@),
{
    let mut n: [i64; 64] = [0i64; 64];
    let mut flat = true;
    let mut k: usize = 0;
    assert(wide(n@) =~= natural(c@, q@, 0));
    while k < 64
        invariant
            k <= 64,
            c.len() == 64,
            wide(n@) == natural(c@, q@, k as int),
            forall|i: int| 0 <= i < 64 ==> -8355840 <= #[trigger] n@[i] <= 8355840,
            flat == (forall|i: int| 1 <= i < k ==> #[trigger] c@[i] == 0),
        decreases 64 - k,
    {
        let at = SCAN[k];
        assert(-8355840 <= c@[k as int] * q@[at as int] <= 8355840) by (nonlinear_arith)
            requires
                -32768 <= c@[k as int] <= 32767,
                0 <= q@[at as int] <= 255,
        ;
        n[at] = c[k] as i64 * q[at] as i64;
        if k > 0 && c[k] != 0 {
            flat = false;
        }
        assert(wide(n@) =~= natural(c@, q@, k as int + 1));
        k += 1;
    }
    if flat {
        assert(n@[0] == c@[0] * q@[0]) by {
            lemma_flat_natural(c@, q@, 64);
            assert(wide(n@)[0] == n@[0]);
        }
        let sum: i64 = n[0] * 5793 * 5793 + 0x40_0000;
        let dc: i64 = floor_div(sum, 0x80_0000);
        let r = [dc as i32; 64];
        proof {
            assert forall|i: int| 0 <= i < 64 implies ints(r@)[i] == #[trigger] pixels_of(c@, q@)[i] by {
                lemma_flat(c@, q@, i);
            }
            assert(ints(r@) =~= pixels_of(c@, q@));
        }
        return r;
    }
    let ghost whole = natural(c@, q@, 64);
    proof {
        assert forall|i: int| 0 <= i < 64 implies -8355840 <= #[trigger] whole[i] <= 8355840 by {
            assert(wide(n@)[i] == n@[i]);
        }
    }
    let ghost limit = 361_674_178_560int;
    let mut temp: [i64; 64] = [0i64; 64];
    let mut i: usize = 0;
    while i < 64
        invariant
            i <= 64,
            whole == wide(n@),
            whole.len() == 64,
            limit == 361_674_178_560,
            bounded(whole, 8355840),
            forall|j: int| 0 <= j < i ==> #[trigger] temp@[j] == half_inverse(whole)[j],
            forall|j: int| 0 <= j < 64 ==> -limit <= #[trigger] temp@[j] <= limit,
        decreases 64 - i,
    {
        proof {
            lemma_column_bounded(whole, i as int % 8, 8355840);
        }
        let s = columns_of(&n, i % 8);
        let v = weigh_across(i / 8, &s, Ghost(8355840));
        temp[i] = v;
        i += 1;
    }
    let ghost half = half_inverse(whole);
    assert(wide(temp@) =~= half);
    proof {
        assert forall|j: int| 0 <= j < 64 implies -limit <= #[trigger] half[j] <= limit by {
            assert(wide(temp@)[j] == temp@[j]);
        }
    }
    let mut out: [i32; 64] = [0i32; 64];
    let mut j: usize = 0;
    while j < 64
        invariant
            j <= 64,
            half == wide(temp@),
            half.len() == 64,
            half == half_inverse(natural(c@, q@, 64)),
            limit == 361_674_178_560,
            bounded(half, limit),
            forall|k: int| 0 <= k < j ==> #[trigger] out@[k] == pixels_of(c@, q@)[k],
        decreases 64 - j,
    {
        proof {
            lemma_column_bounded(half, j as int / 8, limit);
        }
        let s = row_of(&temp, j / 8);
        let v = weigh_across(j % 8, &s, Ghost(limit));
        let p = floor_div(v + 0x40_0000, 0x80_0000);
        out[j] = p as i32;
        j += 1;
    }
    assert(ints(out@) =~= pixels_of(c@, q@));
    out
}

/// The coefficients that stand for the pixels of a block.
pub fn dct(p: &[i32; 64], q: &[u8; 64]) -> (r: [i16; 64])
    requires
        forall|k: int| 0 <= k < 64 ==> #[trigger] q@[k] > 0,
    ensures
        forall|k: int| 0 <= k < 64 ==> #[trigger] r@[k] == coefficients_of(ints(p@), q@)[k],
{
    let ghost whole = ints(p@);
    let mut n: [i64; 64] = [0i64; 64];
    let mut k: usize = 0;
    while k < 64
        invariant
            k <= 64,
            forall|i: int| 0 <= i < k ==> #[trigger] n@[i] == p@[i],
        decreases 64 - k,
    {
        n[k] = p[k] as i64;
        k += 1;
    }
    assert(wide(n@) =~= whole);
    let ghost most = 0x8000_0000int;
    let ghost limit = 99_522_982_182_912int;
    let mut temp: [i64; 64] = [0i64; 64];
    let mut i: usize = 0;
    while i < 64
        invariant
            i <= 64,
            whole == ints(p@),
            whole == wide(n@),
            whole.len() == 64,
            most == 0x8000_0000,
            limit == 99_522_982_182_912,
            forall|j: int| 0 <= j < i ==> #[trigger] temp@[j] == half_forward(whole)[j],
            forall|j: int| 0 <= j < 64 ==> -limit <= #[trigger] temp@[j] <= limit,
        decreases 64 - i,
    {
        proof {
            lemma_column_bounded(whole, i as int % 8, most);
        }
        let s = columns_of(&n, i % 8);
        let v = weigh_down(i / 8, &s, Ghost(most));
        temp[i] = v;
        i += 1;
    }
    let ghost half = half_forward(whole);
    assert(wide(temp@) =~= half);
    proof {
        assert forall|j: int| 0 <= j < 64 implies -limit <= #[trigger] half[j] <= limit by {
            assert(wide(temp@)[j] == temp@[j]);
        }
    }
    let mut out: [i16; 64] = [0i16; 64];
    let mut j: usize = 0;
    while j < 64
        invariant
            j <= 64,
            half == wide(temp@),
            half.len() == 64,
            half == half_forward(ints(p@)),
            limit == 99_522_982_182_912,
            bounded(half, limit),
            forall|k: int| 0 <= k < 64 ==> #[trigger] q@[k] > 0,
            forall|k: int| 0 <= k < j ==> #[trigger] out@[k] == coefficients_of(ints(p@), q@)[k],
        decreases 64 - j,
    {
        let at = SCAN[j];
        proof {
            lemma_column_bounded(half, at as int / 8, limit);
        }
        let s = row_of(&temp, at / 8);
        let v = weigh_down(at % 8, &s, Ghost(limit));
        let den: i64 = q[at] as i64 * 0x2_0000_0000;
        let d = floor_div(v + q[at] as i64 * 0x1_0000_0000, den);
        out[j] = if d < -32768 {
            -32768
        } else if d > 32767 {
            32767
        } else {
            d as i16
        };
        j += 1;
    }
    out
}

}
