//! A file as ranges that are coded, and the bytes between them.

use vstd::prelude::*;

verus! {

/// Whether the ranges from number `i` on, each an offset and a length, start at `end` or later, do
/// not overlap, and come in order.
pub open spec fn apart(ranges: Seq<(u64, u64)>, i: int, end: int) -> bool
    decreases ranges.len() - i,
{
    i >= ranges.len() || (ranges[i].0 >= end && apart(ranges, i + 1, ranges[i].0 + ranges[i].1))
}

/// Whether every range lies within the first `len` bytes.
pub open spec fn within(ranges: Seq<(u64, u64)>, len: int) -> bool {
    forall|i: int| 0 <= i < ranges.len() ==> #[trigger] ranges[i].0 + ranges[i].1 <= len
}

/// The lengths of the ranges from number `i` on.
pub open spec fn occupied(ranges: Seq<(u64, u64)>, i: int) -> int
    decreases ranges.len() - i,
{
    if i >= ranges.len() {
        0
    } else {
        ranges[i].1 + occupied(ranges, i + 1)
    }
}

/// The bytes from `end` on that lie in none of the ranges from number `i` on.
pub open spec fn gaps(raw: Seq<u8>, ranges: Seq<(u64, u64)>, i: int, end: int) -> Seq<u8>
    decreases ranges.len() - i,
{
    if i >= ranges.len() {
        raw.subrange(end, raw.len() as int)
    } else {
        raw.subrange(end, ranges[i].0 as int) + gaps(raw, ranges, i + 1, ranges[i].0 + ranges[i].1)
    }
}

/// A file from `end` on: the ranges from number `i` on as they are in `coded`, and between them the
/// bytes of `rest` in order.
pub open spec fn filled(
    coded: Seq<u8>,
    ranges: Seq<(u64, u64)>,
    i: int,
    end: int,
    rest: Seq<u8>,
) -> Seq<u8>
    decreases ranges.len() - i,
{
    if i >= ranges.len() {
        rest
    } else {
        let n = ranges[i].0 - end;
        rest.subrange(0, n) + coded.subrange(
            ranges[i].0 as int,
            ranges[i].0 + ranges[i].1,
        ) + filled(
            coded,
            ranges,
            i + 1,
            ranges[i].0 + ranges[i].1,
            rest.subrange(n, rest.len() as int),
        )
    }
}

pub proof fn lemma_occupied(ranges: Seq<(u64, u64)>, i: int)
    requires
        0 <= i,
    ensures
        occupied(ranges, i) >= 0,
    decreases ranges.len() - i,
{
    if i < ranges.len() {
        lemma_occupied(ranges, i + 1);
    }
}

pub proof fn lemma_gaps_len(raw: Seq<u8>, ranges: Seq<(u64, u64)>, i: int, end: int)
    requires
        0 <= i,
        0 <= end <= raw.len(),
        apart(ranges, i, end),
        within(ranges, raw.len() as int),
    ensures
        gaps(raw, ranges, i, end).len() == raw.len() - end - occupied(ranges, i),
    decreases ranges.len() - i,
{
    if i < ranges.len() {
        lemma_gaps_len(raw, ranges, i + 1, ranges[i].0 + ranges[i].1);
    }
}

/// A file comes back from its coded ranges and the bytes between them.
pub proof fn law_fill_undoes_gaps(
    raw: Seq<u8>,
    coded: Seq<u8>,
    ranges: Seq<(u64, u64)>,
    i: int,
    end: int,
)
    requires
        0 <= i,
        0 <= end <= raw.len(),
        apart(ranges, i, end),
        within(ranges, raw.len() as int),
        coded.len() == raw.len(),
        forall|j: int|
            i <= j < ranges.len() ==> #[trigger] coded.subrange(
                ranges[j].0 as int,
                ranges[j].0 + ranges[j].1,
            ) == raw.subrange(ranges[j].0 as int, ranges[j].0 + ranges[j].1),
    ensures
        filled(coded, ranges, i, end, gaps(raw, ranges, i, end)) == raw.subrange(
            end,
            raw.len() as int,
        ),
    decreases ranges.len() - i,
{
    if i < ranges.len() {
        let (at, stop) = (ranges[i].0 as int, ranges[i].0 + ranges[i].1);
        law_fill_undoes_gaps(raw, coded, ranges, i + 1, stop);
        let rest = gaps(raw, ranges, i, end);
        let n = at - end;
        let later = gaps(raw, ranges, i + 1, stop);
        assert(rest.subrange(0, n) =~= raw.subrange(end, at));
        assert(rest.subrange(n, rest.len() as int) =~= later);
        assert(coded.subrange(at, stop) == raw.subrange(at, stop));
        assert(raw.subrange(end, at) + raw.subrange(at, stop) + raw.subrange(
            stop,
            raw.len() as int,
        ) =~= raw.subrange(end, raw.len() as int));
    }
}

/// Whether ranges that come in order overlap nowhere.
pub fn check_apart(ranges: &[(u64, u64)], len: u64) -> (r: bool)
    requires
        within(ranges@, len as int),
    ensures
        r == apart(ranges@, 0, 0),
{
    let mut i: usize = 0;
    let mut end: u64 = 0;
    while i < ranges.len()
        invariant
            i <= ranges@.len(),
            within(ranges@, len as int),
            apart(ranges@, i as int, end as int) == apart(ranges@, 0, 0),
        decreases ranges.len() - i,
    {
        if ranges[i].0 < end {
            return false;
        }
        assert(ranges@[i as int].0 + ranges@[i as int].1 <= len);
        end = ranges[i].0 + ranges[i].1;
        i += 1;
    }
    true
}

/// Appends the bytes that lie in none of the ranges.
pub fn put_gaps(raw: &[u8], ranges: &[(u64, u64)], out: &mut Vec<u8>)
    requires
        apart(ranges@, 0, 0),
        within(ranges@, raw@.len() as int),
    ensures
        final(out)@ == old(out)@ + gaps(raw@, ranges@, 0, 0),
{
    let mut i: usize = 0;
    let mut end: usize = 0;
    let total: usize = raw.len();
    let ghost whole = out@ + gaps(raw@, ranges@, 0, 0);
    while i < ranges.len()
        invariant
            i <= ranges@.len(),
            end <= raw@.len() == total,
            within(ranges@, raw@.len() as int),
            apart(ranges@, i as int, end as int),
            out@ + gaps(raw@, ranges@, i as int, end as int) == whole,
        decreases ranges.len() - i,
    {
        assert(ranges@[i as int].0 + ranges@[i as int].1 <= raw@.len());
        let at: usize = ranges[i].0 as usize;
        let ghost before = out@;
        out.extend_from_slice(vstd::slice::slice_subrange(raw, end, at));
        end = at + ranges[i].1 as usize;
        i += 1;
        assert(out@ + gaps(raw@, ranges@, i as int, end as int) =~= whole);
    }
    out.extend_from_slice(vstd::slice::slice_subrange(raw, end, raw.len()));
    assert(out@ =~= whole);
}

/// Puts a file together from its coded ranges and the bytes between them.
pub fn fill_gaps(coded: &[u8], ranges: &[(u64, u64)], rest: &[u8]) -> (out: Vec<u8>)
    requires
        apart(ranges@, 0, 0),
        within(ranges@, coded@.len() as int),
        rest@.len() + occupied(ranges@, 0) == coded@.len(),
    ensures
        out@ == filled(coded@, ranges@, 0, 0, rest@),
{
    let mut out: Vec<u8> = Vec::new();
    let mut i: usize = 0;
    let mut end: usize = 0;
    let mut used: usize = 0;
    let total: usize = coded.len();
    let size: usize = rest.len();
    let ghost whole = filled(coded@, ranges@, 0, 0, rest@);
    assert(rest@.subrange(0, rest@.len() as int) =~= rest@);
    assert(out@ + whole =~= whole);
    while i < ranges.len()
        invariant
            i <= ranges@.len(),
            end <= coded@.len() == total,
            used <= rest@.len() == size,
            within(ranges@, coded@.len() as int),
            apart(ranges@, i as int, end as int),
            rest@.len() - used + occupied(ranges@, i as int) == coded@.len() - end,
            out@ + filled(
                coded@,
                ranges@,
                i as int,
                end as int,
                rest@.subrange(used as int, rest@.len() as int),
            ) == whole,
        decreases ranges.len() - i,
    {
        assert(ranges@[i as int].0 + ranges@[i as int].1 <= coded@.len());
        let at: usize = ranges[i].0 as usize;
        let n: usize = at - end;
        let ghost before = out@;
        let ghost left = rest@.subrange(used as int, rest@.len() as int);
        proof {
            lemma_room(ranges@, i as int, end as int, coded@.len() as int);
        }
        out.extend_from_slice(vstd::slice::slice_subrange(rest, used, used + n));
        let stop: usize = at + ranges[i].1 as usize;
        out.extend_from_slice(vstd::slice::slice_subrange(coded, at, stop));
        used = used + n;
        end = stop;
        i += 1;
        proof {
            let later = rest@.subrange(used as int, rest@.len() as int);
            assert(left.subrange(n as int, left.len() as int) =~= later);
            assert(left.subrange(0, n as int) =~= rest@.subrange(used - n, used as int));
            assert(out@ + filled(coded@, ranges@, i as int, end as int, later) =~= whole);
        }
    }
    out.extend_from_slice(vstd::slice::slice_subrange(rest, used, rest.len()));
    assert(out@ =~= whole);
    out
}

/// The ranges that are left fit behind `end`.
proof fn lemma_room(ranges: Seq<(u64, u64)>, i: int, end: int, len: int)
    requires
        0 <= i < ranges.len(),
        end <= len,
        apart(ranges, i, end),
        within(ranges, len),
    ensures
        occupied(ranges, i) <= len - ranges[i].0,
    decreases ranges.len() - i,
{
    let stop = ranges[i].0 + ranges[i].1;
    reveal_with_fuel(occupied, 2);
    if i + 1 < ranges.len() {
        assert(apart(ranges, i + 1, stop));
        lemma_room(ranges, i + 1, stop, len);
    }
}


/// The lengths of ranges do not depend on their order.
pub proof fn lemma_same_occupied(a: Seq<(u64, u64)>, b: Seq<(u64, u64)>)
    requires
        a.to_multiset() == b.to_multiset(),
    ensures
        occupied(a, 0) == occupied(b, 0),
    decreases a.len(),
{
    broadcast use vstd::seq_lib::group_to_multiset_ensures;

    assert(a.len() == a.to_multiset().len() == b.len());
    if a.len() > 0 {
        let x = a[0];
        assert(a.to_multiset().count(x) > 0) by {
            assert(a.contains(x));
        }
        assert(b.contains(x));
        let j = choose|j: int| 0 <= j < b.len() && b[j] == x;
        let c = b.remove(j);
        assert(a.drop_first() =~= a.remove(0));
        assert(a.drop_first().to_multiset() =~= a.to_multiset().remove(x));
        assert(c.to_multiset() =~= b.to_multiset().remove(x));
        lemma_same_occupied(a.drop_first(), c);
        lemma_occupied_shift(a, a.drop_first(), 0);
        lemma_occupied_remove(b, j, 0);
    }
}

proof fn lemma_occupied_shift(a: Seq<(u64, u64)>, b: Seq<(u64, u64)>, i: int)
    requires
        a.len() > 0,
        b == a.drop_first(),
        0 <= i,
    ensures
        occupied(a, i + 1) == occupied(b, i),
    decreases b.len() - i,
{
    if i < b.len() {
        lemma_occupied_shift(a, b, i + 1);
    }
}

proof fn lemma_occupied_remove(b: Seq<(u64, u64)>, j: int, i: int)
    requires
        0 <= i,
        0 <= j < b.len(),
    ensures
        i <= j ==> occupied(b, i) == b[j].1 + occupied(b.remove(j), i),
        i > j ==> occupied(b, i) == occupied(b.remove(j), i - 1),
    decreases b.len() - i,
{
    if i < b.len() {
        lemma_occupied_remove(b, j, i + 1);
    }
}


/// Whether two ranges share no byte.
pub open spec fn disjoint(a: (u64, u64), b: (u64, u64)) -> bool {
    a.0 + a.1 <= b.0 || b.0 + b.1 <= a.0
}

proof fn lemma_apart_from(s: Seq<(u64, u64)>, i: int, end: int)
    requires
        0 <= i <= s.len(),
        i < s.len() ==> end <= s[i].0,
        forall|a: int, b: int|
            0 <= a < b < s.len() ==> (#[trigger] s[a]).0 + s[a].1 <= (#[trigger] s[b]).0,
    ensures
        apart(s, i, end),
    decreases s.len() - i,
{
    if i < s.len() {
        if i + 1 < s.len() {
            assert(s[i].0 + s[i].1 <= s[i + 1].0);
        }
        lemma_apart_from(s, i + 1, s[i].0 + s[i].1);
    }
}

/// Ranges that share no byte lie apart once they are in order.
pub proof fn law_sorted_apart(s: Seq<(u64, u64)>)
    requires
        forall|i: int| 0 <= i < s.len() ==> (#[trigger] s[i]).1 >= 1,
        forall|i: int, j: int|
            0 <= i < s.len() && 0 <= j < s.len() && i != j ==> disjoint(#[trigger] s[i], #[trigger] s[j]),
    ensures
        apart(crate::order::sorted(s), 0, 0),
{
    let t = crate::order::sorted(s);
    assert(s.no_duplicates()) by {
        assert forall|i: int, j: int| 0 <= i < s.len() && 0 <= j < s.len() && i != j implies s[i] != s[j] by {
            assert(disjoint(s[i], s[j]));
        }
    }
    crate::order::law_sorted_keeps(s);
    crate::order::law_sorted_distinct(s);
    assert forall|a: int, b: int| 0 <= a < b < t.len() implies (#[trigger] t[a]).0 + t[a].1
        <= (#[trigger] t[b]).0 by {
        assert(t.contains(t[a]) && t.contains(t[b]));
        crate::order::law_sorted_members(s, t[a]);
        crate::order::law_sorted_members(s, t[b]);
        let i = choose|i: int| 0 <= i < s.len() && s[i] == t[a];
        let j = choose|j: int| 0 <= j < s.len() && s[j] == t[b];
        assert(t[a] != t[b]);
        assert(disjoint(s[i], s[j]));
        assert(crate::order::before(t[a], t[b]));
    }
    lemma_apart_from(t, 0, 0);
}

}
