//! Planes of one kind, as coefficients and as differences between them.

use crate::mov_model::same_key;
use crate::plane::{pack_plane, unpack_plane};
use crate::scanning::Segment;
use crate::wire::same;
use vstd::prelude::*;

verus! {

/// The low bytes and then the high bytes of numbers, whose signs are in their lowest bits.
pub open spec fn halves(v: Seq<int>) -> Seq<u8> {
    let n = v.len() as int;
    Seq::new(
        2 * v.len(),
        |i: int|
            if i < n {
                (crate::plane::zig(v[i]) % 256) as u8
            } else {
                (crate::plane::zig(v[i - n]) / 256) as u8
            },
    )
}

pub open spec fn wide(v: Seq<i16>) -> Seq<int> {
    Seq::new(v.len(), |i: int| v[i] as int)
}

/// The differences between coefficients, as they wrap around.
pub open spec fn changes(c: Seq<i16>, previous: Seq<i16>) -> Seq<int> {
    Seq::new(c.len(), |i: int| crate::mov_exact::wrapped(c[i] - previous[i]) as int)
}

/// Planes of one kind that come back from their coefficients: the planes, their bytes, their
/// coefficients, and the differences between those.
pub struct Group {
    pub planes: Seq<Segment>,
    pub verbatim: Seq<u8>,
    pub direct: Seq<u8>,
    pub temporal: Seq<u8>,
    pub previous: Seq<i16>,
}

/// The coefficients of a plane that comes back from them.
pub open spec fn coefficients(raw: Seq<u8>, s: Segment) -> Seq<i16> {
    crate::plane::unpacked_plane(crate::mov_model::bytes_at(raw, s), s.blocks as int)->Ok_0
}

/// A group with one more plane, if that comes back from its coefficients and has as many as those
/// before.
pub open spec fn joined(raw: Seq<u8>, g: Group, s: Segment) -> Group {
    let c = coefficients(raw, s);
    if crate::mov_model::comes_back(raw, s) && g.previous.len() == c.len() {
        Group {
            planes: g.planes.push(s),
            verbatim: g.verbatim + crate::mov_model::bytes_at(raw, s),
            direct: g.direct + halves(wide(c)),
            temporal: g.temporal + halves(changes(c, g.previous)),
            previous: c,
        }
    } else {
        g
    }
}

/// A group with the planes from number `i` up to `end`.
pub open spec fn joined_from(raw: Seq<u8>, g: Group, v: Seq<Segment>, i: int, end: int) -> Group
    decreases end - i,
{
    if i >= end {
        g
    } else {
        joined_from(raw, joined(raw, g, v[i]), v, i + 1, end)
    }
}

/// Where the planes of the same kind as plane `begin` end, at `i` or later.
pub open spec fn kind_end(v: Seq<Segment>, begin: int, i: int) -> int
    decreases v.len() - i,
{
    if i < v.len() && v[i].key == v[begin].key {
        kind_end(v, begin, i + 1)
    } else {
        i
    }
}

/// How many bytes the coefficients of the planes from number `i` up to `end` take.
pub open spec fn room(v: Seq<Segment>, i: int, end: int) -> int
    decreases end - i,
{
    if i >= end {
        0
    } else {
        v[i].blocks * 128 + room(v, i + 1, end)
    }
}

/// The group of the planes of the same kind as plane `begin`.
pub open spec fn group_at(raw: Seq<u8>, v: Seq<Segment>, begin: int) -> Group {
    let first = Group {
        planes: Seq::empty(),
        verbatim: Seq::empty(),
        direct: Seq::empty(),
        temporal: Seq::empty(),
        previous: Seq::new((v[begin].blocks * 64) as nat, |i: int| 0i16),
    };
    joined_from(raw, first, v, begin, kind_end(v, begin, begin + 1))
}

/// Planes of one kind.
pub struct Members {
    pub planes: Vec<Segment>,
    pub verbatim: Vec<u8>,
    pub direct: Vec<u8>,
    pub temporal: Vec<u8>,
    pub previous: Vec<i16>,
}

impl View for Members {
    type V = Group;

    open spec fn view(&self) -> Group {
        Group {
            planes: self.planes@,
            verbatim: self.verbatim@,
            direct: self.direct@,
            temporal: self.temporal@,
            previous: self.previous@,
        }
    }
}

fn zigzag(v: i32) -> (z: u32)
    requires
        -32768 <= v <= 32767,
    ensures
        z == crate::plane::zig(v as int),
        z <= 65535,
{
    if v < 0 {
        (-2 * v - 1) as u32
    } else {
        (2 * v) as u32
    }
}

fn put_halves(v: &Vec<i16>, out: &mut Vec<u8>)
    ensures
        final(out)@ == old(out)@ + halves(wide(v@)),
{
    let ghost head = out@;
    let ghost whole = halves(wide(v@));
    let mut i: usize = 0;
    while i < v.len()
        invariant
            i <= v.len(),
            whole == halves(wide(v@)),
            out@ == head + whole.take(i as int),
        decreases v.len() - i,
    {
        out.push((zigzag(v[i] as i32) % 256) as u8);
        assert(out@ =~= head + whole.take(i as int + 1));
        i += 1;
    }
    let n: usize = v.len();
    let mut j: usize = 0;
    while j < n
        invariant
            j <= n,
            n == v.len(),
            whole == halves(wide(v@)),
            out@ == head + whole.take(n + j),
        decreases n - j,
    {
        out.push((zigzag(v[j] as i32) / 256) as u8);
        assert(out@ =~= head + whole.take(n + j + 1));
        j += 1;
    }
    assert(whole.take(n + n) =~= whole);
}

fn differences(c: &Vec<i16>, previous: &Vec<i16>) -> (d: Vec<i16>)
    requires
        c@.len() == previous@.len(),
    ensures
        wide(d@) == changes(c@, previous@),
{
    let mut d: Vec<i16> = Vec::new();
    let mut i: usize = 0;
    while i < c.len()
        invariant
            i <= c.len(),
            c@.len() == previous@.len(),
            d@.len() == i,
            forall|j: int| 0 <= j < i ==> #[trigger] d@[j] == changes(c@, previous@)[j],
        decreases c.len() - i,
    {
        let v: i32 = c[i] as i32 - previous[i] as i32;
        let w: i32 = (v + 32768 + 65536) % 65536 - 32768;
        d.push(w as i16);
        i += 1;
    }
    assert(wide(d@) =~= changes(c@, previous@));
    d
}

impl Members {
    /// Lets a plane join.
    fn join(&mut self, raw: &[u8], s: &Segment)
        requires
            crate::scanning::proper(*s, raw@.len() as int),
            raw.len() <= crate::mov_exact::MAX_RAW,
        ensures
            final(self)@ == joined(raw@, old(self)@, *s),
            final(self).planes@.len() <= old(self).planes@.len() + 1,
            final(self).direct@.len() <= old(self).direct@.len() + s.blocks * 128,
            final(self).temporal@.len() <= old(self).temporal@.len() + s.blocks * 128,
            final(self).verbatim@.len() <= old(self).verbatim@.len() + s.len,
    {
        let bytes = vstd::slice::slice_subrange(raw, s.offset, s.offset + s.len);
        let c = match unpack_plane(bytes, s.blocks) {
            Err(_) => {
                return ;
            },
            Ok(c) => c,
        };
        let good: bool = match pack_plane(&c, s.blocks, s.len) {
            Err(_) => false,
            Ok(again) => same(&again, bytes),
        };
        if !good || self.previous.len() != c.len() {
            return ;
        }
        let ghost before = self@;
        let d = differences(&c, &self.previous);
        put_halves(&c, &mut self.direct);
        put_halves(&d, &mut self.temporal);
        self.verbatim.extend_from_slice(bytes);
        self.planes.push(s.clone());
        self.previous = c;
        proof {
            let after = joined(raw@, before, *s);
            assert(self.verbatim@ =~= after.verbatim);
            assert(self@.planes =~= after.planes);
        }
    }
}

/// Where the planes of the same kind as plane `begin` end, and how much room they take.
pub fn measure(v: &Vec<Segment>, begin: usize) -> (r: (usize, u64))
    requires
        begin < v@.len(),
        v@.len() <= 1_000_000,
        forall|i: int| 0 <= i < v@.len() ==> (#[trigger] v@[i]).blocks <= 32,
    ensures
        r.0 == kind_end(v@, begin as int, begin + 1),
        begin < r.0 <= v@.len(),
        r.1 == room(v@, begin as int, r.0 as int),
{
    let mut end: usize = begin + 1;
    let ghost whole = kind_end(v@, begin as int, begin + 1);
    while end < v.len() && same_key(v[end].key, v[begin].key)
        invariant
            begin < end <= v@.len(),
            whole == kind_end(v@, begin as int, end as int),
        decreases v.len() - end,
    {
        end += 1;
    }
    assert(whole == end);
    let mut size: u64 = 0;
    let mut i: usize = begin;
    while i < end
        invariant
            begin <= i <= end <= v@.len(),
            v@.len() <= 1_000_000,
            forall|i: int| 0 <= i < v@.len() ==> (#[trigger] v@[i]).blocks <= 32,
            size + room(v@, i as int, end as int) == room(v@, begin as int, end as int),
            size <= (i - begin) * 4096,
        decreases end - i,
    {
        size = size + v[i].blocks as u64 * 128;
        i += 1;
    }
    (end, size)
}

/// Collects the planes of the same kind as plane `begin`, which end at `end`.
pub fn collect(raw: &[u8], v: &Vec<Segment>, begin: usize, end: usize) -> (g: Members)
    requires
        begin < end <= v@.len(),
        end == kind_end(v@, begin as int, begin + 1),
        raw.len() <= crate::mov_exact::MAX_RAW,
        forall|i: int|
            0 <= i < v@.len() ==> crate::scanning::proper(#[trigger] v@[i], raw@.len() as int),
        room(v@, begin as int, end as int) <= 33554432,
    ensures
        g@ == group_at(raw@, v@, begin as int),
        g.planes@.len() <= end - begin,
        g.direct@.len() <= 33554432,
        g.verbatim@.len() <= (end - begin) * 65535,
{
    let mut g = Members {
        planes: Vec::new(),
        verbatim: Vec::new(),
        direct: Vec::new(),
        temporal: Vec::new(),
        previous: vec![0i16; v[begin].blocks * 64],
    };
    let ghost whole = group_at(raw@, v@, begin as int);
    let mut i: usize = begin;
    proof {
        let first = Group {
            planes: Seq::empty(),
            verbatim: Seq::empty(),
            direct: Seq::empty(),
            temporal: Seq::empty(),
            previous: Seq::new((v@[begin as int].blocks * 64) as nat, |i: int| 0i16),
        };
        assert(g.planes@ =~= first.planes);
        assert(g.verbatim@ =~= first.verbatim);
        assert(g.direct@ =~= first.direct);
        assert(g.temporal@ =~= first.temporal);
        assert(g.previous@ =~= first.previous);
        assert(g@ == first);
    }
    while i < end
        invariant
            begin <= i <= end <= v@.len(),
            begin < v@.len(),
            raw.len() <= crate::mov_exact::MAX_RAW,
            forall|i: int|
                0 <= i < v@.len() ==> crate::scanning::proper(#[trigger] v@[i], raw@.len() as int),
            room(v@, begin as int, end as int) <= 33554432,
            whole == group_at(raw@, v@, begin as int),
            whole == joined_from(raw@, g@, v@, i as int, end as int),
            g.planes@.len() <= i - begin,
            g.direct@.len() + room(v@, i as int, end as int) <= 33554432,
            g.verbatim@.len() <= (i - begin) * 65535,
        decreases end - i,
    {
        g.join(raw, &v[i]);
        i += 1;
    }
    g
}


/// The planes of a group are those at some places between `i` and `end`, in order.
pub open spec fn picked(part: Seq<Segment>, v: Seq<Segment>, at: Seq<int>, low: int, high: int) -> bool {
    &&& part.len() == at.len()
    &&& forall|k: int| 0 <= k < at.len() ==> low <= #[trigger] at[k] < high && part[k] == v[at[k]]
    &&& forall|j: int, k: int| 0 <= j < k < at.len() ==> #[trigger] at[j] < #[trigger] at[k]
}

/// The planes of a group come from its kind.
pub proof fn lemma_joined_from(raw: Seq<u8>, g: Group, v: Seq<Segment>, i: int, end: int, low: int, at: Seq<int>) -> (r:
    Seq<int>)
    requires
        low <= i <= end <= v.len(),
        picked(g.planes, v, at, low, i),
    ensures
        picked(joined_from(raw, g, v, i, end).planes, v, r, low, end),
    decreases end - i,
{
    if i >= end {
        at
    } else {
        let h = joined(raw, g, v[i]);
        if h.planes == g.planes {
            assert(picked(h.planes, v, at, low, i + 1));
            lemma_joined_from(raw, h, v, i + 1, end, low, at)
        } else {
            let more = at.push(i);
            assert(picked(h.planes, v, more, low, i + 1));
            lemma_joined_from(raw, h, v, i + 1, end, low, more)
        }
    }
}

/// Planes that lie one behind the other share no byte, in whatever order they are taken.
pub proof fn lemma_grouped_disjoint(v: Seq<Segment>, len: int, i: int, j: int)
    requires
        crate::scanning::in_line(v, 0, len),
        v.len() <= 1_000_000,
        0 <= i < v.len(),
        0 <= j < v.len(),
        i != j,
    ensures
        crate::mov_model::grouped(v).len() == v.len(),
        ({
            let g = crate::mov_model::grouped(v);
            crate::splice::disjoint(
                (g[i].offset as u64, g[i].len as u64),
                (g[j].offset as u64, g[j].len as u64),
            )
        }),
{
    let r = crate::mov_model::ranked(v);
    let t = crate::order::sorted(r);
    crate::order::law_sorted_keeps(r);
    assert(r.no_duplicates()) by {
        assert forall|a: int, b: int| 0 <= a < r.len() && 0 <= b < r.len() && a != b implies r[a] != r[b] by {
            assert(r[a].1 == a && r[b].1 == b);
        }
    }
    crate::order::law_sorted_distinct(r);
    assert(t.contains(t[i]) && t.contains(t[j]));
    crate::order::law_sorted_members(r, t[i]);
    crate::order::law_sorted_members(r, t[j]);
    let a = choose|a: int| 0 <= a < r.len() && r[a] == t[i];
    let b = choose|b: int| 0 <= b < r.len() && r[b] == t[j];
    assert(t[i] != t[j]);
    assert(a != b);
    assert(t[i].1 == a && t[j].1 == b);
    if a < b {
        assert(v[a].offset + v[a].len <= v[b].offset);
    } else {
        assert(v[b].offset + v[b].len <= v[a].offset);
    }
}

}
