//! Why a movie comes back from its planes as coefficients.

use crate::exact_groups::Group;
use crate::mov_exact::{Chosen, Descriptor, Scores};
use crate::scanning::Segment;
use vstd::prelude::*;

verus! {

/// The coefficients that plane number `k` is predicted from.
spec fn before_plane(raw: Seq<u8>, planes: Seq<Segment>, flags: Seq<u8>, k: int) -> Seq<i16> {
    if flags[k] % 2 == 1 {
        Seq::new((planes[k].blocks * 64) as nat, |i: int| 0i16)
    } else {
        crate::exact_groups::coefficients(raw, planes[k - 1])
    }
}

/// The bytes that are stored of plane number `k`.
spec fn stored_part(raw: Seq<u8>, planes: Seq<Segment>, flags: Seq<u8>, k: int) -> Seq<u8> {
    let c = crate::exact_groups::coefficients(raw, planes[k]);
    if flags[k] >= 2 {
        crate::exact_groups::halves(crate::exact_groups::wide(c))
    } else {
        crate::exact_groups::halves(
            crate::exact_groups::changes(c, before_plane(raw, planes, flags, k)),
        )
    }
}

/// The bytes that are stored of the first `k` planes.
spec fn stored_parts(raw: Seq<u8>, planes: Seq<Segment>, flags: Seq<u8>, k: int) -> Seq<u8>
    decreases k,
{
    if k <= 0 {
        Seq::empty()
    } else {
        stored_parts(raw, planes, flags, k - 1) + stored_part(raw, planes, flags, k - 1)
    }
}

/// How many bytes of the movie the first `k` planes take.
spec fn covered(planes: Seq<Segment>, k: int) -> int
    decreases k,
{
    if k <= 0 {
        0
    } else {
        covered(planes, k - 1) + planes[k - 1].len
    }
}

/// Whether plane number `k` can be read again.
spec fn sound_plane(raw: Seq<u8>, planes: Seq<Segment>, flags: Seq<u8>, k: int) -> bool {
    &&& flags[k] <= 3
    &&& (k == 0 ==> flags[k] % 2 == 1)
    &&& crate::mov_model::comes_back(raw, planes[k])
    &&& crate::exact_groups::coefficients(raw, planes[k]).len() == planes[k].blocks * 64
    &&& before_plane(raw, planes, flags, k).len() == planes[k].blocks * 64
}

spec fn sound(raw: Seq<u8>, planes: Seq<Segment>, flags: Seq<u8>, payload: Seq<u8>) -> bool {
    &&& flags.len() == planes.len()
    &&& payload == stored_parts(raw, planes, flags, planes.len() as int)
    &&& forall|k: int| 0 <= k < planes.len() ==> #[trigger] sound_plane(raw, planes, flags, k)
}

proof fn lemma_coefficients(raw: Seq<u8>, s: Segment)
    requires
        crate::mov_model::comes_back(raw, s),
    ensures
        crate::exact_groups::coefficients(raw, s).len() == s.blocks * 64,
        crate::plane::packed_plane(
            crate::exact_groups::coefficients(raw, s),
            s.blocks as int,
            s.len as int,
        ) == Ok::<Seq<u8>, Seq<char>>(crate::mov_model::bytes_at(raw, s)),
{
}

proof fn lemma_parts_alike(
    raw: Seq<u8>,
    a: Seq<Segment>,
    fa: Seq<u8>,
    b: Seq<Segment>,
    fb: Seq<u8>,
    k: int,
)
    requires
        0 <= k <= a.len(),
        k <= b.len(),
        k <= fa.len(),
        k <= fb.len(),
        forall|i: int| 0 <= i < k ==> #[trigger] a[i] == b[i],
        forall|i: int| 0 <= i < k ==> #[trigger] fa[i] == fb[i],
        k > 0 ==> fa[0] % 2 == 1,
    ensures
        stored_parts(raw, a, fa, k) == stored_parts(raw, b, fb, k),
    decreases k,
{
    if k > 0 {
        lemma_parts_alike(raw, a, fa, b, fb, k - 1);
        assert(a[k - 1] == b[k - 1]);
        assert(fa[k - 1] == fb[k - 1]);
        if k > 1 {
            assert(a[k - 2] == b[k - 2]);
        }
        assert(stored_part(raw, a, fa, k - 1) == stored_part(raw, b, fb, k - 1));
    }
}

/// What planes of one kind store can be read again.
spec fn sound_group(raw: Seq<u8>, g: Group, size: nat) -> bool {
    let n = g.planes.len();
    &&& sound(raw, g.planes, crate::mov_exact::flags_of(n, false), g.direct)
    &&& sound(raw, g.planes, crate::mov_exact::flags_of(n, true), g.temporal)
    &&& g.previous.len() == size
    &&& n == 0 ==> g.previous == Seq::new(size, |i: int| 0i16)
    &&& n > 0 ==> g.previous == crate::exact_groups::coefficients(raw, g.planes[n - 1])
    &&& g.verbatim.len() == covered(g.planes, n as int)
}

proof fn lemma_covered_alike(a: Seq<Segment>, b: Seq<Segment>, k: int)
    requires
        0 <= k <= a.len(),
        k <= b.len(),
        forall|i: int| 0 <= i < k ==> #[trigger] a[i] == b[i],
    ensures
        covered(a, k) == covered(b, k),
    decreases k,
{
    if k > 0 {
        lemma_covered_alike(a, b, k - 1);
        assert(a[k - 1] == b[k - 1]);
    }
}

proof fn lemma_flagged(raw: Seq<u8>, g: Group, s: Segment, temporal: bool)
    requires
        crate::mov_model::comes_back(raw, s),
        g.previous.len() == crate::exact_groups::coefficients(raw, s).len(),
        sound_group(raw, g, g.previous.len()),
    ensures
        ({
            let h = crate::exact_groups::joined(raw, g, s);
            sound(
                raw,
                h.planes,
                crate::mov_exact::flags_of(h.planes.len(), temporal),
                if temporal {
                    h.temporal
                } else {
                    h.direct
                },
            )
        }),
{
    lemma_coefficients(raw, s);
    let h = crate::exact_groups::joined(raw, g, s);
    let n = g.planes.len() as int;
    let fa = crate::mov_exact::flags_of(g.planes.len(), temporal);
    let fb = crate::mov_exact::flags_of(h.planes.len(), temporal);
    assert(h.planes == g.planes.push(s));
    assert forall|i: int| 0 <= i < n implies #[trigger] fa[i] == fb[i] by {}
    assert forall|i: int| 0 <= i < n implies #[trigger] g.planes[i] == h.planes[i] by {}
    lemma_parts_alike(raw, g.planes, fa, h.planes, fb, n);
    if n == 0 {
        assert(before_plane(raw, h.planes, fb, 0) =~= g.previous);
    } else {
        assert(before_plane(raw, h.planes, fb, n) == g.previous);
    }
    assert forall|k: int| 0 <= k < h.planes.len() implies #[trigger] sound_plane(raw, h.planes, fb, k) by {
        if k < n {
            assert(sound_plane(raw, g.planes, fa, k));
            assert(g.planes[k] == h.planes[k]);
            if k > 0 {
                assert(g.planes[k - 1] == h.planes[k - 1]);
            }
        }
    }
}

proof fn lemma_joined(raw: Seq<u8>, g: Group, s: Segment)
    requires
        sound_group(raw, g, g.previous.len()),
        crate::scanning::proper(s, raw.len() as int),
    ensures
        sound_group(raw, crate::exact_groups::joined(raw, g, s), g.previous.len()),
{
    let c = crate::exact_groups::coefficients(raw, s);
    if crate::mov_model::comes_back(raw, s) && g.previous.len() == c.len() {
        lemma_flagged(raw, g, s, false);
        lemma_flagged(raw, g, s, true);
        lemma_coefficients(raw, s);
        let h = crate::exact_groups::joined(raw, g, s);
        lemma_covered_alike(g.planes, h.planes, g.planes.len() as int);
    }
}

proof fn lemma_joined_from(raw: Seq<u8>, g: Group, v: Seq<Segment>, i: int, end: int)
    requires
        0 <= i <= end <= v.len(),
        sound_group(raw, g, g.previous.len()),
        forall|k: int| 0 <= k < v.len() ==> crate::scanning::proper(#[trigger] v[k], raw.len() as int),
    ensures
        sound_group(raw, crate::exact_groups::joined_from(raw, g, v, i, end), g.previous.len()),
    decreases end - i,
{
    if i < end {
        lemma_joined(raw, g, v[i]);
        lemma_joined_from(raw, crate::exact_groups::joined(raw, g, v[i]), v, i + 1, end);
    }
}

proof fn lemma_appended(
    raw: Seq<u8>,
    a: Seq<Segment>,
    fa: Seq<u8>,
    b: Seq<Segment>,
    fb: Seq<u8>,
    k: int,
)
    requires
        fa.len() == a.len(),
        fb.len() == b.len(),
        0 <= k <= b.len(),
        b.len() > 0 ==> fb[0] % 2 == 1,
        a.len() > 0 ==> fa[0] % 2 == 1,
    ensures
        stored_parts(raw, a + b, fa + fb, a.len() + k) == stored_parts(raw, a, fa, a.len() as int)
            + stored_parts(raw, b, fb, k),
        covered(a + b, a.len() + k) == covered(a, a.len() as int) + covered(b, k),
    decreases k,
{
    if k == 0 {
        assert forall|i: int| 0 <= i < a.len() implies #[trigger] (a + b)[i] == a[i] by {}
        assert forall|i: int| 0 <= i < a.len() implies #[trigger] (fa + fb)[i] == fa[i] by {}
        lemma_parts_alike(raw, a + b, fa + fb, a, fa, a.len() as int);
        lemma_covered_alike(a + b, a, a.len() as int);
        assert(stored_parts(raw, b, fb, 0) =~= Seq::empty());
        assert(stored_parts(raw, a, fa, a.len() as int) + Seq::<u8>::empty() =~= stored_parts(
            raw,
            a,
            fa,
            a.len() as int,
        ));
    } else {
        lemma_appended(raw, a, fa, b, fb, k - 1);
        let n = a.len() as int;
        assert((a + b)[n + k - 1] == b[k - 1]);
        assert((fa + fb)[n + k - 1] == fb[k - 1]);
        if k > 1 {
            assert((a + b)[n + k - 2] == b[k - 2]);
        }
        assert(stored_part(raw, a + b, fa + fb, n + k - 1) == stored_part(raw, b, fb, k - 1));
        assert(stored_parts(raw, a, fa, n) + stored_parts(raw, b, fb, k) =~= (stored_parts(raw, a, fa, n)
            + stored_parts(raw, b, fb, k - 1)) + stored_part(raw, b, fb, k - 1));
    }
}

/// Whether what was chosen of a movie can be read again, and has the length that it was said to have.
spec fn sound_choice(raw: Seq<u8>, t: Chosen) -> bool {
    &&& sound(raw, t.planes, t.flags, t.payload)
    &&& t.projected == raw.len() + 20 + t.planes.len() * 16 + t.payload.len() - covered(
        t.planes,
        t.planes.len() as int,
    )
    &&& t.planes.len() > 0 ==> t.projected <= crate::mov_exact::MAX_EXPANDED
}

proof fn lemma_part_len(raw: Seq<u8>, planes: Seq<Segment>, flags: Seq<u8>, k: int)
    requires
        sound_plane(raw, planes, flags, k),
    ensures
        stored_part(raw, planes, flags, k).len() == planes[k].blocks * 128,
{
}

/// The two ways of storing a group take the same room.
proof fn lemma_same_room(raw: Seq<u8>, g: Group, k: int)
    requires
        sound_group(raw, g, g.previous.len()),
        0 <= k <= g.planes.len(),
    ensures
        stored_parts(raw, g.planes, crate::mov_exact::flags_of(g.planes.len(), false), k).len()
            == stored_parts(raw, g.planes, crate::mov_exact::flags_of(g.planes.len(), true), k).len(),
    decreases k,
{
    if k > 0 {
        let n = g.planes.len();
        lemma_same_room(raw, g, k - 1);
        assert(sound_plane(raw, g.planes, crate::mov_exact::flags_of(n, false), k - 1));
        assert(sound_plane(raw, g.planes, crate::mov_exact::flags_of(n, true), k - 1));
        lemma_part_len(raw, g.planes, crate::mov_exact::flags_of(n, false), k - 1);
        lemma_part_len(raw, g.planes, crate::mov_exact::flags_of(n, true), k - 1);
    }
}

proof fn lemma_weighed(raw: Seq<u8>, t: Chosen, g: Group, s: Scores)
    requires
        sound_choice(raw, t),
        sound_group(raw, g, g.previous.len()),
        g.planes.len() > 0,
        crate::mov_exact::weighed(t, g, s) is Ok,
    ensures
        sound_choice(raw, crate::mov_exact::weighed(t, g, s)->Ok_0),
{
    let next = crate::mov_exact::weighed(t, g, s)->Ok_0;
    let n = g.planes.len();
    let changing = (s.temporal->Ok_0).len() < (s.direct->Ok_0).len();
    let fb = crate::mov_exact::flags_of(n, changing);
    let part = if changing {
        g.temporal
    } else {
        g.direct
    };
    lemma_same_room(raw, g, n as int);
    assert(sound(raw, g.planes, fb, part));
    if next != t {
        assert(next.planes == t.planes + g.planes);
        assert(next.flags == t.flags + fb);
        assert(next.payload == t.payload + part);
        assert(sound_plane(raw, g.planes, fb, 0));
        if t.planes.len() > 0 {
            assert(sound_plane(raw, t.planes, t.flags, 0));
        }
        lemma_appended(raw, t.planes, t.flags, g.planes, fb, n as int);
        let m = t.planes.len() as int;
        assert forall|k: int| 0 <= k < next.planes.len() implies #[trigger] sound_plane(
            raw,
            next.planes,
            next.flags,
            k,
        ) by {
            if k < m {
                assert(sound_plane(raw, t.planes, t.flags, k));
                if k > 0 {
                    assert(next.planes[k - 1] == t.planes[k - 1]);
                }
            } else {
                assert(sound_plane(raw, g.planes, fb, k - m));
                assert(next.planes[k] == g.planes[k - m]);
                assert(next.flags[k] == fb[k - m]);
                if k > m {
                    assert(next.planes[k - 1] == g.planes[k - m - 1]);
                }
            }
        }
    }
}

/// Whether planes are some of those of a movie, none of them twice.
spec fn taken(planes: Seq<Segment>, v: Seq<Segment>, begin: int) -> bool {
    exists|at: Seq<int>| #[trigger] crate::exact_groups::picked(planes, v, at, 0, begin)
}

proof fn lemma_weighed_from(raw: Seq<u8>, v: Seq<Segment>, begin: int, t: Chosen)
    requires
        0 <= begin <= v.len(),
        forall|k: int| 0 <= k < v.len() ==> crate::scanning::proper(#[trigger] v[k], raw.len() as int),
        sound_choice(raw, t),
        taken(t.planes, v, begin),
        crate::mov_exact::weighed_from(raw, v, begin, t) is Ok,
    ensures
        sound_choice(raw, crate::mov_exact::weighed_from(raw, v, begin, t)->Ok_0),
        taken(
            crate::mov_exact::weighed_from(raw, v, begin, t)->Ok_0.planes,
            v,
            v.len() as int,
        ),
    decreases v.len() - begin,
{
    let at = choose|at: Seq<int>| #[trigger] crate::exact_groups::picked(t.planes, v, at, 0, begin);
    let end = crate::exact_groups::kind_end(v, begin, begin + 1);
    if begin >= v.len() || end <= begin || end > v.len() {
        assert(crate::exact_groups::picked(t.planes, v, at, 0, v.len() as int));
    } else {
        assert(crate::exact_groups::picked(t.planes, v, at, 0, end));
        let g = crate::exact_groups::group_at(raw, v, begin);
        if crate::exact_groups::room(v, begin, end) > 33554432 || g.planes.len() == 0 {
            lemma_weighed_from(raw, v, end, t);
        } else {
            let first = Group {
                planes: Seq::empty(),
                verbatim: Seq::empty(),
                direct: Seq::empty(),
                temporal: Seq::empty(),
                previous: Seq::new((v[begin].blocks * 64) as nat, |i: int| 0i16),
            };
            assert(stored_parts(raw, first.planes, crate::mov_exact::flags_of(0, false), 0)
                =~= first.direct);
            assert(stored_parts(raw, first.planes, crate::mov_exact::flags_of(0, true), 0)
                =~= first.temporal);
            assert(sound_group(raw, first, first.previous.len()));
            lemma_joined_from(raw, first, v, begin, end);
            let more = crate::exact_groups::lemma_joined_from(raw, first, v, begin, end, begin, Seq::empty());
            lemma_weighed(raw, t, g, crate::mov_exact::scores_of(g));
            let next = crate::mov_exact::weighed(t, g, crate::mov_exact::scores_of(g))->Ok_0;
            if next.planes != t.planes {
                assert(next.planes == t.planes + g.planes);
                assert(crate::exact_groups::picked(next.planes, v, at + more, 0, end));
            }
            lemma_weighed_from(raw, v, end, next);
        }
    }
}

/// The descriptor of plane number `k`.
spec fn described(planes: Seq<Segment>, flags: Seq<u8>, k: int) -> Descriptor {
    Descriptor {
        offset: planes[k].offset,
        len: planes[k].len,
        blocks: planes[k].blocks,
        reset: flags[k],
    }
}

spec fn all_described(planes: Seq<Segment>, flags: Seq<u8>) -> Seq<Descriptor> {
    Seq::new(planes.len(), |k: int| described(planes, flags, k))
}

proof fn lemma_descriptor_bytes(planes: Seq<Segment>, flags: Seq<u8>, n: int, k: int)
    requires
        0 <= k < n <= planes.len(),
    ensures
        crate::mov_exact::descriptors_bytes(planes.take(n), flags).len() == 16 * n,
        crate::mov_exact::descriptors_bytes(planes.take(n), flags).subrange(16 * k, 16 * k + 16)
            == crate::mov_exact::descriptor_bytes(planes[k], flags[k]),
    decreases n,
{
    let part = planes.take(n);
    assert(part.drop_last() =~= planes.take(n - 1));
    crate::wire::lemma_lengths(planes[n - 1].offset as int);
    crate::wire::lemma_lengths(planes[n - 1].len as int);
    let last = crate::mov_exact::descriptor_bytes(planes[n - 1], flags[n - 1]);
    let before = crate::mov_exact::descriptors_bytes(planes.take(n - 1), flags);
    let all = crate::mov_exact::descriptors_bytes(part, flags);
    if n > 1 {
        lemma_descriptor_bytes(planes, flags, n - 1, if k < n - 1 { k } else { 0 });
    } else {
        assert(planes.take(0) =~= Seq::empty());
    }
    assert(all == before + last);
    if k == n - 1 {
        assert(all.subrange(16 * k, 16 * k + 16) =~= last);
    } else {
        assert(all.subrange(16 * k, 16 * k + 16) =~= before.subrange(16 * k, 16 * k + 16));
    }
}

proof fn lemma_descriptor_at(raw: Seq<u8>, t: Chosen, b: Seq<u8>, k: int)
    requires
        b == crate::mov_exact::record(raw, t),
        0 <= k < t.planes.len(),
        sound_plane(raw, t.planes, t.flags, k),
        crate::scanning::proper(t.planes[k], raw.len() as int),
        raw.len() <= crate::mov_exact::MAX_RAW,
    ensures
        crate::mov_exact::descriptor_at(b, k, raw.len() as int) == Ok::<Descriptor, Seq<char>>(
            described(t.planes, t.flags, k),
        ),
{
    let n = t.planes.len() as int;
    let s = t.planes[k];
    let at = 20 + k * 16;
    assert(t.planes.take(n) =~= t.planes);
    lemma_descriptor_bytes(t.planes, t.flags, n, k);
    crate::wire::lemma_lengths(raw.len() as int);
    crate::wire::lemma_lengths(n);
    crate::wire::lemma_lengths(s.offset as int);
    crate::wire::lemma_lengths(s.len as int);
    let d = crate::mov_exact::descriptor_bytes(s, t.flags[k]);
    let all = crate::mov_exact::descriptors_bytes(t.planes, t.flags);
    assert(all.subrange(16 * k, 16 * k + 16) == d);
    assert forall|i: int| 0 <= i < 16 implies #[trigger] b[at + i] == d[i] by {
        assert(all[16 * k + i] == d[i]);
    }
    assert(b.subrange(at, at + 8) =~= crate::wire::le_bytes(s.offset as int, 8)) by {
        assert forall|i: int| 0 <= i < 8 implies b.subrange(at, at + 8)[i] == crate::wire::le_bytes(
            s.offset as int,
            8,
        )[i] by {
            assert(b[at + i] == d[i]);
        }
    }
    assert(b.subrange(at + 8, at + 12) =~= crate::wire::le_bytes(s.len as int, 4)) by {
        assert forall|i: int| 0 <= i < 4 implies b.subrange(at + 8, at + 12)[i] == crate::wire::le_bytes(
            s.len as int,
            4,
        )[i] by {
            assert(b[at + (8 + i)] == d[8 + i]);
        }
    }
    crate::wire::lemma_le64_at(b, at, s.offset as int);
    crate::wire::lemma_le32_at(b, at + 8, s.len as int);
    assert(b[at + 12] == d[12] && b[at + 13] == d[13] && b[at + 14] == d[14] && b[at + 15] == d[15]);
}

/// What holds of a choice that was made of the planes of a movie.
spec fn ready(raw: Seq<u8>, t: Chosen) -> bool {
    &&& sound_choice(raw, t)
    &&& 0 < t.planes.len() <= crate::scanning::MAX_SEGMENTS
    &&& raw.len() <= crate::mov_exact::MAX_RAW
    &&& forall|k: int|
        0 <= k < t.planes.len() ==> crate::scanning::proper(#[trigger] t.planes[k], raw.len() as int)
    &&& forall|i: int, j: int|
        0 <= i < t.planes.len() && 0 <= j < t.planes.len() && i != j ==> crate::splice::disjoint(
            #[trigger] crate::mov_model::places(t.planes)[i],
            #[trigger] crate::mov_model::places(t.planes)[j],
        )
}

spec fn ranges(t: Chosen) -> Seq<(u64, u64)> {
    crate::order::sorted(crate::mov_model::places(t.planes))
}

proof fn lemma_covered(planes: Seq<Segment>, k: int)
    requires
        0 <= k <= planes.len(),
    ensures
        covered(planes, planes.len() as int) == covered(planes, k) + crate::splice::occupied(
            crate::mov_model::places(planes),
            k,
        ),
        covered(planes, k) >= 0,
    decreases planes.len() - k,
{
    if k < planes.len() {
        lemma_covered(planes, k + 1);
    }
    lemma_covered_grows(planes, k);
}

proof fn lemma_covered_grows(planes: Seq<Segment>, k: int)
    requires
        0 <= k <= planes.len(),
    ensures
        0 <= covered(planes, k),
    decreases k,
{
    if k > 0 {
        lemma_covered_grows(planes, k - 1);
    }
}

/// The planes lie apart, within the movie, and the record has the length that was said.
proof fn lemma_ranges(raw: Seq<u8>, t: Chosen)
    requires
        ready(raw, t),
    ensures
        crate::splice::apart(ranges(t), 0, 0),
        crate::splice::within(ranges(t), raw.len() as int),
        crate::splice::gaps(raw, ranges(t), 0, 0).len() == raw.len() - covered(
            t.planes,
            t.planes.len() as int,
        ),
{
    let p = crate::mov_model::places(t.planes);
    let r = ranges(t);
    assert forall|i: int| 0 <= i < p.len() implies (#[trigger] p[i]).1 >= 1 && p[i].0 + p[i].1
        <= raw.len() by {
        assert(crate::scanning::proper(t.planes[i], raw.len() as int));
    }
    crate::splice::law_sorted_apart(p);
    crate::order::law_sorted_keeps(p);
    assert forall|i: int| 0 <= i < r.len() implies #[trigger] r[i].0 + r[i].1 <= raw.len() by {
        assert(r.contains(r[i]));
        crate::order::law_sorted_members(p, r[i]);
        let j = choose|j: int| 0 <= j < p.len() && p[j] == r[i];
        assert(p[j].0 + p[j].1 <= raw.len());
    }
    crate::splice::lemma_same_occupied(p, r);
    crate::splice::lemma_gaps_len(raw, r, 0, 0);
    lemma_covered(t.planes, 0);
}

proof fn lemma_parts_len(raw: Seq<u8>, t: Chosen, k: int)
    requires
        sound(raw, t.planes, t.flags, t.payload),
        0 <= k <= t.planes.len(),
    ensures
        stored_parts(raw, t.planes, t.flags, k).len() + crate::mov_exact::stored_size(
            all_described(t.planes, t.flags),
            k,
        ) == t.payload.len(),
        stored_parts(raw, t.planes, t.flags, k) == t.payload.take(
            stored_parts(raw, t.planes, t.flags, k).len() as int,
        ),
        stored_parts(raw, t.planes, t.flags, k).len() <= t.payload.len(),
        crate::mov_exact::stored_size(all_described(t.planes, t.flags), k) >= 0,
    decreases t.planes.len() - k,
{
    let a = stored_parts(raw, t.planes, t.flags, k);
    if k < t.planes.len() {
        lemma_parts_len(raw, t, k + 1);
        assert(sound_plane(raw, t.planes, t.flags, k));
        lemma_part_len(raw, t.planes, t.flags, k);
        let b = stored_parts(raw, t.planes, t.flags, k + 1);
        assert(b == a + stored_part(raw, t.planes, t.flags, k));
        assert(a =~= b.take(a.len() as int));
        assert(t.payload.take(a.len() as int) =~= t.payload.take(b.len() as int).take(a.len() as int));
    } else {
        assert(t.payload.take(a.len() as int) =~= t.payload);
    }
}

#[verifier::rlimit(60)]
#[verifier::spinoff_prover]
proof fn lemma_descriptors(raw: Seq<u8>, t: Chosen, b: Seq<u8>, k: int)
    requires
        ready(raw, t),
        b == crate::mov_exact::record(raw, t),
        0 <= k <= t.planes.len(),
        b.len() == t.projected,
    ensures
        crate::mov_exact::descriptors_from(
            b,
            k,
            t.planes.len() as int,
            raw.len() as int,
            20 + t.planes.len() as int * 16 + stored_parts(raw, t.planes, t.flags, k).len(),
            covered(t.planes, k),
        ) == Ok::<Seq<Descriptor>, Seq<char>>(all_described(t.planes, t.flags).skip(k)),
    decreases t.planes.len() - k,
{
    let n = t.planes.len() as int;
    let all = all_described(t.planes, t.flags);
    lemma_parts_len(raw, t, k);
    lemma_covered(t.planes, k);
    lemma_ranges(raw, t);
    if k < n {
        lemma_parts_len(raw, t, k + 1);
        lemma_covered(t.planes, k + 1);
        crate::splice::lemma_occupied(crate::mov_model::places(t.planes), k + 1);
        assert(sound_plane(raw, t.planes, t.flags, k));
        lemma_descriptor_at(raw, t, b, k);
        lemma_part_len(raw, t.planes, t.flags, k);
        lemma_descriptors(raw, t, b, k + 1);
        assert(seq![all[k]] + all.skip(k + 1) =~= all.skip(k));
    } else {
        assert(all.skip(k) =~= Seq::empty());
    }
}

proof fn lemma_halves(b: Seq<u8>, cursor: int, v: Seq<int>, i: int)
    requires
        0 <= cursor,
        cursor + 2 * v.len() <= b.len(),
        b.subrange(cursor, cursor + 2 * v.len()) == crate::exact_groups::halves(v),
        0 <= i < v.len(),
        -32768 <= v[i] <= 32767,
    ensures
        crate::plane::unzig(b[cursor + i] + b[cursor + v.len() + i] * 256) == v[i],
{
    let n = v.len() as int;
    let h = crate::exact_groups::halves(v);
    let s = b.subrange(cursor, cursor + 2 * n);
    assert(s[i] == h[i] && s[n + i] == h[n + i]);
    assert(b[cursor + i] == s[i] && b[cursor + n + i] == s[n + i]);
}

/// What is stored of a plane gives its coefficients back.
proof fn lemma_stored(raw: Seq<u8>, t: Chosen, b: Seq<u8>, k: int, cursor: int)
    requires
        0 <= k < t.planes.len(),
        sound_plane(raw, t.planes, t.flags, k),
        0 <= cursor,
        cursor + t.planes[k].blocks * 128 <= b.len(),
        b.subrange(cursor, cursor + t.planes[k].blocks * 128) == stored_part(raw, t.planes, t.flags, k),
    ensures
        crate::mov_exact::stored_at(
            b,
            cursor,
            t.planes[k].blocks * 64,
            before_plane(raw, t.planes, t.flags, k),
            t.flags[k] >= 2,
        ) == crate::exact_groups::coefficients(raw, t.planes[k]),
{
    let n = t.planes[k].blocks * 64;
    let p = before_plane(raw, t.planes, t.flags, k);
    let c = crate::exact_groups::coefficients(raw, t.planes[k]);
    let direct = t.flags[k] >= 2;
    let v = if direct {
        crate::exact_groups::wide(c)
    } else {
        crate::exact_groups::changes(c, p)
    };
    assert(b.subrange(cursor, cursor + 2 * n) == crate::exact_groups::halves(v));
    let s = crate::mov_exact::stored_at(b, cursor, n, p, direct);
    assert forall|i: int| 0 <= i < n implies #[trigger] s[i] == c[i] by {
        lemma_halves(b, cursor, v, i);
    }
    assert(s =~= c);
}

/// Whether `out` holds the bytes of the first `k` planes.
spec fn holds(out: Seq<u8>, raw: Seq<u8>, planes: Seq<Segment>, k: int) -> bool {
    &&& out.len() == raw.len()
    &&& forall|j: int|
        0 <= j < k ==> #[trigger] crate::mov_model::bytes_at(out, planes[j])
            == crate::mov_model::bytes_at(raw, planes[j])
}

proof fn lemma_put(raw: Seq<u8>, t: Chosen, out: Seq<u8>, k: int)
    requires
        ready(raw, t),
        0 <= k < t.planes.len(),
        holds(out, raw, t.planes, k),
    ensures
        holds(
            crate::wire::overwritten(
                out,
                t.planes[k].offset as int,
                crate::mov_model::bytes_at(raw, t.planes[k]),
            ),
            raw,
            t.planes,
            k + 1,
        ),
{
    let s = t.planes[k];
    let bytes = crate::mov_model::bytes_at(raw, s);
    let next = crate::wire::overwritten(out, s.offset as int, bytes);
    assert(crate::scanning::proper(s, raw.len() as int));
    assert forall|j: int| 0 <= j < k + 1 implies #[trigger] crate::mov_model::bytes_at(next, t.planes[j])
        == crate::mov_model::bytes_at(raw, t.planes[j]) by {
        let other = t.planes[j];
        assert(crate::scanning::proper(other, raw.len() as int));
        if j < k {
            let p = crate::mov_model::places(t.planes);
            assert(crate::splice::disjoint(p[j], p[k]));
            assert(crate::mov_model::bytes_at(out, other) == crate::mov_model::bytes_at(raw, other));
            assert(crate::mov_model::bytes_at(next, other) =~= crate::mov_model::bytes_at(out, other));
        } else {
            assert(crate::mov_model::bytes_at(next, other) =~= bytes);
        }
    }
}

/// What is stored of plane number `k` lies behind what is stored of those before.
proof fn lemma_part_at(raw: Seq<u8>, t: Chosen, k: int)
    requires
        ready(raw, t),
        0 <= k < t.planes.len(),
    ensures
        ({
            let b = crate::mov_exact::record(raw, t);
            let cursor = 20 + t.planes.len() as int * 16 + stored_parts(raw, t.planes, t.flags, k).len();
            &&& cursor + t.planes[k].blocks * 128 <= b.len()
            &&& b.subrange(cursor, cursor + t.planes[k].blocks * 128) == stored_part(
                raw,
                t.planes,
                t.flags,
                k,
            )
            &&& stored_parts(raw, t.planes, t.flags, k + 1).len() == stored_parts(
                raw,
                t.planes,
                t.flags,
                k,
            ).len() + t.planes[k].blocks * 128
        }),
{
    let b = crate::mov_exact::record(raw, t);
    let n = t.planes.len() as int;
    let a = stored_parts(raw, t.planes, t.flags, k);
    let cursor = 20 + n * 16 + a.len();
    let part = stored_part(raw, t.planes, t.flags, k);
    assert(sound_plane(raw, t.planes, t.flags, k));
    lemma_part_len(raw, t.planes, t.flags, k);
    lemma_parts_len(raw, t, k + 1);
    lemma_head(raw, t);
    lemma_ranges(raw, t);
    let whole = stored_parts(raw, t.planes, t.flags, k + 1);
    assert(whole == a + part);
    let got = b.subrange(cursor, cursor + t.planes[k].blocks * 128);
    assert forall|i: int| 0 <= i < part.len() implies #[trigger] got[i] == part[i] by {
        assert(b[20 + n * 16 + (a.len() + i)] == t.payload[a.len() + i]);
        assert(t.payload.take(whole.len() as int)[a.len() + i] == whole[a.len() + i]);
    }
    assert(got =~= part);
}

proof fn lemma_planes(raw: Seq<u8>, t: Chosen, b: Seq<u8>, k: int, out: Seq<u8>)
    requires
        ready(raw, t),
        b == crate::mov_exact::record(raw, t),
        0 <= k <= t.planes.len(),
        holds(out, raw, t.planes, k),
    ensures
        ({
            let x = crate::mov_exact::planes_from(
                b,
                all_described(t.planes, t.flags),
                k,
                20 + t.planes.len() as int * 16 + stored_parts(raw, t.planes, t.flags, k).len(),
                if k == 0 {
                    Seq::empty()
                } else {
                    crate::exact_groups::coefficients(raw, t.planes[k - 1])
                },
                out,
            );
            x is Ok && holds(x->Ok_0, raw, t.planes, t.planes.len() as int)
        }),
    decreases t.planes.len() - k,
{
    if k < t.planes.len() {
        let n = t.planes.len() as int;
        let s = t.planes[k];
        let cursor = 20 + n * 16 + stored_parts(raw, t.planes, t.flags, k).len();
        assert(sound_plane(raw, t.planes, t.flags, k));
        lemma_part_at(raw, t, k);
        lemma_stored(raw, t, b, k, cursor);
        lemma_coefficients(raw, s);
        lemma_put(raw, t, out, k);
        let next = crate::wire::overwritten(
            out,
            s.offset as int,
            crate::mov_model::bytes_at(raw, s),
        );
        lemma_planes(raw, t, b, k + 1, next);
        let ds = all_described(t.planes, t.flags);
        assert(ds[k] == described(t.planes, t.flags, k));
    }
}

/// Where the parts of a record lie.
proof fn lemma_head(raw: Seq<u8>, t: Chosen)
    requires
        ready(raw, t),
    ensures
        ({
            let b = crate::mov_exact::record(raw, t);
            let n = t.planes.len() as int;
            &&& b.len() == t.projected
            &&& b.subrange(0, 8) == crate::mov_exact::MAGIC@
            &&& crate::wire::le64(b, 8) == raw.len()
            &&& crate::wire::le32(b, 16) == n
            &&& forall|i: int| 0 <= i < t.payload.len() ==> #[trigger] b[20 + n * 16 + i] == t.payload[i]
            &&& b.subrange(20 + n * 16 + t.payload.len(), b.len() as int) == crate::splice::gaps(
                raw,
                ranges(t),
                0,
                0,
            )
        }),
{
    let b = crate::mov_exact::record(raw, t);
    let n = t.planes.len() as int;
    assert(t.planes.take(n) =~= t.planes);
    lemma_descriptor_bytes(t.planes, t.flags, n, 0);
    crate::wire::lemma_lengths(raw.len() as int);
    crate::wire::lemma_lengths(n);
    lemma_ranges(raw, t);
    assert(b.subrange(0, 8) =~= crate::mov_exact::MAGIC@);
    assert(b.subrange(8, 16) =~= crate::wire::le_bytes(raw.len() as int, 8));
    assert(b.subrange(16, 20) =~= crate::wire::le_bytes(n, 4));
    crate::wire::lemma_le64_at(b, 8, raw.len() as int);
    crate::wire::lemma_le32_at(b, 16, n);
    assert(b.subrange(20 + n * 16 + t.payload.len(), b.len() as int) =~= crate::splice::gaps(
        raw,
        ranges(t),
        0,
        0,
    ));
}

#[verifier::spinoff_prover]
#[verifier::rlimit(60)]
proof fn lemma_restored(raw: Seq<u8>, t: Chosen)
    requires
        ready(raw, t),
    ensures
        crate::mov_exact::restored(crate::mov_exact::record(raw, t)) == Ok::<Seq<u8>, Seq<char>>(raw),
{
    let b = crate::mov_exact::record(raw, t);
    let n = t.planes.len() as int;
    let ds = all_described(t.planes, t.flags);
    let p = crate::mov_model::places(t.planes);
    lemma_head(raw, t);
    lemma_ranges(raw, t);
    lemma_parts_len(raw, t, 0);
    lemma_covered(t.planes, 0);
    lemma_covered(t.planes, n);
    lemma_descriptors(raw, t, b, 0);
    assert(stored_parts(raw, t.planes, t.flags, 0) =~= Seq::empty());
    assert(ds.skip(0) =~= ds);
    assert(ds.map_values(|d: Descriptor| crate::mov_exact::range_of(d)) =~= p);
    let blank = Seq::new(raw.len(), |i: int| 0u8);
    lemma_planes(raw, t, b, 0, blank);
    let coded = crate::mov_exact::planes_from(b, ds, 0, 20 + n * 16, Seq::empty(), blank)->Ok_0;
    let r = ranges(t);
    assert forall|j: int| 0 <= j < r.len() implies #[trigger] coded.subrange(
        r[j].0 as int,
        r[j].0 + r[j].1,
    ) == raw.subrange(r[j].0 as int, r[j].0 + r[j].1) by {
        assert(r.contains(r[j]));
        crate::order::law_sorted_members(p, r[j]);
        let k = choose|k: int| 0 <= k < p.len() && p[k] == r[j];
        assert(crate::mov_model::bytes_at(coded, t.planes[k]) == crate::mov_model::bytes_at(
            raw,
            t.planes[k],
        ));
    }
    crate::splice::law_fill_undoes_gaps(raw, coded, r, 0, 0);
    assert(raw.subrange(0, raw.len() as int) =~= raw);
}

/// A movie whose planes are stored as coefficients comes back.
pub proof fn law_decode_undoes_encode(raw: Seq<u8>)
    requires
        raw.len() <= usize::MAX,
    ensures
        crate::mov_exact::coded(raw) matches Ok(b) ==> crate::mov_exact::restored(b) == Ok::<
            Seq<u8>,
            Seq<char>,
        >(raw),
{
    if crate::mov_exact::coded(raw) is Ok {
        let found = crate::scanning::segments_of(raw)->Ok_0;
        let v = crate::mov_exact::kinds(raw);
        crate::scanning::law_segments_in_line(raw);
        let r = crate::mov_model::ranked(found);
        let sorted = crate::order::sorted(r);
        crate::order::law_sorted_keeps(r);
        assert forall|i: int| 0 <= i < v.len() implies crate::scanning::proper(
            #[trigger] v[i],
            raw.len() as int,
        ) by {
            assert(sorted.contains(sorted[i]));
            crate::order::law_sorted_members(r, sorted[i]);
            let a = choose|a: int| 0 <= a < r.len() && r[a] == sorted[i];
            assert(v[i] == found[a]);
        }
        let first = Chosen {
            planes: Seq::empty(),
            flags: Seq::empty(),
            payload: Seq::empty(),
            projected: raw.len() as int + 20,
        };
        assert(stored_parts(raw, first.planes, first.flags, 0) =~= first.payload);
        assert(crate::exact_groups::picked(first.planes, v, Seq::empty(), 0, 0));
        lemma_weighed_from(raw, v, 0, first);
        let t = crate::mov_exact::weighed_from(raw, v, 0, first)->Ok_0;
        let at = choose|at: Seq<int>| #[trigger]
            crate::exact_groups::picked(t.planes, v, at, 0, v.len() as int);
        lemma_few(at, v.len() as int);
        let p = crate::mov_model::places(t.planes);
        assert forall|i: int, j: int|
            0 <= i < t.planes.len() && 0 <= j < t.planes.len() && i != j implies crate::splice::disjoint(
            #[trigger] p[i],
            #[trigger] p[j],
        ) by {
            if i < j {
                assert(at[i] < at[j]);
            } else {
                assert(at[j] < at[i]);
            }
            crate::exact_groups::lemma_grouped_disjoint(found, raw.len() as int, at[i], at[j]);
        }
        assert forall|k: int| 0 <= k < t.planes.len() implies crate::scanning::proper(
            #[trigger] t.planes[k],
            raw.len() as int,
        ) by {
            assert(t.planes[k] == v[at[k]]);
        }
        lemma_restored(raw, t);
    }
}

/// Places that rise below `high` are not more than that.
proof fn lemma_few(at: Seq<int>, high: int)
    requires
        forall|k: int| 0 <= k < at.len() ==> 0 <= #[trigger] at[k] < high,
        forall|j: int, k: int| 0 <= j < k < at.len() ==> #[trigger] at[j] < #[trigger] at[k],
        0 <= high,
    ensures
        at.len() <= high,
    decreases at.len(),
{
    if at.len() > 0 {
        let rest = at.drop_last();
        assert forall|k: int| 0 <= k < rest.len() implies 0 <= #[trigger] rest[k] < at.last() by {
            assert(at[k] < at[at.len() - 1]);
        }
        lemma_few(rest, at.last());
    }
}

}
