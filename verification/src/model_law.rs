//! Why the two sides of the movie model learn the same.

use crate::model_coder::Blocks;
use crate::model_plane::Flags;
use crate::mov_model::{Descriptor, Learned, Progressed, Written};
use crate::scanning::Segment;
use crate::source_rc::{Reading, Writing};
use vstd::prelude::*;

verus! {

/// How many slots the model has.
spec fn slots() -> int {
    crate::model_coder::CONTEXTS as int
}

/// Whether the coefficients of a plane and those before it have the shape of one.
spec fn shaped(c: Seq<i16>, prev: Seq<i16>, blocks: int, channel: int) -> bool {
    &&& 1 <= blocks <= 32
    &&& c.len() == blocks * 64
    &&& prev.len() == blocks * 64
    &&& 0 <= channel <= 2
}

proof fn lemma_place_as_low(s: (Seq<u16>, Writing), place: int, n: int)
    ensures
        crate::model_plane::put_place(s, place, n) == crate::model_coder::put_low(s, 90016, place, n),
    decreases n,
{
    if n > 0 {
        lemma_place_as_low(
            crate::model_coder::put(s, 90016 + n - 1, place / crate::codeword::power2(n - 1) % 2 == 1),
            place,
            n - 1,
        );
    }
}

proof fn lemma_get_place_as_low(t: (Seq<u16>, Reading), place: int, n: int)
    ensures
        crate::model_plane::get_place(t, place, n) == crate::model_coder::get_low(t, 90016, place, n),
    decreases n,
{
    if n > 0 {
        match crate::model_coder::get(t, 90016 + n - 1) {
            Err(_) => {},
            Ok((b, u)) => {
                lemma_get_place_as_low(u, 2 * place + crate::model_coder::flag(b), n - 1);
            },
        }
    }
}

proof fn lemma_capacity()
    ensures
        crate::codeword::power2(19) == crate::model_coder::DICTIONARY_CAPACITY,
{
    reveal_with_fuel(crate::codeword::power2, 20);
}

/// How block number `block` is written, after those before it.
spec fn flagged(
    t: Flags<(Seq<u16>, Writing)>,
    c: Seq<i16>,
    prev: Seq<i16>,
    blocks: int,
    block: int,
    exists_before: bool,
    channel: int,
    dict: Option<Blocks>,
) -> Flags<(Seq<u16>, Writing)> {
    let v = crate::model_coder::block_of(c, blocks, block);
    let same = exists_before && v == crate::model_coder::block_of(prev, blocks, block);
    let s = crate::model_coder::put(
        t.s,
        crate::model_plane::copy_slot(channel, block, t.copied, prev),
        same,
    );
    if same {
        Flags { s, copied: t.copied.push(true), temporal: t.temporal.push(false) }
    } else {
        let place = match dict {
            None => None,
            Some(d) => d.find(v),
        };
        let s = if dict is Some {
            crate::model_coder::put(s, 90000 + channel, place is Some)
        } else {
            s
        };
        if place is Some {
            Flags {
                s: crate::model_plane::put_place(s, place->0, 19),
                copied: t.copied.push(true),
                temporal: t.temporal.push(false),
            }
        } else {
            let diff = crate::model_plane::prefers(c, prev, blocks, block);
            Flags {
                s: crate::model_coder::put(
                    s,
                    crate::model_plane::temporal_slot(channel, block, t.temporal, prev),
                    diff,
                ),
                copied: t.copied.push(false),
                temporal: t.temporal.push(diff),
            }
        }
    }
}

spec fn known_well(dict: Option<Blocks>) -> bool {
    dict matches Some(d) ==> d.wf()
}

proof fn lemma_flagged(
    t: Flags<(Seq<u16>, Writing)>,
    c: Seq<i16>,
    prev: Seq<i16>,
    blocks: int,
    block: int,
    exists_before: bool,
    channel: int,
    dict: Option<Blocks>,
    data: Seq<u8>,
)
    requires
        shaped(c, prev, blocks, channel),
        0 <= block < blocks,
        crate::model_coder::ready(t.s, slots()),
        t.copied.len() == block,
        t.temporal.len() == block,
    ensures
        ({
            let u = flagged(t, c, prev, blocks, block, exists_before, channel, dict);
            &&& crate::model_coder::ready(u.s, slots())
            &&& u.s.1.leads(data) ==> t.s.1.leads(data)
            &&& u.copied.len() == block + 1
            &&& u.temporal.len() == block + 1
        }),
{
    let v = crate::model_coder::block_of(c, blocks, block);
    let same = exists_before && v == crate::model_coder::block_of(prev, blocks, block);
    let i = crate::model_plane::copy_slot(channel, block, t.copied, prev);
    crate::model_coder::lemma_put(t.s, slots(), i, same, data);
    let s = crate::model_coder::put(t.s, i, same);
    if !same {
        let place = match dict {
            None => None,
            Some(d) => d.find(v),
        };
        let s1 = if dict is Some {
            crate::model_coder::put(s, 90000 + channel, place is Some)
        } else {
            s
        };
        if dict is Some {
            crate::model_coder::lemma_put(s, slots(), 90000 + channel, place is Some, data);
        }
        if place is Some {
            lemma_place_as_low(s1, place->0, 19);
            crate::model_coder::lemma_put_low(s1, slots(), 90016, place->0, 19, data);
        } else {
            crate::model_coder::lemma_put(
                s1,
                slots(),
                crate::model_plane::temporal_slot(channel, block, t.temporal, prev),
                crate::model_plane::prefers(c, prev, blocks, block),
                data,
            );
        }
    }
}

/// The coefficients that a reader has after block number `block`.
spec fn block_filled(cc: Seq<i16>, c: Seq<i16>, blocks: int, block: int, copied: bool) -> Seq<i16> {
    if copied {
        crate::model_plane::with_block(cc, blocks, block, crate::model_coder::block_of(c, blocks, block))
    } else {
        cc
    }
}

/// A reader finds out how a block was written.
proof fn lemma_flag_read(
    t: Flags<(Seq<u16>, Writing)>,
    c: Seq<i16>,
    prev: Seq<i16>,
    blocks: int,
    block: int,
    exists_before: bool,
    channel: int,
    dict: Option<Blocks>,
    r: Flags<(Seq<u16>, Reading)>,
    cc: Seq<i16>,
) -> (next: (Seq<u16>, Reading))
    requires
        shaped(c, prev, blocks, channel),
        known_well(dict),
        0 <= block < blocks,
        crate::model_coder::ready(t.s, slots()),
        t.copied.len() == block,
        t.temporal.len() == block,
        crate::model_coder::followed(t.s, r.s),
        r.copied == t.copied,
        r.temporal == t.temporal,
        flagged(t, c, prev, blocks, block, exists_before, channel, dict).s.1.leads(r.s.1.data),
    ensures
        ({
            let u = flagged(t, c, prev, blocks, block, exists_before, channel, dict);
            &&& crate::model_coder::followed(u.s, next)
            &&& next.1.data == r.s.1.data
            &&& crate::model_plane::get_flags(r, cc, prev, blocks, block, !exists_before, channel, dict)
                == crate::model_plane::get_flags(
                Flags { s: next, copied: u.copied, temporal: u.temporal },
                block_filled(cc, c, blocks, block, u.copied[block]),
                prev,
                blocks,
                block + 1,
                !exists_before,
                channel,
                dict,
            )
        }),
{
    let data = r.s.1.data;
    let v = crate::model_coder::block_of(c, blocks, block);
    let same = exists_before && v == crate::model_coder::block_of(prev, blocks, block);
    let i = crate::model_plane::copy_slot(channel, block, t.copied, prev);
    crate::model_coder::lemma_put(t.s, slots(), i, same, data);
    let s = crate::model_coder::put(t.s, i, same);
    if same {
        crate::model_coder::law_put_get(t.s, slots(), i, true, r.s);
        crate::model_coder::get(r.s, i)->Ok_0.1
    } else {
        let place = match dict {
            None => None,
            Some(d) => d.find(v),
        };
        let s1 = if dict is Some {
            crate::model_coder::put(s, 90000 + channel, place is Some)
        } else {
            s
        };
        if dict is Some {
            crate::model_coder::lemma_put(s, slots(), 90000 + channel, place is Some, data);
        }
        let j = crate::model_plane::temporal_slot(channel, block, t.temporal, prev);
        let diff = crate::model_plane::prefers(c, prev, blocks, block);
        if place is Some {
            lemma_place_as_low(s1, place->0, 19);
            crate::model_coder::lemma_put_low(s1, slots(), 90016, place->0, 19, data);
        } else {
            crate::model_coder::lemma_put(s1, slots(), j, diff, data);
        }
        crate::model_coder::law_put_get(t.s, slots(), i, false, r.s);
        let r1 = crate::model_coder::get(r.s, i)->Ok_0.1;
        let r2 = if dict is Some {
            crate::model_coder::law_put_get(s, slots(), 90000 + channel, place is Some, r1);
            crate::model_coder::get(r1, 90000 + channel)->Ok_0.1
        } else {
            r1
        };
        if place is Some {
            let k = place->0;
            lemma_capacity();
            lemma_get_place_as_low(r2, 0, 19);
            assert(k / crate::codeword::power2(19) == 0) by (nonlinear_arith)
                requires
                    0 <= k < crate::codeword::power2(19),
            ;
            crate::model_coder::lemma_low_round_trip(s1, slots(), 90016, k, 19, r2);
            crate::model_coder::get_low(r2, 90016, 0, 19)->Ok_0.1
        } else {
            crate::model_coder::law_put_get(s1, slots(), j, diff, r2);
            crate::model_coder::get(r2, j)->Ok_0.1
        }
    }
}

proof fn lemma_put_flags(
    t: Flags<(Seq<u16>, Writing)>,
    c: Seq<i16>,
    prev: Seq<i16>,
    blocks: int,
    block: int,
    exists_before: bool,
    channel: int,
    dict: Option<Blocks>,
    data: Seq<u8>,
)
    requires
        shaped(c, prev, blocks, channel),
        0 <= block <= blocks,
        crate::model_coder::ready(t.s, slots()),
        t.copied.len() == block,
        t.temporal.len() == block,
    ensures
        ({
            let u = crate::model_plane::put_flags(t, c, prev, blocks, block, exists_before, channel, dict);
            &&& crate::model_coder::ready(u.s, slots())
            &&& u.s.1.leads(data) ==> t.s.1.leads(data)
            &&& u.copied.len() == blocks
            &&& u.temporal.len() == blocks
            &&& u.copied.take(block) == t.copied
        }),
    decreases blocks - block,
{
    if block < blocks {
        lemma_flagged(t, c, prev, blocks, block, exists_before, channel, dict, data);
        let next = flagged(t, c, prev, blocks, block, exists_before, channel, dict);
        lemma_put_flags(next, c, prev, blocks, block + 1, exists_before, channel, dict, data);
        let u = crate::model_plane::put_flags(next, c, prev, blocks, block + 1, exists_before, channel, dict);
        assert(u.copied.take(block) =~= u.copied.take(block + 1).take(block));
        assert(next.copied.take(block) =~= t.copied);
    } else {
        assert(t.copied.take(block) =~= t.copied);
    }
}

/// Whether the blocks that are copies are in place.
spec fn copies_in(got: Seq<i16>, c: Seq<i16>, blocks: int, copied: Seq<bool>) -> bool {
    &&& got.len() == c.len()
    &&& forall|i: int| 0 <= i < c.len() && copied[i % blocks] ==> #[trigger] got[i] == c[i]
}

/// A reader finds out how the blocks of a plane were written, and has those that are copies.
proof fn lemma_flags_read(
    t: Flags<(Seq<u16>, Writing)>,
    c: Seq<i16>,
    prev: Seq<i16>,
    blocks: int,
    block: int,
    exists_before: bool,
    channel: int,
    dict: Option<Blocks>,
    r: Flags<(Seq<u16>, Reading)>,
    cc: Seq<i16>,
)
    requires
        shaped(c, prev, blocks, channel),
        known_well(dict),
        0 <= block <= blocks,
        crate::model_coder::ready(t.s, slots()),
        t.copied.len() == block,
        t.temporal.len() == block,
        crate::model_coder::followed(t.s, r.s),
        r.copied == t.copied,
        r.temporal == t.temporal,
        cc.len() == c.len(),
        forall|i: int| 0 <= i < c.len() && i % blocks < block && t.copied[i % blocks] ==> #[trigger] cc[i] == c[i],
        crate::model_plane::put_flags(t, c, prev, blocks, block, exists_before, channel, dict).s.1.leads(
            r.s.1.data,
        ),
    ensures
        ({
            let u = crate::model_plane::put_flags(t, c, prev, blocks, block, exists_before, channel, dict);
            let x = crate::model_plane::get_flags(
                r,
                cc,
                prev,
                blocks,
                block,
                !exists_before,
                channel,
                dict,
            );
            &&& x is Ok
            &&& crate::model_coder::followed(u.s, x->Ok_0.0.s)
            &&& x->Ok_0.0.s.1.data == r.s.1.data
            &&& x->Ok_0.0.copied == u.copied
            &&& x->Ok_0.0.temporal == u.temporal
            &&& copies_in(x->Ok_0.1, c, blocks, u.copied)
        }),
    decreases blocks - block,
{
    let data = r.s.1.data;
    if block < blocks {
        lemma_flagged(t, c, prev, blocks, block, exists_before, channel, dict, data);
        let next = flagged(t, c, prev, blocks, block, exists_before, channel, dict);
        lemma_put_flags(next, c, prev, blocks, block + 1, exists_before, channel, dict, data);
        let s = lemma_flag_read(t, c, prev, blocks, block, exists_before, channel, dict, r, cc);
        let now = Flags { s, copied: next.copied, temporal: next.temporal };
        let filled = block_filled(cc, c, blocks, block, next.copied[block]);
        assert forall|i: int|
            0 <= i < c.len() && i % blocks < block + 1 && next.copied[i % blocks] implies #[trigger] filled[i]
            == c[i] by {
            crate::model_plane::lemma_row(i, blocks);
            if i % blocks == block {
                assert(crate::model_coder::block_of(c, blocks, block)[i / blocks] == c[i]);
            } else {
                assert(next.copied[i % blocks] == t.copied[i % blocks]);
                assert(cc[i] == c[i]);
            }
        }
        lemma_flags_read(next, c, prev, blocks, block + 1, exists_before, channel, dict, now, filled);
    } else {
        assert forall|i: int| 0 <= i < c.len() && t.copied[i % blocks] implies #[trigger] cc[i] == c[i] by {
            crate::model_plane::lemma_row(i, blocks);
        }
    }
}

/// The slots of coefficient number `i`.
spec fn slots_at(
    c: Seq<i16>,
    prev: Seq<i16>,
    blocks: int,
    copied: Seq<bool>,
    temporal: Seq<bool>,
    channel: int,
    i: int,
) -> crate::model_coder::Slots {
    let left = if i % blocks > 0 {
        crate::model_plane::residual(c, prev, blocks, copied, temporal, i - 1)
    } else {
        0
    };
    let above = if i >= blocks {
        crate::model_plane::residual(c, prev, blocks, copied, temporal, i - blocks)
    } else {
        0
    };
    crate::model_coder::value_slots(
        channel * 64 + i / blocks,
        crate::model_coder::zero_slot(
            channel,
            i / blocks,
            prev[i] as int,
            left,
            above,
            temporal[i % blocks],
        ),
        left,
        prev[i] as int,
    )
}

proof fn lemma_put_values(
    s: (Seq<u16>, Writing),
    c: Seq<i16>,
    prev: Seq<i16>,
    blocks: int,
    copied: Seq<bool>,
    temporal: Seq<bool>,
    channel: int,
    i: int,
    data: Seq<u8>,
)
    requires
        shaped(c, prev, blocks, channel),
        0 <= i <= c.len(),
        crate::model_coder::ready(s, slots()),
    ensures
        ({
            let u = crate::model_plane::put_values(s, c, prev, blocks, copied, temporal, channel, i);
            &&& crate::model_coder::ready(u, slots())
            &&& u.1.leads(data) ==> s.1.leads(data)
        }),
    decreases c.len() - i,
{
    if i < c.len() {
        if copied[i % blocks] {
            lemma_put_values(s, c, prev, blocks, copied, temporal, channel, i + 1, data);
        } else {
            crate::model_plane::lemma_row(i, blocks);
            let at = slots_at(c, prev, blocks, copied, temporal, channel, i);
            let value = crate::model_plane::residual(c, prev, blocks, copied, temporal, i);
            crate::model_coder::lemma_put_number(s, slots(), value, at, data);
            lemma_put_values(
                crate::model_coder::put_number(s, value, at),
                c,
                prev,
                blocks,
                copied,
                temporal,
                channel,
                i + 1,
                data,
            );
        }
    }
}

/// Whether the residuals of the first coefficients have been read, and the coefficients with them.
spec fn values_in(
    got: Seq<i16>,
    done: Seq<int>,
    c: Seq<i16>,
    prev: Seq<i16>,
    blocks: int,
    copied: Seq<bool>,
    temporal: Seq<bool>,
) -> bool {
    &&& done.len() <= c.len()
    &&& got.len() == c.len()
    &&& forall|i: int|
        0 <= i < done.len() ==> #[trigger] done[i] == crate::model_plane::residual(
            c,
            prev,
            blocks,
            copied,
            temporal,
            i,
        )
    &&& forall|i: int|
        0 <= i < c.len() && (i < done.len() || copied[i % blocks]) ==> #[trigger] got[i] == c[i]
}

proof fn lemma_values_read(
    s: (Seq<u16>, Writing),
    c: Seq<i16>,
    prev: Seq<i16>,
    blocks: int,
    copied: Seq<bool>,
    temporal: Seq<bool>,
    channel: int,
    r: (Seq<u16>, Reading),
    got: Seq<i16>,
    done: Seq<int>,
)
    requires
        shaped(c, prev, blocks, channel),
        crate::model_coder::ready(s, slots()),
        crate::model_coder::followed(s, r),
        values_in(got, done, c, prev, blocks, copied, temporal),
        crate::model_plane::put_values(
            s,
            c,
            prev,
            blocks,
            copied,
            temporal,
            channel,
            done.len() as int,
        ).1.leads(r.1.data),
    ensures
        ({
            let u = crate::model_plane::put_values(
                s,
                c,
                prev,
                blocks,
                copied,
                temporal,
                channel,
                done.len() as int,
            );
            let x = crate::model_plane::get_values(
                r,
                got,
                done,
                prev,
                blocks,
                copied,
                temporal,
                channel,
            );
            &&& x is Ok
            &&& x->Ok_0.1 == c
            &&& crate::model_coder::followed(u, x->Ok_0.0)
            &&& x->Ok_0.0.1.data == r.1.data
        }),
    decreases c.len() - done.len(),
{
    let i = done.len() as int;
    let data = r.1.data;
    if i >= c.len() {
        assert(got =~= c);
    } else if copied[i % blocks] {
        lemma_values_read(s, c, prev, blocks, copied, temporal, channel, r, got, done.push(0));
    } else {
        crate::model_plane::lemma_row(i, blocks);
        let at = slots_at(c, prev, blocks, copied, temporal, channel, i);
        let value = crate::model_plane::residual(c, prev, blocks, copied, temporal, i);
        let next = crate::model_coder::put_number(s, value, at);
        crate::model_coder::lemma_put_number(s, slots(), value, at, data);
        lemma_put_values(next, c, prev, blocks, copied, temporal, channel, i + 1, data);
        crate::model_coder::law_number_round_trip(
            s,
            slots(),
            value,
            at,
            r,
            "ProRes model coefficient overflow"@,
        );
        let after = crate::model_coder::get_number(r, at, "ProRes model coefficient overflow"@)->Ok_0.1;
        let more = got.update(i, c[i]);
        assert(values_in(more, done.push(value), c, prev, blocks, copied, temporal));
        lemma_values_read(
            next,
            c,
            prev,
            blocks,
            copied,
            temporal,
            channel,
            after,
            more,
            done.push(value),
        );
    }
}

proof fn lemma_put_plane(
    s: (Seq<u16>, Writing),
    c: Seq<i16>,
    prev: Seq<i16>,
    blocks: int,
    exists_before: bool,
    channel: int,
    dict: Option<Blocks>,
    data: Seq<u8>,
)
    requires
        shaped(c, prev, blocks, channel),
        crate::model_coder::ready(s, slots()),
    ensures
        ({
            let u = crate::model_plane::put_plane(s, c, prev, blocks, exists_before, channel, dict);
            &&& crate::model_coder::ready(u, slots())
            &&& u.1.leads(data) ==> s.1.leads(data)
        }),
{
    let first = Flags { s, copied: Seq::empty(), temporal: Seq::empty() };
    lemma_put_flags(first, c, prev, blocks, 0, exists_before, channel, dict, data);
    let t = crate::model_plane::put_flags(first, c, prev, blocks, 0, exists_before, channel, dict);
    lemma_put_values(t.s, c, prev, blocks, t.copied, t.temporal, channel, 0, data);
}

/// A plane comes back from the model, and both sides adapt alike.
pub proof fn law_plane_round_trip(
    s: (Seq<u16>, Writing),
    c: Seq<i16>,
    prev: Seq<i16>,
    blocks: int,
    exists_before: bool,
    channel: int,
    dict: Option<Blocks>,
    r: (Seq<u16>, Reading),
)
    requires
        1 <= blocks <= 32,
        c.len() == blocks * 64,
        prev.len() == blocks * 64,
        0 <= channel <= 2,
        dict matches Some(d) ==> d.wf(),
        crate::model_coder::ready(s, crate::model_coder::CONTEXTS as int),
        crate::model_coder::followed(s, r),
        crate::model_plane::put_plane(s, c, prev, blocks, exists_before, channel, dict).1.leads(r.1.data),
    ensures
        ({
            let u = crate::model_plane::put_plane(s, c, prev, blocks, exists_before, channel, dict);
            let x = crate::model_plane::get_plane(r, prev, blocks, !exists_before, channel, dict);
            &&& x is Ok
            &&& x->Ok_0.1 == c
            &&& crate::model_coder::followed(u, x->Ok_0.0)
            &&& x->Ok_0.0.1.data == r.1.data
        }),
{
    let data = r.1.data;
    let first = Flags { s, copied: Seq::empty(), temporal: Seq::empty() };
    let begin = Flags { s: r, copied: Seq::empty(), temporal: Seq::empty() };
    let blank = Seq::new((blocks * 64) as nat, |i: int| 0i16);
    lemma_put_flags(first, c, prev, blocks, 0, exists_before, channel, dict, data);
    let t = crate::model_plane::put_flags(first, c, prev, blocks, 0, exists_before, channel, dict);
    lemma_put_values(t.s, c, prev, blocks, t.copied, t.temporal, channel, 0, data);
    assert forall|i: int| 0 <= i < c.len() && i % blocks < 0 && first.copied[i % blocks] implies #[trigger] blank[i]
        == c[i] by {
        crate::model_plane::lemma_row(i, blocks);
    }
    lemma_flags_read(first, c, prev, blocks, 0, exists_before, channel, dict, begin, blank);
    let x = crate::model_plane::get_flags(
        begin,
        blank,
        prev,
        blocks,
        0,
        !exists_before,
        channel,
        dict,
    );
    lemma_values_read(
        t.s,
        c,
        prev,
        blocks,
        t.copied,
        t.temporal,
        channel,
        x->Ok_0.0.s,
        x->Ok_0.1,
        Seq::empty(),
    );
}

proof fn lemma_insert(d: Blocks, v: Seq<i16>)
    requires
        d.wf(),
        v.len() == 64,
    ensures
        d.insert(v).wf(),
{
    let e = d.insert(v);
    if d.find(v) is None {
        assert forall|i: int| 0 <= i < e.values.len() implies (#[trigger] e.values[i]).len() == 64 by {
            if d.values.len() < crate::model_coder::DICTIONARY_CAPACITY {
                if i < d.values.len() {
                    assert(e.values[i] == d.values[i]);
                }
            } else if i != d.next {
                assert(e.values[i] == d.values[i]);
            }
        }
        assert forall|h: u64| #[trigger] e.index.contains_key(h) implies e.index[h] < e.values.len() by {
            if h != crate::model_coder::hash_of(v) {
                assert(d.index.contains_key(h));
            }
        }
    }
}

proof fn lemma_add_plane(d: Blocks, c: Seq<i16>, blocks: int, block: int)
    requires
        d.wf(),
    ensures
        d.add_plane(c, blocks, block).wf(),
    decreases blocks - block,
{
    if block < blocks {
        lemma_insert(d, crate::model_coder::block_of(c, blocks, block));
        lemma_add_plane(
            d.insert(crate::model_coder::block_of(c, blocks, block)),
            c,
            blocks,
            block + 1,
        );
    }
}

/// Whether a plane can be written.
spec fn writable(raw: Seq<u8>, g: Segment) -> bool {
    &&& crate::mov_model::comes_back(raw, g)
    &&& crate::scanning::proper(g, raw.len() as int)
}

spec fn continues(w: Written, g: Segment, c: Seq<i16>) -> bool {
    w.key == Some(g.key) && w.prev.len() == c.len()
}

/// How plane `g` is described, after those before it.
spec fn described(raw: Seq<u8>, w: Written, g: Segment) -> Descriptor {
    let c = crate::exact_groups::coefficients(raw, g);
    Descriptor {
        offset: g.offset,
        len: g.len,
        blocks: g.blocks,
        flags: (g.key.2 * 2 + crate::model_coder::flag(!continues(w, g, c))) as u8,
    }
}

proof fn lemma_plane_out(raw: Seq<u8>, w: Written, g: Segment, shared: bool, data: Seq<u8>)
    requires
        writable(raw, g),
        crate::model_coder::ready(w.s, slots()),
        w.dict.wf(),
        crate::mov_model::plane_out(raw, w, g, shared) is Ok,
    ensures
        ({
            let u = crate::mov_model::plane_out(raw, w, g, shared)->Ok_0;
            &&& crate::model_coder::ready(u.s, slots())
            &&& u.dict.wf()
            &&& u.s.1.leads(data) ==> w.s.1.leads(data)
            &&& u.descriptors == w.descriptors + crate::mov_model::descriptor_bytes(
                g,
                continues(w, g, crate::exact_groups::coefficients(raw, g)),
            )
            &&& u.key is Some
            &&& u.prev == crate::exact_groups::coefficients(raw, g)
        }),
{
    let c = crate::exact_groups::coefficients(raw, g);
    let eb = continues(w, g, c);
    let prev = if eb {
        w.prev
    } else {
        Seq::new(c.len(), |i: int| 0i16)
    };
    lemma_put_plane(
        w.s,
        c,
        prev,
        g.blocks as int,
        eb,
        g.key.2 as int,
        crate::model_plane::known_blocks(shared, w.dict),
        data,
    );
    lemma_add_plane(w.dict, c, g.blocks as int, 0);
}

/// What a reader has to have in common with the writer.
spec fn in_step(w: Written, p: Progressed) -> bool {
    &&& crate::model_coder::followed(w.s, p.s)
    &&& w.dict == p.dict
    &&& w.key is Some ==> w.prev == p.prev
}

proof fn lemma_plane_in(raw: Seq<u8>, w: Written, g: Segment, shared: bool, p: Progressed)
    requires
        writable(raw, g),
        crate::model_coder::ready(w.s, slots()),
        w.dict.wf(),
        in_step(w, p),
        crate::mov_model::plane_out(raw, w, g, shared) is Ok,
        crate::mov_model::plane_out(raw, w, g, shared)->Ok_0.s.1.leads(p.s.1.data),
    ensures
        ({
            let u = crate::mov_model::plane_out(raw, w, g, shared)->Ok_0;
            let x = crate::mov_model::plane_in(p, described(raw, w, g), shared);
            &&& x is Ok
            &&& in_step(u, x->Ok_0)
            &&& x->Ok_0.s.1.data == p.s.1.data
        }),
{
    let c = crate::exact_groups::coefficients(raw, g);
    let eb = continues(w, g, c);
    let d = described(raw, w, g);
    let prev = if eb {
        w.prev
    } else {
        Seq::new(c.len(), |i: int| 0i16)
    };
    assert(d.flags % 2 == 1 <==> !eb);
    assert(d.flags / 2 == g.key.2);
    law_plane_round_trip(
        w.s,
        c,
        prev,
        g.blocks as int,
        eb,
        g.key.2 as int,
        crate::model_plane::known_blocks(shared, w.dict),
        p.s,
    );
    if !eb {
        assert(prev =~= Seq::new((d.blocks * 64) as nat, |i: int| 0i16));
    }
}

/// How the planes from number `k` on are described.
spec fn all_described(raw: Seq<u8>, w: Written, v: Seq<Segment>, k: int, shared: bool) -> Seq<Descriptor>
    decreases v.len() - k,
{
    if k >= v.len() {
        Seq::empty()
    } else {
        match crate::mov_model::plane_out(raw, w, v[k], shared) {
            Err(_) => Seq::empty(),
            Ok(u) => seq![described(raw, w, v[k])] + all_described(raw, u, v, k + 1, shared),
        }
    }
}

proof fn lemma_planes_out(raw: Seq<u8>, w: Written, v: Seq<Segment>, k: int, shared: bool, data: Seq<u8>)
    requires
        0 <= k <= v.len(),
        forall|i: int| 0 <= i < v.len() ==> writable(raw, #[trigger] v[i]),
        crate::model_coder::ready(w.s, slots()),
        w.dict.wf(),
        crate::mov_model::planes_out(raw, w, v, k, shared) is Ok,
    ensures
        ({
            let u = crate::mov_model::planes_out(raw, w, v, k, shared)->Ok_0;
            &&& crate::model_coder::ready(u.s, slots())
            &&& u.s.1.leads(data) ==> w.s.1.leads(data)
            &&& all_described(raw, w, v, k, shared).len() == v.len() - k
            &&& u.descriptors.len() == w.descriptors.len() + 12 * (v.len() - k)
            &&& u.descriptors.take(w.descriptors.len() as int) == w.descriptors
        }),
    decreases v.len() - k,
{
    if k < v.len() {
        lemma_plane_out(raw, w, v[k], shared, data);
        let u = crate::mov_model::plane_out(raw, w, v[k], shared)->Ok_0;
        lemma_planes_out(raw, u, v, k + 1, shared, data);
        lemma_twelve(v[k], continues(w, v[k], crate::exact_groups::coefficients(raw, v[k])));
        let z = crate::mov_model::planes_out(raw, w, v, k, shared)->Ok_0;
        assert(z.descriptors.take(w.descriptors.len() as int) =~= z.descriptors.take(
            u.descriptors.len() as int,
        ).take(w.descriptors.len() as int));
        assert(u.descriptors.take(w.descriptors.len() as int) =~= w.descriptors);
    } else {
        assert(w.descriptors.take(w.descriptors.len() as int) =~= w.descriptors);
    }
}

proof fn lemma_twelve(g: Segment, eb: bool)
    ensures
        crate::mov_model::descriptor_bytes(g, eb).len() == 12,
{
    crate::wire::lemma_lengths(g.offset as int);
    reveal_with_fuel(crate::wire::le_bytes, 3);
}

/// The reader goes through the planes in step with the writer.
proof fn lemma_planes_in(raw: Seq<u8>, w: Written, v: Seq<Segment>, k: int, shared: bool, p: Progressed, ds: Seq<
    Descriptor,
>)
    requires
        0 <= k <= v.len(),
        ds.len() == v.len(),
        ds.skip(k) == all_described(raw, w, v, k, shared),
        forall|i: int| 0 <= i < v.len() ==> writable(raw, #[trigger] v[i]),
        crate::model_coder::ready(w.s, slots()),
        w.dict.wf(),
        in_step(w, p),
        crate::mov_model::planes_out(raw, w, v, k, shared) is Ok,
        crate::mov_model::planes_out(raw, w, v, k, shared)->Ok_0.s.1.leads(p.s.1.data),
    ensures
        ({
            let u = crate::mov_model::planes_out(raw, w, v, k, shared)->Ok_0;
            let x = crate::mov_model::planes_in(p, ds, k, shared);
            x is Ok && in_step(u, x->Ok_0)
        }),
    decreases v.len() - k,
{
    if k < v.len() {
        let data = p.s.1.data;
        let u = crate::mov_model::plane_out(raw, w, v[k], shared)->Ok_0;
        lemma_plane_out(raw, w, v[k], shared, data);
        lemma_planes_out(raw, u, v, k + 1, shared, data);
        lemma_plane_in(raw, w, v[k], shared, p);
        assert(ds.skip(k)[0] == ds[k]);
        let rest = all_described(raw, u, v, k + 1, shared);
        assert(ds.skip(k + 1) =~= rest) by {
            assert(ds.skip(k + 1) =~= ds.skip(k).skip(1));
            assert((seq![described(raw, w, v[k])] + rest).skip(1) =~= rest);
        }
        let x = crate::mov_model::plane_in(p, ds[k], shared)->Ok_0;
        lemma_planes_in(raw, u, v, k + 1, shared, x, ds);
    }
}

proof fn lemma_two(b: Seq<u8>, at: int, n: int)
    requires
        0 <= at <= b.len() - 2,
        0 <= n <= 65535,
        b.subrange(at, at + 2) == crate::wire::le_bytes(n, 2),
    ensures
        crate::wire::le16(b, at) == n,
{
    reveal_with_fuel(crate::wire::le_bytes, 3);
    let s = b.subrange(at, at + 2);
    assert(s[0] == b[at] && s[1] == b[at + 1]);
}

/// A written descriptor reads as it was written.
proof fn lemma_descriptor_read(raw: Seq<u8>, w: Written, g: Segment, b: Seq<u8>, start: int, i: int, raw_len: int)
    requires
        writable(raw, g),
        0 <= start,
        0 <= i,
        start + i * 12 + 12 <= b.len(),
        b.subrange(start + i * 12, start + i * 12 + 12) == crate::mov_model::descriptor_bytes(
            g,
            continues(w, g, crate::exact_groups::coefficients(raw, g)),
        ),
    ensures
        crate::mov_model::descriptor_at(b, start, i, raw_len) matches Ok(d) ==> d == described(raw, w, g),
{
    let at = start + i * 12;
    let c = crate::exact_groups::coefficients(raw, g);
    let d = crate::mov_model::descriptor_bytes(g, continues(w, g, c));
    let got = b.subrange(at, at + 12);
    crate::wire::lemma_lengths(g.offset as int);
    lemma_twelve(g, continues(w, g, c));
    assert(b.subrange(at, at + 8) =~= got.subrange(0, 8));
    assert(d.subrange(0, 8) =~= crate::wire::le_bytes(g.offset as int, 8));
    assert(b.subrange(at + 8, at + 10) =~= got.subrange(8, 10));
    assert(crate::wire::le_bytes(g.len as int, 2).len() == 2) by {
        reveal_with_fuel(crate::wire::le_bytes, 3);
    }
    assert(d.subrange(8, 10) =~= crate::wire::le_bytes(g.len as int, 2));
    crate::wire::lemma_le64_at(b, at, g.offset as int);
    lemma_two(b, at + 8, g.len as int);
    assert(got[10] == b[at + 10] && got[11] == b[at + 11]);
}

/// Written descriptors read as they were written.
proof fn lemma_descriptors_read(
    raw: Seq<u8>,
    w: Written,
    v: Seq<Segment>,
    k: int,
    shared: bool,
    b: Seq<u8>,
    start: int,
    raw_len: int,
    used: int,
    work: int,
    rest: int,
)
    requires
        0 <= k <= v.len(),
        0 <= start,
        forall|i: int| 0 <= i < v.len() ==> writable(raw, #[trigger] v[i]),
        crate::model_coder::ready(w.s, slots()),
        w.dict.wf(),
        w.descriptors.len() == 12 * k,
        crate::mov_model::planes_out(raw, w, v, k, shared) is Ok,
        start + 12 * v.len() <= b.len(),
        b.subrange(start, start + 12 * v.len()) == crate::mov_model::planes_out(
            raw,
            w,
            v,
            k,
            shared,
        )->Ok_0.descriptors,
    ensures
        crate::mov_model::descriptors_from(b, start, k, v.len() as int, raw_len, used, work, rest) matches Ok(
            ds,
        ) ==> ds == all_described(raw, w, v, k, shared),
    decreases v.len() - k,
{
    if k < v.len() {
        let u = crate::mov_model::plane_out(raw, w, v[k], shared)->Ok_0;
        let z = crate::mov_model::planes_out(raw, w, v, k, shared)->Ok_0;
        lemma_plane_out(raw, w, v[k], shared, Seq::empty());
        lemma_planes_out(raw, u, v, k + 1, shared, Seq::empty());
        lemma_twelve(v[k], continues(w, v[k], crate::exact_groups::coefficients(raw, v[k])));
        let own = crate::mov_model::descriptor_bytes(
            v[k],
            continues(w, v[k], crate::exact_groups::coefficients(raw, v[k])),
        );
        assert(b.subrange(start + k * 12, start + k * 12 + 12) =~= own) by {
            assert(b.subrange(start + k * 12, start + k * 12 + 12) =~= z.descriptors.subrange(
                12 * k,
                12 * k + 12,
            ));
            assert(z.descriptors.subrange(12 * k, 12 * k + 12) =~= z.descriptors.take(12 * k + 12).subrange(
                12 * k,
                12 * k + 12,
            ));
        }
        lemma_descriptor_read(raw, w, v[k], b, start, k, raw_len);
        if let Ok(d) = crate::mov_model::descriptor_at(b, start, k, raw_len) {
            lemma_descriptors_read(
                raw,
                u,
                v,
                k + 1,
                shared,
                b,
                start,
                raw_len,
                used + d.len,
                work + d.blocks * 64,
                rest,
            );
        }
    } else {
        assert(all_described(raw, w, v, k, shared) =~= Seq::empty());
    }
}

/// Where the parts of a record lie.
proof fn lemma_record(raw: Seq<u8>, kept: Seq<Segment>, t: Written, files: int, shared: bool)
    requires
        raw.len() <= crate::mov_model::LIMIT,
        kept.len() <= crate::scanning::MAX_SEGMENTS,
        t.descriptors.len() == 12 * kept.len(),
        t.s.1.finish().len() <= u64::MAX,
    ensures
        ({
            let b = crate::mov_model::record(raw, kept, t, files, shared);
            let h = crate::mov_model::header_size(shared);
            let n = kept.len() as int;
            &&& b.len() >= h + 12 * n + t.s.1.finish().len()
            &&& crate::wire::le64(b, 8) == raw.len()
            &&& crate::wire::le32(b, 16) == n
            &&& crate::wire::le64(b, 20) == t.s.1.finish().len()
            &&& b.subrange(h, h + 12 * n) == t.descriptors
            &&& b.subrange(h + n * 12, h + n * 12 + t.s.1.finish().len()) == t.s.1.finish()
        }),
{
    let b = crate::mov_model::record(raw, kept, t, files, shared);
    let h = crate::mov_model::header_size(shared);
    let n = kept.len() as int;
    let stream = t.s.1.finish();
    crate::wire::lemma_lengths(raw.len() as int);
    crate::wire::lemma_lengths(n);
    crate::wire::lemma_lengths(stream.len() as int);
    crate::wire::lemma_lengths(files);
    assert(b.subrange(8, 16) =~= crate::wire::le_bytes(raw.len() as int, 8));
    assert(b.subrange(16, 20) =~= crate::wire::le_bytes(n, 4));
    assert(b.subrange(20, 28) =~= crate::wire::le_bytes(stream.len() as int, 8));
    crate::wire::lemma_le64_at(b, 8, raw.len() as int);
    crate::wire::lemma_le32_at(b, 16, n);
    crate::wire::lemma_le64_at(b, 20, stream.len() as int);
    assert(b.subrange(h, h + 12 * n) =~= t.descriptors);
    assert(b.subrange(h + n * 12, h + n * 12 + stream.len()) =~= stream);
}

/// After a movie of a sequence was encoded, and its record decoded, both sides have learned the same.
pub proof fn law_both_sides_learn_alike(raw: Seq<u8>, before: Learned)
    requires
        before.wf(),
        raw.len() <= usize::MAX,
    ensures
        crate::mov_model::modelled(raw, before, true) matches Ok((out, after)) ==> crate::mov_model::restored(
            out,
            before,
            true,
        ) == Ok::<(Seq<u8>, Learned), Seq<char>>((raw, after)),
{
    if let Ok((b, after)) = crate::mov_model::modelled(raw, before, true) {
        let found = crate::scanning::segments_of(raw)->Ok_0;
        let kept = crate::mov_model::kept_from(raw, found, 0);
        let v = crate::mov_model::grouped(kept);
        crate::scanning::law_segments_in_line(raw);
        crate::mov_model::lemma_kept(raw, found, 0, raw.len() as int);
        let r = crate::mov_model::ranked(kept);
        let sorted = crate::order::sorted(r);
        crate::order::law_sorted_keeps(r);
        assert forall|i: int| 0 <= i < v.len() implies writable(raw, #[trigger] v[i]) by {
            assert(sorted.contains(sorted[i]));
            crate::order::law_sorted_members(r, sorted[i]);
            let a = choose|a: int| 0 <= a < r.len() && r[a] == sorted[i];
            assert(v[i] == kept[a]);
            assert(crate::mov_model::comes_back(raw, kept[a]));
            assert(crate::scanning::proper(kept[a], raw.len() as int));
        }
        let w = Written {
            s: (before.slots, Writing::start()),
            dict: before.dict,
            prev: Seq::empty(),
            key: None,
            descriptors: Seq::empty(),
        };
        assert(crate::model_coder::ready(w.s, slots()));
        let z = crate::mov_model::planes_out(raw, w, v, 0, true)->Ok_0;
        let stream = z.s.1.finish();
        lemma_planes_out(raw, w, v, 0, true, stream);
        crate::source_rc::law_finish_leads(z.s.1);
        crate::source_rc::law_start(stream);
        lemma_record(raw, kept, z, before.files, true);
        let n = kept.len() as int;
        let start = 36 + n * 12;
        let end = start + stream.len();
        let ds = crate::mov_model::descriptors_from(b, 36, 0, n, raw.len() as int, 0, 0, b.len() - end)->Ok_0;
        lemma_descriptors_read(
            raw,
            w,
            v,
            0,
            true,
            b,
            36,
            raw.len() as int,
            0,
            0,
            b.len() - end,
        );
        let p = Progressed {
            s: (before.slots, Reading::start(b.subrange(start, end))),
            dict: before.dict,
            prev: Seq::empty(),
            out: Seq::new(raw.len(), |i: int| 0u8),
        };
        assert(ds.skip(0) =~= ds);
        lemma_planes_in(raw, w, v, 0, true, p, ds);
    }
}

}
