//! Movies whose ProRes planes go through an adaptive model, alone or in a sequence of movies that
//! share what the model has learned.

use crate::model_coder::{BlockDictionary, Blocks, Coder, Decoder};
use crate::model_plane::{read_plane, write_plane};
use crate::monitor::{Monitor, Share, Unwatched};
use crate::plane::{pack_plane, unpack_plane};
use crate::scanning::{find_segments_with_cancel, Segment, MAX_SEGMENTS};
use crate::source_rc::{Dec, Enc, Reading, Writing};
use crate::wire::{fail, overwrite, put_le, read_le16, read_le32, read_le64, same, Outcome};
use vstd::prelude::*;

verus! {

pub const MAGIC: [u8; 8] = [83, 80, 80, 77, 0, 0, 0, 1];

pub const SHARED_MAGIC: [u8; 8] = [83, 80, 80, 83, 0, 0, 0, 1];

pub const LIMIT: usize = 536870912;

pub const MAX_COEFFICIENTS: usize = 1073741824;

/// What the model has learned from the movies so far.
#[verifier::ext_equal]
pub struct Learned {
    pub slots: Seq<u16>,
    pub dict: Blocks,
    pub files: int,
}

impl Learned {
    pub open spec fn fresh() -> Learned {
        Learned {
            slots: Seq::new(crate::model_coder::CONTEXTS as nat, |i: int| 2048u16),
            dict: Blocks::fresh(),
            files: 0,
        }
    }

    pub open spec fn wf(self) -> bool {
        crate::model_coder::slots_ok(self.slots, crate::model_coder::CONTEXTS as int)
            && self.dict.wf()
    }
}

pub struct SharedContext {
    pub probabilities: Vec<u16>,
    pub dictionary: BlockDictionary,
    pub files: u64,
}

impl View for SharedContext {
    type V = Learned;

    open spec fn view(&self) -> Learned {
        Learned {
            slots: self.probabilities@,
            dict: self.dictionary@,
            files: self.files as int,
        }
    }
}

impl Default for SharedContext {
    /// A context that has seen no movie.
    fn default() -> (c: Self)
        ensures
            c@ == Learned::fresh(),
            c@.wf(),
    {
        let c = SharedContext {
            probabilities: vec![2048u16; crate::model_coder::CONTEXTS],
            dictionary: BlockDictionary::new(),
            files: 0,
        };
        assert(c@ =~= Learned::fresh());
        c
    }
}

impl Clone for SharedContext {
    fn clone(&self) -> (c: Self)
        ensures
            c@ == self@,
    {
        let mut probabilities: Vec<u16> = Vec::new();
        probabilities.extend_from_slice(&self.probabilities);
        let c = SharedContext {
            probabilities,
            dictionary: self.dictionary.duplicate(),
            files: self.files,
        };
        assert(c@ =~= self@);
        c
    }
}

/// The length of the header of a record.
pub open spec fn header_size(shared: bool) -> int {
    if shared {
        36
    } else {
        28
    }
}

/// A coded plane. Bit 0 of `flags` starts a new group, and the bits above give the plane's kind.
#[verifier::ext_equal]
pub struct Descriptor {
    pub offset: usize,
    pub len: usize,
    pub blocks: usize,
    pub flags: u8,
}

pub open spec fn range_of(d: Descriptor) -> (u64, u64) {
    (d.offset as u64, d.len as u64)
}

/// The descriptor number `i`, when the descriptors start at `start`.
pub open spec fn descriptor_at(b: Seq<u8>, start: int, i: int, raw_len: int) -> Outcome<
    Descriptor,
> {
    let at = start + i * 12;
    let offset = crate::wire::le64(b, at);
    let len = crate::wire::le16(b, at + 8);
    let blocks = b[at + 10] as int;
    let flags = b[at + 11];
    if offset > usize::MAX {
        Err("MOV model offset overflow"@)
    } else if !crate::plane::block_count(blocks) || len == 0 || flags > 5 || (i == 0 && flags % 2
        == 0) || offset + len > raw_len {
        Err("invalid ProRes model descriptor"@)
    } else {
        Ok(
            Descriptor {
                offset: offset as usize,
                len: len as usize,
                blocks: blocks as usize,
                flags,
            },
        )
    }
}

/// The descriptors from number `i` on, when those before take `used` bytes in the movie and have
/// `work` coefficients; `rest` bytes follow in the record.
pub open spec fn descriptors_from(
    b: Seq<u8>,
    start: int,
    i: int,
    count: int,
    raw_len: int,
    used: int,
    work: int,
    rest: int,
) -> Outcome<Seq<Descriptor>>
    decreases count - i,
{
    if i >= count {
        if used > raw_len || raw_len - used != rest {
            Err("ProRes model payload length mismatch"@)
        } else {
            Ok(Seq::empty())
        }
    } else {
        match descriptor_at(b, start, i, raw_len) {
            Err(e) => Err(e),
            Ok(d) => if used + d.len > usize::MAX {
                Err("MOV model segment overflow"@)
            } else if work + d.blocks * 64 > MAX_COEFFICIENTS {
                Err("MOV model coefficient work limit"@)
            } else {
                match descriptors_from(
                    b,
                    start,
                    i + 1,
                    count,
                    raw_len,
                    used + d.len,
                    work + d.blocks * 64,
                    rest,
                ) {
                    Err(e) => Err(e),
                    Ok(ds) => Ok(seq![d] + ds),
                }
            },
        }
    }
}

/// How far the decoding of a record has come.
#[verifier::ext_equal]
pub struct Progressed {
    pub s: (Seq<u16>, Reading),
    pub dict: Blocks,
    pub prev: Seq<i16>,
    pub out: Seq<u8>,
}

/// Decodes one plane.
pub open spec fn plane_in(t: Progressed, d: Descriptor, shared: bool) -> Outcome<Progressed> {
    let n = d.blocks * 64;
    let reset = d.flags % 2 == 1;
    let prev = if reset {
        Seq::new(n as nat, |i: int| 0i16)
    } else {
        t.prev
    };
    if prev.len() != n {
        Err("invalid ProRes model prediction group"@)
    } else {
        match crate::model_plane::get_plane(
            t.s,
            prev,
            d.blocks as int,
            reset,
            (d.flags / 2) as int,
            crate::model_plane::known_blocks(shared, t.dict),
        ) {
            Err(e) => Err(e),
            Ok((s, c)) => match crate::plane::packed_plane(c, d.blocks as int, d.len as int) {
                Err(e) => Err(e),
                Ok(bytes) => Ok(
                    Progressed {
                        s,
                        dict: if shared {
                            t.dict.add_plane(c, d.blocks as int, 0)
                        } else {
                            t.dict
                        },
                        prev: c,
                        out: crate::wire::overwritten(t.out, d.offset as int, bytes),
                    },
                ),
            },
        }
    }
}

/// Decodes the planes from number `k` on.
pub open spec fn planes_in(t: Progressed, ds: Seq<Descriptor>, k: int, shared: bool) -> Outcome<
    Progressed,
>
    decreases ds.len() - k,
{
    if k >= ds.len() {
        Ok(t)
    } else {
        match plane_in(t, ds[k], shared) {
            Err(e) => Err(e),
            Ok(u) => planes_in(u, ds, k + 1, shared),
        }
    }
}

/// The frame of a record: the movie's length, the number of planes, and the length of the coded
/// stream.
pub open spec fn frame_of(b: Seq<u8>, files: int, shared: bool) -> Outcome<(int, int, int)> {
    let header = header_size(shared);
    let magic = if shared {
        SHARED_MAGIC@
    } else {
        MAGIC@
    };
    if b.len() < header || b.len() > LIMIT || b.subrange(0, 8) != magic {
        Err("invalid ProRes model header"@)
    } else if shared && crate::wire::le64(b, 28) != files {
        Err("ProRes shared model record order mismatch"@)
    } else {
        let raw_len = crate::wire::le64(b, 8);
        let count = crate::wire::le32(b, 16);
        let range_len = crate::wire::le64(b, 20);
        if raw_len > usize::MAX {
            Err("MOV model size overflow"@)
        } else if range_len > usize::MAX {
            Err("MOV model range size overflow"@)
        } else if raw_len > LIMIT || count == 0 || count > MAX_SEGMENTS || count > (b.len()
            - header) / 12 {
            Err("invalid ProRes model limits"@)
        } else if range_len < 5 || range_len > b.len() - header - count * 12 {
            Err("truncated ProRes model range stream"@)
        } else {
            Ok((raw_len, count, range_len))
        }
    }
}

/// The movie that a record stands for, and what the model has learned after it.
pub open spec fn restored(b: Seq<u8>, before: Learned, shared: bool) -> Outcome<
    (Seq<u8>, Learned),
> {
    match frame_of(b, before.files, shared) {
        Err(e) => Err(e),
        Ok((raw_len, count, range_len)) => {
            let header = header_size(shared);
            let start = header + count * 12;
            let end = start + range_len;
            match descriptors_from(b, header, 0, count, raw_len, 0, 0, b.len() - end) {
                Err(e) => Err(e),
                Ok(ds) => {
                    let ranges = crate::order::sorted(ds.map_values(|d: Descriptor| range_of(d)));
                    if !crate::splice::apart(ranges, 0, 0) {
                        Err("overlapping ProRes model segments"@)
                    } else {
                        let t = Progressed {
                            s: (before.slots, Reading::start(b.subrange(start, end))),
                            dict: before.dict,
                            prev: Seq::empty(),
                            out: Seq::new(raw_len as nat, |i: int| 0u8),
                        };
                        match planes_in(t, ds, 0, shared) {
                            Err(e) => Err(e),
                            Ok(u) => if shared && before.files + 1 > u64::MAX {
                                Err("MOV model sequence overflow"@)
                            } else {
                                Ok(
                                    (
                                        crate::splice::filled(
                                            u.out,
                                            ranges,
                                            0,
                                            0,
                                            b.subrange(end, b.len() as int),
                                        ),
                                        if shared {
                                            Learned {
                                                slots: u.s.0,
                                                dict: u.dict,
                                                files: before.files + 1,
                                            }
                                        } else {
                                            before
                                        },
                                    ),
                                )
                            },
                        }
                    }
                },
            }
        },
    }
}

/// What is reported when `done` of `total` planes are finished, as a share of a longer operation or as
/// it is.
pub open spec fn told_at(share: Option<Share>, done: int, total: int) -> (u64, u64) {
    match share {
        None => (done as u64, total as u64),
        Some(s) => (
            (s.base + done * s.span / if total > 1 {
                total
            } else {
                1
            }) as u64,
            s.whole,
        ),
    }
}

/// Reports now and then that `done` of `total` planes are finished.
fn report<M: Monitor>(monitor: &mut M, share: &Option<Share>, done: usize, total: usize) -> (r:
    Result<(), String>)
    requires
        !old(monitor).stopped(),
        done <= total <= 3_000_000,
        share matches Some(s) ==> s.fits(),
    ensures
        match r {
            Ok(_) => !final(monitor).stopped(),
            Err(e) => final(monitor).stopped() && e@ == "error.cancelled"@,
        },
        if done as int % 128 != 0 && done != total {
            *final(monitor) == *old(monitor) && r is Ok
        } else {
            old(monitor).told(
                told_at(*share, done as int, total as int).0,
                told_at(*share, done as int, total as int).1,
                r is Ok,
                final(monitor),
            )
        },
{
    if done % 128 != 0 && done != total {
        return Ok(());
    }
    let go: bool = match share {
        None => monitor.report(done as u64, total as u64),
        Some(s) => s.report(monitor, done as u64, total as u64),
    };
    if go {
        Ok(())
    } else {
        Err(fail("error.cancelled"))
    }
}

fn read_descriptor(b: &[u8], start: usize, i: usize, raw_len: usize) -> (r: Result<
    Descriptor,
    String,
>)
    requires
        start + i * 12 + 12 <= b.len(),
        start <= 36,
        i < 1_000_000,
        raw_len <= LIMIT,
    ensures
        crate::wire::plain(r) == descriptor_at(b@, start as int, i as int, raw_len as int),
        r matches Ok(d) ==> crate::plane::block_count(d.blocks as int) && 1 <= d.len <= 65535
            && d.offset + d.len <= raw_len && d.flags <= 5,
{
    let at: usize = start + i * 12;
    let offset = read_le64(b, at);
    if offset > usize::MAX as u64 {
        return Err(fail("MOV model offset overflow"));
    }
    let len: usize = read_le16(b, at + 8) as usize;
    let blocks: usize = b[at + 10] as usize;
    let flags: u8 = b[at + 11];
    if !crate::plane::power_of_two(blocks) || len == 0 || flags > 5 || (i == 0 && flags % 2 == 0)
        || offset > raw_len as u64 || len as u64 > raw_len as u64 - offset {
        return Err(fail("invalid ProRes model descriptor"));
    }
    Ok(Descriptor { offset: offset as usize, len, blocks, flags })
}

pub open spec fn good(ds: Seq<Descriptor>, raw_len: int) -> bool {
    forall|k: int|
        0 <= k < ds.len() ==> (#[trigger] ds[k]).offset + ds[k].len <= raw_len
            && crate::plane::block_count(ds[k].blocks as int) && 1 <= ds[k].len <= 65535
            && ds[k].flags <= 5
}

spec fn total_len(ds: Seq<Descriptor>) -> int
    decreases ds.len(),
{
    if ds.len() == 0 {
        0
    } else {
        total_len(ds.drop_last()) + ds.last().len
    }
}

proof fn lemma_total(ds: Seq<Descriptor>, k: int)
    requires
        0 <= k <= ds.len(),
    ensures
        total_len(ds) == total_len(ds.subrange(0, k)) + crate::splice::occupied(
            ds.map_values(|d: Descriptor| range_of(d)),
            k,
        ),
        k == 0 ==> total_len(ds) == crate::splice::occupied(
            ds.map_values(|d: Descriptor| range_of(d)),
            0,
        ),
    decreases ds.len() - k,
{
    if k < ds.len() {
        lemma_total(ds, k + 1);
        assert(ds.subrange(0, k + 1).drop_last() =~= ds.subrange(0, k));
    } else {
        assert(ds.subrange(0, k) =~= ds);
    }
    assert(total_len(ds.subrange(0, 0)) == 0);
}

fn read_descriptors(b: &[u8], start: usize, count: usize, raw_len: usize, rest: usize) -> (r: Result<
    Vec<Descriptor>,
    String,
>)
    requires
        start + count * 12 <= b.len(),
        start <= 36,
        count <= 1_000_000,
        raw_len <= LIMIT,
    ensures
        match descriptors_from(
            b@,
            start as int,
            0,
            count as int,
            raw_len as int,
            0,
            0,
            rest as int,
        ) {
            Ok(ds) => r matches Ok(v) && v@ == ds && v@.len() == count && good(ds, raw_len as int)
                && rest + crate::splice::occupied(ds.map_values(|d: Descriptor| range_of(d)), 0)
                == raw_len,
            Err(e) => r matches Err(m) && m@ == e,
        },
{
    let mut ds: Vec<Descriptor> = Vec::new();
    let mut used: u64 = 0;
    let mut work: u64 = 0;
    let mut i: usize = 0;
    let ghost whole = descriptors_from(
        b@,
        start as int,
        0,
        count as int,
        raw_len as int,
        0,
        0,
        rest as int,
    );
    while i < count
        invariant
            i <= count <= 1_000_000,
            ds@.len() == i,
            start + count * 12 <= b.len(),
            start <= 36,
            raw_len <= LIMIT,
            used <= i * 65535,
            used <= usize::MAX,
            work <= MAX_COEFFICIENTS,
            good(ds@, raw_len as int),
            used == total_len(ds@),
            whole == descriptors_from(
                b@,
                start as int,
                0,
                count as int,
                raw_len as int,
                0,
                0,
                rest as int,
            ),
            match descriptors_from(
                b@,
                start as int,
                i as int,
                count as int,
                raw_len as int,
                used as int,
                work as int,
                rest as int,
            ) {
                Ok(more) => whole == Ok::<Seq<Descriptor>, Seq<char>>(ds@ + more),
                Err(e) => whole == Err::<Seq<Descriptor>, Seq<char>>(e),
            },
        decreases count - i,
    {
        let d = read_descriptor(b, start, i, raw_len)?;
        if used + d.len as u64 > usize::MAX as u64 {
            return Err(fail("MOV model segment overflow"));
        }
        if work + d.blocks as u64 * 64 > MAX_COEFFICIENTS as u64 {
            return Err(fail("MOV model coefficient work limit"));
        }
        used = used + d.len as u64;
        work = work + d.blocks as u64 * 64;
        let ghost before = ds@;
        ds.push(d);
        proof {
            assert(ds@.drop_last() =~= before);
            match descriptors_from(
                b@,
                start as int,
                i + 1,
                count as int,
                raw_len as int,
                used as int,
                work as int,
                rest as int,
            ) {
                Ok(more) => {
                    assert(before + (seq![d] + more) =~= ds@ + more);
                },
                Err(_) => {},
            }
        }
        i += 1;
    }
    if used > raw_len as u64 || raw_len as u64 - used != rest as u64 {
        return Err(fail("ProRes model payload length mismatch"));
    }
    proof {
        assert(ds@ + Seq::<Descriptor>::empty() =~= ds@);
        lemma_total(ds@, 0);
    }
    Ok(ds)
}

fn ranges_of(ds: &Vec<Descriptor>) -> (v: Vec<(u64, u64)>)
    ensures
        v@ == ds@.map_values(|d: Descriptor| range_of(d)),
{
    let mut v: Vec<(u64, u64)> = Vec::new();
    let mut i: usize = 0;
    while i < ds.len()
        invariant
            i <= ds@.len(),
            v@ == ds@.map_values(|d: Descriptor| range_of(d)).subrange(0, i as int),
        decreases ds.len() - i,
    {
        v.push((ds[i].offset as u64, ds[i].len as u64));
        i += 1;
        assert(v@ =~= ds@.map_values(|d: Descriptor| range_of(d)).subrange(0, i as int));
    }
    assert(v@ =~= ds@.map_values(|d: Descriptor| range_of(d)));
    v
}

fn read_frame(b: &[u8], files: u64, shared: bool) -> (r: Result<(usize, usize, usize), String>)
    ensures
        match frame_of(b@, files as int, shared) {
            Ok((raw_len, count, range_len)) => r matches Ok((x, y, z)) && x == raw_len && y == count
                && z == range_len && 5 <= z && header_size(shared) + y * 12 + z <= b@.len() <= LIMIT
                && 1 <= y <= MAX_SEGMENTS && x <= LIMIT,
            Err(e) => r matches Err(m) && m@ == e,
        },
{
    let header: usize = if shared { 36 } else { 28 };
    if b.len() < header || b.len() > LIMIT {
        return Err(fail("invalid ProRes model header"));
    }
    let magic = vstd::slice::slice_subrange(b, 0, 8);
    let known: bool = if shared { same(magic, &SHARED_MAGIC) } else { same(magic, &MAGIC) };
    if !known {
        return Err(fail("invalid ProRes model header"));
    }
    if shared && read_le64(b, 28) != files {
        return Err(fail("ProRes shared model record order mismatch"));
    }
    let raw_len = read_le64(b, 8);
    if raw_len > usize::MAX as u64 {
        return Err(fail("MOV model size overflow"));
    }
    let count: usize = read_le32(b, 16) as usize;
    let range_len = read_le64(b, 20);
    if range_len > usize::MAX as u64 {
        return Err(fail("MOV model range size overflow"));
    }
    if raw_len > LIMIT as u64 || count == 0 || count > MAX_SEGMENTS || count > (b.len() - header)
        / 12 {
        return Err(fail("invalid ProRes model limits"));
    }
    if range_len < 5 || range_len > (b.len() - header - count * 12) as u64 {
        return Err(fail("truncated ProRes model range stream"));
    }
    Ok((raw_len as usize, count, range_len as usize))
}

/// What sorting keeps of the ranges.
proof fn lemma_ranges(ds: Seq<Descriptor>, raw_len: int)
    requires
        good(ds, raw_len),
    ensures
        ({
            let all = ds.map_values(|d: Descriptor| range_of(d));
            let ranges = crate::order::sorted(all);
            &&& crate::splice::within(ranges, raw_len)
            &&& crate::splice::occupied(ranges, 0) == crate::splice::occupied(all, 0)
        }),
{
    let all = ds.map_values(|d: Descriptor| range_of(d));
    let ranges = crate::order::sorted(all);
    crate::order::law_sorted_keeps(all);
    assert forall|i: int| 0 <= i < ranges.len() implies #[trigger] ranges[i].0 + ranges[i].1
        <= raw_len by {
        assert(ranges.contains(ranges[i]));
        crate::order::law_sorted_members(all, ranges[i]);
        let k = choose|k: int| 0 <= k < all.len() && all[k] == ranges[i];
        assert(ds[k].offset + ds[k].len <= raw_len);
    }
    crate::splice::lemma_same_occupied(all, ranges);
}

struct Decoding<'a> {
    coder: Decoder<'a>,
    dictionary: BlockDictionary,
    previous: Vec<i16>,
    out: Vec<u8>,
}

impl<'a> Decoding<'a> {
    spec fn model(&self) -> Progressed {
        Progressed {
            s: self.coder.model(),
            dict: self.dictionary@,
            prev: self.previous@,
            out: self.out@,
        }
    }

    spec fn wf(&self) -> bool {
        self.coder.wf() && self.coder.slots@.len() == crate::model_coder::CONTEXTS
            && self.dictionary@.wf()
    }

    fn plane(&mut self, d: &Descriptor, shared: bool) -> (r: Result<(), String>)
        requires
            old(self).wf(),
            crate::plane::block_count(d.blocks as int),
            1 <= d.len <= 65535,
            d.flags <= 5,
            d.offset + d.len <= old(self).out@.len(),
        ensures
            match plane_in(old(self).model(), *d, shared) {
                Ok(t) => r is Ok && final(self).model() == t && final(self).wf() && final(
                    self).out@.len() == old(self).out@.len(),
                Err(e) => r matches Err(m) && m@ == e,
            },
    {
        let n: usize = d.blocks * 64;
        let reset: bool = d.flags % 2 == 1;
        if reset {
            self.previous = vec![0i16; n];
            assert(self.previous@ =~= Seq::new(n as nat, |i: int| 0i16));
        }
        if self.previous.len() != n {
            return Err(fail("invalid ProRes model prediction group"));
        }
        let c = read_plane(
            &mut self.coder,
            &self.previous,
            d.blocks,
            reset,
            (d.flags / 2) as usize,
            &self.dictionary,
            shared,
        )?;
        let bytes = pack_plane(&c, d.blocks, d.len)?;
        overwrite(&mut self.out, d.offset, &bytes);
        if shared {
            self.dictionary.add_plane(&c, d.blocks);
        }
        self.previous = c;
        Ok(())
    }
}

/// Restores a movie, alone or as the next of a sequence, and reports the progress within a share of the whole.
pub fn decode_impl<M: Monitor>(
    encoded: &[u8],
    monitor: &mut M,
    share: &Option<Share>,
    state: &mut SharedContext,
    shared: bool,
) -> (r: Result<Vec<u8>, String>)
    requires
        !old(monitor).stopped(),
        old(state)@.wf(),
        share matches Some(s) ==> s.fits(),
    ensures
        match crate::wire::unless(
            final(monitor).stopped(),
            restored(encoded@, old(state)@, shared),
        ) {
            Ok((raw, after)) => r matches Ok(v) && v@ == raw && final(state)@ == after
                && final(state)@.wf(),
            Err(e) => r matches Err(m) && m@ == e && final(state)@ == old(state)@,
        },
        crate::monitor::heeds(*old(monitor), r),
        share is None && r is Ok ==> crate::monitor::told_all(*final(monitor)),
{
    report(monitor, share, 0, 1)?;
    proof {
        let at = told_at(*share, 0, 1);
        crate::monitor::lemma_agreed(*old(monitor), at.0, at.1, *monitor);
    }
    let (raw_len, count, range_len) = read_frame(encoded, state.files, shared)?;
    let header: usize = if shared { 36 } else { 28 };
    let start: usize = header + count * 12;
    let end: usize = start + range_len;
    let ds = read_descriptors(encoded, header, count, raw_len, encoded.len() - end)?;
    let unsorted = ranges_of(&ds);
    let ranges = crate::order::sort(&unsorted);
    proof {
        lemma_ranges(ds@, raw_len as int);
    }
    if !crate::splice::check_apart(&ranges, raw_len as u64) {
        return Err(fail("overlapping ProRes model segments"));
    }
    let copy = state.clone();
    let stream = vstd::slice::slice_subrange(encoded, start, end);
    let mut t = Decoding {
        coder: Decoder { slots: copy.probabilities, dec: Dec::new(stream) },
        dictionary: copy.dictionary,
        previous: Vec::new(),
        out: vec![0u8; raw_len],
    };
    let ghost whole = planes_in(t.model(), ds@, 0, shared);
    let ghost result = restored(encoded@, old(state)@, shared);
    let ghost tail = encoded@.subrange(end as int, encoded@.len() as int);
    proof {
        assert(t.out@ =~= Seq::new(raw_len as nat, |i: int| 0u8));
        assert(t.previous@ =~= Seq::empty());
        assert(stream@ == encoded@.subrange(start as int, end as int));
        assert(whole matches Err(e) ==> result == Err::<(Seq<u8>, Learned), Seq<char>>(e));
    }
    let mut k: usize = 0;
    while k < ds.len()
        invariant
            t.wf(),
            k <= ds@.len() == count,
            1 <= count <= 1_000_000,
            t.out@.len() == raw_len,
            good(ds@, raw_len as int),
            !monitor.stopped(),
            !crate::monitor::refuses(*old(monitor)),
            *state == *old(state),
            share matches Some(s) ==> s.fits(),
            result == restored(encoded@, old(state)@, shared),
            whole matches Err(e) ==> result == Err::<(Seq<u8>, Learned), Seq<char>>(e),
            whole == planes_in(t.model(), ds@, k as int, shared),
        decreases ds.len() - k,
    {
        report(monitor, share, k, count)?;
        t.plane(&ds[k], shared)?;
        k += 1;
    }
    let rest = vstd::slice::slice_subrange(encoded, end, encoded.len());
    let raw = crate::splice::fill_gaps(&t.out, &ranges, rest);
    let ghost before = *monitor;
    report(monitor, share, count, count)?;
    assert(share is None ==> before.told(count as u64, count as u64, true, monitor));
    assert(share is None ==> crate::monitor::last_told(*monitor, count as u64, count as u64));
    if shared {
        if state.files == u64::MAX {
            return Err(fail("MOV model sequence overflow"));
        }
        let files: u64 = state.files + 1;
        *state = SharedContext {
            probabilities: t.coder.slots,
            dictionary: t.dictionary,
            files,
        };
    }
    Ok(raw)
}

/// Restores a movie.
pub fn decode_with_progress<M: Monitor>(encoded: &[u8], progress: &mut M) -> (r: Result<
    Vec<u8>,
    String,
>)
    requires
        !old(progress).stopped(),
    ensures
        match crate::wire::unless(
            final(progress).stopped(),
            restored(encoded@, Learned::fresh(), false),
        ) {
            Ok((raw, _)) => r matches Ok(v) && v@ == raw,
            Err(e) => r matches Err(m) && m@ == e,
        },
        crate::monitor::heeds(*old(progress), r),
        r is Ok ==> crate::monitor::told_all(*final(progress)),
{
    let mut state = SharedContext::default();
    decode_impl(encoded, progress, &None, &mut state, false)
}

/// Restores a movie, unless the watcher stops it.
pub fn decode_with_cancel<M: Monitor>(encoded: &[u8], cancelled: &mut M) -> (r: Result<
    Vec<u8>,
    String,
>)
    requires
        !old(cancelled).stopped(),
    ensures
        match crate::wire::unless(
            final(cancelled).stopped(),
            restored(encoded@, Learned::fresh(), false),
        ) {
            Ok((raw, _)) => r matches Ok(v) && v@ == raw,
            Err(e) => r matches Err(m) && m@ == e,
        },
        crate::monitor::heeds(*old(cancelled), r),
        r is Ok ==> crate::monitor::told_all(*final(cancelled)),
{
    decode_with_progress(encoded, cancelled)
}

/// Restores a movie.
pub fn decode(encoded: &[u8]) -> (r: Result<Vec<u8>, String>)
    ensures
        match restored(encoded@, Learned::fresh(), false) {
            Ok((raw, _)) => r matches Ok(v) && v@ == raw,
            Err(e) => r matches Err(m) && m@ == e,
        },
{
    decode_with_cancel(encoded, &mut Unwatched)
}

/// Restores the next movie of a sequence. When that fails, nothing is learned.
pub fn decode_shared_with_progress<M: Monitor>(
    encoded: &[u8],
    state: &mut SharedContext,
    progress: &mut M,
) -> (r: Result<Vec<u8>, String>)
    requires
        !old(progress).stopped(),
        old(state)@.wf(),
    ensures
        match crate::wire::unless(
            final(progress).stopped(),
            restored(encoded@, old(state)@, true),
        ) {
            Ok((raw, after)) => r matches Ok(v) && v@ == raw && final(state)@ == after
                && final(state)@.wf(),
            Err(e) => r matches Err(m) && m@ == e && final(state)@ == old(state)@,
        },
        crate::monitor::heeds(*old(progress), r),
        r is Ok ==> crate::monitor::told_all(*final(progress)),
{
    decode_impl(encoded, progress, &None, state, true)
}


/// The bytes of a plane.
pub open spec fn bytes_at(raw: Seq<u8>, s: Segment) -> Seq<u8> {
    raw.subrange(s.offset as int, s.offset + s.len)
}

/// Whether a plane comes back from its coefficients.
pub open spec fn comes_back(raw: Seq<u8>, s: Segment) -> bool {
    match crate::plane::unpacked_plane(bytes_at(raw, s), s.blocks as int) {
        Err(_) => false,
        Ok(c) => crate::plane::packed_plane(c, s.blocks as int, s.len as int) == Ok::<
            Seq<u8>,
            Seq<char>,
        >(bytes_at(raw, s)),
    }
}

/// The planes from number `i` on that come back from their coefficients.
pub open spec fn kept_from(raw: Seq<u8>, v: Seq<Segment>, i: int) -> Seq<Segment>
    decreases v.len() - i,
{
    if i >= v.len() {
        Seq::empty()
    } else if comes_back(raw, v[i]) {
        seq![v[i]] + kept_from(raw, v, i + 1)
    } else {
        kept_from(raw, v, i + 1)
    }
}

/// How many coefficients the planes from number `i` on have.
pub open spec fn work_of(v: Seq<Segment>, i: int) -> int
    decreases v.len() - i,
{
    if i >= v.len() {
        0
    } else {
        v[i].blocks * 64 + work_of(v, i + 1)
    }
}

/// A plane's picture size, kind and slice as one number, which orders planes alike.
pub open spec fn rank(s: Segment) -> u64 {
    (((s.key.0 * 32768 + s.key.1) * 4 + s.key.2) * 0x100_0000 + s.key.3) as u64
}

/// Every plane's rank, and its number.
pub open spec fn ranked(v: Seq<Segment>) -> Seq<(u64, u64)> {
    Seq::new(v.len(), |i: int| (rank(v[i]), i as u64))
}

/// The planes in the order in which the model takes them: those of one kind and slice together, in
/// the order of the movie.
pub open spec fn grouped(v: Seq<Segment>) -> Seq<Segment> {
    crate::order::sorted(ranked(v)).map_values(|x: (u64, u64)| v[x.1 as int])
}

/// How far the encoding of a movie has come.
#[verifier::ext_equal]
pub struct Written {
    pub s: (Seq<u16>, Writing),
    pub dict: Blocks,
    pub prev: Seq<i16>,
    pub key: Option<(usize, usize, u8, usize)>,
    pub descriptors: Seq<u8>,
}

/// The descriptor of a plane.
pub open spec fn descriptor_bytes(s: Segment, exists_before: bool) -> Seq<u8> {
    (crate::wire::le_bytes(s.offset as int, 8) + crate::wire::le_bytes(s.len as int, 2)).push(
        s.blocks as u8,
    ).push((s.key.2 * 2 + crate::model_coder::flag(!exists_before)) as u8)
}

/// Encodes one plane.
pub open spec fn plane_out(raw: Seq<u8>, t: Written, g: Segment, shared: bool) -> Outcome<Written> {
    match crate::plane::unpacked_plane(bytes_at(raw, g), g.blocks as int) {
        Err(e) => Err(e),
        Ok(c) => {
            let exists_before = t.key == Some(g.key) && t.prev.len() == c.len();
            let prev = if exists_before {
                t.prev
            } else {
                Seq::new(c.len(), |i: int| 0i16)
            };
            let s = crate::model_plane::put_plane(
                t.s,
                c,
                prev,
                g.blocks as int,
                exists_before,
                g.key.2 as int,
                crate::model_plane::known_blocks(shared, t.dict),
            );
            if s.1.out.len() > LIMIT {
                Err("MOV model output exceeds memory limit"@)
            } else {
                Ok(
                    Written {
                        s,
                        dict: if shared {
                            t.dict.add_plane(c, g.blocks as int, 0)
                        } else {
                            t.dict
                        },
                        prev: c,
                        key: Some(g.key),
                        descriptors: t.descriptors + descriptor_bytes(g, exists_before),
                    },
                )
            }
        },
    }
}

/// Encodes the planes from number `k` on.
pub open spec fn planes_out(
    raw: Seq<u8>,
    t: Written,
    v: Seq<Segment>,
    k: int,
    shared: bool,
) -> Outcome<Written>
    decreases v.len() - k,
{
    if k >= v.len() {
        Ok(t)
    } else {
        match plane_out(raw, t, v[k], shared) {
            Err(e) => Err(e),
            Ok(u) => planes_out(raw, u, v, k + 1, shared),
        }
    }
}

/// Where planes lie.
pub open spec fn places(v: Seq<Segment>) -> Seq<(u64, u64)> {
    v.map_values(|s: Segment| (s.offset as u64, s.len as u64))
}

/// The record of a movie whose planes are `kept`, after its planes were encoded.
pub open spec fn record(
    raw: Seq<u8>,
    kept: Seq<Segment>,
    t: Written,
    files: int,
    shared: bool,
) -> Seq<u8> {
    let stream = t.s.1.finish();
    let head = (if shared {
        SHARED_MAGIC@
    } else {
        MAGIC@
    }) + crate::wire::le_bytes(raw.len() as int, 8) + crate::wire::le_bytes(kept.len() as int, 4)
        + crate::wire::le_bytes(stream.len() as int, 8);
    (if shared {
        head + crate::wire::le_bytes(files, 8)
    } else {
        head
    }) + t.descriptors + stream + crate::splice::gaps(raw, places(kept), 0, 0)
}

/// The record of a movie, and what the model has learned after it, before it is checked.
pub open spec fn transformed(raw: Seq<u8>, before: Learned, shared: bool) -> Outcome<
    (Seq<u8>, Learned),
> {
    if raw.len() > LIMIT {
        Err("MOV model input exceeds memory limit"@)
    } else {
        match crate::scanning::segments_of(raw) {
            Err(e) => Err(e),
            Ok(found) => {
                let kept = kept_from(raw, found, 0);
                if work_of(found, 0) > MAX_COEFFICIENTS {
                    Err("MOV model coefficient work limit"@)
                } else if kept.len() == 0 {
                    Err("MOV has no model-compatible ProRes planes"@)
                } else {
                    let start = Written {
                        s: (before.slots, Writing::start()),
                        dict: before.dict,
                        prev: Seq::empty(),
                        key: None,
                        descriptors: Seq::empty(),
                    };
                    match planes_out(raw, start, grouped(kept), 0, shared) {
                        Err(e) => Err(e),
                        Ok(t) => {
                            let out = record(raw, kept, t, before.files, shared);
                            if out.len() > LIMIT {
                                Err("MOV model output exceeds memory limit"@)
                            } else {
                                Ok(
                                    (
                                        out,
                                        Learned {
                                            slots: t.s.0,
                                            dict: t.dict,
                                            files: before.files + 1,
                                        },
                                    ),
                                )
                            }
                        },
                    }
                }
            },
        }
    }
}

/// The record of a movie that is known to stand for it, and what the model has learned after it.
pub open spec fn modelled(raw: Seq<u8>, before: Learned, shared: bool) -> Outcome<
    (Seq<u8>, Learned),
> {
    match transformed(raw, before, shared) {
        Err(e) => Err(e),
        Ok((out, after)) => match restored(out, before, shared) {
            Err(e) => Err(e),
            Ok((back, _)) => if back != raw {
                Err("MOV model byte-exact verification failed"@)
            } else {
                Ok((out, after))
            },
        },
    }
}

/// What was encoded decodes to the original movie. It is no longer than the limit, and begins with the mark of
/// a record of a sequence if it is one, and with that of a single record otherwise.
pub proof fn law_decode_undoes_encode(raw: Seq<u8>, before: Learned, shared: bool)
    ensures
        modelled(raw, before, shared) matches Ok((out, _)) ==> {
            &&& restored(out, before, shared) matches Ok((back, _)) && back == raw
            &&& out.len() <= LIMIT
            &&& out.take(8) == (if shared {
                SHARED_MAGIC@
            } else {
                MAGIC@
            })
        },
{
    if let Ok((out, _)) = modelled(raw, before, shared) {
        assert(MAGIC@.len() == 8 && SHARED_MAGIC@.len() == 8);
        assert(out.take(8) =~= (if shared {
            SHARED_MAGIC@
        } else {
            MAGIC@
        }));
    }
}

/// A record of a sequence is taken only in its place.
pub proof fn law_records_come_in_order(b: Seq<u8>, before: Learned)
    ensures
        restored(b, before, true) matches Ok((_, after)) ==> crate::wire::le64(b, 28)
            == before.files && after.files == before.files + 1,
{
}

fn check_plane(raw: &[u8], s: &Segment) -> (r: bool)
    requires
        crate::scanning::proper(*s, raw.len() as int),
    ensures
        r == comes_back(raw@, *s),
{
    let bytes = vstd::slice::slice_subrange(raw, s.offset, s.offset + s.len);
    match unpack_plane(bytes, s.blocks) {
        Err(_) => false,
        Ok(c) => match pack_plane(&c, s.blocks, s.len) {
            Err(_) => false,
            Ok(b) => same(&b, bytes),
        },
    }
}

fn measure(v: &Vec<Segment>) -> (n: u64)
    requires
        v@.len() <= MAX_SEGMENTS,
        forall|i: int| 0 <= i < v@.len() ==> (#[trigger] v@[i]).blocks <= 32,
    ensures
        n == work_of(v@, 0),
{
    let mut n: u64 = 0;
    let mut i: usize = 0;
    while i < v.len()
        invariant
            i <= v@.len() <= MAX_SEGMENTS,
            forall|i: int| 0 <= i < v@.len() ==> (#[trigger] v@[i]).blocks <= 32,
            n <= i * 2048,
            n + work_of(v@, i as int) == work_of(v@, 0),
        decreases v.len() - i,
    {
        n = n + v[i].blocks as u64 * 64;
        i += 1;
    }
    n
}

pub(crate) fn group(v: &Vec<Segment>) -> (out: Vec<Segment>)
    requires
        v@.len() <= MAX_SEGMENTS,
        forall|i: int|
            0 <= i < v@.len() ==> (#[trigger] v@[i]).key.0 <= 16384 && v@[i].key.1 <= 16384
                && v@[i].key.2 <= 2 && v@[i].key.3 < 0x100_0000,
    ensures
        out@ == grouped(v@),
        forall|i: int| 0 <= i < out@.len() ==> v@.contains(#[trigger] out@[i]),
        out@.len() == v@.len(),
{
    let mut ranks: Vec<(u64, u64)> = Vec::new();
    let mut i: usize = 0;
    while i < v.len()
        invariant
            i <= v@.len() <= MAX_SEGMENTS,
            forall|i: int|
                0 <= i < v@.len() ==> (#[trigger] v@[i]).key.0 <= 16384 && v@[i].key.1 <= 16384
                    && v@[i].key.2 <= 2 && v@[i].key.3 < 0x100_0000,
            ranks@ == ranked(v@).subrange(0, i as int),
        decreases v.len() - i,
    {
        let k = v[i].key;
        let r: u64 = ((k.0 as u64 * 32768 + k.1 as u64) * 4 + k.2 as u64) * 0x100_0000 + k.3 as u64;
        ranks.push((r, i as u64));
        i += 1;
        assert(ranks@ =~= ranked(v@).subrange(0, i as int));
    }
    assert(ranks@ =~= ranked(v@));
    let order = crate::order::sort(&ranks);
    proof {
        crate::order::law_sorted_keeps(ranked(v@));
    }
    let mut out: Vec<Segment> = Vec::new();
    let mut j: usize = 0;
    while j < order.len()
        invariant
            j <= order@.len() == v@.len(),
            order@ == crate::order::sorted(ranked(v@)),
            out@ == grouped(v@).subrange(0, j as int),
            forall|i: int| 0 <= i < out@.len() ==> v@.contains(#[trigger] out@[i]),
        decreases order.len() - j,
    {
        proof {
            assert(order@.contains(order@[j as int]));
            crate::order::law_sorted_members(ranked(v@), order@[j as int]);
            let k = choose|k: int| 0 <= k < v@.len() && ranked(v@)[k] == order@[j as int];
            assert(order@[j as int].1 == k);
        }
        let at: usize = order[j].1 as usize;
        out.push(v[at].clone());
        j += 1;
        assert(out@ =~= grouped(v@).subrange(0, j as int));
    }
    assert(out@ =~= grouped(v@));
    out
}

pub(crate) fn places_of(v: &Vec<Segment>) -> (out: Vec<(u64, u64)>)
    ensures
        out@ == places(v@),
{
    let mut out: Vec<(u64, u64)> = Vec::new();
    let mut i: usize = 0;
    while i < v.len()
        invariant
            i <= v@.len(),
            out@ == places(v@).subrange(0, i as int),
        decreases v.len() - i,
    {
        out.push((v[i].offset as u64, v[i].len as u64));
        i += 1;
        assert(out@ =~= places(v@).subrange(0, i as int));
    }
    assert(out@ =~= places(v@));
    out
}

/// Planes that lie one behind the other do not overlap.
pub proof fn lemma_places(v: Seq<Segment>, i: int, end: int, len: int)
    requires
        crate::scanning::in_line(v, 0, len),
        0 <= i <= v.len(),
        i == 0 ==> end == 0,
        i > 0 ==> end == v[i - 1].offset + v[i - 1].len,
    ensures
        crate::splice::apart(places(v), i, end),
        crate::splice::within(places(v), len),
    decreases v.len() - i,
{
    if i < v.len() {
        lemma_places(v, i + 1, v[i].offset + v[i].len, len);
    }
    assert forall|k: int| 0 <= k < places(v).len() implies #[trigger] places(v)[k].0 + places(
        v,
    )[k].1 <= len by {
        assert(crate::scanning::proper(v[k], len));
    }
}

pub proof fn lemma_kept(raw: Seq<u8>, v: Seq<Segment>, i: int, len: int)
    requires
        0 <= i <= v.len(),
        crate::scanning::in_line(v, 0, len),
    ensures
        crate::scanning::in_line(kept_from(raw, v, i), 0, len),
        kept_from(raw, v, i).len() <= v.len() - i,
        forall|j: int|
            0 <= j < kept_from(raw, v, i).len() && i > 0 ==> v[i - 1].offset + v[i - 1].len
                <= (#[trigger] kept_from(raw, v, i)[j]).offset,
        forall|j: int|
            0 <= j < kept_from(raw, v, i).len() ==> comes_back(
                raw,
                #[trigger] kept_from(raw, v, i)[j],
            ),
    decreases v.len() - i,
{
    if i < v.len() {
        lemma_kept(raw, v, i + 1, len);
        let rest = kept_from(raw, v, i + 1);
        let all = kept_from(raw, v, i);
        if comes_back(raw, v[i]) {
            assert forall|j: int| 0 <= j < all.len() implies crate::scanning::proper(
                #[trigger] all[j],
                len,
            ) && 0 <= all[j].offset && comes_back(raw, all[j]) by {
                if j > 0 {
                    assert(all[j] == rest[j - 1]);
                }
            }
            assert forall|j: int, k: int| 0 <= j < k < all.len() implies (#[trigger] all[j]).offset
                + all[j].len <= (#[trigger] all[k]).offset by {
                assert(all[k] == rest[k - 1]);
                if j > 0 {
                    assert(all[j] == rest[j - 1]);
                }
            }
            assert forall|j: int| 0 <= j < all.len() && i > 0 implies v[i - 1].offset + v[i - 1].len
                <= (#[trigger] all[j]).offset by {
                if j > 0 {
                    assert(all[j] == rest[j - 1]);
                }
            }
        } else {
            assert forall|j: int| 0 <= j < all.len() && i > 0 implies v[i - 1].offset + v[i - 1].len
                <= (#[trigger] all[j]).offset by {
                assert(v[i].offset + v[i].len <= all[j].offset);
            }
        }
    }
}

struct Encoding {
    coder: Coder,
    dictionary: BlockDictionary,
    previous: Vec<i16>,
    key: Option<(usize, usize, u8, usize)>,
    descriptors: Vec<u8>,
}

pub(crate) fn same_key(a: (usize, usize, u8, usize), b: (usize, usize, u8, usize)) -> (r: bool)
    ensures
        r == (a == b),
{
    a.0 == b.0 && a.1 == b.1 && a.2 == b.2 && a.3 == b.3
}

impl Encoding {
    spec fn model(&self) -> Written {
        Written {
            s: self.coder.model(),
            dict: self.dictionary@,
            prev: self.previous@,
            key: self.key,
            descriptors: self.descriptors@,
        }
    }

    spec fn wf(&self) -> bool {
        self.coder.wf() && self.coder.slots@.len() == crate::model_coder::CONTEXTS
            && self.dictionary@.wf()
    }

    fn plane(&mut self, raw: &[u8], g: &Segment, shared: bool) -> (r: Result<(), String>)
        requires
            old(self).wf(),
            old(self).coder.room(200000),
            crate::scanning::proper(*g, raw.len() as int),
        ensures
            match plane_out(raw@, old(self).model(), *g, shared) {
                Ok(t) => r is Ok && final(self).model() == t && final(self).wf() && final(
                    self).coder.enc.cache_size <= old(self).coder.enc.cache_size + 200000,
                Err(e) => r matches Err(m) && m@ == e,
            },
    {
        let c = unpack_plane(
            vstd::slice::slice_subrange(raw, g.offset, g.offset + g.len),
            g.blocks,
        )?;
        let exists_before: bool = match self.key {
            None => false,
            Some(k) => same_key(k, g.key) && self.previous.len() == c.len(),
        };
        if !exists_before {
            self.previous = vec![0i16; c.len()];
            assert(self.previous@ =~= Seq::new(c@.len(), |i: int| 0i16));
        }
        let ghost before = self.descriptors@;
        put_le(g.offset as u64, 8, &mut self.descriptors);
        put_le(g.len as u64, 2, &mut self.descriptors);
        self.descriptors.push(g.blocks as u8);
        self.descriptors.push(g.key.2 * 2 + if exists_before { 0 } else { 1 });
        proof {
            assert(self.descriptors@ =~= before + descriptor_bytes(*g, exists_before));
        }
        write_plane(
            &mut self.coder,
            &c,
            &self.previous,
            g.blocks,
            exists_before,
            g.key.2 as usize,
            &self.dictionary,
            shared,
        );
        if self.coder.enc.out.len() > LIMIT {
            return Err(fail("MOV model output exceeds memory limit"));
        }
        if shared {
            self.dictionary.add_plane(&c, g.blocks);
        }
        self.previous = c;
        self.key = Some(g.key);
        Ok(())
    }
}

fn assemble(
    raw: &[u8],
    kept: &Vec<Segment>,
    descriptors: &Vec<u8>,
    stream: &Vec<u8>,
    files: u64,
    shared: bool,
) -> (out: Vec<u8>)
    requires
        crate::splice::apart(places(kept@), 0, 0),
        crate::splice::within(places(kept@), raw@.len() as int),
    ensures
        forall|t: Written|
            t.descriptors == descriptors@ && t.s.1.finish() == stream@ ==> out@ == #[trigger] record(
                raw@,
                kept@,
                t,
                files as int,
                shared,
            ),
{
    let mut out: Vec<u8> = Vec::new();
    if shared {
        out.extend_from_slice(&SHARED_MAGIC);
    } else {
        out.extend_from_slice(&MAGIC);
    }
    let ghost magic = out@;
    assert(magic =~= if shared {
        SHARED_MAGIC@
    } else {
        MAGIC@
    });
    put_le(raw.len() as u64, 8, &mut out);
    put_le(kept.len() as u64, 4, &mut out);
    put_le(stream.len() as u64, 8, &mut out);
    if shared {
        put_le(files, 8, &mut out);
    }
    out.extend_from_slice(descriptors);
    out.extend_from_slice(stream);
    let ranges = places_of(kept);
    crate::splice::put_gaps(raw, &ranges, &mut out);
    out
}

fn keep_planes<M: Monitor>(raw: &[u8], found: &Vec<Segment>, total: usize, monitor: &mut M) -> (r:
    Result<Vec<Segment>, String>)
    requires
        !old(monitor).stopped(),
        crate::scanning::in_line(found@, 0, raw@.len() as int),
        found@.len() <= MAX_SEGMENTS,
        total == 3 * found@.len(),
    ensures
        match r {
            Ok(kept) => !final(monitor).stopped() && kept@ == kept_from(raw@, found@, 0),
            Err(e) => final(monitor).stopped() && e@ == "error.cancelled"@,
        },
{
    let mut kept: Vec<Segment> = Vec::new();
    let mut i: usize = 0;
    assert(kept@ + kept_from(raw@, found@, 0) =~= kept_from(raw@, found@, 0));
    while i < found.len()
        invariant
            i <= found@.len() <= MAX_SEGMENTS,
            total == 3 * found@.len(),
            !monitor.stopped(),
            crate::scanning::in_line(found@, 0, raw@.len() as int),
            kept@ + kept_from(raw@, found@, i as int) == kept_from(raw@, found@, 0),
        decreases found.len() - i,
    {
        report(monitor, &None, i, total)?;
        let ghost before = kept@;
        if check_plane(raw, &found[i]) {
            kept.push(found[i].clone());
        }
        i += 1;
        proof {
            assert(kept@ + kept_from(raw@, found@, i as int) =~= kept_from(raw@, found@, 0));
        }
    }
    assert(kept@ =~= kept_from(raw@, found@, 0));
    Ok(kept)
}

/// Encodes a movie, alone or as the next of a sequence, and reports the progress.
pub fn encode_impl<M: Monitor>(
    raw: &[u8],
    monitor: &mut M,
    state: &mut SharedContext,
    shared: bool,
) -> (r: Result<Vec<u8>, String>)
    requires
        !old(monitor).stopped(),
        old(state)@.wf(),
    ensures
        match crate::wire::unless(final(monitor).stopped(), modelled(raw@, old(state)@, shared)) {
            Ok((out, after)) => r matches Ok(v) && v@ == out && (shared ==> final(state)@ == after
                && final(state)@.wf()),
            Err(e) => r matches Err(m) && m@ == e && final(state)@ == old(state)@,
        },
        raw@.len() <= LIMIT ==> crate::monitor::heeds(*old(monitor), r),
        raw@.len() <= LIMIT ==> crate::monitor::opens(
            *old(monitor),
            0,
            1,
            1 + crate::scanning::questions(raw@),
            *final(monitor),
        ),
        r is Ok ==> crate::monitor::told_all(*final(monitor)),
{
    if raw.len() > LIMIT {
        return Err(fail("MOV model input exceeds memory limit"));
    }
    let first = report(monitor, &None, 0, 1);
    let ghost then = *monitor;
    proof {
        crate::monitor::lemma_unasked(*old(monitor), 0, 1);
        crate::scanning::lemma_atoms_asked(raw@, 0, 0, Seq::empty());
        if first is Ok {
            crate::monitor::lemma_agreed(*old(monitor), 0, 1, *monitor);
            crate::monitor::lemma_agreed_more(*old(monitor), 0, 1, 0, *old(monitor), *monitor);
        } else {
            assert(crate::monitor::agreed(*old(monitor), 0, 1, 0, *old(monitor)));
        }
    }
    first?;
    let searched = find_segments_with_cancel(raw, monitor);
    let ghost many = crate::scanning::questions(raw@);
    let ghost mid = *monitor;
    proof {
        if monitor.stopped() {
            crate::monitor::lemma_broke_off_later(*old(monitor), 0, 1, 1, then, many, mid);
        } else {
            crate::monitor::lemma_agreed_sum(*old(monitor), 0, 1, 1, then, many, mid);
            crate::monitor::lemma_opened(*old(monitor), 0, 1, 1 + many, mid);
        }
    }
    let found = searched?;
    proof {
        crate::scanning::law_segments_in_line(raw@);
        assert forall|i: int| 0 <= i < found@.len() implies (#[trigger] found@[i]).blocks <= 32 by {
            assert(crate::scanning::proper(found@[i], raw@.len() as int));
        }
    }
    if measure(&found) > MAX_COEFFICIENTS as u64 {
        return Err(fail("MOV model coefficient work limit"));
    }
    let phase: usize = found.len();
    let total: usize = phase * 3;
    let kept = keep_planes(raw, &found, total, monitor)?;
    proof {
        lemma_kept(raw@, found@, 0, raw@.len() as int);
        assert forall|i: int| 0 <= i < kept@.len() implies (#[trigger] kept@[i]).key.0 <= 16384
            && kept@[i].key.1 <= 16384 && kept@[i].key.2 <= 2 && kept@[i].key.3 < 0x100_0000 by {
            assert(crate::scanning::proper(kept@[i], raw@.len() as int));
        }
        lemma_places(kept@, 0, 0, raw@.len() as int);
    }
    if kept.len() == 0 {
        return Err(fail("MOV has no model-compatible ProRes planes"));
    }
    let list = group(&kept);
    let copy = state.clone();
    let mut t = Encoding {
        coder: Coder { slots: copy.probabilities, enc: Enc::new() },
        dictionary: copy.dictionary,
        previous: Vec::new(),
        key: None,
        descriptors: Vec::new(),
    };
    let ghost result = modelled(raw@, old(state)@, shared);
    let ghost whole = planes_out(raw@, t.model(), list@, 0, shared);
    proof {
        assert(t.previous@ =~= Seq::empty());
        assert(t.descriptors@ =~= Seq::empty());
        assert(whole matches Err(e) ==> result == Err::<(Seq<u8>, Learned), Seq<char>>(e));
    }
    let mut k: usize = 0;
    while k < list.len()
        invariant
            t.wf(),
            k <= list@.len() <= phase <= MAX_SEGMENTS,
            total == phase * 3,
            t.coder.enc.cache_size <= 1 + 200000 * k,
            !monitor.stopped(),
            !crate::monitor::refuses(*old(monitor)),
            crate::monitor::puts_up_with(
                *old(monitor),
                0,
                1,
                1 + crate::scanning::questions(raw@),
            ),
            *state == *old(state),
            forall|i: int| 0 <= i < list@.len() ==> kept@.contains(#[trigger] list@[i]),
            crate::scanning::in_line(kept@, 0, raw@.len() as int),
            result == modelled(raw@, old(state)@, shared),
            whole matches Err(e) ==> result == Err::<(Seq<u8>, Learned), Seq<char>>(e),
            whole == planes_out(raw@, t.model(), list@, k as int, shared),
        decreases list.len() - k,
    {
        report(monitor, &None, phase + k, total)?;
        proof {
            assert(kept@.contains(list@[k as int]));
            let j = choose|j: int| 0 <= j < kept@.len() && kept@[j] == list@[k as int];
            assert(crate::scanning::proper(kept@[j], raw@.len() as int));
        }
        t.plane(raw, &list[k], shared)?;
        k += 1;
    }
    let ghost done = t.model();
    let slots = t.coder.slots;
    let stream = t.coder.enc.finish();
    let out = assemble(raw, &kept, &t.descriptors, &stream, state.files, shared);
    assert(out@ == record(raw@, kept@, done, old(state)@.files, shared));
    if out.len() > LIMIT {
        return Err(fail("MOV model output exceeds memory limit"));
    }
    let share = Some(
        Share { base: (phase * 2) as u64, span: phase as u64, whole: total as u64 },
    );
    let mut trial = state.clone();
    let back = decode_impl(&out, monitor, &share, &mut trial, shared)?;
    if !same(&back, raw) {
        return Err(fail("MOV model byte-exact verification failed"));
    }
    let ghost before = *monitor;
    report(monitor, &None, total, total)?;
    assert(before.told(total as u64, total as u64, true, monitor));
    assert(crate::monitor::last_told(*monitor, total as u64, total as u64));
    if shared {
        let files: u64 = state.files + 1;
        *state = SharedContext { probabilities: slots, dictionary: t.dictionary, files };
    }
    Ok(out)
}

/// Encodes a movie.
pub fn encode_with_progress<M: Monitor>(raw: &[u8], progress: &mut M) -> (r: Result<
    Vec<u8>,
    String,
>)
    requires
        !old(progress).stopped(),
    ensures
        match crate::wire::unless(
            final(progress).stopped(),
            modelled(raw@, Learned::fresh(), false),
        ) {
            Ok((out, _)) => r matches Ok(v) && v@ == out,
            Err(e) => r matches Err(m) && m@ == e,
        },
        raw@.len() <= LIMIT ==> crate::monitor::heeds(*old(progress), r),
        raw@.len() <= LIMIT ==> crate::monitor::opens(
            *old(progress),
            0,
            1,
            1 + crate::scanning::questions(raw@),
            *final(progress),
        ),
        r is Ok ==> crate::monitor::told_all(*final(progress)),
{
    let mut state = SharedContext::default();
    encode_impl(raw, progress, &mut state, false)
}

/// Encodes a movie, unless the watcher stops it.
pub fn encode_with_cancel<M: Monitor>(raw: &[u8], cancelled: &mut M) -> (r: Result<
    Vec<u8>,
    String,
>)
    requires
        !old(cancelled).stopped(),
    ensures
        match crate::wire::unless(
            final(cancelled).stopped(),
            modelled(raw@, Learned::fresh(), false),
        ) {
            Ok((out, _)) => r matches Ok(v) && v@ == out,
            Err(e) => r matches Err(m) && m@ == e,
        },
        raw@.len() <= LIMIT ==> crate::monitor::heeds(*old(cancelled), r),
        raw@.len() <= LIMIT ==> crate::monitor::opens(
            *old(cancelled),
            0,
            1,
            1 + crate::scanning::questions(raw@),
            *final(cancelled),
        ),
        r is Ok ==> crate::monitor::told_all(*final(cancelled)),
{
    encode_with_progress(raw, cancelled)
}

/// Encodes a movie.
pub fn encode(raw: &[u8]) -> (r: Result<Vec<u8>, String>)
    ensures
        match modelled(raw@, Learned::fresh(), false) {
            Ok((out, _)) => r matches Ok(v) && v@ == out,
            Err(e) => r matches Err(m) && m@ == e,
        },
{
    encode_with_cancel(raw, &mut Unwatched)
}

/// Encodes the next movie of a sequence. When that fails, nothing is learned.
pub fn encode_shared_with_progress<M: Monitor>(
    raw: &[u8],
    state: &mut SharedContext,
    progress: &mut M,
) -> (r: Result<Vec<u8>, String>)
    requires
        !old(progress).stopped(),
        old(state)@.wf(),
    ensures
        match crate::wire::unless(
            final(progress).stopped(),
            modelled(raw@, old(state)@, true),
        ) {
            Ok((out, after)) => r matches Ok(v) && v@ == out && final(state)@ == after
                && final(state)@.wf(),
            Err(e) => r matches Err(m) && m@ == e && final(state)@ == old(state)@,
        },
        raw@.len() <= LIMIT ==> crate::monitor::heeds(*old(progress), r),
        raw@.len() <= LIMIT ==> crate::monitor::opens(
            *old(progress),
            0,
            1,
            1 + crate::scanning::questions(raw@),
            *final(progress),
        ),
        r is Ok ==> crate::monitor::told_all(*final(progress)),
{
    encode_impl(raw, progress, state, true)
}

}
