//! Archives in several files, each with a header that says where it belongs.

use crate::locale::message_with;
use crate::text::{after_last, letters, lower, parse_number, spells, text};
use crate::wire::{fail, put_le, read_le32, read_le64, same, Outcome};
use vstd::prelude::*;

verus! {

pub const MAGIC: [u8; 8] = [83, 80, 86, 79, 76, 0, 2, 0];

/// The length of the header of a part.
pub const HEADER: u64 = 96;

/// The most parts that an archive can have.
pub const MAX_PARTS: u32 = 10_000;

/// How an archive is split: not at all, into a number of parts, or into parts of a size.
#[derive(Clone, Copy, Debug, PartialEq, Eq, Structural)]
pub enum Split {
    Whole,
    Count(u32),
    Size(u64),
}

impl Split {
    /// Why an archive cannot be split so, if it cannot.
    pub open spec fn fault(self) -> Outcome<()> {
        match self {
            Split::Whole => Ok(()),
            Split::Count(n) => if n < 2 || n > MAX_PARTS {
                Err("error.part_count_range"@)
            } else {
                Ok(())
            },
            Split::Size(n) => if n <= HEADER {
                Err("error.part_size_min"@)
            } else {
                Ok(())
            },
        }
    }

    pub fn validate(&self) -> (r: Result<(), String>)
        ensures
            crate::scan::unit_of(r) == self.fault(),
    {
        match *self {
            Split::Whole => Ok(()),
            Split::Count(n) => if n < 2 || n > MAX_PARTS {
                Err(fail("error.part_count_range"))
            } else {
                Ok(())
            },
            Split::Size(n) => if n <= HEADER {
                Err(fail("error.part_size_min"))
            } else {
                Ok(())
            },
        }
    }
}

/// The header of a part: its number, how many parts there are, how long the archive and the part are,
/// and the checksums of both.
#[derive(Clone, Copy)]
pub struct Header {
    pub index: u32,
    pub count: u32,
    pub total: u64,
    pub len: u64,
    pub archive: [u8; 32],
    pub hash: [u8; 32],
}

impl Header {
    /// The bytes of a header.
    pub open spec fn bytes(self) -> Seq<u8> {
        MAGIC@ + crate::wire::le_bytes(self.index as int, 4) + crate::wire::le_bytes(
            self.count as int,
            4,
        ) + crate::wire::le_bytes(self.total as int, 8) + crate::wire::le_bytes(self.len as int, 8)
            + self.archive@ + self.hash@
    }

    /// Whether a header can stand before a file of a length.
    pub open spec fn sound(self) -> bool {
        &&& 2 <= self.count <= MAX_PARTS
        &&& 1 <= self.index <= self.count
        &&& 1 <= self.len <= self.total
    }

    /// Whether the bytes hold the fields of a header.
    pub open spec fn reads(self, b: Seq<u8>) -> bool {
        &&& self.index == crate::wire::le32(b, 8)
        &&& self.count == crate::wire::le32(b, 12)
        &&& self.total == crate::wire::le64(b, 16)
        &&& self.len == crate::wire::le64(b, 24)
        &&& self.archive@ == b.subrange(32, 64)
        &&& self.hash@ == b.subrange(64, 96)
    }

    pub fn write(&self) -> (out: Vec<u8>)
        ensures
            out@ == self.bytes(),
            out@.len() == HEADER,
    {
        let mut out: Vec<u8> = Vec::new();
        out.extend_from_slice(&MAGIC);
        put_le(self.index as u64, 4, &mut out);
        put_le(self.count as u64, 4, &mut out);
        put_le(self.total, 8, &mut out);
        put_le(self.len, 8, &mut out);
        out.extend_from_slice(&self.archive);
        out.extend_from_slice(&self.hash);
        proof {
            reveal_with_fuel(crate::wire::le_bytes, 9);
        }
        out
    }

    /// Reads the header of a file that is `size` bytes long.
    pub fn read(b: &[u8], size: u64) -> (r: Result<Header, String>)
        requires
            b@.len() == HEADER,
        ensures
            match r {
                Ok(h) => b@.take(8) == MAGIC@ && h.reads(b@) && h.sound() && h.len + HEADER == size,
                Err(e) => {
                    ||| e@ == "error.not_volume"@ && b@.take(8) != MAGIC@
                    ||| e@ == "error.part_length_overflow"@ && b@.take(8) == MAGIC@ && exists|h: Header|
                        h.reads(b@) && #[trigger] h.sound() && h.len + HEADER > u64::MAX
                    ||| e@ == "error.invalid_volume_header"@ && b@.take(8) == MAGIC@ && forall|h: Header|
                        #[trigger] h.reads(b@) ==> !h.sound() || (h.len + HEADER <= u64::MAX && h.len
                            + HEADER != size)
                },
            },
    {
        assert(b@.subrange(0, 8) =~= b@.take(8));
        if !same(&b[0..8], &MAGIC) {
            return Err(fail("error.not_volume"));
        }
        let h = Header {
            index: read_le32(b, 8),
            count: read_le32(b, 12),
            total: read_le64(b, 16),
            len: read_le64(b, 24),
            archive: thirty_two(b, 32),
            hash: thirty_two(b, 64),
        };
        assert(h.reads(b@));
        if h.count < 2 || h.count > MAX_PARTS || h.index == 0 || h.index > h.count || h.len == 0
            || h.total < h.len {
            assert(!h.sound());
            return Err(fail("error.invalid_volume_header"));
        }
        assert(h.sound());
        match h.len.checked_add(HEADER) {
            None => Err(fail("error.part_length_overflow")),
            Some(n) => if n != size {
                Err(fail("error.invalid_volume_header"))
            } else {
                Ok(h)
            },
        }
    }

    /// Whether two headers belong to one archive.
    pub open spec fn kin(self, other: Header) -> bool {
        self.count == other.count && self.total == other.total && self.archive@ == other.archive@
    }

    /// Whether this is the header of part number `index` of the archive that another belongs to.
    pub fn is_part(&self, index: u32, other: &Header) -> (r: bool)
        ensures
            r == (self.index == index && self.kin(*other)),
    {
        self.index == index && self.count == other.count && self.total == other.total && same(
            &self.archive,
            &other.archive,
        )
    }
}

/// What is wrong with a part whose checksum is `hash`.
pub open spec fn part_fault(h: Header, index: int, hash: Seq<u8>) -> Outcome<()> {
    if hash == h.hash@ {
        Ok(())
    } else {
        Err(crate::locale::coded_message("error.volume_checksum"@, seq![decimal(index)]))
    }
}

/// What is wrong with an archive whose checksum is `hash`.
pub open spec fn archive_fault(h: Header, hash: Seq<u8>) -> Outcome<()> {
    if hash == h.archive@ {
        Ok(())
    } else {
        Err("error.archive_checksum"@)
    }
}

impl Header {
    /// Checks part number `index`, which has this header, by its checksum.
    pub fn check(&self, index: u32, hash: &[u8; 32]) -> (r: Result<(), String>)
        ensures
            crate::scan::unit_of(r) == part_fault(*self, index as int, hash@),
    {
        if same(hash, &self.hash) {
            Ok(())
        } else {
            Err(message_with("error.volume_checksum", write_decimal(index as u64)))
        }
    }

    /// Checks the archive that a part with this header belongs to, by its checksum.
    pub fn check_archive(&self, hash: &[u8; 32]) -> (r: Result<(), String>)
        ensures
            crate::scan::unit_of(r) == archive_fault(*self, hash@),
    {
        if same(hash, &self.archive) {
            Ok(())
        } else {
            Err(fail("error.archive_checksum"))
        }
    }
}

fn thirty_two(b: &[u8], at: usize) -> (r: [u8; 32])
    requires
        at + 32 <= b.len(),
    ensures
        r@ == b@.subrange(at as int, at + 32),
{
    let mut r: [u8; 32] = [0u8; 32];
    let mut i: usize = 0;
    while i < 32
        invariant
            i <= 32,
            at + 32 <= b.len(),
            forall|k: int| 0 <= k < i ==> #[trigger] r@[k] == b@[at + k],
        decreases 32 - i,
    {
        r[i] = b[at + i];
        i += 1;
    }
    assert(r@ =~= b@.subrange(at as int, at + 32));
    r
}

proof fn lemma_parts(m: Seq<u8>, i: Seq<u8>, c: Seq<u8>, t: Seq<u8>, l: Seq<u8>, a: Seq<u8>, h: Seq<u8>)
    requires
        m.len() == 8,
        i.len() == 4,
        c.len() == 4,
        t.len() == 8,
        l.len() == 8,
        a.len() == 32,
        h.len() == 32,
    ensures
        ({
            let b = m + i + c + t + l + a + h;
            &&& b.len() == 96
            &&& b.take(8) == m
            &&& b.subrange(8, 12) == i
            &&& b.subrange(12, 16) == c
            &&& b.subrange(16, 24) == t
            &&& b.subrange(24, 32) == l
            &&& b.subrange(32, 64) == a
            &&& b.subrange(64, 96) == h
        }),
{
    let b = m + i + c + t + l + a + h;
    assert(b.take(8) =~= m);
    assert(b.subrange(8, 12) =~= i);
    assert(b.subrange(12, 16) =~= c);
    assert(b.subrange(16, 24) =~= t);
    assert(b.subrange(24, 32) =~= l);
    assert(b.subrange(32, 64) =~= a);
    assert(b.subrange(64, 96) =~= h);
}

/// Reading a header gives back what was written.
#[verifier::spinoff_prover]
pub proof fn law_read_undoes_write(h: Header)
    ensures
        h.bytes().len() == HEADER,
        h.bytes().take(8) == MAGIC@,
        h.reads(h.bytes()),
{
    let b = h.bytes();
    let (i, c) = (crate::wire::le_bytes(h.index as int, 4), crate::wire::le_bytes(h.count as int, 4));
    let (t, l) = (crate::wire::le_bytes(h.total as int, 8), crate::wire::le_bytes(h.len as int, 8));
    crate::wire::lemma_lengths(h.index as int);
    crate::wire::lemma_lengths(h.count as int);
    crate::wire::lemma_lengths(h.total as int);
    crate::wire::lemma_lengths(h.len as int);
    lemma_parts(MAGIC@, i, c, t, l, h.archive@, h.hash@);
    crate::wire::lemma_le32_at(b, 8, h.index as int);
    crate::wire::lemma_le32_at(b, 12, h.count as int);
    crate::wire::lemma_le64_at(b, 16, h.total as int);
    crate::wire::lemma_le64_at(b, 24, h.len as int);
}

/// How many pieces of a length it takes to hold `total` bytes.
pub open spec fn pieces(total: int, room: int) -> int {
    (total + room - 1) / room
}

/// Into how many parts an archive of `total` bytes is split, or `None` where it is not.
pub open spec fn part_number(total: int, split: Split) -> Outcome<Option<int>> {
    match split.fault() {
        Err(e) => Err(e),
        Ok(_) => match split {
            Split::Whole => Ok(None),
            Split::Count(n) => if total < n {
                Err("error.part_count_exceeds_data"@)
            } else {
                Ok(Some(n as int))
            },
            Split::Size(n) => if total <= n {
                Ok(None)
            } else {
                let count = pieces(total, n - HEADER);
                if count > u32::MAX {
                    Err("error.too_many_parts"@)
                } else if count > MAX_PARTS {
                    Err("error.part_count_exceeds_data"@)
                } else {
                    Ok(Some(count))
                }
            },
        },
    }
}

/// The length of part number `i`, counted from zero, of `count`.
pub open spec fn part_length(total: int, split: Split, count: int, i: int) -> int {
    match split {
        Split::Size(n) => if (i + 1) * (n - HEADER) <= total {
            n - HEADER
        } else {
            total - i * (n - HEADER)
        },
        _ => total / count + if i < total % count {
            1int
        } else {
            0
        },
    }
}

/// The lengths of the parts of an archive.
pub open spec fn part_lengths(total: int, split: Split, count: int) -> Seq<int> {
    Seq::new(count as nat, |i: int| part_length(total, split, count, i))
}

pub open spec fn lengths_of(v: Seq<u64>) -> Seq<int> {
    Seq::new(v.len(), |i: int| v[i] as int)
}

proof fn lemma_pieces(total: int, room: int)
    requires
        0 < room < total,
    ensures
        2 <= pieces(total, room) <= total,
        (pieces(total, room) - 1) * room < total <= pieces(total, room) * room,
{
    let n = pieces(total, room);
    vstd::arithmetic::div_mod::lemma_fundamental_div_mod(total + room - 1, room);
    assert((n - 1) * room < total <= n * room && 2 <= n <= total) by (nonlinear_arith)
        requires
            total + room - 1 == room * n + (total + room - 1) % room,
            0 <= (total + room - 1) % room < room,
            0 < room < total,
    ;
}

/// Plans the parts of an archive of `total` bytes: their lengths, or `None` where it is not split.
pub fn plan_parts(total: u64, split: &Split) -> (r: Result<Option<Vec<u64>>, String>)
    ensures
        match part_number(total as int, *split) {
            Err(e) => r matches Err(f) && f@ == e,
            Ok(None) => r matches Ok(None),
            Ok(Some(count)) => r matches Ok(Some(v)) && lengths_of(v@) == part_lengths(
                total as int,
                *split,
                count,
            ),
        },
{
    split.validate()?;
    let count: u64 = match *split {
        Split::Whole => {
            return Ok(None);
        },
        Split::Count(n) => n as u64,
        Split::Size(n) => {
            if total <= n {
                return Ok(None);
            }
            proof {
                lemma_pieces(total as int, n - HEADER);
            }
            let room: u64 = n - HEADER;
            let count: u64 = (total - 1) / room + 1;
            proof {
                assert(count == pieces(total as int, room as int)) by {
                    vstd::arithmetic::div_mod::lemma_div_plus_one((total - 1) as int, room as int);
                    assert(total + room - 1 == room + (total - 1));
                }
            }
            if count > 0xffff_ffff {
                return Err(fail("error.too_many_parts"));
            }
            count
        },
    };
    if count > MAX_PARTS as u64 || total < count {
        return Err(fail("error.part_count_exceeds_data"));
    }
    let mut out: Vec<u64> = Vec::new();
    let mut i: u64 = 0;
    while i < count
        invariant
            i <= count,
            2 <= count <= MAX_PARTS,
            total >= count,
            out@.len() == i,
            part_number(total as int, *split) == Ok::<Option<int>, Seq<char>>(Some(count as int)),
            split matches Split::Size(n) ==> n > HEADER && n < total && count == pieces(
                total as int,
                n - HEADER,
            ),
            split matches Split::Count(n) ==> count == n,
            split !is Whole,
            forall|k: int|
                0 <= k < i ==> #[trigger] out@[k] == part_length(total as int, *split, count as int, k),
        decreases count - i,
    {
        let len: u64 = match *split {
            Split::Size(n) => {
                let room: u64 = n - HEADER;
                proof {
                    lemma_pieces(total as int, room as int);
                    assert(0 <= i * room <= (count - 1) * room && (i + 1) * room == i * room + room)
                        by (nonlinear_arith)
                        requires
                            0 <= i < count,
                            room > 0,
                    ;
                }
                let left: u64 = total - i * room;
                if room <= left {
                    room
                } else {
                    left
                }
            },
            _ => {
                assert(total / count <= total / 2) by (nonlinear_arith)
                    requires
                        count >= 2,
                ;
                total / count + if i < total % count {
                    1
                } else {
                    0
                }
            },
        };
        out.push(len);
        i += 1;
    }
    assert(lengths_of(out@) =~= part_lengths(total as int, *split, count as int));
    Ok(Some(out))
}

/// The sum of the first `n` lengths.
pub open spec fn sum(v: Seq<int>, n: int) -> int
    decreases n,
{
    if n <= 0 {
        0
    } else {
        sum(v, n - 1) + v[n - 1]
    }
}

proof fn lemma_sum_size(total: int, split: Split, count: int, n: int)
    requires
        split matches Split::Size(s) && HEADER < s < total && count == pieces(total, s - HEADER),
        0 <= n <= count,
    ensures
        ({
            let room = split->Size_0 - HEADER;
            sum(part_lengths(total, split, count), n) == if n * room <= total {
                n * room
            } else {
                total
            }
        }),
    decreases n,
{
    let room = split->Size_0 - HEADER;
    let v = part_lengths(total, split, count);
    lemma_pieces(total, room);
    if n > 0 {
        lemma_sum_size(total, split, count, n - 1);
        assert(v[n - 1] == part_length(total, split, count, n - 1));
        assert((n - 1) * room + room == n * room && (n - 1) * room <= (count - 1) * room)
            by (nonlinear_arith)
            requires
                1 <= n <= count,
                room > 0,
        ;
    } else {
        assert(n * room == 0) by (nonlinear_arith)
            requires
                n == 0,
        ;
    }
}

proof fn lemma_sum_count(total: int, split: Split, count: int, n: int)
    requires
        split is Count,
        0 <= n <= count,
        0 < count,
        0 <= total,
    ensures
        sum(part_lengths(total, split, count), n) == n * (total / count) + if n < total % count {
            n
        } else {
            total % count
        },
    decreases n,
{
    let v = part_lengths(total, split, count);
    if n > 0 {
        lemma_sum_count(total, split, count, n - 1);
        assert(v[n - 1] == part_length(total, split, count, n - 1));
        assert((n - 1) * (total / count) + total / count == n * (total / count)) by (nonlinear_arith);
    } else {
        assert(n * (total / count) == 0) by (nonlinear_arith)
            requires
                n == 0,
        ;
    }
}

/// The parts of an archive hold all of it, none is empty, and none is longer than it may be.
pub proof fn law_parts_hold_the_archive(total: int, split: Split)
    requires
        0 <= total <= u64::MAX,
    ensures
        part_number(total, split) matches Ok(Some(count)) ==> {
            let v = part_lengths(total, split, count);
            &&& 2 <= count <= MAX_PARTS
            &&& v.len() == count
            &&& sum(v, count) == total
            &&& forall|i: int| 0 <= i < count ==> 1 <= #[trigger] v[i]
            &&& split matches Split::Size(n) ==> forall|i: int|
                0 <= i < count ==> #[trigger] v[i] + HEADER <= n
        },
{
    if let Ok(Some(count)) = part_number(total, split) {
        let v = part_lengths(total, split, count);
        match split {
            Split::Size(s) => {
                let room = s - HEADER;
                lemma_pieces(total, room);
                lemma_sum_size(total, split, count, count);
                assert forall|i: int| 0 <= i < count implies 1 <= #[trigger] v[i] && v[i] + HEADER <= s by {
                    assert(v[i] == part_length(total, split, count, i));
                    assert(i * room <= (count - 1) * room && (i + 1) * room == i * room + room)
                        by (nonlinear_arith)
                        requires
                            0 <= i < count,
                            room > 0,
                    ;
                }
            },
            _ => {
                lemma_sum_count(total, split, count, count);
                vstd::arithmetic::div_mod::lemma_fundamental_div_mod(total, count);
                assert(total / count >= 1) by (nonlinear_arith)
                    requires
                        total >= count,
                        count > 0,
                ;
            },
        }
    }
}

/// Checks that headers belong to one archive, in order, and hold all of it, and returns its length.
pub open spec fn set_from(first: Header, rest: Seq<Header>, i: int, done: int, names: Seq<Seq<char>>) -> Outcome<
    int,
>
    decreases rest.len() - i,
{
    if i >= rest.len() {
        if done == first.total {
            Ok(done)
        } else {
            Err("error.parts_length_mismatch"@)
        }
    } else if rest[i].index != i + 1 || !rest[i].kin(first) {
        Err(crate::locale::coded_message("error.volume_set_at"@, seq![names[i]]))
    } else if done + rest[i].len > u64::MAX {
        Err("error.part_length_overflow"@)
    } else {
        set_from(first, rest, i + 1, done + rest[i].len, names)
    }
}

/// Whether headers are those of the parts that an archive is split into.
pub open spec fn planned(all: Seq<Header>, total: int, split: Split, archive: Seq<u8>) -> bool {
    part_number(total, split) matches Ok(Some(count)) && all.len() == count && forall|i: int|
        0 <= i < count ==> (#[trigger] all[i]).index == i + 1 && all[i].count == count && all[i].total
            == total && all[i].archive@ == archive && all[i].len == part_length(total, split, count, i)
}

proof fn lemma_planned(
    all: Seq<Header>,
    total: int,
    split: Split,
    archive: Seq<u8>,
    first: Header,
    names: Seq<Seq<char>>,
    i: int,
)
    requires
        0 <= total <= u64::MAX,
        planned(all, total, split, archive),
        all.contains(first),
        0 <= i <= all.len(),
    ensures
        ({
            let v = part_lengths(total, split, all.len() as int);
            set_from(first, all, i, sum(v, i), names) == Ok::<int, Seq<char>>(total)
        }),
    decreases all.len() - i,
{
    let count = all.len() as int;
    let v = part_lengths(total, split, count);
    law_parts_hold_the_archive(total, split);
    if i < count {
        assert(all[i].index == i + 1);
        assert(v[i] == all[i].len);
        lemma_planned(all, total, split, archive, first, names, i + 1);
        lemma_sum_grows(v, i + 1, count);
    } else {
        assert(first.total == total);
    }
}

proof fn lemma_sum_grows(v: Seq<int>, n: int, m: int)
    requires
        0 <= n <= m <= v.len(),
        forall|i: int| 0 <= i < v.len() ==> 1 <= #[trigger] v[i],
    ensures
        sum(v, n) <= sum(v, m),
    decreases m - n,
{
    if n < m {
        lemma_sum_grows(v, n, m - 1);
    }
}

/// The headers of the parts that an archive is split into are accepted, whichever of them is asked, and
/// each can stand before its part.
pub proof fn law_planned_parts_are_accepted(
    all: Seq<Header>,
    total: int,
    split: Split,
    archive: Seq<u8>,
    k: int,
    names: Seq<Seq<char>>,
)
    requires
        0 <= total <= u64::MAX,
        planned(all, total, split, archive),
        0 <= k < all.len(),
    ensures
        set_from(all[k], all, 0, 0, names) == Ok::<int, Seq<char>>(total),
        all[k].sound(),
{
    law_parts_hold_the_archive(total, split);
    assert(all.contains(all[k]));
    let count = all.len() as int;
    let v = part_lengths(total, split, count);
    lemma_planned(all, total, split, archive, all[k], names, 0);
    assert(v[k] == all[k].len);
    lemma_sum_grows(v, 0, k);
    lemma_sum_grows(v, k + 1, count);
}

/// How many bytes of an archive each part holds, by its header.
pub open spec fn held(all: Seq<Header>) -> Seq<int> {
    Seq::new(all.len(), |i: int| all[i].len as int)
}

proof fn lemma_whole(first: Header, all: Seq<Header>, names: Seq<Seq<char>>, i: int, done: int)
    requires
        0 <= i <= all.len(),
        done == sum(held(all), i),
    ensures
        set_from(first, all, i, done, names) matches Ok(n) ==> {
            &&& n == first.total
            &&& sum(held(all), all.len() as int) == first.total
            &&& forall|k: int| i <= k < all.len() ==> (#[trigger] all[k]).index == k + 1 && all[k].kin(first)
        },
    decreases all.len() - i,
{
    if i < all.len() {
        assert(held(all)[i] == all[i].len);
        lemma_whole(first, all, names, i + 1, done + all[i].len);
    }
}

/// Headers are accepted only where each stands in its place, belongs to the archive of the first, and together
/// they hold all of it. So one that is missing, changed or out of place is refused.
pub proof fn law_accepted_parts_are_whole(first: Header, all: Seq<Header>, names: Seq<Seq<char>>)
    ensures
        set_from(first, all, 0, 0, names) matches Ok(n) ==> {
            &&& n == first.total
            &&& sum(held(all), all.len() as int) == first.total
            &&& forall|k: int| 0 <= k < all.len() ==> (#[trigger] all[k]).index == k + 1 && all[k].kin(first)
        },
{
    lemma_whole(first, all, names, 0, 0);
}

/// What parts hold together, from number `i` on, behind `done`, where each is checked against its header.
pub open spec fn joined_from(all: Seq<Header>, pieces: Seq<Seq<u8>>, i: int, done: Seq<u8>) -> Outcome<Seq<u8>>
    decreases all.len() - i,
{
    if i >= all.len() {
        Ok(done)
    } else {
        match part_fault(all[i], i + 1, crate::compression::checksum(pieces[i])) {
            Err(e) => Err(e),
            Ok(_) => joined_from(all, pieces, i + 1, done + pieces[i]),
        }
    }
}

/// The archive that parts hold, where `first` is the header of the one that was asked for: the headers are checked
/// first, then each part, then the whole.
pub open spec fn joined(first: Header, all: Seq<Header>, names: Seq<Seq<char>>, pieces: Seq<Seq<u8>>) -> Outcome<
    Seq<u8>,
> {
    match set_from(first, all, 0, 0, names) {
        Err(e) => Err(e),
        Ok(_) => match joined_from(all, pieces, 0, Seq::empty()) {
            Err(e) => Err(e),
            Ok(whole) => match archive_fault(first, crate::compression::checksum(whole)) {
                Err(e) => Err(e),
                Ok(_) => Ok(whole),
            },
        },
    }
}

/// The parts of an archive that is split into `count`.
pub open spec fn cut(archive: Seq<u8>, split: Split, count: int) -> Seq<Seq<u8>> {
    let v = part_lengths(archive.len() as int, split, count);
    Seq::new(count as nat, |i: int| archive.subrange(sum(v, i), sum(v, i + 1)))
}

proof fn lemma_joined(archive: Seq<u8>, split: Split, all: Seq<Header>, i: int)
    requires
        archive.len() <= u64::MAX,
        planned(all, archive.len() as int, split, crate::compression::checksum(archive)),
        forall|k: int|
            0 <= k < all.len() ==> (#[trigger] all[k]).hash@ == crate::compression::checksum(
                cut(archive, split, all.len() as int)[k],
            ),
        0 <= i <= all.len(),
    ensures
        ({
            let v = part_lengths(archive.len() as int, split, all.len() as int);
            joined_from(all, cut(archive, split, all.len() as int), i, archive.take(sum(v, i))) == Ok::<
                Seq<u8>,
                Seq<char>,
            >(archive)
        }),
    decreases all.len() - i,
{
    let count = all.len() as int;
    let v = part_lengths(archive.len() as int, split, count);
    let pieces = cut(archive, split, count);
    law_parts_hold_the_archive(archive.len() as int, split);
    if i < count {
        assert(all[i].hash@ == crate::compression::checksum(pieces[i]));
        lemma_sum_grows(v, 0, i);
        lemma_sum_grows(v, i, i + 1);
        lemma_sum_grows(v, i + 1, count);
        assert(archive.take(sum(v, i)) + pieces[i] =~= archive.take(sum(v, i + 1)));
        lemma_joined(archive, split, all, i + 1);
    } else {
        assert(archive.take(sum(v, i)) =~= archive);
    }
}

/// The parts that an archive is split into give it back, whichever of them is asked.
pub proof fn law_parts_give_the_archive_back(
    archive: Seq<u8>,
    split: Split,
    all: Seq<Header>,
    k: int,
    names: Seq<Seq<char>>,
)
    requires
        archive.len() <= u64::MAX,
        planned(all, archive.len() as int, split, crate::compression::checksum(archive)),
        forall|i: int|
            0 <= i < all.len() ==> (#[trigger] all[i]).hash@ == crate::compression::checksum(
                cut(archive, split, all.len() as int)[i],
            ),
        0 <= k < all.len(),
    ensures
        joined(all[k], all, names, cut(archive, split, all.len() as int)) == Ok::<Seq<u8>, Seq<char>>(archive),
{
    let v = part_lengths(archive.len() as int, split, all.len() as int);
    law_planned_parts_are_accepted(
        all,
        archive.len() as int,
        split,
        crate::compression::checksum(archive),
        k,
        names,
    );
    lemma_joined(archive, split, all, 0);
    assert(archive.take(sum(v, 0)) =~= Seq::empty());
    assert(all[k].archive@ == crate::compression::checksum(archive));
}

proof fn lemma_parts_checked(all: Seq<Header>, pieces: Seq<Seq<u8>>, i: int, done: Seq<u8>)
    requires
        0 <= i,
    ensures
        joined_from(all, pieces, i, done) is Ok ==> forall|k: int|
            i <= k < all.len() ==> crate::compression::checksum(pieces[k]) == (#[trigger] all[k]).hash@,
    decreases all.len() - i,
{
    if i < all.len() {
        lemma_parts_checked(all, pieces, i + 1, done + pieces[i]);
    }
}

/// Parts are joined only where each has the checksum that its header says, and the whole has that of the archive.
pub proof fn law_joined_parts_are_sound(
    first: Header,
    all: Seq<Header>,
    names: Seq<Seq<char>>,
    pieces: Seq<Seq<u8>>,
)
    ensures
        joined(first, all, names, pieces) matches Ok(whole) ==> {
            &&& crate::compression::checksum(whole) == first.archive@
            &&& forall|k: int|
                0 <= k < all.len() ==> crate::compression::checksum(pieces[k]) == (#[trigger] all[k]).hash@
        },
{
    lemma_parts_checked(all, pieces, 0, Seq::empty());
}

/// Where a part of an archive is missing, or stands in the place of another, nothing is joined.
pub proof fn law_missing_or_moved_parts_are_refused(
    all: Seq<Header>,
    total: int,
    split: Split,
    archive: Seq<u8>,
    first: Header,
    i: int,
    j: int,
    names: Seq<Seq<char>>,
    pieces: Seq<Seq<u8>>,
)
    requires
        0 <= total <= u64::MAX,
        planned(all, total, split, archive),
        all.contains(first),
        0 <= i < all.len(),
        0 <= j < all.len(),
    ensures
        joined(first, all.remove(i), names, pieces) is Err,
        i != j ==> joined(first, all.update(i, all[j]), names, pieces) is Err,
{
    let count = all.len() as int;
    let v = part_lengths(total, split, count);
    let fewer = all.remove(i);
    let other = all.update(i, all[j]);
    law_parts_hold_the_archive(total, split);
    assert(all[j].index == j + 1);
    law_accepted_parts_are_whole(first, other, names);
    assert(other[i] == all[j]);
    law_accepted_parts_are_whole(first, fewer, names);
    assert(first.total == total);
    if i < count - 1 {
        assert(fewer[i] == all[i + 1]);
        assert(all[i + 1].index == i + 2);
    } else {
        lemma_same_sum(held(fewer), v, count - 1);
        assert(sum(v, count) == sum(v, count - 1) + v[count - 1]);
    }
}

proof fn lemma_same_sum(a: Seq<int>, b: Seq<int>, n: int)
    requires
        forall|k: int| 0 <= k < n ==> a[k] == b[k],
    ensures
        sum(a, n) == sum(b, n),
    decreases n,
{
    if n > 0 {
        lemma_same_sum(a, b, n - 1);
    }
}

/// Checks the headers of all parts of an archive, in order, against one of them.
pub fn check_set(first: &Header, all: &[Header], names: &[String]) -> (r: Result<u64, String>)
    requires
        names@.len() == all@.len(),
    ensures
        match r {
            Ok(n) => set_from(*first, all@, 0, 0, crate::locale::texts(names@)) == Ok::<int, Seq<char>>(
                n as int,
            ),
            Err(e) => set_from(*first, all@, 0, 0, crate::locale::texts(names@)) == Err::<int, Seq<char>>(
                e@,
            ),
        },
{
    let ghost words = crate::locale::texts(names@);
    let ghost whole = set_from(*first, all@, 0, 0, words);
    let mut done: u64 = 0;
    let mut i: usize = 0;
    while i < all.len()
        invariant
            i <= all.len(),
            names@.len() == all@.len(),
            words == crate::locale::texts(names@),
            whole == set_from(*first, all@, 0, 0, words),
            whole == set_from(*first, all@, i as int, done as int, words),
        decreases all.len() - i,
    {
        if i >= 0xffff_ffff || !all[i].is_part((i + 1) as u32, first) {
            return Err(message_with("error.volume_set_at", names[i].clone()));
        }
        match done.checked_add(all[i].len) {
            None => {
                return Err(fail("error.part_length_overflow"));
            },
            Some(n) => {
                done = n;
            },
        }
        i += 1;
    }
    if done != first.total {
        return Err(fail("error.parts_length_mismatch"));
    }
    Ok(done)
}

/// The decimal digits of a number.
pub open spec fn decimal(n: int) -> Seq<char>
    decreases n,
{
    if n < 10 {
        seq![(48 + n) as char]
    } else {
        decimal(n / 10).push((48 + n % 10) as char)
    }
}

/// A number in at least three digits.
pub open spec fn three_digits(n: int) -> Seq<char> {
    if n < 10 {
        "00"@ + decimal(n)
    } else if n < 100 {
        "0"@ + decimal(n)
    } else {
        decimal(n)
    }
}

/// The name of part number `n` of an archive.
pub open spec fn part_name(base: Seq<char>, n: int) -> Seq<char> {
    base + "."@ + three_digits(n)
}

/// Writes a number in decimal digits.
pub fn write_decimal(n: u64) -> (s: String)
    ensures
        s@ == decimal(n as int),
    decreases n,
{
    if n < 10 {
        let mut s = String::new();
        s.push((48 + n as u8) as char);
        assert(s@ =~= seq![(48 + n) as char]);
        s
    } else {
        let mut s = write_decimal(n / 10);
        s.push((48 + (n % 10) as u8) as char);
        s
    }
}

/// The name of a part of an archive.
pub fn part_path(base: &str, index: u32) -> (s: String)
    ensures
        s@ == part_name(base@, index as int),
{
    let mut s = base.to_owned();
    s.append(".");
    if index < 10 {
        s.append("00");
    } else if index < 100 {
        s.append("0");
    }
    s.append(&write_decimal(index as u64));
    assert(s@ =~= part_name(base@, index as int));
    s
}

/// Where the last dot of a name stands, if an extension follows it.
pub open spec fn dot_of(name: Seq<char>) -> Option<int> {
    let dot = crate::text::last_before(name, '.', name.len() as int);
    if dot <= 0 || name == ".."@ {
        None
    } else {
        Some(dot)
    }
}

/// The name of an archive, by the name of its part number `index`.
pub open spec fn base_of(name: Seq<char>, index: int) -> Outcome<Seq<char>> {
    match dot_of(name) {
        None => Err("error.missing_part_number"@),
        Some(dot) => if crate::text::number(name.skip(dot + 1), u32::MAX as int) != Some(index) {
            Err("error.part_name_mismatch"@)
        } else {
            let base = name.take(dot);
            match dot_of(base) {
                Some(at) if crate::text::lowered(base.skip(at + 1)) == "spk"@ || crate::text::lowered(
                    base.skip(at + 1),
                ) == "spack"@ => Ok(base),
                _ => Err("error.invalid_volume_extension"@),
            }
        },
    }
}

/// The number that the first `k` digits of a text spell.
spec fn spelled(s: Seq<char>, k: int) -> int
    decreases k,
{
    if k <= 0 {
        0
    } else {
        spelled(s, k - 1) * 10 + (s[k - 1] as u32 - 48)
    }
}

spec fn all_digits(s: Seq<char>) -> bool {
    forall|i: int| 0 <= i < s.len() ==> '0' <= #[trigger] s[i] <= '9'
}

proof fn lemma_spelled_longer(s: Seq<char>, c: char, k: int)
    requires
        k <= s.len(),
    ensures
        spelled(s.push(c), k) == spelled(s, k),
    decreases k,
{
    if k > 0 {
        lemma_spelled_longer(s, c, k - 1);
    }
}

proof fn lemma_spelled_grows(s: Seq<char>, i: int, k: int)
    requires
        all_digits(s),
        0 <= i <= k <= s.len(),
    ensures
        0 <= spelled(s, i) <= spelled(s, k),
    decreases k,
{
    if i < k {
        lemma_spelled_grows(s, i, k - 1);
        assert('0' <= s[k - 1] <= '9');
    } else if i > 0 {
        lemma_spelled_grows(s, i - 1, i - 1);
        assert('0' <= s[i - 1] <= '9');
    }
}

proof fn lemma_decimal(n: int)
    requires
        0 <= n,
    ensures
        decimal(n).len() >= 1,
        all_digits(decimal(n)),
        spelled(decimal(n), decimal(n).len() as int) == n,
    decreases n,
{
    if n < 10 {
        reveal_with_fuel(spelled, 2);
        assert(decimal(n)[0] as u32 == 48 + n);
    } else {
        lemma_decimal(n / 10);
        let head = decimal(n / 10);
        let c = (48 + n % 10) as char;
        assert(c as u32 == 48 + n % 10);
        lemma_spelled_longer(head, c, head.len() as int);
        assert(decimal(n) == head.push(c));
        assert(spelled(head.push(c), head.len() as int + 1) == spelled(head, head.len() as int) * 10 + n % 10);
    }
}

proof fn lemma_three_digits(n: int)
    requires
        0 <= n,
    ensures
        three_digits(n).len() >= 1,
        all_digits(three_digits(n)),
        spelled(three_digits(n), three_digits(n).len() as int) == n,
{
    lemma_decimal(n);
    let t = three_digits(n);
    if n < 10 {
        reveal_strlit("00");
        reveal_with_fuel(spelled, 4);
        assert(t.len() == 3 && t[0] == '0' && t[1] == '0' && t[2] == (48 + n) as char);
        assert(t[2] as u32 == 48 + n);
    } else if n < 100 {
        reveal_strlit("0");
        reveal_with_fuel(spelled, 4);
        reveal_with_fuel(decimal, 3);
        assert(t.len() == 3 && t[0] == '0' && t[1] == (48 + n / 10) as char && t[2] == (48 + n % 10) as char);
        assert(t[1] as u32 == 48 + n / 10 && t[2] as u32 == 48 + n % 10);
    }
}

proof fn lemma_number_read(s: Seq<char>, i: int, max: int)
    requires
        all_digits(s),
        0 <= i <= s.len(),
        spelled(s, s.len() as int) <= max,
    ensures
        crate::text::digits_from(s, i, spelled(s, i), max) == Some(spelled(s, s.len() as int)),
    decreases s.len() - i,
{
    if i < s.len() {
        assert('0' <= s[i] <= '9');
        lemma_spelled_grows(s, i + 1, s.len() as int);
        lemma_number_read(s, i + 1, max);
    }
}

proof fn lemma_last_dot(name: Seq<char>, at: int, k: int)
    requires
        0 <= at < k <= name.len(),
        name[at] == '.',
        forall|i: int| at < i < k ==> #[trigger] name[i] != '.',
    ensures
        crate::text::last_before(name, '.', k) == at,
    decreases k,
{
    if k - 1 > at {
        lemma_last_dot(name, at, k - 1);
    }
}

/// The name of any part of an archive leads back to the name of the archive.
pub proof fn law_part_names_lead_back(base: Seq<char>, n: int)
    requires
        0 <= n <= u32::MAX,
        dot_of(base) matches Some(at) && (crate::text::lowered(base.skip(at + 1)) == "spk"@
            || crate::text::lowered(base.skip(at + 1)) == "spack"@),
    ensures
        base_of(part_name(base, n), n) == Ok::<Seq<char>, Seq<char>>(base),
{
    let t = three_digits(n);
    let name = part_name(base, n);
    lemma_three_digits(n);
    reveal_strlit(".");
    reveal_strlit("..");
    assert(base.len() > 0) by {
        if base.len() == 0 {
            assert(crate::text::last_before(base, '.', 0) == -1);
        }
    }
    assert(name[base.len() as int] == '.');
    assert forall|i: int| base.len() < i < name.len() implies #[trigger] name[i] != '.' by {
        assert(name[i] == t[i - base.len() - 1]);
    }
    lemma_last_dot(name, base.len() as int, name.len() as int);
    assert(name.len() > 2) by {
        assert(name.len() == base.len() + 1 + t.len());
    }
    assert(dot_of(name) == Some(base.len() as int));
    assert(name.skip(base.len() as int + 1) =~= t);
    assert(name.take(base.len() as int) =~= base);
    assert('0' <= t[0] <= '9');
    lemma_number_read(t, 0, u32::MAX as int);
}

fn find_dot(v: &[char]) -> (r: Option<usize>)
    ensures
        match r {
            Some(i) => dot_of(v@) == Some(i as int) && i < v.len(),
            None => dot_of(v@) is None,
        },
{
    let after = after_last(v, '.');
    if after <= 1 || spells(v, "..") {
        None
    } else {
        Some(after - 1)
    }
}

/// The name of an archive, by the name of one of its parts.
pub fn base_from_part(name: &str, index: u32) -> (r: Result<String, String>)
    ensures
        crate::paths::string_of(r) == base_of(name@, index as int),
{
    let v = letters(name);
    let dot = match find_dot(&v) {
        None => {
            return Err(fail("error.missing_part_number"));
        },
        Some(dot) => dot,
    };
    assert(v@.subrange(dot + 1, v@.len() as int) =~= v@.skip(dot + 1));
    let matches: bool = match parse_number(&v.as_slice()[dot + 1..v.len()], 0xffff_ffff) {
        None => false,
        Some(n) => n == index as u64,
    };
    if !matches {
        return Err(fail("error.part_name_mismatch"));
    }
    assert(v@.subrange(0, dot as int) =~= v@.take(dot as int));
    let base = &v.as_slice()[0..dot];
    match find_dot(base) {
        None => Err(fail("error.invalid_volume_extension")),
        Some(at) => {
            assert(base@.subrange(at + 1, base@.len() as int) =~= base@.skip(at + 1));
            let e = lower(&base[at + 1..base.len()]);
            if spells(&e, "spk") || spells(&e, "spack") {
                Ok(text(base))
            } else {
                Err(fail("error.invalid_volume_extension"))
            }
        },
    }
}

}
