//! What holds of the parts that an archive is split into.

use crate::volumes::{base_of, decimal, dot_of, held, part_length, part_lengths, part_name, part_number, pieces, set_from, sum};
use crate::volumes::{Header, Split};
use vstd::prelude::*;

verus! {

/// An archive may be kept whole, split into 2 to 10000 parts, or into parts that have room for more than a header of
/// 96 bytes.
pub proof fn law_splits_that_are_allowed(split: Split)
    ensures
        split.fault() is Ok <==> match split {
            Split::Whole => true,
            Split::Count(n) => 2 <= n <= 10_000,
            Split::Size(n) => n >= 97,
        },
        split.fault() matches Err(e) ==> (split is Count <==> e == "error.part_count_range"@) && (split is Size <==> e
            == "error.part_size_min"@),
{
    reveal_strlit("error.part_count_range");
    reveal_strlit("error.part_size_min");
    assert("error.part_count_range"@.len() == 22 && "error.part_size_min"@.len() == 19);
}

proof fn lemma_room(total: int, room: int, k: int)
    requires
        0 < room < total,
    ensures
        pieces(total, room) == k <==> (k - 1) * room < total <= k * room,
{
    let n = pieces(total, room);
    vstd::arithmetic::div_mod::lemma_fundamental_div_mod(total + room - 1, room);
    assert((n - 1) * room < total <= n * room) by (nonlinear_arith)
        requires
            total + room - 1 == room * n + (total + room - 1) % room,
            0 <= (total + room - 1) % room < room,
    ;
    if (k - 1) * room < total <= k * room {
        assert(k == n) by (nonlinear_arith)
            requires
                (k - 1) * room < total <= k * room,
                (n - 1) * room < total <= n * room,
                room > 0,
        ;
    }
}

/// An archive that is split into a number of parts has that many, and it must have a byte for each.
pub proof fn law_parts_by_number(total: int, n: u32)
    requires
        0 <= total <= u64::MAX,
    ensures
        part_number(total, Split::Whole) == Ok::<Option<int>, Seq<char>>(None),
        part_number(total, Split::Count(n)) is Ok <==> 2 <= n <= 10_000 && n <= total,
        part_number(total, Split::Count(n)) matches Ok(r) ==> r == Some(n as int),
{
}

/// An archive that is split into parts of a size stays whole where it is no longer than that. Else it has as few
/// parts as hold it, each with a header of 96 bytes, and at most 10000.
pub proof fn law_parts_by_size(total: int, n: u64, k: int)
    requires
        0 <= total <= u64::MAX,
    ensures
        part_number(total, Split::Size(n)) == Ok::<Option<int>, Seq<char>>(None) <==> n > 96 && total <= n,
        part_number(total, Split::Size(n)) == Ok::<Option<int>, Seq<char>>(Some(k)) <==> n > 96 && total > n && k <= 10_000
            && (k - 1) * (n - 96) < total <= k * (n - 96),
{
    if n > 96 && total > n {
        lemma_room(total, n - 96, k);
    }
}

/// Parts of a number differ in length by one byte at most, and the longer ones come first.
pub proof fn law_parts_are_alike(total: int, n: u32, i: int, j: int)
    requires
        0 <= i <= j < n,
        0 <= total,
    ensures
        ({
            let v = part_lengths(total, Split::Count(n), n as int);
            v[j] <= v[i] <= v[j] + 1
        }),
{
}

/// All parts of a size are full but the last.
pub proof fn law_parts_are_full(total: int, n: u64, count: int, i: int)
    requires
        part_number(total, Split::Size(n)) == Ok::<Option<int>, Seq<char>>(Some(count)),
        0 <= i < count - 1,
        0 <= total <= u64::MAX,
    ensures
        part_lengths(total, Split::Size(n), count)[i] == n - 96,
{
    law_parts_by_size(total, n, count);
    let room = n - 96;
    assert((i + 1) * room <= (count - 1) * room) by (nonlinear_arith)
        requires
            i + 1 <= count - 1,
            room > 0,
    ;
    assert(part_length(total, Split::Size(n), count, i) == n - 96);
}

/// A header has 96 bytes: eight that are always the same, the number of the part, how many there are, the lengths of
/// the archive and of the part, and the checksums of both.
#[verifier::spinoff_prover]
pub proof fn law_headers_are_laid_out(h: Header)
    ensures
        ({
            let b = h.bytes();
            &&& b.len() == 96
            &&& b.subrange(0, 8) == seq![0x53u8, 0x50, 0x56, 0x4F, 0x4C, 0, 2, 0]
            &&& b[8] + 0x100 * b[9] + 0x1_0000 * b[10] + 0x100_0000 * b[11] == h.index
            &&& b[12] + 0x100 * b[13] + 0x1_0000 * b[14] + 0x100_0000 * b[15] == h.count
            &&& b[16] + 0x100 * b[17] + 0x1_0000 * b[18] + 0x100_0000 * b[19] + 0x1_0000_0000 * (b[20] + 0x100 * b[21]
                + 0x1_0000 * b[22] + 0x100_0000 * b[23]) == h.total
            &&& b[24] + 0x100 * b[25] + 0x1_0000 * b[26] + 0x100_0000 * b[27] + 0x1_0000_0000 * (b[28] + 0x100 * b[29]
                + 0x1_0000 * b[30] + 0x100_0000 * b[31]) == h.len
            &&& b.subrange(32, 64) == h.archive@
            &&& b.subrange(64, 96) == h.hash@
        }),
{
    crate::volumes::law_read_undoes_write(h);
    let b = h.bytes();
    assert(b.take(8) =~= b.subrange(0, 8));
    assert(crate::volumes::MAGIC@ =~= seq![0x53u8, 0x50, 0x56, 0x4F, 0x4C, 0, 2, 0]);
}

/// A header may stand before a part if its archive has 2 to 10000 parts, it is one of them, and it holds some of the
/// archive.
pub proof fn law_sound_headers(h: Header)
    ensures
        h.sound() <==> 2 <= h.count <= 10_000 && 1 <= h.index <= h.count && 1 <= h.len <= h.total,
{
}

proof fn lemma_set(first: Header, all: Seq<Header>, names: Seq<Seq<char>>, i: int, done: int)
    requires
        0 <= i <= all.len(),
        done == sum(held(all), i),
        sum(held(all), all.len() as int) == first.total,
        forall|k: int| i <= k < all.len() ==> (#[trigger] all[k]).index == k + 1 && all[k].kin(first),
    ensures
        set_from(first, all, i, done, names) == Ok::<int, Seq<char>>(first.total as int),
        done <= sum(held(all), all.len() as int),
    decreases all.len() - i,
{
    if i < all.len() {
        assert(held(all)[i] == all[i].len);
        lemma_part_of(all, i + 1);
        lemma_set(first, all, names, i + 1, done + all[i].len);
    }
}

proof fn lemma_part_of(all: Seq<Header>, i: int)
    requires
        0 <= i <= all.len(),
    ensures
        sum(held(all), i) <= sum(held(all), all.len() as int),
    decreases all.len() - i,
{
    if i < all.len() {
        assert(held(all)[i] == all[i].len);
        lemma_part_of(all, i + 1);
    }
}

/// Parts are accepted if and only if each stands in its place and says the same of the archive as the first: how many
/// parts it has, how long it is, and its checksum; and if they hold all of it together.
pub proof fn law_parts_are_accepted(first: Header, all: Seq<Header>, names: Seq<Seq<char>>)
    ensures
        set_from(first, all, 0, 0, names) is Ok <==> {
            &&& forall|k: int|
                0 <= k < all.len() ==> (#[trigger] all[k]).index == k + 1 && all[k].count == first.count && all[k].total
                    == first.total && all[k].archive@ == first.archive@
            &&& sum(held(all), all.len() as int) == first.total
        },
        set_from(first, all, 0, 0, names) matches Ok(n) ==> n == first.total,
{
    crate::volumes::law_accepted_parts_are_whole(first, all, names);
    if (forall|k: int|
        0 <= k < all.len() ==> (#[trigger] all[k]).index == k + 1 && all[k].count == first.count && all[k].total
            == first.total && all[k].archive@ == first.archive@) && sum(held(all), all.len() as int) == first.total {
        lemma_set(first, all, names, 0, 0);
    }
}

proof fn lemma_held(all: Seq<Header>, h: Header, n: int)
    requires
        0 <= n <= all.len(),
    ensures
        sum(held(all.push(h)), n) == sum(held(all), n),
    decreases n,
{
    if n > 0 {
        lemma_held(all, h, n - 1);
        assert(held(all.push(h))[n - 1] == held(all)[n - 1]);
    }
}

/// One more part holds as much more as its header says.
pub proof fn law_parts_add_up(all: Seq<Header>, h: Header)
    ensures
        sum(held(all.push(h)), all.len() as int + 1) == sum(held(all), all.len() as int) + h.len,
        sum(held(Seq::empty()), 0) == 0,
{
    lemma_held(all, h, all.len() as int);
    assert(held(all.push(h))[all.len() as int] == h.len);
}

/// A part and an archive are accepted if and only if their checksums are those in the header.
pub proof fn law_checksums_are_compared(h: Header, index: int, hash: Seq<u8>)
    ensures
        crate::volumes::part_fault(h, index, hash) is Ok <==> hash == h.hash@,
        crate::volumes::archive_fault(h, hash) is Ok <==> hash == h.archive@,
{
}

/// A part has the name of the archive, a dot, and its number in three digits, or as many as it takes.
pub proof fn law_parts_are_named(base: Seq<char>, n: int)
    requires
        0 <= n,
    ensures
        n < 10 ==> part_name(base, n) == base + seq!['.', '0', '0', ('0' as u32 + n) as char],
        10 <= n < 100 ==> part_name(base, n) == base + seq!['.', '0', ('0' as u32 + n / 10) as char, (
            '0' as u32 + n % 10) as char],
        100 <= n < 1000 ==> part_name(base, n) == base + seq!['.', ('0' as u32 + n / 100) as char, ('0' as u32 + n / 10
            % 10) as char, ('0' as u32 + n % 10) as char],
        n >= 100 ==> part_name(base, n) == base + seq!['.'] + decimal(n),
{
    reveal_with_fuel(decimal, 4);
    reveal_strlit(".");
    reveal_strlit("0");
    reveal_strlit("00");
    assert('0' as u32 == 48);
    if n < 10 {
        assert(part_name(base, n) =~= base + seq!['.', '0', '0', ('0' as u32 + n) as char]);
    } else if n < 100 {
        assert(part_name(base, n) =~= base + seq!['.', '0', ('0' as u32 + n / 10) as char, ('0' as u32 + n % 10) as char]);
    } else {
        assert(part_name(base, n) =~= base + seq!['.'] + decimal(n));
        if n < 1000 {
            assert(n / 10 / 10 == n / 100);
            assert(part_name(base, n) =~= base + seq!['.', ('0' as u32 + n / 100) as char, ('0' as u32 + n / 10 % 10) as char, (
                '0' as u32 + n % 10) as char]);
        }
    }
}

/// Only a name that ends in a dot and the number of the part, behind that of an archive, is the name of a part.
pub proof fn law_names_of_parts(name: Seq<char>, index: int, base: Seq<char>)
    requires
        base_of(name, index) == Ok::<Seq<char>, Seq<char>>(base),
    ensures
        base.len() > 0,
        base.len() < name.len(),
        name.take(base.len() as int) == base,
        name[base.len() as int] == '.',
        crate::text::number(name.skip(base.len() as int + 1), u32::MAX as int) == Some(index),
        exists|at: int| 0 < at < base.len() && #[trigger] base[at] == '.' && (crate::text::lowered(base.skip(at + 1))
            == seq!['s', 'p', 'k'] || crate::text::lowered(base.skip(at + 1)) == seq!['s', 'p', 'a', 'c', 'k']),
{
    reveal_strlit("spk");
    reveal_strlit("spack");
    assert("spk"@ =~= seq!['s', 'p', 'k']);
    assert("spack"@ =~= seq!['s', 'p', 'a', 'c', 'k']);
    let dot = dot_of(name)->Some_0;
    lemma_dot(name);
    lemma_dot(base);
    assert(base == name.take(dot));
    let at = dot_of(base)->Some_0;
    assert(base[at] == '.');
}

proof fn lemma_last(s: Seq<char>, n: int)
    requires
        n <= s.len(),
    ensures
        crate::text::last_before(s, '.', n) < n || crate::text::last_before(s, '.', n) == -1,
        crate::text::last_before(s, '.', n) >= 0 ==> s[crate::text::last_before(s, '.', n)] == '.',
    decreases n,
{
    if n > 0 {
        lemma_last(s, n - 1);
    }
}

proof fn lemma_dot(s: Seq<char>)
    ensures
        dot_of(s) matches Some(at) ==> 0 < at < s.len() && s[at] == '.',
{
    lemma_last(s, s.len() as int);
}

}
