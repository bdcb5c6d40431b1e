//! What holds of tables of contents.

use crate::manifest::{Entry, Manifest, Method};
use vstd::prelude::*;

verus! {

/// Whether a character is the digit that stands for a number below sixteen, in small letters.
pub open spec fn digit_of(c: char, n: int) -> bool {
    if n < 10 {
        c as int == '0' as int + n
    } else {
        c as int == 'a' as int + (n - 10)
    }
}

/// Every byte is written in two digits, the higher one first, in their order.
pub proof fn law_bytes_in_digits(b: Seq<u8>)
    ensures
        crate::manifest::hex(b).len() == 2 * b.len(),
        forall|i: int|
            0 <= i < b.len() ==> digit_of(crate::manifest::hex(b)[2 * i], (#[trigger] b[i]) as int / 16) && digit_of(
                crate::manifest::hex(b)[2 * i + 1],
                b[i] as int % 16,
            ),
    decreases b.len(),
{
    if b.len() > 0 {
        let t = b.drop_last();
        law_bytes_in_digits(t);
        let n = b.len() - 1;
        let h = crate::manifest::hex(b);
        assert forall|i: int| 0 <= i < b.len() implies digit_of(h[2 * i], (#[trigger] b[i]) as int / 16) && digit_of(
            h[2 * i + 1],
            b[i] as int % 16,
        ) by {
            if i < n {
                assert(t[i] == b[i]);
                assert(h[2 * i] == crate::manifest::hex(t)[2 * i]);
                assert(h[2 * i + 1] == crate::manifest::hex(t)[2 * i + 1]);
            }
        }
    }
}

/// Every way to store a file has a name of its own.
pub proof fn law_methods_have_names(a: Method, b: Method)
    ensures
        a != b ==> a.word() != b.word(),
        Method::Raw.word() == "raw"@,
        Method::GifExact.word() == "gif-exact"@,
        Method::GifModel.word() == "gif-model"@,
        Method::GifPredict.word() == "gif-predict"@,
        Method::MovExact.word() == "mov-exact"@,
        Method::MovModel.word() == "mov-model"@,
        Method::MovShared.word() == "mov-shared"@,
        Method::MovMotion.word() == "mov-motion"@,
        Method::MovSource.word() == "mov-source"@,
        Method::Duplicate.word() == "duplicate"@,
{
    reveal_strlit("raw");
    reveal_strlit("gif-exact");
    reveal_strlit("gif-model");
    reveal_strlit("gif-predict");
    reveal_strlit("mov-exact");
    reveal_strlit("mov-model");
    reveal_strlit("mov-shared");
    reveal_strlit("mov-motion");
    reveal_strlit("mov-source");
    reveal_strlit("duplicate");
    assert("raw"@.len() == 3 && "raw"@[0] == 'r');
    assert("gif-exact"@.len() == 9 && "gif-exact"@[0] == 'g' && "gif-exact"@[4] == 'e');
    assert("gif-model"@.len() == 9 && "gif-model"@[0] == 'g' && "gif-model"@[4] == 'm');
    assert("gif-predict"@.len() == 11 && "gif-predict"@[0] == 'g');
    assert("mov-exact"@.len() == 9 && "mov-exact"@[0] == 'm' && "mov-exact"@[4] == 'e');
    assert("mov-model"@.len() == 9 && "mov-model"@[0] == 'm' && "mov-model"@[4] == 'm');
    assert("mov-shared"@.len() == 10 && "mov-shared"@[4] == 's' && "mov-shared"@[5] == 'h');
    assert("mov-motion"@.len() == 10 && "mov-motion"@[4] == 'm' && "mov-motion"@[5] == 'o');
    assert("mov-source"@.len() == 10 && "mov-source"@[4] == 's' && "mov-source"@[5] == 'o');
    assert("duplicate"@.len() == 9 && "duplicate"@[0] == 'd');
}

proof fn lemma_listing_first(files: Seq<Entry>, e: Entry, n: int)
    requires
        n <= files.len(),
    ensures
        crate::manifest::listing(files.push(e), n) == crate::manifest::listing(files, n),
    decreases n,
{
    if n > 0 {
        lemma_listing_first(files, e, n - 1);
    }
}

/// A number in eight bytes, the lowest first.
pub open spec fn eight(b: Seq<u8>, n: int) -> bool {
    b.len() == 8 && n == b[0] + 256 * b[1] + 65536 * b[2] + 16777216 * b[3] + 4294967296 * b[4] + 1099511627776 * b[5]
        + 281474976710656 * b[6] + 72057594037927936 * b[7]
}

#[verifier::spinoff_prover]
proof fn lemma_eight(n: int)
    requires
        0 <= n <= u64::MAX,
    ensures
        eight(crate::wire::le_bytes(n, 8), n),
{
    reveal_with_fuel(crate::wire::le_bytes, 9);
    let b = crate::wire::le_bytes(n, 8);
    let (n1, n2, n3, n4, n5, n6, n7) = (
        n / 256,
        n / 256 / 256,
        n / 256 / 256 / 256,
        n / 256 / 256 / 256 / 256,
        n / 256 / 256 / 256 / 256 / 256,
        n / 256 / 256 / 256 / 256 / 256 / 256,
        n / 256 / 256 / 256 / 256 / 256 / 256 / 256,
    );
    assert(b.len() == 8);
    assert(b[0] == n % 256 && b[1] == n1 % 256 && b[2] == n2 % 256 && b[3] == n3 % 256 && b[4] == n4 % 256 && b[5] == n5
        % 256 && b[6] == n6 % 256 && b[7] == n7 % 256);
    assert(n7 < 256);
}

/// The checksum of an archive is that of the names, the lengths and the checksums of its files, one file behind the
/// other: the length of the name and of the file in eight bytes, the name and the checksum as they are written.
pub proof fn law_archives_have_one_checksum(files: Seq<Entry>, e: Entry) -> (r: (Seq<u8>, Seq<u8>))
    requires
        vstd::utf8::encode_utf8(e.name@).len() <= u64::MAX,
    ensures
        crate::manifest::listing_hash(files) == crate::manifest::hex(
            crate::compression::checksum(crate::manifest::listing(files, files.len() as int)),
        ),
        crate::manifest::listing(Seq::empty(), 0) == Seq::<u8>::empty(),
        eight(r.0, vstd::utf8::encode_utf8(e.name@).len() as int),
        eight(r.1, e.size as int),
        crate::manifest::listing(files.push(e), files.len() as int + 1) == crate::manifest::listing(
            files,
            files.len() as int,
        ) + r.0 + vstd::utf8::encode_utf8(e.name@) + r.1 + vstd::utf8::encode_utf8(e.hash@),
{
    lemma_listing_first(files, e, files.len() as int);
    let name = vstd::utf8::encode_utf8(e.name@);
    lemma_eight(name.len() as int);
    lemma_eight(e.size as int);
    (crate::wire::le_bytes(name.len() as int, 8), crate::wire::le_bytes(e.size as int, 8))
}

/// Whether file number `i` is noted as something that can be restored: a twin by a file before it with the same
/// checksum and length, a file as it is by as many bytes, a predicted picture by a movie before it, and any other by a
/// record alone. What is transformed has at most 256 mebibytes, and its record at most 512.
pub open spec fn restorable(files: Seq<Entry>, i: int) -> bool {
    let e = files[i];
    let small = e.size <= 268_435_456 && e.stored <= 536_870_912;
    if e.method == Method::Duplicate {
        e.stored == 0 && (e.reference matches Some(r) && r < i && files[r as int].hash@ == e.hash@ && files[r as int].size
            == e.size)
    } else if e.method == Method::Raw {
        e.stored == e.size && e.reference is None
    } else if e.method == Method::GifPredict {
        small && crate::paths::extension_of(e.name@) == seq!['g', 'i', 'f'] && (e.reference matches Some(r) && r < i
            && crate::paths::extension_of(files[r as int].name@) == seq!['m', 'o', 'v'] && files[r as int].size
            <= 268_435_456)
    } else {
        small && e.reference is None
    }
}

/// A file can be stored as its entry says if and only if it can be restored from that.
pub proof fn law_entries_can_be_restored(files: Seq<Entry>, i: int)
    ensures
        crate::manifest::stored_well(files, i) is Ok <==> restorable(files, i),
{
    reveal_strlit("gif");
    reveal_strlit("mov");
    assert("gif"@ =~= seq!['g', 'i', 'f']);
    assert("mov"@ =~= seq!['m', 'o', 'v']);
}

/// Whether the entry of file number `i` is in order: its name is portable and that of no file before it, but for case,
/// its checksum has 64 hexadecimal digits, and it can be restored.
pub open spec fn in_order(files: Seq<Entry>, i: int) -> bool {
    let e = files[i];
    &&& crate::paths::checked(e.name@) is Ok
    &&& forall|k: int| 0 <= k < i ==> crate::text::lowercase((#[trigger] files[k]).name@) != crate::text::lowercase(e.name@)
    &&& e.hash@.len() == 64
    &&& forall|k: int|
        0 <= k < 64 ==> 48 <= (#[trigger] e.hash@[k]) as int <= 57 || 97 <= e.hash@[k] as int <= 102 || 65
            <= e.hash@[k] as int <= 70
    &&& restorable(files, i)
}

proof fn lemma_in_order(files: Seq<Entry>, i: int)
    requires
        0 <= i < files.len(),
    ensures
        in_order(files, i) <==> {
            &&& crate::paths::checked(files[i].name@) is Ok
            &&& !crate::scan::folded(crate::manifest::entry_names(files)).take(i).contains(
                crate::text::lowercase(files[i].name@),
            )
            &&& crate::manifest::checksum_text(files[i].hash@)
            &&& crate::manifest::stored_well(files, i) is Ok
        },
{
    law_entries_can_be_restored(files, i);
    let f = crate::scan::folded(crate::manifest::entry_names(files)).take(i);
    let low = crate::text::lowercase(files[i].name@);
    assert(f.len() == i);
    assert forall|k: int| 0 <= k < i implies f[k] == crate::text::lowercase((#[trigger] files[k]).name@) by {}
    if f.contains(low) {
        let k = choose|k: int| 0 <= k < f.len() && f[k] == low;
        assert(files[k].name@ == files[k].name@);
    }
    if !(forall|k: int|
        0 <= k < i ==> crate::text::lowercase((#[trigger] files[k]).name@) != crate::text::lowercase(files[i].name@)) {
        let k = choose|k: int|
            0 <= k < i && crate::text::lowercase((#[trigger] files[k]).name@) == crate::text::lowercase(files[i].name@);
        assert(f[k] == low);
        assert(f.contains(low));
    }
    let h = files[i].hash@;
    if crate::manifest::checksum_text(h) {
        assert forall|k: int| 0 <= k < 64 implies 48 <= (#[trigger] h[k]) as int <= 57 || 97 <= h[k] as int <= 102 || 65
            <= h[k] as int <= 70 by {
            assert(crate::manifest::is_hex(h[k]));
        }
    }
    if h.len() == 64 && forall|k: int|
        0 <= k < 64 ==> 48 <= (#[trigger] h[k]) as int <= 57 || 97 <= h[k] as int <= 102 || 65 <= h[k] as int <= 70 {
        assert forall|k: int| 0 <= k < 64 implies crate::manifest::is_hex(#[trigger] h[k]) by {}
    }
}

proof fn lemma_sum_grows(files: Seq<Entry>, i: int, n: int)
    requires
        0 <= i <= n <= files.len(),
    ensures
        crate::manifest::size_sum(files, i) <= crate::manifest::size_sum(files, n),
    decreases n - i,
{
    if i < n {
        lemma_sum_grows(files, i, n - 1);
    }
}

proof fn lemma_entries(files: Seq<Entry>, i: int)
    requires
        0 <= i <= files.len(),
    ensures
        ({
            let all = crate::manifest::size_sum(files, files.len() as int);
            let r = crate::manifest::entries_from(files, i, crate::manifest::size_sum(files, i));
            &&& r is Ok <==> (i == files.len() || all <= u64::MAX) && forall|k: int|
                i <= k < files.len() ==> #[trigger] in_order(files, k)
            &&& r matches Ok(n) ==> n == all
        }),
    decreases files.len() - i,
{
    if i < files.len() {
        lemma_entries(files, i + 1);
        lemma_in_order(files, i);
        lemma_sum_grows(files, i + 1, files.len() as int);
        let r = crate::manifest::entries_from(files, i, crate::manifest::size_sum(files, i));
        if r is Ok {
            assert forall|k: int| i <= k < files.len() implies #[trigger] in_order(files, k) by {}
        }
        if forall|k: int| i <= k < files.len() ==> #[trigger] in_order(files, k) {
            assert(in_order(files, i));
        }
    }
}

/// The files of an archive are as long together as each of them.
pub proof fn law_files_add_up(files: Seq<Entry>, e: Entry)
    ensures
        crate::manifest::size_sum(Seq::empty(), 0) == 0,
        crate::manifest::size_sum(files.push(e), files.len() as int + 1) == crate::manifest::size_sum(
            files,
            files.len() as int,
        ) + e.size,
{
    lemma_size_first(files, e, files.len() as int);
}

proof fn lemma_size_first(files: Seq<Entry>, e: Entry, n: int)
    requires
        n <= files.len(),
    ensures
        crate::manifest::size_sum(files.push(e), n) == crate::manifest::size_sum(files, n),
    decreases n,
{
    if n > 0 {
        lemma_size_first(files, e, n - 1);
    }
}

/// A table of contents is accepted if and only if it is of the second version, names from one to a million files, each
/// in order and none in the place of a folder of another, has a portable name without a slash, and says the right
/// length and checksum of all of them.
#[verifier::spinoff_prover]
pub proof fn law_tables_of_contents_are_accepted(m: Manifest)
    ensures
        crate::manifest::manifest_checked(m) is Ok <==> {
            let files = m.files@;
            &&& m.version == 2
            &&& 1 <= files.len() <= 1_000_000
            &&& crate::paths::checked(m.dir_name@) is Ok
            &&& forall|k: int| 0 <= k < m.dir_name@.len() ==> #[trigger] m.dir_name@[k] != '/'
            &&& forall|k: int| 0 <= k < files.len() ==> #[trigger] in_order(files, k)
            &&& forall|i: int, j: int, p: int|
                0 <= i < files.len() && 0 <= j < files.len() && 0 <= p < crate::text::lowercase(
                    (#[trigger] files[i]).name@,
                ).len() && #[trigger] crate::text::lowercase(files[i].name@)[p] == '/' ==> crate::text::lowercase(
                    (#[trigger] files[j]).name@,
                ) != crate::text::lowercase(files[i].name@).take(p)
            &&& m.src_bytes == crate::manifest::size_sum(files, files.len() as int)
            &&& m.source_hash@ == crate::manifest::listing_hash(files)
        },
{
    let files = m.files@;
    let names = crate::scan::folded(crate::manifest::entry_names(files));
    lemma_entries(files, 0);
    crate::text::lemma_find(m.dir_name@, '/', 0);
    assert(names.len() == files.len());
    assert forall|i: int| 0 <= i < files.len() implies names[i] == crate::text::lowercase((#[trigger] files[i]).name@) by {}
    if crate::manifest::tangled(names) {
        let (i, p) = choose|i: int, p: int|
            0 <= i < names.len() && 0 <= p < names[i].len() && #[trigger] names[i][p] == '/' && names.contains(
                names[i].take(p),
            );
        let j = choose|j: int| 0 <= j < names.len() && names[j] == names[i].take(p);
        assert(files[i].name@ == files[i].name@ && files[j].name@ == files[j].name@);
        assert(crate::text::lowercase(files[i].name@)[p] == '/');
    } else {
        assert forall|i: int, j: int, p: int|
            0 <= i < files.len() && 0 <= j < files.len() && 0 <= p < crate::text::lowercase(
                (#[trigger] files[i]).name@,
            ).len() && #[trigger] crate::text::lowercase(files[i].name@)[p] == '/' implies crate::text::lowercase(
            (#[trigger] files[j]).name@,
        ) != crate::text::lowercase(files[i].name@).take(p) by {
            assert(names[i][p] == '/');
            if names[j] == names[i].take(p) {
                assert(names.contains(names[i].take(p)));
            }
        }
    }
}

}
