//! What holds of the first bytes of records: each kind of record starts with eight bytes of its own.

use crate::source_planes::Image;
use vstd::prelude::*;

verus! {

/// A GIF file in exact form starts with SGIF and the number 1. Anything else is refused.
#[verifier::spinoff_prover]
pub proof fn law_exact_pictures_are_marked(b: Seq<u8>)
    requires
        b.len() < 8 || b.subrange(0, 8) != seq![0x53u8, 0x47, 0x49, 0x46, 1, 0, 0, 0],
    ensures
        crate::gif_exact::restored(b) is Err,
{
    assert(crate::gif_exact::MAGIC@ =~= seq![0x53u8, 0x47, 0x49, 0x46, 1, 0, 0, 0]);
}

/// The record of a modelled GIF file starts with SPGPM and the number 1, the length of the exact form in eight bytes,
/// and what the model was made with. It has a head of 92 bytes, and anything shorter, or that starts otherwise, is
/// refused.
#[verifier::spinoff_prover]
pub proof fn law_modelled_pictures_are_marked(sgif: Seq<u8>, packed: Seq<u8>, b: Seq<u8>, read: Result<(Seq<u8>, int), Seq<char>>)
    ensures
        ({
            let r = crate::gif_model::record(sgif, packed);
            &&& r.subrange(0, 8) == seq![0x53u8, 0x50, 0x47, 0x50, 0x4D, 1, 0, 0]
            &&& r.subrange(8, 16) == crate::wire::le_bytes(sgif.len() as int, 8)
            &&& r.subrange(16, 20) == seq![8u8, 25, 0, 0]
        }),
        b.len() < 92 || b.subrange(0, 8) != seq![0x53u8, 0x50, 0x47, 0x50, 0x4D, 1, 0, 0]
            ==> crate::gif_model::unmodelled(b, read) is Err,
{
    crate::wire::lemma_lengths(sgif.len() as int);
    let m = seq![0x53u8, 0x50, 0x47, 0x50, 0x4D, 1, 0, 0];
    assert(crate::gif_model::MAGIC@ =~= m);
    let r = crate::gif_model::record(sgif, packed);
    assert(r.subrange(0, 8) =~= m);
    assert(r.subrange(8, 16) =~= crate::wire::le_bytes(sgif.len() as int, 8));
    assert(r.subrange(16, 20) =~= seq![8u8, 25, 0, 0]);
    if b.len() >= 8 {
        assert(b.take(8) =~= b.subrange(0, 8));
    }
}

/// The record of a predicted GIF file starts with SPGXM and the number 1, and has a head of 184 bytes.
pub proof fn law_predicted_pictures_are_marked(b: Seq<u8>, film: Seq<u8>)
    ensures
        crate::gif_predict::headed(b, film) ==> b.len() >= 184 && b.subrange(0, 8) == seq![
            0x53u8,
            0x50,
            0x47,
            0x58,
            0x4D,
            1,
            0,
            0,
        ] && film.len() <= 536_870_912,
{
    assert(crate::gif_predict::MAGIC@ =~= seq![0x53u8, 0x50, 0x47, 0x58, 0x4D, 1, 0, 0]);
    if b.len() >= 8 {
        assert(b.take(8) =~= b.subrange(0, 8));
    }
}

/// The record of a movie with coefficients starts with SPPR and the number 1, and anything else is refused.
#[verifier::spinoff_prover]
pub proof fn law_exact_movies_are_marked(b: Seq<u8>)
    requires
        b.len() < 20 || b.subrange(0, 8) != seq![0x53u8, 0x50, 0x50, 0x52, 0, 0, 0, 1],
    ensures
        crate::mov_exact::restored(b) is Err,
{
    assert(crate::mov_exact::MAGIC@ =~= seq![0x53u8, 0x50, 0x50, 0x52, 0, 0, 0, 1]);
}

/// The record of a modelled movie starts with SPPM and the number 1, and that of one in a sequence with SPPS and the
/// number 1. Anything else is refused, and so is a movie of a sequence in another place of it.
#[verifier::spinoff_prover]
pub proof fn law_modelled_movies_are_marked(b: Seq<u8>, files: int)
    ensures
        b.len() < 8 || b.subrange(0, 8) != seq![0x53u8, 0x50, 0x50, 0x4D, 0, 0, 0, 1] ==> crate::mov_model::frame_of(
            b,
            files,
            false,
        ) is Err,
        b.len() < 8 || b.subrange(0, 8) != seq![0x53u8, 0x50, 0x50, 0x53, 0, 0, 0, 1] || crate::wire::le64(b, 28)
            != files ==> crate::mov_model::frame_of(b, files, true) is Err,
{
    assert(crate::mov_model::MAGIC@ =~= seq![0x53u8, 0x50, 0x50, 0x4D, 0, 0, 0, 1]);
    assert(crate::mov_model::SHARED_MAGIC@ =~= seq![0x53u8, 0x50, 0x50, 0x53, 0, 0, 0, 1]);
}

/// The record of a movie with motion starts with SPMM and the number 1, and has a head of 88 bytes.
#[verifier::spinoff_prover]
pub proof fn law_moved_movies_are_marked(b: Seq<u8>)
    requires
        b.len() < 88 || b.subrange(0, 8) != seq![0x53u8, 0x50, 0x4D, 0x4D, 0, 0, 0, 1],
    ensures
        crate::mov_motion::layout_of(b) is Err,
{
    assert(crate::mov_motion::MAGIC@ =~= seq![0x53u8, 0x50, 0x4D, 0x4D, 0, 0, 0, 1]);
    if b.len() >= 8 {
        assert(b.take(8) =~= b.subrange(0, 8));
    }
}

/// Whether two pictures share a block that has more than one colour.
pub open spec fn shares(a: Image, b: Image, k: int) -> bool {
    let (by, bx) = (k / (a.w / 8), k % (a.w / 8));
    &&& exists|c: int, y: int, x: int|
        0 <= c < 4 && 0 <= y < 8 && 0 <= x < 8 && #[trigger] a.at(c, by * 8 + y, bx * 8 + x) != a.at(c, by * 8, bx * 8)
    &&& forall|c: int, y: int, x: int|
        0 <= c < 4 && 0 <= y < 8 && 0 <= x < 8 ==> #[trigger] a.at(c, by * 8 + y, bx * 8 + x) == b.at(
            c,
            by * 8 + y,
            bx * 8 + x,
        )
}

proof fn lemma_shares(a: Image, b: Image, k: int)
    ensures
        shares(a, b, k) == ({
            let (by, bx) = (k / (a.w / 8), k % (a.w / 8));
            !crate::source_likeness::plain(a, by, bx) && crate::source_frames::matching(a, b, by, bx, 0)
        }),
{
    let (by, bx) = (k / (a.w / 8), k % (a.w / 8));
    if !crate::source_likeness::plain(a, by, bx) {
        let (c, y, x) = choose|c: int, y: int, x: int|
            0 <= c < 4 && by * 8 <= y < by * 8 + 8 && bx * 8 <= x < bx * 8 + 8 && #[trigger] a.at(c, y, x) != a.at(
                c,
                by * 8,
                bx * 8,
            );
        assert(a.at(c, by * 8 + (y - by * 8), bx * 8 + (x - bx * 8)) != a.at(c, by * 8, bx * 8));
    }
    if shares(a, b, k) {
        assert forall|c: int, y: int, x: int|
            0 <= c < 4 && by * 8 <= y < by * 8 + 8 && bx * 8 <= x < bx * 8 + 8 implies #[trigger] a.at(c, y, x) == b.at(
            c,
            y,
            x,
        ) by {
            assert(a.at(c, by * 8 + (y - by * 8), bx * 8 + (x - bx * 8)) == b.at(
                c,
                by * 8 + (y - by * 8),
                bx * 8 + (x - bx * 8),
            ));
        }
    }
}

/// One more block of two pictures is counted if and only if it has more than one colour and is the same in both.
pub proof fn law_shared_blocks_are_counted(a: Image, b: Image, k: int)
    requires
        0 <= k,
    ensures
        crate::source_likeness::shared(a, b, 0) == 0,
        crate::source_likeness::shared(a, b, k + 1) == crate::source_likeness::shared(a, b, k) + if shares(a, b, k) {
            1int
        } else {
            0
        },
{
    lemma_shares(a, b, k);
}

/// Of three frames of a movie that are looked at the first is the first of it, the last its last, and the other lies
/// in the middle.
pub proof fn law_three_frames_are_looked_at(n: int)
    requires
        0 < n,
    ensures
        crate::source_likeness::pick(n, 0) == 0,
        crate::source_likeness::pick(n, 2) == n - 1,
        crate::source_likeness::pick(n, 1) == (n - 1) / 2,
{
    assert(0 * (n - 1) == 0 && 1 * (n - 1) == n - 1 && 2 * (n - 1) == (n - 1) + (n - 1)) by (nonlinear_arith);
}

}
