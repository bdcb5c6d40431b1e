//! What holds of how files are restored, and of how far an operation has come.

use crate::manifest::{Entry, Method};
use crate::restoring::{task_for, Task};
use vstd::prelude::*;

verus! {

/// A file that is stored as it is needs no other. One with the contents of another is copied from that one. A movie in
/// a sequence, and one whose frames were kept, are found by what comes before. All others are restored from their
/// record, with the film that they name.
pub proof fn law_how_files_are_restored(files: Seq<Entry>, i: int, pool: Result<bool, Seq<char>>)
    requires
        0 <= i < files.len(),
    ensures
        ({
            let (e, t) = (files[i], task_for(files, i, pool));
            &&& e.method == Method::Raw <==> t == Ok::<Task, Seq<char>>(Task::Plain)
            &&& e.method == Method::MovShared <==> t == Ok::<Task, Seq<char>>(Task::Shared)
            &&& e.method == Method::Duplicate ==> match e.reference {
                Some(k) => t == Ok::<Task, Seq<char>>(Task::Twin(k)),
                None => t == Err::<Task, Seq<char>>("error.invalid_duplicate_reference"@),
            }
            &&& t matches Ok(Task::Twin(k)) ==> e.method == Method::Duplicate && e.reference == Some(k)
            &&& e.method == Method::MovSource && pool == Ok::<bool, Seq<char>>(false) ==> t == Ok::<Task, Seq<char>>(
                Task::Record(None, None),
            )
            &&& e.method != Method::Raw && e.method != Method::MovShared && e.method != Method::Duplicate && e.method
                != Method::MovSource ==> t == Ok::<Task, Seq<char>>(Task::Record(e.reference, None))
        }),
{
}

/// A phase starts where the ones before it end, comes to its own end, never goes back, and never goes beyond 10000
/// units.
pub proof fn law_phases_go_on(base: int, span: int, done: int, later: int, total: int)
    requires
        0 <= base,
        0 <= span,
        0 <= done <= later <= total,
        0 < total,
    ensures
        crate::monitor::reached(base, span, 0, total) == if base < 10_000 {
            base
        } else {
            10_000
        },
        crate::monitor::reached(base, span, total, total) == if base + span < 10_000 {
            base + span
        } else {
            10_000
        },
        crate::monitor::reached(base, span, done, total) <= crate::monitor::reached(base, span, later, total) <= 10_000,
{
    crate::monitor::lemma_part(done, later, span, total);
    vstd::arithmetic::div_mod::lemma_div_multiples_vanish(span, total);
    assert(total * span == span * total && span * 0 == 0) by (nonlinear_arith);
    assert(0int / total == 0) by (nonlinear_arith)
        requires
            total > 0,
    ;
    assert(span * done == done * span && span * later == later * span) by (nonlinear_arith);
}

/// A step starts where the ones before it end, and takes its share.
pub proof fn law_steps_take_their_share(s: crate::monitor::Share, done: int)
    requires
        0 <= done <= 1_000_000,
    ensures
        s.at(0) == s.base,
        s.at(1_000_000) == s.base + s.span,
        s.at(done) * 1_000_000 <= s.base * 1_000_000 + done * s.span < (s.at(done) + 1) * 1_000_000,
{
    assert(0 * s.span == 0 && 1_000_000 * s.span == s.span * 1_000_000) by (nonlinear_arith);
}

}
