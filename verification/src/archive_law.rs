//! What is unpacked is what was packed.

use crate::manifest::{Entry, Method};
use crate::mov_model::Learned;
use crate::packing::Looking;
use crate::restoring::{Painted, Task};
use crate::source_encode::Sketch;
use crate::source_frames::{Expectation, Painter};
use crate::source_pool::Kept;
use crate::wire::Outcome;
use vstd::prelude::*;

verus! {

/// One of some files, if a number is given.
pub open spec fn file_at(files: Seq<Seq<u8>>, k: Option<usize>) -> Option<Seq<u8>> {
    match k {
        Some(k) => Some(files[k as int]),
        None => None,
    }
}

/// What the first `n` files of an archive have taught a sequence of movies.
pub open spec fn lessons(files: Seq<Entry>, raws: Seq<Seq<u8>>, n: int) -> Learned
    decreases n,
{
    if n <= 0 {
        Learned::fresh()
    } else {
        crate::records::learned_after(
            raws[n - 1],
            lessons(files, raws, n - 1),
            files[n - 1].method,
        )
    }
}

/// File number `i` as it is unpacked after those before it, which are `done` and have taught a sequence
/// of movies `before`, and what has been taught then.
pub open spec fn unpacked(
    files: Seq<Entry>,
    records: Seq<Seq<u8>>,
    i: int,
    done: Seq<Seq<u8>>,
    before: Learned,
    o: Painted,
) -> Outcome<(Seq<u8>, Learned)> {
    match crate::restoring::task_for(files, i, crate::source_record::named(records[i])) {
        Err(e) => Err(e),
        Ok(Task::Plain) => Ok((records[i], before)),
        Ok(Task::Twin(k)) => Ok((done[k as int], before)),
        Ok(Task::Shared) => crate::mov_model::restored(records[i], before, true),
        Ok(Task::Record(film, prev)) => match crate::restoring::restored(
            files[i].method,
            records[i],
            file_at(done, film),
            file_at(done, prev),
            o,
        ) {
            Err(e) => Err(e),
            Ok(raw) => Ok((raw, before)),
        },
    }
}

/// The first `n` files as they are unpacked, and what they have taught a sequence of movies.
pub open spec fn all_unpacked(
    files: Seq<Entry>,
    records: Seq<Seq<u8>>,
    os: Seq<Painted>,
    n: int,
) -> Outcome<(Seq<Seq<u8>>, Learned)>
    decreases n,
{
    if n <= 0 {
        Ok((Seq::empty(), Learned::fresh()))
    } else {
        match all_unpacked(files, records, os, n - 1) {
            Err(e) => Err(e),
            Ok((done, before)) => match unpacked(
                files,
                records,
                n - 1,
                done,
                before,
                os[n - 1],
            ) {
                Err(e) => Err(e),
                Ok((raw, after)) => Ok((done.push(raw), after)),
            },
        }
    }
}

/// Whether `d` is the record that was made of a movie after the movie `before`, asking a painter.
pub open spec fn prepared<P: Painter>(
    raw: Seq<u8>,
    before: Option<Seq<u8>>,
    light: bool,
    o: Looking,
    d: Seq<u8>,
    start: P,
    end: P,
) -> bool {
    &&& crate::packing::looked(raw, before, light, o, start, end, false)
    &&& crate::packing::film_record(raw, before, light, o) == Ok::<Option<Seq<u8>>, Seq<char>>(Some(d))
    &&& d.len() <= usize::MAX
}

/// How a record of pictures and errors came to be: what was found of the frames of the movie before, of those of
/// the movie, and when the record was read again.
pub struct Making {
    pub light: bool,
    pub kept: Seq<Sketch>,
    pub made: Seq<Sketch>,
    pub back: Seq<Expectation>,
}

/// The frames that are kept of a movie, or none.
pub open spec fn pool_after(before: Option<Seq<u8>>, kept: Seq<Sketch>) -> Seq<Kept> {
    match before {
        None => Seq::empty(),
        Some(b) => match crate::mov_source::pool_for(b, kept) {
            Err(_) => Seq::empty(),
            Ok(pool) => pool,
        },
    }
}

/// Whether `d` is the record that was taken for a movie beside the frames that were kept of the movie `before`. A
/// painter that was like `m0`, and then like `m1`, was asked for those, and one like `a0`, and then like `a1`, for
/// the record.
pub open spec fn coded_after<P: Painter>(
    raw: Seq<u8>,
    before: Option<Seq<u8>>,
    g: Making,
    d: Seq<u8>,
    m0: P,
    m1: P,
    a0: P,
    a1: P,
) -> bool {
    let pool = pool_after(before, g.kept);
    &&& before matches Some(b) ==> crate::mov_source::pooled_so(b, g.kept, m0, m1)
    &&& crate::records::tried(raw, pool, g.light, g.made, g.back, a0, a1, false)
    &&& crate::records::sourced_with(raw, pool, g.light, g.made, g.back) == Ok::<Option<Seq<u8>>, Seq<char>>(
        Some(d),
    )
    &&& d.len() <= usize::MAX
}

/// A movie whose record was taken comes back when painters are steady: after the movie that the record was made
/// after, and after any or none where it names no kept frames.
#[verifier::spinoff_prover]
pub proof fn law_coded_films_come_back<P: Painter>(
    raw: Seq<u8>,
    before: Option<Seq<u8>>,
    g: Making,
    d: Seq<u8>,
    m0: P,
    m1: P,
    a0: P,
    a1: P,
    film: Option<Seq<u8>>,
    prev: Option<Seq<u8>>,
    o: Painted,
    b0: P,
    b1: P,
)
    requires
        crate::source_frames::steady::<P>(),
        coded_after(raw, before, g, d, m0, m1, a0, a1),
        crate::restoring::source_asked(d, prev, o, b0, b1, false),
        crate::source_record::named(d) == Ok::<bool, Seq<char>>(false) ==> prev is None,
        crate::source_record::named(d) != Ok::<bool, Seq<char>>(false) ==> prev == before,
    ensures
        crate::restoring::restored(Method::MovSource, d, film, prev, o) == Ok::<Seq<u8>, Seq<char>>(raw),
        d.len() < raw.len(),
{
    let pool = pool_after(before, g.kept);
    if before is None || crate::mov_source::pool_for(before->Some_0, g.kept) is Err {
        assert(pool =~= Seq::empty());
        crate::film_law::law_films_alone_name_no_frames(raw, g.light, g.made, d);
    } else if crate::source_record::named(d) != Ok::<bool, Seq<char>>(false) {
        let b = choose|mid: P| #[trigger]
            crate::restoring::before_asked(prev, o, b0, mid) && match crate::restoring::pool_before(prev, o) {
                Err(_) => mid == b1,
                Ok(pool) => crate::source_decode::read_so(d, pool, false, o.source, mid, b1, false),
            };
        crate::mov_source::law_same_frames_are_kept(before->Some_0, g.kept, m0, m1, o.made, b0, b);
    }
    crate::restoring::law_kept_movies_are_restored(
        raw,
        pool,
        g.light,
        g.made,
        g.back,
        a0,
        a1,
        d,
        film,
        prev,
        o,
        b0,
        b1,
    );
}

/// A film that was prepared after another was coded after it, or after none, and then its record names no kept
/// frames.
pub proof fn law_prepared_films_are_coded<P: Painter>(
    raw: Seq<u8>,
    before: Option<Seq<u8>>,
    light: bool,
    look: Looking,
    d: Seq<u8>,
    a0: P,
    a1: P,
) -> (r: (Option<Seq<u8>>, Making, P, P, P))
    requires
        prepared(raw, before, light, look, d, a0, a1),
    ensures
        coded_after(raw, r.0, r.1, d, r.2, r.3, r.4, a1),
        r.0 == before || (r.0 is None && crate::source_record::named(d) == Ok::<bool, Seq<char>>(false)),
{
    let kept = crate::packing::frames_before(raw, before, look);
    let pool = crate::packing::pool_in(kept);
    let g = Making { light, kept: look.before, made: look.made, back: look.back };
    let a = choose|mid: P| #[trigger]
        crate::packing::before_looked(raw, before, look, a0, mid) && crate::records::tried(
            raw,
            pool,
            light,
            look.made,
            look.back,
            mid,
            a1,
            false,
        );
    if before is None || !crate::source_likeness::related(raw, before->Some_0, look.colours) {
        assert(pool =~= Seq::empty());
        crate::film_law::law_films_alone_name_no_frames(raw, light, look.made, d);
        (None, g, a, a, a)
    } else {
        let film = before->Some_0;
        let c = choose|mid: P| #[trigger]
            crate::source_likeness::related_asked(raw, film, look.colours, a0, mid)
                && crate::mov_source::pooled_so(film, look.before, mid, a);
        assert(pool == pool_after(before, look.before));
        (before, g, c, a, a)
    }
}

/// Whether the record of file number `i` is one that packing makes. A file that is noted as a twin has the
/// contents of the other. A record of pictures and errors was coded after the file before it, where it names
/// frames of that. Any other record gives its file back by its form.
pub open spec fn packed_well<P: Painter>(
    files: Seq<Entry>,
    raws: Seq<Seq<u8>>,
    records: Seq<Seq<u8>>,
    i: int,
) -> bool {
    let m = files[i].method;
    match m {
        Method::Duplicate => files[i].reference matches Some(k) && raws[k as int] == raws[i],
        Method::MovSource => film_packed_well::<P>(files, raws, records, i),
        _ => crate::records::gives_back(
            m,
            records[i],
            raws[i],
            file_at(raws, files[i].reference),
            lessons(files, raws, i),
        ),
    }
}

/// Whether file number `i`, a record of pictures and errors, was coded after the file before it, where it names frames
/// of that.
#[verifier::opaque]
pub open spec fn film_packed_well<P: Painter>(
    files: Seq<Entry>,
    raws: Seq<Seq<u8>>,
    records: Seq<Seq<u8>>,
    i: int,
) -> bool {
    exists|before: Option<Seq<u8>>, g: Making, m0: P, m1: P, a0: P, a1: P| #[trigger]
        coded_after(raws[i], before, g, records[i], m0, m1, a0, a1) && follows(
            files,
            raws,
            i,
            crate::source_record::named(records[i]),
            before,
        )
}

/// Whether a record of pictures and errors is stored where it can be read: anywhere if it names no kept frames,
/// else right after the movie before it.
pub open spec fn follows(
    files: Seq<Entry>,
    raws: Seq<Seq<u8>>,
    i: int,
    uses: Outcome<bool>,
    before: Option<Seq<u8>>,
) -> bool {
    match uses {
        Err(_) => false,
        Ok(false) => true,
        Ok(true) => crate::container::needs(files, i, true) matches Ok((_, prev)) && file_at(raws, prev)
            == before,
    }
}

/// Whether a painter was asked what unpacking file number `i` asks of it after those before it, which are `done`,
/// and answered as `o` says.
pub open spec fn asked_for<P: Painter>(
    files: Seq<Entry>,
    records: Seq<Seq<u8>>,
    i: int,
    done: Seq<Seq<u8>>,
    o: Painted,
) -> bool {
    crate::restoring::task_for(files, i, crate::source_record::named(records[i])) matches Ok(
        Task::Record(_, prev),
    ) ==> exists|start: P, end: P| #[trigger]
        crate::restoring::restore_asked(
            files[i].method,
            records[i],
            file_at(done, prev),
            o,
            start,
            end,
            false,
        )
}

/// What a record gives, by its form.
#[verifier::opaque]
spec fn gives(m: Method, d: Seq<u8>, film: Option<Seq<u8>>, prev: Option<Seq<u8>>, o: Painted, raw: Seq<u8>) -> bool {
    crate::restoring::restored(m, d, film, prev, o) == Ok::<Seq<u8>, Seq<char>>(raw)
}

/// What becomes of a file whose record gives it back.
proof fn lemma_from_record(
    files: Seq<Entry>,
    records: Seq<Seq<u8>>,
    i: int,
    done: Seq<Seq<u8>>,
    before: Learned,
    o: Painted,
    film: Option<usize>,
    prev: Option<usize>,
    raw: Seq<u8>,
)
    requires
        crate::restoring::task_for(files, i, crate::source_record::named(records[i])) == Ok::<Task, Seq<char>>(Task::Record(film, prev)),
        gives(files[i].method, records[i], file_at(done, film), file_at(done, prev), o, raw),
    ensures
        unpacked(files, records, i, done, before, o) == Ok::<(Seq<u8>, Learned), Seq<char>>(
            (raw, before),
        ),
{
    reveal(gives);
}

/// The record of file number `i` gives it back, unless it is one of a sequence of movies or names
/// another file.
proof fn lemma_gives<P: Painter>(
    files: Seq<Entry>,
    raws: Seq<Seq<u8>>,
    records: Seq<Seq<u8>>,
    i: int,
    o: Painted,
) -> (r: (Option<usize>, Option<usize>))
    requires
        crate::source_frames::steady::<P>(),
        0 <= i < files.len(),
        raws.len() == files.len(),
        files.len() <= usize::MAX,
        crate::manifest::stored_well(files, i) is Ok,
        packed_well::<P>(files, raws, records, i),
        asked_for::<P>(files, records, i, raws.take(i), o),
        files[i].method != Method::Raw,
        files[i].method != Method::Duplicate,
        files[i].method != Method::MovShared,
    ensures
        crate::restoring::task_for(files, i, crate::source_record::named(records[i])) == Ok::<Task, Seq<char>>(
            Task::Record(r.0, r.1),
        ),
        gives(files[i].method, records[i], file_at(raws, r.0), file_at(raws, r.1), o, raws[i]),
{
    reveal(gives);
    let m = files[i].method;
    if m == Method::MovSource {
        reveal(film_packed_well);
        let uses = crate::source_record::named(records[i]);
        let (before, g, m0, m1, a0, a1) = choose|
            before: Option<Seq<u8>>,
            g: Making,
            m0: P,
            m1: P,
            a0: P,
            a1: P,
        | #[trigger]
            coded_after(raws[i], before, g, records[i], m0, m1, a0, a1) && follows(files, raws, i, uses, before);
        crate::restoring::law_tasks_look_back(files, i, uses);
        let prev = crate::restoring::task_for(files, i, uses)->Ok_0->Record_1;
        assert(file_at(raws.take(i), prev) == file_at(raws, prev));
        let (b0, b1) = choose|b0: P, b1: P| #[trigger]
            crate::restoring::restore_asked(m, records[i], file_at(raws.take(i), prev), o, b0, b1, false);
        law_coded_films_come_back(
            raws[i],
            before,
            g,
            records[i],
            m0,
            m1,
            a0,
            a1,
            None,
            file_at(raws, prev),
            o,
            b0,
            b1,
        );
        (None, prev)
    } else {
        crate::restoring::law_records_are_restored(
            m,
            records[i],
            raws[i],
            file_at(raws, files[i].reference),
            None,
            lessons(files, raws, i),
            o,
        );
        (files[i].reference, None)
    }
}

proof fn lemma_shared(d: Seq<u8>, raw: Seq<u8>, film: Option<Seq<u8>>, before: Learned)
    requires
        crate::records::gives_back(Method::MovShared, d, raw, film, before),
    ensures
        crate::mov_model::restored(d, before, true) == Ok::<(Seq<u8>, Learned), Seq<char>>(
            (raw, crate::records::learned_after(raw, before, Method::MovShared)),
        ),
{
    reveal(crate::records::steps_back);
}

#[verifier::spinoff_prover]
#[verifier::rlimit(40)]
proof fn lemma_file<P: Painter>(
    files: Seq<Entry>,
    raws: Seq<Seq<u8>>,
    records: Seq<Seq<u8>>,
    i: int,
    o: Painted,
)
    requires
        crate::source_frames::steady::<P>(),
        0 <= i < files.len(),
        files.len() <= usize::MAX,
        raws.len() == files.len(),
        crate::manifest::stored_well(files, i) is Ok,
        packed_well::<P>(files, raws, records, i),
        asked_for::<P>(files, records, i, raws.take(i), o),
    ensures
        unpacked(files, records, i, raws.take(i), lessons(files, raws, i), o) == Ok::<
            (Seq<u8>, Learned),
            Seq<char>,
        >((raws[i], lessons(files, raws, i + 1))),
{
    let m = files[i].method;
    let before = lessons(files, raws, i);
    crate::restoring::law_tasks_look_back(files, i, crate::source_record::named(records[i]));
    if m == Method::Raw || m == Method::Duplicate {
    } else if m == Method::MovShared {
        lemma_shared(records[i], raws[i], file_at(raws, files[i].reference), before);
    } else {
        let (film, prev) = lemma_gives::<P>(files, raws, records, i, o);
        let done = raws.take(i);
        assert(file_at(done, film) == file_at(raws, film));
        assert(file_at(done, prev) == file_at(raws, prev));
        lemma_from_record(files, records, i, done, before, o, film, prev, raws[i]);
    }
}

/// Unpacking an archive gives back the files that were packed, each with the bytes that it had, when painters are
/// steady.
pub proof fn law_archives_give_files_back<P: Painter>(
    files: Seq<Entry>,
    raws: Seq<Seq<u8>>,
    records: Seq<Seq<u8>>,
    os: Seq<Painted>,
    n: int,
)
    requires
        crate::source_frames::steady::<P>(),
        0 <= n <= files.len(),
        files.len() <= usize::MAX,
        raws.len() == files.len(),
        forall|i: int| 0 <= i < n ==> (#[trigger] crate::manifest::stored_well(files, i)) is Ok,
        forall|i: int| 0 <= i < n ==> #[trigger] packed_well::<P>(files, raws, records, i),
        forall|i: int|
            0 <= i < n ==> (#[trigger] all_unpacked(files, records, os, i) matches Ok((done, _)) ==> asked_for::<
                P,
            >(files, records, i, done, os[i])),
    ensures
        all_unpacked(files, records, os, n) == Ok::<(Seq<Seq<u8>>, Learned), Seq<char>>(
            (raws.take(n), lessons(files, raws, n)),
        ),
    decreases n,
{
    if n > 0 {
        law_archives_give_files_back::<P>(files, raws, records, os, n - 1);
        assert(crate::manifest::stored_well(files, n - 1) is Ok);
        assert(packed_well::<P>(files, raws, records, n - 1));
        assert(all_unpacked(files, records, os, n - 1) is Ok);
        lemma_file::<P>(files, raws, records, n - 1, os[n - 1]);
        assert(raws.take(n) =~= raws.take(n - 1).push(raws[n - 1]));
    } else {
        assert(raws.take(0) =~= Seq::empty());
    }
}

}
