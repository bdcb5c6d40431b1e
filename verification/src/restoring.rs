//! How a file is restored from its record.

use crate::container::record_needs;
use crate::manifest::{Entry, Method};
use crate::monitor::Monitor;
use crate::mov_model::Learned;
use crate::source_encode::Sketch;
use crate::source_frames::{Expectation, Painter};
use crate::source_pool::{Kept, Pool};
use crate::source_record::uses_pool;
use crate::wire::{fail, Outcome};
use vstd::prelude::*;

verus! {

/// What a painter yields while a file is restored: what it makes of the frames of the movie before, and what
/// the pictures of the movie let expect.
pub struct Painted {
    pub made: Seq<Sketch>,
    pub source: Seq<Expectation>,
}

/// The kept frames of the movie before, if there is one.
pub open spec fn pool_before(prev: Option<Seq<u8>>, o: Painted) -> Outcome<Seq<Kept>> {
    match prev {
        Some(raw) => crate::mov_source::pool_for(raw, o.made),
        None => Ok(Seq::empty()),
    }
}

/// The file that a record holds, where `film` is the movie that it was predicted from, and `prev` the
/// movie before it.
pub open spec fn restored(
    m: Method,
    d: Seq<u8>,
    film: Option<Seq<u8>>,
    prev: Option<Seq<u8>>,
    o: Painted,
) -> Outcome<Seq<u8>> {
    match m {
        Method::GifExact => crate::gif_exact::restored(d),
        Method::MovExact => crate::mov_exact::restored(d),
        Method::GifModel => crate::gif_model::restored(d, crate::gif_model::read_of(d)),
        Method::GifPredict => match film {
            Some(f) => crate::gif_predict::restored(d, f, crate::gif_predict::read_of(d)),
            None => Err("error.invalid_archive"@),
        },
        Method::MovMotion => crate::mov_motion::decoded(d),
        Method::MovModel => match crate::mov_model::restored(d, Learned::fresh(), false) {
            Ok((raw, _)) => Ok(raw),
            Err(e) => Err(e),
        },
        Method::MovSource => match pool_before(prev, o) {
            Err(e) => Err(e),
            Ok(pool) => match crate::source_decode::restored(d, pool, false, o.source) {
                Err(e) => Err(e),
                Ok((raw, _)) => Ok(raw),
            },
        },
        _ => Err("error.invalid_archive"@),
    }
}

/// Whether a painter was asked about a movie while it was restored from a record of pictures and errors, after
/// the movie before it, answered as `o` says, and is then as `after` is.
pub open spec fn source_asked<P: Painter>(
    d: Seq<u8>,
    prev: Option<Seq<u8>>,
    o: Painted,
    before: P,
    after: P,
    stopped: bool,
) -> bool {
    exists|mid: P|
        #![trigger before_asked(prev, o, before, mid)]
        before_asked(prev, o, before, mid) && match pool_before(prev, o) {
            Err(_) => mid == after,
            Ok(pool) => crate::source_decode::read_so(d, pool, false, o.source, mid, after, stopped),
        }
}

/// Whether a painter was asked about the movie before, if there is one.
pub open spec fn before_asked<P: Painter>(prev: Option<Seq<u8>>, o: Painted, before: P, after: P) -> bool {
    match prev {
        Some(raw) => crate::mov_source::pooled_so(raw, o.made, before, after),
        None => before == after,
    }
}

/// Whether a painter was asked what restoring a file asks of it: about pictures and errors alone.
pub open spec fn restore_asked<P: Painter>(
    m: Method,
    d: Seq<u8>,
    prev: Option<Seq<u8>>,
    o: Painted,
    before: P,
    after: P,
    stopped: bool,
) -> bool {
    if m == Method::MovSource {
        source_asked(d, prev, o, before, after, stopped)
    } else {
        before == after
    }
}

/// Decodes a record of pictures and errors, after the movie before it.
fn restore_source<M: Monitor, P: Painter>(d: &[u8], prev: Option<&[u8]>, painter: &mut P, progress: &mut M) -> (r:
    Result<Vec<u8>, String>)
    requires
        prev matches Some(p) ==> crate::prores_frame::addressable(p.len() as int),
        !old(progress).stopped(),
    ensures
        exists|o: Painted|
            crate::wire::bytes_of(r) == crate::wire::unless(
                final(progress).stopped(),
                restored(Method::MovSource, d@, None, crate::records::film_of(prev), o),
            ) && #[trigger] source_asked(
                d@,
                crate::records::film_of(prev),
                o,
                *old(painter),
                *final(painter),
                final(progress).stopped(),
            ),
        crate::monitor::refuses(*old(progress)) ==> r is Err,
{
    let ghost before = crate::records::film_of(prev);
    let ghost mut made = Seq::<Sketch>::empty();
    let pool = match prev {
        Some(p) => {
            let x = crate::mov_source::pool_of(p, painter);
            proof {
                made = choose|made: Seq<Sketch>|
                    crate::mov_source::pool_outcome(x) == crate::mov_source::pool_for(p@, made)
                        && #[trigger] crate::mov_source::pooled_so(p@, made, *old(painter), *painter);
                let o = Painted { made, source: Seq::empty() };
                assert(before_asked(before, o, *old(painter), *painter));
                assert(x is Err ==> source_asked(d@, before, o, *old(painter), *painter, progress.stopped()));
            }
            x?
        },
        None => Pool::default(),
    };
    let ghost mid = *painter;
    let y = crate::source_decode::decode(d, &pool, false, painter, progress);
    let ghost source = choose|es: Seq<Expectation>|
        crate::source_decode::outcome(y) == crate::wire::unless(
            progress.stopped(),
            crate::source_decode::restored(d@, pool@, false, es),
        ) && #[trigger] crate::source_decode::read_so(
            d@,
            pool@,
            false,
            es,
            mid,
            *painter,
            progress.stopped(),
        );
    let ghost all = Painted { made, source };
    assert(pool_before(before, all) == Ok::<Seq<Kept>, Seq<char>>(pool@));
    assert(before_asked(before, all, *old(painter), mid));
    assert(source_asked(d@, before, all, *old(painter), *painter, progress.stopped()));
    let (raw, _) = y?;
    Ok(raw)
}

/// Restores a file from its record. A record as it is, one of a sequence of movies, and one that only
/// names another file are not restored here.
pub fn restore_record<M: Monitor, P: Painter>(
    m: Method,
    d: &[u8],
    film: Option<&[u8]>,
    prev: Option<&[u8]>,
    painter: &mut P,
    progress: &mut M,
) -> (r: Result<Vec<u8>, String>)
    requires
        prev matches Some(p) ==> crate::prores_frame::addressable(p.len() as int),
        !old(progress).stopped(),
    ensures
        exists|o: Painted|
            crate::wire::bytes_of(r) == crate::wire::unless(
                final(progress).stopped(),
                restored(m, d@, crate::records::film_of(film), crate::records::film_of(prev), o),
            ) && #[trigger] restore_asked(
                m,
                d@,
                crate::records::film_of(prev),
                o,
                *old(painter),
                *final(painter),
                final(progress).stopped(),
            ),
        m == Method::MovModel ==> crate::monitor::heeds(*old(progress), r),
        m == Method::MovSource && crate::monitor::refuses(*old(progress)) ==> r is Err,
{
    let ghost f = crate::records::film_of(film);
    let ghost p = crate::records::film_of(prev);
    let ghost none = Painted { made: Seq::empty(), source: Seq::empty() };
    assert(m != Method::MovSource ==> restore_asked(m, d@, p, none, *painter, *painter, false) && restore_asked(
        m,
        d@,
        p,
        none,
        *painter,
        *painter,
        true,
    ));
    match m {
        Method::GifExact => crate::gif_exact::decode(d),
        Method::MovExact => crate::mov_exact::decode(d),
        Method::GifModel => crate::gif_model::decode_with_progress(d, progress),
        Method::GifPredict => match film {
            None => Err(fail("error.invalid_archive")),
            Some(g) => crate::gif_predict::decode(d, g, progress),
        },
        Method::MovMotion => crate::mov_motion::decode_with_progress(d, progress),
        Method::MovModel => crate::mov_model::decode_with_progress(d, progress),
        Method::MovSource => {
            let x = restore_source(d, prev, painter, progress);
            proof {
                let o = choose|o: Painted|
                    crate::wire::bytes_of(x) == crate::wire::unless(
                        progress.stopped(),
                        restored(Method::MovSource, d@, None, p, o),
                    ) && #[trigger] source_asked(d@, p, o, *old(painter), *painter, progress.stopped());
                assert(restore_asked(m, d@, p, o, *old(painter), *painter, progress.stopped()));
            }
            x
        },
        _ => Err(fail("error.invalid_archive")),
    }
}

/// A record that gives its file back is restored to it.
pub proof fn law_records_are_restored(
    m: Method,
    d: Seq<u8>,
    raw: Seq<u8>,
    film: Option<Seq<u8>>,
    prev: Option<Seq<u8>>,
    before: Learned,
    o: Painted,
)
    requires
        crate::records::gives_back(m, d, raw, film, before),
        m != Method::Raw && m != Method::MovShared,
    ensures
        restored(m, d, film, prev, o) == Ok::<Seq<u8>, Seq<char>>(raw),
{
}

/// A record of pictures and errors was taken because it gave its movie back. It does so again with painters that
/// are steady: beside the same kept frames, and beside any where it names none.
pub proof fn law_kept_movies_are_restored<P: Painter>(
    raw: Seq<u8>,
    pool: Seq<Kept>,
    light: bool,
    made: Seq<Sketch>,
    back: Seq<Expectation>,
    a0: P,
    a1: P,
    d: Seq<u8>,
    film: Option<Seq<u8>>,
    prev: Option<Seq<u8>>,
    o: Painted,
    b0: P,
    b1: P,
)
    requires
        crate::source_frames::steady::<P>(),
        crate::records::sourced_with(raw, pool, light, made, back) == Ok::<Option<Seq<u8>>, Seq<char>>(Some(d)),
        crate::records::tried(raw, pool, light, made, back, a0, a1, false),
        source_asked(d, prev, o, b0, b1, false),
        pool_before(prev, o) == Ok::<Seq<Kept>, Seq<char>>(pool) || (pool_before(prev, o) is Ok
            && crate::source_record::named(d) == Ok::<bool, Seq<char>>(false)),
    ensures
        restored(Method::MovSource, d, film, prev, o) == Ok::<Seq<u8>, Seq<char>>(raw),
        d.len() < raw.len(),
{
    let now = pool_before(prev, o)->Ok_0;
    let m0 = choose|mid: P| #[trigger]
        crate::mov_source::wrote(raw, pool, light, made, a0, mid, false) && crate::source_decode::read_so(
            d,
            pool,
            false,
            back,
            mid,
            a1,
            false,
        );
    let m1 = choose|mid: P| #[trigger]
        before_asked(prev, o, b0, mid) && crate::source_decode::read_so(
            d,
            now,
            false,
            o.source,
            mid,
            b1,
            false,
        );
    crate::source_decode::law_decoding_again_gives_the_same(
        d,
        pool,
        now,
        false,
        back,
        m0,
        a1,
        o.source,
        m1,
        b1,
    );
}

/// How a file is restored.
#[derive(Clone, Copy, Debug, PartialEq, Eq, Structural)]
pub enum Task {
    /// Its record is the file.
    Plain,
    /// Its record is one of a sequence of movies.
    Shared,
    /// It has the contents of another file.
    Twin(usize),
    /// From its record, with the film that it was predicted from, and the film whose frames were kept
    /// for it.
    Record(Option<usize>, Option<usize>),
}

/// How file number `i` is restored, where `pool` says whether its record names kept frames.
pub open spec fn task_for(files: Seq<Entry>, i: int, pool: Outcome<bool>) -> Outcome<Task> {
    match files[i].method {
        Method::Raw => Ok(Task::Plain),
        Method::MovShared => Ok(Task::Shared),
        Method::Duplicate => match files[i].reference {
            Some(k) => Ok(Task::Twin(k)),
            None => Err("error.invalid_duplicate_reference"@),
        },
        Method::MovSource => match pool {
            Err(e) => Err(e),
            Ok(uses) => match crate::container::needs(files, i, uses) {
                Err(e) => Err(e),
                Ok((_, prev)) => Ok(Task::Record(None, prev)),
            },
        },
        _ => Ok(Task::Record(files[i].reference, None)),
    }
}

/// Finds out how file number `i` is restored, whose record is `data`.
pub fn plan_task(files: &[Entry], i: usize, data: &[u8]) -> (r: Result<Task, String>)
    requires
        i < files@.len(),
    ensures
        crate::wire::plain(r) == task_for(files@, i as int, crate::source_record::named(data@)),
{
    match files[i].method {
        Method::Raw => Ok(Task::Plain),
        Method::MovShared => Ok(Task::Shared),
        Method::Duplicate => match files[i].reference {
            Some(k) => Ok(Task::Twin(k)),
            None => Err(fail("error.invalid_duplicate_reference")),
        },
        Method::MovSource => {
            let uses = uses_pool(data)?;
            let (_, prev) = record_needs(files, i, uses)?;
            Ok(Task::Record(None, prev))
        },
        _ => Ok(Task::Record(files[i].reference, None)),
    }
}

/// Whatever has to be restored before a file of a valid archive comes before it.
pub proof fn law_tasks_look_back(files: Seq<Entry>, i: int, pool: Outcome<bool>)
    requires
        0 <= i < files.len(),
        files.len() <= usize::MAX,
        crate::manifest::stored_well(files, i) is Ok,
    ensures
        match task_for(files, i, pool) {
            Ok(Task::Twin(k)) => k < i && files[k as int].hash@ == files[i].hash@ && files[k as int].size
                == files[i].size,
            Ok(Task::Record(film, prev)) => (film matches Some(k) ==> k < i) && (prev matches Some(k) ==> k
                == i - 1 && files[k as int].method == Method::MovSource),
            _ => true,
        },
{
}

}
