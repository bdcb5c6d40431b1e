//! The course of packing: what is made of each file, and what becomes of it when its turn comes.

use crate::companions::TRANSFORM_LIMIT;
use crate::container::{next_film, place, Placing, Twins};
use crate::locale::message_with;
use crate::manifest::{hash_text, source_hash, validate_manifest, Entry, Manifest, Method};
use crate::monitor::{Monitor, Phases};
use crate::mov_cross::Slopes;
use crate::mov_model::SharedContext;
use crate::mov_motion::Fit;
use crate::paths::extension;
use crate::records::{select_transform, try_mov_source};
use crate::scan::Source;
use crate::source_encode::Sketch;
use crate::source_frames::{Expectation, Painter};
use crate::source_pool::{Kept, Pool};
use crate::text::same_text;
use crate::wire::{fail, Outcome};
use vstd::prelude::*;

verus! {

/// Whether a file is a film.
pub open spec fn is_film(s: Source) -> bool {
    crate::paths::extension_of(s.name@) == "mov"@
}

fn check_film(s: &Source) -> (r: bool)
    ensures
        r == is_film(*s),
{
    same_text(&extension(&s.name), "mov")
}

/// The numbers below `n` of the files that are films, or of those that are not, in order.
pub open spec fn chosen(s: Seq<Source>, films: bool, n: int) -> Seq<usize>
    decreases n,
{
    if n <= 0 {
        Seq::empty()
    } else if is_film(s[n - 1]) == films {
        chosen(s, films, n - 1).push((n - 1) as usize)
    } else {
        chosen(s, films, n - 1)
    }
}

/// The order in which files are packed, if pictures may be predicted from films: films first.
pub open spec fn films_lead(s: Seq<Source>) -> Seq<usize> {
    chosen(s, true, s.len() as int) + chosen(s, false, s.len() as int)
}

fn choose_files(s: &[Source], films: bool, order: &mut Vec<usize>)
    ensures
        final(order)@ == old(order)@ + chosen(s@, films, s@.len() as int),
{
    let ghost head = order@;
    let mut i: usize = 0;
    assert(order@ =~= head + chosen(s@, films, 0));
    while i < s.len()
        invariant
            i <= s.len(),
            order@ == head + chosen(s@, films, i as int),
        decreases s.len() - i,
    {
        if check_film(&s[i]) == films {
            order.push(i);
        }
        i += 1;
        assert(order@ =~= head + chosen(s@, films, i as int));
    }
}

/// Puts films first, and leaves the order among them, and among the other files, as it is.
pub fn films_first(s: &[Source]) -> (order: Vec<usize>)
    ensures
        order@ == films_lead(s@),
{
    let mut order: Vec<usize> = Vec::new();
    choose_files(s, true, &mut order);
    choose_files(s, false, &mut order);
    assert(order@ =~= films_lead(s@));
    order
}

/// The film before file number `i`, if its frames may be kept for it.
pub open spec fn film_before(s: Seq<Source>, i: int) -> Option<usize> {
    if i > 0 && is_film(s[i - 1]) && s[i - 1].bytes <= TRANSFORM_LIMIT {
        Some((i - 1) as usize)
    } else {
        None
    }
}

pub fn previous_film(s: &[Source], i: usize) -> (r: Option<usize>)
    requires
        i < s.len(),
    ensures
        r == film_before(s@, i as int),
{
    if i > 0 && check_film(&s[i - 1]) && s[i - 1].bytes <= TRANSFORM_LIMIT {
        Some(i - 1)
    } else {
        None
    }
}

/// What was made of a file in advance: its checksum, its record, if there is one, the film that the
/// record was made after, and the checksum of the film that a picture was predicted from.
pub struct Prepared {
    pub hash: String,
    pub made: Option<(Method, Vec<u8>)>,
    pub after: Option<usize>,
    pub paired_hash: Option<String>,
}

/// How a file is prepared.
#[derive(Clone, Copy, Debug, PartialEq, Eq, Structural)]
pub enum Way {
    /// Nothing is made of it in advance.
    Late,
    /// As a film, after the film before it.
    Film,
    /// As it is.
    Plain,
    /// In the best form of a picture.
    Picture,
}

pub open spec fn way_for(s: Source, raw: bool, preset: Seq<char>) -> Way {
    if s.bytes > TRANSFORM_LIMIT {
        Way::Late
    } else if !is_film(s) {
        Way::Picture
    } else if raw || preset == "fast"@ {
        Way::Plain
    } else {
        Way::Film
    }
}

/// Decides how a file is prepared.
pub fn way(s: &Source, raw: bool, preset: &str) -> (w: Way)
    ensures
        w == way_for(*s, raw, preset@),
{
    if s.bytes > TRANSFORM_LIMIT {
        Way::Late
    } else if !check_film(s) {
        Way::Picture
    } else if raw || same_text(preset, "fast") {
        Way::Plain
    } else {
        Way::Film
    }
}

/// What a painter yields while a film is prepared: the colours by which it is compared with the film before,
/// what it makes of the frames of that film and of this one, and what the pictures of this one let expect.
pub struct Looking {
    pub colours: Seq<(Seq<u8>, Seq<u8>)>,
    pub before: Seq<Sketch>,
    pub made: Seq<Sketch>,
    pub back: Seq<Expectation>,
}

/// The kept frames of the film before, if the film shows much of the same.
pub open spec fn frames_before(raw: Seq<u8>, before: Option<Seq<u8>>, o: Looking) -> Option<Seq<Kept>> {
    match before {
        None => None,
        Some(b) => if crate::source_likeness::related(raw, b, o.colours) {
            match crate::mov_source::pool_for(b, o.before) {
                Err(_) => None,
                Ok(pool) => Some(pool),
            }
        } else {
            None
        },
    }
}

pub open spec fn pool_in(pool: Option<Seq<Kept>>) -> Seq<Kept> {
    match pool {
        None => Seq::empty(),
        Some(p) => p,
    }
}

/// The record that is made of a film in advance, if there is one.
pub open spec fn film_record(raw: Seq<u8>, before: Option<Seq<u8>>, light: bool, o: Looking) -> Outcome<
    Option<Seq<u8>>,
> {
    crate::records::sourced_with(
        raw,
        pool_in(frames_before(raw, before, o)),
        light,
        o.made,
        o.back,
    )
}

/// Whether a painter was asked about the film before: for the colours by which it is compared, and about its
/// frames if it shows much of the same.
pub open spec fn before_looked<P: Painter>(
    raw: Seq<u8>,
    before: Option<Seq<u8>>,
    o: Looking,
    start: P,
    end: P,
) -> bool {
    match before {
        None => start == end,
        Some(b) => exists|mid: P| #[trigger]
            crate::source_likeness::related_asked(raw, b, o.colours, start, mid)
                && if crate::source_likeness::related(raw, b, o.colours) {
                crate::mov_source::pooled_so(b, o.before, mid, end)
            } else {
                mid == end
            },
    }
}

/// Whether a painter was asked what preparing a film asks of it, answered as `o` says, and is then as `end` is.
pub open spec fn looked<P: Painter>(
    raw: Seq<u8>,
    before: Option<Seq<u8>>,
    light: bool,
    o: Looking,
    start: P,
    end: P,
    stopped: bool,
) -> bool {
    exists|mid: P| #[trigger]
        before_looked(raw, before, o, start, mid) && crate::records::tried(
            raw,
            pool_in(frames_before(raw, before, o)),
            light,
            o.made,
            o.back,
            mid,
            end,
            stopped,
        )
}

/// Whether a film was prepared as its record tells, where `kept` says whether frames of the film before, which
/// is file number `j`, were kept for it.
pub open spec fn prepared_as(
    record: Outcome<Option<Seq<u8>>>,
    kept: bool,
    stopped: bool,
    raw: Seq<u8>,
    j: usize,
    r: Result<Prepared, String>,
) -> bool {
    let made = crate::wire::unless(stopped, record);
    match r {
        Err(e) => made == Err::<Option<Seq<u8>>, Seq<char>>(e@),
        Ok(p) => {
            &&& made == Ok::<Option<Seq<u8>>, Seq<char>>(
                match p.made {
                    Some((_, d)) => Some(d@),
                    None => None,
                },
            )
            &&& p.made matches Some((m, _)) ==> m == Method::MovSource
            &&& p.after == (if kept {
                Some(j)
            } else {
                None
            })
            &&& p.hash@ == crate::manifest::hex(crate::compression::checksum(raw))
            &&& p.paired_hash is None
        },
    }
}

/// Prepares a film, after the film before it, which is file number `j`.
pub fn prepare_film<M: Monitor, P: Painter>(
    raw: &[u8],
    before: Option<&[u8]>,
    j: usize,
    preset: &str,
    painter: &mut P,
    progress: &mut M,
) -> (r: Result<Prepared, String>)
    requires
        crate::prores_frame::addressable(raw.len() as int),
        before matches Some(b) ==> crate::prores_frame::addressable(b.len() as int),
        !old(progress).stopped(),
    ensures
        exists|o: Looking|
            prepared_as(
                film_record(
                    raw@,
                    crate::records::film_of(before),
                    crate::records::light_for(preset@),
                    o,
                ),
                frames_before(raw@, crate::records::film_of(before), o) is Some,
                final(progress).stopped(),
                raw@,
                j,
                r,
            ) && #[trigger] looked(
                raw@,
                crate::records::film_of(before),
                crate::records::light_for(preset@),
                o,
                *old(painter),
                *final(painter),
                final(progress).stopped(),
            ),
{
    let ghost b = crate::records::film_of(before);
    let ghost light = crate::records::light_for(preset@);
    let ghost mut colours = Seq::<(Seq<u8>, Seq<u8>)>::empty();
    let ghost mut earlier = Seq::<Sketch>::empty();
    let mut pool = Pool::default();
    let mut after: Option<usize> = None;
    if let Some(film) = before {
        let alike = crate::source_likeness::shares_content(raw, film, painter);
        proof {
            colours = choose|c: Seq<(Seq<u8>, Seq<u8>)>|
                alike == crate::source_likeness::related(raw@, film@, c)
                    && #[trigger] crate::source_likeness::related_asked(
                    raw@,
                    film@,
                    c,
                    *old(painter),
                    *painter,
                );
        }
        if alike {
            let ghost asking = *painter;
            let x = crate::mov_source::pool_of(film, painter);
            proof {
                earlier = choose|made: Seq<Sketch>|
                    crate::mov_source::pool_outcome(x) == crate::mov_source::pool_for(film@, made)
                        && #[trigger] crate::mov_source::pooled_so(film@, made, asking, *painter);
            }
            if let Ok(p) = x {
                pool = p;
                after = Some(j);
            }
        }
    }
    let ghost mid = *painter;
    let hash = hash_text(raw);
    let y = try_mov_source(raw, &pool, preset, painter, progress);
    proof {
        let (made, back) = choose|made: Seq<Sketch>, back: Seq<Expectation>|
            crate::records::option_outcome(y) == crate::wire::unless(
                progress.stopped(),
                crate::records::sourced_with(raw@, pool@, light, made, back),
            ) && #[trigger] crate::records::tried(
                raw@,
                pool@,
                light,
                made,
                back,
                mid,
                *painter,
                progress.stopped(),
            );
        let o = Looking { colours, before: earlier, made, back };
        assert(pool_in(frames_before(raw@, b, o)) =~= pool@);
        assert(before_looked(raw@, b, o, *old(painter), mid));
        assert(looked(raw@, b, light, o, *old(painter), *painter, progress.stopped()));
    }
    match y {
        Err(e) => Err(e),
        Ok(None) => Ok(Prepared { hash, made: None, after, paired_hash: None }),
        Ok(Some(d)) => Ok(
            Prepared { hash, made: Some((Method::MovSource, d)), after, paired_hash: None },
        ),
    }
}

/// Prepares a picture, which may be predicted from a film.
pub fn prepare_picture<M: Monitor, F: Fit>(
    raw: &[u8],
    ext: &str,
    raw_only: bool,
    preset: &str,
    film: Option<&[u8]>,
    fit: &mut F,
    progress: &mut Phases<M>,
) -> (r: Result<Prepared, String>)
    requires
        !old(progress).stopped(),
    ensures
        final(progress).stopped() ==> r is Err && r->Err_0@ == "error.cancelled"@,
        !final(progress).stopped() ==> r is Ok && r->Ok_0.made is Some && exists|slopes: Seq<Slopes>|
            (r->Ok_0.made->Some_0.0, r->Ok_0.made->Some_0.1@) == crate::records::stored(
                raw@,
                crate::records::sort_of(ext@, raw_only, preset@),
                preset@,
                crate::records::film_of(film),
                crate::mov_model::Learned::fresh(),
                slopes,
            ) && #[trigger] crate::records::fit_wanted(
                raw@,
                crate::records::sort_of(ext@, raw_only, preset@),
                preset@,
                slopes,
                *old(fit),
                *final(fit),
            ),
        r matches Ok(p) ==> {
            &&& p.made matches Some((m, d)) && crate::records::gives_back(
                m,
                d@,
                raw@,
                crate::records::film_of(film),
                crate::mov_model::Learned::fresh(),
            )
            &&& p.after is None
            &&& p.hash@ == crate::manifest::hex(crate::compression::checksum(raw@))
            &&& match film {
                None => p.paired_hash is None,
                Some(f) => p.paired_hash is Some && p.paired_hash->Some_0@ == crate::manifest::hex(
                    crate::compression::checksum(f@),
                ),
            }
        },
{
    let hash = hash_text(raw);
    let paired_hash = match film {
        None => None,
        Some(f) => Some(hash_text(f)),
    };
    let mut unused = SharedContext::default();
    match select_transform(raw, ext, raw_only, preset, film, &mut unused, fit, progress) {
        Err(e) => Err(e),
        Ok(made) => Ok(Prepared { hash, made: Some(made), after: None, paired_hash }),
    }
}

/// What is done with a file when its turn comes.
#[derive(Clone, Copy, Debug, PartialEq, Eq, Structural)]
pub enum Step {
    /// It has the contents of a file that was packed before.
    Twin(usize),
    /// Its record is taken as it is.
    Keep,
    /// It is coded again, after the last film.
    Again,
    /// It is coded without other films.
    Alone,
}

/// Whether an entry is that of a file.
pub open spec fn stands_for(e: Entry, s: Source) -> bool {
    e.name@ == s.name@ && e.size == s.bytes
}

/// The film that the next one may be predicted from, after the first `n` files.
pub open spec fn last_of(sources: Seq<Source>, entries: Seq<Entry>, n: int) -> Option<usize>
    decreases n,
{
    if n <= 0 {
        None
    } else {
        crate::container::last_film(
            last_of(sources, entries, n - 1),
            is_film(sources[n - 1]),
            entries[n - 1].method,
            (n - 1) as usize,
        )
    }
}

/// How far packing has come: the entries of the files so far, those among them that others may be
/// twins of, and the last film, if the next one may be predicted from it.
pub struct Packing {
    pub entries: Vec<Entry>,
    pub twins: Twins,
    pub last: Option<usize>,
}

impl Packing {
    /// Whether the first of the files have been packed, each in a way that it can be restored from.
    pub open spec fn wf(&self, sources: Seq<Source>) -> bool {
        let n = self.entries@.len();
        &&& n <= sources.len()
        &&& forall|i: int| 0 <= i < n ==> stands_for(#[trigger] self.entries@[i], sources[i])
        &&& forall|i: int| 0 <= i < n ==> #[trigger] crate::manifest::stored_well(self.entries@, i) is Ok
        &&& self.twins.wf()
        &&& forall|j: int|
            0 <= j < self.twins.places@.len() ==> {
                let k = (#[trigger] self.twins.places@[j]) as int;
                k < n && self.twins.index@[j] == crate::container::contents_key(
                    self.entries@[k].hash@,
                    self.entries@[k].size as int,
                )
            }
        &&& self.last == last_of(sources, self.entries@, n as int)
    }

    /// What is done with the next file.
    pub open spec fn step(&self, s: Source, hash: Seq<char>, made: Option<Method>, after: Option<usize>) -> Step {
        match self.twins.place(hash, s.bytes as int) {
            Some(k) => Step::Twin(k),
            None => match crate::container::placed(made, after, self.last, is_film(s)) {
                Placing::Keep => Step::Keep,
                Placing::Again => Step::Again,
                Placing::Alone => Step::Alone,
            },
        }
    }

    pub fn new() -> (p: Self)
        ensures
            p.entries@.len() == 0,
            p.last is None,
            forall|sources: Seq<Source>| #[trigger] p.wf(sources),
    {
        let p = Packing { entries: Vec::new(), twins: Twins::new(), last: None };
        assert forall|sources: Seq<Source>| #[trigger] p.wf(sources) by {
            assert(p.twins.places@.len() == 0);
        }
        p
    }

    /// Decides what is done with the next file.
    pub fn decide(&self, s: &Source, p: &Prepared) -> (step: Step)
        requires
            self.twins.wf(),
        ensures
            step == self.step(
                *s,
                p.hash@,
                match p.made {
                    Some((m, _)) => Some(m),
                    None => None,
                },
                p.after,
            ),
    {
        if let Some(k) = self.twins.find(&p.hash, s.bytes) {
            return Step::Twin(k);
        }
        let made: Option<Method> = match &p.made {
            Some((m, _)) => Some(*m),
            None => None,
        };
        match place(made, p.after, self.last, check_film(s)) {
            Placing::Keep => Step::Keep,
            Placing::Again => Step::Again,
            Placing::Alone => Step::Alone,
        }
    }

    /// Checks that the film that a picture was predicted from is the one that has been packed.
    pub fn check_companion(&self, sources: &[Source], film: Option<usize>, p: &Prepared) -> (r: Result<
        (),
        String,
    >)
        requires
            film matches Some(k) ==> k < self.entries@.len() <= sources@.len(),
        ensures
            crate::scan::unit_of(r) == match (film, p.paired_hash) {
                (Some(k), Some(h)) => if self.entries@[k as int].hash@ != h@ {
                    Err::<(), Seq<char>>(
                        crate::locale::coded_message(
                            "error.source_changed_pack"@,
                            seq![sources@[k as int].name@],
                        ),
                    )
                } else {
                    Ok(())
                },
                _ => Ok(()),
            },
    {
        if let Some(k) = film {
            if let Some(h) = &p.paired_hash {
                if !same_text(&self.entries[k].hash, h) {
                    return Err(
                        message_with("error.source_changed_pack", sources[k].name.clone()),
                    );
                }
            }
        }
        Ok(())
    }

    fn add_entry(&mut self, sources: &[Source], method: Method, stored: u64, hash: String, reference: Option<usize>)
        requires
            old(self).wf(sources@),
            old(self).entries@.len() < sources@.len(),
            forall|e: Entry|
                stands_for(e, sources@[old(self).entries@.len() as int]) && e.method == method && e.stored
                    == stored && e.hash@ == hash@ && e.reference == reference
                    ==> #[trigger] crate::manifest::stored_well(
                    old(self).entries@.push(e),
                    old(self).entries@.len() as int,
                ) is Ok,
        ensures
            final(self).wf(sources@),
            final(self).entries@.len() == old(self).entries@.len() + 1,
            final(self).entries@.drop_last() == old(self).entries@,
            stands_for(final(self).entries@.last(), sources@[old(self).entries@.len() as int]),
            final(self).entries@.last().method == method,
            final(self).entries@.last().stored == stored,
            final(self).entries@.last().hash@ == hash@,
            final(self).entries@.last().reference == reference,
            final(self).twins == old(self).twins,
    {
        let i: usize = self.entries.len();
        let ghost before = self.entries@;
        let e = Entry {
            name: sources[i].name.clone(),
            method,
            size: sources[i].bytes,
            stored,
            hash,
            reference,
        };
        self.last = next_film(self.last, check_film(&sources[i]), method, i);
        self.entries.push(e);
        proof {
            let after = self.entries@;
            assert(after == before.push(e));
            assert forall|k: int| 0 <= k < after.len() implies #[trigger] crate::manifest::stored_well(
                after,
                k,
            ) is Ok by {
                if k < before.len() {
                    assert(crate::manifest::stored_well(before, k) is Ok);
                    assert(after[k] == before[k]);
                    if let Some(r) = after[k].reference {
                        if r < k {
                            assert(after[r as int] == before[r as int]);
                        }
                    }
                }
            }
            assert forall|k: int| 0 <= k < after.len() implies stands_for(
                #[trigger] after[k],
                sources@[k],
            ) by {
                if k < before.len() {
                    assert(after[k] == before[k]);
                }
            }
            lemma_last_alike(sources@, before, after, before.len() as int);
            assert(after.drop_last() =~= before);
            assert forall|j: int| 0 <= j < self.twins.places@.len() implies {
                let k = (#[trigger] self.twins.places@[j]) as int;
                k < after.len() && self.twins.index@[j] == crate::container::contents_key(
                    after[k].hash@,
                    after[k].size as int,
                )
            } by {
                let k = self.twins.places@[j] as int;
                assert(after[k] == before[k]);
            }
        }
    }

    /// Notes that the next file has the contents of one that was packed before.
    pub fn add_twin(&mut self, sources: &[Source], hash: String, k: usize)
        requires
            old(self).wf(sources@),
            old(self).entries@.len() < sources@.len(),
            old(self).twins.place(hash@, sources@[old(self).entries@.len() as int].bytes as int) == Some(k),
        ensures
            final(self).wf(sources@),
            final(self).entries@.drop_last() == old(self).entries@,
            final(self).entries@.len() == old(self).entries@.len() + 1,
            stands_for(final(self).entries@.last(), sources@[old(self).entries@.len() as int]),
            final(self).entries@.last().method == Method::Duplicate,
            final(self).entries@.last().stored == 0,
            final(self).entries@.last().hash@ == hash@,
            final(self).entries@.last().reference == Some(k),
            final(self).twins == old(self).twins,
    {
        proof {
            let n = self.entries@.len() as int;
            let size = sources@[n].bytes as int;
            let key = crate::container::contents_key(hash@, size);
            let j = self.twins.index@.index_of(key);
            assert(self.twins.index@[j] == key);
            assert(self.twins.places@[j] == k);
            crate::container::law_twins_agree(
                hash@,
                size,
                self.entries@[k as int].hash@,
                self.entries@[k as int].size as int,
            );
        }
        self.add_entry(sources, Method::Duplicate, 0, hash, Some(k));
    }

    /// Notes the record of the next file, which may be a picture that was predicted from a film.
    pub fn add_record(&mut self, sources: &[Source], method: Method, stored: u64, hash: String, film: Option<usize>)
        requires
            old(self).wf(sources@),
            old(self).entries@.len() < sources@.len(),
            old(self).twins.place(hash@, sources@[old(self).entries@.len() as int].bytes as int) is None,
            method != Method::Duplicate,
            method == Method::Raw ==> stored == sources@[old(self).entries@.len() as int].bytes,
            method != Method::Raw ==> stored <= crate::manifest::MAX_RECORD
                && sources@[old(self).entries@.len() as int].bytes <= TRANSFORM_LIMIT,
            method == Method::GifPredict ==> film is Some && film->Some_0 < old(self).entries@.len()
                && crate::paths::extension_of(sources@[old(self).entries@.len() as int].name@) == "gif"@
                && is_film(sources@[film->Some_0 as int]) && sources@[film->Some_0 as int].bytes
                <= TRANSFORM_LIMIT,
        ensures
            final(self).wf(sources@),
            final(self).entries@.drop_last() == old(self).entries@,
            final(self).entries@.len() == old(self).entries@.len() + 1,
            stands_for(final(self).entries@.last(), sources@[old(self).entries@.len() as int]),
            final(self).entries@.last().method == method,
            final(self).entries@.last().stored == stored,
            final(self).entries@.last().hash@ == hash@,
            final(self).entries@.last().reference == (if method == Method::GifPredict {
                film
            } else {
                None
            }),
            final(self).twins.place(
                hash@,
                sources@[old(self).entries@.len() as int].bytes as int,
            ) == Some(old(self).entries@.len() as usize),
    {
        let i: usize = self.entries.len();
        let reference: Option<usize> = if method == Method::GifPredict { film } else { None };
        let size: u64 = sources[i].bytes;
        let text = hash.clone();
        let ghost before = self.entries@;
        proof {
            if let Some(k) = reference {
                assert(stands_for(before[k as int], sources@[k as int]));
            }
        }
        self.add_entry(sources, method, stored, hash, reference);
        let ghost known = self.twins;
        self.twins.add_file(&text, size, i);
        proof {
            assert forall|j: int| 0 <= j < self.twins.places@.len() implies {
                let k = (#[trigger] self.twins.places@[j]) as int;
                k < self.entries@.len() && self.twins.index@[j] == crate::container::contents_key(
                    self.entries@[k].hash@,
                    self.entries@[k].size as int,
                )
            } by {
                if j < known.places@.len() {
                    assert(self.twins.places@[j] == known.places@[j]);
                    assert(self.twins.index@[j] == known.index@[j]);
                } else {
                    assert(self.entries@[i as int] == self.entries@.last());
                }
            }
        }
    }

    /// Notes that the next file, which is too long for anything else, is stored as it is.
    pub fn add_large(&mut self, sources: &[Source], hash: String)
        requires
            old(self).wf(sources@),
            old(self).entries@.len() < sources@.len(),
        ensures
            final(self).wf(sources@),
            final(self).entries@.drop_last() == old(self).entries@,
            final(self).entries@.len() == old(self).entries@.len() + 1,
            stands_for(final(self).entries@.last(), sources@[old(self).entries@.len() as int]),
            final(self).entries@.last().method == Method::Raw,
            final(self).entries@.last().stored == sources@[old(self).entries@.len() as int].bytes,
            final(self).entries@.last().hash@ == hash@,
            final(self).entries@.last().reference is None,
            final(self).twins == old(self).twins,
    {
        let i: usize = self.entries.len();
        let size: u64 = sources[i].bytes;
        self.add_entry(sources, Method::Raw, size, hash, None);
    }

    /// The table of contents of what was packed, if it can be one.
    pub fn finish(self, dir_name: String, src_bytes: u64, preset: String) -> (r: Result<Manifest, String>)
        ensures
            exists|m: Manifest| {
                &&& #[trigger] contents_of(m, self.entries@, dir_name@, src_bytes, preset@)
                &&& match r {
                    Ok(made) => made == m && crate::manifest::manifest_checked(m) == Ok::<(), Seq<char>>(()),
                    Err(e) => crate::manifest::manifest_checked(m) == Err::<(), Seq<char>>(e@),
                }
            },
    {
        let m = Manifest {
            version: 2,
            dir_name,
            src_bytes,
            source_hash: source_hash(&self.entries),
            preset,
            files: self.entries,
        };
        assert(contents_of(m, self.entries@, dir_name@, src_bytes, preset@));
        match validate_manifest(&m) {
            Err(e) => Err(e),
            Ok(()) => Ok(m),
        }
    }
}

/// Whether a table of contents is that of some entries.
pub open spec fn contents_of(m: Manifest, files: Seq<Entry>, dir: Seq<char>, bytes: u64, preset: Seq<char>) -> bool {
    &&& m.version == 2
    &&& m.dir_name@ == dir
    &&& m.src_bytes == bytes
    &&& m.source_hash@ == crate::manifest::listing_hash(files)
    &&& m.preset@ == preset
    &&& m.files@ == files
}

proof fn lemma_last_alike(sources: Seq<Source>, a: Seq<Entry>, b: Seq<Entry>, n: int)
    requires
        0 <= n <= a.len(),
        n <= b.len(),
        forall|i: int| 0 <= i < n ==> #[trigger] a[i] == b[i],
    ensures
        last_of(sources, a, n) == last_of(sources, b, n),
    decreases n,
{
    if n > 0 {
        lemma_last_alike(sources, a, b, n - 1);
        assert(a[n - 1] == b[n - 1]);
    }
}

/// How long the first `n` files of a selection are together.
pub open spec fn bytes_sum(sources: Seq<Source>, n: int) -> int
    decreases n,
{
    if n <= 0 {
        0
    } else {
        bytes_sum(sources, n - 1) + sources[n - 1].bytes
    }
}

proof fn lemma_sums(files: Seq<Entry>, sources: Seq<Source>, n: int)
    requires
        0 <= n <= files.len(),
        n <= sources.len(),
        forall|i: int| 0 <= i < n ==> stands_for(#[trigger] files[i], sources[i]),
    ensures
        crate::manifest::size_sum(files, n) == bytes_sum(sources, n),
    decreases n,
{
    if n > 0 {
        lemma_sums(files, sources, n - 1);
        assert(stands_for(files[n - 1], sources[n - 1]));
    }
}

/// The result of packing tells of all files of a selection: how many there are, and how long they are together.
/// The archive goes by its first part, and its parts are as long together as they were written. Its table of
/// contents names each file once.
pub proof fn law_results_tell_of_all_files(
    p: Packing,
    sources: Seq<Source>,
    m: Manifest,
    dir: Seq<char>,
    bytes: u64,
    preset: Seq<char>,
    parts: Seq<String>,
    sizes: Seq<u64>,
    r: crate::container::PackResult,
)
    requires
        p.wf(sources),
        p.entries@.len() == sources.len(),
        contents_of(m, p.entries@, dir, bytes, preset),
        crate::manifest::manifest_checked(m) is Ok,
        crate::container::tells(r, parts, sizes, m),
    ensures
        r.n_files == sources.len(),
        r.src_bytes == bytes_sum(sources, sources.len() as int),
        crate::manifest::entry_names(m.files@) == crate::scan::names_of(sources),
        crate::manifest::entry_names(m.files@).no_duplicates(),
        r.packed_bytes == crate::container::sizes_sum(sizes, sizes.len() as int),
        r.parts@ == parts,
        r.pack_path@ == parts[0]@,
{
    law_contents_name_each_file_once(p, sources, m, dir, bytes, preset);
    crate::manifest::law_contents_add_up(m);
}

/// The table of contents of all files of a selection names each of them once, in their order, with its length,
/// and says how long they are together.
pub proof fn law_contents_name_each_file_once(
    p: Packing,
    sources: Seq<Source>,
    m: Manifest,
    dir: Seq<char>,
    bytes: u64,
    preset: Seq<char>,
)
    requires
        p.wf(sources),
        p.entries@.len() == sources.len(),
        contents_of(m, p.entries@, dir, bytes, preset),
        crate::manifest::manifest_checked(m) is Ok,
    ensures
        crate::manifest::entry_names(m.files@) == crate::scan::names_of(sources),
        crate::manifest::entry_names(m.files@).no_duplicates(),
        forall|i: int| 0 <= i < sources.len() ==> (#[trigger] m.files@[i]).size == sources[i].bytes,
        bytes == bytes_sum(sources, sources.len() as int),
{
    let names = crate::manifest::entry_names(m.files@);
    crate::manifest::law_contents_add_up(m);
    crate::manifest::law_valid_manifests_are_safe(m);
    lemma_sums(m.files@, sources, sources.len() as int);
    assert forall|i: int| 0 <= i < sources.len() implies (#[trigger] m.files@[i]).size == sources[i].bytes
        && m.files@[i].name@ == sources[i].name@ by {
        assert(stands_for(p.entries@[i], sources[i]));
    }
    assert(names =~= crate::scan::names_of(sources)) by {
        assert forall|i: int| 0 <= i < names.len() implies names[i] == crate::scan::names_of(sources)[i] by {
            assert(m.files@[i].name@ == sources[i].name@);
        }
    }
    assert forall|i: int, j: int| 0 <= i < names.len() && 0 <= j < names.len() && i != j implies names[i]
        != names[j] by {
        let (a, b) = if i < j {
            (i, j)
        } else {
            (j, i)
        };
        assert(crate::text::lowercase(m.files@[a].name@) != crate::text::lowercase(m.files@[b].name@));
    }
}

/// While films are packed, one that is predicted from the last film finds it when it is restored: it
/// is the file before.
pub proof fn law_needed_film_is_there(p: Packing, sources: Seq<Source>, e: Entry)
    requires
        p.wf(sources),
        forall|i: int| 0 <= i < p.entries@.len() ==> is_film(#[trigger] sources[i]),
        e.method == Method::MovSource,
    ensures
        p.last matches Some(j) ==> crate::container::needs(
            p.entries@.push(e),
            p.entries@.len() as int,
            true,
        ) == Ok::<(Option<usize>, Option<usize>), Seq<char>>((Some(j), Some(j))),
{
    let n = p.entries@.len() as int;
    if n > 0 {
        assert(is_film(sources[n - 1]));
        assert(p.entries@.push(e)[n - 1] == p.entries@[n - 1]);
    }
}

/// What the folder of an archive is called: the one file that was packed, without its extension, or
/// the name that all packed folders share.
pub open spec fn root_named(stem: Option<Seq<char>>, names: Seq<Option<Seq<char>>>, single: bool) -> Seq<char> {
    let name = if single {
        stem
    } else if names.len() > 0 && forall|i: int| 0 <= i < names.len() ==> #[trigger] names[i] == names[0] {
        names[0]
    } else {
        None
    };
    match name {
        Some(s) => s,
        None => "media"@,
    }
}

pub open spec fn text_in(s: Option<String>) -> Option<Seq<char>> {
    match s {
        Some(t) => Some(t@),
        None => None,
    }
}

pub open spec fn texts_in(s: Seq<Option<String>>) -> Seq<Option<Seq<char>>> {
    s.map_values(|t: Option<String>| text_in(t))
}

/// Names the folder of an archive.
pub fn root_name(stem: Option<String>, names: &[Option<String>], single: bool) -> (s: String)
    ensures
        s@ == root_named(text_in(stem), texts_in(names@), single),
{
    if single {
        return match stem {
            Some(s) => s,
            None => fail("media"),
        };
    }
    if names.len() == 0 {
        return fail("media");
    }
    let ghost all = texts_in(names@);
    let mut i: usize = 0;
    while i < names.len()
        invariant
            i <= names.len(),
            names.len() > 0,
            !single,
            all == texts_in(names@),
            forall|k: int| 0 <= k < i ==> #[trigger] all[k] == all[0],
        decreases names.len() - i,
    {
        let same: bool = match (&names[i], &names[0]) {
            (Some(a), Some(b)) => same_text(a, b),
            (None, None) => true,
            _ => false,
        };
        if !same {
            assert(all[i as int] != all[0]);
            return fail("media");
        }
        i += 1;
    }
    match &names[0] {
        Some(s) => s.clone(),
        None => fail("media"),
    }
}

}
