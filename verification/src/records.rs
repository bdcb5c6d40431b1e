//! How a file is stored: which form its record has.

use crate::compression::pack;
use crate::gif_model::encode_transformed_with_progress;
use crate::manifest::{Method, MAX_RECORD};
use crate::monitor::{Monitor, Phases};
use crate::mov_model::{encode_shared_with_progress, Learned, SharedContext};
use crate::mov_cross::Slopes;
use crate::mov_motion::Fit;
use crate::source_encode::Sketch;
use crate::source_frames::{Expectation, Painter};
use crate::text::same_text;
use crate::wire::{fail, same, Outcome};
use vstd::prelude::*;

verus! {

/// The size that compressing yielded, or another where it failed.
pub open spec fn size_or(o: Outcome<Seq<u8>>, other: int) -> int {
    match o {
        Ok(b) => b.len() as int,
        Err(_) => other,
    }
}

/// How long data are when they are compressed, or `other` where that fails.
pub open spec fn size(data: Seq<u8>, level: int, other: int) -> int {
    size_or(crate::compression::packed(data, level), other)
}

/// Finds how long data are when they are compressed, or takes `other` where that fails.
fn size_of(data: &[u8], level: i32, other: usize) -> (n: usize)
    requires
        1 <= level <= 22,
    ensures
        n == size(data@, level as int, other as int),
{
    match pack(data, level) {
        Ok(v) => v.len(),
        Err(_) => other,
    }
}

/// A form that was made, if it is shorter than `plain` bytes.
pub open spec fn shorter(made: Outcome<Seq<u8>>, plain: int) -> Option<Seq<u8>> {
    match made {
        Err(_) => None,
        Ok(b) => if b.len() < plain {
            Some(b)
        } else {
            None
        },
    }
}

/// Takes a form that was made, if it is shorter than `plain` bytes.
pub fn take_shorter(made: Result<Vec<u8>, String>, plain: usize) -> (r: Option<Vec<u8>>)
    ensures
        bytes_in(r) == shorter(crate::wire::bytes_of(made), plain as int),
{
    match made {
        Err(_) => None,
        Ok(b) => if b.len() < plain {
            Some(b)
        } else {
            None
        },
    }
}

/// The model of an exact form, if it is smaller than the compressed form.
pub open spec fn smaller_model(sgif: Seq<u8>) -> Option<Seq<u8>> {
    shorter(
        crate::gif_model::modelled(sgif, crate::gif_model::outside(sgif)),
        size(sgif, 6, sgif.len() as int),
    )
}

pub open spec fn bytes_in(r: Option<Vec<u8>>) -> Option<Seq<u8>> {
    match r {
        Some(v) => Some(v@),
        None => None,
    }
}

/// Tries a model of an exact form.
fn gif_model_candidate<M: Monitor>(sgif: &[u8], progress: &mut Phases<M>) -> (r: Option<Vec<u8>>)
    requires
        !old(progress).stopped(),
    ensures
        !final(progress).stopped() ==> bytes_in(r) == smaller_model(sgif@),
{
    let x = encode_transformed_with_progress(sgif, progress);
    if x.is_err() {
        return None;
    }
    let plain: usize = size_of(sgif, 6, sgif.len());
    take_shorter(x, plain)
}

/// A record that may be stored.
pub open spec fn candidate_in(r: Option<(Method, Vec<u8>)>) -> Option<(Method, Seq<u8>)> {
    match r {
        Some((m, v)) => Some((m, v@)),
        None => None,
    }
}

/// Whether a prediction is so much smaller that no model need be tried.
pub open spec fn clear_win(predicted: Option<int>, plain: int) -> bool {
    predicted matches Some(n) && n * 10 < if plain * 6 > usize::MAX {
        usize::MAX as int
    } else {
        plain * 6
    }
}

/// Which form of a GIF file is best, where `plain`, `predicted` and `model` are the compressed sizes
/// of its forms.
pub open spec fn best_form(plain: int, predicted: Option<int>, model: Option<int>) -> Method {
    match (predicted, model) {
        (Some(p), Some(m)) => if p < m && p < plain {
            Method::GifPredict
        } else {
            Method::GifModel
        },
        (Some(p), None) => if p < plain {
            Method::GifPredict
        } else {
            Method::GifExact
        },
        (None, Some(_)) => Method::GifModel,
        (None, None) => Method::GifExact,
    }
}

/// Tells whether no model need be tried.
pub fn wins_clearly(predicted: Option<usize>, plain: usize) -> (r: bool)
    ensures
        r == clear_win(
            (match predicted {
                Some(n) => Some(n as int),
                None => None,
            }),
            plain as int,
        ),
{
    match predicted {
        None => false,
        Some(n) => {
            let most: u128 = if plain as u128 * 6 > usize::MAX as u128 {
                usize::MAX as u128
            } else {
                plain as u128 * 6
            };
            (n as u128 * 10) < most
        },
    }
}

/// Decides which form of a GIF file is best.
pub fn choose_form(plain: usize, predicted: Option<usize>, model: Option<usize>) -> (m: Method)
    ensures
        m == best_form(
            plain as int,
            (match predicted {
                Some(n) => Some(n as int),
                None => None,
            }),
            (match model {
                Some(n) => Some(n as int),
                None => None,
            }),
        ),
{
    match (predicted, model) {
        (Some(p), Some(m)) => if p < m && p < plain {
            Method::GifPredict
        } else {
            Method::GifModel
        },
        (Some(p), None) => if p < plain {
            Method::GifPredict
        } else {
            Method::GifExact
        },
        (None, Some(_)) => Method::GifModel,
        (None, None) => Method::GifExact,
    }
}

/// The predicted form of a GIF file, if it is not too long.
pub open spec fn predicted_form(raw: Seq<u8>, film: Seq<u8>) -> Option<Seq<u8>> {
    match crate::gif_predict::encoded(
        raw,
        film,
        crate::compression::packed(crate::gif_predict::rest(raw), 19),
    ) {
        Ok(p) => if p.len() <= MAX_RECORD {
            Some(p)
        } else {
            None
        },
        Err(_) => None,
    }
}

/// How long a form is when it is compressed, if there is one.
pub open spec fn sized(form: Option<Seq<u8>>) -> Option<int> {
    match form {
        Some(f) => Some(size(f, 3, usize::MAX as int)),
        None => None,
    }
}

/// The compressed size of a form, or the largest number where there is none.
pub open spec fn size_in(form: Option<Seq<u8>>) -> int {
    match form {
        Some(f) => size(f, 3, usize::MAX as int),
        None => usize::MAX as int,
    }
}

/// The exact form of a GIF file, if it has one.
pub open spec fn exact_form(raw: Seq<u8>) -> Option<Seq<u8>> {
    match crate::gif_exact::encoded(raw) {
        Ok(sgif) => Some(sgif),
        Err(_) => None,
    }
}

/// The model of a GIF file that is predicted too.
pub open spec fn rival_model(raw: Seq<u8>, film: Seq<u8>) -> Option<Seq<u8>> {
    match exact_form(raw) {
        None => None,
        Some(sgif) => if clear_win(sized(predicted_form(raw, film)), size_in(exact_form(raw))) {
            None
        } else {
            smaller_model(sgif)
        },
    }
}

/// The best of the forms of a GIF file that there are, where `plain`, `pn` and `mn` are their compressed
/// sizes.
pub open spec fn picked(
    sgif: Option<Seq<u8>>,
    plain: int,
    predicted: Option<Seq<u8>>,
    pn: int,
    model: Option<Seq<u8>>,
    mn: int,
) -> Option<(Method, Seq<u8>)> {
    match sgif {
        None => match predicted {
            Some(p) => if pn < usize::MAX {
                Some((Method::GifPredict, p))
            } else {
                None
            },
            None => None,
        },
        Some(v) => match best_form(
            plain,
            if predicted is Some {
                Some(pn)
            } else {
                None
            },
            if model is Some {
                Some(mn)
            } else {
                None
            },
        ) {
            Method::GifPredict => Some((Method::GifPredict, predicted->Some_0)),
            Method::GifModel => Some((Method::GifModel, model->Some_0)),
            _ => Some((Method::GifExact, v)),
        },
    }
}

/// Picks the best of the forms of a GIF file that there are, by their compressed sizes.
pub fn pick_form(
    sgif: Option<Vec<u8>>,
    plain: usize,
    predicted: Option<Vec<u8>>,
    pn: usize,
    model: Option<Vec<u8>>,
    mn: usize,
) -> (r: Option<(Method, Vec<u8>)>)
    ensures
        candidate_in(r) == picked(
            bytes_in(sgif),
            plain as int,
            bytes_in(predicted),
            pn as int,
            bytes_in(model),
            mn as int,
        ),
{
    let exact = match sgif {
        None => {
            return match predicted {
                Some(p) => if pn < usize::MAX {
                    Some((Method::GifPredict, p))
                } else {
                    None
                },
                None => None,
            };
        },
        Some(v) => v,
    };
    let a: Option<usize> = if predicted.is_some() {
        Some(pn)
    } else {
        None
    };
    let b: Option<usize> = if model.is_some() {
        Some(mn)
    } else {
        None
    };
    match choose_form(plain, a, b) {
        Method::GifPredict => match predicted {
            Some(p) => Some((Method::GifPredict, p)),
            None => None,
        },
        Method::GifModel => match model {
            Some(m) => Some((Method::GifModel, m)),
            None => None,
        },
        _ => Some((Method::GifExact, exact)),
    }
}

/// The best form of a GIF file that a film shows too.
pub open spec fn with_film(raw: Seq<u8>, film: Seq<u8>) -> Option<(Method, Seq<u8>)> {
    picked(
        exact_form(raw),
        size_in(exact_form(raw)),
        predicted_form(raw, film),
        size_in(predicted_form(raw, film)),
        rival_model(raw, film),
        size_in(rival_model(raw, film)),
    )
}

/// The best form of a GIF file that no film shows.
pub open spec fn without_film(raw: Seq<u8>, fast: bool) -> Option<(Method, Seq<u8>)> {
    match crate::gif_exact::encoded(raw) {
        Err(_) => None,
        Ok(sgif) => if fast {
            Some((Method::GifExact, sgif))
        } else {
            match smaller_model(sgif) {
                Some(m) => Some((Method::GifModel, m)),
                None => Some((Method::GifExact, sgif)),
            }
        },
    }
}

/// The best form of a GIF file.
pub open spec fn gif_form(raw: Seq<u8>, fast: bool, film: Option<Seq<u8>>) -> Option<(Method, Seq<u8>)> {
    match film {
        Some(f) if !fast => with_film(raw, f),
        _ => without_film(raw, fast),
    }
}

pub open spec fn film_of(film: Option<&[u8]>) -> Option<Seq<u8>> {
    match film {
        Some(f) => Some(f@),
        None => None,
    }
}

/// Tries forms of a GIF file that a film shows too.
fn try_with_film<M: Monitor>(raw: &[u8], sgif: Option<Vec<u8>>, film: &[u8], progress: &mut Phases<M>) -> (r:
    Option<(Method, Vec<u8>)>)
    requires
        !old(progress).stopped(),
        bytes_in(sgif) == exact_form(raw@),
    ensures
        !final(progress).stopped() ==> candidate_in(r) == with_film(raw@, film@),
        r matches Some((Method::GifPredict, p)) ==> crate::gif_predict::comes_back(p@, raw@, film@),
{
    let plain: usize = match &sgif {
        Some(v) => size_of(v, 3, usize::MAX),
        None => usize::MAX,
    };
    let x = crate::gif_predict::encode(raw, film, progress);
    if progress.halted() {
        return None;
    }
    let predicted: Option<Vec<u8>> = match x {
        Ok(p) => if p.len() as u64 <= MAX_RECORD {
            Some(p)
        } else {
            None
        },
        Err(_) => None,
    };
    assert(bytes_in(predicted) == predicted_form(raw@, film@));
    let pn: Option<usize> = match &predicted {
        Some(p) => Some(size_of(p, 3, usize::MAX)),
        None => None,
    };
    let clear = wins_clearly(pn, plain);
    let mut model: Option<Vec<u8>> = None;
    match &sgif {
        Some(v) => {
            if !clear {
                model = gif_model_candidate(v, progress);
                if progress.halted() {
                    return None;
                }
            }
        },
        None => {},
    }
    assert(bytes_in(model) == rival_model(raw@, film@));
    let mn: usize = match &model {
        Some(m) => size_of(m, 3, usize::MAX),
        None => usize::MAX,
    };
    let size: usize = match pn {
        Some(n) => n,
        None => usize::MAX,
    };
    pick_form(sgif, plain, predicted, size, model, mn)
}

/// Tries forms of a GIF file.
fn try_gif<M: Monitor>(raw: &[u8], fast: bool, film: Option<&[u8]>, progress: &mut Phases<M>) -> (r: Option<
    (Method, Vec<u8>),
>)
    requires
        !old(progress).stopped(),
    ensures
        !final(progress).stopped() ==> candidate_in(r) == gif_form(raw@, fast, film_of(film)),
        r matches Some((Method::GifPredict, p)) ==> film matches Some(f)
            && crate::gif_predict::comes_back(p@, raw@, f@),
{
    let sgif: Option<Vec<u8>> = match crate::gif_exact::encode(raw) {
        Ok(v) => Some(v),
        Err(_) => None,
    };
    if !fast {
        match film {
            Some(f) => {
                progress.enter(1500, 8000);
                return try_with_film(raw, sgif, f, progress);
            },
            None => {},
        }
    }
    match sgif {
        None => None,
        Some(v) => {
            if fast {
                return Some((Method::GifExact, v));
            }
            match gif_model_candidate(&v, progress) {
                Some(m) => Some((Method::GifModel, m)),
                None => Some((Method::GifExact, v)),
            }
        },
    }
}

/// A movie as the next of a sequence.
pub open spec fn shared_form(raw: Seq<u8>, before: Learned) -> Option<(Method, Seq<u8>)> {
    match crate::mov_model::modelled(raw, before, true) {
        Ok((d, _)) => Some((Method::MovShared, d)),
        Err(_) => None,
    }
}

/// The better of two forms of a movie, where `base` and `moved` are their compressed sizes.
pub open spec fn better_movie(
    shared: Option<(Method, Seq<u8>)>,
    motion: Outcome<Seq<u8>>,
    base: int,
    moved: int,
) -> Option<(Method, Seq<u8>)> {
    match motion {
        Err(_) => shared,
        Ok(p) => if p.len() <= MAX_RECORD && moved < (if shared is Some {
            base
        } else {
            usize::MAX as int
        }) {
            Some((Method::MovMotion, p))
        } else {
            shared
        },
    }
}

/// Takes the better of two forms of a movie, by their compressed sizes.
pub fn choose_movie(
    shared: Option<(Method, Vec<u8>)>,
    motion: Result<Vec<u8>, String>,
    base: usize,
    moved: usize,
) -> (r: Option<(Method, Vec<u8>)>)
    ensures
        candidate_in(r) == better_movie(
            candidate_in(shared),
            crate::wire::bytes_of(motion),
            base as int,
            moved as int,
        ),
{
    match motion {
        Err(_) => shared,
        Ok(p) => {
            let most: usize = if shared.is_some() {
                base
            } else {
                usize::MAX
            };
            if p.len() as u64 <= MAX_RECORD && moved < most {
                Some((Method::MovMotion, p))
            } else {
                shared
            }
        },
    }
}

/// The best form of a movie, where `slopes` is what was fitted to it.
pub open spec fn mov_form(raw: Seq<u8>, max: bool, before: Learned, slopes: Seq<Slopes>) -> Option<
    (Method, Seq<u8>),
> {
    let shared = shared_form(raw, before);
    if !max {
        shared
    } else {
        let motion = crate::mov_motion::encoded(raw, slopes);
        better_movie(
            shared,
            motion,
            match shared {
                Some((_, d)) => size(d, 3, usize::MAX as int),
                None => usize::MAX as int,
            },
            size(motion->Ok_0, 3, usize::MAX as int),
        )
    }
}

/// Whether slopes were fitted to a movie where that was asked for.
pub open spec fn fit_tried<F: Fit>(raw: Seq<u8>, max: bool, slopes: Seq<Slopes>, before: F, after: F) -> bool {
    if max {
        crate::mov_motion::fit_asked(raw, slopes, before, after, false)
    } else {
        before == after
    }
}

/// Whether slopes were fitted to a file where its kind and the preset ask for it.
pub open spec fn fit_wanted<F: Fit>(
    raw: Seq<u8>,
    sort: Sort,
    preset: Seq<char>,
    slopes: Seq<Slopes>,
    before: F,
    after: F,
) -> bool {
    fit_tried(raw, sort == Sort::Mov && preset == "max"@, slopes, before, after)
}

/// Tries forms of a movie. The context is the one that follows where the movie is stored as the next
/// of a sequence.
fn try_mov<M: Monitor, F: Fit>(
    raw: &[u8],
    max: bool,
    context: &mut SharedContext,
    fit: &mut F,
    progress: &mut Phases<M>,
) -> (r: Option<(Method, Vec<u8>)>)
    requires
        !old(progress).stopped(),
        old(context)@.wf(),
    ensures
        !final(progress).stopped() ==> exists|slopes: Seq<Slopes>|
            candidate_in(r) == mov_form(raw@, max, old(context)@, slopes) && #[trigger] fit_tried(
                raw@,
                max,
                slopes,
                *old(fit),
                *final(fit),
            ),
        !final(progress).stopped() ==> final(context)@ == (match crate::mov_model::modelled(
            raw@,
            old(context)@,
            true,
        ) {
            Ok((_, after)) => after,
            Err(_) => old(context)@,
        }) && final(context)@.wf(),
        raw@.len() <= crate::mov_model::LIMIT && crate::monitor::refuses(old(progress).inner)
            ==> final(progress).stopped(),
{
    let ghost before = context@;
    let ghost asked = *progress;
    let shared: Option<(Method, Vec<u8>)> = match encode_shared_with_progress(raw, context, progress) {
        Ok(v) => Some((Method::MovShared, v)),
        Err(_) => None,
    };
    proof {
        if raw@.len() <= crate::mov_model::LIMIT && crate::monitor::refuses(asked.inner) {
            crate::monitor::lemma_phases_refuse(asked);
            crate::scanning::lemma_atoms_asked(raw@, 0, 0, Seq::empty());
            crate::monitor::lemma_stops(
                asked,
                0,
                1,
                1 + crate::scanning::questions(raw@),
                *progress,
            );
        }
    }
    assert(!max ==> fit_tried(raw@, max, Seq::empty(), *fit, *fit));
    if progress.halted() || !max {
        return shared;
    }
    progress.enter(3500, 6000);
    let x = crate::mov_motion::encode_with_progress(raw, fit, progress);
    let ghost slopes = choose|slopes: Seq<Slopes>|
        crate::wire::bytes_of(x) == crate::wire::unless(
            progress.stopped(),
            crate::mov_motion::encoded(raw@, slopes),
        ) && #[trigger] crate::mov_motion::fit_asked(raw@, slopes, *old(fit), *fit, progress.stopped());
    assert(!progress.stopped() ==> fit_tried(raw@, max, slopes, *old(fit), *fit));
    let candidate: usize = match &x {
        Err(_) => {
            return shared;
        },
        Ok(p) => size_of(p, 3, usize::MAX),
    };
    let baseline: usize = match &shared {
        Some((_, d)) => size_of(d, 3, usize::MAX),
        None => usize::MAX,
    };
    choose_movie(shared, x, baseline, candidate)
}

/// Whether a form gives the file back.
#[verifier::opaque]
pub open spec fn verified(raw: Seq<u8>, m: Method, d: Seq<u8>) -> bool {
    match m {
        Method::GifExact => crate::gif_exact::restored(d) == Ok::<Seq<u8>, Seq<char>>(raw),
        Method::GifModel => crate::gif_model::restored(d, crate::gif_model::read_of(d)) == Ok::<
            Seq<u8>,
            Seq<char>,
        >(raw),
        _ => true,
    }
}

/// A form of a file if it is good, not too long, and smaller than the file as it is, where `whole` and `last`
/// are the compressed sizes of the file and of the form.
pub open spec fn kept_form(
    raw: Seq<u8>,
    form: Option<(Method, Seq<u8>)>,
    good: bool,
    whole: int,
    last: int,
) -> (Method, Seq<u8>) {
    match form {
        None => (Method::Raw, raw),
        Some((m, d)) => if d.len() <= MAX_RECORD && good && last < whole {
            (m, d)
        } else {
            (Method::Raw, raw)
        },
    }
}

/// The record of a file: its best form, if it gives the file back and is smaller than the file as it is.
pub open spec fn settled(raw: Seq<u8>, form: Option<(Method, Seq<u8>)>) -> (Method, Seq<u8>) {
    match form {
        None => (Method::Raw, raw),
        Some((m, d)) => kept_form(
            raw,
            form,
            verified(raw, m, d),
            size(raw, 3, raw.len() as int),
            size(d, 3, usize::MAX as int),
        ),
    }
}

fn copy(b: &[u8]) -> (v: Vec<u8>)
    ensures
        v@ == b@,
{
    let mut v: Vec<u8> = Vec::with_capacity(b.len());
    v.extend_from_slice(b);
    assert(v@ =~= b@);
    v
}

/// Takes a form of a file if it is good, not too long, and smaller than the file as it is.
pub fn keep_form(
    raw: &[u8],
    form: Option<(Method, Vec<u8>)>,
    good: bool,
    whole: usize,
    last: usize,
) -> (r: (Method, Vec<u8>))
    ensures
        (r.0, r.1@) == kept_form(raw@, candidate_in(form), good, whole as int, last as int),
{
    match form {
        None => (Method::Raw, copy(raw)),
        Some((m, d)) => if d.len() as u64 <= MAX_RECORD && good && last < whole {
            (m, d)
        } else {
            (Method::Raw, copy(raw))
        },
    }
}

/// Checks a form against the file as it is.
fn settle<M: Monitor>(raw: &[u8], form: Option<(Method, Vec<u8>)>, progress: &mut Phases<M>) -> (r: (
    Method,
    Vec<u8>,
))
    requires
        !old(progress).stopped(),
    ensures
        !final(progress).stopped() ==> (r.0, r.1@) == settled(raw@, candidate_in(form)),
{
    progress.enter(9500, 500);
    let (m, d) = match form {
        None => {
            return (Method::Raw, copy(raw));
        },
        Some(f) => f,
    };
    if d.len() as u64 > MAX_RECORD {
        return (Method::Raw, copy(raw));
    }
    let good: bool = match m {
        Method::GifExact => match crate::gif_exact::decode(&d) {
            Ok(v) => same(&v, raw),
            Err(_) => false,
        },
        Method::GifModel => {
            match crate::gif_model::decode_with_progress(&d, progress) {
                Ok(v) => same(&v, raw),
                Err(_) => false,
            }
        },
        _ => true,
    };
    if progress.halted() {
        return (Method::Raw, copy(raw));
    }
    assert(good == verified(raw@, m, d@)) by {
        reveal(verified);
    }
    if !good {
        return keep_form(raw, Some((m, d)), false, 0, 0);
    }
    let original: usize = size_of(raw, 3, raw.len());
    let candidate: usize = size_of(&d, 3, usize::MAX);
    keep_form(raw, Some((m, d)), true, original, candidate)
}

/// Which forms of a file are tried.
#[derive(Clone, Copy, PartialEq, Eq, Structural)]
pub enum Sort {
    Gif,
    Mov,
    Other,
}

/// Which forms of a file are tried, by its extension and by what is asked for.
pub open spec fn sort_of(ext: Seq<char>, raw_only: bool, preset: Seq<char>) -> Sort {
    if raw_only || (ext == "mov"@ && preset == "fast"@) {
        Sort::Other
    } else if ext == "gif"@ {
        Sort::Gif
    } else if ext == "mov"@ {
        Sort::Mov
    } else {
        Sort::Other
    }
}

/// The best form of a file, where `slopes` is what was fitted to it.
pub open spec fn form_of(
    raw: Seq<u8>,
    sort: Sort,
    preset: Seq<char>,
    film: Option<Seq<u8>>,
    before: Learned,
    slopes: Seq<Slopes>,
) -> Option<(Method, Seq<u8>)> {
    match sort {
        Sort::Gif => gif_form(raw, preset == "fast"@, film),
        Sort::Mov => mov_form(raw, preset == "max"@, before, slopes),
        Sort::Other => None,
    }
}

/// The record of a file, where `slopes` is what was fitted to it.
pub open spec fn stored(
    raw: Seq<u8>,
    sort: Sort,
    preset: Seq<char>,
    film: Option<Seq<u8>>,
    before: Learned,
    slopes: Seq<Slopes>,
) -> (Method, Seq<u8>) {
    settled(raw, form_of(raw, sort, preset, film, before, slopes))
}

/// Whether a record of a sequence of movies gives its movie back, to a reader who has then learned what
/// its writer has.
#[verifier::opaque]
pub open spec fn steps_back(d: Seq<u8>, raw: Seq<u8>, before: Learned) -> bool {
    crate::mov_model::restored(d, before, true) == Ok::<(Seq<u8>, Learned), Seq<char>>(
        (raw, learned_after(raw, before, Method::MovShared)),
    )
}

/// Whether the decoder of its method turns a record back into its file.
pub open spec fn gives_back(m: Method, d: Seq<u8>, raw: Seq<u8>, film: Option<Seq<u8>>, before: Learned) -> bool {
    match m {
        Method::Raw => d == raw,
        Method::GifExact => crate::gif_exact::restored(d) == Ok::<Seq<u8>, Seq<char>>(raw),
        Method::GifModel => crate::gif_model::restored(d, crate::gif_model::read_of(d)) == Ok::<
            Seq<u8>,
            Seq<char>,
        >(raw),
        Method::GifPredict => film matches Some(f) && crate::gif_predict::comes_back(d, raw, f),
        Method::MovShared => steps_back(d, raw, before),
        Method::MovMotion => crate::mov_motion::decoded(d) == Ok::<Seq<u8>, Seq<char>>(raw),
        _ => false,
    }
}

/// The record of a file gives it back. That a predicted form of a GIF file does is said where it is made.
#[verifier::spinoff_prover]
#[verifier::rlimit(60)]
pub proof fn law_records_give_back(
    raw: Seq<u8>,
    sort: Sort,
    preset: Seq<char>,
    film: Option<Seq<u8>>,
    before: Learned,
    slopes: Seq<Slopes>,
)
    requires
        before.wf(),
        raw.len() <= usize::MAX,
        stored(raw, sort, preset, film, before, slopes).0 != Method::GifPredict,
    ensures
        gives_back(
            stored(raw, sort, preset, film, before, slopes).0,
            stored(raw, sort, preset, film, before, slopes).1,
            raw,
            film,
            before,
        ),
{
    let (m, d) = stored(raw, sort, preset, film, before, slopes);
    reveal(verified);
    if m == Method::MovShared {
        crate::model_law::law_both_sides_learn_alike(raw, before);
        reveal(steps_back);
    } else if m == Method::MovMotion {
        crate::mov_motion::law_decode_undoes_encode(raw, slopes);
    }
}

/// What a sequence of movies has learned after the record of a file.
pub open spec fn learned_after(raw: Seq<u8>, before: Learned, m: Method) -> Learned {
    if m == Method::MovShared {
        crate::mov_model::modelled(raw, before, true)->Ok_0.1
    } else {
        before
    }
}

/// Makes the record of a file. The context of a sequence of movies moves on only where the record is
/// one of the sequence.
#[verifier::spinoff_prover]
#[verifier::rlimit(60)]
pub fn select_transform<M: Monitor, F: Fit>(
    raw: &[u8],
    ext: &str,
    raw_only: bool,
    preset: &str,
    film: Option<&[u8]>,
    context: &mut SharedContext,
    fit: &mut F,
    progress: &mut Phases<M>,
) -> (r: Result<(Method, Vec<u8>), String>)
    requires
        !old(progress).stopped(),
        old(context)@.wf(),
    ensures
        final(progress).stopped() ==> r is Err && r->Err_0@ == "error.cancelled"@ && final(context)@
            == old(context)@,
        !final(progress).stopped() ==> r is Ok && exists|slopes: Seq<Slopes>|
            (r->Ok_0.0, r->Ok_0.1@) == stored(
                raw@,
                sort_of(ext@, raw_only, preset@),
                preset@,
                film_of(film),
                old(context)@,
                slopes,
            ) && #[trigger] fit_wanted(
                raw@,
                sort_of(ext@, raw_only, preset@),
                preset@,
                slopes,
                *old(fit),
                *final(fit),
            ),
        r matches Ok((m, d)) ==> gives_back(m, d@, raw@, film_of(film), old(context)@) && final(context)@
            == learned_after(raw@, old(context)@, m),
        final(context)@.wf(),
        sort_of(ext@, raw_only, preset@) == Sort::Mov && raw@.len() <= crate::mov_model::LIMIT
            && crate::monitor::refuses(old(progress).inner) ==> r is Err,
{
    let ghost sort = sort_of(ext@, raw_only, preset@);
    let ghost before = context@;
    let ghost f = film_of(film);
    assert(sort != Sort::Mov ==> fit_wanted(raw@, sort, preset@, Seq::empty(), *fit, *fit));
    let gif: bool = same_text(ext, "gif");
    let mov: bool = same_text(ext, "mov");
    let fast: bool = same_text(preset, "fast");
    if raw_only || (mov && fast) || (!gif && !mov) {
        proof {
            reveal_strlit("gif");
            reveal_strlit("mov");
            assert("gif"@[0] == 'g' && "mov"@[0] == 'm');
        }
        return Ok((Method::Raw, copy(raw)));
    }
    let max: bool = same_text(preset, "max");
    let mut after = context.clone();
    let ghost mut slopes = Seq::<Slopes>::empty();
    let form = if gif {
        if film.is_some() && !fast {
            progress.enter(0, 1500);
        } else {
            progress.enter(0, 9500);
        }
        try_gif(raw, fast, film, progress)
    } else {
        if max {
            progress.enter(0, 3500);
        } else {
            progress.enter(0, 9500);
        }
        let form = try_mov(raw, max, &mut after, fit, progress);
        proof {
            if !progress.stopped() {
                slopes = choose|slopes: Seq<Slopes>|
                    candidate_in(form) == mov_form(raw@, max, before, slopes) && #[trigger] fit_tried(
                        raw@,
                        max,
                        slopes,
                        *old(fit),
                        *fit,
                    );
            }
        }
        form
    };
    if progress.halted() {
        return Err(fail("error.cancelled"));
    }
    assert(candidate_in(form) == form_of(raw@, sort, preset@, f, before, slopes));
    assert(fit_wanted(raw@, sort, preset@, slopes, *old(fit), *fit));
    let (m, d) = settle(raw, form, progress);
    if progress.halted() {
        return Err(fail("error.cancelled"));
    }
    proof {
        assert((m, d@) == stored(raw@, sort, preset@, f, before, slopes));
        assert(gives_back(m, d@, raw@, f, before)) by {
            reveal(verified);
            if m == Method::MovShared {
                crate::model_law::law_both_sides_learn_alike(raw@, before);
                reveal(steps_back);
            } else if m == Method::MovMotion {
                crate::mov_motion::law_decode_undoes_encode(raw@, slopes);
            }
        }
    }
    if m == Method::MovShared {
        *context = after;
    }
    Ok((m, d))
}

/// What comes of a record of pictures and errors, where `made` is the record, and `back` the movie that
/// it gives back.
pub open spec fn sourced(
    raw: Seq<u8>,
    made: Outcome<Seq<u8>>,
    back: Outcome<(Seq<u8>, Seq<crate::source_pool::Kept>)>,
) -> Outcome<Option<Seq<u8>>> {
    match made {
        Err(e) => if e == "error.cancelled"@ {
            Err(e)
        } else {
            Ok(None)
        },
        Ok(data) => match back {
            Err(e) => if e == "error.cancelled"@ {
                Err(e)
            } else {
                Ok(None)
            },
            Ok((bytes, _)) => if bytes == raw && data.len() <= MAX_RECORD && data.len() < raw.len() {
                Ok(Some(data))
            } else {
                Ok(None)
            },
        },
    }
}

pub open spec fn option_outcome(r: Result<Option<Vec<u8>>, String>) -> Outcome<Option<Seq<u8>>> {
    match r {
        Ok(o) => Ok(bytes_in(o)),
        Err(e) => Err(e@),
    }
}

/// What comes of a record of pictures and errors of a movie, where `made` is what a painter makes of its
/// frames, and `back` what the pictures let expect when the record is read.
pub open spec fn sourced_with(
    raw: Seq<u8>,
    pool: Seq<crate::source_pool::Kept>,
    light: bool,
    made: Seq<Sketch>,
    back: Seq<Expectation>,
) -> Outcome<Option<Seq<u8>>> {
    let record = crate::mov_source::encoded(raw, pool, light, made);
    sourced(raw, record, crate::source_decode::restored(record->Ok_0, pool, false, back))
}

/// Whether a painter was asked about a movie while a record of pictures and errors was made of it and read again,
/// answered as `made` and `back` say, and is then as `after` is.
pub open spec fn tried<P: Painter>(
    raw: Seq<u8>,
    pool: Seq<crate::source_pool::Kept>,
    light: bool,
    made: Seq<Sketch>,
    back: Seq<Expectation>,
    before: P,
    after: P,
    stopped: bool,
) -> bool {
    let record = crate::mov_source::encoded(raw, pool, light, made);
    ||| (stopped || record is Err) && crate::mov_source::wrote(raw, pool, light, made, before, after, stopped)
    ||| record is Ok && crate::mov_source::record_comes_back(raw, pool, light, made) && exists|mid: P| #[trigger]
        crate::mov_source::wrote(raw, pool, light, made, before, mid, false) && crate::source_decode::read_so(
            record->Ok_0,
            pool,
            false,
            back,
            mid,
            after,
            stopped,
        )
}

/// Whether a preset asks for less effort than there could be.
pub open spec fn light_for(preset: Seq<char>) -> bool {
    preset != "max"@
}

/// Makes a record of pictures and errors of a movie, if it gives the movie back and is smaller.
#[verifier::rlimit(40)]
pub fn try_mov_source<M: Monitor, P: Painter>(
    raw: &[u8],
    pool: &crate::source_pool::Pool,
    preset: &str,
    painter: &mut P,
    progress: &mut M,
) -> (r: Result<Option<Vec<u8>>, String>)
    requires
        crate::prores_frame::addressable(raw.len() as int),
        pool.wf(),
        !old(progress).stopped(),
    ensures
        exists|made: Seq<Sketch>, back: Seq<Expectation>|
            option_outcome(r) == crate::wire::unless(
                final(progress).stopped(),
                sourced_with(raw@, pool@, light_for(preset@), made, back),
            ) && #[trigger] tried(
                raw@,
                pool@,
                light_for(preset@),
                made,
                back,
                *old(painter),
                *final(painter),
                final(progress).stopped(),
            ),
        crate::monitor::refuses(*old(progress)) ==> !(r matches Ok(Some(_))),
{
    let light: bool = !same_text(preset, "max");
    let x = crate::mov_source::encode(raw, pool, light, painter, progress);
    let ghost made = choose|made: Seq<Sketch>|
        crate::wire::bytes_of(x) == crate::wire::unless(
            progress.stopped(),
            crate::mov_source::encoded(raw@, pool@, light, made),
        ) && (x is Ok ==> crate::mov_source::record_comes_back(raw@, pool@, light, made))
            && #[trigger] crate::mov_source::wrote(
            raw@,
            pool@,
            light,
            made,
            *old(painter),
            *painter,
            progress.stopped(),
        );
    let data = match x {
        Err(e) => {
            assert(tried(
                raw@,
                pool@,
                light_for(preset@),
                made,
                Seq::empty(),
                *old(painter),
                *painter,
                progress.stopped(),
            ));
            if same_text(&e, "error.cancelled") {
                return Err(e);
            }
            return Ok(None);
        },
        Ok(v) => v,
    };
    let ghost mid = *painter;
    let y = crate::source_decode::decode(&data, pool, false, painter, progress);
    let ghost back = choose|es: Seq<Expectation>|
        crate::source_decode::outcome(y) == crate::wire::unless(
            progress.stopped(),
            crate::source_decode::restored(data@, pool@, false, es),
        ) && #[trigger] crate::source_decode::read_so(
            data@,
            pool@,
            false,
            es,
            mid,
            *painter,
            progress.stopped(),
        );
    assert(tried(
        raw@,
        pool@,
        light_for(preset@),
        made,
        back,
        *old(painter),
        *painter,
        progress.stopped(),
    ));
    weigh(raw, data, y)
}

/// Takes a record of pictures and errors, if it gives the movie back and is smaller.
pub fn weigh(raw: &[u8], data: Vec<u8>, back: Result<(Vec<u8>, crate::source_pool::Pool), String>) -> (r: Result<
    Option<Vec<u8>>,
    String,
>)
    ensures
        option_outcome(r) == sourced(raw@, Ok(data@), crate::source_decode::outcome(back)),
{
    match back {
        Err(e) => {
            if same_text(&e, "error.cancelled") {
                return Err(e);
            }
            Ok(None)
        },
        Ok((bytes, _)) => {
            if same(&bytes, raw) && data.len() as u64 <= MAX_RECORD && data.len() < raw.len() {
                Ok(Some(data))
            } else {
                Ok(None)
            }
        },
    }
}

}
