//! Which form a file is stored in.

use crate::manifest::Method;
use crate::mov_cross::Slopes;
use crate::mov_model::Learned;
use crate::wire::Outcome;
use vstd::prelude::*;

verus! {

/// What is left of a form when it is held against the file as it is.
proof fn lemma_kept(raw: Seq<u8>, m: Method, d: Seq<u8>, good: bool, whole: int, last: int)
    ensures
        ({
            let k = crate::records::kept_form(raw, Some((m, d)), good, whole, last);
            &&& k == (Method::Raw, raw) || (k == (m, d) && d.len() <= 536_870_912 && good && last < whole)
            &&& d.len() <= 536_870_912 && good && last < whole ==> k == (m, d)
        }),
{
}

proof fn lemma_movies_verified(raw: Seq<u8>, d: Seq<u8>)
    ensures
        crate::records::verified(raw, Method::MovShared, d),
        crate::records::verified(raw, Method::MovMotion, d),
{
    reveal(crate::records::verified);
}

/// The better of two forms of a movie, by what the one is and how long it is.
proof fn lemma_better(s: Seq<u8>, motion: Outcome<Seq<u8>>, base: int, moved: int)
    ensures
        ({
            let b = crate::records::better_movie(Some((Method::MovShared, s)), motion, base, moved);
            ||| b == Some((Method::MovShared, s))
            ||| (motion matches Ok(p) && b == Some((Method::MovMotion, p)) && p.len() <= 536_870_912 && moved < base)
        }),
{
}

/// Only two kinds of files are ever transformed, and nothing is where that is not wanted: a file that is neither
/// a GIF file nor a QuickTime movie, any file that is to be stored raw, and a movie that is packed fast, are stored
/// as they are.
#[verifier::spinoff_prover]
#[verifier::rlimit(60)]
pub proof fn law_other_files_are_stored_as_they_are(
    raw: Seq<u8>,
    ext: Seq<char>,
    raw_only: bool,
    preset: Seq<char>,
    film: Option<Seq<u8>>,
    before: Learned,
    slopes: Seq<Slopes>,
)
    requires
        raw_only || (ext != "gif"@ && ext != "mov"@) || (ext == "mov"@ && preset == "fast"@),
    ensures
        crate::records::stored(
            raw,
            crate::records::sort_of(ext, raw_only, preset),
            preset,
            film,
            before,
            slopes,
        ) == (Method::Raw, raw),
{
    reveal_strlit("gif");
    reveal_strlit("mov");
    assert("gif"@[0] == 'g' && "mov"@[0] == 'm');
}

/// What is stored is the file, or the form that was found if it pays.
#[verifier::spinoff_prover]
proof fn lemma_settled(raw: Seq<u8>, form: Option<(Method, Seq<u8>)>)
    requires
        raw.len() <= usize::MAX,
        crate::compression::packed(raw, 3) matches Ok(b) ==> b.len() <= usize::MAX,
    ensures
        ({
            let plain = match crate::compression::packed(raw, 3) {
                Ok(b) => b.len(),
                Err(_) => raw.len(),
            };
            let k = crate::records::settled(raw, form);
            ||| k == (Method::Raw, raw)
            ||| {
                &&& form == Some(k)
                &&& k.1.len() <= 536_870_912
                &&& crate::compression::packed(k.1, 3) matches Ok(c) && c.len() < plain
            }
        }),
{
    if let Some((m, d)) = form {
        let good = crate::records::verified(raw, m, d);
        let whole = crate::records::size(raw, 3, raw.len() as int);
        let last = crate::records::size(d, 3, usize::MAX as int);
        lemma_kept(raw, m, d, good, whole, last);
    }
}

proof fn lemma_picked(
    sgif: Option<Seq<u8>>,
    plain: int,
    predicted: Option<Seq<u8>>,
    pn: int,
    model: Option<Seq<u8>>,
    mn: int,
)
    ensures
        crate::records::picked(sgif, plain, predicted, pn, model, mn) matches Some((m, d)) ==> {
            ||| m == Method::GifPredict && predicted == Some(d)
            ||| m == Method::GifModel && model == Some(d)
            ||| m == Method::GifExact && sgif == Some(d)
        },
{
}

/// Which forms there are of which files.
#[verifier::spinoff_prover]
#[verifier::rlimit(60)]
proof fn lemma_methods(
    raw: Seq<u8>,
    ext: Seq<char>,
    raw_only: bool,
    preset: Seq<char>,
    film: Option<Seq<u8>>,
    before: Learned,
    slopes: Seq<Slopes>,
)
    ensures
        crate::records::form_of(
            raw,
            crate::records::sort_of(ext, raw_only, preset),
            preset,
            film,
            before,
            slopes,
        ) matches Some((m, _)) ==> {
            &&& m == Method::GifExact ==> ext == "gif"@
            &&& m == Method::GifModel ==> ext == "gif"@ && preset != "fast"@
            &&& m == Method::GifPredict ==> ext == "gif"@ && preset != "fast"@ && film is Some
            &&& m == Method::MovShared ==> ext == "mov"@ && preset != "fast"@
            &&& m == Method::MovMotion ==> ext == "mov"@ && preset == "max"@
            &&& m == Method::GifExact || m == Method::GifModel || m == Method::GifPredict || m
                == Method::MovShared || m == Method::MovMotion
        },
{
    let sort = crate::records::sort_of(ext, raw_only, preset);
    if sort == crate::records::Sort::Gif {
        if film is Some && preset != "fast"@ {
            let f = film->Some_0;
            lemma_picked(
                crate::records::exact_form(raw),
                crate::records::size_in(crate::records::exact_form(raw)),
                crate::records::predicted_form(raw, f),
                crate::records::size_in(crate::records::predicted_form(raw, f)),
                crate::records::rival_model(raw, f),
                crate::records::size_in(crate::records::rival_model(raw, f)),
            );
        }
    }
}

/// A transformed file pays: it is at most half a gibibyte long, and Zstandard makes less of it, at level 3, than of the
/// file as it is. What is not transformed is the file. GIF files and movies have forms of their own, the prediction
/// of a GIF file takes a film, and the costly forms are left out where speed is asked for.
#[verifier::spinoff_prover]
#[verifier::rlimit(60)]
pub proof fn law_transformed_files_pay(
    raw: Seq<u8>,
    ext: Seq<char>,
    raw_only: bool,
    preset: Seq<char>,
    film: Option<Seq<u8>>,
    before: Learned,
    slopes: Seq<Slopes>,
)
    requires
        raw.len() <= usize::MAX,
        crate::compression::packed(raw, 3) matches Ok(b) ==> b.len() <= usize::MAX,
    ensures
        ({
            let (m, d) = crate::records::stored(
                raw,
                crate::records::sort_of(ext, raw_only, preset),
                preset,
                film,
                before,
                slopes,
            );
            let plain = match crate::compression::packed(raw, 3) {
                Ok(b) => b.len(),
                Err(_) => raw.len(),
            };
            &&& m == Method::Raw ==> d == raw
            &&& m != Method::Raw ==> {
                &&& d.len() <= 536_870_912
                &&& crate::compression::packed(d, 3) matches Ok(c) && c.len() < plain
            }
            &&& m == Method::GifExact ==> ext == "gif"@
            &&& m == Method::GifModel ==> ext == "gif"@ && preset != "fast"@
            &&& m == Method::GifPredict ==> ext == "gif"@ && preset != "fast"@ && film is Some
            &&& m == Method::MovShared ==> ext == "mov"@ && preset != "fast"@
            &&& m == Method::MovMotion ==> ext == "mov"@ && preset == "max"@
            &&& m == Method::Raw || m == Method::GifExact || m == Method::GifModel || m == Method::GifPredict || m
                == Method::MovShared || m == Method::MovMotion
        }),
{
    let sort = crate::records::sort_of(ext, raw_only, preset);
    let form = crate::records::form_of(raw, sort, preset, film, before, slopes);
    lemma_methods(raw, ext, raw_only, preset, film, before, slopes);
    lemma_settled(raw, form);
}

#[verifier::spinoff_prover]
proof fn lemma_form(raw: Seq<u8>, max: bool, before: Learned, slopes: Seq<Slopes>, d: Seq<u8>, after: Learned)
    requires
        crate::mov_model::modelled(raw, before, true) == Ok::<(Seq<u8>, Learned), Seq<char>>((d, after)),
    ensures
        ({
            let motion = crate::mov_motion::encoded(raw, slopes);
            let shared = Some((Method::MovShared, d));
            crate::records::mov_form(raw, max, before, slopes) == if max {
                crate::records::better_movie(
                    shared,
                    motion,
                    crate::records::size(d, 3, usize::MAX as int),
                    crate::records::size(motion->Ok_0, 3, usize::MAX as int),
                )
            } else {
                shared
            }
        }),
{
}

proof fn lemma_movie(
    raw: Seq<u8>,
    max: bool,
    form: Option<(Method, Seq<u8>)>,
    d: Seq<u8>,
    motion: Outcome<Seq<u8>>,
    a: Seq<u8>,
)
    requires
        form == if max {
            crate::records::better_movie(
                Some((Method::MovShared, d)),
                motion,
                crate::records::size(d, 3, usize::MAX as int),
                crate::records::size(motion->Ok_0, 3, usize::MAX as int),
            )
        } else {
            Some((Method::MovShared, d))
        },
        d.len() <= 536_870_912,
        crate::compression::packed(d, 3) == Ok::<Seq<u8>, Seq<char>>(a),
        a.len() <= usize::MAX,
        a.len() < match crate::compression::packed(raw, 3) {
            Ok(b) => b.len(),
            Err(_) => raw.len(),
        },
    ensures
        ({
            let (m, r) = crate::records::settled(raw, form);
            &&& m == Method::MovShared || m == Method::MovMotion
            &&& crate::compression::packed(r, 3) matches Ok(c) && c.len() <= a.len()
            &&& !max || m == Method::MovShared ==> m == Method::MovShared && r == d
            &&& m == Method::MovMotion ==> motion == Ok::<Seq<u8>, Seq<char>>(r)
        }),
{
    let base = crate::records::size(d, 3, usize::MAX as int);
    let moved = crate::records::size(motion->Ok_0, 3, usize::MAX as int);
    let whole = crate::records::size(raw, 3, raw.len() as int);
    lemma_better(d, motion, base, moved);
    lemma_movies_verified(raw, d);
    lemma_movies_verified(raw, motion->Ok_0);
    lemma_kept(raw, Method::MovShared, d, true, whole, base);
    lemma_kept(raw, Method::MovMotion, motion->Ok_0, true, whole, moved);
}

proof fn lemma_movie_sort(preset: Seq<char>)
    requires
        preset != "fast"@,
    ensures
        crate::records::sort_of("mov"@, false, preset) == crate::records::Sort::Mov,
{
    reveal_strlit("gif");
    reveal_strlit("mov");
    assert("gif"@[0] == 'g' && "mov"@[0] == 'm');
}

/// A movie is modelled whatever the preset, but for the fast one: if its form as the next of a sequence is not too
/// long and pays, the movie is not stored as it is, but in that form, or in one that Zstandard makes no more of. Only
/// the strongest preset leads to another form.
#[verifier::spinoff_prover]
#[verifier::rlimit(60)]
pub proof fn law_movies_are_modelled(
    raw: Seq<u8>,
    preset: Seq<char>,
    film: Option<Seq<u8>>,
    before: Learned,
    slopes: Seq<Slopes>,
    d: Seq<u8>,
    after: Learned,
    a: Seq<u8>,
)
    requires
        preset != "fast"@,
        crate::mov_model::modelled(raw, before, true) == Ok::<(Seq<u8>, Learned), Seq<char>>((d, after)),
        d.len() <= 536_870_912,
        crate::compression::packed(d, 3) == Ok::<Seq<u8>, Seq<char>>(a),
        a.len() <= usize::MAX,
        a.len() < match crate::compression::packed(raw, 3) {
            Ok(b) => b.len(),
            Err(_) => raw.len(),
        },
    ensures
        ({
            let (m, r) = crate::records::stored(
                raw,
                crate::records::sort_of("mov"@, false, preset),
                preset,
                film,
                before,
                slopes,
            );
            &&& m == Method::MovShared || m == Method::MovMotion
            &&& crate::compression::packed(r, 3) matches Ok(c) && c.len() <= a.len()
            &&& preset != "max"@ || m == Method::MovShared ==> m == Method::MovShared && r == d
            &&& m == Method::MovMotion ==> crate::mov_motion::encoded(raw, slopes) == Ok::<Seq<u8>, Seq<char>>(r)
        }),
{
    lemma_form(raw, preset == "max"@, before, slopes, d, after);
    lemma_movie_sort(preset);
    let form = crate::records::mov_form(raw, preset == "max"@, before, slopes);
    lemma_movie(raw, preset == "max"@, form, d, crate::mov_motion::encoded(raw, slopes), a);
}

/// With the strongest preset, a movie is stored by its motion where that form is not too long, pays, and is what
/// Zstandard makes least of.
#[verifier::spinoff_prover]
#[verifier::rlimit(60)]
pub proof fn law_strong_presets_try_motion(
    raw: Seq<u8>,
    film: Option<Seq<u8>>,
    before: Learned,
    slopes: Seq<Slopes>,
    d: Seq<u8>,
    a: Seq<u8>,
)
    requires
        crate::mov_motion::encoded(raw, slopes) == Ok::<Seq<u8>, Seq<char>>(d),
        d.len() <= 536_870_912,
        crate::compression::packed(d, 3) == Ok::<Seq<u8>, Seq<char>>(a),
        a.len() < usize::MAX,
        a.len() < match crate::compression::packed(raw, 3) {
            Ok(b) => b.len(),
            Err(_) => raw.len(),
        },
        crate::mov_model::modelled(raw, before, true) matches Ok((s, _)) ==> (crate::compression::packed(s, 3) matches Ok(
            c,
        ) ==> a.len() < c.len()),
    ensures
        crate::records::stored(
            raw,
            crate::records::sort_of("mov"@, false, "max"@),
            "max"@,
            film,
            before,
            slopes,
        ) == (Method::MovMotion, d),
{
    reveal(crate::records::verified);
    reveal_strlit("gif");
    reveal_strlit("mov");
    reveal_strlit("max");
    reveal_strlit("fast");
    assert("gif"@[0] == 'g' && "mov"@[0] == 'm');
    assert("fast"@.len() != "max"@.len());
}

/// A GIF file beside its film is predicted from it, but for the fast preset: where the prediction is not too long,
/// pays, and is what Zstandard makes least of, less than of the exact form and of its model, it is what is stored.
#[verifier::spinoff_prover]
#[verifier::rlimit(60)]
pub proof fn law_films_predict_pictures(
    raw: Seq<u8>,
    preset: Seq<char>,
    film: Seq<u8>,
    before: Learned,
    slopes: Seq<Slopes>,
    p: Seq<u8>,
    a: Seq<u8>,
)
    requires
        preset != "fast"@,
        crate::gif_predict::encoded(
            raw,
            film,
            crate::compression::packed(crate::gif_predict::rest(raw), 19),
        ) == Ok::<Seq<u8>, Seq<char>>(p),
        p.len() <= 536_870_912,
        crate::compression::packed(p, 3) == Ok::<Seq<u8>, Seq<char>>(a),
        a.len() < usize::MAX,
        a.len() < match crate::compression::packed(raw, 3) {
            Ok(b) => b.len(),
            Err(_) => raw.len(),
        },
        crate::gif_exact::encoded(raw) matches Ok(s) ==> {
            &&& crate::compression::packed(s, 3) matches Ok(c) ==> a.len() < c.len()
            &&& crate::gif_model::modelled(s, crate::gif_model::outside(s)) matches Ok(g)
                ==> (crate::compression::packed(g, 3) matches Ok(c) ==> a.len() < c.len())
        },
    ensures
        crate::records::stored(
            raw,
            crate::records::sort_of("gif"@, false, preset),
            preset,
            Some(film),
            before,
            slopes,
        ) == (Method::GifPredict, p),
{
    reveal(crate::records::verified);
}

/// A GIF file without a film is stored as a model of its exact form where that is shorter than what Zstandard makes
/// of the exact form at level 6, and pays. The fast preset has no models.
#[verifier::spinoff_prover]
#[verifier::rlimit(60)]
pub proof fn law_pictures_are_modelled(
    raw: Seq<u8>,
    preset: Seq<char>,
    before: Learned,
    slopes: Seq<Slopes>,
    s: Seq<u8>,
    g: Seq<u8>,
    a: Seq<u8>,
)
    requires
        preset != "fast"@,
        crate::gif_exact::encoded(raw) == Ok::<Seq<u8>, Seq<char>>(s),
        crate::gif_model::modelled(s, crate::gif_model::outside(s)) == Ok::<Seq<u8>, Seq<char>>(g),
        g.len() < match crate::compression::packed(s, 6) {
            Ok(b) => b.len(),
            Err(_) => s.len(),
        },
        g.len() <= 536_870_912,
        crate::compression::packed(g, 3) == Ok::<Seq<u8>, Seq<char>>(a),
        a.len() < match crate::compression::packed(raw, 3) {
            Ok(b) => b.len(),
            Err(_) => raw.len(),
        },
    ensures
        crate::records::stored(
            raw,
            crate::records::sort_of("gif"@, false, preset),
            preset,
            None,
            before,
            slopes,
        ) == (Method::GifModel, g),
{
    reveal(crate::records::verified);
    crate::gif_model::law_decode_undoes_encode(raw);
}

/// A GIF file whose exact form pays is never stored as it is with the fast preset, but in that form, with or without
/// a film.
#[verifier::spinoff_prover]
#[verifier::rlimit(60)]
pub proof fn law_fast_pictures_are_exact(
    raw: Seq<u8>,
    film: Option<Seq<u8>>,
    before: Learned,
    slopes: Seq<Slopes>,
    s: Seq<u8>,
    a: Seq<u8>,
)
    requires
        raw.len() <= usize::MAX,
        crate::gif_exact::encoded(raw) == Ok::<Seq<u8>, Seq<char>>(s),
        s.len() <= 536_870_912,
        crate::compression::packed(s, 3) == Ok::<Seq<u8>, Seq<char>>(a),
        a.len() < match crate::compression::packed(raw, 3) {
            Ok(b) => b.len(),
            Err(_) => raw.len(),
        },
    ensures
        crate::records::stored(
            raw,
            crate::records::sort_of("gif"@, false, "fast"@),
            "fast"@,
            film,
            before,
            slopes,
        ) == (Method::GifExact, s),
{
    reveal(crate::records::verified);
    reveal_strlit("gif");
    reveal_strlit("mov");
    assert("gif"@[0] == 'g' && "mov"@[0] == 'm');
    crate::gif_exact::law_decode_undoes_encode(raw);
}

/// A record of pictures and errors is taken if and only if it was made, gives the movie back, is shorter than the
/// movie and at most half a gibibyte long. It is an error only that the work was cancelled.
#[verifier::spinoff_prover]
#[verifier::rlimit(60)]
pub proof fn law_sources_are_taken_where_they_pay(
    raw: Seq<u8>,
    made: Outcome<Seq<u8>>,
    back: Outcome<(Seq<u8>, Seq<crate::source_pool::Kept>)>,
    d: Seq<u8>,
)
    ensures
        crate::records::sourced(raw, made, back) == Ok::<Option<Seq<u8>>, Seq<char>>(Some(d)) <==> {
            &&& made == Ok::<Seq<u8>, Seq<char>>(d)
            &&& back matches Ok((bytes, _)) && bytes == raw
            &&& d.len() < raw.len()
            &&& d.len() <= 536_870_912
        },
        crate::records::sourced(raw, made, back) matches Err(e) ==> e == "error.cancelled"@,
        crate::records::light_for("max"@) == false,
        forall|p: Seq<char>| p != "max"@ ==> #[trigger] crate::records::light_for(p),
{
}

}
