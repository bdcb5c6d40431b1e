//! Frames of a movie that are kept, compressed, for the frames of another one to be compared with.

use crate::compression::{inflate, pack};
use crate::source_frames::{thumb, Seen, Sight, BRIGHT};
use crate::source_planes::Planes;
use crate::wire::{fail, put_signed16, read_signed16, Outcome};
use vstd::prelude::*;

verus! {

/// How many kept frames a frame is compared with.
pub const EXTRA_REFS: usize = 2;

/// A frame that is kept: its shape, its picture and its errors, both compressed, how strongly its
/// macroblocks are quantized, and a small picture of it.
pub struct PoolFrame {
    pub wp: usize,
    pub hp: usize,
    pub planes: Vec<u8>,
    pub resid: Vec<u8>,
    pub qmb: Vec<u8>,
    pub thumb: Vec<i64>,
}

#[verifier::ext_equal]
pub struct Kept {
    pub wp: int,
    pub hp: int,
    pub planes: Seq<u8>,
    pub resid: Seq<u8>,
    pub qmb: Seq<u8>,
    pub thumb: Seq<int>,
}

impl View for PoolFrame {
    type V = Kept;

    open spec fn view(&self) -> Kept {
        Kept {
            wp: self.wp as int,
            hp: self.hp as int,
            planes: self.planes@,
            resid: self.resid@,
            qmb: self.qmb@,
            thumb: crate::source_frames::wide(self.thumb@),
        }
    }
}

/// The frames that are kept of a movie.
pub struct Pool {
    pub frames: Vec<PoolFrame>,
}

impl View for Pool {
    type V = Seq<Kept>;

    open spec fn view(&self) -> Seq<Kept> {
        Seq::new(self.frames@.len(), |i: int| self.frames@[i]@)
    }
}

impl PoolFrame {
    pub open spec fn wf(&self) -> bool {
        &&& 16 <= self.wp <= 8192
        &&& 16 <= self.hp <= 8192
        &&& self.wp % 16 == 0
        &&& self.hp % 16 == 0
        &&& self.qmb@.len() == (self.wp as int / 16) * (self.hp as int / 16)
        &&& self.thumb@.len() == 4096
        &&& forall|i: int| 0 <= i < 4096 ==> 0 <= #[trigger] self.thumb@[i] <= BRIGHT
    }
}

impl Pool {
    pub open spec fn wf(&self) -> bool {
        forall|i: int| 0 <= i < self.frames@.len() ==> (#[trigger] self.frames@[i]).wf()
    }
}

impl Default for Pool {
    fn default() -> (p: Self)
        ensures
            p.wf(),
            p@ == Seq::<Kept>::empty(),
    {
        let p = Pool { frames: Vec::new() };
        assert(p@ =~= Seq::<Kept>::empty());
        p
    }
}

/// The bytes of the errors of a frame.
pub open spec fn error_bytes(r: Seq<i16>, n: int) -> Seq<u8>
    decreases n,
{
    if n <= 0 {
        Seq::empty()
    } else {
        error_bytes(r, n - 1) + crate::wire::le_bytes(crate::wire::unsigned16(r[n - 1] as int), 2)
    }
}

/// The errors that bytes stand for.
pub open spec fn errors_of(b: Seq<u8>, n: int) -> Seq<i16> {
    Seq::new(n as nat, |i: int| crate::wire::signed16(b, 2 * i) as i16)
}

proof fn lemma_error_bytes(r: Seq<i16>, n: int)
    requires
        0 <= n <= r.len(),
    ensures
        error_bytes(r, n).len() == 2 * n,
        forall|i: int| 0 <= i < n ==> #[trigger] crate::wire::signed16(error_bytes(r, n), 2 * i) == r[i],
    decreases n,
{
    if n > 0 {
        lemma_error_bytes(r, n - 1);
        crate::wire::law_signed16(r[n - 1]);
        let two = crate::wire::le_bytes(crate::wire::unsigned16(r[n - 1] as int), 2);
        let whole = error_bytes(r, n);
        let part = error_bytes(r, n - 1);
        assert forall|i: int| 0 <= i < n implies #[trigger] crate::wire::signed16(whole, 2 * i) == r[i] by {
            if i < n - 1 {
                assert(crate::wire::signed16(part, 2 * i) == r[i]);
                assert(whole[2 * i] == part[2 * i] && whole[2 * i + 1] == part[2 * i + 1]);
            } else {
                assert(whole[2 * i] == two[0] && whole[2 * i + 1] == two[1]);
            }
        }
    }
}

/// Errors come back from their bytes.
pub proof fn law_error_bytes_restore(r: Seq<i16>)
    ensures
        errors_of(error_bytes(r, r.len() as int), r.len() as int) == r,
{
    let n = r.len() as int;
    lemma_error_bytes(r, n);
    assert forall|i: int| 0 <= i < n implies errors_of(error_bytes(r, n), n)[i] == r[i] by {
        assert(crate::wire::signed16(error_bytes(r, n), 2 * i) == r[i]);
    }
    assert(errors_of(error_bytes(r, n), n) =~= r);
}

/// What compressing yielded, or nothing where it failed.
pub open spec fn or_nothing(o: Outcome<Seq<u8>>) -> Seq<u8> {
    match o {
        Ok(b) => b,
        Err(_) => Seq::empty(),
    }
}

/// A frame as it is kept, where `planes` and `resid` are what compressing yielded.
pub open spec fn kept(s: Sight, planes: Outcome<Seq<u8>>, resid: Outcome<Seq<u8>>) -> Kept {
    Kept {
        wp: s.picture.w,
        hp: s.picture.h,
        planes: or_nothing(planes),
        resid: or_nothing(resid),
        qmb: s.qmb,
        thumb: crate::source_frames::thumbnail(s.picture),
    }
}

/// What is kept of a frame.
pub open spec fn stored(s: Sight) -> Kept {
    kept(
        s,
        crate::compression::packed(crate::source_planes::flat_of(s.picture), 1),
        crate::compression::packed(error_bytes(s.resid, s.resid.len() as int), 1),
    )
}

/// The frame that is kept, where `planes` and `resid` are what expanding yielded.
pub open spec fn recalled(k: Kept, planes: Outcome<Seq<u8>>, resid: Outcome<Seq<u8>>) -> Outcome<Sight> {
    let n = k.wp * k.hp;
    match planes {
        Err(e) => Err(e),
        Ok(a) => match resid {
            Err(e) => Err(e),
            Ok(b) => if a.len() != 4 * n || b.len() != 6 * n {
                Err("invalid reference frame"@)
            } else {
                Ok(
                    Sight {
                        picture: crate::source_planes::image_of(k.wp, k.hp, a),
                        resid: errors_of(b, 3 * n),
                        qmb: k.qmb,
                    },
                )
            },
        },
    }
}

/// The frame that is kept.
pub open spec fn loaded(k: Kept) -> Outcome<Sight> {
    recalled(
        k,
        crate::compression::inflated(k.planes, 4 * (k.wp * k.hp)),
        crate::compression::inflated(k.resid, 6 * (k.wp * k.hp)),
    )
}

/// A frame comes back from what is kept of it, where compressing it yields what expands again.
pub proof fn law_kept_frames_come_back(s: Sight, planes: Seq<u8>, resid: Seq<u8>)
    requires
        s.picture.wf(),
        1 <= s.picture.w <= 8192,
        1 <= s.picture.h <= 8192,
        s.resid.len() == 3 * (s.picture.w * s.picture.h),
        crate::compression::gives_back(planes, crate::source_planes::flat_of(s.picture)),
        crate::compression::gives_back(resid, error_bytes(s.resid, s.resid.len() as int)),
    ensures
        loaded(kept(s, Ok(planes), Ok(resid))) == Ok::<Sight, Seq<char>>(s),
{
    let n = s.picture.w * s.picture.h;
    let a = crate::source_planes::flat_of(s.picture);
    let b = error_bytes(s.resid, s.resid.len() as int);
    crate::source_planes::law_pixels_restore(s.picture);
    lemma_error_bytes(s.resid, s.resid.len() as int);
    assert(1 <= n <= 8192 * 8192) by (nonlinear_arith)
        requires
            n == s.picture.w * s.picture.h,
            1 <= s.picture.w <= 8192,
            1 <= s.picture.h <= 8192,
    ;
    assert(s.picture.h * s.picture.w == n) by (nonlinear_arith)
        requires
            n == s.picture.w * s.picture.h,
    ;
    assert(a.len() == 4 * n);
    assert(crate::compression::inflated(planes, 4 * n) == Ok::<Seq<u8>, Seq<char>>(a));
    assert(crate::compression::inflated(resid, 6 * n) == Ok::<Seq<u8>, Seq<char>>(b));
    law_error_bytes_restore(s.resid);
}

fn write_errors(r: &Vec<i16>) -> (out: Vec<u8>)
    ensures
        out@ == error_bytes(r@, r@.len() as int),
{
    let mut out: Vec<u8> = Vec::new();
    let mut i: usize = 0;
    while i < r.len()
        invariant
            i <= r.len(),
            out@ == error_bytes(r@, i as int),
        decreases r.len() - i,
    {
        put_signed16(r[i], &mut out);
        i += 1;
    }
    out
}

fn read_errors(b: &Vec<u8>, n: usize) -> (r: Vec<i16>)
    requires
        b@.len() == 2 * n,
    ensures
        r@ == errors_of(b@, n as int),
{
    let mut r: Vec<i16> = Vec::with_capacity(n);
    let mut i: usize = 0;
    while i < n
        invariant
            i <= n,
            b.len() == 2 * n,
            r@.len() == i,
            forall|k: int| 0 <= k < i ==> #[trigger] r@[k] == crate::wire::signed16(b@, 2 * k),
        decreases n - i,
    {
        r.push(read_signed16(b, 2 * i));
        i += 1;
    }
    assert(r@ =~= errors_of(b@, n as int));
    r
}

fn or_empty(r: Result<Vec<u8>, String>) -> (v: Vec<u8>)
    ensures
        v@ == or_nothing(crate::wire::bytes_of(r)),
{
    match r {
        Ok(v) => v,
        Err(_) => {
            let v: Vec<u8> = Vec::new();
            assert(v@ =~= Seq::empty());
            v
        },
    }
}

impl PoolFrame {
    /// Keeps a frame, where `planes` and `resid` are what compressing its picture and its errors yielded.
    pub fn keep(s: &Seen, planes: Result<Vec<u8>, String>, resid: Result<Vec<u8>, String>) -> (f: Self)
        requires
            s.wf(),
        ensures
            f.wf(),
            f@ == kept(s@, crate::wire::bytes_of(planes), crate::wire::bytes_of(resid)),
    {
        proof {
            s.picture.lemma_shape();
            s.picture.lemma_flat();
        }
        let qmb: Vec<u8> = s.qmb.clone();
        assert(qmb@ =~= s.qmb@);
        let f = PoolFrame {
            wp: s.picture.w,
            hp: s.picture.h,
            planes: or_empty(planes),
            resid: or_empty(resid),
            qmb,
            thumb: thumb(&s.picture),
        };
        assert(f@ =~= kept(s@, crate::wire::bytes_of(planes), crate::wire::bytes_of(resid)));
        f
    }

    /// Keeps a frame.
    pub fn new(s: &Seen) -> (f: Self)
        requires
            s.wf(),
        ensures
            f.wf(),
            f@ == stored(s@),
    {
        proof {
            s.picture.lemma_shape();
            s.picture.lemma_flat();
        }
        let a = pack(&s.picture.px, 1);
        let errors = write_errors(&s.resid);
        let b = pack(&errors, 1);
        Self::keep(s, a, b)
    }

    /// Recalls a frame, where `planes` and `resid` are what expanding its picture and its errors yielded.
    pub fn recall(&self, planes: Result<Vec<u8>, String>, resid: Result<Vec<u8>, String>) -> (r: Result<
        Seen,
        String,
    >)
        requires
            self.wf(),
        ensures
            r matches Ok(s) ==> s.wf() && s@.picture.w == self.wp && s@.picture.h == self.hp,
            match r {
                Ok(s) => recalled(self@, crate::wire::bytes_of(planes), crate::wire::bytes_of(resid)) == Ok::<
                    Sight,
                    Seq<char>,
                >(s@),
                Err(e) => recalled(self@, crate::wire::bytes_of(planes), crate::wire::bytes_of(resid))
                    == Err::<Sight, Seq<char>>(e@),
            },
    {
        assert(0 <= self.wp * self.hp <= 8192 * 8192) by (nonlinear_arith)
            requires
                0 <= self.wp <= 8192,
                0 <= self.hp <= 8192,
        ;
        let n: usize = self.wp * self.hp;
        let a = planes?;
        let b = resid?;
        if a.len() != 4 * n || b.len() != 6 * n {
            return Err(fail("invalid reference frame"));
        }
        let resid = read_errors(&b, 3 * n);
        let qmb: Vec<u8> = self.qmb.clone();
        assert(qmb@ =~= self.qmb@);
        let s = Seen { picture: Planes { w: self.wp, h: self.hp, px: a }, resid, qmb };
        proof {
            s.picture.lemma_bytes();
            s.picture.lemma_shape();
            assert(self.hp * self.wp == n) by (nonlinear_arith)
                requires
                    n == self.wp * self.hp,
            ;
        }
        Ok(s)
    }

    /// Recalls a frame.
    pub fn load(&self) -> (r: Result<Seen, String>)
        requires
            self.wf(),
        ensures
            r matches Ok(s) ==> s.wf() && s@.picture.w == self.wp && s@.picture.h == self.hp,
            match r {
                Ok(s) => loaded(self@) == Ok::<Sight, Seq<char>>(s@),
                Err(e) => loaded(self@) == Err::<Sight, Seq<char>>(e@),
            },
    {
        assert(0 <= self.wp * self.hp <= 8192 * 8192) by (nonlinear_arith)
            requires
                0 <= self.wp <= 8192,
                0 <= self.hp <= 8192,
        ;
        let n: usize = self.wp * self.hp;
        let a = inflate(&self.planes, 4 * n)?;
        let b = inflate(&self.resid, 6 * n);
        self.recall(Ok(a), b)
    }
}

/// How far two small pictures are apart in their first `n` places.
pub open spec fn apart(a: Seq<int>, b: Seq<int>, n: int) -> int
    decreases n,
{
    if n <= 0 {
        0
    } else {
        let d = a[n - 1] - b[n - 1];
        apart(a, b, n - 1) + if d < 0 {
            -d
        } else {
            d
        }
    }
}

/// The nearest of the first `n` kept frames of a shape, but for number `skip`: the first one, where
/// several are as near.
pub open spec fn closest(pool: Seq<Kept>, t: Seq<int>, wp: int, hp: int, n: int, skip: int) -> Option<int>
    decreases n,
{
    if n <= 0 {
        None
    } else {
        let f = pool[n - 1];
        let before = closest(pool, t, wp, hp, n - 1, skip);
        if f.wp != wp || f.hp != hp || n - 1 == skip {
            before
        } else {
            match before {
                None => Some(n - 1),
                Some(i) => if apart(f.thumb, t, 4096) < apart(pool[i].thumb, t, 4096) {
                    Some(n - 1)
                } else {
                    before
                },
            }
        }
    }
}

/// The numbers of the nearest kept frames, as records have room for them.
pub open spec fn nearest(pool: Seq<Kept>, t: Seq<int>, wp: int, hp: int) -> Seq<u16> {
    let n = pool.len() as int;
    match closest(pool, t, wp, hp, n, -1) {
        None => Seq::empty(),
        Some(a) => match closest(pool, t, wp, hp, n, a) {
            None => seq![(a % 65536) as u16],
            Some(b) => seq![(a % 65536) as u16, (b % 65536) as u16],
        },
    }
}

fn measure(a: &Vec<i64>, b: &Vec<i64>) -> (d: i64)
    requires
        a@.len() == 4096,
        b@.len() == 4096,
        forall|i: int| 0 <= i < 4096 ==> 0 <= #[trigger] a@[i] <= BRIGHT,
        forall|i: int| 0 <= i < 4096 ==> 0 <= #[trigger] b@[i] <= BRIGHT,
    ensures
        d == apart(crate::source_frames::wide(a@), crate::source_frames::wide(b@), 4096),
{
    let mut d: i64 = 0;
    let mut i: usize = 0;
    while i < 4096
        invariant
            i <= 4096,
            a@.len() == 4096,
            b@.len() == 4096,
            forall|i: int| 0 <= i < 4096 ==> 0 <= #[trigger] a@[i] <= BRIGHT,
            forall|i: int| 0 <= i < 4096 ==> 0 <= #[trigger] b@[i] <= BRIGHT,
            0 <= d <= BRIGHT * i,
            d == apart(crate::source_frames::wide(a@), crate::source_frames::wide(b@), i as int),
        decreases 4096 - i,
    {
        let x: i64 = a[i] - b[i];
        if x < 0 {
            d = d + (-x);
        } else {
            d = d + x;
        }
        i += 1;
    }
    d
}

/// Finds the nearest kept frame of a shape, but for number `skip`.
fn find_closest(pool: &Pool, t: &Vec<i64>, wp: usize, hp: usize, skip: Option<usize>) -> (r: Option<usize>)
    requires
        pool.wf(),
        t@.len() == 4096,
        forall|i: int| 0 <= i < 4096 ==> 0 <= #[trigger] t@[i] <= BRIGHT,
    ensures
        ({
            let away: int = match skip {
                Some(s) => s as int,
                None => -1,
            };
            let best = closest(
                pool@,
                crate::source_frames::wide(t@),
                wp as int,
                hp as int,
                pool@.len() as int,
                away,
            );
            match r {
                Some(i) => best == Some(i as int) && i < pool@.len(),
                None => best is None,
            }
        }),
{
    let ghost away: int = match skip {
        Some(s) => s as int,
        None => -1,
    };
    let ghost small = crate::source_frames::wide(t@);
    let mut best: Option<usize> = None;
    let mut least: i64 = 0;
    let mut i: usize = 0;
    while i < pool.frames.len()
        invariant
            i <= pool.frames.len(),
            pool.wf(),
            t@.len() == 4096,
            forall|i: int| 0 <= i < 4096 ==> 0 <= #[trigger] t@[i] <= BRIGHT,
            small == crate::source_frames::wide(t@),
            away == (match skip {
                Some(s) => s as int,
                None => -1,
            }),
            match best {
                Some(k) => k < i && closest(pool@, small, wp as int, hp as int, i as int, away) == Some(
                    k as int,
                ) && least == apart(pool@[k as int].thumb, small, 4096),
                None => closest(pool@, small, wp as int, hp as int, i as int, away) is None,
            },
        decreases pool.frames.len() - i,
    {
        let f = &pool.frames[i];
        assert(pool.frames@[i as int].wf());
        assert(f@ == pool@[i as int]);
        let skipped: bool = match skip {
            Some(s) => s == i,
            None => false,
        };
        if f.wp == wp && f.hp == hp && !skipped {
            let d = measure(&f.thumb, t);
            let better: bool = match best {
                Some(_) => d < least,
                None => true,
            };
            if better {
                best = Some(i);
                least = d;
            }
        }
        i += 1;
    }
    best
}

/// Finds the numbers of the nearest kept frames.
pub fn nearest_refs(t: &Vec<i64>, wp: usize, hp: usize, pool: &Pool) -> (refs: Vec<u16>)
    requires
        pool.wf(),
        t@.len() == 4096,
        forall|i: int| 0 <= i < 4096 ==> 0 <= #[trigger] t@[i] <= BRIGHT,
    ensures
        refs@ == nearest(pool@, crate::source_frames::wide(t@), wp as int, hp as int),
        refs@.len() <= EXTRA_REFS,
        forall|i: int| 0 <= i < refs@.len() ==> (#[trigger] refs@[i]) < pool@.len(),
{
    let mut refs: Vec<u16> = Vec::new();
    match find_closest(pool, t, wp, hp, None) {
        None => {},
        Some(a) => {
            refs.push((a % 65536) as u16);
            match find_closest(pool, t, wp, hp, Some(a)) {
                None => {},
                Some(b) => {
                    refs.push((b % 65536) as u16);
                },
            }
        },
    }
    assert(refs@ =~= nearest(pool@, crate::source_frames::wide(t@), wp as int, hp as int));
    refs
}

}
