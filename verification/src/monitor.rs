//! Progress reporting and cancellation.

use vstd::prelude::*;

verus! {

/// Someone who watches a long operation and may stop it.
pub trait Monitor {
    /// Whether the watcher has asked for the operation to end.
    spec fn stopped(&self) -> bool;

    /// Whether a report with the answer `go` can leave the watcher as `after`.
    spec fn told(&self, done: u64, total: u64, go: bool, after: &Self) -> bool;

    /// Reports that `done` of `total` units are finished. The answer `false` asks for the
    /// operation to end.
    fn report(&mut self, done: u64, total: u64) -> (go: bool)
        requires
            done <= total,
            !old(self).stopped(),
        ensures
            final(self).stopped() == !go,
            old(self).told(done, total, go, final(self)),
    ;

    /// Tells whether the watcher has asked for the operation to end.
    fn halted(&self) -> (b: bool)
        ensures
            b == self.stopped(),
    ;
}

/// Whether a watcher refuses whatever it is told.
#[verifier::opaque]
pub open spec fn refuses<M: Monitor>(m: M) -> bool {
    forall|done: u64, total: u64, go: bool, after: M| #[trigger] m.told(done, total, go, &after) ==> !go
}

/// Who agrees to a report does not refuse everything.
pub proof fn lemma_agreed<M: Monitor>(m: M, done: u64, total: u64, after: M)
    requires
        m.told(done, total, true, &after),
    ensures
        !refuses(m),
{
    reveal(refuses);
}

/// Whether the last that a watcher was told is that `done` of `total` units are finished, and it agreed.
pub open spec fn last_told<M: Monitor>(after: M, done: u64, total: u64) -> bool {
    exists|m: M| #[trigger] m.told(done, total, true, &after)
}

/// Whether an operation ends as cancelled where its watcher refuses whatever it is told.
pub open spec fn heeds<M: Monitor, T>(m: M, r: Result<T, String>) -> bool {
    refuses(m) ==> (r matches Err(e) && e@ == "error.cancelled"@)
}

/// Whether the last that a watcher was told is that all is finished, and it agreed.
pub open spec fn told_all<M: Monitor>(after: M) -> bool {
    exists|n: u64| #[trigger] last_told(after, n, n)
}

/// Whether each of some watchers, told that `done` of `total` units are finished, agreed and became the next.
pub open spec fn chained<M: Monitor>(w: Seq<M>, done: u64, total: u64) -> bool {
    forall|i: int| 0 <= i < w.len() - 1 ==> (#[trigger] w[i]).told(done, total, true, &w[i + 1])
}

/// Whether a watcher agreed `n` times in a row when told that `done` of `total` units are finished.
#[verifier::opaque]
pub open spec fn agreed<M: Monitor>(m: M, done: u64, total: u64, n: int, after: M) -> bool {
    exists|w: Seq<M>| #[trigger] chained(w, done, total) && w.len() == n + 1 && w[0] == m && w[n] == after
}

/// Whether a watcher who was to be told `n` times that `done` of `total` units are finished agreed some
/// times and then refused.
pub open spec fn broke_off<M: Monitor>(m: M, done: u64, total: u64, n: int, after: M) -> bool {
    after.stopped() && exists|k: int, mid: M| #[trigger]
        agreed(m, done, total, k, mid) && 0 <= k < n && mid.told(done, total, false, &after)
}

/// Whether a watcher was told `n` times that `done` of `total` units are finished, or as often as it agreed
/// and once more.
pub open spec fn asked<M: Monitor>(m: M, done: u64, total: u64, n: int, after: M) -> bool {
    if after.stopped() {
        broke_off(m, done, total, n, after)
    } else {
        agreed(m, done, total, n, after)
    }
}

/// Whether a watcher can agree `n` times in a row when told that `done` of `total` units are finished.
#[verifier::opaque]
pub open spec fn puts_up_with<M: Monitor>(m: M, done: u64, total: u64, n: int) -> bool {
    exists|mid: M| #[trigger] agreed(m, done, total, n, mid)
}

/// Whether an operation began by telling its watcher `n` times that `done` of `total` units are finished,
/// and ended as soon as the watcher refused.
pub open spec fn opens<M: Monitor>(m: M, done: u64, total: u64, n: int, after: M) -> bool {
    puts_up_with(m, done, total, n) || broke_off(m, done, total, n, after)
}

pub proof fn lemma_opened<M: Monitor>(m: M, done: u64, total: u64, n: int, mid: M)
    requires
        agreed(m, done, total, n, mid),
    ensures
        puts_up_with(m, done, total, n),
{
    reveal(puts_up_with);
}

/// Who refuses everything stops an operation that begins with a report.
pub proof fn lemma_stops<M: Monitor>(m: M, done: u64, total: u64, n: int, after: M)
    requires
        n >= 1,
        refuses(m),
        opens(m, done, total, n, after),
    ensures
        after.stopped(),
{
    reveal(puts_up_with);
    reveal(agreed);
    if puts_up_with(m, done, total, n) {
        let mid = choose|mid: M| #[trigger] agreed(m, done, total, n, mid);
        let w = choose|w: Seq<M>| #[trigger]
            chained(w, done, total) && w.len() == n + 1 && w[0] == m && w[n] == mid;
        assert(w[0].told(done, total, true, &w[1]));
        lemma_agreed(m, done, total, w[1]);
    }
}

pub proof fn lemma_unasked<M: Monitor>(m: M, done: u64, total: u64)
    ensures
        agreed(m, done, total, 0, m),
{
    reveal(agreed);
    assert(chained(seq![m], done, total));
}

pub proof fn lemma_agreed_sum<M: Monitor>(m: M, done: u64, total: u64, a: int, mid: M, b: int, after: M)
    requires
        a >= 0,
        b >= 0,
        agreed(m, done, total, a, mid),
        agreed(mid, done, total, b, after),
    ensures
        agreed(m, done, total, a + b, after),
{
    reveal(agreed);
    let u = choose|w: Seq<M>| #[trigger] chained(w, done, total) && w.len() == a + 1 && w[0] == m && w[a] == mid;
    let v = choose|w: Seq<M>| #[trigger]
        chained(w, done, total) && w.len() == b + 1 && w[0] == mid && w[b] == after;
    let w = u + v.skip(1);
    assert forall|i: int| 0 <= i < w.len() - 1 implies (#[trigger] w[i]).told(done, total, true, &w[i + 1]) by {
        if i < a {
            assert(w[i] == u[i] && w[i + 1] == u[i + 1]);
        } else {
            assert(w[i] == v[i - a] && w[i + 1] == v[i - a + 1]);
        }
    }
    assert(chained(w, done, total));
    assert(w[a + b] == after);
}

pub proof fn lemma_agreed_more<M: Monitor>(m: M, done: u64, total: u64, n: int, mid: M, after: M)
    requires
        n >= 0,
        agreed(m, done, total, n, mid),
        mid.told(done, total, true, &after),
    ensures
        agreed(m, done, total, n + 1, after),
{
    assert(agreed(mid, done, total, 1, after)) by {
        reveal(agreed);
        assert(chained(seq![mid, after], done, total));
    }
    lemma_agreed_sum(m, done, total, n, mid, 1, after);
}

pub proof fn lemma_broke_off_later<M: Monitor>(m: M, done: u64, total: u64, a: int, mid: M, b: int, after: M)
    requires
        a >= 0,
        agreed(m, done, total, a, mid),
        broke_off(mid, done, total, b, after),
    ensures
        broke_off(m, done, total, a + b, after),
{
    let (k, last) = choose|k: int, last: M| #[trigger]
        agreed(mid, done, total, k, last) && 0 <= k < b && last.told(done, total, false, &after);
    lemma_agreed_sum(m, done, total, a, mid, k, last);
}

/// Where the report behind `done` of `n` bytes stands, which come in chunks of `chunk` bytes.
pub open spec fn next_mark(n: int, chunk: int, done: int) -> int {
    if n - done > chunk {
        done + chunk
    } else {
        n
    }
}

/// Whether a watcher agreed to the reports of the chunks of `n` bytes up to the one at `done`. Reports count
/// from `base`, out of `whole`.
#[verifier::opaque]
pub open spec fn chunks_agreed<M: Monitor>(
    m: M,
    n: int,
    chunk: int,
    base: int,
    whole: u64,
    done: int,
    after: M,
) -> bool {
    exists|w: Seq<M>| #[trigger] chunk_chain(w, n, chunk, base, whole, done) && w[0] == m && w.last() == after
}

/// Whether each of some watchers, told of the next chunk, agreed and became the next, up to `done` bytes.
pub open spec fn chunk_chain<M: Monitor>(
    w: Seq<M>,
    n: int,
    chunk: int,
    base: int,
    whole: u64,
    done: int,
) -> bool {
    &&& w.len() >= 1
    &&& done == mark_at(n, chunk, w.len() - 1)
    &&& forall|i: int| 0 <= i < w.len() - 1 ==> #[trigger] chunk_step(w, n, chunk, base, whole, i)
}

/// Whether watcher number `i`, told of the next chunk, agreed and became the next.
pub open spec fn chunk_step<M: Monitor>(
    w: Seq<M>,
    n: int,
    chunk: int,
    base: int,
    whole: u64,
    i: int,
) -> bool {
    mark_at(n, chunk, i) < n && w[i].told((base + mark_at(n, chunk, i + 1)) as u64, whole, true, &w[i + 1])
}

/// Where report number `k` of the chunks of `n` bytes stands.
pub open spec fn mark_at(n: int, chunk: int, k: int) -> int
    decreases k,
{
    if k <= 0 {
        0
    } else {
        next_mark(n, chunk, mark_at(n, chunk, k - 1))
    }
}

/// The reports of chunks never go back, never beyond the end, and reach it.
pub proof fn law_chunk_reports_grow(n: int, chunk: int, k: int)
    requires
        0 <= n,
        1 <= chunk,
        0 <= k,
    ensures
        0 <= mark_at(n, chunk, k) <= mark_at(n, chunk, k + 1) <= n,
        k * chunk >= n ==> mark_at(n, chunk, k) == n,
        k * chunk < n ==> mark_at(n, chunk, k) == k * chunk,
    decreases k,
{
    if k > 0 {
        law_chunk_reports_grow(n, chunk, k - 1);
        assert(k * chunk == (k - 1) * chunk + chunk) by (nonlinear_arith);
    }
}

/// Whether a watcher was told of every chunk of `n` bytes, or of as many as it agreed to and one more.
pub open spec fn chunks_told<M: Monitor>(m: M, n: int, chunk: int, base: int, whole: u64, after: M) -> bool {
    if after.stopped() {
        exists|done: int, mid: M| #[trigger]
            chunks_agreed(m, n, chunk, base, whole, done, mid) && 0 <= done < n && mid.told(
                (base + next_mark(n, chunk, done)) as u64,
                whole,
                false,
                &after,
            )
    } else {
        chunks_agreed(m, n, chunk, base, whole, n, after)
    }
}

/// Whether a watcher agreed to a report at `base`, and then to one behind every chunk of `n` bytes.
pub open spec fn in_chunks<M: Monitor>(m: M, n: int, chunk: int, base: int, whole: u64, after: M) -> bool {
    exists|mid: M| #[trigger]
        chunks_agreed(mid, n, chunk, base, whole, n, after) && m.told(base as u64, whole, true, &mid)
}

pub proof fn lemma_no_chunks<M: Monitor>(m: M, n: int, chunk: int, base: int, whole: u64)
    ensures
        chunks_agreed(m, n, chunk, base, whole, 0, m),
{
    reveal(chunks_agreed);
    assert(chunk_chain(seq![m], n, chunk, base, whole, 0));
}

pub proof fn lemma_one_more_chunk<M: Monitor>(
    m: M,
    n: int,
    chunk: int,
    base: int,
    whole: u64,
    done: int,
    mid: M,
    after: M,
)
    requires
        done < n,
        chunks_agreed(m, n, chunk, base, whole, done, mid),
        mid.told((base + next_mark(n, chunk, done)) as u64, whole, true, &after),
    ensures
        chunks_agreed(m, n, chunk, base, whole, next_mark(n, chunk, done), after),
{
    reveal(chunks_agreed);
    let w = choose|w: Seq<M>| #[trigger]
        chunk_chain(w, n, chunk, base, whole, done) && w[0] == m && w.last() == mid;
    let v = w.push(after);
    assert forall|i: int| 0 <= i < v.len() - 1 implies #[trigger] chunk_step(v, n, chunk, base, whole, i) by {
        if i < w.len() - 1 {
            assert(chunk_step(w, n, chunk, base, whole, i));
        }
    }
    assert(chunk_chain(v, n, chunk, base, whole, next_mark(n, chunk, done)));
}

/// A watcher who never stops anything.
pub struct Unwatched;

impl Monitor for Unwatched {
    open spec fn stopped(&self) -> bool {
        false
    }

    open spec fn told(&self, done: u64, total: u64, go: bool, after: &Self) -> bool {
        go
    }

    fn report(&mut self, done: u64, total: u64) -> (go: bool) {
        true
    }

    fn halted(&self) -> (b: bool) {
        false
    }
}


/// Whether watcher number `i` of some was told of `d[i]` out of `whole`, and became the next.
pub open spec fn climb_step<M: Monitor>(w: Seq<M>, d: Seq<int>, whole: u64, i: int) -> bool {
    &&& 0 <= d[i] <= whole
    &&& w[i].told(d[i] as u64, whole, true, &w[i + 1]) || w[i].told(d[i] as u64, whole, false, &w[i + 1])
}

/// Whether each of some watchers was told of what is done by then, never less than the one before it.
pub open spec fn climb_chain<M: Monitor>(w: Seq<M>, d: Seq<int>, whole: u64) -> bool {
    &&& w.len() == d.len() + 1
    &&& forall|i: int| 0 <= i < d.len() ==> #[trigger] climb_step(w, d, whole, i)
    &&& forall|i: int, j: int| 0 <= i <= j < d.len() ==> #[trigger] d[i] <= #[trigger] d[j]
}

/// Whether all reports to a watcher counted out of `whole`, never went back, and lay between `low` and `high`.
#[verifier::opaque]
pub open spec fn climbs<M: Monitor>(m: M, low: int, high: int, whole: u64, after: M) -> bool {
    exists|w: Seq<M>, d: Seq<int>| #[trigger]
        climb_chain(w, d, whole) && w[0] == m && w.last() == after && forall|i: int|
            0 <= i < d.len() ==> low <= #[trigger] d[i] <= high
}

/// How far reports are to come at most.
pub open spec fn goal(high: int) -> bool {
    true
}

/// A watcher that was told nothing heard reports that rose.
pub proof fn lemma_stays<M: Monitor>(m: M, low: int, high: int, whole: u64)
    ensures
        climbs(m, low, high, whole, m),
{
    reveal(climbs);
    assert(climb_chain(seq![m], Seq::empty(), whole));
}

/// Reports that rose, and then rose from where they were, rose.
pub broadcast proof fn lemma_climbs_join<M: Monitor>(
    m: M,
    low: int,
    x: int,
    mid: M,
    y: int,
    high: int,
    whole: u64,
    after: M,
)
    requires
        #[trigger] climbs(m, low, x, whole, mid),
        #[trigger] climbs(mid, y, high, whole, after),
        low <= y,
        x <= y,
        x <= high,
    ensures
        climbs(m, low, high, whole, after),
{
    reveal(climbs);
    let (w, d) = choose|w: Seq<M>, d: Seq<int>| #[trigger]
        climb_chain(w, d, whole) && w[0] == m && w.last() == mid && forall|i: int|
            0 <= i < d.len() ==> low <= #[trigger] d[i] <= x;
    let (v, e) = choose|w: Seq<M>, d: Seq<int>| #[trigger]
        climb_chain(w, d, whole) && w[0] == mid && w.last() == after && forall|i: int|
            0 <= i < d.len() ==> y <= #[trigger] d[i] <= high;
    let n = d.len() as int;
    let u = w + v.skip(1);
    let f = d + e;
    assert forall|i: int| 0 <= i < f.len() implies #[trigger] climb_step(u, f, whole, i) by {
        if i < n {
            assert(climb_step(w, d, whole, i));
        } else {
            assert(climb_step(v, e, whole, i - n));
            assert(u[i] == v[i - n]);
            assert(u[i + 1] == v[i - n + 1]);
        }
    }
    assert(climb_chain(u, f, whole));
    assert(u.last() == after);
}

/// One more report, not behind those before it, keeps them rising.
pub broadcast proof fn lemma_climbs_on<M: Monitor>(
    m: M,
    low: int,
    high: int,
    mid: M,
    at: u64,
    go: bool,
    whole: u64,
    after: M,
)
    requires
        #[trigger] climbs(m, low, high, whole, mid),
        #[trigger] mid.told(at, whole, go, &after),
        at <= whole,
        low <= at,
        high <= at,
    ensures
        climbs(m, low, at as int, whole, after),
{
    assert(climbs(mid, at as int, at as int, whole, after)) by {
        reveal(climbs);
        let w = seq![mid, after];
        let d = seq![at as int];
        assert(climb_step(w, d, whole, 0));
        assert(climb_chain(w, d, whole));
    }
    lemma_climbs_join(m, low, high, mid, at as int, at as int, whole, after);
}

/// What did not come beyond a bound did not come beyond the goal behind it.
pub broadcast proof fn lemma_climbs_up<M: Monitor>(m: M, low: int, high: int, whole: u64, after: M, higher: int)
    requires
        #[trigger] climbs(m, low, high, whole, after),
        #[trigger] goal(higher),
        high <= higher,
    ensures
        climbs(m, low, higher, whole, after),
{
    reveal(climbs);
}

/// The share of `k` units that belongs to `done` of `n` grows with `done`.
pub proof fn lemma_part(done: int, later: int, k: int, n: int)
    requires
        0 <= done <= later <= n,
        0 < n,
        0 <= k,
    ensures
        0 <= done * k / n <= later * k / n <= k,
        done == 0 ==> done * k / n == 0,
        later == n ==> later * k / n == k,
{
    assert(0 <= done * k <= later * k <= n * k) by (nonlinear_arith)
        requires
            0 <= done <= later <= n,
            0 <= k,
    ;
    vstd::arithmetic::div_mod::lemma_div_is_ordered(0, done * k, n);
    vstd::arithmetic::div_mod::lemma_div_is_ordered(done * k, later * k, n);
    vstd::arithmetic::div_mod::lemma_div_is_ordered(later * k, n * k, n);
    vstd::arithmetic::div_mod::lemma_div_multiples_vanish(k, n);
    assert(n * k == k * n) by (nonlinear_arith);
    assert(0int / n == 0) by (nonlinear_arith)
        requires
            0 < n,
    ;
}

/// How the reports of one step fit into those of a longer operation: `span` of `whole` units, of
/// which `base` are done before it.
pub struct Share {
    pub base: u64,
    pub span: u64,
    pub whole: u64,
}

impl Share {
    pub open spec fn fits(&self) -> bool {
        self.base + self.span <= self.whole && self.span <= 3_000_000
    }

    /// Where a report that `done` of a million units of the step are finished stands.
    pub open spec fn at(self, done: int) -> int {
        self.base + done * self.span / 1_000_000
    }

    /// Later reports of a step stand later, and none beyond its end.
    pub proof fn lemma_at(self, done: int, later: int)
        requires
            self.fits(),
            0 <= done <= later <= 1_000_000,
        ensures
            self.base <= self.at(done) <= self.at(later) <= self.whole,
    {
        lemma_part(done, later, self.span as int, 1_000_000);
    }

    /// What to report when `done` of a million units of the step are finished.
    pub fn point(&self, done: u64) -> (at: (u64, u64))
        requires
            self.fits(),
            done <= 1_000_000,
        ensures
            at.0 == self.base + done * self.span / 1_000_000,
            at.1 == self.whole,
            at.0 <= at.1,
    {
        assert(done * self.span <= 1_000_000 * 3_000_000) by (nonlinear_arith)
            requires
                0 <= done <= 1_000_000,
                0 <= self.span <= 3_000_000,
        ;
        let part: u64 = done * self.span / 1_000_000;
        assert(part <= self.span) by (nonlinear_arith)
            requires
                part == (done * self.span) / 1_000_000,
                done <= 1_000_000,
        ;
        (self.base + part, self.whole)
    }

    /// Reports that `done` of `total` units of the step are finished.
    pub fn report<M: Monitor>(&self, monitor: &mut M, done: u64, total: u64) -> (go: bool)
        requires
            self.fits(),
            done <= total <= 1_000_000_000_000,
            !old(monitor).stopped(),
        ensures
            final(monitor).stopped() == !go,
            old(monitor).told(
                (self.base + done * self.span / if total > 1 {
                    total as int
                } else {
                    1
                }) as u64,
                self.whole,
                go,
                final(monitor),
            ),
    {
        let most: u64 = if total > 1 { total } else { 1 };
        assert(done * self.span <= 1_000_000_000_000 * 3_000_000) by (nonlinear_arith)
            requires
                0 <= done <= 1_000_000_000_000,
                0 <= self.span <= 3_000_000,
        ;
        let part: u64 = done * self.span / most;
        assert(part <= self.span) by (nonlinear_arith)
            requires
                part == (done * self.span) / most as int,
                done <= most,
                most >= 1,
        ;
        monitor.report(self.base + part, self.whole)
    }
}

/// How many units an operation in phases has.
pub const UNITS: u64 = 10_000;

/// Someone who watches an operation in phases. The reports of a phase stand for `span` units, after
/// `base` others.
pub struct Phases<M: Monitor> {
    pub inner: M,
    pub base: u32,
    pub span: u32,
}

/// How many units are done with `done` of `total` parts of a phase.
pub open spec fn reached(base: int, span: int, done: int, total: int) -> int {
    let part = if total <= 0 {
        0
    } else {
        span * done / total
    };
    if base + part > UNITS {
        UNITS as int
    } else {
        base + part
    }
}

impl<M: Monitor> Phases<M> {
    /// Starts with a phase.
    pub fn new(inner: M, base: u32, span: u32) -> (p: Self)
        ensures
            p.stopped() == inner.stopped(),
            p.inner == inner,
            p.base == base,
            p.span == span,
    {
        Phases { inner, base, span }
    }

    /// Goes on to a phase.
    pub fn enter(&mut self, base: u32, span: u32)
        ensures
            final(self).stopped() == old(self).stopped(),
            final(self).inner == old(self).inner,
            final(self).base == base,
            final(self).span == span,
    {
        self.base = base;
        self.span = span;
    }

    /// How many units are done with `done` of `total` parts of the phase.
    pub fn point(&self, done: u64, total: u64) -> (at: u64)
        requires
            done <= total,
        ensures
            at == reached(self.base as int, self.span as int, done as int, total as int),
            at <= UNITS,
    {
        let part: u128 = if total == 0 {
            0
        } else {
            assert(0 <= self.span * done <= 0xFFFF_FFFF * 0xFFFF_FFFF_FFFF_FFFF) by (nonlinear_arith)
                requires
                    0 <= self.span <= 0xFFFF_FFFF,
                    0 <= done <= 0xFFFF_FFFF_FFFF_FFFF,
            ;
            self.span as u128 * done as u128 / total as u128
        };
        assert(part <= self.span) by {
            if total > 0 {
                assert((self.span * done) / total as int <= self.span) by (nonlinear_arith)
                    requires
                        0 <= self.span,
                        0 <= done <= total,
                        total > 0,
                ;
            }
        }
        let at: u64 = self.base as u64 + part as u64;
        if at > UNITS {
            UNITS
        } else {
            at
        }
    }
}

impl<M: Monitor> Monitor for Phases<M> {
    open spec fn stopped(&self) -> bool {
        self.inner.stopped()
    }

    open spec fn told(&self, done: u64, total: u64, go: bool, after: &Self) -> bool {
        &&& after.base == self.base
        &&& after.span == self.span
        &&& self.inner.told(
            reached(self.base as int, self.span as int, done as int, total as int) as u64,
            UNITS,
            go,
            &after.inner,
        )
    }

    fn report(&mut self, done: u64, total: u64) -> (go: bool) {
        let at = self.point(done, total);
        self.inner.report(at, UNITS)
    }

    fn halted(&self) -> (b: bool) {
        self.inner.halted()
    }
}

/// Who watches in phases refuses whatever is reported if the watcher behind does.
pub proof fn lemma_phases_refuse<M: Monitor>(p: Phases<M>)
    requires
        refuses(p.inner),
    ensures
        refuses(p),
{
    reveal(refuses);
    assert forall|done: u64, total: u64, go: bool, after: Phases<M>| #[trigger]
        p.told(done, total, go, &after) implies !go by {
        let at = reached(p.base as int, p.span as int, done as int, total as int) as u64;
        assert(p.inner.told(at, UNITS, go, &after.inner));
    }
}

}
