//! Per-stage timer.
//!
//! Stopping a stage *adds* the span since its latest start, so a stage that is
//! started and stopped repeatedly (once per crop, say) reports the sum of its
//! spans. A stop ends the running segment; stopping a stage that does not run
//! adds nothing. A timer built disabled does nothing at all and reports zero.

use std::time::{Duration, Instant};
use vstd::prelude::*;

verus! {

/// `std::time::Instant` is carried through as an opaque value.
#[verifier::external_type_specification]
#[verifier::external_body]
pub struct ExInstant(Instant);

/// Calls `Instant::now`. The value comes from the monotonic clock, so nothing is
/// promised of it.
#[verifier::external_body]
fn clock_now() -> Instant {
    Instant::now()
}

/// The time from `earlier` to `later`, as
/// `later.saturating_duration_since(earlier)` gives it (zero when `later` is not
/// after `earlier`): a function of the two instants.
pub uninterp spec fn span_between(earlier: Instant, later: Instant) -> Duration;

/// The whole nanoseconds of `span`, as `Duration::as_nanos` gives them.
pub uninterp spec fn nanos_of(span: Duration) -> u128;

/// Whole nanoseconds from `earlier` to `later`.
pub open spec fn nanos_between(earlier: Instant, later: Instant) -> u128 {
    nanos_of(span_between(earlier, later))
}

/// Calls `Instant::saturating_duration_since`: the time from `earlier` to `later`.
#[verifier::external_body]
fn duration_between(earlier: &Instant, later: &Instant) -> (span: Duration)
    ensures
        span == span_between(*earlier, *later),
{
    later.saturating_duration_since(*earlier)
}

/// Calls `Duration::as_nanos`: the whole nanoseconds of `span`.
#[verifier::external_body]
fn whole_nanos(span: Duration) -> (n: u128)
    ensures
        n == nanos_of(span),
{
    span.as_nanos()
}

/// Whole milliseconds of an accumulated span, as `Duration::as_millis() as i64` gives them.
pub open spec fn millis_of(nanos: u128) -> i64 {
    (nanos / 1_000_000) as i64
}

/// Addition that stops at `u128::MAX` instead of overflowing.
pub open spec fn add_span_nanos(total: u128, span: u128) -> u128 {
    if total + span > u128::MAX {
        u128::MAX
    } else {
        (total + span) as u128
    }
}

/// The stage totals after `start(name)`: a stage seen for the first time enters
/// with nothing accumulated; a disabled timer keeps nothing.
pub open spec fn after_start(
    totals: Map<Seq<char>, u128>,
    enabled: bool,
    name: Seq<char>,
) -> Map<Seq<char>, u128> {
    if enabled && !totals.contains_key(name) {
        totals.insert(name, 0)
    } else {
        totals
    }
}

/// The start instants after `start(name)` read `now`: the stage's segment
/// begins at `now`, on an enabled timer.
pub open spec fn starts_after_start(
    starts: Map<Seq<char>, Instant>,
    enabled: bool,
    name: Seq<char>,
    now: Instant,
) -> Map<Seq<char>, Instant> {
    if enabled {
        starts.insert(name, now)
    } else {
        starts
    }
}

/// The running stages after `start(name)`: `name` runs, on an enabled timer.
pub open spec fn running_after_start(running: Set<Seq<char>>, enabled: bool, name: Seq<char>) -> Set<Seq<char>> {
    if enabled {
        running.insert(name)
    } else {
        running
    }
}

/// The stage totals after stage `name` stops with a segment of `span`
/// nanoseconds: the span is added, if the timer is enabled and the stage runs;
/// otherwise nothing changes.
pub open spec fn after_stop(
    totals: Map<Seq<char>, u128>,
    running: Set<Seq<char>>,
    enabled: bool,
    name: Seq<char>,
    span: u128,
) -> Map<Seq<char>, u128> {
    if enabled && running.contains(name) {
        totals.insert(name, add_span_nanos(totals[name], span))
    } else {
        totals
    }
}

/// The running stages after `stop(name)`: `name` no longer runs.
pub open spec fn running_after_stop(running: Set<Seq<char>>, enabled: bool, name: Seq<char>) -> Set<Seq<char>> {
    if enabled {
        running.remove(name)
    } else {
        running
    }
}

struct Stage {
    name: String,
    start: Instant,
    elapsed_nanos: u128,
    running: bool,
}

/// Accumulating per-stage timer.
pub struct PerfTimer {
    stages: Vec<Stage>,
    enabled: bool,
    /// Stage name to accumulated nanoseconds.
    totals: Ghost<Map<Seq<char>, u128>>,
    /// Stages started and not yet stopped.
    active: Ghost<Set<Seq<char>>>,
    /// Stage name to the instant its latest start read.
    begun: Ghost<Map<Seq<char>, Instant>>,
}

impl View for PerfTimer {
    type V = Map<Seq<char>, u128>;

    /// The stages seen so far, each with the nanoseconds accumulated for it.
    closed spec fn view(&self) -> Map<Seq<char>, u128> {
        self.totals@
    }
}

impl PerfTimer {
    /// Whether the timer was built enabled.
    pub closed spec fn is_enabled(&self) -> bool {
        self.enabled
    }

    /// The stages that were started and not stopped since.
    pub closed spec fn running(&self) -> Set<Seq<char>> {
        self.active@
    }

    /// Each stage seen so far, with the instant its latest start read.
    pub closed spec fn starts(&self) -> Map<Seq<char>, Instant> {
        self.begun@
    }

    /// Stage names are distinct, the ghost totals and running set mirror the
    /// stage list, and a disabled timer holds no stage.
    pub closed spec fn wf(&self) -> bool {
        &&& forall|i: int, j: int|
            0 <= i < j < self.stages@.len() ==> self.stages@[i].name@ != self.stages@[j].name@
        &&& forall|i: int|
            0 <= i < self.stages@.len() ==> {
                &&& #[trigger] self.totals@.contains_key(self.stages@[i].name@)
                &&& self.totals@[self.stages@[i].name@] == self.stages@[i].elapsed_nanos
                &&& self.active@.contains(self.stages@[i].name@) == self.stages@[i].running
                &&& self.begun@.contains_key(self.stages@[i].name@)
                &&& self.begun@[self.stages@[i].name@] == self.stages@[i].start
            }
        &&& forall|k: Seq<char>| #[trigger] self.begun@.contains_key(k) ==> self.totals@.contains_key(k)
        &&& forall|k: Seq<char>|
            #[trigger] self.totals@.contains_key(k) ==> exists|i: int|
                0 <= i < self.stages@.len() && self.stages@[i].name@ == k
        &&& forall|k: Seq<char>| #[trigger] self.active@.contains(k) ==> self.totals@.contains_key(k)
        &&& !self.enabled ==> self.stages@.len() == 0
    }

    /// A timer with no stage. Built with `enabled == false`, every other method
    /// leaves it as it is.
    pub fn new(enabled: bool) -> (timer: Self)
        ensures
            timer.wf(),
            timer@ == Map::<Seq<char>, u128>::empty(),
            timer.running() == Set::<Seq<char>>::empty(),
            timer.starts() == Map::<Seq<char>, Instant>::empty(),
            timer.is_enabled() == enabled,
    {
        PerfTimer {
            stages: Vec::new(),
            enabled,
            totals: Ghost(Map::empty()),
            active: Ghost(Set::empty()),
            begun: Ghost(Map::empty()),
        }
    }

    /// Position of the stage called `name`, if there is one.
    fn find(&self, name: &String) -> (found: Option<usize>)
        requires
            self.wf(),
        ensures
            match found {
                Some(i) => i < self.stages@.len() && self.stages@[i as int].name@ == name@,
                None => !self@.contains_key(name@) && !self.running().contains(name@),
            },
    {
        let mut i: usize = 0;
        while i < self.stages.len()
            invariant
                self.wf(),
                i <= self.stages@.len(),
                forall|j: int| 0 <= j < i ==> self.stages@[j].name@ != name@,
            decreases self.stages@.len() - i,
        {
            if self.stages[i].name == *name {
                return Some(i);
            }
            i = i + 1;
        }
        proof {
            if self.totals@.contains_key(name@) {
                let j = choose|j: int| 0 <= j < self.stages@.len() && self.stages@[j].name@ == name@;
            }
        }
        None
    }

    /// Replaces stage `i` by `stage`, which has the same name; the ghost state
    /// follows.
    fn replace_stage(&mut self, i: usize, stage: Stage)
        requires
            old(self).wf(),
            i < old(self).stages@.len(),
            stage.name@ == old(self).stages@[i as int].name@,
        ensures
            final(self).wf(),
            final(self).is_enabled() == old(self).is_enabled(),
            final(self)@ == old(self)@.insert(stage.name@, stage.elapsed_nanos),
            final(self).running() == if stage.running {
                old(self).running().insert(stage.name@)
            } else {
                old(self).running().remove(stage.name@)
            },
            final(self).starts() == old(self).starts().insert(stage.name@, stage.start),
    {
        let ghost k = stage.name@;
        let ghost e = stage.elapsed_nanos;
        let ghost r = stage.running;
        let ghost b = stage.start;
        assert(old(self).totals@.contains_key(old(self).stages@[i as int].name@));
        self.stages.set(i, stage);
        proof {
            self.totals@ = self.totals@.insert(k, e);
            self.active@ = if r { self.active@.insert(k) } else { self.active@.remove(k) };
            self.begun@ = self.begun@.insert(k, b);
            assert forall|q: Seq<char>| #[trigger] self.totals@.contains_key(q) implies
                exists|j: int| 0 <= j < self.stages@.len() && self.stages@[j].name@ == q by {
                if q == k {
                    assert(self.stages@[i as int].name@ == q);
                } else {
                    assert(old(self).totals@.contains_key(q));
                    let j = choose|j: int| 0 <= j < old(self).stages@.len() && old(self).stages@[j].name@ == q;
                    assert(self.stages@[j].name@ == q);
                }
            }
            assert forall|j: int| 0 <= j < self.stages@.len() implies {
                &&& #[trigger] self.totals@.contains_key(self.stages@[j].name@)
                &&& self.totals@[self.stages@[j].name@] == self.stages@[j].elapsed_nanos
                &&& self.active@.contains(self.stages@[j].name@) == self.stages@[j].running
                &&& self.begun@.contains_key(self.stages@[j].name@)
                &&& self.begun@[self.stages@[j].name@] == self.stages@[j].start
            } by {
                if j != i {
                    assert(self.stages@[j] == old(self).stages@[j]);
                    assert(old(self).totals@.contains_key(old(self).stages@[j].name@));
                }
            }
        }
    }

    /// Starts (or restarts) stage `name` at the clock reading `now`: its running
    /// segment begins there; what it has accumulated so far stays.
    pub fn start_at(&mut self, name: &str, now: Instant)
        requires
            old(self).wf(),
        ensures
            final(self).wf(),
            final(self).is_enabled() == old(self).is_enabled(),
            final(self)@ == after_start(old(self)@, old(self).is_enabled(), name@),
            final(self).running() == running_after_start(old(self).running(), old(self).is_enabled(), name@),
            final(self).starts() == starts_after_start(old(self).starts(), old(self).is_enabled(), name@, now),
    {
        if !self.enabled {
            return;
        }
        let key = name.to_owned();
        match self.find(&key) {
            Some(i) => {
                let name_i = self.stages[i].name.clone();
                let elapsed = self.stages[i].elapsed_nanos;
                assert(old(self).totals@.contains_key(old(self).stages@[i as int].name@));
                self.replace_stage(i, Stage { name: name_i, start: now, elapsed_nanos: elapsed, running: true });
                assert(self.totals@ =~= old(self).totals@);
            },
            None => {
                let ghost k = key@;
                self.stages.push(Stage { name: key, start: now, elapsed_nanos: 0, running: true });
                proof {
                    self.totals@ = self.totals@.insert(k, 0);
                    self.active@ = self.active@.insert(k);
                    self.begun@ = self.begun@.insert(k, now);
                    let n = self.stages@.len() - 1;
                    assert forall|q: Seq<char>| #[trigger] self.totals@.contains_key(q) implies
                        exists|i: int| 0 <= i < self.stages@.len() && self.stages@[i].name@ == q by {
                        if q == k {
                            assert(self.stages@[n].name@ == q);
                        } else {
                            assert(old(self).totals@.contains_key(q));
                            let i = choose|i: int| 0 <= i < old(self).stages@.len() && old(self).stages@[i].name@ == q;
                            assert(self.stages@[i].name@ == q);
                        }
                    }
                    assert forall|j: int| 0 <= j < self.stages@.len() implies {
                        &&& #[trigger] self.totals@.contains_key(self.stages@[j].name@)
                        &&& self.totals@[self.stages@[j].name@] == self.stages@[j].elapsed_nanos
                        &&& self.active@.contains(self.stages@[j].name@) == self.stages@[j].running
                        &&& self.begun@.contains_key(self.stages@[j].name@)
                        &&& self.begun@[self.stages@[j].name@] == self.stages@[j].start
                    } by {
                        if j < n {
                            assert(self.stages@[j] == old(self).stages@[j]);
                            assert(old(self).totals@.contains_key(old(self).stages@[j].name@));
                        }
                    }
                }
            },
        }
    }

    /// Starts (or restarts) stage `name` at an instant read from the clock. The
    /// reading itself cannot be stated; the stage's segment begins at it.
    pub fn start(&mut self, name: &str)
        requires
            old(self).wf(),
        ensures
            final(self).wf(),
            final(self).is_enabled() == old(self).is_enabled(),
            final(self)@ == after_start(old(self)@, old(self).is_enabled(), name@),
            final(self).running() == running_after_start(old(self).running(), old(self).is_enabled(), name@),
            exists|now: Instant|
                final(self).starts() == starts_after_start(old(self).starts(), old(self).is_enabled(), name@, now),
    {
        let now = clock_now();
        self.start_at(name, now);
    }

    /// Ends the running segment of stage `i` with a span of `span` nanoseconds.
    fn close_segment(&mut self, i: usize, span: u128)
        requires
            old(self).wf(),
            old(self).is_enabled(),
            i < old(self).stages@.len(),
            old(self).running().contains(old(self).stages@[i as int].name@),
        ensures
            final(self).wf(),
            final(self).is_enabled() == old(self).is_enabled(),
            final(self)@ == after_stop(old(self)@, old(self).running(), true, old(self).stages@[i as int].name@, span),
            final(self).running() == running_after_stop(old(self).running(), true, old(self).stages@[i as int].name@),
            final(self).starts() == old(self).starts(),
    {
        let name_i = self.stages[i].name.clone();
        let start = self.stages[i].start;
        let total = self.stages[i].elapsed_nanos.saturating_add(span);
        assert(old(self).totals@.contains_key(old(self).stages@[i as int].name@));
        self.replace_stage(i, Stage { name: name_i, start, elapsed_nanos: total, running: false });
        assert(self.begun@ =~= old(self).begun@);
    }

    /// Ends the running segment of stage `name` at the clock reading `now` and
    /// adds to the stage the time from the instant its latest start read to
    /// `now`. Nothing happens when the timer is disabled or the stage is not
    /// running (never started, or already stopped).
    pub fn stop_at(&mut self, name: &str, now: Instant)
        requires
            old(self).wf(),
        ensures
            final(self).wf(),
            final(self).is_enabled() == old(self).is_enabled(),
            final(self)@ == after_stop(
                old(self)@,
                old(self).running(),
                old(self).is_enabled(),
                name@,
                nanos_between(old(self).starts()[name@], now),
            ),
            final(self).running() == running_after_stop(old(self).running(), old(self).is_enabled(), name@),
            final(self).starts() == old(self).starts(),
            // a running stage gains the time from its latest start to `now`
            old(self).is_enabled() && old(self).running().contains(name@) ==> {
                &&& old(self)@.contains_key(name@)
                &&& final(self)@.contains_key(name@)
                &&& old(self)@[name@] + nanos_between(old(self).starts()[name@], now) <= u128::MAX ==> final(self)@[name@]
                    == old(self)@[name@] + nanos_between(old(self).starts()[name@], now)
            },
            // nothing else changes
            forall|k: Seq<char>| k != name@ ==> #[trigger] final(self)@.contains_key(k) == old(self)@.contains_key(k)
                && final(self)@[k] == old(self)@[k],
            !(old(self).is_enabled() && old(self).running().contains(name@)) ==> final(self)@ == old(self)@,
    {
        if !self.enabled {
            return;
        }
        let key = name.to_owned();
        match self.find(&key) {
            Some(i) => {
                assert(old(self).totals@.contains_key(old(self).stages@[i as int].name@));
                if self.stages[i].running {
                    let span = whole_nanos(duration_between(&self.stages[i].start, &now));
                    self.close_segment(i, span);
                } else {
                    assert(self.active@ =~= self.active@.remove(name@));
                }
            },
            None => {
                assert(self.active@ =~= self.active@.remove(name@));
            },
        }
    }

    /// Ends the running segment of stage `name` at an instant read from the
    /// clock, and adds the time since the instant its latest start read. The
    /// reading itself cannot be stated; the span is measured from the stage's
    /// start to it.
    pub fn stop(&mut self, name: &str)
        requires
            old(self).wf(),
        ensures
            final(self).wf(),
            final(self).is_enabled() == old(self).is_enabled(),
            exists|now: Instant|
                final(self)@ == after_stop(
                    old(self)@,
                    old(self).running(),
                    old(self).is_enabled(),
                    name@,
                    nanos_between(old(self).starts()[name@], now),
                ),
            final(self).running() == running_after_stop(old(self).running(), old(self).is_enabled(), name@),
            final(self).starts() == old(self).starts(),
    {
        let now = clock_now();
        self.stop_at(name, now);
        assert(self@ == after_stop(
            old(self)@,
            old(self).running(),
            old(self).is_enabled(),
            name@,
            nanos_between(old(self).starts()[name@], now),
        ));
    }

    /// Ends the running segment of stage `name` with a span of `span`
    /// nanoseconds measured by the caller, and adds it to the stage. Nothing
    /// happens when the timer is disabled or the stage is not running.
    pub fn stop_with_span(&mut self, name: &str, span: u128)
        requires
            old(self).wf(),
        ensures
            final(self).wf(),
            final(self).is_enabled() == old(self).is_enabled(),
            final(self)@ == after_stop(old(self)@, old(self).running(), old(self).is_enabled(), name@, span),
            final(self).running() == running_after_stop(old(self).running(), old(self).is_enabled(), name@),
            final(self).starts() == old(self).starts(),
            // a running stage gains `span`
            old(self).is_enabled() && old(self).running().contains(name@) ==> {
                &&& old(self)@.contains_key(name@)
                &&& final(self)@.contains_key(name@)
                &&& old(self)@[name@] + span <= u128::MAX ==> final(self)@[name@] == old(self)@[name@] + span
            },
            // nothing else changes
            forall|k: Seq<char>| k != name@ ==> #[trigger] final(self)@.contains_key(k) == old(self)@.contains_key(k)
                && final(self)@[k] == old(self)@[k],
            !(old(self).is_enabled() && old(self).running().contains(name@)) ==> final(self)@ == old(self)@,
    {
        if !self.enabled {
            return;
        }
        let key = name.to_owned();
        match self.find(&key) {
            Some(i) => {
                if self.stages[i].running {
                    assert(old(self).totals@.contains_key(old(self).stages@[i as int].name@));
                    self.close_segment(i, span);
                } else {
                    assert(old(self).totals@.contains_key(old(self).stages@[i as int].name@));
                    assert(self.active@ =~= self.active@.remove(name@));
                }
            },
            None => {
                assert(self.active@ =~= self.active@.remove(name@));
            },
        }
    }

    /// Whole milliseconds accumulated by stage `name`, or 0 for a stage never started.
    pub fn elapsed_ms(&self, name: &str) -> (ms: i64)
        requires
            self.wf(),
        ensures
            ms == if self@.contains_key(name@) { millis_of(self@[name@]) } else { 0 },
            self@.contains_key(name@) ==> ms == (self@[name@] / 1_000_000) as i64,
            !self@.contains_key(name@) ==> ms == 0,
    {
        let key = name.to_owned();
        match self.find(&key) {
            Some(i) => {
                assert(self.totals@.contains_key(self.stages@[i as int].name@));
                (self.stages[i].elapsed_nanos / 1_000_000) as i64
            },
            None => 0,
        }
    }
}

/// A timer built disabled never holds a stage, so it reports 0 for every stage
/// whatever was started or stopped on it.
pub proof fn lemma_disabled_timer_holds_nothing(timer: &PerfTimer)
    requires
        timer.wf(),
        !timer.is_enabled(),
    ensures
        timer@ == Map::<Seq<char>, u128>::empty(),
{
    assert(timer@ =~= Map::<Seq<char>, u128>::empty()) by {
        assert forall|k: Seq<char>| !#[trigger] timer@.contains_key(k) by {
            if timer.totals@.contains_key(k) {
                let i = choose|i: int| 0 <= i < timer.stages@.len() && timer.stages@[i].name@ == k;
            }
        }
    }
}

/// `total` with the spans added one after the other (saturating).
pub open spec fn spans_added(total: u128, spans: Seq<u128>) -> u128
    decreases spans.len(),
{
    if spans.len() == 0 {
        total
    } else {
        add_span_nanos(spans_added(total, spans.drop_last()), spans.last())
    }
}

/// The plain sum of the spans.
pub open spec fn sum_of(spans: Seq<u128>) -> int
    decreases spans.len(),
{
    if spans.len() == 0 {
        0
    } else {
        sum_of(spans.drop_last()) + spans.last()
    }
}

/// Totals and running stages of an enabled timer after stage `name` is started
/// and stopped once per span in `spans`, with segments of those spans.
pub open spec fn after_segments(
    totals: Map<Seq<char>, u128>,
    running: Set<Seq<char>>,
    name: Seq<char>,
    spans: Seq<u128>,
) -> (Map<Seq<char>, u128>, Set<Seq<char>>)
    decreases spans.len(),
{
    if spans.len() == 0 {
        (totals, running)
    } else {
        let (t, r) = after_segments(totals, running, name, spans.drop_last());
        let t1 = after_start(t, true, name);
        let r1 = running_after_start(r, true, name);
        (after_stop(t1, r1, true, name, spans.last()), running_after_stop(r1, true, name))
    }
}

/// Start/stop segments of a stage add up: after any number of segments the
/// stage holds what it had before plus every span (saturating at `u128::MAX`;
/// the exact sum when that fits), it no longer runs, and every other stage is as
/// it was.
pub proof fn lemma_segments_accumulate(
    totals: Map<Seq<char>, u128>,
    running: Set<Seq<char>>,
    name: Seq<char>,
    spans: Seq<u128>,
)
    requires
        spans.len() > 0,
    ensures
        ({
            let before = if totals.contains_key(name) { totals[name] } else { 0 };
            let (t, r) = after_segments(totals, running, name, spans);
            &&& t.contains_key(name)
            &&& t[name] == spans_added(before, spans)
            &&& before + sum_of(spans) <= u128::MAX ==> t[name] == before + sum_of(spans)
            &&& !r.contains(name)
            &&& forall|k: Seq<char>| k != name ==> (#[trigger] t.contains_key(k) == totals.contains_key(k))
            &&& forall|k: Seq<char>| k != name && totals.contains_key(k) ==> #[trigger] t[k] == totals[k]
            &&& forall|k: Seq<char>| k != name ==> (#[trigger] r.contains(k) == running.contains(k))
        }),
    decreases spans.len(),
{
    let before = if totals.contains_key(name) { totals[name] } else { 0 };
    let prev = spans.drop_last();
    if prev.len() > 0 {
        lemma_segments_accumulate(totals, running, name, prev);
    }
    let (t, r) = after_segments(totals, running, name, prev);
    assert(t.contains_key(name) ==> t[name] == spans_added(before, prev));
    assert(!t.contains_key(name) ==> before == 0 && spans_added(before, prev) == 0);
    let t1 = after_start(t, true, name);
    let r1 = running_after_start(r, true, name);
    assert(t1[name] == spans_added(before, prev));
    assert(r1.contains(name));
    let fin = after_segments(totals, running, name, spans);
    assert(fin == (after_stop(t1, r1, true, name, spans.last()), running_after_stop(r1, true, name)));
    assert(fin.0[name] == spans_added(before, spans));
    lemma_spans_added_exact(before, spans);
}

proof fn lemma_spans_added_exact(total: u128, spans: Seq<u128>)
    ensures
        sum_of(spans) >= 0,
        total + sum_of(spans) <= u128::MAX ==> spans_added(total, spans) == total + sum_of(spans),
    decreases spans.len(),
{
    if spans.len() > 0 {
        lemma_spans_added_exact(total, spans.drop_last());
    }
}

/// Stopping a stage that no longer runs adds nothing: a second stop after a
/// stop leaves the totals as the first stop left them.
pub proof fn lemma_second_stop_adds_nothing(
    totals: Map<Seq<char>, u128>,
    running: Set<Seq<char>>,
    name: Seq<char>,
    first: u128,
    second: u128,
)
    ensures
        ({
            let t1 = after_stop(totals, running, true, name, first);
            let r1 = running_after_stop(running, true, name);
            after_stop(t1, r1, true, name, second) == t1
        }),
{
}

/// A running stage, and a stage with a start instant, is one the timer has seen:
/// stopping a stage absent from the totals finds nothing running.
pub proof fn lemma_running_stages_are_seen(timer: &PerfTimer)
    requires
        timer.wf(),
    ensures
        forall|k: Seq<char>| #[trigger] timer.running().contains(k) ==> timer@.contains_key(k),
        forall|k: Seq<char>| #[trigger] timer.starts().contains_key(k) ==> timer@.contains_key(k),
{
}

/// The spans of start/stop segments given by their clock readings: segment `i`
/// starts at `reads[i].0` and stops at `reads[i].1`.
pub open spec fn segment_spans(reads: Seq<(Instant, Instant)>) -> Seq<u128> {
    reads.map_values(|r: (Instant, Instant)| nanos_between(r.0, r.1))
}

/// Totals, running stages and start instants of an enabled timer after stage
/// `name` is started and stopped once per pair of clock readings in `reads`.
pub open spec fn after_clock_segments(
    totals: Map<Seq<char>, u128>,
    running: Set<Seq<char>>,
    starts: Map<Seq<char>, Instant>,
    name: Seq<char>,
    reads: Seq<(Instant, Instant)>,
) -> (Map<Seq<char>, u128>, Set<Seq<char>>, Map<Seq<char>, Instant>)
    decreases reads.len(),
{
    if reads.len() == 0 {
        (totals, running, starts)
    } else {
        let (t, r, st) = after_clock_segments(totals, running, starts, name, reads.drop_last());
        let t1 = after_start(t, true, name);
        let r1 = running_after_start(r, true, name);
        let st1 = starts_after_start(st, true, name, reads.last().0);
        (
            after_stop(t1, r1, true, name, nanos_between(st1[name], reads.last().1)),
            running_after_stop(r1, true, name),
            st1,
        )
    }
}

proof fn lemma_clock_segments_are_segments(
    totals: Map<Seq<char>, u128>,
    running: Set<Seq<char>>,
    starts: Map<Seq<char>, Instant>,
    name: Seq<char>,
    reads: Seq<(Instant, Instant)>,
)
    ensures
        ({
            let c = after_clock_segments(totals, running, starts, name, reads);
            let g = after_segments(totals, running, name, segment_spans(reads));
            c.0 == g.0 && c.1 == g.1
        }),
    decreases reads.len(),
{
    if reads.len() > 0 {
        lemma_clock_segments_are_segments(totals, running, starts, name, reads.drop_last());
        assert(segment_spans(reads).drop_last() =~= segment_spans(reads.drop_last()));
        assert(segment_spans(reads).last() == nanos_between(reads.last().0, reads.last().1));
    }
}

/// A stage reads the sum of its start/stop segments: after any number of
/// segments, segment `i` started at clock reading `reads[i].0` and stopped at
/// `reads[i].1`, the stage holds what it had before plus the time of every
/// segment (saturating at `u128::MAX`; the exact sum when that fits), and
/// `elapsed_ms` reports its whole milliseconds. Every other stage is as it was.
pub proof fn lemma_clock_segments_accumulate(
    totals: Map<Seq<char>, u128>,
    running: Set<Seq<char>>,
    starts: Map<Seq<char>, Instant>,
    name: Seq<char>,
    reads: Seq<(Instant, Instant)>,
)
    requires
        reads.len() > 0,
    ensures
        ({
            let before = if totals.contains_key(name) { totals[name] } else { 0 };
            let c = after_clock_segments(totals, running, starts, name, reads);
            &&& c.0.contains_key(name)
            &&& c.0[name] == spans_added(before, segment_spans(reads))
            &&& before + sum_of(segment_spans(reads)) <= u128::MAX ==> c.0[name] == before + sum_of(
                segment_spans(reads),
            )
            &&& !c.1.contains(name)
            &&& forall|k: Seq<char>| k != name ==> (#[trigger] c.0.contains_key(k) == totals.contains_key(k))
            &&& forall|k: Seq<char>| k != name && totals.contains_key(k) ==> #[trigger] c.0[k] == totals[k]
        }),
{
    lemma_clock_segments_are_segments(totals, running, starts, name, reads);
    lemma_segments_accumulate(totals, running, name, segment_spans(reads));
}

/// A repeated start restarts the running segment: after `start` at `t0`, `start`
/// again at `t1` and `stop` at `t2`, the stage gains the time from `t1` to `t2`.
pub proof fn lemma_restart_measures_from_latest_start(
    totals: Map<Seq<char>, u128>,
    running: Set<Seq<char>>,
    starts: Map<Seq<char>, Instant>,
    name: Seq<char>,
    t0: Instant,
    t1: Instant,
    t2: Instant,
)
    ensures
        ({
            let before = if totals.contains_key(name) { totals[name] } else { 0 };
            let ta = after_start(after_start(totals, true, name), true, name);
            let ra = running_after_start(running_after_start(running, true, name), true, name);
            let sa = starts_after_start(starts_after_start(starts, true, name, t0), true, name, t1);
            after_stop(ta, ra, true, name, nanos_between(sa[name], t2))[name] == add_span_nanos(
                before,
                nanos_between(t1, t2),
            )
        }),
{
}

} // verus!
