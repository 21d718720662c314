//! Compute actors: one per topic binding, each owning its rolling-average
//! windows or its threshold edge state. Values are readings in thousandths of
//! a unit; times are milliseconds since the epoch.
use vstd::prelude::*;
use vstd::arithmetic::div_mod::{lemma_div_by_multiple, lemma_div_is_ordered};
use crate::cli::ProcessType;
use crate::kafka::{format_reading, reading_text};
use crate::text::same_text;

verus! {

/// How old, in milliseconds, a sample may be and still be used.
pub const FRESHNESS_MS: i64 = 3000;

/// A value on its way to or from an actor, tagged with the kind of process.
#[derive(Debug, Clone, Copy, PartialEq, Eq, Structural)]
pub enum ProcessData {
    RollingAverage(i64),
    Threshold(i64),
}

impl ProcessData {
    pub open spec fn value_spec(self) -> i64 {
        match self {
            ProcessData::RollingAverage(v) => v,
            ProcessData::Threshold(v) => v,
        }
    }

    /// A line naming the kind and giving the value, as in `Threshold: 1.5`.
    pub fn text(&self) -> (r: String)
        ensures
            r@ == (match self {
                ProcessData::RollingAverage(_) => "Rolling average: "@,
                ProcessData::Threshold(_) => "Threshold: "@,
            }) + reading_text(self.value_spec() as int),
    {
        let mut out = match self {
            ProcessData::RollingAverage(_) => "Rolling average: ".to_owned(),
            ProcessData::Threshold(_) => "Threshold: ".to_owned(),
        };
        let v = format_reading(self.value());
        out.append(v.as_str());
        out
    }

    pub fn value(&self) -> (r: i64)
        ensures
            r == self.value_spec(),
    {
        match self {
            ProcessData::RollingAverage(v) => *v,
            ProcessData::Threshold(v) => *v,
        }
    }
}

/// Messages into and out of an actor, each carrying an actor id.
#[derive(Debug, Clone, Copy, PartialEq, Eq, Structural)]
pub enum ActorMessage {
    /// A sample with its arrival time.
    FeedData(u128, ProcessData, i64),
    /// An edge of a threshold.
    Updated(u128, ProcessData),
    /// The mean of a retired window.
    Finished(u128, ProcessData),
}

/// A sample taken at `arrival` is still usable at `now`.
pub open spec fn fresh(arrival: i64, now: i64) -> bool {
    arrival >= now - FRESHNESS_MS
}

pub fn is_fresh(arrival: i64, now: i64) -> (r: bool)
    ensures
        r == fresh(arrival, now),
{
    (arrival as i128) >= (now as i128) - (FRESHNESS_MS as i128)
}

/// Largest magnitude of one sample, as a bound on a window's sum.
pub open spec fn sample_span() -> int {
    0x8000_0000_0000_0000
}

/// One averaging window: the sum and number of its samples, and when it began.
#[derive(Debug, Clone, Copy, PartialEq, Eq, Structural)]
pub struct Window {
    pub sum: i128,
    pub count: u64,
    pub started_at: i64,
}

/// Rounds towards zero, as integer division does.
pub open spec fn trunc_div(a: int, b: int) -> int {
    if a >= 0 {
        a / b
    } else {
        -((-a) / b)
    }
}

/// A window that has taken `v`; one that holds `u64::MAX` samples is full and
/// stays as it is.
pub open spec fn fed(w: Window, v: i64) -> Window {
    if w.count == u64::MAX {
        w
    } else {
        Window { sum: (w.sum + v) as i128, count: (w.count + 1) as u64, started_at: w.started_at }
    }
}

proof fn lemma_fed_wf(w: Window, v: i64)
    requires
        w.wf(),
    ensures
        fed(w, v).wf(),
        w.count < u64::MAX ==> fed(w, v).sum == w.sum + v && fed(w, v).count == w.count + 1,
{
    if w.count < u64::MAX {
        assert((w.count + 1) * sample_span() == w.count * sample_span() + sample_span())
            by (nonlinear_arith);
        assert((w.count + 1) * (sample_span() - 1) == w.count * (sample_span() - 1)
            + sample_span() - 1) by (nonlinear_arith);
        assert(w.count * sample_span() <= 0xffff_ffff_ffff_fffe * sample_span())
            by (nonlinear_arith)
            requires
                w.count <= 0xffff_ffff_ffff_fffe,
        ;
        assert(w.count * (sample_span() - 1) <= w.count * sample_span()) by (nonlinear_arith);
        assert(0xffff_ffff_ffff_fffe * sample_span() == 0x7fff_ffff_ffff_ffff_0000_0000_0000_0000);
        assert(w.sum + v <= i128::MAX);
        assert(w.sum + v >= i128::MIN);
    }
}

impl Window {
    pub open spec fn wf(self) -> bool {
        -(self.count * sample_span()) <= self.sum <= self.count * (sample_span() - 1)
    }

    /// The mean of the window's samples, zero while it has none.
    pub open spec fn mean_spec(self) -> int {
        if self.count == 0 {
            0
        } else {
            trunc_div(self.sum as int, self.count as int)
        }
    }

    pub fn empty(started_at: i64) -> (r: Window)
        ensures
            r == (Window { sum: 0, count: 0, started_at }),
            r.wf(),
    {
        Window { sum: 0, count: 0, started_at }
    }

    pub fn add(&mut self, v: i64)
        requires
            old(self).wf(),
        ensures
            *final(self) == fed(*old(self), v),
            final(self).wf(),
    {
        if self.count < u64::MAX {
            proof {
                lemma_fed_wf(*self, v);
            }
            self.sum = self.sum + v as i128;
            self.count = self.count + 1;
        }
    }

    pub fn mean(&self) -> (r: i64)
        requires
            self.wf(),
        ensures
            r == self.mean_spec(),
    {
        if self.count == 0 {
            return 0;
        }
        let c = self.count as u128;
        proof {
            lemma_div_by_multiple(sample_span(), self.count as int);
            lemma_div_by_multiple(sample_span() - 1, self.count as int);
            assert(self.count * sample_span() == sample_span() * self.count) by (nonlinear_arith);
            assert(self.count * (sample_span() - 1) == (sample_span() - 1) * self.count)
                by (nonlinear_arith);
        }
        if self.sum >= 0 {
            proof {
                lemma_div_is_ordered(self.sum as int, (sample_span() - 1) * self.count, self.count as int);
            }
            ((self.sum as u128) / c) as i64
        } else {
            let a = (-self.sum) as u128;
            proof {
                lemma_div_is_ordered(-self.sum, sample_span() * self.count, self.count as int);
            }
            let q = a / c;
            (-(q as i128)) as i64
        }
    }
}

/// Whether a threshold actor alerts after seeing `v` against `baseline`.
pub open spec fn alert_after(baseline: u64, v: i64) -> bool {
    v >= baseline * 1000
}

/// What a threshold actor emits on `v`: the value itself when it crosses the
/// baseline upwards, zero when it falls back below it, nothing otherwise.
pub open spec fn edge_emission(alerting: bool, baseline: u64, v: i64) -> Option<i64> {
    if alert_after(baseline, v) && !alerting {
        Some(v)
    } else if !alert_after(baseline, v) && alerting {
        Some(0)
    } else {
        None
    }
}

/// Milliseconds that `lifespan` seconds last.
pub open spec fn span_ms(lifespan: u64) -> int {
    lifespan * 1000
}

/// More than `lifespan` seconds lie between `since` and `now`.
pub open spec fn elapsed(since: i64, now: i64, lifespan: u64) -> bool {
    now - since > span_ms(lifespan)
}

fn has_elapsed(since: i64, now: i64, lifespan: u64) -> (r: bool)
    ensures
        r == elapsed(since, now, lifespan),
{
    (now as i128) - (since as i128) > (lifespan as i128) * 1000
}

/// An actor's state. `lifespan` is the window length in seconds, zero for
/// actors that keep no windows.
#[derive(Debug, Clone)]
pub struct ComputeActor {
    pub id: u128,
    pub lifespan: u64,
    pub process_type: ProcessType,
    pub alerting: bool,
    pub result: ProcessData,
    pub windows: Vec<Window>,
    pub rolled_at: i64,
}

/// What a `ComputeActor` holds, with its windows as a sequence.
pub struct ActorState {
    pub id: u128,
    pub lifespan: u64,
    pub process_type: ProcessType,
    pub alerting: bool,
    pub result: ProcessData,
    pub windows: Seq<Window>,
    pub rolled_at: i64,
}

impl View for ComputeActor {
    type V = ActorState;

    open spec fn view(&self) -> ActorState {
        ActorState {
            id: self.id,
            lifespan: self.lifespan,
            process_type: self.process_type,
            alerting: self.alerting,
            result: self.result,
            windows: self.windows@,
            rolled_at: self.rolled_at,
        }
    }
}

pub open spec fn kind_matches(p: ProcessType, d: ProcessData) -> bool {
    match (p, d) {
        (ProcessType::RollingAverage(_), ProcessData::RollingAverage(_)) => true,
        (ProcessType::Threshold(_), ProcessData::Threshold(_)) => true,
        _ => false,
    }
}

/// A rolling average over `w` seconds keeps windows of `w > 0` seconds.
pub open spec fn window_length_is(p: ProcessType, lifespan: u64) -> bool {
    match p {
        ProcessType::RollingAverage(w) => w > 0 && lifespan == w,
        ProcessType::Threshold(_) => true,
    }
}

impl ActorState {
    pub open spec fn wf(self) -> bool {
        &&& self.windows.len() >= 1
        &&& forall|i: int| 0 <= i < self.windows.len() ==> (#[trigger] self.windows[i]).wf()
        &&& window_length_is(self.process_type, self.lifespan)
        &&& kind_matches(self.process_type, self.result)
    }
}

/// The oldest of `ws` is due to retire: it has lived longer than the window
/// length and another window stays open.
pub open spec fn retire_due(ws: Seq<Window>, lifespan: u64, now: i64) -> bool {
    ws.len() > 1 && elapsed(ws[0].started_at, now, lifespan)
}

/// One sample taken by an actor: a rolling average feeds it to every open
/// window; a threshold compares it with its baseline and reports an edge. A
/// sample of the other kind is ignored.
pub open spec fn compute_step(s: ActorState, data: ProcessData) -> (ActorState, Option<ActorMessage>) {
    match (s.process_type, data) {
        (ProcessType::RollingAverage(_), ProcessData::RollingAverage(v)) => (
            ActorState { windows: s.windows.map_values(|w: Window| fed(w, v)), ..s },
            None,
        ),
        (ProcessType::Threshold(b), ProcessData::Threshold(v)) => match edge_emission(s.alerting, b, v) {
            Some(e) => (
                ActorState { alerting: alert_after(b, v), result: ProcessData::Threshold(e), ..s },
                Some(ActorMessage::Updated(s.id, ProcessData::Threshold(e))),
            ),
            None => (ActorState { alerting: alert_after(b, v), ..s }, None),
        },
        _ => (s, None),
    }
}

/// A sample that arrived at `arrival`, seen at `now`: a stale one changes nothing.
pub open spec fn feed_step(s: ActorState, data: ProcessData, arrival: i64, now: i64) -> (
    ActorState,
    Option<ActorMessage>,
) {
    if fresh(arrival, now) {
        compute_step(s, data)
    } else {
        (s, None)
    }
}

/// The windows of a rolling average after a new one has been opened, if the
/// last one was opened more than `lifespan` seconds before `now`.
pub open spec fn rolled(s: ActorState, now: i64) -> Seq<Window> {
    if elapsed(s.rolled_at, now, s.lifespan) {
        s.windows.push(Window { sum: 0, count: 0, started_at: now })
    } else {
        s.windows
    }
}

/// An actor taking `msg`: a sample is fed to it, anything else is ignored.
pub open spec fn received(s: ActorState, msg: Option<ActorMessage>, now: i64) -> (ActorState, Option<ActorMessage>) {
    match msg {
        Some(ActorMessage::FeedData(_, data, arrival)) => feed_step(s, data, arrival, now),
        _ => (s, None),
    }
}

pub open spec fn option_seq(m: Option<ActorMessage>) -> Seq<ActorMessage> {
    match m {
        Some(x) => seq![x],
        None => Seq::empty(),
    }
}

/// One maintenance pass of a rolling average: it opens a window if one is
/// due, then retires the oldest one if it is due and reports its mean. A
/// threshold actor is left as it is.
pub open spec fn maintain_step(s: ActorState, now: i64) -> (ActorState, Option<ActorMessage>) {
    if !(s.process_type is RollingAverage) {
        (s, None)
    } else {
        let ws = rolled(s, now);
        let at = if elapsed(s.rolled_at, now, s.lifespan) { now } else { s.rolled_at };
        if retire_due(ws, s.lifespan, now) {
            let m = ws[0].mean_spec() as i64;
            (
                ActorState { windows: ws.skip(1), rolled_at: at, result: ProcessData::RollingAverage(m), ..s },
                Some(ActorMessage::Finished(s.id, ProcessData::RollingAverage(m))),
            )
        } else {
            (ActorState { windows: ws, rolled_at: at, ..s }, None)
        }
    }
}

/// A rolling average over `w` seconds retires a window only when that
/// window, its oldest, has lived longer than `w` seconds and another window
/// stays open; what it reports is that window's mean.
pub proof fn lemma_retirement_rule(s: ActorState, now: i64)
    requires
        s.wf(),
    ensures
        maintain_step(s, now).1 is Some ==> {
            let ws = rolled(s, now);
            &&& s.process_type == ProcessType::RollingAverage(s.lifespan)
            &&& ws.len() > 1
            &&& now - ws[0].started_at > s.lifespan * 1000
            &&& maintain_step(s, now).0.windows == ws.skip(1)
            &&& maintain_step(s, now).1 == Some(
                ActorMessage::Finished(s.id, ProcessData::RollingAverage(ws[0].mean_spec() as i64)),
            )
        },
{
}

proof fn lemma_compute_wf(s: ActorState, data: ProcessData)
    requires
        s.wf(),
    ensures
        compute_step(s, data).0.wf(),
{
    match (s.process_type, data) {
        (ProcessType::RollingAverage(_), ProcessData::RollingAverage(v)) => {
            let ws = compute_step(s, data).0.windows;
            assert forall|j: int| 0 <= j < ws.len() implies (#[trigger] ws[j]).wf() by {
                lemma_fed_wf(s.windows[j], v);
            }
        },
        _ => {},
    }
}

impl ComputeActor {
    pub open spec fn wf(self) -> bool {
        self@.wf()
    }

    /// A fresh actor with one empty window opened at `now`.
    pub fn new(id: u128, lifespan: u64, process_type: ProcessType, now: i64) -> (r: ComputeActor)
        requires
            window_length_is(process_type, lifespan),
        ensures
            r.wf(),
            r.id == id,
            r.lifespan == lifespan,
            r.process_type == process_type,
            !r.alerting,
            r.result.value_spec() == 0,
            r.windows@ == seq![Window { sum: 0, count: 0, started_at: now }],
            r.rolled_at == now,
    {
        let result = match process_type {
            ProcessType::RollingAverage(_) => ProcessData::RollingAverage(0),
            ProcessType::Threshold(_) => ProcessData::Threshold(0),
        };
        let mut windows: Vec<Window> = Vec::new();
        windows.push(Window::empty(now));
        ComputeActor { id, lifespan, process_type, alerting: false, result, windows, rolled_at: now }
    }

    /// Takes one sample (see `compute_step`).
    pub fn compute(&mut self, data: ProcessData) -> (r: Option<ActorMessage>)
        requires
            old(self).wf(),
        ensures
            final(self).wf(),
            (final(self)@, r) == compute_step(old(self)@, data),
    {
        proof {
            lemma_compute_wf(old(self)@, data);
        }
        match (self.process_type, data) {
            (ProcessType::RollingAverage(_), ProcessData::RollingAverage(v)) => {
                let ghost before = self.windows@;
                let n = self.windows.len();
                let mut i: usize = 0;
                while i < n
                    invariant
                        n == before.len(),
                        self.windows@.len() == n,
                        self.id == old(self).id,
                        self.lifespan == old(self).lifespan,
                        self.process_type == old(self).process_type,
                        self.rolled_at == old(self).rolled_at,
                        self.alerting == old(self).alerting,
                        self.result == old(self).result,
                        old(self).wf(),
                        before == old(self).windows@,
                        i <= n,
                        forall|j: int| 0 <= j < i ==> self.windows@[j] == fed(before[j], v),
                        forall|j: int| i <= j < n ==> self.windows@[j] == before[j],
                    decreases n - i,
                {
                    let mut w = self.windows[i];
                    assert(before[i as int].wf());
                    w.add(v);
                    self.windows.set(i, w);
                    i += 1;
                }
                assert(self.windows@ =~= before.map_values(|w: Window| fed(w, v)));
                None
            },
            (ProcessType::Threshold(b), ProcessData::Threshold(v)) => {
                let above = (v as i128) >= (b as i128) * 1000;
                if above && !self.alerting {
                    self.alerting = true;
                    self.result = ProcessData::Threshold(v);
                    Some(ActorMessage::Updated(self.id, ProcessData::Threshold(v)))
                } else if !above && self.alerting {
                    self.alerting = false;
                    self.result = ProcessData::Threshold(0);
                    Some(ActorMessage::Updated(self.id, ProcessData::Threshold(0)))
                } else {
                    self.alerting = above;
                    None
                }
            },
            _ => None,
        }
    }

    /// Takes a sample that arrived at `arrival`; a stale one changes nothing.
    pub fn feed(&mut self, data: ProcessData, arrival: i64, now: i64) -> (r: Option<ActorMessage>)
        requires
            old(self).wf(),
        ensures
            final(self).wf(),
            (final(self)@, r) == feed_step(old(self)@, data, arrival, now),
    {
        if !is_fresh(arrival, now) {
            return None;
        }
        self.compute(data)
    }

    /// Retires the oldest window and reports its mean.
    pub fn send_last_will(&mut self) -> (r: ActorMessage)
        requires
            old(self).wf(),
            old(self).process_type is RollingAverage,
            old(self).windows@.len() > 1,
        ensures
            final(self).wf(),
            final(self)@ == (ActorState {
                windows: old(self).windows@.skip(1),
                result: ProcessData::RollingAverage(old(self).windows@[0].mean_spec() as i64),
                ..old(self)@
            }),
            r == ActorMessage::Finished(
                old(self).id,
                ProcessData::RollingAverage(old(self).windows@[0].mean_spec() as i64),
            ),
    {
        let w = self.windows.remove(0);
        assert(self.windows@ =~= old(self).windows@.skip(1));
        assert(old(self).windows@[0].wf());
        let m = w.mean();
        self.result = ProcessData::RollingAverage(m);
        assert forall|i: int| 0 <= i < self.windows@.len() implies (#[trigger] self.windows@[i]).wf() by {
            assert(self.windows@[i] == old(self).windows@[i + 1]);
        }
        ActorMessage::Finished(self.id, ProcessData::RollingAverage(m))
    }

    /// One maintenance pass (see `maintain_step`).
    pub fn maintain(&mut self, now: i64) -> (r: Option<ActorMessage>)
        requires
            old(self).wf(),
        ensures
            final(self).wf(),
            (final(self)@, r) == maintain_step(old(self)@, now),
    {
        let ra = match self.process_type {
            ProcessType::RollingAverage(_) => true,
            ProcessType::Threshold(_) => false,
        };
        if !ra {
            return None;
        }
        if has_elapsed(self.rolled_at, now, self.lifespan) {
            self.windows.push(Window::empty(now));
            self.rolled_at = now;
        }
        assert(self.windows@ == rolled(old(self)@, now));
        assert(self.wf()) by {
            assert forall|i: int| 0 <= i < self.windows@.len() implies (#[trigger] self.windows@[i]).wf() by {
                if i < old(self).windows@.len() {
                    assert(self.windows@[i] == old(self).windows@[i]);
                }
            }
        }
        if self.windows.len() > 1 && has_elapsed(self.windows[0].started_at, now, self.lifespan) {
            Some(self.send_last_will())
        } else {
            None
        }
    }

    /// One cycle of the actor: takes `msg` if it is a sample, then runs a
    /// maintenance pass; returns what it emits, in that order.
    pub fn receive_message(&mut self, msg: Option<ActorMessage>, now: i64) -> (r: Vec<ActorMessage>)
        requires
            old(self).wf(),
        ensures
            final(self).wf(),
            ({
                let (s1, m1) = received(old(self)@, msg, now);
                let (s2, m2) = maintain_step(s1, now);
                &&& final(self)@ == s2
                &&& r@ == option_seq(m1) + option_seq(m2)
            }),
    {
        let mut out: Vec<ActorMessage> = Vec::new();
        match msg {
            Some(ActorMessage::FeedData(_, data, arrival)) => {
                match self.feed(data, arrival, now) {
                    Some(m) => out.push(m),
                    None => {},
                }
            },
            _ => {},
        }
        let ghost mid = out@;
        match self.maintain(now) {
            Some(m) => out.push(m),
            None => {},
        }
        assert(out@ =~= mid + option_seq(maintain_step(received(old(self)@, msg, now).0, now).1));
        out
    }

    /// The value the actor last reported.
    pub fn fetch(&self) -> (r: i64)
        ensures
            r == self.result.value_spec(),
    {
        self.result.value()
    }
}


/// Sum of a sequence of samples.
pub open spec fn sum_of(vs: Seq<i64>) -> int
    decreases vs.len(),
{
    if vs.len() == 0 {
        0
    } else {
        sum_of(vs.drop_last()) + vs.last()
    }
}

/// A window after taking the samples `vs` in order.
pub open spec fn fed_all(w: Window, vs: Seq<i64>) -> Window
    decreases vs.len(),
{
    if vs.len() == 0 {
        w
    } else {
        fed(fed_all(w, vs.drop_last()), vs.last())
    }
}

/// A window opened empty that has taken `v1..vn` holds their sum and count,
/// so its mean is `(v1 + ... + vn) / n`.
pub proof fn lemma_running_mean(started_at: i64, vs: Seq<i64>)
    requires
        vs.len() < u64::MAX,
    ensures
        fed_all(Window { sum: 0, count: 0, started_at }, vs).wf(),
        fed_all(Window { sum: 0, count: 0, started_at }, vs).sum == sum_of(vs),
        fed_all(Window { sum: 0, count: 0, started_at }, vs).count == vs.len(),
        vs.len() > 0 ==> fed_all(Window { sum: 0, count: 0, started_at }, vs).mean_spec()
            == trunc_div(sum_of(vs), vs.len() as int),
    decreases vs.len(),
{
    if vs.len() > 0 {
        lemma_running_mean(started_at, vs.drop_last());
        lemma_fed_wf(fed_all(Window { sum: 0, count: 0, started_at }, vs.drop_last()), vs.last());
    }
}

/// The edges that a threshold actor, alerting or not, emits on the samples
/// `vs`: for each, whether it is an alert, and the value carried.
pub open spec fn edge_trace(alerting: bool, baseline: u64, vs: Seq<i64>) -> Seq<(bool, i64)>
    decreases vs.len(),
{
    if vs.len() == 0 {
        Seq::empty()
    } else {
        let next = alert_after(baseline, vs[0]);
        match edge_emission(alerting, baseline, vs[0]) {
            Some(e) => seq![(next, e)] + edge_trace(next, baseline, vs.skip(1)),
            None => edge_trace(next, baseline, vs.skip(1)),
        }
    }
}

/// A threshold actor's edges alternate: starting from normal, the first is an
/// alert, the next a recovery carrying zero, and so on; never two alerts or
/// two recoveries in a row.
pub proof fn lemma_edges_alternate(alerting: bool, baseline: u64, vs: Seq<i64>)
    ensures
        forall|k: int| 0 <= k < edge_trace(alerting, baseline, vs).len() ==> {
            let e = #[trigger] edge_trace(alerting, baseline, vs)[k];
            &&& e.0 == ((k % 2 == 0) != alerting)
            &&& !e.0 ==> e.1 == 0
        },
    decreases vs.len(),
{
    if vs.len() > 0 {
        let next = alert_after(baseline, vs[0]);
        lemma_edges_alternate(next, baseline, vs.skip(1));
        let rest = edge_trace(next, baseline, vs.skip(1));
        match edge_emission(alerting, baseline, vs[0]) {
            Some(e) => {
                let t = seq![(next, e)] + rest;
                assert forall|k: int| 0 <= k < t.len() implies {
                    let x = #[trigger] t[k];
                    &&& x.0 == ((k % 2 == 0) != alerting)
                    &&& !x.0 ==> x.1 == 0
                } by {
                    if k > 0 {
                        assert(t[k] == rest[k - 1]);
                    }
                }
            },
            None => {},
        }
    }
}


/// An actor after `compute` has been called on the rolling-average samples
/// `vs`, in order.
pub open spec fn averaged_all(s: ActorState, vs: Seq<i64>) -> ActorState
    decreases vs.len(),
{
    if vs.len() == 0 {
        s
    } else {
        compute_step(averaged_all(s, vs.drop_last()), ProcessData::RollingAverage(vs.last())).0
    }
}

proof fn lemma_averaged_windows(s: ActorState, vs: Seq<i64>)
    requires
        s.process_type is RollingAverage,
    ensures
        averaged_all(s, vs).process_type == s.process_type,
        averaged_all(s, vs).windows.len() == s.windows.len(),
        forall|k: int| 0 <= k < s.windows.len() ==> #[trigger] averaged_all(s, vs).windows[k] == fed_all(s.windows[k], vs),
    decreases vs.len(),
{
    if vs.len() > 0 {
        lemma_averaged_windows(s, vs.drop_last());
    }
}

/// Calling `compute` on the samples `v1..vn` of a rolling average leaves each
/// window that was empty holding their sum and count, so its mean is
/// `(v1 + ... + vn) / n`.
pub proof fn lemma_actor_running_mean(s: ActorState, vs: Seq<i64>, k: int)
    requires
        s.process_type is RollingAverage,
        0 <= k < s.windows.len(),
        s.windows[k].sum == 0,
        s.windows[k].count == 0,
        vs.len() < u64::MAX,
    ensures
        averaged_all(s, vs).windows[k].sum == sum_of(vs),
        averaged_all(s, vs).windows[k].count == vs.len(),
        vs.len() > 0 ==> averaged_all(s, vs).windows[k].mean_spec() == trunc_div(sum_of(vs), vs.len() as int),
{
    lemma_averaged_windows(s, vs);
    let w = s.windows[k];
    assert(w == Window { sum: 0, count: 0, started_at: w.started_at });
    lemma_running_mean(w.started_at, vs);
}

/// An actor after `compute` has been called on the threshold samples `vs`,
/// in order, and the messages those calls returned.
pub open spec fn thresholded_all(s: ActorState, vs: Seq<i64>) -> (ActorState, Seq<ActorMessage>)
    decreases vs.len(),
{
    if vs.len() == 0 {
        (s, Seq::empty())
    } else {
        let (s1, m) = compute_step(s, ProcessData::Threshold(vs[0]));
        let (s2, ms) = thresholded_all(s1, vs.skip(1));
        (s2, option_seq(m) + ms)
    }
}

/// Calling `compute` on threshold samples `vs` returns exactly the edges of
/// `edge_trace`: the `k`-th message is an alert (carrying its sample, at or
/// above the baseline) when `k` is even for an actor that started normal,
/// and a recovery carrying zero otherwise; never two alerts in a row.
pub proof fn lemma_threshold_calls(s: ActorState, b: u64, vs: Seq<i64>)
    requires
        s.process_type == ProcessType::Threshold(b),
    ensures
        thresholded_all(s, vs).1.len() == edge_trace(s.alerting, b, vs).len(),
        forall|k: int| 0 <= k < thresholded_all(s, vs).1.len() ==> {
            let e = edge_trace(s.alerting, b, vs)[k];
            &&& #[trigger] thresholded_all(s, vs).1[k] == ActorMessage::Updated(s.id, ProcessData::Threshold(e.1))
            &&& e.0 == ((k % 2 == 0) != s.alerting)
            &&& e.0 ==> alert_after(b, e.1)
            &&& !e.0 ==> e.1 == 0
        },
    decreases vs.len(),
{
    lemma_edges_alternate(s.alerting, b, vs);
    if vs.len() > 0 {
        let (s1, m) = compute_step(s, ProcessData::Threshold(vs[0]));
        lemma_threshold_calls(s1, b, vs.skip(1));
        let ms = thresholded_all(s1, vs.skip(1)).1;
        let all = thresholded_all(s, vs).1;
        let rest = edge_trace(s1.alerting, b, vs.skip(1));
        let tr = edge_trace(s.alerting, b, vs);
        assert forall|k: int| 0 <= k < all.len() implies {
            let e = tr[k];
            &&& #[trigger] all[k] == ActorMessage::Updated(s.id, ProcessData::Threshold(e.1))
            &&& e.0 == ((k % 2 == 0) != s.alerting)
            &&& e.0 ==> alert_after(b, e.1)
            &&& !e.0 ==> e.1 == 0
        } by {
            match m {
                Some(x) => {
                    if k > 0 {
                        assert(all[k] == ms[k - 1]);
                        assert(tr[k] == rest[k - 1]);
                    }
                },
                None => {
                    assert(all[k] == ms[k]);
                    assert(tr[k] == rest[k]);
                },
            }
        }
    }
}

/// The registry: every live actor with the topic it was created for. Ids are
/// unique.
#[derive(Debug, Clone)]
pub struct ManagerActor {
    pub actors: Vec<(String, ComputeActor)>,
}

impl View for ManagerActor {
    type V = Seq<(Seq<char>, ActorState)>;

    open spec fn view(&self) -> Seq<(Seq<char>, ActorState)> {
        self.actors@.map_values(|e: (String, ComputeActor)| (e.0@, e.1@))
    }
}

/// Ids of a registry's actors, in order.
pub open spec fn ids_of(es: Seq<(Seq<char>, ActorState)>) -> Seq<u128> {
    es.map_values(|e: (Seq<char>, ActorState)| e.1.id)
}

/// Index of the first actor at or after `from` with the given id, or `es.len()`.
pub open spec fn position_from(es: Seq<(Seq<char>, ActorState)>, id: u128, from: nat) -> nat
    decreases es.len() - from,
{
    if from >= es.len() || es[from as int].1.id == id {
        from
    } else {
        position_from(es, id, from + 1)
    }
}

/// An actor of `topic` takes the sample; the others are left as they are.
pub open spec fn fed_entry(
    e: (Seq<char>, ActorState),
    topic: Seq<char>,
    data: ProcessData,
    arrival: i64,
    now: i64,
) -> ((Seq<char>, ActorState), Option<ActorMessage>) {
    if e.0 == topic {
        let (s, m) = feed_step(e.1, data, arrival, now);
        ((e.0, s), m)
    } else {
        (e, None)
    }
}

/// What the actors of `es` emit, in registry order, when a sample of `topic` arrives.
pub open spec fn routed(
    es: Seq<(Seq<char>, ActorState)>,
    topic: Seq<char>,
    data: ProcessData,
    arrival: i64,
    now: i64,
) -> Seq<ActorMessage>
    decreases es.len(),
{
    if es.len() == 0 {
        Seq::empty()
    } else {
        let prev = routed(es.drop_last(), topic, data, arrival, now);
        match fed_entry(es.last(), topic, data, arrival, now).1 {
            Some(m) => prev.push(m),
            None => prev,
        }
    }
}

/// What the actors of `es` emit, in registry order, on a maintenance pass.
pub open spec fn maintained(es: Seq<(Seq<char>, ActorState)>, now: i64) -> Seq<ActorMessage>
    decreases es.len(),
{
    if es.len() == 0 {
        Seq::empty()
    } else {
        let prev = maintained(es.drop_last(), now);
        match maintain_step(es.last().1, now).1 {
            Some(m) => prev.push(m),
            None => prev,
        }
    }
}

impl ManagerActor {
    pub open spec fn wf(self) -> bool {
        &&& forall|i: int| 0 <= i < self.actors@.len() ==> (#[trigger] self.actors@[i]).1.wf()
        &&& forall|i: int, j: int|
            0 <= i < j < self.actors@.len() ==> (#[trigger] self.actors@[i]).1.id != (#[trigger] self.actors@[j]).1.id
    }

    pub fn new() -> (r: ManagerActor)
        ensures
            r.wf(),
            r@ == Seq::<(Seq<char>, ActorState)>::empty(),
    {
        let r = ManagerActor { actors: Vec::new() };
        assert(r@ =~= Seq::<(Seq<char>, ActorState)>::empty());
        r
    }

    /// Registers `actor` for `topic`, unless an actor with its id is already
    /// registered; says whether it was added.
    pub fn add_actor(&mut self, topic: String, actor: ComputeActor) -> (r: bool)
        requires
            old(self).wf(),
            actor.wf(),
        ensures
            final(self).wf(),
            r == !ids_of(old(self)@).contains(actor.id),
            r ==> final(self)@ == old(self)@.push((topic@, actor@)),
            !r ==> final(self)@ == old(self)@,
    {
        let n = self.actors.len();
        let mut i: usize = 0;
        while i < n
            invariant
                n == self.actors@.len(),
                self.actors@ == old(self).actors@,
                old(self).wf(),
                i <= n,
                forall|j: int| 0 <= j < i ==> self.actors@[j].1.id != actor.id,
            decreases n - i,
        {
            if self.actors[i].1.id == actor.id {
                assert(ids_of(self@)[i as int] == actor.id);
                return false;
            }
            i += 1;
        }
        assert(!ids_of(self@).contains(actor.id)) by {
            if ids_of(self@).contains(actor.id) {
                let k = choose|k: int| 0 <= k < ids_of(self@).len() && ids_of(self@)[k] == actor.id;
                assert(self.actors@[k].1.id == actor.id);
            }
        }
        self.actors.push((topic, actor));
        assert(self@ =~= old(self)@.push((topic@, actor@)));
        true
    }

    /// Removes the actor with the given id, if there is one.
    pub fn remove_actor(&mut self, id: u128)
        requires
            old(self).wf(),
        ensures
            final(self).wf(),
            ({
                let k = position_from(old(self)@, id, 0);
                if k < old(self)@.len() {
                    final(self)@ == old(self)@.remove(k as int)
                } else {
                    final(self)@ == old(self)@
                }
            }),
    {
        let n = self.actors.len();
        let mut i: usize = 0;
        while i < n
            invariant
                n == self.actors@.len(),
                self.actors@ == old(self).actors@,
                self.wf(),
                i <= n,
                position_from(self@, id, i as nat) == position_from(self@, id, 0),
            decreases n - i,
        {
            if self.actors[i].1.id == id {
                let _ = self.actors.remove(i);
                assert(self@ =~= old(self)@.remove(i as int));
                assert forall|a: int, b: int| 0 <= a < b < self.actors@.len() implies
                    (#[trigger] self.actors@[a]).1.id != (#[trigger] self.actors@[b]).1.id by {
                    let a2 = if a < i { a } else { a + 1 };
                    let b2 = if b < i { b } else { b + 1 };
                    assert(self.actors@[a] == old(self).actors@[a2]);
                    assert(self.actors@[b] == old(self).actors@[b2]);
                }
                assert forall|a: int| 0 <= a < self.actors@.len() implies (#[trigger] self.actors@[a]).1.wf() by {
                    let a2 = if a < i { a } else { a + 1 };
                    assert(self.actors@[a] == old(self).actors@[a2]);
                }
                return;
            }
            i += 1;
        }
    }

    /// Ids of the registered actors, in registration order.
    pub fn get_actors(&self) -> (r: Vec<u128>)
        ensures
            r@ == ids_of(self@),
    {
        let mut r: Vec<u128> = Vec::new();
        let mut i: usize = 0;
        while i < self.actors.len()
            invariant
                i <= self.actors@.len(),
                r@ == ids_of(self@).take(i as int),
            decreases self.actors@.len() - i,
        {
            r.push(self.actors[i].1.id);
            assert(r@ =~= ids_of(self@).take(i + 1));
            i += 1;
        }
        assert(ids_of(self@).take(i as int) =~= ids_of(self@));
        r
    }
    /// Delivers a sample of `topic` to the actors created for that topic, and
    /// returns what they emit.
    pub fn feed_topic(&mut self, topic: &str, data: ProcessData, arrival: i64, now: i64) -> (r: Vec<ActorMessage>)
        requires
            old(self).wf(),
        ensures
            final(self).wf(),
            final(self)@ == old(self)@.map_values(
                |e: (Seq<char>, ActorState)| fed_entry(e, topic@, data, arrival, now).0,
            ),
            r@ == routed(old(self)@, topic@, data, arrival, now),
    {
        let n = self.actors.len();
        let mut out: Vec<ActorMessage> = Vec::new();
        let mut i: usize = 0;
        while i < n
            invariant
                n == self.actors@.len(),
                n == old(self).actors@.len(),
                i <= n,
                self.wf(),
                forall|j: int| 0 <= j < i ==> #[trigger] self@[j] == fed_entry(old(self)@[j], topic@, data, arrival, now).0,
                forall|j: int| i <= j < n ==> #[trigger] self.actors@[j] == old(self).actors@[j],
                out@ == routed(old(self)@.take(i as int), topic@, data, arrival, now),
            decreases n - i,
        {
            let ghost before = self.actors@;
            let ghost before_view = self@;
            let (t, mut a) = self.actors.remove(i);
            assert(a.wf()) by {
                assert(before[i as int].1.wf());
            }
            let mut m: Option<ActorMessage> = None;
            if same_text(t.as_str(), topic) {
                m = a.feed(data, arrival, now);
            }
            self.actors.insert(i, (t, a));
            assert(old(self)@.take(i + 1).drop_last() =~= old(self)@.take(i as int));
            assert(old(self)@[i as int] == (before[i as int].0@, before[i as int].1@));
            assert(self.actors@ =~= before.update(i as int, (t, a)));
            match m {
                Some(msg) => out.push(msg),
                None => {},
            }
            proof {
                assert forall|j: int| 0 <= j < i implies #[trigger] self@[j] == before_view[j] by {
                    assert(self.actors@[j] == before[j]);
                }
                assert forall|x: int, y: int| 0 <= x < y < self.actors@.len() implies
                    (#[trigger] self.actors@[x]).1.id != (#[trigger] self.actors@[y]).1.id by {
                    assert(before[x].1.id == self.actors@[x].1.id);
                    assert(before[y].1.id == self.actors@[y].1.id);
                }
                assert forall|x: int| 0 <= x < self.actors@.len() implies (#[trigger] self.actors@[x]).1.wf() by {
                    if x != i {
                        assert(self.actors@[x] == before[x]);
                    }
                }
            }
            i += 1;
        }
        assert(self@ =~= old(self)@.map_values(
            |e: (Seq<char>, ActorState)| fed_entry(e, topic@, data, arrival, now).0,
        ));
        assert(old(self)@.take(n as int) =~= old(self)@);
        out
    }

    /// Runs a maintenance pass on every actor, and returns what they emit.
    pub fn maintain_all(&mut self, now: i64) -> (r: Vec<ActorMessage>)
        requires
            old(self).wf(),
        ensures
            final(self).wf(),
            final(self)@ == old(self)@.map_values(
                |e: (Seq<char>, ActorState)| (e.0, maintain_step(e.1, now).0),
            ),
            r@ == maintained(old(self)@, now),
    {
        let n = self.actors.len();
        let mut out: Vec<ActorMessage> = Vec::new();
        let mut i: usize = 0;
        while i < n
            invariant
                n == self.actors@.len(),
                n == old(self).actors@.len(),
                i <= n,
                self.wf(),
                forall|j: int| 0 <= j < i ==> #[trigger] self@[j] == (old(self)@[j].0, maintain_step(old(self)@[j].1, now).0),
                forall|j: int| i <= j < n ==> #[trigger] self.actors@[j] == old(self).actors@[j],
                out@ == maintained(old(self)@.take(i as int), now),
            decreases n - i,
        {
            let ghost before = self.actors@;
            let ghost before_view = self@;
            let (t, mut a) = self.actors.remove(i);
            assert(a.wf()) by {
                assert(before[i as int].1.wf());
            }
            let m = a.maintain(now);
            self.actors.insert(i, (t, a));
            assert(old(self)@.take(i + 1).drop_last() =~= old(self)@.take(i as int));
            assert(old(self)@[i as int] == (before[i as int].0@, before[i as int].1@));
            assert(self.actors@ =~= before.update(i as int, (t, a)));
            match m {
                Some(msg) => out.push(msg),
                None => {},
            }
            proof {
                assert forall|j: int| 0 <= j < i implies #[trigger] self@[j] == before_view[j] by {
                    assert(self.actors@[j] == before[j]);
                }
                assert forall|x: int, y: int| 0 <= x < y < self.actors@.len() implies
                    (#[trigger] self.actors@[x]).1.id != (#[trigger] self.actors@[y]).1.id by {
                    assert(before[x].1.id == self.actors@[x].1.id);
                    assert(before[y].1.id == self.actors@[y].1.id);
                }
                assert forall|x: int| 0 <= x < self.actors@.len() implies (#[trigger] self.actors@[x]).1.wf() by {
                    if x != i {
                        assert(self.actors@[x] == before[x]);
                    }
                }
            }
            i += 1;
        }
        assert(self@ =~= old(self)@.map_values(
            |e: (Seq<char>, ActorState)| (e.0, maintain_step(e.1, now).0),
        ));
        assert(old(self)@.take(n as int) =~= old(self)@);
        out
    }
}

} // verus!
