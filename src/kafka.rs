//! The engine between the broker and the actors: topic bindings, routing of
//! inbound readings, and the outbound (topic, payload) pairs that results give.
use vstd::prelude::*;
use crate::cli::{texts_of, ProcessType};
use crate::text::{decimal_text, digit_char, digit_str, push_decimal, replace_all, replace_text, same_text};
use crate::worker::{
    fed_entry, feed_step, fresh, ids_of, maintained, maintain_step, routed, window_length_is, ActorMessage, ActorState,
    ComputeActor, ManagerActor, ProcessData, Window,
};

verus! {

/// Topic and process pairs, as mathematical values.
pub open spec fn bindings_of(v: Seq<(String, ProcessType)>) -> Seq<(Seq<char>, ProcessType)> {
    v.map_values(|b: (String, ProcessType)| (b.0@, b.1))
}

pub open spec fn pairs_of(v: Seq<(String, String)>) -> Seq<(Seq<char>, Seq<char>)> {
    v.map_values(|p: (String, String)| (p.0@, p.1@))
}

pub open spec fn shorter(a: nat, b: nat) -> nat {
    if a < b { a } else { b }
}

/// The process bound last to `key` among the first `m` topic and process pairs.
pub open spec fn last_binding(ts: Seq<Seq<char>>, ps: Seq<ProcessType>, key: Seq<char>, m: int) -> Option<ProcessType>
    decreases m,
{
    if m <= 0 {
        None
    } else if ts[m - 1] == key {
        Some(ps[m - 1])
    } else {
        last_binding(ts, ps, key, m - 1)
    }
}

/// No topic is bound twice in `bs`.
#[verifier::opaque]
pub open spec fn topics_distinct(bs: Seq<(Seq<char>, ProcessType)>) -> bool {
    forall|a: int, b: int| 0 <= a < b < bs.len() ==> (#[trigger] bs[a]).0 != (#[trigger] bs[b]).0
}

/// Each binding of `bs` holds the process bound last to its topic among the
/// first `m` pairs.
#[verifier::opaque]
pub open spec fn bound_last(bs: Seq<(Seq<char>, ProcessType)>, ts: Seq<Seq<char>>, ps: Seq<ProcessType>, m: int) -> bool {
    forall|k: int| 0 <= k < bs.len() ==> last_binding(ts, ps, (#[trigger] bs[k]).0, m) == Some(bs[k].1)
}

/// Each topic of `bs` is among the first `m` topics.
#[verifier::opaque]
pub open spec fn topics_given(bs: Seq<(Seq<char>, ProcessType)>, ts: Seq<Seq<char>>, m: int) -> bool {
    forall|k: int| 0 <= k < bs.len() ==> exists|i: int| 0 <= i < m && ts[i] == (#[trigger] bs[k]).0
}

/// Each of the first `m` topics is bound in `bs`.
#[verifier::opaque]
pub open spec fn topics_covered(bs: Seq<(Seq<char>, ProcessType)>, ts: Seq<Seq<char>>, m: int) -> bool {
    forall|i: int| 0 <= i < m ==> exists|k: int| 0 <= k < bs.len() && bs[k].0 == #[trigger] ts[i]
}

/// `bs` binds each topic among the first `m` pairs exactly once, to the
/// process bound last to it, and nothing else.
pub open spec fn binds_last(bs: Seq<(Seq<char>, ProcessType)>, ts: Seq<Seq<char>>, ps: Seq<ProcessType>, m: int) -> bool {
    &&& bs.len() <= m
    &&& topics_distinct(bs)
    &&& bound_last(bs, ts, ps, m)
    &&& topics_given(bs, ts, m)
    &&& topics_covered(bs, ts, m)
}

/// Index of the binding of topic `t` in `bs`, or `bs.len()`.
fn find_topic(bs: &Vec<(String, ProcessType)>, t: &str) -> (r: usize)
    ensures
        r <= bs@.len(),
        r < bs@.len() ==> bindings_of(bs@)[r as int].0 == t@,
        r == bs@.len() ==> forall|k: int| 0 <= k < bs@.len() ==> (#[trigger] bindings_of(bs@)[k]).0 != t@,
{
    let mut k: usize = 0;
    while k < bs.len()
        invariant
            k <= bs@.len(),
            forall|j: int| 0 <= j < k ==> (#[trigger] bindings_of(bs@)[j]).0 != t@,
        decreases bs@.len() - k,
    {
        assert(bindings_of(bs@)[k as int].0 == bs@[k as int].0@);
        if same_text(bs[k].0.as_str(), t) {
            return k;
        }
        k += 1;
    }
    k
}

/// The bindings after one more pair: the topic's binding is replaced if it
/// has one, else appended.
pub open spec fn rebound(bs: Seq<(Seq<char>, ProcessType)>, k: int, b: (Seq<char>, ProcessType)) -> Seq<(Seq<char>, ProcessType)> {
    if k < bs.len() { bs.update(k, b) } else { bs.push(b) }
}

proof fn lemma_distinct_step(old_bs: Seq<(Seq<char>, ProcessType)>, k: int, b: (Seq<char>, ProcessType))
    requires
        topics_distinct(old_bs),
        0 <= k <= old_bs.len(),
        k < old_bs.len() ==> old_bs[k].0 == b.0,
        k == old_bs.len() ==> forall|x: int| 0 <= x < old_bs.len() ==> (#[trigger] old_bs[x]).0 != b.0,
    ensures
        topics_distinct(rebound(old_bs, k, b)),
{
    reveal(topics_distinct);
    let bs = rebound(old_bs, k, b);
    assert forall|x: int, y: int| 0 <= x < y < bs.len() implies (#[trigger] bs[x]).0 != (#[trigger] bs[y]).0 by {
        if x != k && y != k {
            assert(bs[x] == old_bs[x] && bs[y] == old_bs[y]);
        } else if x == k {
            assert(bs[y] == old_bs[y]);
        } else {
            assert(bs[x] == old_bs[x]);
        }
    }
}

proof fn lemma_only_match(old_bs: Seq<(Seq<char>, ProcessType)>, k: int, t: Seq<char>)
    requires
        topics_distinct(old_bs),
        0 <= k <= old_bs.len(),
        k < old_bs.len() ==> old_bs[k].0 == t,
        k == old_bs.len() ==> forall|x: int| 0 <= x < old_bs.len() ==> (#[trigger] old_bs[x]).0 != t,
    ensures
        forall|x: int| 0 <= x < old_bs.len() && x != k ==> (#[trigger] old_bs[x]).0 != t,
{
    reveal(topics_distinct);
    assert forall|x: int| 0 <= x < old_bs.len() && x != k implies (#[trigger] old_bs[x]).0 != t by {
        if k < old_bs.len() {
            if x < k {
                assert(old_bs[x].0 != old_bs[k].0);
            } else {
                assert(old_bs[k].0 != old_bs[x].0);
            }
        }
    }
}

proof fn lemma_bound_last_step(old_bs: Seq<(Seq<char>, ProcessType)>, ts: Seq<Seq<char>>, ps: Seq<ProcessType>, i: int, k: int)
    requires
        bound_last(old_bs, ts, ps, i),
        0 <= i < ts.len(),
        i < ps.len(),
        0 <= k <= old_bs.len(),
        forall|x: int| 0 <= x < old_bs.len() && x != k ==> (#[trigger] old_bs[x]).0 != ts[i],
    ensures
        bound_last(rebound(old_bs, k, (ts[i], ps[i])), ts, ps, i + 1),
{
    reveal(bound_last);
    let bs = rebound(old_bs, k, (ts[i], ps[i]));
    assert forall|x: int| 0 <= x < bs.len() implies last_binding(ts, ps, (#[trigger] bs[x]).0, i + 1) == Some(bs[x].1) by {
        if x != k {
            assert(bs[x] == old_bs[x]);
        }
    }
}

proof fn lemma_given_step(old_bs: Seq<(Seq<char>, ProcessType)>, ts: Seq<Seq<char>>, b: (Seq<char>, ProcessType), i: int, k: int)
    requires
        topics_given(old_bs, ts, i),
        0 <= i < ts.len(),
        b.0 == ts[i],
        0 <= k <= old_bs.len(),
    ensures
        topics_given(rebound(old_bs, k, b), ts, i + 1),
{
    reveal(topics_given);
    let bs = rebound(old_bs, k, b);
    assert forall|x: int| 0 <= x < bs.len() implies exists|j: int| 0 <= j < i + 1 && ts[j] == (#[trigger] bs[x]).0 by {
        if x == k {
            assert(ts[i] == bs[x].0);
        } else {
            assert(bs[x] == old_bs[x]);
            let j = choose|j: int| 0 <= j < i && ts[j] == (#[trigger] old_bs[x]).0;
            assert(ts[j] == bs[x].0);
        }
    }
}

proof fn lemma_covered_step(old_bs: Seq<(Seq<char>, ProcessType)>, ts: Seq<Seq<char>>, b: (Seq<char>, ProcessType), i: int, k: int)
    requires
        topics_covered(old_bs, ts, i),
        0 <= i < ts.len(),
        b.0 == ts[i],
        0 <= k <= old_bs.len(),
        k < old_bs.len() ==> old_bs[k].0 == b.0,
    ensures
        topics_covered(rebound(old_bs, k, b), ts, i + 1),
{
    reveal(topics_covered);
    let bs = rebound(old_bs, k, b);
    assert forall|j: int| 0 <= j < i + 1 implies exists|x: int| 0 <= x < bs.len() && bs[x].0 == #[trigger] ts[j] by {
        if j == i {
            assert(bs[k].0 == ts[j]);
        } else {
            let x = choose|x: int| 0 <= x < old_bs.len() && old_bs[x].0 == #[trigger] ts[j];
            if x == k {
                assert(bs[x].0 == ts[j]);
            } else {
                assert(bs[x] == old_bs[x]);
            }
        }
    }
}

/// Binds `processes[i]` to `topics[i]`; the longer list is cut to the
/// shorter. A topic given twice is bound once, to its last process; topics
/// keep the order in which they first appear.
pub fn pairing_topics_and_processes(topics: &Vec<String>, processes: &Vec<ProcessType>) -> (r: Vec<(String, ProcessType)>)
    ensures
        binds_last(
            bindings_of(r@),
            texts_of(topics@),
            processes@,
            shorter(topics@.len(), processes@.len()) as int,
        ),
{
    let ghost ts = texts_of(topics@);
    let n = if topics.len() < processes.len() { topics.len() } else { processes.len() };
    let mut r: Vec<(String, ProcessType)> = Vec::new();
    let mut i: usize = 0;
    proof {
        reveal(topics_distinct);
        reveal(bound_last);
        reveal(topics_given);
        reveal(topics_covered);
    }
    while i < n
        invariant
            n == shorter(topics@.len(), processes@.len()),
            ts == texts_of(topics@),
            i <= n,
            binds_last(bindings_of(r@), ts, processes@, i as int),
        decreases n - i,
    {
        let t = topics[i].as_str();
        let p = processes[i];
        assert(ts[i as int] == t@);
        let ghost old_bs = bindings_of(r@);
        let k = find_topic(&r, t);
        if k < r.len() {
            r.set(k, (t.to_owned(), p));
        } else {
            r.push((t.to_owned(), p));
        }
        proof {
            let b = (t@, p);
            lemma_distinct_step(old_bs, k as int, b);
            lemma_only_match(old_bs, k as int, t@);
            lemma_bound_last_step(old_bs, ts, processes@, i as int, k as int);
            lemma_given_step(old_bs, ts, b, i as int, k as int);
            lemma_covered_step(old_bs, ts, b, i as int, k as int);
            assert(bindings_of(r@) == rebound(old_bs, k as int, b)) by {
            if k < old_bs.len() {
                assert(bindings_of(r@) =~= old_bs.update(k as int, (t@, p)));
            } else {
                assert(bindings_of(r@) =~= old_bs.push((t@, p)));
            }
            }
        }
        i += 1;
    }
    r
}

/// Digits after the point of a fraction `f` of thousandths, `0 < f < 1000`,
/// without trailing zeros.
pub open spec fn fraction_text(f: nat) -> Seq<char> {
    if f % 100 == 0 {
        seq!['.', digit_char(f / 100)]
    } else if f % 10 == 0 {
        seq!['.', digit_char(f / 100), digit_char((f / 10) % 10)]
    } else {
        seq!['.', digit_char(f / 100), digit_char((f / 10) % 10), digit_char(f % 10)]
    }
}

pub open spec fn magnitude(m: int) -> nat {
    if m < 0 { (-m) as nat } else { m as nat }
}

/// A reading in thousandths written as a decimal number: `20000` is `20`,
/// `-1250` is `-1.25`.
pub open spec fn reading_text(m: int) -> Seq<char> {
    let a = magnitude(m);
    (if m < 0 { seq!['-'] } else { Seq::empty() }) + decimal_text(a / 1000) + (if a % 1000 == 0 {
        Seq::empty()
    } else {
        fraction_text(a % 1000)
    })
}

pub fn format_reading(m: i64) -> (r: String)
    ensures
        r@ == reading_text(m as int),
{
    let a: u64 = if m < 0 { (-(m as i128)) as u64 } else { m as u64 };
    let mut out = String::new();
    if m < 0 {
        proof {
            reveal_strlit("-");
        }
        out.append("-");
    }
    push_decimal(&mut out, a / 1000);
    let f = a % 1000;
    if f != 0 {
        proof {
            reveal_strlit(".");
        }
        out.append(".");
        out.append(digit_str(f / 100));
        if f % 100 != 0 {
            out.append(digit_str((f / 10) % 10));
            if f % 10 != 0 {
                out.append(digit_str(f % 10));
            }
        }
    }
    assert(out@ =~= reading_text(m as int));
    out
}

/// The topic that a result of kind `data` is published to, for a binding of
/// `process` to topic `t`.
pub open spec fn output_topic(process: ProcessType, data: ProcessData, t: Seq<char>, debug: bool) -> Seq<char> {
    match (process, data) {
        (ProcessType::RollingAverage(_), ProcessData::RollingAverage(_)) => if debug {
            replace_all(t, "-temperature"@, "_avg-temperature-debug"@)
        } else {
            replace_all(t, "-temperature"@, "_avg-temperature"@)
        },
        (ProcessType::RollingAverage(_), _) => replace_all(t, "-temperature"@, "_avg-temperature"@),
        (ProcessType::Threshold(_), ProcessData::Threshold(_)) => if debug {
            t + "_threshold-crossed-debug"@
        } else {
            t + "_threshold-crossed"@
        },
        (ProcessType::Threshold(_), _) => t + "_threshold-crossed"@,
    }
}

/// The payload: the mean as text for a rolling average, `yes` or `no` for a
/// threshold, and empty where the result is of the other kind.
pub open spec fn payload_text(process: ProcessType, data: ProcessData) -> Seq<char> {
    match (process, data) {
        (ProcessType::RollingAverage(_), ProcessData::RollingAverage(v)) => reading_text(v as int),
        (ProcessType::Threshold(_), ProcessData::Threshold(v)) => if v > 0 { "yes"@ } else { "no"@ },
        _ => Seq::empty(),
    }
}

pub fn generate_payload(process: ProcessType, data: ProcessData, t: &str, debug: bool) -> (r: (String, String))
    ensures
        r.0@ == output_topic(process, data, t@, debug),
        r.1@ == payload_text(process, data),
{
    proof {
        reveal_strlit("-temperature");
    }
    match process {
        ProcessType::RollingAverage(_) => match data {
            ProcessData::RollingAverage(v) => {
                let topic = if debug {
                    replace_text(t, "-temperature", "_avg-temperature-debug")
                } else {
                    replace_text(t, "-temperature", "_avg-temperature")
                };
                (topic, format_reading(v))
            },
            _ => (replace_text(t, "-temperature", "_avg-temperature"), String::new()),
        },
        ProcessType::Threshold(_) => {
            let base = t.to_owned();
            match data {
                ProcessData::Threshold(v) => {
                    let topic = if debug {
                        base.concat("_threshold-crossed-debug")
                    } else {
                        base.concat("_threshold-crossed")
                    };
                    let answer = if v > 0 { "yes".to_owned() } else { "no".to_owned() };
                    (topic, answer)
                },
                _ => (base.concat("_threshold-crossed"), String::new()),
            }
        },
    }
}

/// The publishes that a result of kind `data` gives: one per binding, in
/// order, leaving out those with an empty payload.
pub open spec fn planned(bs: Seq<(Seq<char>, ProcessType)>, data: ProcessData, debug: bool) -> Seq<(Seq<char>, Seq<char>)>
    decreases bs.len(),
{
    if bs.len() == 0 {
        Seq::empty()
    } else {
        let prev = planned(bs.drop_last(), data, debug);
        let b = bs.last();
        if payload_text(b.1, data).len() == 0 {
            prev
        } else {
            prev.push((output_topic(b.1, data, b.0, debug), payload_text(b.1, data)))
        }
    }
}

pub fn planned_publishes(bindings: &Vec<(String, ProcessType)>, data: ProcessData, debug: bool) -> (r: Vec<(String, String)>)
    ensures
        pairs_of(r@) == planned(bindings_of(bindings@), data, debug),
{
    let mut r: Vec<(String, String)> = Vec::new();
    let mut i: usize = 0;
    while i < bindings.len()
        invariant
            i <= bindings@.len(),
            pairs_of(r@) == planned(bindings_of(bindings@).take(i as int), data, debug),
        decreases bindings@.len() - i,
    {
        let (topic, payload) = generate_payload(bindings[i].1, data, bindings[i].0.as_str(), debug);
        assert(bindings_of(bindings@).take(i + 1).drop_last() =~= bindings_of(bindings@).take(i as int));
        if payload.unicode_len() != 0 {
            let ghost before = r@;
            r.push((topic, payload));
            assert(pairs_of(r@) =~= pairs_of(before).push((topic@, payload@)));
        }
        i += 1;
    }
    assert(bindings_of(bindings@).take(i as int) =~= bindings_of(bindings@));
    r
}

/// The result that a message carries, if it is one of the two result kinds.
pub open spec fn result_of(msg: ActorMessage) -> Option<ProcessData> {
    match msg {
        ActorMessage::Updated(_, d) => Some(d),
        ActorMessage::Finished(_, d) => Some(d),
        ActorMessage::FeedData(..) => None,
    }
}

/// What is published for `msg`: nothing in dry-run mode, else the plan.
pub open spec fn dispatched(
    bs: Seq<(Seq<char>, ProcessType)>,
    msg: ActorMessage,
    debug: bool,
    dry_run: bool,
) -> Seq<(Seq<char>, Seq<char>)> {
    match result_of(msg) {
        Some(d) => if dry_run { Seq::empty() } else { planned(bs, d, debug) },
        None => Seq::empty(),
    }
}

pub fn dispatch(bindings: &Vec<(String, ProcessType)>, msg: ActorMessage, debug: bool, dry_run: bool) -> (r: Vec<(String, String)>)
    ensures
        pairs_of(r@) == dispatched(bindings_of(bindings@), msg, debug, dry_run),
{
    let data = match msg {
        ActorMessage::Updated(_, d) => d,
        ActorMessage::Finished(_, d) => d,
        ActorMessage::FeedData(..) => {
            let r: Vec<(String, String)> = Vec::new();
            assert(pairs_of(r@) =~= Seq::empty());
            return r;
        },
    };
    if dry_run {
        let r: Vec<(String, String)> = Vec::new();
        assert(pairs_of(r@) =~= Seq::empty());
        return r;
    }
    planned_publishes(bindings, data, debug)
}

/// In dry-run mode no result is published, while the pairs it would have
/// given are those that are published otherwise.
pub proof fn lemma_dry_run_publishes_nothing(
    bs: Seq<(Seq<char>, ProcessType)>,
    msg: ActorMessage,
    debug: bool,
)
    ensures
        dispatched(bs, msg, debug, true) == Seq::<(Seq<char>, Seq<char>)>::empty(),
        result_of(msg) matches Some(d) ==> dispatched(bs, msg, debug, false) == planned(bs, d, debug),
{
}

/// Relies on uuid's `Uuid::new_v4` and `Uuid::as_u128`: a random id whose
/// version bits say 4 and whose variant bits say RFC 4122.
#[verifier::external_body]
fn random_id() -> (r: u128)
    ensures
        r & 0x0000_0000_0000_f000_c000_0000_0000_0000u128 == 0x0000_0000_0000_4000_8000_0000_0000_0000u128,
{
    uuid::Uuid::new_v4().as_u128()
}

/// A new actor with a fresh random id.
pub fn create_actor(lifespan: u64, process_type: ProcessType, now: i64) -> (r: ComputeActor)
    requires
        window_length_is(process_type, lifespan),
    ensures
        r.wf(),
        r.id & 0x0000_0000_0000_f000_c000_0000_0000_0000u128 == 0x0000_0000_0000_4000_8000_0000_0000_0000u128,
        r@ == (ActorState {
            id: r.id,
            lifespan,
            process_type,
            alerting: false,
            result: r.result,
            windows: seq![Window { sum: 0, count: 0, started_at: now }],
            rolled_at: now,
        }),
        r.result.value_spec() == 0,
{
    let id = random_id();
    ComputeActor::new(id, lifespan, process_type, now)
}

/// The window length that an actor for `p` gets: zero for a threshold.
pub open spec fn lifespan_for(p: ProcessType) -> u64 {
    match p {
        ProcessType::RollingAverage(w) => w,
        ProcessType::Threshold(_) => 0,
    }
}

/// The process of the first binding of `topic` at or after index `from`.
pub open spec fn process_from(bs: Seq<(Seq<char>, ProcessType)>, topic: Seq<char>, from: nat) -> Option<ProcessType>
    decreases bs.len() - from,
{
    if from >= bs.len() {
        None
    } else if bs[from as int].0 == topic {
        Some(bs[from as int].1)
    } else {
        process_from(bs, topic, from + 1)
    }
}

/// A reading tagged with the kind of process its topic is bound to.
pub open spec fn tagged(p: ProcessType, value: i64) -> ProcessData {
    match p {
        ProcessType::RollingAverage(_) => ProcessData::RollingAverage(value),
        ProcessType::Threshold(_) => ProcessData::Threshold(value),
    }
}

/// Some topic among the first `n` is bound, last, to a rolling average over
/// zero seconds.
pub open spec fn zero_window_bound(ts: Seq<Seq<char>>, ps: Seq<ProcessType>, n: int) -> bool {
    exists|i: int| 0 <= i < n && #[trigger] last_binding(ts, ps, ts[i], n) == Some(ProcessType::RollingAverage(0))
}

/// `a` is the fresh actor created at `now` for binding `b`.
pub open spec fn started_for(a: (Seq<char>, ActorState), b: (Seq<char>, ProcessType), now: i64) -> bool {
    &&& a.0 == b.0
    &&& a.1.process_type == b.1
    &&& a.1.lifespan == lifespan_for(b.1)
    &&& !a.1.alerting
    &&& a.1.result.value_spec() == 0
    &&& a.1.windows == seq![Window { sum: 0, count: 0, started_at: now }]
    &&& a.1.rolled_at == now
}

proof fn lemma_zero_found(bs: Seq<(Seq<char>, ProcessType)>, ts: Seq<Seq<char>>, ps: Seq<ProcessType>, n: int, k: int)
    requires
        binds_last(bs, ts, ps, n),
        0 <= k < bs.len(),
        bs[k].1 == ProcessType::RollingAverage(0),
    ensures
        zero_window_bound(ts, ps, n),
{
    reveal(topics_given);
    reveal(bound_last);
    assert(last_binding(ts, ps, bs[k].0, n) == Some(bs[k].1));
    let i = choose|i: int| 0 <= i < n && ts[i] == (#[trigger] bs[k]).0;
    assert(last_binding(ts, ps, ts[i], n) == Some(ProcessType::RollingAverage(0)));
}

proof fn lemma_no_zero(bs: Seq<(Seq<char>, ProcessType)>, ts: Seq<Seq<char>>, ps: Seq<ProcessType>, n: int)
    requires
        binds_last(bs, ts, ps, n),
        forall|j: int| 0 <= j < bs.len() ==> (#[trigger] bs[j]).1 != ProcessType::RollingAverage(0),
    ensures
        !zero_window_bound(ts, ps, n),
{
    reveal(topics_covered);
    reveal(bound_last);
    if zero_window_bound(ts, ps, n) {
        let i = choose|i: int| 0 <= i < n && #[trigger] last_binding(ts, ps, ts[i], n) == Some(ProcessType::RollingAverage(0));
        let k = choose|k: int| 0 <= k < bs.len() && bs[k].0 == #[trigger] ts[i];
        assert(last_binding(ts, ps, bs[k].0, n) == Some(bs[k].1));
    }
}

/// The running aggregation: the topic bindings, the registry of actors (one
/// per binding) and the output modes.
pub struct Engine {
    pub bindings: Vec<(String, ProcessType)>,
    pub registry: ManagerActor,
    pub debug: bool,
    pub dry_run: bool,
}

impl Engine {
    pub open spec fn wf(self) -> bool {
        self.registry.wf()
    }

    /// Binds the topics to the processes and creates one actor per binding.
    /// A rolling average over zero seconds is refused (`None`). With two or
    /// more bindings a random id may clash with one already taken, which is
    /// refused too; with at most one, a valid configuration always starts.
    pub fn start(topics: &Vec<String>, processes: &Vec<ProcessType>, debug: bool, dry_run: bool, now: i64) -> (r: Option<Engine>)
        ensures
            ({
                let n = shorter(topics@.len(), processes@.len()) as int;
                let zero = zero_window_bound(texts_of(topics@), processes@, n);
                &&& zero ==> r is None
                &&& n <= 1 && !zero ==> r is Some
                &&& r is None ==> zero || n >= 2
            }),
            r matches Some(e) ==> {
                &&& e.wf()
                &&& e.debug == debug
                &&& e.dry_run == dry_run
                &&& binds_last(
                    bindings_of(e.bindings@),
                    texts_of(topics@),
                    processes@,
                    shorter(topics@.len(), processes@.len()) as int,
                )
                &&& e.registry@.len() == e.bindings@.len()
                &&& forall|i: int| 0 <= i < e.bindings@.len() ==> #[trigger] started_for(e.registry@[i], bindings_of(e.bindings@)[i], now)
            },
    {
        let ghost ts = texts_of(topics@);
        let ghost n = shorter(topics@.len(), processes@.len()) as int;
        let bindings = pairing_topics_and_processes(topics, processes);
        let mut registry = ManagerActor::new();
        let nb = bindings.len();
        let mut i: usize = 0;
        while i < nb
            invariant
                nb == bindings@.len(),
                ts == texts_of(topics@),
                n == shorter(topics@.len(), processes@.len()) as int,
                binds_last(bindings_of(bindings@), ts, processes@, n),
                i <= nb,
                registry.wf(),
                registry@.len() == i,
                forall|j: int| 0 <= j < i ==> (#[trigger] bindings_of(bindings@)[j]).1 != ProcessType::RollingAverage(0),
                forall|j: int| 0 <= j < i ==> #[trigger] started_for(registry@[j], bindings_of(bindings@)[j], now),
            decreases nb - i,
        {
            let p = bindings[i].1;
            assert(bindings_of(bindings@)[i as int].1 == p);
            let (lifespan, averages) = match p {
                ProcessType::RollingAverage(w) => (w, true),
                ProcessType::Threshold(_) => (0, false),
            };
            if lifespan == 0 && averages {
                proof {
                    lemma_zero_found(bindings_of(bindings@), ts, processes@, n, i as int);
                }
                return None;
            }
            let actor = create_actor(lifespan, p, now);
            let ghost before = registry@;
            if !registry.add_actor(bindings[i].0.as_str().to_owned(), actor) {
                proof {
                    if i == 0 {
                        assert(ids_of(before) =~= Seq::<u128>::empty());
                    }
                }
                return None;
            }
            assert(registry@[i as int] == (bindings_of(bindings@)[i as int].0, actor@));
            assert forall|j: int| 0 <= j < i implies registry@[j] == before[j] by {}
            i += 1;
        }
        proof {
            lemma_no_zero(bindings_of(bindings@), ts, processes@, n);
        }
        Some(Engine { bindings, registry, debug, dry_run })
    }

    /// Routes a reading of `topic` that arrived at `arrival` to the actors
    /// of that topic, tagged with the kind of process the topic is bound to,
    /// and returns what they emit. A topic with no binding is ignored.
    pub fn ingest(&mut self, topic: &str, value: i64, arrival: i64, now: i64) -> (r: Vec<ActorMessage>)
        requires
            old(self).wf(),
        ensures
            final(self).wf(),
            final(self).bindings@ == old(self).bindings@,
            final(self).debug == old(self).debug,
            final(self).dry_run == old(self).dry_run,
            match process_from(bindings_of(old(self).bindings@), topic@, 0) {
                None => final(self).registry@ == old(self).registry@ && r@.len() == 0,
                Some(p) => {
                    &&& final(self).registry@ == old(self).registry@.map_values(
                        |e: (Seq<char>, ActorState)| fed_entry(e, topic@, tagged(p, value), arrival, now).0,
                    )
                    &&& r@ == routed(old(self).registry@, topic@, tagged(p, value), arrival, now)
                },
            },
    {
        let n = self.bindings.len();
        let mut i: usize = 0;
        while i < n
            invariant
                n == self.bindings@.len(),
                *self == *old(self),
                old(self).wf(),
                i <= n,
                process_from(bindings_of(self.bindings@), topic@, i as nat)
                    == process_from(bindings_of(self.bindings@), topic@, 0),
            decreases n - i,
        {
            assert(bindings_of(self.bindings@)[i as int].0 == self.bindings@[i as int].0@);
            if same_text(self.bindings[i].0.as_str(), topic) {
                let p = self.bindings[i].1;
                let data = match p {
                    ProcessType::RollingAverage(_) => ProcessData::RollingAverage(value),
                    ProcessType::Threshold(_) => ProcessData::Threshold(value),
                };
                return self.registry.feed_topic(topic, data, arrival, now);
            }
            i += 1;
        }
        Vec::new()
    }

    /// A maintenance pass over every actor; returns what they emit.
    pub fn tick(&mut self, now: i64) -> (r: Vec<ActorMessage>)
        requires
            old(self).wf(),
        ensures
            final(self).wf(),
            final(self).bindings@ == old(self).bindings@,
            final(self).debug == old(self).debug,
            final(self).dry_run == old(self).dry_run,
            final(self).registry@ == old(self).registry@.map_values(
                |e: (Seq<char>, ActorState)| (e.0, maintain_step(e.1, now).0),
            ),
            r@ == maintained(old(self).registry@, now),
    {
        self.registry.maintain_all(now)
    }

    /// The (topic, payload) pairs to publish for `msg`.
    pub fn outputs(&self, msg: ActorMessage) -> (r: Vec<(String, String)>)
        ensures
            pairs_of(r@) == dispatched(bindings_of(self.bindings@), msg, self.debug, self.dry_run),
    {
        dispatch(&self.bindings, msg, self.debug, self.dry_run)
    }
}

/// A stale reading changes no actor and makes none emit.
pub proof fn lemma_stale_reading_ignored(
    es: Seq<(Seq<char>, ActorState)>,
    topic: Seq<char>,
    data: ProcessData,
    arrival: i64,
    now: i64,
)
    requires
        !fresh(arrival, now),
    ensures
        es.map_values(|e: (Seq<char>, ActorState)| fed_entry(e, topic, data, arrival, now).0) == es,
        routed(es, topic, data, arrival, now) == Seq::<ActorMessage>::empty(),
    decreases es.len(),
{
    assert(es.map_values(|e: (Seq<char>, ActorState)| fed_entry(e, topic, data, arrival, now).0) =~= es);
    if es.len() > 0 {
        lemma_stale_reading_ignored(es.drop_last(), topic, data, arrival, now);
    }
}

} // verus!
