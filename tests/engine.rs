use sensor_relay::cli::ProcessType;
use sensor_relay::kafka::{
    create_actor, dispatch, format_reading, generate_payload, pairing_topics_and_processes, Engine,
};
use sensor_relay::text::{contains_double_dash, parse_decimal, replace_text};
use sensor_relay::worker::{is_fresh, ActorMessage, ComputeActor, ManagerActor, ProcessData, Window};

const T0: i64 = 1_700_000_000_000;

fn one_binding(p: ProcessType, debug: bool, dry_run: bool) -> Engine {
    let topics = vec!["room1-temperature".to_string()];
    Engine::start(&topics, &vec![p], debug, dry_run, T0).unwrap()
}

fn publish_all(e: &Engine, msgs: Vec<ActorMessage>) -> Vec<(String, String)> {
    let mut out = Vec::new();
    for m in msgs {
        out.extend(e.outputs(m));
    }
    out
}

#[test]
fn window_mean_is_average_of_samples() {
    let mut w = Window::empty(T0);
    for v in [10_000i64, 20_000, 30_000, 45_500] {
        w.add(v);
    }
    assert_eq!(w.count, 4);
    assert_eq!(w.sum, 105_500);
    assert_eq!(w.mean(), 26_375);
    let mut n = Window::empty(T0);
    n.add(-1_000);
    n.add(-2_000);
    assert_eq!(n.mean(), -1_500);
    assert_eq!(Window::empty(T0).mean(), 0);
}

#[test]
fn every_open_window_takes_each_sample() {
    let mut a = ComputeActor::new(7, 10, ProcessType::RollingAverage(10), T0);
    a.compute(ProcessData::RollingAverage(4_000));
    a.windows.push(Window::empty(T0 + 5_000));
    a.compute(ProcessData::RollingAverage(8_000));
    assert_eq!(a.windows.len(), 2);
    assert_eq!(a.windows[0].count, 2);
    assert_eq!(a.windows[1].count, 1);
    assert_eq!(a.windows[1].sum, 8_000);
}

#[test]
fn threshold_emits_once_per_crossing() {
    let b: u64 = 25;
    let mut a = ComputeActor::new(1, 0, ProcessType::Threshold(b), T0);
    let base = (b * 1000) as i64;
    let mut emitted = Vec::new();
    for v in [base - 1_000, base + 1_000, base + 2_000, base - 1_000] {
        if let Some(m) = a.compute(ProcessData::Threshold(v)) {
            emitted.push(m);
        }
    }
    assert_eq!(
        emitted,
        vec![
            ActorMessage::Updated(1, ProcessData::Threshold(base + 1_000)),
            ActorMessage::Updated(1, ProcessData::Threshold(0)),
        ]
    );
    assert_eq!(a.fetch(), 0);
}

#[test]
fn window_retires_only_after_its_length_and_with_another_open() {
    let mut a = ComputeActor::new(3, 30, ProcessType::RollingAverage(30), T0);
    a.compute(ProcessData::RollingAverage(5_000));
    assert_eq!(a.maintain(T0 + 30_000), None);
    assert_eq!(a.windows.len(), 1);
    let r = a.maintain(T0 + 30_001);
    assert_eq!(r, Some(ActorMessage::Finished(3, ProcessData::RollingAverage(5_000))));
    assert_eq!(a.windows.len(), 1);
    assert_eq!(a.windows[0].started_at, T0 + 30_001);
    assert_eq!(a.fetch(), 5_000);
}

#[test]
fn last_window_is_never_retired() {
    let mut a = ComputeActor::new(3, 30, ProcessType::RollingAverage(30), T0);
    assert!(a.maintain(T0 + 30_001).is_some());
    assert_eq!(a.maintain(T0 + 30_002), None);
    assert_eq!(a.windows.len(), 1);
}

#[test]
fn stale_samples_change_nothing() {
    let mut a = ComputeActor::new(4, 0, ProcessType::Threshold(1), T0);
    assert_eq!(a.feed(ProcessData::Threshold(9_000), T0 - 3_001, T0), None);
    assert!(!a.alerting);
    assert!(a.feed(ProcessData::Threshold(9_000), T0 - 3_000, T0).is_some());
    assert!(is_fresh(T0 - 3_000, T0));
    assert!(!is_fresh(T0 - 3_001, T0));

    let mut e = one_binding(ProcessType::RollingAverage(30), false, false);
    let msgs = e.ingest("room1-temperature", 10_000, T0 - 5_000, T0);
    assert!(msgs.is_empty());
    assert_eq!(e.registry.actors[0].1.windows[0].count, 0);
}

#[test]
fn dry_run_publishes_nothing_but_plan_matches() {
    let live = one_binding(ProcessType::Threshold(25), false, false);
    let dry = one_binding(ProcessType::Threshold(25), false, true);
    let msg = ActorMessage::Updated(9, ProcessData::Threshold(30_000));
    assert!(dry.outputs(msg).is_empty());
    assert_eq!(
        live.outputs(msg),
        vec![("room1-temperature_threshold-crossed".to_string(), "yes".to_string())]
    );
    assert!(live.outputs(ActorMessage::FeedData(9, ProcessData::Threshold(1), T0)).is_empty());
}

#[test]
fn rolling_average_end_to_end() {
    let mut e = one_binding(ProcessType::RollingAverage(30), false, false);
    let mut published = Vec::new();
    for (i, v) in [10_000i64, 20_000, 30_000].iter().enumerate() {
        let now = T0 + i as i64 * 100;
        let msgs = e.ingest("room1-temperature", *v, now, now);
        published.extend(publish_all(&e, msgs));
        let msgs = e.tick(now);
        published.extend(publish_all(&e, msgs));
    }
    assert!(published.is_empty());
    let msgs = e.tick(T0 + 30_001);
    published.extend(publish_all(&e, msgs));
    assert_eq!(published, vec![("room1_avg-temperature".to_string(), "20".to_string())]);
    assert!(published.iter().all(|(t, _)| !t.ends_with("-debug")));
}

#[test]
fn threshold_end_to_end() {
    let mut e = one_binding(ProcessType::Threshold(25), false, false);
    let mut published = Vec::new();
    for (i, v) in [30_000i64, 10_000, 10_000].iter().enumerate() {
        let now = T0 + i as i64 * 100;
        let msgs = e.ingest("room1-temperature", *v, now, now);
        published.extend(publish_all(&e, msgs));
    }
    assert_eq!(
        published,
        vec![
            ("room1-temperature_threshold-crossed".to_string(), "yes".to_string()),
            ("room1-temperature_threshold-crossed".to_string(), "no".to_string()),
        ]
    );
}

#[test]
fn unbound_topic_is_ignored() {
    let mut e = one_binding(ProcessType::Threshold(25), false, false);
    assert!(e.ingest("other", 90_000, T0, T0).is_empty());
    assert!(!e.registry.actors[0].1.alerting);
}

#[test]
fn zero_length_window_is_refused() {
    let topics = vec!["a".to_string(), "b".to_string()];
    assert!(Engine::start(&topics, &vec![ProcessType::Threshold(1), ProcessType::RollingAverage(0)], false, false, T0)
        .is_none());
}

#[test]
fn surplus_processes_are_dropped() {
    let topics = vec!["a".to_string()];
    let procs = vec![ProcessType::Threshold(1), ProcessType::RollingAverage(5)];
    let b = pairing_topics_and_processes(&topics, &procs);
    assert_eq!(b, vec![("a".to_string(), ProcessType::Threshold(1))]);
    let e = Engine::start(&topics, &procs, false, false, T0).unwrap();
    assert_eq!(e.registry.actors.len(), 1);
    assert_eq!(e.registry.actors[0].1.lifespan, 0);
}

#[test]
fn output_topics_and_payloads() {
    let ra = ProcessType::RollingAverage(30);
    let th = ProcessType::Threshold(25);
    assert_eq!(
        generate_payload(ra, ProcessData::RollingAverage(21_500), "room1-temperature", false),
        ("room1_avg-temperature".to_string(), "21.5".to_string())
    );
    assert_eq!(
        generate_payload(ra, ProcessData::RollingAverage(21_500), "room1-temperature", true),
        ("room1_avg-temperature-debug".to_string(), "21.5".to_string())
    );
    assert_eq!(
        generate_payload(th, ProcessData::Threshold(0), "t", true),
        ("t_threshold-crossed-debug".to_string(), "no".to_string())
    );
    assert_eq!(
        generate_payload(th, ProcessData::RollingAverage(5), "t", true),
        ("t_threshold-crossed".to_string(), "".to_string())
    );
    assert_eq!(
        generate_payload(ra, ProcessData::Threshold(5), "x-temperature", true),
        ("x_avg-temperature".to_string(), "".to_string())
    );
}

#[test]
fn dispatch_covers_every_binding_of_the_kind() {
    let b = vec![
        ("a-temperature".to_string(), ProcessType::RollingAverage(10)),
        ("b".to_string(), ProcessType::Threshold(3)),
        ("c-temperature".to_string(), ProcessType::RollingAverage(20)),
    ];
    let out = dispatch(&b, ActorMessage::Finished(1, ProcessData::RollingAverage(-1_250)), false, false);
    assert_eq!(
        out,
        vec![
            ("a_avg-temperature".to_string(), "-1.25".to_string()),
            ("c_avg-temperature".to_string(), "-1.25".to_string()),
        ]
    );
    assert!(dispatch(&b, ActorMessage::Finished(1, ProcessData::RollingAverage(7)), false, true).is_empty());
}

#[test]
fn readings_are_written_as_decimals() {
    assert_eq!(format_reading(20_000), "20");
    assert_eq!(format_reading(0), "0");
    assert_eq!(format_reading(1_050), "1.05");
    assert_eq!(format_reading(-7), "-0.007");
    assert_eq!(format_reading(i64::MIN), "-9223372036854775.808");
}

#[test]
fn registry_add_remove_list() {
    let mut r = ManagerActor::new();
    let a = ComputeActor::new(1, 0, ProcessType::Threshold(1), T0);
    let b = ComputeActor::new(2, 0, ProcessType::Threshold(1), T0);
    assert!(r.add_actor("x".to_string(), a.clone()));
    assert!(r.add_actor("y".to_string(), b));
    assert!(!r.add_actor("z".to_string(), a));
    assert_eq!(r.get_actors(), vec![1, 2]);
    r.remove_actor(1);
    assert_eq!(r.get_actors(), vec![2]);
    r.remove_actor(5);
    assert_eq!(r.get_actors(), vec![2]);
}

#[test]
fn random_ids_are_version_four() {
    let a = create_actor(0, ProcessType::Threshold(1), T0);
    let b = create_actor(0, ProcessType::Threshold(1), T0);
    assert_ne!(a.id, b.id);
    assert_eq!((a.id >> 76) & 0xf, 4);
}

#[test]
fn text_helpers() {
    assert!(contains_double_dash("a--b"));
    assert!(!contains_double_dash("a-b-"));
    assert_eq!(parse_decimal("0042"), Some(42));
    assert_eq!(parse_decimal("+7"), Some(7));
    assert_eq!(parse_decimal(""), None);
    assert_eq!(replace_text("a-temperature-temperature", "-temperature", "_x"), "a_x_x");
    assert_eq!(replace_text("plain", "-temperature", "_x"), "plain");
}

#[test]
fn one_cycle_feeds_then_maintains() {
    let mut a = ComputeActor::new(5, 2, ProcessType::RollingAverage(2), T0);
    let out = a.receive_message(Some(ActorMessage::FeedData(0, ProcessData::RollingAverage(6_000), T0)), T0);
    assert!(out.is_empty());
    assert_eq!(a.windows[0].count, 1);
    let out = a.receive_message(None, T0 + 2_001);
    assert_eq!(out, vec![ActorMessage::Finished(5, ProcessData::RollingAverage(6_000))]);
    let mut t = ComputeActor::new(6, 0, ProcessType::Threshold(2), T0);
    let out = t.receive_message(Some(ActorMessage::FeedData(0, ProcessData::Threshold(2_000), T0)), T0);
    assert_eq!(out, vec![ActorMessage::Updated(6, ProcessData::Threshold(2_000))]);
    let out = t.receive_message(Some(ActorMessage::Updated(0, ProcessData::Threshold(0))), T0);
    assert!(out.is_empty());
    assert!(t.alerting);
}

#[test]
fn process_data_text() {
    assert_eq!(ProcessData::RollingAverage(20_000).text(), "Rolling average: 20");
    assert_eq!(ProcessData::Threshold(1_500).text(), "Threshold: 1.5");
}

#[test]
fn repeated_topic_keeps_last_process() {
    let topics = vec!["a".to_string(), "b".to_string(), "a".to_string()];
    let procs = vec![ProcessType::RollingAverage(0), ProcessType::Threshold(2), ProcessType::Threshold(7)];
    let b = pairing_topics_and_processes(&topics, &procs);
    assert_eq!(
        b,
        vec![("a".to_string(), ProcessType::Threshold(7)), ("b".to_string(), ProcessType::Threshold(2))]
    );
    let e = Engine::start(&topics, &procs, false, false, T0).unwrap();
    assert_eq!(e.registry.actors.len(), 2);
    assert_eq!(e.registry.actors[0].1.process_type, ProcessType::Threshold(7));
}

#[test]
fn single_valid_binding_starts() {
    let e = Engine::start(&vec!["t".to_string()], &vec![ProcessType::RollingAverage(5)], true, false, T0).unwrap();
    assert_eq!(e.registry.actors[0].1.lifespan, 5);
    assert!(e.debug);
    let empty = Engine::start(&vec![], &vec![ProcessType::Threshold(1)], false, false, T0).unwrap();
    assert!(empty.registry.actors.is_empty());
}
