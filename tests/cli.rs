use sensor_relay::cli::{parse_args, parse_process, try_parse_process, Args, Command, ProcessType};
use sensor_relay::mqtt_cli;

fn strings(items: &[&str]) -> Vec<String> {
    items.iter().map(|s| s.to_string()).collect()
}

#[test]
fn test_parse_process() {
    assert_eq!(parse_process("rolling-average:10"), ProcessType::RollingAverage(10));
    assert_eq!(parse_process("threshold:10"), ProcessType::Threshold(10));
    assert_eq!(parse_process("invalid:10"), ProcessType::RollingAverage(0));
}

#[test]
fn test_parse_args() {
    let args = vec![
        "kafka-publisher".to_string(),
        "listen".to_string(),
        "--host".to_string(),
        "localhost:9092".to_string(),
        "--topics".to_string(),
        "topic1".to_string(),
        "topic2".to_string(),
    ];
    match parse_args(args) {
        Command::Listen(Args { host, topics, processes, debug: false, dry_run: false }) => {
            assert_eq!(host, "localhost:9092");
            assert_eq!(topics, vec!["topic1".to_string(), "topic2".to_string()]);
            assert_eq!(processes, vec![]);
        },
        _ => panic!("unexpected command"),
    }
}

#[test]
fn test_parse_args_with_process() {
    let args = vec![
        "kafka-publisher".to_string(),
        "process".to_string(),
        "--host".to_string(),
        "localhost:9092".to_string(),
        "--topics".to_string(),
        "topic1".to_string(),
        "topic2".to_string(),
        "--processes".to_string(),
        "rolling-average:10".to_string(),
        "threshold:20".to_string(),
    ];
    match parse_args(args) {
        Command::Process(Args { host, topics, processes, debug: false, dry_run: false }) => {
            assert_eq!(host, "localhost:9092");
            assert_eq!(topics, vec!["topic1".to_string(), "topic2".to_string()]);
            assert_eq!(processes, vec![ProcessType::RollingAverage(10), ProcessType::Threshold(20)]);
        },
        _ => panic!("unexpected command"),
    }
}

#[test]
fn test_parse_args_with_mixed_args_order() {
    let args = vec![
        "kafka-publisher".to_string(),
        "process".to_string(),
        "--topics".to_string(),
        "topic1".to_string(),
        "topic2".to_string(),
        "--host".to_string(),
        "localhost:9092".to_string(),
        "--processes".to_string(),
        "rolling-average:10".to_string(),
        "threshold:20".to_string(),
    ];
    match parse_args(args) {
        Command::Process(Args { host, topics, processes, debug: false, dry_run: false }) => {
            assert_eq!(host, "localhost:9092");
            assert_eq!(topics, vec!["topic1".to_string(), "topic2".to_string()]);
            assert_eq!(processes, vec![ProcessType::RollingAverage(10), ProcessType::Threshold(20)]);
        },
        _ => panic!("unexpected command"),
    }
}

#[test]
fn test_parse_args_with_invalid_args() {
    let args = vec![
        "kafka-publisher".to_string(),
        "process".to_string(),
        "--topics".to_string(),
        "topic1".to_string(),
        "topic2".to_string(),
        "--host".to_string(),
        "--processes".to_string(),
        "rolling-average:10".to_string(),
        "threshold:20".to_string(),
    ];
    match parse_args(args) {
        Command::Help => {},
        _ => panic!("unexpected command"),
    }
}

#[test]
fn process_kind_ignores_case_and_extra_fields() {
    assert_eq!(try_parse_process("Rolling-Average:30"), Some(ProcessType::RollingAverage(30)));
    assert_eq!(try_parse_process("THRESHOLD:25:extra"), Some(ProcessType::Threshold(25)));
}

#[test]
fn malformed_process_specs_are_refused() {
    assert_eq!(try_parse_process("threshold"), None);
    assert_eq!(try_parse_process("threshold:"), None);
    assert_eq!(try_parse_process("threshold:2x"), None);
    assert_eq!(try_parse_process("threshold:18446744073709551616"), None);
    assert_eq!(try_parse_process("threshold:18446744073709551615"), Some(ProcessType::Threshold(u64::MAX)));
}

#[test]
fn flags_and_short_lists() {
    match parse_args(strings(&["p", "process", "--debug", "--dry-run", "--host", "h"])) {
        Command::Process(a) => {
            assert!(a.debug);
            assert!(a.dry_run);
            assert_eq!(a.host, "h");
            assert!(a.topics.is_empty());
        },
        _ => panic!("unexpected command"),
    }
}

#[test]
fn too_few_arguments_or_unknown_command_give_help() {
    assert_eq!(parse_args(strings(&["p"])), Command::Help);
    assert_eq!(parse_args(strings(&["p", "serve", "--host", "h"])), Command::Help);
    assert_eq!(parse_args(strings(&["p", "listen", "--host"])), Command::Help);
    assert_eq!(parse_args(strings(&["p", "process", "--processes", "average"])), Command::Help);
}

#[test]
fn monitor_command_line() {
    match mqtt_cli::parse_args(strings(&["m", "listen", "broker", "a", "b"])) {
        mqtt_cli::Command::Listen(a) => {
            assert_eq!(a.host, "broker");
            assert_eq!(a.topics, strings(&["a", "b"]));
        },
        _ => panic!("unexpected command"),
    }
    match mqtt_cli::parse_args(strings(&["m", "listen", "broker"])) {
        mqtt_cli::Command::Listen(a) => assert!(a.topics.is_empty()),
        _ => panic!("unexpected command"),
    }
    assert!(matches!(mqtt_cli::parse_args(strings(&["m", "listen"])), mqtt_cli::Command::Help));
    assert!(matches!(mqtt_cli::parse_args(strings(&["m", "watch", "x"])), mqtt_cli::Command::Help));
}

#[test]
fn missing_host_gives_help() {
    assert_eq!(parse_args(strings(&["p", "process", "--topics", "a", "--processes", "threshold:1"])), Command::Help);
    assert_eq!(parse_args(strings(&["p", "listen", "--topics", "a"])), Command::Help);
}

#[test]
fn process_value_may_carry_plus_sign() {
    assert_eq!(try_parse_process("threshold:+5"), Some(ProcessType::Threshold(5)));
    assert_eq!(try_parse_process("threshold:+"), None);
    assert_eq!(try_parse_process("threshold:++5"), None);
    assert_eq!(try_parse_process("threshold:-5"), None);
}
