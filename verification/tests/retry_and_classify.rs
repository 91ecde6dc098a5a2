use status_daemon::json::Json;
use status_daemon::watchdog;
use status_daemon::Protocol;
use status_daemon::retry_strategy::RetryStrategy;
use status_daemon::score::Score;
use status_daemon::service::Service;
use status_daemon::settings::ResultOutput;
use status_daemon::settings::Settings;
use status_daemon::tester::SpawnOutcome;
use status_daemon::tester::Tester;
use status_daemon::SCORE_ONE;

fn text_attempt(score: i64, label: &str) -> (Score, ResultOutput) {
    (Score { micros: score }, ResultOutput::Text(label.as_bytes().to_vec()))
}

fn composite_attempt(entries: &[(&str, i64)]) -> (Score, ResultOutput) {
    let mut es = Vec::new();
    let mut sum: i64 = 0;
    for (name, sc) in entries {
        sum += sc;
        es.push(status_daemon::TestResult {
            name: name.as_bytes().to_vec(),
            success: Score { micros: *sc },
            result: Json::Null,
        });
    }
    let out = ResultOutput::Composite(es);
    let score = out.to_successes();
    assert_eq!(score.micros as i128, (sum as i128) / (entries.len() as i128));
    (score, out)
}

#[test]
fn worst_keeps_the_lowest_attempt() {
    let attempts = vec![
        text_attempt(SCORE_ONE, "first"),
        text_attempt(300_000, "second"),
        text_attempt(800_000, "third"),
    ];
    let (score, out) = Tester::combine_results(attempts, &RetryStrategy::Worst);
    assert_eq!(score.micros, 300_000);
    match out {
        ResultOutput::Text(t) => assert_eq!(t, b"second".to_vec()),
        _ => panic!("expected the losing attempt's text"),
    }
}

#[test]
fn best_prefers_first_on_ties() {
    let attempts = vec![
        text_attempt(800_000, "a"),
        text_attempt(800_000, "b"),
        text_attempt(200_000, "c"),
    ];
    let (score, out) = Tester::combine_results(attempts, &RetryStrategy::Best);
    assert_eq!(score.micros, 800_000);
    match out {
        ResultOutput::Text(t) => assert_eq!(t, b"a".to_vec()),
        _ => panic!("expected the first winner"),
    }
}

#[test]
fn median_takes_the_middle_by_score() {
    let attempts = vec![
        text_attempt(900_000, "high"),
        text_attempt(100_000, "low"),
        text_attempt(500_000, "mid"),
    ];
    let (score, _) = Tester::combine_results(attempts, &RetryStrategy::Median);
    assert_eq!(score.micros, 500_000);
    // an even count takes the upper middle of the ordered scores
    let attempts = vec![
        text_attempt(900_000, "high"),
        text_attempt(100_000, "low"),
        text_attempt(500_000, "mid"),
        text_attempt(700_000, "upper"),
    ];
    let (score, _) = Tester::combine_results(attempts, &RetryStrategy::Median);
    assert_eq!(score.micros, 700_000);
}

#[test]
fn combined_best_merges_by_name() {
    let attempts = vec![
        composite_attempt(&[("disk", 200_000), ("mem", 900_000)]),
        composite_attempt(&[("disk", 700_000), ("mem", 400_000)]),
    ];
    let (score, out) = Tester::combine_results(attempts, &RetryStrategy::CombinedBest);
    match out {
        ResultOutput::Composite(es) => {
            assert_eq!(es.len(), 2);
            assert_eq!(es[0].name, b"disk".to_vec());
            assert_eq!(es[0].success.micros, 700_000);
            assert_eq!(es[1].name, b"mem".to_vec());
            assert_eq!(es[1].success.micros, 900_000);
        },
        _ => panic!("expected a merged composite"),
    }
    assert_eq!(score.micros, 800_000);
}

#[test]
fn combined_worst_without_composites_falls_back() {
    let attempts = vec![
        text_attempt(600_000, "a"),
        text_attempt(400_000, "b"),
    ];
    let (score, out) = Tester::combine_results(attempts, &RetryStrategy::CombinedWorst);
    assert_eq!(score.micros, 400_000);
    match out {
        ResultOutput::Text(t) => assert_eq!(t, b"b".to_vec()),
        _ => panic!("expected the worst attempt"),
    }
}

fn service_with(retry_counter: i64, strategy: RetryStrategy) -> Service {
    Service {
        name: b"svc".to_vec(),
        command: b"cmd".to_vec(),
        args: None,
        interval: 600,
        timeout: Score { micros: 60 * SCORE_ONE },
        last_run: None,
        successes: Score { micros: 0 },
        pause_on_no_internet: false,
        retry_counter,
        retry_strategy: strategy,
        result: ResultOutput::Boolean(false),
    }
}

fn exited(code: i32, stdout: &str, stderr: &str) -> SpawnOutcome {
    SpawnOutcome::Exited {
        code: Some(code),
        status_text: Vec::new(),
        stdout: stdout.as_bytes().to_vec(),
        stderr: stderr.as_bytes().to_vec(),
    }
}

#[test]
fn nonzero_exit_reports_stderr_with_zero_score() {
    let (score, out) = Tester::classify(&exited(2, "", "connection refused"));
    assert_eq!(score.micros, 0);
    match out {
        ResultOutput::Text(t) => assert_eq!(t, b"connection refused".to_vec()),
        _ => panic!("expected the error text"),
    }
}

#[test]
fn nonzero_exit_falls_back_to_stdout_then_code() {
    let (_, out) = Tester::classify(&exited(3, "partial words", ""));
    match out {
        ResultOutput::Text(t) => assert_eq!(t, b"partial words".to_vec()),
        _ => panic!("expected the stdout text"),
    }
    let (_, out) = Tester::classify(&exited(7, "", ""));
    match out {
        ResultOutput::Text(t) => assert_eq!(t, b"Exited with non-zero code: 7".to_vec()),
        _ => panic!("expected the code text"),
    }
}

#[test]
fn spawn_failure_reports_internal_error() {
    let (score, out) = Tester::classify(&SpawnOutcome::SpawnFailed(b"no such file".to_vec()));
    assert_eq!(score.micros, 0);
    match out {
        ResultOutput::Text(t) => assert_eq!(t, b"Internal error: no such file".to_vec()),
        _ => panic!("expected the error text"),
    }
}

#[test]
fn scalar_root_is_an_error() {
    let (score, out) = Tester::classify(&exited(0, "5", ""));
    assert_eq!(score.micros, 0);
    match out {
        ResultOutput::Text(_) => {},
        _ => panic!("expected an error text"),
    }
}

#[test]
fn worst_strategy_keeps_retrying_through_attempts() {
    // attempt scores 1.0, 0.3, 0.8: the worst wins
    let svc = service_with(2, RetryStrategy::Worst);
    let outcomes = vec![
        exited(0, "a\n1\nok", ""),
        exited(0, "a\n0.3\nok", ""),
        exited(0, "a\n0.8\nok", ""),
    ];
    let (score, _) = Tester::test(&svc, &outcomes);
    assert_eq!(score.micros, 300_000);
}

#[test]
fn best_strategy_stops_at_a_perfect_attempt() {
    // a perfect first attempt is returned at once
    let svc = service_with(2, RetryStrategy::Best);
    let outcomes = vec![
        exited(0, "a\n1\nok", ""),
        exited(0, "a\n0.3\nok", ""),
        exited(0, "a\n0.2\nok", ""),
    ];
    let (score, _) = Tester::test(&svc, &outcomes);
    assert_eq!(score.micros, SCORE_ONE);
}

#[test]
fn single_attempt_is_returned_as_it_is() {
    let svc = service_with(0, RetryStrategy::Worst);
    let outcomes = vec![exited(0, "a\n0.4\nok", "")];
    let (score, out) = Tester::test(&svc, &outcomes);
    assert_eq!(score.micros, 400_000);
    match out {
        ResultOutput::Composite(es) => assert_eq!(es.len(), 1),
        _ => panic!("expected a composite"),
    }
}

#[test]
fn settings_read_whole_document() {
    let cfg = b"{\"protocol\":\"ipc\",\"port\":7001,\"interval\":120,\"timeout\":2.5,\"pause_on_no_internet\":true,\"retry_counter\":3,\"retry_show\":\"combined_best\",\"services\":[{\"name\":\"disk\",\"command\":\"df\",\"args\":[\"-h\"],\"interval\":30},{\"name\":\"mem\",\"command\":\"free\"}]}";
    let doc = Json::parse(cfg).expect("document should parse");
    let settings = Settings::from_json(&doc).expect("settings should read");
    assert_eq!(settings.port, 7001);
    assert_eq!(settings.interval, 120);
    assert_eq!(settings.timeout.micros, 2_500_000);
    assert!(settings.pause_on_no_internet);
    assert_eq!(settings.retry_counter, 3);
    assert_eq!(settings.services.len(), 2);
    assert_eq!(settings.services[0].name, b"disk".to_vec());
    assert_eq!(settings.services[0].interval, 30);
    assert_eq!(settings.services[0].args.as_ref().unwrap()[0], b"-h".to_vec());
    // absent fields fall back to the global values
    assert_eq!(settings.services[1].interval, 120);
    assert_eq!(settings.services[1].timeout.micros, 2_500_000);
    assert_eq!(settings.services[1].retry_counter, 3);
}

#[test]
fn settings_reject_bad_service_entries() {
    let doc = Json::parse(b"{\"services\":[{\"command\":\"x\"}]}").expect("should parse");
    match Settings::from_json(&doc) {
        Err(status_daemon::ConfigError::MissingName) => {},
        _ => panic!("expected the missing-name fault"),
    }
    let doc = Json::parse(b"{\"services\":[{\"name\":\"a\",\"command\":\"x\",\"args\":[1]}]}").expect("should parse");
    match Settings::from_json(&doc) {
        Err(status_daemon::ConfigError::ArgNotText) => {},
        _ => panic!("expected the argument fault"),
    }
}

#[test]
fn strategy_and_protocol_names_round_trip() {
    for st in [RetryStrategy::Best, RetryStrategy::CombinedBest, RetryStrategy::Median,
               RetryStrategy::Worst, RetryStrategy::CombinedWorst] {
        assert_eq!(RetryStrategy::from_str(st.as_str()), Some(st));
    }
    assert_eq!(RetryStrategy::from_str("unknown"), None);
    for p in [Protocol::Tcp, Protocol::Ipc, Protocol::Pgm, Protocol::Epgm] {
        assert_eq!(Protocol::from_str(p.as_str()), Some(p));
    }
    assert_eq!(Protocol::from_str("udp"), None);
}

#[test]
fn watchdog_schedule_and_signals() {
    let t = Score { micros: 60 * SCORE_ONE };
    let (first, second) = watchdog::watchdog_delays(&t);
    assert_eq!(first, 60_000);
    assert_eq!(second, 180_000);
    assert_eq!(first + second, 4 * first);
    assert_eq!(watchdog::watchdog_signal(false, true), Some(status_daemon::StopSignal::Graceful));
    assert_eq!(watchdog::watchdog_signal(true, true), Some(status_daemon::StopSignal::Forceful));
    assert_eq!(watchdog::watchdog_signal(false, false), None);
    assert_eq!(watchdog::watchdog_signal(true, false), None);
}

fn forward_attempts() -> Vec<(Score, ResultOutput)> {
    vec![
        text_attempt(SCORE_ONE, "a"),
        text_attempt(300_000, "b"),
        text_attempt(800_000, "c"),
    ]
}

fn backward_attempts() -> Vec<(Score, ResultOutput)> {
    vec![
        text_attempt(800_000, "c"),
        text_attempt(300_000, "b"),
        text_attempt(SCORE_ONE, "a"),
    ]
}

#[test]
fn best_and_worst_scores_ignore_attempt_order() {
    for st in [RetryStrategy::Best, RetryStrategy::Worst,
               RetryStrategy::CombinedBest, RetryStrategy::CombinedWorst] {
        let (s1, _) = Tester::combine_results(forward_attempts(), &st);
        let (s2, _) = Tester::combine_results(backward_attempts(), &st);
        assert_eq!(s1.micros, s2.micros);
    }
}

#[test]
fn every_config_fault_is_reported() {
    let cases: [(&[u8], status_daemon::ConfigError); 6] = [
        (b"{\"services\":[{\"command\":\"x\"}]}", status_daemon::ConfigError::MissingName),
        (b"{\"services\":[{\"name\":1,\"command\":\"x\"}]}", status_daemon::ConfigError::NameNotText),
        (b"{\"services\":[{\"name\":\"a\"}]}", status_daemon::ConfigError::MissingCommand),
        (b"{\"services\":[{\"name\":\"a\",\"command\":2}]}", status_daemon::ConfigError::CommandNotText),
        (b"{\"services\":[{\"name\":\"a\",\"command\":\"x\",\"args\":3}]}", status_daemon::ConfigError::ArgsNotList),
        (b"{\"services\":[{\"name\":\"a\",\"command\":\"x\",\"args\":[4]}]}", status_daemon::ConfigError::ArgNotText),
    ];
    for (cfg, want) in cases {
        let doc = Json::parse(cfg).expect("document should parse");
        match Settings::from_json(&doc) {
            Err(got) => assert_eq!(got, want),
            Ok(_) => panic!("expected a fault"),
        }
    }
}

#[test]
fn gated_sleep_lengths() {
    let fresh = service_with(0, RetryStrategy::Worst);
    assert_eq!(status_daemon::watchdog::pause_sleep_millis(&fresh), 60_000);
    let mut seasoned = service_with(0, RetryStrategy::Worst);
    seasoned.result = ResultOutput::Text(b"was fine".to_vec());
    assert_eq!(status_daemon::watchdog::pause_sleep_millis(&seasoned), 600_000);
}
