use status_daemon::json::Json;
use status_daemon::query;
use status_daemon::retry_strategy::RetryStrategy;
use status_daemon::score::Score;
use status_daemon::service::Service;
use status_daemon::settings::ResultOutput;
use status_daemon::QueryCmd;
use status_daemon::TestResult;
use status_daemon::SCORE_ONE;

fn demo_service(name: &str, score: i64, result: ResultOutput) -> Service {
    Service {
        name: name.as_bytes().to_vec(),
        command: b"check".to_vec(),
        args: Some(vec![b"--fast".to_vec()]),
        interval: 600,
        timeout: Score { micros: 60 * SCORE_ONE },
        last_run: None,
        successes: Score { micros: score },
        pause_on_no_internet: false,
        retry_counter: 0,
        retry_strategy: RetryStrategy::Worst,
        result,
    }
}

#[test]
fn query_grammar() {
    match QueryCmd::parse(b"list") {
        Ok(QueryCmd::ListQuery) => {},
        _ => panic!("expected the list command"),
    }
    match QueryCmd::parse(b"settings") {
        Ok(QueryCmd::SettingsQuery) => {},
        _ => panic!("expected the settings command"),
    }
    match QueryCmd::parse(b"service disk mem --short") {
        Ok(QueryCmd::ServiceQuery { names, short, errors }) => {
            assert_eq!(names.len(), 2);
            assert_eq!(names[0], b"disk".to_vec());
            assert_eq!(names[1], b"mem".to_vec());
            assert!(short);
            assert!(!errors);
        },
        _ => panic!("expected a service command"),
    }
    assert!(QueryCmd::parse(b"service --bogus").is_err());
    assert!(QueryCmd::parse(b"list extra").is_err());
    assert!(QueryCmd::parse(b"").is_err());
    assert!(QueryCmd::parse(b"nonsense").is_err());
}

#[test]
fn list_reply_joins_names() {
    let services = vec![
        demo_service("disk", SCORE_ONE, ResultOutput::Boolean(false)),
        demo_service("mem", SCORE_ONE, ResultOutput::Boolean(false)),
    ];
    assert_eq!(query::list_reply(&services), b"disk, mem".to_vec());
}

#[test]
fn short_projection_keeps_the_reduced_keys() {
    let services = vec![demo_service("disk", 750_000, ResultOutput::Text(b"fine".to_vec()))];
    let names = vec![b"disk".to_vec()];
    let reply = query::service_reply(&services, &names, true, false);
    let text = String::from_utf8(reply).expect("reply should be text");
    for key in ["\"name\"", "\"command\"", "\"args\"", "\"interval\"", "\"timeout\"",
                "\"successes\"", "\"pause_on_no_internet\""] {
        assert!(text.contains(key), "missing {} in {}", key, text);
    }
    assert!(!text.contains("\"result\""), "short form must omit the result: {}", text);
    assert!(text.contains("\"successes\": 0.75"));
}

#[test]
fn full_record_includes_the_result() {
    let services = vec![demo_service("disk", SCORE_ONE, ResultOutput::Text(b"fine".to_vec()))];
    let names = Vec::new();
    let reply = query::service_reply(&services, &names, false, false);
    let text = String::from_utf8(reply).expect("reply should be text");
    assert!(text.contains("\"result\": \"fine\""), "{}", text);
    assert!(text.contains("\"retry_show\": \"worst\""), "{}", text);
    assert!(text.contains("\"last_run\": null"), "{}", text);
}

#[test]
fn unknown_names_say_so() {
    let services = vec![demo_service("disk", SCORE_ONE, ResultOutput::Boolean(false))];
    let names = vec![b"nope".to_vec()];
    let reply = query::service_reply(&services, &names, true, false);
    assert_eq!(reply, b"No services found".to_vec());
}

#[test]
fn errors_filter_drops_healthy_services_and_entries() {
    let healthy = demo_service("ok", SCORE_ONE, ResultOutput::Boolean(true));
    let entries = vec![
        TestResult { name: b"good".to_vec(), success: Score { micros: SCORE_ONE }, result: Json::Null },
        TestResult { name: b"bad".to_vec(), success: Score { micros: 200_000 }, result: Json::Null },
    ];
    let troubled = demo_service("trouble", 600_000, ResultOutput::Composite(entries));
    let services = vec![healthy, troubled];
    let names = Vec::new();
    let reply = query::service_reply(&services, &names, false, true);
    let text = String::from_utf8(reply).expect("reply should be text");
    assert!(!text.contains("\"ok\""), "{}", text);
    assert!(text.contains("trouble"), "{}", text);
    assert!(text.contains("\"bad\""), "{}", text);
    assert!(!text.contains("\"good\""), "{}", text);
}

#[test]
fn settings_dump_lines() {
    let mut settings = status_daemon::Settings::stock();
    settings.services = vec![demo_service("disk", 0, ResultOutput::Boolean(false))];
    let reply = query::settings_reply(&settings);
    let text = String::from_utf8(reply).expect("reply should be text");
    assert!(text.contains("Check Interval: 600\n"));
    assert!(text.contains("Timeout: 60\n"));
    assert!(text.contains("Skip with no internet: false\n"));
    assert!(text.contains("Retries: 0\n"));
    assert!(text.contains("Retry strategy: worst\n"));
    assert!(text.contains("name: disk, command: check, interval: 600, timeout: 60, retry counter: 0"));
}

#[test]
fn all_selects_everything_only_when_alone() {
    let services = vec![
        demo_service("aa", SCORE_ONE, ResultOutput::Boolean(true)),
        demo_service("b", SCORE_ONE, ResultOutput::Boolean(true)),
    ];
    // `all` beside another name is a literal name: only real matches render
    let names = vec![b"all".to_vec(), b"aa".to_vec()];
    let reply = query::service_reply(&services, &names, true, false);
    let text = String::from_utf8(reply).expect("reply should be text");
    assert!(text.contains("\"name\": \"aa\""), "{}", text);
    assert!(!text.contains("\"name\": \"b\""), "{}", text);
    // exactly [`all`] selects every service
    let names = vec![b"all".to_vec()];
    let reply = query::service_reply(&services, &names, true, false);
    let text = String::from_utf8(reply).expect("reply should be text");
    assert!(text.contains("\"name\": \"aa\""), "{}", text);
    assert!(text.contains("\"name\": \"b\""), "{}", text);
}

#[test]
fn integer_results_render_as_integers() {
    let services = vec![demo_service("num", 0, ResultOutput::Integer(2))];
    let reply = query::service_reply(&services, &Vec::new(), false, false);
    let text = String::from_utf8(reply).expect("reply should be text");
    assert!(text.contains("\"result\": 2"), "{}", text);
    assert!(!text.contains("2000000"), "{}", text);
}
