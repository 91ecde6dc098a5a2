use status_daemon::json::Json;
use status_daemon::score::Score;
use status_daemon::settings::ResultOutput;
use status_daemon::tester::Tester;
use status_daemon::SCORE_ONE;

fn score_of(text: &str) -> i64 {
    Score::parse_decimal(text.as_bytes()).expect("should parse").micros
}

#[test]
fn decimal_parsing_exact() {
    assert_eq!(score_of("0.5"), 500_000);
    assert_eq!(score_of("1"), 1_000_000);
    assert_eq!(score_of("1.0"), 1_000_000);
    assert_eq!(score_of("-1"), -1_000_000);
    assert_eq!(score_of("0.75"), 750_000);
    assert_eq!(score_of("2"), 2_000_000);
    assert_eq!(score_of("1e3"), 1_000_000_000);
    assert_eq!(score_of("1.5e-2"), 15_000);
    assert_eq!(score_of("+0.25"), 250_000);
    assert_eq!(score_of(".5"), 500_000);
    assert_eq!(score_of("5."), 5_000_000);
    assert_eq!(score_of("0.0000001"), 0);
    assert!(Score::parse_decimal(b"abc").is_none());
    assert!(Score::parse_decimal(b"").is_none());
    assert!(Score::parse_decimal(b"1e").is_none());
    assert!(Score::parse_decimal(b".").is_none());
    assert!(Score::parse_decimal(b"1 ").is_none());
    // beyond the accepted range
    assert!(Score::parse_decimal(b"1e300").is_none());
}

#[test]
fn score_rendering() {
    let s = Score { micros: 750_000 };
    assert_eq!(s.render_number(), b"0.75".to_vec());
    assert_eq!(s.render_display(), b"0.75".to_vec());
    let one = Score { micros: SCORE_ONE };
    assert_eq!(one.render_number(), b"1.0".to_vec());
    assert_eq!(one.render_display(), b"1".to_vec());
    let m = Score { micros: -500_000 };
    assert_eq!(m.render_number(), b"-0.5".to_vec());
    let sixty = Score { micros: 60 * SCORE_ONE };
    assert_eq!(sixty.render_display(), b"60".to_vec());
}

#[test]
fn json_parse_and_render_round_trip() {
    let text = b"{\"a\": [1, true, null, \"x\"], \"b\": -2.5e2}";
    let v = Json::parse(text).expect("should parse");
    let mut out: Vec<u8> = Vec::new();
    v.render(&mut out);
    assert_eq!(out, b"{\"a\":[1,true,null,\"x\"],\"b\":-2.5e2}".to_vec());
    let v2 = Json::parse(&out).expect("rendered text should parse");
    let mut out2: Vec<u8> = Vec::new();
    v2.render(&mut out2);
    assert_eq!(out, out2);
}

#[test]
fn json_string_escapes() {
    let v = Json::parse(b"\"a\\n\\u0041\\u00e9\"").expect("should parse");
    match &v {
        Json::Str(sb) => assert_eq!(sb, "a\nA\u{e9}".as_bytes()),
        _ => panic!("expected text"),
    }
    let mut out: Vec<u8> = Vec::new();
    v.render(&mut out);
    let back = Json::parse(&out).expect("escaped text should parse");
    match back {
        Json::Str(sb) => assert_eq!(sb, "a\nA\u{e9}".as_bytes()),
        _ => panic!("expected text"),
    }
    // lone surrogates are refused
    assert!(Json::parse(b"\"\\ud800\"").is_none());
    // surrogate pairs decode
    let v = Json::parse(b"\"\\ud83d\\ude00\"").expect("pair should parse");
    match v {
        Json::Str(sb) => assert_eq!(sb, "\u{1F600}".as_bytes()),
        _ => panic!("expected text"),
    }
}

#[test]
fn json_duplicate_keys_last_wins() {
    let v = Json::parse(b"{\"k\": 1, \"k\": 2}").expect("should parse");
    let mut out: Vec<u8> = Vec::new();
    v.render(&mut out);
    assert_eq!(out, b"{\"k\":2}".to_vec());
}

#[test]
fn composite_from_json_list() {
    // two sub-results; the aggregate is their mean
    let text = b"[{\"name\":\"disk\",\"success\":1.0,\"result\":\"ok\"},{\"name\":\"mem\",\"success\":0.5,\"result\":\"low\"}]";
    let v = Json::parse(text).expect("should parse");
    let out = Tester::format_json(&v);
    match &out {
        ResultOutput::Composite(es) => {
            assert_eq!(es.len(), 2);
            assert_eq!(es[0].name, b"disk".to_vec());
            assert_eq!(es[0].success.micros, 1_000_000);
            assert_eq!(es[1].name, b"mem".to_vec());
            assert_eq!(es[1].success.micros, 500_000);
        },
        _ => panic!("expected a composite"),
    }
    assert_eq!(out.to_successes().micros, 750_000);
}

#[test]
fn composite_from_named_map() {
    let text = b"{\"disk\":{\"success\":1,\"result\":\"ok\"},\"mem\":{\"success\":0,\"result\":\"low\"}}";
    let v = Json::parse(text).expect("should parse");
    let out = Tester::format_json(&v);
    match &out {
        ResultOutput::Composite(es) => {
            assert_eq!(es.len(), 2);
            assert_eq!(es[0].name, b"disk".to_vec());
            assert_eq!(es[1].name, b"mem".to_vec());
        },
        _ => panic!("expected a composite"),
    }
    assert_eq!(out.to_successes().micros, 500_000);
}

#[test]
fn invalid_entries_are_skipped() {
    // missing name, bad success, missing result, out-of-range success
    let text = b"[{\"success\":1,\"result\":1},{\"name\":\"a\",\"success\":\"x\",\"result\":1},{\"name\":\"b\",\"success\":1},{\"name\":\"c\",\"success\":2,\"result\":1},{\"name\":\"d\",\"success\":true,\"result\":\"fine\"}]";
    let v = Json::parse(text).expect("should parse");
    let out = Tester::format_json(&v);
    match &out {
        ResultOutput::Composite(es) => {
            assert_eq!(es.len(), 1);
            assert_eq!(es[0].name, b"d".to_vec());
            assert_eq!(es[0].success.micros, 1_000_000);
        },
        _ => panic!("expected a composite"),
    }
}

#[test]
fn no_valid_entries_is_false() {
    let v = Json::parse(b"[{\"x\":1}]").expect("should parse");
    let out = Tester::format_json(&v);
    match out {
        ResultOutput::Boolean(b) => assert!(!b),
        _ => panic!("expected a plain falsehood"),
    }
}

#[test]
fn plain_single_block_no_trailing_line() {
    let out = Tester::format_plain(b"disk\n1\nok");
    match &out {
        ResultOutput::Composite(es) => {
            assert_eq!(es.len(), 1);
            assert_eq!(es[0].name, b"disk".to_vec());
            assert_eq!(es[0].success.micros, 1_000_000);
            match &es[0].result {
                Json::Str(sb) => assert_eq!(sb, &b"ok".to_vec()),
                _ => panic!("expected a text payload"),
            }
        },
        _ => panic!("expected a composite"),
    }
    assert_eq!(out.to_successes().micros, 1_000_000);
}

#[test]
fn plain_blocks_and_payloads() {
    let out = Tester::format_plain(b"disk\n0.5\nfirst\nsecond\n\nmem\ntrue\n{\"deep\": 1}\n");
    match &out {
        ResultOutput::Composite(es) => {
            assert_eq!(es.len(), 2);
            assert_eq!(es[0].name, b"disk".to_vec());
            assert_eq!(es[0].success.micros, 500_000);
            match &es[0].result {
                Json::Str(sb) => assert_eq!(sb, &b"firstsecond".to_vec()),
                _ => panic!("expected joined payload text"),
            }
            assert_eq!(es[1].name, b"mem".to_vec());
            assert_eq!(es[1].success.micros, 1_000_000);
            match &es[1].result {
                Json::Obj(_) => {},
                _ => panic!("expected a structured payload"),
            }
        },
        _ => panic!("expected a composite"),
    }
}

#[test]
fn plain_without_blocks_is_text() {
    let out = Tester::format_plain(b"just words");
    match out {
        ResultOutput::Text(t) => assert_eq!(t, b"just words".to_vec()),
        _ => panic!("expected the raw text"),
    }
    let empty = Tester::format_plain(b"");
    match empty {
        ResultOutput::Empty => {},
        _ => panic!("expected no output"),
    }
}

#[test]
fn scalar_resolution_rules() {
    assert_eq!(ResultOutput::Empty.to_successes().micros, SCORE_ONE);
    assert_eq!(ResultOutput::Text(b"x".to_vec()).to_successes().micros, SCORE_ONE);
    assert_eq!(ResultOutput::Boolean(true).to_successes().micros, SCORE_ONE);
    assert_eq!(ResultOutput::Boolean(false).to_successes().micros, 0);
    assert_eq!(ResultOutput::Integer(3).to_successes().micros, 3 * SCORE_ONE);
    assert_eq!(ResultOutput::Real(Score { micros: 123 }).to_successes().micros, 123);
}

#[test]
fn faulty_block_is_dropped_whole() {
    // the first block lacks a valid success line: it is dropped whole and
    // the next block parses untouched
    let out = Tester::format_plain(b"b\nx\n\ng\n1");
    match &out {
        ResultOutput::Composite(es) => {
            assert_eq!(es.len(), 1);
            assert_eq!(es[0].name, b"g".to_vec());
            assert_eq!(es[0].success.micros, 1_000_000);
        },
        _ => panic!("expected a composite"),
    }
    // a later numeric line cannot rescue a faulty block
    let out = Tester::format_plain(b"a\nx\n1");
    match out {
        ResultOutput::Text(t) => assert_eq!(t, b"a\nx\n1".to_vec()),
        _ => panic!("expected the raw text"),
    }
}

#[test]
fn only_the_second_line_is_the_success() {
    // a numeric third line joins the payload, it does not overwrite the success
    let out = Tester::format_plain(b"d\n0.5\n0.7");
    match &out {
        ResultOutput::Composite(es) => {
            assert_eq!(es.len(), 1);
            assert_eq!(es[0].success.micros, 500_000);
            match &es[0].result {
                Json::Num(lit) => assert_eq!(lit, &b"0.7".to_vec()),
                _ => panic!("expected a numeric payload"),
            }
        },
        _ => panic!("expected a composite"),
    }
}
