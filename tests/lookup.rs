use celestial_echo::{
    build_event, candidate_from_groups, classify, disambiguation_reply, format_round_trip, lookup_request, parse_candidate,
    parse_decimal, plan_mention, query_text, unrecognized_reply, Candidate, Classification,
    Decimal, DistanceError, LookupError, MentionAction,
};

const UNRECOGNIZED: &str = "Sorry, I don't recognize that location.\n\nConsult JPL HORIZONS for valid options: https://ssd.jpl.nasa.gov/?horizons\n";

fn dec(negative: bool, mantissa: u128, scale: u32) -> Decimal {
    Decimal { negative, mantissa, scale }
}

fn cand(id: &str, label: &str) -> Candidate {
    Candidate { id: id.to_string(), label: label.to_string() }
}

#[test]
fn resolved_scenario_schedules_nine_minutes() {
    let c = classify(Some(0), "foo bar 4.5\n").unwrap();
    let d = match c {
        Classification::Resolved(d) => d,
        other => panic!("unexpected {:?}", other),
    };
    assert_eq!(d, dec(false, 45, 1));
    let created = 1577836800000i64;
    let req = lookup_request("@celestial_echo Mars", created).unwrap();
    assert_eq!(req.observed_at, "2020-01-01 00:00:00");
    assert_eq!(req.query, "Mars");
    let e = build_event(42, "@celestial_echo Mars", created, &d);
    assert_eq!(e.message_id, 42);
    assert_eq!(e.celestial_body, "Mars");
    assert!(!e.replied);
    assert_eq!(e.round_trip, dec(false, 5400, 1));
    assert_eq!(e.deadline_millis, 1577836800000i128 + 540000);
    let when = lookup_request("x", e.deadline_millis as i64).unwrap();
    assert_eq!(when.observed_at, "2020-01-01 00:09:00");
    assert_eq!(format_round_trip(&e.round_trip), "Round trip time: 9m 0.0s");
}

#[test]
fn round_trip_is_distance_times_120() {
    for (text, mantissa, scale) in [("0.5", 5u128, 1u32), ("12", 12, 0), ("3.14159", 314159, 5)] {
        let d = parse_decimal(text).unwrap();
        let e = build_event(1, "Mars", 0, &d);
        assert_eq!(e.round_trip, dec(false, mantissa * 120, scale));
    }
    let d = parse_decimal("0.0000001").unwrap();
    let e = build_event(1, "Mars", 1000, &d);
    assert_eq!(e.round_trip, dec(false, 120, 7));
    assert_eq!(e.deadline_millis, 1000);
}

#[test]
fn negative_distance_moves_deadline_back() {
    let d = parse_decimal("-0.5").unwrap();
    let e = build_event(7, "Mars", 100000, &d);
    assert_eq!(e.round_trip, dec(true, 600, 1));
    assert_eq!(e.deadline_millis, 40000);
}

#[test]
fn distance_tokens() {
    assert_eq!(parse_decimal("4.5"), Ok(dec(false, 45, 1)));
    assert_eq!(parse_decimal("-0.25"), Ok(dec(true, 25, 2)));
    assert_eq!(parse_decimal("+12"), Ok(dec(false, 12, 0)));
    assert_eq!(parse_decimal(".5"), Ok(dec(false, 5, 1)));
    assert_eq!(parse_decimal("5."), Ok(dec(false, 5, 0)));
    assert_eq!(parse_decimal("1234567890123.5"), Err(DistanceError::OutOfRange));
    assert_eq!(parse_decimal("999999999999.5"), Ok(dec(false, 9999999999995, 1)));
    assert_eq!(parse_decimal("99999999999.5"), Ok(dec(false, 999999999995, 1)));
    assert_eq!(parse_decimal(""), Err(DistanceError::Invalid));
    assert_eq!(parse_decimal("-"), Err(DistanceError::Invalid));
    assert_eq!(parse_decimal("."), Err(DistanceError::Invalid));
    assert_eq!(parse_decimal("1.2.3"), Err(DistanceError::Invalid));
    assert_eq!(parse_decimal("abc"), Err(DistanceError::Invalid));
    assert_eq!(parse_decimal("1e"), Err(DistanceError::Invalid));
    assert_eq!(parse_decimal("e5"), Err(DistanceError::Invalid));
    assert_eq!(parse_decimal("1e5x"), Err(DistanceError::Invalid));
    assert_eq!(parse_decimal("infinite"), Err(DistanceError::Invalid));
}

#[test]
fn distance_tokens_in_exponent_notation() {
    assert_eq!(parse_decimal("1e5"), Ok(dec(false, 100000, 0)));
    assert_eq!(parse_decimal("1.2E+01"), Ok(dec(false, 12, 0)));
    assert_eq!(parse_decimal("2.5e-3"), Ok(dec(false, 25, 4)));
    assert_eq!(parse_decimal("-4E2"), Ok(dec(true, 400, 0)));
    assert_eq!(parse_decimal("1e11"), Ok(dec(false, 10u128.pow(11), 0)));
    assert_eq!(parse_decimal("0e5"), Ok(dec(false, 0, 0)));
    assert_eq!(parse_decimal("1e00003"), Ok(dec(false, 1000, 0)));
    assert_eq!(parse_decimal("0e99999999999999999999999"), Ok(dec(false, 0, 0)));
}

#[test]
fn long_tokens_are_cut_to_twenty_decimals() {
    let tenth = format!("0.1{}", "0".repeat(32));
    assert_eq!(parse_decimal(&tenth), Ok(dec(false, 10u128.pow(19), 20)));
    let d = parse_decimal(&format!("4.5{}", "0".repeat(32))).unwrap();
    assert_eq!(d, dec(false, 45 * 10u128.pow(19), 20));
    assert_eq!(parse_decimal("1e-40"), Ok(dec(false, 0, 20)));
    assert_eq!(parse_decimal("1e-99999999999999999999"), Ok(dec(false, 0, 20)));
    assert_eq!(
        parse_decimal("0.123456789012345678909"),
        Ok(dec(false, 12345678901234567890, 20))
    );
    assert_eq!(parse_decimal("123.456e-20"), Ok(dec(false, 123, 20)));
    let e = build_event(1, "Mars", 0, &d);
    assert_eq!(format_round_trip(&e.round_trip), "Round trip time: 9m 0.0s");
}

#[test]
fn distances_without_a_deadline_are_out_of_range() {
    assert_eq!(parse_decimal("1e12"), Err(DistanceError::OutOfRange));
    assert_eq!(parse_decimal("1e40"), Err(DistanceError::OutOfRange));
    assert_eq!(parse_decimal("1e99999999999999999999"), Err(DistanceError::OutOfRange));
    assert_eq!(parse_decimal("inf"), Err(DistanceError::OutOfRange));
    assert_eq!(parse_decimal("-Infinity"), Err(DistanceError::OutOfRange));
    assert_eq!(parse_decimal("NaN"), Err(DistanceError::OutOfRange));
    assert_eq!(
        classify(Some(0), "a b 1e40\n"),
        Err(LookupError::DistanceOutOfRange)
    );
}

#[test]
fn resolved_output_errors() {
    assert_eq!(classify(Some(0), "foo bar\n"), Err(LookupError::ParseError));
    assert_eq!(classify(Some(0), "   \n"), Err(LookupError::ParseError));
    assert_eq!(classify(Some(0), "a b notanumber"), Err(LookupError::ParseError));
    assert_eq!(
        classify(Some(0), "\n  x\ty  2.25 more\nsecond 1 2\n"),
        Ok(Classification::Resolved(dec(false, 225, 2)))
    );
}

#[test]
fn ambiguous_scenario() {
    let c = classify(Some(2), "1 Mars (\n2 Mars II  \n").unwrap();
    let v = match &c {
        Classification::Ambiguous(v) => v.clone(),
        other => panic!("unexpected {:?}", other),
    };
    assert_eq!(v, vec![cand("1", "Mars"), cand("2", "Mars II")]);
    assert_eq!(c.reply().unwrap(), "Pick a number:\n1: Mars\n2: Mars II\n");
}

#[test]
fn candidate_lines() {
    assert_eq!(parse_candidate("  -3 Foo Bar  (x)"), Some(cand("-3", "Foo Bar")));
    assert_eq!(parse_candidate("499Mars"), Some(cand("499", "Mars")));
    assert_eq!(parse_candidate("7"), Some(cand("7", "")));
    assert_eq!(parse_candidate("12 Io (moon)"), Some(cand("12", "Io")));
    assert_eq!(parse_candidate("abc"), None);
    assert_eq!(parse_candidate(""), None);
}

#[test]
fn candidate_match_may_start_inside_the_line() {
    assert_eq!(parse_candidate("x 1 Mars"), Some(cand("1", "Mars")));
    assert_eq!(parse_candidate("- 5 x"), Some(cand("5", "x")));
    assert_eq!(parse_candidate("\t4\tIo"), Some(cand("4", "Io")));
    assert_eq!(parse_candidate("\u{663} Mars"), Some(cand("\u{663}", "Mars")));
    let c = classify(Some(2), "x 1 Mars\n- 5 x\n").unwrap();
    assert_eq!(c.reply().unwrap(), "Pick a number:\n1: Mars\n5: x\n");
}

#[test]
fn candidate_from_match_groups() {
    let g = |v: &[&str]| v.iter().map(|s| s.to_string()).collect::<Vec<String>>();
    assert_eq!(candidate_from_groups(&g(&["1 Mars (", "1", "Mars ", "("])), Some(cand("1", "Mars")));
    assert_eq!(candidate_from_groups(&g(&["7", "7"])), None);
}

#[test]
fn ambiguous_output_with_a_bad_line_fails() {
    assert_eq!(classify(Some(2), "1 Mars\nnot a candidate\n"), Err(LookupError::ParseError));
    assert_eq!(classify(Some(2), "1 Mars\n\n2 Venus\n"), Err(LookupError::ParseError));
}

#[test]
fn ambiguous_output_with_crlf_lines() {
    let c = classify(Some(2), "1 Mars\r\n2 Venus\r\n").unwrap();
    assert_eq!(
        c,
        Classification::Ambiguous(vec![cand("1", "Mars"), cand("2", "Venus")])
    );
}

#[test]
fn empty_ambiguous_output_gives_header_only() {
    let c = classify(Some(2), "  \n").unwrap();
    assert_eq!(c, Classification::Ambiguous(vec![]));
    assert_eq!(c.reply().unwrap(), "Pick a number:\n");
}

#[test]
fn disambiguation_reply_skips_lines_that_do_not_fit() {
    let long = "x".repeat(100);
    let cands = vec![
        cand("1", &long),
        cand("2", &long),
        cand("3", &long),
        cand("4", "Io"),
    ];
    let r = disambiguation_reply(&cands);
    let expected = format!("Pick a number:\n1: {}\n2: {}\n4: Io\n", long, long);
    assert_eq!(r, expected);
    assert!(r.chars().count() <= 280);
}

#[test]
fn disambiguation_reply_counts_characters() {
    let label = "é".repeat(120);
    let cands = vec![cand("1", &label), cand("2", &label)];
    let r = disambiguation_reply(&cands);
    assert_eq!(r.chars().count(), 15 + 2 * 124);
    assert!(r.len() > 280);
}

#[test]
fn disambiguation_reply_fills_to_exactly_280() {
    let label = "y".repeat(280 - 15 - 4);
    let r = disambiguation_reply(&vec![cand("1", &label)]);
    assert_eq!(r.chars().count(), 280);
    let label = "y".repeat(280 - 15 - 3);
    let r = disambiguation_reply(&vec![cand("1", &label)]);
    assert_eq!(r, "Pick a number:\n");
}

#[test]
fn unrecognized_scenario() {
    let c = classify(Some(1), "whatever").unwrap();
    assert_eq!(c, Classification::Unrecognized);
    assert_eq!(c.reply().unwrap(), UNRECOGNIZED);
    assert_eq!(unrecognized_reply(), UNRECOGNIZED);
    let a = plan_mention(5, "@celestial_echo Vulcan", 0, Ok(c), Ok(false));
    assert_eq!(a, MentionAction::Reply(UNRECOGNIZED.to_string()));
}

#[test]
fn unrecognized_exit_code_scenario() {
    let r = classify(Some(7), "1 Mars\n");
    assert_eq!(r, Err(LookupError::UnrecognizedExitCode(7)));
    let a = plan_mention(5, "Mars", 0, r, Ok(false));
    assert_eq!(a, MentionAction::Fail(LookupError::UnrecognizedExitCode(7)));
    assert_eq!(classify(Some(-1), ""), Err(LookupError::UnrecognizedExitCode(-1)));
}

#[test]
fn missing_exit_status_is_a_gateway_error() {
    assert_eq!(classify(None, "foo bar 4.5"), Err(LookupError::GatewayError));
}

#[test]
fn queries_drop_the_account_name() {
    assert_eq!(query_text("  @celestial_echo   Mars  "), "Mars");
    assert_eq!(query_text("Mars"), "Mars");
    assert_eq!(query_text("@celestial_echoMars"), "Mars");
    assert_eq!(query_text("@other Mars"), "@other Mars");
    assert_eq!(query_text("\u{3000}@celestial_echo\tAlpha Centauri\n"), "Alpha Centauri");
    assert_eq!(query_text("@celestial_ech"), "@celestial_ech");
}

#[test]
fn observation_time_out_of_range_gives_no_request() {
    assert!(lookup_request("Mars", i64::MAX).is_none());
    assert!(lookup_request("Mars", 8_000_000_000_000_000).is_some());
    assert!(lookup_request("Mars", -8_000_000_000_000_000).is_some());
    let r = lookup_request("Mars", 0).unwrap();
    assert_eq!(r.observed_at, "1970-01-01 00:00:00");
}
