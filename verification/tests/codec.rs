use preimage_search::messages::{
    parse_message, parse_u32_field, split_fields, u32_to_dec, AckMessage,
    CalculatePowerMessage, CalculateResponseMessage, Message, ParsedMessage, PingMessage,
    SolveProblemMessage, SolveResponseMessage, StopMessage,
};

#[test]
fn decimal_rendering_and_reading() {
    assert_eq!(u32_to_dec(0), "0");
    assert_eq!(u32_to_dec(7), "7");
    assert_eq!(u32_to_dec(4032), "4032");
    assert_eq!(parse_u32_field("4032"), Some(4032));
    assert_eq!(parse_u32_field("0"), Some(0));
    assert_eq!(parse_u32_field(""), None);
    assert_eq!(parse_u32_field("12x"), None);
    assert_eq!(parse_u32_field("99999999999999999999"), None);
    assert_eq!(parse_u32_field("4294967295"), Some(u32::MAX));
    assert_eq!(parse_u32_field("4294967296"), None);
}

#[test]
fn splitting_keeps_every_field() {
    let fields = split_fields("PING|127.0.0.1:1|127.0.0.1:2");
    assert_eq!(fields, vec!["PING", "127.0.0.1:1", "127.0.0.1:2"]);
    let fields = split_fields("a||b|");
    assert_eq!(fields, vec!["a", "", "b", ""]);
    let fields = split_fields("");
    assert_eq!(fields, vec![""]);
}

#[test]
fn ping_round_trip() {
    let m = PingMessage { from: "127.0.0.1:1".to_string(), to: "127.0.0.1:2".to_string() };
    let wire = m.serialize();
    assert_eq!(wire, "PING|127.0.0.1:1|127.0.0.1:2");
    assert_eq!(m.from(), "127.0.0.1:1");
    assert_eq!(m.to(), "127.0.0.1:2");
    match parse_message(&wire) {
        Some(ParsedMessage::Ping(p)) => {
            assert_eq!(p.from, "127.0.0.1:1");
            assert_eq!(p.to, "127.0.0.1:2");
        },
        _ => panic!("expected a ping"),
    }
}

#[test]
fn ack_round_trip() {
    let m = AckMessage { from: "a".to_string(), to: "b".to_string() };
    let wire = m.serialize();
    assert_eq!(wire, "ACK|a|b");
    match parse_message(&wire) {
        Some(ParsedMessage::Ack(p)) => assert_eq!(p.from, "a"),
        _ => panic!("expected an ack"),
    }
}

#[test]
fn calc_round_trip() {
    let m = CalculatePowerMessage { from: "a".to_string(), to: "b".to_string() };
    assert_eq!(m.serialize(), "CALC|a|b");
    match parse_message("CALC|a|b") {
        Some(ParsedMessage::Calc(p)) => assert_eq!(p.to, "b"),
        _ => panic!("expected a calc"),
    }
}

#[test]
fn calc_response_round_trip() {
    let m = CalculateResponseMessage { from: "a".to_string(), to: "b".to_string(), power: 3 };
    let wire = m.serialize();
    assert_eq!(wire, "CALC_RESPONSE|a|b|3");
    match parse_message(&wire) {
        Some(ParsedMessage::CalcResponse(p)) => assert_eq!(p.power, 3),
        _ => panic!("expected a calc response"),
    }
}

#[test]
fn solve_round_trip() {
    let m = SolveProblemMessage {
        from: "a".to_string(),
        to: "b".to_string(),
        alphabet: "abc".to_string(),
        start: "aa".to_string(),
        end: "cc".to_string(),
        hash: "d00d".to_string(),
    };
    let wire = m.serialize();
    assert_eq!(wire, "SOLVE|a|b|abc|aa|cc|d00d");
    match parse_message(&wire) {
        Some(ParsedMessage::Solve(p)) => {
            assert_eq!(p.alphabet, "abc");
            assert_eq!(p.start, "aa");
            assert_eq!(p.end, "cc");
            assert_eq!(p.hash, "d00d");
        },
        _ => panic!("expected a solve"),
    }
}

#[test]
fn solve_response_round_trip() {
    let found = SolveResponseMessage {
        from: "a".to_string(),
        to: "b".to_string(),
        start: "aa".to_string(),
        end: "ac".to_string(),
        solution: Some("ab".to_string()),
        space_searched: true,
    };
    let wire = found.serialize();
    assert_eq!(wire, "SOLVE_RESPONSE|a|b|aa|ac|ab|true");
    match parse_message(&wire) {
        Some(ParsedMessage::SolveResponse(p)) => {
            assert_eq!(p.solution, Some("ab".to_string()));
            assert!(p.space_searched);
        },
        _ => panic!("expected a solve response"),
    }
    let empty = SolveResponseMessage {
        from: "a".to_string(),
        to: "b".to_string(),
        start: "aa".to_string(),
        end: "ac".to_string(),
        solution: None,
        space_searched: false,
    };
    let wire = empty.serialize();
    assert_eq!(wire, "SOLVE_RESPONSE|a|b|aa|ac||false");
    match parse_message(&wire) {
        Some(ParsedMessage::SolveResponse(p)) => {
            assert_eq!(p.solution, None);
            assert!(!p.space_searched);
        },
        _ => panic!("expected a solve response"),
    }
}

#[test]
fn stop_round_trip() {
    let m = StopMessage { from: "a".to_string(), to: "b".to_string() };
    assert_eq!(m.serialize(), "STOP|a|b");
    match parse_message("STOP|a|b") {
        Some(ParsedMessage::Stop(p)) => assert_eq!(p.from, "a"),
        _ => panic!("expected a stop"),
    }
}

#[test]
fn malformed_frames_are_dropped() {
    assert!(parse_message("").is_none());
    assert!(parse_message("NOPE|a|b").is_none());
    assert!(parse_message("PING|only-one").is_none());
    assert!(parse_message("PING|a|b|extra").is_none());
    assert!(parse_message("SOLVE|a|b|abc|aa|cc").is_none());
    // the power field must be a u32
    assert!(parse_message("CALC_RESPONSE|a|b|x").is_none());
    assert!(parse_message("CALC_RESPONSE|a|b|").is_none());
    assert!(parse_message("CALC_RESPONSE|a|b|4294967296").is_none());
}
