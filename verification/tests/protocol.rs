use memento::query::{
    identifier, is_miss_line, match_literal, parse_add, parse_get, parse_key, parse_key_val,
    parse_query, quoted_string, response_line, space0, space1, ParseError, Query,
};

#[test]
fn round_trip_get() {
    let q = Query::Get { key: "reno".to_string() };
    let wire = q.serialize();
    let (pos, parsed) = parse_query(&wire, 0).expect("serialized GET must parse");
    assert_eq!(parsed, q);
    // Everything but the trailing newline is consumed.
    assert_eq!(pos, wire.chars().count() - 1);
}

#[test]
fn round_trip_add() {
    let q = Query::Add { key: "reno".to_string(), value: "iqbalsah".to_string() };
    let wire = q.serialize();
    let (pos, parsed) = parse_query(&wire, 0).expect("serialized ADD must parse");
    assert_eq!(parsed, q);
    assert_eq!(pos, wire.chars().count() - 1);
}

#[test]
fn serialize_exact_text() {
    let get = Query::Get { key: "k".to_string() };
    assert_eq!(get.serialize(), "<GET: (\"k\")>\n");
    let add = Query::Add { key: "k".to_string(), value: "v".to_string() };
    assert_eq!(add.serialize(), "<ADD: (\"k\", \"v\")>\n");
}

#[test]
fn grammar_accepts_get() {
    let (pos, q) = parse_query("<GET: (\"k\")>", 0).expect("GET must parse");
    assert_eq!(q, Query::Get { key: "k".to_string() });
    assert_eq!(pos, 12);
}

#[test]
fn grammar_accepts_add() {
    let (_, q) = parse_query("<ADD: (\"k\", \"v\")>", 0).expect("ADD must parse");
    assert_eq!(q, Query::Add { key: "k".to_string(), value: "v".to_string() });
}

#[test]
fn grammar_accepts_spread_whitespace() {
    let (_, spread) = parse_query("<  add :  ( \"k\" , \"v\" ) >", 0).expect("must parse");
    let (_, compact) = parse_query("<add: (\"k\", \"v\")>", 0).expect("must parse");
    assert_eq!(spread, compact);
    assert_eq!(spread, Query::Add { key: "k".to_string(), value: "v".to_string() });
}

#[test]
fn grammar_keyword_case_insensitive() {
    let (_, q) = parse_query("<GeT: (\"k\")>", 0).expect("mixed case must parse");
    assert_eq!(q, Query::Get { key: "k".to_string() });
}

#[test]
fn grammar_rejects_wrong_arity() {
    assert_eq!(parse_query("<ADD: (\"k\")>", 0), Err(ParseError { at: 0 }));
}

#[test]
fn grammar_rejects_unknown_command() {
    assert_eq!(parse_query("<FOO: (\"k\")>", 0), Err(ParseError { at: 0 }));
}

#[test]
fn grammar_rejects_unterminated_quote() {
    assert!(parse_query("<GET: (\"k)>", 0).is_err());
}

#[test]
fn from_string_builds_query() {
    let q = Query::from_string("<GET: (\"k\")>".to_string()).expect("legal line must parse");
    assert_eq!(q, Query::Get { key: "k".to_string() });
}

#[test]
fn from_string_reports_parse_error() {
    // The error marks the whole line as unconsumed input.
    assert_eq!(Query::from_string("garbage".to_string()), Err(ParseError { at: 0 }));
}

#[test]
fn unicode_whitespace_accepted() {
    // U+00A0 NO-BREAK SPACE has the Unicode White_Space property.
    let (_, q) = parse_query("<\u{A0}GET:\u{A0}(\u{A0}\"k\"\u{A0})\u{A0}>", 0).expect("must parse");
    assert_eq!(q, Query::Get { key: "k".to_string() });
}

#[test]
fn unicode_identifier_accepted() {
    // U+00B5 MICRO SIGN is Unicode-alphabetic, so it extends an identifier
    // (and may begin one); the keyword check then rejects it.
    assert_eq!(identifier("gµ", 0), Ok((2, "gµ".to_string())));
    assert!(parse_query("<gµ: (\"k\")>", 0).is_err());
}

#[test]
fn empty_key_and_value_parse() {
    let (_, q) = parse_query("<ADD: (\"\", \"\")>", 0).expect("empty strings are legal");
    assert_eq!(q, Query::Add { key: String::new(), value: String::new() });
}

#[test]
fn match_literal_prefix() {
    assert_eq!(match_literal("foobar", 0, "foo"), Ok(3));
    assert_eq!(match_literal("foobar", 3, "bar"), Ok(6));
    assert_eq!(match_literal("foobar", 0, "bar"), Err(ParseError { at: 0 }));
}

#[test]
fn identifier_run() {
    assert_eq!(identifier("abc-d!", 0), Ok((5, "abc-d".to_string())));
    assert_eq!(identifier("1abc", 0), Err(ParseError { at: 0 }));
    assert_eq!(identifier("-abc", 0), Err(ParseError { at: 0 }));
}

#[test]
fn quoted_string_captures() {
    assert_eq!(quoted_string("\"hi\" rest", 0), Ok((4, "hi".to_string())));
    assert_eq!(quoted_string("\"\"", 0), Ok((2, String::new())));
    assert_eq!(quoted_string("\"open", 0), Err(ParseError { at: 0 }));
    assert_eq!(quoted_string("hi", 0), Err(ParseError { at: 0 }));
}

#[test]
fn whitespace_runs() {
    assert_eq!(space0("  x", 0), 2);
    assert_eq!(space0("x", 0), 0);
    assert_eq!(space1("  x", 0), Ok(2));
    assert_eq!(space1("x", 0), Err(ParseError { at: 0 }));
}

#[test]
fn key_and_key_val_forms() {
    assert_eq!(parse_key("( \"k\" )", 0), Ok((7, "k".to_string())));
    assert_eq!(
        parse_key_val("(\"k\",\"v\")", 0),
        Ok((9, ("k".to_string(), "v".to_string())))
    );
    assert_eq!(parse_key("(\"k\",\"v\")", 0), Err(ParseError { at: 0 }));
}

#[test]
fn get_and_add_alternatives() {
    assert!(parse_get("<GET: (\"k\")>", 0).is_ok());
    assert!(parse_get("<ADD: (\"k\", \"v\")>", 0).is_err());
    assert!(parse_add("<ADD: (\"k\", \"v\")>", 0).is_ok());
    assert!(parse_add("<GET: (\"k\")>", 0).is_err());
}

#[test]
fn response_line_forms() {
    assert_eq!(response_line(Some("v".to_string())), "v\n");
    assert_eq!(response_line(None), "\0\n");
}

#[test]
fn miss_line_detection() {
    assert!(is_miss_line("\0"));
    assert!(!is_miss_line(""));
    assert!(!is_miss_line("v"));
    assert!(!is_miss_line("\0\0"));
}
