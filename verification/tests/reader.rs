use log_ingestor::reader::{section, LogRequest, ParseError};

#[test]
fn a_request_line_gives_verb_path_section_and_protocol() {
    assert_eq!(
        LogRequest::from_str("GET /api/user HTTP/1.0"),
        Ok(LogRequest {
            verb: "GET".to_string(),
            path: "/api/user".to_string(),
            section: "/api".to_string(),
            protocol: "HTTP/1.0".to_string(),
        })
    );
    assert_eq!(
        LogRequest::from_str("POST /report HTTP/1.0"),
        Ok(LogRequest {
            verb: "POST".to_string(),
            path: "/report".to_string(),
            section: "/report".to_string(),
            protocol: "HTTP/1.0".to_string(),
        })
    );
}

#[test]
fn white_space_round_the_words_and_words_behind_the_third_are_passed_over() {
    assert_eq!(
        LogRequest::from_str(" \t GET \n  /web/portal/x\u{3000}HTTP/1.1 \r\n more words "),
        Ok(LogRequest {
            verb: "GET".to_string(),
            path: "/web/portal/x".to_string(),
            section: "/web".to_string(),
            protocol: "HTTP/1.1".to_string(),
        })
    );
}

#[test]
fn a_line_of_fewer_than_three_words_is_refused_by_the_part_that_is_missing() {
    assert_eq!(LogRequest::from_str(""), Err(ParseError::NoVerb("".to_string())));
    assert_eq!(LogRequest::from_str("  \t "), Err(ParseError::NoVerb("  \t ".to_string())));
    assert_eq!(LogRequest::from_str("GET"), Err(ParseError::NoPath("GET".to_string())));
    assert_eq!(LogRequest::from_str(" GET  "), Err(ParseError::NoPath(" GET  ".to_string())));
    assert_eq!(
        LogRequest::from_str("GET /api/user"),
        Err(ParseError::NoProtocol("GET /api/user".to_string()))
    );
}

#[test]
fn parse_errors_say_what_went_wrong() {
    assert_eq!(ParseError::NoVerb("".to_string()).message(), "Invalid line, no verb: ");
    assert_eq!(ParseError::NoPath("GET".to_string()).message(), "Invalid line, no path: GET");
    assert_eq!(
        ParseError::NoProtocol("GET /a".to_string()).message(),
        "Invalid line, no protocol: GET /a"
    );
    assert_eq!(ParseError::Malformed("bad record".to_string()).message(), "bad record");
}

#[test]
fn the_section_is_the_first_segment_of_the_path() {
    assert_eq!(section("/api/user"), "/api");
    assert_eq!(section("/api"), "/api");
    assert_eq!(section("api/user"), "api");
    assert_eq!(section("/"), "/");
    assert_eq!(section("//x"), "/");
    assert_eq!(section(""), "");
    assert_eq!(section("/caf\u{e9}/x"), "/caf\u{e9}");
    assert_eq!(section("\u{1f600}/x"), "\u{1f600}");
}

#[test]
fn words_are_split_where_the_standard_library_splits_them() {
    for code in 0..=0x10ffffu32 {
        let c = match char::from_u32(code) {
            Some(c) => c,
            None => continue,
        };
        let line = format!("a{}b /x HTTP/1.0", c);
        let expected: Vec<&str> = line.split_whitespace().collect();
        let request = LogRequest::from_str(&line).unwrap();
        assert_eq!(request.verb, expected[0], "{:x}", code);
        assert_eq!(request.path, expected[1], "{:x}", code);
        assert_eq!(request.protocol, expected[2], "{:x}", code);
    }
}
