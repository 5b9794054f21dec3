use whois42d_ng::protocol::{LineStep, connection_step};
use whois42d_ng::protocol::{QueryLineError, query_log_text, read_query_line, rejection_text};

#[test]
fn reads_crlf_terminated_query_without_line_ending() {
    let query = read_query_line(b"AS4242423011\r\nextra").expect("query should parse");

    assert_eq!(query, "AS4242423011");
}

#[test]
fn reads_lf_terminated_query_without_line_ending() {
    let query = read_query_line(b"-q types\n").expect("query should parse");

    assert_eq!(query, "-q types");
}

#[test]
fn rejects_overlong_query_lines() {
    let input = vec![b'a'; whois42d_ng::protocol::MAX_QUERY_LEN + 1];

    assert_eq!(read_query_line(&input), Err(QueryLineError::TooLong));
}

#[test]
fn accepts_max_length_query_with_crlf() {
    let mut input = vec![b'a'; whois42d_ng::protocol::MAX_QUERY_LEN];
    input.extend_from_slice(b"\r\n");

    let query = read_query_line(&input).expect("max length CRLF query should parse");

    assert_eq!(query.len(), whois42d_ng::protocol::MAX_QUERY_LEN);
}

#[test]
fn query_line_without_line_ending_is_taken_whole() {
    assert_eq!(read_query_line(b"AS4242423011").unwrap(), "AS4242423011");
}

#[test]
fn query_line_keeps_non_ascii_text() {
    assert_eq!(read_query_line("äöü\n".as_bytes()).unwrap(), "äöü");
}

#[test]
fn query_line_that_is_not_utf8_is_refused() {
    assert!(matches!(read_query_line(&[0xff, 0xfe, b'\n']), Err(QueryLineError::InvalidUtf8)));
}

#[test]
fn rejection_texts() {
    assert_eq!(rejection_text(QueryLineError::TooLong), "% error: query too long\n");
    assert_eq!(rejection_text(QueryLineError::InvalidUtf8), "% error: invalid query\n");
}

#[test]
fn logged_query_is_trimmed_and_shortened() {
    assert_eq!(query_log_text("  AS4242423011 \t"), "AS4242423011");
    let long = "a".repeat(100);
    assert_eq!(query_log_text(&long), format!("{}...", "a".repeat(80)));
    let exact = "b".repeat(80);
    assert_eq!(query_log_text(&exact), exact);
}

#[test]
fn empty_query_line_is_refused() {
    assert_eq!(read_query_line(b"\r\n"), Err(QueryLineError::Empty));
    assert_eq!(read_query_line(b""), Err(QueryLineError::Empty));
    assert_eq!(rejection_text(QueryLineError::Empty), "% error: invalid query\n");
}

#[test]
fn connection_steps() {
    assert!(matches!(connection_step(b"AS1\r\n"), LineStep::Query(q) if q == "AS1"));
    assert!(matches!(connection_step(b"\n"), LineStep::Reply("% error: invalid query\n")));
    let long = vec![b'a'; 1025];
    assert!(matches!(connection_step(&long), LineStep::Reply("% error: query too long\n")));
}
