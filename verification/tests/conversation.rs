//! Framing and errors of the pipe between the editor and the service.
use openfan::rpc::{
    check_reply, framed, incoming, malformed, open_error, service_reachable, Inbox, Incoming,
    Response, RpcError, ERROR_FILE_NOT_FOUND, ERROR_PIPE_BUSY, PROTOCOL_VERSION,
};
use openfan::text::is_blank;
use serde_json::Value;

/// What the service under test answers to a line.
fn answer(line: &str) -> Response {
    match serde_json::from_str::<Value>(line) {
        Ok(value) if value["kind"].as_str() == Some("hello") => {
            Response::Hello { version: "test".into(), protocol: PROTOCOL_VERSION }
        }
        Ok(_) => Response::Answer,
        Err(e) => malformed(&e.to_string()),
    }
}

/// A response as one line of JSON.
fn encoded(response: &Response) -> String {
    match response {
        Response::Hello { version, protocol } => {
            format!("{{\"kind\":\"hello\",\"version\":\"{version}\",\"protocol\":{protocol}}}")
        }
        Response::Error { message } => {
            format!("{{\"kind\":\"error\",\"message\":\"{message}\"}}")
        }
        Response::Answer => "{\"kind\":\"ok\"}".to_owned(),
    }
}

/// The lines on a connection on which these pieces come in.
fn lines(pieces: &[&[u8]]) -> Vec<Vec<u8>> {
    let mut inbox = Inbox::new();
    let mut out = Vec::new();
    for piece in pieces {
        out.extend(inbox.hear(&piece.to_vec()));
    }
    out.extend(inbox.close());
    out
}

/// The conversation over plain bytes, so framing is tested without a pipe.
fn exchange_bytes(input: &[u8]) -> String {
    let mut out: Vec<u8> = Vec::new();
    for line in lines(&[input]) {
        let response = match incoming(&line) {
            Incoming::Nothing => continue,
            Incoming::Answer(response) => response,
            Incoming::Request(text) => answer(&text),
        };
        out.extend(framed(&encoded(&response).into_bytes()));
    }
    String::from_utf8(out).unwrap()
}

fn exchange(input: &str) -> String {
    exchange_bytes(input.as_bytes())
}

#[test]
fn a_request_gets_exactly_one_line_back() {
    let out = exchange("{\"kind\":\"hello\"}\n");
    assert_eq!(out.lines().count(), 1, "{out}");
    assert!(out.contains("\"protocol\""), "{out}");
}

#[test]
fn several_requests_on_one_connection_are_answered_in_order() {
    let out = exchange("{\"kind\":\"hello\"}\n{\"kind\":\"rescan\"}\n");
    let lines: Vec<&str> = out.lines().collect();
    assert_eq!(lines.len(), 2, "{out}");
    assert!(lines[0].contains("hello"), "{out}");
    assert!(lines[1].contains("ok"), "{out}");
}

#[test]
fn nonsense_is_answered_rather_than_dropped() {
    // A client that sends garbage must be told so. Closing the pipe instead leaves it
    // unable to tell a protocol bug from the service being gone.
    let out = exchange("not json at all\n");
    assert!(out.contains("malformed request"), "{out}");
    assert_eq!(out.lines().count(), 1, "{out}");
}

#[test]
fn blank_lines_are_ignored_rather_than_answered() {
    let out = exchange("\n\n{\"kind\":\"rescan\"}\n");
    assert_eq!(out.lines().count(), 1, "{out}");
}

#[test]
fn errors_are_values_rather_than_dropped_connections() {
    let failure = Response::Error { message: "no hardware".into() };
    assert_eq!(failure.error_message(), Some("no hardware"));
    assert_eq!(Response::Answer.error_message(), None);
}

#[test]
fn an_unreachable_service_is_named_as_such() {
    // On a machine with no service running this is the ordinary first-run state, and
    // the editor renders it as guidance rather than an error.
    for os in [ERROR_FILE_NOT_FOUND, ERROR_PIPE_BUSY] {
        assert_eq!(open_error(Some(os), "x".to_owned()), RpcError::NotRunning);
    }
    assert_eq!(open_error(Some(5), "denied".to_owned()), RpcError::Io("denied".to_owned()));
    assert_eq!(open_error(None, "odd".to_owned()), RpcError::Io("odd".to_owned()));
    assert!(!service_reachable(&Err(RpcError::NotRunning)));
}

#[test]
fn only_a_greeting_shows_that_the_service_listens() {
    let hello = Response::Hello { version: "1".to_owned(), protocol: PROTOCOL_VERSION };
    assert!(service_reachable(&Ok(hello)));
    assert!(!service_reachable(&Ok(Response::Answer)));
    assert!(!service_reachable(&Ok(Response::Error { message: "no".to_owned() })));
}

#[test]
fn an_empty_reply_is_a_closed_connection() {
    assert_eq!(check_reply(""), Err(RpcError::Closed));
    assert_eq!(check_reply(" \r\n"), Err(RpcError::Closed));
    assert_eq!(check_reply("{}\n"), Ok(()));
}

#[test]
fn what_is_framed_line_by_line_arrives_line_by_line() {
    let messages: Vec<Vec<u8>> = vec![b"a".to_vec(), b"b c".to_vec(), b"{\"d\":1}".to_vec()];
    assert_eq!(framed(&b"a".to_vec()), b"a\n");
    let sent: Vec<u8> = messages.iter().flat_map(framed).collect();
    assert_eq!(lines(&[&sent]), messages);
    // As std has it: a carriage return before the newline is not part of the line, and text
    // after the last newline is a line of its own.
    for text in ["", "\n", "a", "a\n", "a\r\nb", "a\rb\n\n", "a\r"] {
        let expected: Vec<Vec<u8>> = text.lines().map(|l| l.as_bytes().to_vec()).collect();
        assert_eq!(lines(&[text.as_bytes()]), expected, "{text:?}");
    }
}

#[test]
fn lines_do_not_depend_on_the_pieces_they_come_in() {
    let text: &[u8] = "one\r\ntwo\n\nl\u{e9}ft over".as_bytes();
    let whole = lines(&[text]);
    assert_eq!(whole.len(), 4);
    for cut in 0..=text.len() {
        assert_eq!(lines(&[&text[..cut], &text[cut..]]), whole, "{cut}");
    }
    // A carriage return that is cut off from its newline still belongs to it.
    let mut inbox = Inbox::new();
    assert_eq!(inbox.hear(&b"one\r".to_vec()), Vec::<Vec<u8>>::new());
    assert_eq!(inbox.hear(&b"\ntwo".to_vec()), vec![b"one".to_vec()]);
    assert_eq!(inbox.close(), Some(b"two".to_vec()));
    assert_eq!(inbox.close(), None);
}

#[test]
fn what_is_not_text_is_answered_and_the_connection_stays() {
    let out = exchange_bytes(b"\xff\xfe\n{\"kind\":\"hello\"}\n");
    let lines: Vec<&str> = out.lines().collect();
    assert_eq!(lines.len(), 2, "{out}");
    assert!(lines[0].contains("malformed request: the line is not valid UTF-8"), "{out}");
    assert!(lines[1].contains("hello"), "{out}");
    assert_eq!(incoming(&"caf\u{e9}".as_bytes().to_vec()), Incoming::Request("caf\u{e9}".to_owned()));
    assert_eq!(incoming(&b" \t".to_vec()), Incoming::Nothing);
}

#[test]
fn transport_failures_explain_themselves() {
    assert_eq!(RpcError::NotRunning.message(), "the OpenFan service is not running");
    assert_eq!(RpcError::Io("x".to_owned()).message(), "transport failed: x");
    assert_eq!(
        RpcError::Protocol("x".to_owned()).message(),
        "could not understand the other end: x"
    );
    assert_eq!(RpcError::Closed.message(), "the connection closed before a reply arrived");
    assert_eq!(
        RpcError::Unsupported.message(),
        "named-pipe transport is only implemented on Windows"
    );
}

#[test]
fn white_space_is_what_unicode_says_it_is() {
    let codes: Vec<u32> = (0..=0x10FFFF_u32)
        .filter(|&code| char::from_u32(code).is_some_and(|c| is_blank(&c.to_string())))
        .collect();
    let mut expected: Vec<u32> = (0x9..=0xD).collect();
    expected.extend([0x20, 0x85, 0xA0, 0x1680]);
    expected.extend(0x2000..=0x200A);
    expected.extend([0x2028, 0x2029, 0x202F, 0x205F, 0x3000]);
    assert_eq!(codes, expected);
}
