use wotwot::http::{encode_request, lists_entries, parse_reply, request_for, ClientError, Command};

fn sent(cmd: Command) -> String {
    let req = request_for(&cmd);
    String::from_utf8(encode_request(&req)).unwrap()
}

#[test]
fn todo_add_posts_json_text() {
    let body = "{\"text\":\"buy \\\"milk\\\"\"}";
    assert_eq!(
        sent(Command::TodoAdd("buy \"milk\"".into())),
        format!(
            "POST /todo HTTP/1.1\r\nHost: wotwot\r\nConnection: close\r\nContent-Length: {}\r\nContent-Type: application/json\r\n\r\n{}",
            body.len(),
            body
        )
    );
}

#[test]
fn reorder_posts_id_list() {
    let body = "{\"ids\":[\"a\",\"b\"]}";
    assert_eq!(
        sent(Command::TodoReorder(vec!["a".into(), "b".into()])),
        format!(
            "POST /todo/reorder HTTP/1.1\r\nHost: wotwot\r\nConnection: close\r\nContent-Length: {}\r\nContent-Type: application/json\r\n\r\n{}",
            body.len(),
            body
        )
    );
}

#[test]
fn plain_requests_have_no_body() {
    assert_eq!(
        sent(Command::TodoRm("3".into())),
        "DELETE /todo/3 HTTP/1.1\r\nHost: wotwot\r\nConnection: close\r\nContent-Length: 0\r\n\r\n"
    );
    assert_eq!(
        sent(Command::InfoPop),
        "POST /info/pop HTTP/1.1\r\nHost: wotwot\r\nConnection: close\r\nContent-Length: 0\r\n\r\n"
    );
    assert_eq!(
        sent(Command::InfoList),
        "GET /info HTTP/1.1\r\nHost: wotwot\r\nConnection: close\r\nContent-Length: 0\r\n\r\n"
    );
    let r = request_for(&Command::InfoRm("ab-c".into()));
    assert_eq!(r.method, "DELETE");
    assert_eq!(r.path, "/info/ab-c");
    let r = request_for(&Command::InfoPush("hi".into()));
    assert_eq!((r.method.as_str(), r.path.as_str()), ("POST", "/info"));
    let r = request_for(&Command::TodoList);
    assert_eq!((r.method.as_str(), r.path.as_str()), ("GET", "/todo"));
}

#[test]
fn only_list_commands_print_listings() {
    assert!(lists_entries(&Command::TodoList));
    assert!(lists_entries(&Command::InfoList));
    assert!(!lists_entries(&Command::InfoPop));
    assert!(!lists_entries(&Command::TodoAdd("x".into())));
}

#[test]
fn reply_with_2xx_gives_body() {
    let r = parse_reply(b"HTTP/1.1 200 OK\r\ncontent-type: application/json\r\n\r\n{\"ok\":true}");
    assert_eq!(r.ok().unwrap(), "{\"ok\":true}");
    let r = parse_reply(b"HTTP/1.1 204 No Content\r\n\r\n");
    assert_eq!(r.ok().unwrap(), "");
}

#[test]
fn reply_with_other_status_is_an_error() {
    match parse_reply(b"HTTP/1.1 404 Not Found\r\n\r\nnope") {
        Err(ClientError::Status { code, body }) => {
            assert_eq!(code, 404);
            assert_eq!(body, "nope");
        },
        _ => panic!("expected a status error"),
    }
    let e = parse_reply(b"HTTP/1.1 500 Oops\r\n\r\nboom").err().unwrap();
    assert_eq!(e.message(), "HTTP 500: boom");
}

#[test]
fn unreadable_status_counts_as_code_zero() {
    for reply in [&b"garbage\r\n\r\nx"[..], b"HTTP/1.1 abc\r\n\r\nx", b"\r\n\r\nx", b"HTTP/1.1 99999\r\n\r\nx"] {
        match parse_reply(reply) {
            Err(ClientError::Status { code, body }) => {
                assert_eq!(code, 0);
                assert_eq!(body, "x");
            },
            _ => panic!("expected a status error"),
        }
    }
    // the code is the second word of the first line, whatever the spacing
    assert_eq!(parse_reply(b"  HTTP/1.1\t  +201 Created\r\n\r\nok").ok().unwrap(), "ok");
}

#[test]
fn malformed_and_non_utf8_replies() {
    assert!(matches!(parse_reply(b"HTTP/1.1 200 OK\r\n\r"), Err(ClientError::Malformed)));
    assert!(matches!(parse_reply(b""), Err(ClientError::Malformed)));
    assert!(matches!(
        parse_reply(b"HTTP/1.1 \xff200\r\n\r\n"),
        Err(ClientError::HeadNotUtf8 { valid_up_to: 9, error_len: Some(1) })
    ));
    assert_eq!(ClientError::Malformed.message(), "malformed response");
}

#[test]
fn body_is_read_lossily() {
    assert_eq!(parse_reply(b"HTTP/1.1 200 OK\r\n\r\na\xffb").ok().unwrap(), "a\u{fffd}b");
}

#[test]
fn non_utf8_head_message_is_std_text() {
    for head in [&b"HTTP/1.1 \xff200"[..], b"ab\xe2\x82", b"\xc3\x28 x", b"ok\xf0\x9f\x98"] {
        let mut reply = head.to_vec();
        reply.extend_from_slice(b"\r\n\r\nbody");
        let expected = std::str::from_utf8(head).unwrap_err().to_string();
        match parse_reply(&reply) {
            Err(e) => assert_eq!(e.message(), expected),
            Ok(_) => panic!("expected an error"),
        }
    }
}
