use silent_nats::wire::{
    connect_command, finish_publish, info_message, info_message_at, parse_command, read_command,
    read_line, split_command, write_message, ClientCommand, Line, OutboundMessage, PublishHeader,
    ServerMessage, WireError, VERSION,
};

fn command(input: &[u8]) -> ClientCommand {
    let (outcome, taken) = read_command(input);
    assert_eq!(taken, input.len());
    outcome.unwrap().unwrap()
}

fn error(input: &[u8]) -> WireError {
    read_command(input).0.unwrap_err()
}

#[test]
fn ping_and_pong_are_read() {
    assert!(matches!(command(b"PING\r\n"), ClientCommand::Ping));
    assert!(matches!(command(b"PONG\r\n"), ClientCommand::Pong));
    assert!(matches!(command(b"  PING  \n"), ClientCommand::Ping));
    assert!(matches!(command(b"PING now"), ClientCommand::Ping));
}

#[test]
fn the_pong_of_the_server_is_read_as_a_pong() {
    let bytes = write_message(&ServerMessage::Pong, "");
    assert_eq!(bytes, b"PONG\r\n");
    assert!(matches!(command(&bytes), ClientCommand::Pong));
}

#[test]
fn a_subscription_is_read_back() {
    match command(b"SUB test.> 7\r\n") {
        ClientCommand::Sub(sub) => {
            assert_eq!(sub.subject, "test.>");
            assert_eq!(sub.queue_group, None);
            assert_eq!(sub.sid, "7");
        }
        other => panic!("{:?}", other),
    }
    match command("SUB 测试.* workers  9 \r\n".as_bytes()) {
        ClientCommand::Sub(sub) => {
            assert_eq!(sub.subject, "测试.*");
            assert_eq!(sub.queue_group, Some("workers".to_string()));
            assert_eq!(sub.sid, "9");
        }
        other => panic!("{:?}", other),
    }
}

#[test]
fn faulty_subscriptions_are_refused() {
    assert!(matches!(error(b"SUB\r\n"), WireError::MissingArgument("SUB")));
    assert!(matches!(error(b"SUB a\r\n"), WireError::MissingArgument("SUB")));
    match error(b"SUB a b c d\r\n") {
        WireError::InvalidArgument(rest) => assert_eq!(rest, "a b c d"),
        other => panic!("{:?}", other),
    }
}

#[test]
fn the_end_of_a_subscription_is_read_back() {
    match command(b"UNSUB 7\r\n") {
        ClientCommand::Unsub(unsub) => {
            assert_eq!(unsub.sid, "7");
            assert_eq!(unsub.max_msgs, None);
        }
        other => panic!("{:?}", other),
    }
    match command(b"UNSUB 7 18446744073709551615\r\n") {
        ClientCommand::Unsub(unsub) => {
            assert_eq!(unsub.sid, "7");
            assert_eq!(unsub.max_msgs, Some(u64::MAX));
        }
        other => panic!("{:?}", other),
    }
}

#[test]
fn faulty_ends_of_subscriptions_are_refused() {
    assert!(matches!(
        error(b"UNSUB \r\n"),
        WireError::MissingArgument("UNSUB")
    ));
    match error(b"UNSUB 1 2 3\r\n") {
        WireError::InvalidArgument(rest) => assert_eq!(rest, "1 2 3"),
        other => panic!("{:?}", other),
    }
    let e = error(b"UNSUB 1 many\r\n");
    assert_eq!(
        e.message(),
        "命令参数无效: UNSUB 无法解析最大消息数: many"
    );
}

#[test]
fn a_publication_is_read_back() {
    match command(b"PUB test.hello 5\r\nHello\r\n") {
        ClientCommand::Pub(publish) => {
            assert_eq!(publish.subject, "test.hello");
            assert_eq!(publish.reply_to, None);
            assert_eq!(publish.payload, b"Hello");
        }
        other => panic!("{:?}", other),
    }
    match command(b"PUB a inbox.1 6\r\n\r\n\xff\x00\r\n\r\n") {
        ClientCommand::Pub(publish) => {
            assert_eq!(publish.reply_to, Some("inbox.1".to_string()));
            assert_eq!(publish.payload, b"\r\n\xff\x00\r\n");
        }
        other => panic!("{:?}", other),
    }
    match command(b"PUB a 0\r\n\r\n") {
        ClientCommand::Pub(publish) => assert!(publish.payload.is_empty()),
        other => panic!("{:?}", other),
    }
}

#[test]
fn faulty_publications_are_refused() {
    assert!(matches!(
        error(b"PUB\r\n"),
        WireError::MissingArgument("PUB subject")
    ));
    assert!(matches!(
        error(b"PUB a\r\n"),
        WireError::MissingArgument("PUB length")
    ));
    let e = error(b"PUB a b c d\r\n");
    assert_eq!(e.message(), "命令参数无效: PUB 无法解析消息长度: c");
    match error(b"PUB a b 1 d\r\n") {
        WireError::InvalidArgument(rest) => assert_eq!(rest, "a b 1 d"),
        other => panic!("{:?}", other),
    }
    let e = error(b"PUB a 99999999999999999999999\r\n");
    assert_eq!(
        e.message(),
        "命令参数无效: PUB 无法解析消息长度: 99999999999999999999999"
    );
    let e = error(b"PUB a 2\r\nabXX");
    assert_eq!(e.message(), "命令参数无效: PUB 负载未以 CRLF 结尾");
}

#[test]
fn an_input_that_ends_in_a_payload_is_reported() {
    let input = b"PUB a 5\r\nHello\r";
    let (outcome, taken) = read_command(input);
    assert_eq!(taken, input.len());
    let e = outcome.unwrap_err();
    assert_eq!(e.message(), "IO 错误: early eof");
    assert!(matches!(
        error(b"PUB a 18446744073709551615\r\nx"),
        WireError::Io(_)
    ));
}

#[test]
fn a_connect_holds_its_options() {
    match command(b"CONNECT {\"verbose\":true,\"name\":\"x\"}\r\n") {
        ClientCommand::Connect(connect) => {
            assert_eq!(connect.options, "{\"verbose\":true,\"name\":\"x\"}");
            assert_eq!(connect.verbose, Some(true));
        }
        other => panic!("{:?}", other),
    }
    for (json, verbose) in [
        ("{\"verbose\":false}", Some(false)),
        ("{\"verbose\":\"true\"}", None),
        ("{\"pedantic\":true}", None),
        ("[true]", None),
        ("true", None),
        ("{}", None),
    ] {
        match command(format!("CONNECT {}\r\n", json).as_bytes()) {
            ClientCommand::Connect(connect) => assert_eq!(connect.verbose, verbose),
            other => panic!("{:?}", other),
        }
    }
}

#[test]
fn a_connect_without_json_is_refused() {
    assert!(matches!(
        error(b"CONNECT\r\n"),
        WireError::MissingArgument("CONNECT")
    ));
    for json in ["{bad", "nothing", "{} {}"] {
        let words = serde_json::from_str::<serde_json::Value>(json)
            .unwrap_err()
            .to_string();
        let e = error(format!("CONNECT {}\r\n", json).as_bytes());
        assert_eq!(e.message(), format!("JSON 解析失败: {}", words));
    }
}

#[test]
fn a_connect_follows_what_the_reader_says() {
    match connect_command("{}", Ok(Some(true))).unwrap() {
        ClientCommand::Connect(connect) => {
            assert_eq!(connect.options, "{}");
            assert_eq!(connect.verbose, Some(true));
        }
        other => panic!("{:?}", other),
    }
    match connect_command("x", Err("no".to_string())).unwrap_err() {
        WireError::Json(words) => assert_eq!(words, "no"),
        other => panic!("{:?}", other),
    }
}

#[test]
fn an_unknown_command_is_refused() {
    let e = error(b"ping\r\n");
    assert!(matches!(&e, WireError::UnsupportedCommand(verb) if verb == "ping"));
    assert_eq!(e.message(), "未知或不支持的命令: ping");
    assert_eq!(error(b"SUB\r\n").message(), "命令参数缺失: SUB");
}

#[test]
fn a_line_that_is_no_utf8_is_refused() {
    let e = error(b"SUB \xff 1\r\n");
    assert!(matches!(e, WireError::Utf8));
    assert_eq!(e.message(), "协议帧不是有效的 UTF-8 数据");
}

#[test]
fn blank_lines_are_passed_over() {
    let input = b"\r\n\n  \t\r\nPING\r\nPONG\r\n";
    let (outcome, taken) = read_command(input);
    assert!(matches!(outcome.unwrap().unwrap(), ClientCommand::Ping));
    assert_eq!(taken, input.len() - 6);
    let (outcome, taken) = read_command(b"\r\n \n");
    assert!(outcome.unwrap().is_none());
    assert_eq!(taken, 4);
    assert!(read_command(b"").0.unwrap().is_none());
}

#[test]
fn a_line_asks_for_one_thing() {
    assert!(matches!(read_line(b" \r\n".to_vec()).unwrap(), Line::Blank));
    match read_line(b"PUB a r 3\r\n".to_vec()).unwrap() {
        Line::Publish(header) => {
            assert_eq!(header.subject, "a");
            assert_eq!(header.reply_to, Some("r".to_string()));
            assert_eq!(header.length, 3);
        }
        other => panic!("{:?}", other),
    }
    assert!(matches!(
        parse_command("PING").unwrap(),
        Line::Command(ClientCommand::Ping)
    ));
    assert_eq!(split_command("SUB  a b"), ("SUB", "a b"));
    assert_eq!(split_command("PING"), ("PING", ""));
}

#[test]
fn a_payload_needs_its_line_end() {
    let header = || PublishHeader {
        subject: "a".to_string(),
        reply_to: None,
        length: 1,
    };
    assert!(finish_publish(header(), b"x".to_vec(), *b"\r\n").is_ok());
    assert!(finish_publish(header(), b"x".to_vec(), *b"\n\r").is_err());
}

#[test]
fn messages_are_framed() {
    let msg = OutboundMessage {
        subject: "test.hello".to_string(),
        sid: "9".to_string(),
        reply_to: None,
        payload: b"Hello\r\n!".to_vec(),
    };
    assert_eq!(
        write_message(&ServerMessage::Msg(msg.clone()), ""),
        b"MSG test.hello 9 8\r\nHello\r\n!\r\n"
    );
    let msg = OutboundMessage {
        reply_to: Some("inbox".to_string()),
        payload: vec![7; 12],
        ..msg
    };
    let mut expected = b"MSG test.hello 9 inbox 12\r\n".to_vec();
    expected.extend_from_slice(&[7; 12]);
    expected.extend_from_slice(b"\r\n");
    assert_eq!(write_message(&ServerMessage::Msg(msg).clone(), ""), expected);
    assert_eq!(write_message(&ServerMessage::Okay, "{}"), b"+OK\r\n");
    assert_eq!(
        write_message(&ServerMessage::Error("不".to_string()), ""),
        "-ERR '不'\r\n".as_bytes()
    );
}

#[test]
fn the_header_of_a_message_holds_its_parts() {
    let msg = ServerMessage::Msg(OutboundMessage {
        subject: "a.b".to_string(),
        sid: "1".to_string(),
        reply_to: Some("r".to_string()),
        payload: b"xyz".to_vec(),
    });
    let bytes = write_message(&msg, "");
    let end = bytes.iter().position(|b| *b == b'\n').unwrap() + 1;
    let header = String::from_utf8(bytes[..end].to_vec()).unwrap();
    let words: Vec<&str> = header.split_whitespace().collect();
    assert_eq!(words, vec!["MSG", "a.b", "1", "r", "3"]);
    assert_eq!(&bytes[end..], b"xyz\r\n");
}

#[test]
fn the_announcement_is_complete() {
    let before = chrono::Local::now().naive_local();
    let info = info_message("ID".to_string(), 4222, 1024);
    let later = chrono::Local::now().naive_local();
    assert!(before <= info.now && info.now <= later);
    let info = info_message_at("ID".to_string(), 4222, 1024, before);
    assert_eq!(info.server_id, "ID");
    assert_eq!(info.server_name, "silent-nats");
    assert_eq!(info.version, VERSION);
    assert_eq!(info.proto, 1);
    assert_eq!(info.host, "0.0.0.0");
    assert_eq!(info.port, 4222);
    assert_eq!(info.max_payload, 1024);
    assert_eq!(info.headers, Some(false));
    assert_eq!(info.auth_required, Some(false));
    assert_eq!(info.tls_required, Some(false));
    assert_eq!(info.jetstream, Some(false));
    assert_eq!(info.now, before);
    assert_eq!(
        write_message(&ServerMessage::Info(info), "{\"a\":1}"),
        b"INFO {\"a\":1}\r\n"
    );
}
