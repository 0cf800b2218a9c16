use silent_nats::client::{
    handle_command, writer_result, ClientError, Effect, Reaction, Session,
};
use silent_nats::server::{ServerConfig, ServerError, ServerState};
use silent_nats::wire::{
    read_command, write_message, ClientCommand, ServerMessage, WireError,
};

fn server() -> ServerState {
    ServerState::new(
        "SERVER".to_string(),
        ServerConfig {
            port: 4222,
            max_payload: 8,
        },
    )
}

fn read(input: &[u8]) -> Result<Option<ClientCommand>, WireError> {
    read_command(input).0
}

fn command(input: &[u8]) -> ClientCommand {
    read(input).unwrap().unwrap()
}

#[test]
fn a_new_client_is_registered_and_greeted() {
    let mut state = server();
    let (a, greeting) = Session::open(&mut state, 1);
    let (b, _) = Session::open(&mut state, 2);
    assert_ne!(a.client_id(), b.client_id());
    assert_eq!(a.client_id().len(), 25);
    assert!(a
        .client_id()
        .chars()
        .all(|c| c.is_ascii_digit() || c.is_ascii_uppercase()));
    match greeting {
        ServerMessage::Info(info) => assert_eq!(info.server_id, "SERVER"),
        other => panic!("{:?}", other),
    }
    assert!(a.on_greeting(true).is_ok());
    assert!(matches!(
        a.on_greeting(false),
        Err(ClientError::ChannelClosed)
    ));
    let reaction = a.on_read(&mut state, read(b"SUB x 1\r\n"));
    assert!(matches!(reaction, Reaction::Continue));
}

#[test]
fn a_ping_is_answered() {
    let mut state = server();
    let session = Session::open_as(&mut state, "A".to_string(), 1);
    match session.on_read(&mut state, read(b"PING\r\n")) {
        Reaction::Reply(message) => assert_eq!(write_message(&message, ""), b"PONG\r\n"),
        other => panic!("{:?}", other),
    }
    assert!(matches!(
        session.on_read(&mut state, read(b"PONG\r\n")),
        Reaction::Continue
    ));
}

#[test]
fn a_verbose_client_gets_an_acknowledgement() {
    let mut state = server();
    let mut effect = |input: &[u8]| handle_command(&mut state, "A", command(input)).unwrap();
    assert!(matches!(
        effect(b"CONNECT {\"verbose\":true}\r\n"),
        Effect::Reply(ServerMessage::Okay)
    ));
    assert!(matches!(
        effect(b"CONNECT {\"verbose\":false}\r\n"),
        Effect::Nothing
    ));
    assert!(matches!(effect(b"CONNECT {}\r\n"), Effect::Nothing));
}

#[test]
fn a_published_message_reaches_the_subscriber() {
    let mut state = server();
    let a = Session::open_as(&mut state, "A".to_string(), 1);
    let b = Session::open_as(&mut state, "B".to_string(), 2);
    assert!(matches!(
        a.on_read(&mut state, read(b"SUB test.> 7\r\n")),
        Reaction::Continue
    ));
    let mut publication = match b.on_read(&mut state, read(b"PUB test.hello 5\r\nHello\r\n")) {
        Reaction::Publish(publication) => publication,
        other => panic!("{:?}", other),
    };
    let delivery = state.next_delivery(&mut publication).unwrap();
    assert_eq!(delivery.sender, 1);
    assert_eq!(
        write_message(&delivery.message, ""),
        b"MSG test.hello 7 5\r\nHello\r\n"
    );
    state.report_delivery(&mut publication, true);
    assert!(state.next_delivery(&mut publication).is_none());
}

#[test]
fn a_subscription_ends_on_request() {
    let mut state = server();
    let a = Session::open_as(&mut state, "A".to_string(), 1);
    for line in [&b"SUB x 1\r\n"[..], b"UNSUB 1 3\r\n", b"UNSUB 1\r\n"] {
        assert!(matches!(
            a.on_read(&mut state, read(line)),
            Reaction::Continue
        ));
    }
    match a.on_read(&mut state, read(b"UNSUB 1\r\n")) {
        Reaction::Refuse { reply, error } => {
            assert_eq!(
                write_message(&reply, ""),
                "-ERR '订阅不存在: SubscriptionKey { client_id: \"A\", sid: \"1\" }'\r\n".as_bytes()
            );
            assert!(matches!(
                error,
                ClientError::Server(ServerError::SubscriptionNotFound(_))
            ));
        }
        other => panic!("{:?}", other),
    }
}

#[test]
fn a_refused_request_is_answered() {
    let mut state = server();
    let a = Session::open_as(&mut state, "A".to_string(), 1);
    for (line, answer) in [
        (
            &b"PUB x 9\r\n123456789\r\n"[..],
            "-ERR '消息负载超过限制: 9 > 8'\r\n",
        ),
        (
            b"SUB a.>.b 1\r\n",
            "-ERR '科目解析失败: '>' 通配符必须作为最后一段出现'\r\n",
        ),
        (b"NOPE\r\n", "-ERR '未知或不支持的命令: NOPE'\r\n"),
        (b"SUB a\r\n", "-ERR '命令参数缺失: SUB'\r\n"),
    ] {
        match a.on_read(&mut state, read(line)) {
            Reaction::Refuse { reply, error } => {
                assert_eq!(write_message(&reply, ""), answer.as_bytes());
                assert_eq!(
                    write_message(&ServerMessage::Error(error.message()), ""),
                    answer.as_bytes()
                );
            }
            other => panic!("{:?}", other),
        }
    }
}

#[test]
fn a_closed_channel_ends_the_connection() {
    let mut state = server();
    let a = Session::open_as(&mut state, "A".to_string(), 1);
    assert!(matches!(a.on_reply(true), Reaction::Continue));
    match a.on_reply(false) {
        Reaction::Refuse { reply, error } => {
            assert!(matches!(error, ClientError::ChannelClosed));
            assert!(matches!(reply, ServerMessage::Error(s) if s == "客户端写通道已关闭"));
        }
        other => panic!("{:?}", other),
    }
}

#[test]
fn a_closed_connection_leaves_no_subscription() {
    let mut state = server();
    let a = Session::open_as(&mut state, "A".to_string(), 1);
    a.on_read(&mut state, read(b"SUB x 1\r\n"));
    assert!(matches!(a.on_read(&mut state, read(b"")), Reaction::Close));
    a.close(&mut state);
    let mut publication = state.publish("x", None, Vec::new()).unwrap();
    assert!(state.next_delivery(&mut publication).is_none());
    assert!(publication.is_finished());
}

#[test]
fn a_connection_ends_as_its_writer_does() {
    assert!(writer_result(Ok(Ok(()))).is_ok());
    let e = writer_result(Ok(Err(WireError::Io("broken".to_string())))).unwrap_err();
    assert_eq!(e.message(), "IO 错误: broken");
    let e = writer_result(Err("cancelled".to_string())).unwrap_err();
    assert_eq!(e.message(), "写循环 Join 失败: cancelled");
    assert_eq!(
        ClientError::Io("x".to_string()).message(),
        "IO 错误: x"
    );
    assert_eq!(
        ClientError::from(WireError::Utf8).message(),
        WireError::Utf8.message()
    );
}

#[test]
fn a_refused_command_changes_nothing() {
    let mut state = server();
    let a = Session::open_as(&mut state, "A".to_string(), 1);
    a.on_read(&mut state, read(b"SUB x 1\r\n"));
    for line in [&b"SUB y..z 1\r\n"[..], b"UNSUB 2\r\n", b"UNSUB 2 1\r\n"] {
        assert!(matches!(
            a.on_read(&mut state, read(line)),
            Reaction::Refuse { .. }
        ));
    }
    let mut publication = state.publish("x", None, Vec::new()).unwrap();
    assert_eq!(state.next_delivery(&mut publication).unwrap().sender, 1);
    state.report_delivery(&mut publication, true);
    assert!(publication.is_finished());
}

#[test]
fn a_command_keeps_to_its_client() {
    let mut state = server();
    let a = Session::open_as(&mut state, "A".to_string(), 1);
    let b = Session::open_as(&mut state, "B".to_string(), 2);
    a.on_read(&mut state, read(b"SUB x 1\r\n"));
    assert!(matches!(
        b.on_read(&mut state, read(b"UNSUB 1\r\n")),
        Reaction::Refuse { .. }
    ));
    let mut publication = state.publish("x", None, Vec::new()).unwrap();
    assert_eq!(state.next_delivery(&mut publication).unwrap().sender, 1);
}
