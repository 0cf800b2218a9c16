use silent_nats::server::publish::Publication;
use silent_nats::server::{ServerConfig, ServerError, ServerState, SubscriptionKey};
use silent_nats::subjects::SubjectError;
use silent_nats::wire::ServerMessage;

fn server() -> ServerState {
    ServerState::new("SERVER".to_string(), ServerConfig::default())
}

/// Carries a publication out; the channels in `closed` take nothing. Gives the channel, the
/// subscription and the success of each offer.
fn deliver(
    state: &mut ServerState,
    mut publication: Publication,
    closed: &[u64],
) -> Vec<(u64, String, bool)> {
    let mut offers = Vec::new();
    while let Some(delivery) = state.next_delivery(&mut publication) {
        let sid = match &delivery.message {
            ServerMessage::Msg(m) => m.sid.clone(),
            other => panic!("{:?}", other),
        };
        let sent = !closed.contains(&delivery.sender);
        state.report_delivery(&mut publication, sent);
        offers.push((delivery.sender, sid, sent));
    }
    assert!(publication.is_finished());
    offers
}

fn publish(state: &mut ServerState, subject: &str, closed: &[u64]) -> Vec<(u64, String, bool)> {
    let publication = state.publish(subject, None, b"x".to_vec()).unwrap();
    let mut offers = deliver(state, publication, closed);
    offers.sort();
    offers
}

fn taken(channel: u64, sid: &str) -> (u64, String, bool) {
    (channel, sid.to_string(), true)
}

#[test]
fn the_usual_configuration() {
    let config = ServerConfig::default();
    assert_eq!(config.port, 4222);
    assert_eq!(config.max_payload, 1048576);
    let state = ServerState::new("X".to_string(), config);
    assert_eq!(state.server_id(), "X");
    match state.info() {
        ServerMessage::Info(info) => {
            assert_eq!(info.server_id, "X");
            assert_eq!(info.port, 4222);
            assert_eq!(info.max_payload, 1048576);
        }
        other => panic!("{:?}", other),
    }
    let now = chrono::NaiveDateTime::default();
    match state.info_at(now) {
        ServerMessage::Info(info) => assert_eq!(info.now, now),
        other => panic!("{:?}", other),
    }
}

#[test]
fn keys_are_ordered_by_client_and_identifier() {
    let key = |c: &str, s: &str| SubscriptionKey::new(c, s);
    assert!(key("a", "2").is_before(&key("b", "1")));
    assert!(key("a", "1").is_before(&key("a", "2")));
    assert!(!key("a", "1").is_before(&key("a", "1")));
    assert!(key("a", "10").is_before(&key("a", "2")));
    assert!(key("a", "1") < key("a", "2"));
}

#[test]
fn every_interested_subscription_gets_a_message_once() {
    let mut state = server();
    state.register_client("A".to_string(), 1);
    state.register_client("B".to_string(), 2);
    state.add_subscription("A", "1", "test.>", None).unwrap();
    state.add_subscription("A", "2", "test.hello", None).unwrap();
    state.add_subscription("A", "3", "other", None).unwrap();
    state.add_subscription("B", "1", "test.*", None).unwrap();
    assert_eq!(
        publish(&mut state, "test.hello", &[]),
        vec![taken(1, "1"), taken(1, "2"), taken(2, "1")]
    );
    assert_eq!(publish(&mut state, "nobody", &[]), vec![]);
}

#[test]
fn a_message_keeps_its_parts() {
    let mut state = server();
    state.register_client("A".to_string(), 5);
    state.add_subscription("A", "s", "a.*", None).unwrap();
    let mut publication = state
        .publish("a.b", Some("inbox".to_string()), b"payload".to_vec())
        .unwrap();
    let delivery = state.next_delivery(&mut publication).unwrap();
    assert_eq!(delivery.sender, 5);
    match delivery.message {
        ServerMessage::Msg(m) => {
            assert_eq!(m.subject, "a.b");
            assert_eq!(m.sid, "s");
            assert_eq!(m.reply_to, Some("inbox".to_string()));
            assert_eq!(m.payload, b"payload");
        }
        other => panic!("{:?}", other),
    }
}

#[test]
fn the_members_of_a_queue_take_turns() {
    let mut state = server();
    for (client, channel) in [("A", 1), ("B", 2), ("C", 3)] {
        state.register_client(client.to_string(), channel);
    }
    let queue = || Some("workers".to_string());
    state.add_subscription("C", "1", "test.>", queue()).unwrap();
    state.add_subscription("A", "1", "test.>", queue()).unwrap();
    state.add_subscription("B", "1", "test.>", queue()).unwrap();
    let mut order = Vec::new();
    for _ in 0..7 {
        let offers = publish(&mut state, "test.job", &[]);
        assert_eq!(offers.len(), 1);
        order.push(offers[0].0);
    }
    assert_eq!(order, vec![1, 2, 3, 1, 2, 3, 1]);
}

#[test]
fn a_message_for_others_leaves_the_turn() {
    let mut state = server();
    state.register_client("A".to_string(), 1);
    state.register_client("B".to_string(), 2);
    let queue = || Some("q".to_string());
    state.add_subscription("A", "1", "x", queue()).unwrap();
    state.add_subscription("B", "1", "x", queue()).unwrap();
    state.add_subscription("A", "2", "y", queue()).unwrap();
    assert_eq!(publish(&mut state, "x", &[]), vec![taken(1, "1")]);
    assert_eq!(publish(&mut state, "y", &[]), vec![taken(1, "2")]);
    assert_eq!(publish(&mut state, "x", &[]), vec![taken(2, "1")]);
}

#[test]
fn a_queue_is_shared_over_different_subjects() {
    let mut state = server();
    state.register_client("c".to_string(), 8);
    let queue = || Some("workers".to_string());
    state.add_subscription("c", "1", "test.>", queue()).unwrap();
    state.add_subscription("c", "2", "test.*", queue()).unwrap();
    assert_eq!(publish(&mut state, "test.hello", &[]), vec![taken(8, "1")]);
    assert_eq!(publish(&mut state, "test.hello", &[]), vec![taken(8, "2")]);
    assert_eq!(publish(&mut state, "test.hello", &[]), vec![taken(8, "1")]);
    // Only one of the two is interested.
    assert_eq!(publish(&mut state, "test.a.b", &[]), vec![taken(8, "1")]);
}

#[test]
fn queues_of_different_names_are_different() {
    let mut state = server();
    state.register_client("A".to_string(), 1);
    state.register_client("B".to_string(), 2);
    state.add_subscription("A", "1", "x.*", Some("q".to_string())).unwrap();
    state.add_subscription("B", "1", "x.*", Some("r".to_string())).unwrap();
    assert_eq!(
        publish(&mut state, "x.y", &[]),
        vec![taken(1, "1"), taken(2, "1")]
    );
}

#[test]
fn each_member_of_a_queue_gets_exactly_one_message_of_a_round() {
    let mut state = server();
    let subjects = ["x.>", "x.*", "*.y"];
    for (i, client) in ["A", "B", "C"].iter().enumerate() {
        state.register_client(client.to_string(), i as u64);
        state
            .add_subscription(client, "1", subjects[i], Some("q".to_string()))
            .unwrap();
    }
    for round in 0..3 {
        let mut got = Vec::new();
        for _ in 0..3 {
            let offers = publish(&mut state, "x.y", &[]);
            assert_eq!(offers.len(), 1);
            got.push(offers[0].0);
        }
        assert_eq!(got, vec![0, 1, 2], "round {}", round);
    }
}

/// The channel and the subscription of the only offer of each message.
fn one_each(state: &mut ServerState, subjects: &[&str]) -> Vec<(u64, String)> {
    subjects
        .iter()
        .map(|subject| {
            let offers = publish(state, subject, &[]);
            assert_eq!(offers.len(), 1);
            (offers[0].0, offers[0].1.clone())
        })
        .collect()
}

#[test]
fn the_subjects_of_a_queue_have_turns_of_their_own() {
    let mut state = server();
    for (client, channel) in [("A", 1), ("B", 2)] {
        state.register_client(client.to_string(), channel);
        for (sid, subject) in [("1", "x"), ("2", "y")] {
            state
                .add_subscription(client, sid, subject, Some("q".to_string()))
                .unwrap();
        }
    }
    let got = one_each(&mut state, &["x", "y", "x", "y", "x"]);
    let expected = [(1, "1"), (1, "2"), (2, "1"), (2, "2"), (1, "1")];
    assert_eq!(got, expected.map(|(c, sid)| (c, sid.to_string())).to_vec());
}

#[test]
fn messages_for_one_member_of_a_queue_leave_the_turn_of_the_others() {
    let mut state = server();
    for (client, channel, subject) in [("A", 1, "x"), ("B", 2, "x"), ("C", 3, "y")] {
        state.register_client(client.to_string(), channel);
        state
            .add_subscription(client, "1", subject, Some("q".to_string()))
            .unwrap();
    }
    let got = one_each(&mut state, &["x", "y", "x", "y", "x"]);
    let channels: Vec<u64> = got.iter().map(|(channel, _)| *channel).collect();
    assert_eq!(channels, vec![1, 3, 2, 3, 1]);
}

#[test]
fn messages_for_some_members_of_a_queue_leave_the_turn_of_all() {
    let mut state = server();
    for (client, channel, subject) in [("A", 1, "x.>"), ("B", 2, "x.*"), ("C", 3, "x.>")] {
        state.register_client(client.to_string(), channel);
        state
            .add_subscription(client, "1", subject, Some("q".to_string()))
            .unwrap();
    }
    // x.y is for all three, x.y.z only for the first and the third.
    let subjects = ["x.y", "x.y.z", "x.y", "x.y.z", "x.y", "x.y.z", "x.y"];
    let got = one_each(&mut state, &subjects);
    let channels: Vec<u64> = got.iter().map(|(channel, _)| *channel).collect();
    assert_eq!(channels, vec![1, 1, 2, 3, 3, 1, 1]);
}

#[test]
fn a_turn_lasts_as_long_as_the_subjects_for_which_it_is_kept() {
    let mut state = server();
    state.register_client("A".to_string(), 1);
    state.register_client("B".to_string(), 2);
    let queue = || Some("q".to_string());
    state.add_subscription("A", "1", "x.>", queue()).unwrap();
    state.add_subscription("B", "1", "x.*", queue()).unwrap();
    state.add_subscription("B", "2", "elsewhere", queue()).unwrap();
    assert_eq!(publish(&mut state, "x.y", &[]), vec![taken(1, "1")]);
    // The other subscription to x.* keeps the turn.
    state.add_subscription("B", "3", "x.*", queue()).unwrap();
    state.remove_subscription("B", "1").unwrap();
    assert_eq!(publish(&mut state, "x.y", &[]), vec![taken(2, "3")]);
    assert_eq!(publish(&mut state, "x.y", &[]), vec![taken(1, "1")]);
    // Without one to x.* it is forgotten.
    state.remove_subscription("B", "3").unwrap();
    state.add_subscription("B", "1", "x.*", queue()).unwrap();
    assert_eq!(publish(&mut state, "x.y", &[]), vec![taken(1, "1")]);
}

#[test]
fn a_queue_passes_over_closed_channels() {
    let mut state = server();
    for (client, channel) in [("A", 1), ("B", 2), ("C", 3)] {
        state.register_client(client.to_string(), channel);
        state
            .add_subscription(client, "1", "x", Some("q".to_string()))
            .unwrap();
    }
    let publication = state.publish("x", None, Vec::new()).unwrap();
    assert_eq!(
        deliver(&mut state, publication, &[1]),
        vec![(1, "1".to_string(), false), taken(2, "1")]
    );
    // A is gone; the turn is at index 2 of the three members, which wraps around.
    let publication = state.publish("x", None, Vec::new()).unwrap();
    assert_eq!(deliver(&mut state, publication, &[]), vec![taken(2, "1")]);
    assert!(matches!(
        state.add_subscription("A", "1", "x", None),
        Err(ServerError::ClientNotFound(_))
    ));
}

#[test]
fn a_queue_gives_up_after_all_its_members() {
    let mut state = server();
    for (client, channel) in [("A", 1), ("B", 2)] {
        state.register_client(client.to_string(), channel);
        state
            .add_subscription(client, "1", "x", Some("q".to_string()))
            .unwrap();
    }
    let publication = state.publish("x", None, Vec::new()).unwrap();
    let offers = deliver(&mut state, publication, &[1, 2]);
    assert_eq!(
        offers,
        vec![(1, "1".to_string(), false), (2, "1".to_string(), false)]
    );
    assert_eq!(publish(&mut state, "x", &[]), vec![]);
}

#[test]
fn a_closed_channel_removes_the_client() {
    let mut state = server();
    state.register_client("A".to_string(), 1);
    state.register_client("B".to_string(), 2);
    state.add_subscription("A", "1", "x", None).unwrap();
    state.add_subscription("A", "2", "y", None).unwrap();
    state.add_subscription("B", "1", "x", None).unwrap();
    assert_eq!(
        publish(&mut state, "x", &[1]),
        vec![(1, "1".to_string(), false), taken(2, "1")]
    );
    assert_eq!(publish(&mut state, "y", &[]), vec![]);
    assert_eq!(publish(&mut state, "x", &[]), vec![taken(2, "1")]);
}

#[test]
fn a_limited_subscription_ends() {
    let mut state = server();
    state.register_client("A".to_string(), 1);
    state.add_subscription("A", "1", "x", None).unwrap();
    state.update_subscription_limit("A", "1", Some(2)).unwrap();
    assert_eq!(publish(&mut state, "x", &[]).len(), 1);
    assert_eq!(publish(&mut state, "x", &[]).len(), 1);
    assert_eq!(publish(&mut state, "x", &[]).len(), 0);
    assert!(state.remove_subscription("A", "1").is_err());
}

#[test]
fn a_limited_member_of_a_queue_ends() {
    let mut state = server();
    state.register_client("A".to_string(), 1);
    state.register_client("B".to_string(), 2);
    let queue = || Some("q".to_string());
    state.add_subscription("A", "1", "x", queue()).unwrap();
    state.add_subscription("B", "1", "x", queue()).unwrap();
    state.update_subscription_limit("A", "1", Some(1)).unwrap();
    let order: Vec<u64> = (0..3).map(|_| publish(&mut state, "x", &[])[0].0).collect();
    assert_eq!(order, vec![1, 2, 2]);
}

#[test]
fn the_last_message_of_a_subscription_is_told() {
    let mut state = server();
    state.register_client("A".to_string(), 1);
    state.add_subscription("A", "1", "x", None).unwrap();
    state.update_subscription_limit("A", "1", Some(2)).unwrap();
    for last in [false, true] {
        let mut publication = state.publish("x", None, Vec::new()).unwrap();
        let delivery = state.next_delivery(&mut publication).unwrap();
        assert_eq!(delivery.key, SubscriptionKey::new("A", "1"));
        assert_eq!(state.report_delivery(&mut publication, true), last);
        assert!(!state.report_delivery(&mut publication, true));
    }
}

#[test]
fn a_limit_of_none_ends_with_the_first_message() {
    let mut state = server();
    state.register_client("A".to_string(), 1);
    state.add_subscription("A", "1", "x", None).unwrap();
    state.update_subscription_limit("A", "1", Some(0)).unwrap();
    assert_eq!(publish(&mut state, "x", &[]).len(), 1);
    assert_eq!(publish(&mut state, "x", &[]).len(), 0);
}

#[test]
fn a_limit_can_be_taken_back() {
    let mut state = server();
    state.register_client("A".to_string(), 1);
    state.add_subscription("A", "1", "x", None).unwrap();
    state.update_subscription_limit("A", "1", Some(1)).unwrap();
    state.update_subscription_limit("A", "1", None).unwrap();
    for _ in 0..3 {
        assert_eq!(publish(&mut state, "x", &[]).len(), 1);
    }
}

#[test]
fn the_turn_of_a_queue_is_forgotten_with_its_last_subscription() {
    let mut state = server();
    state.register_client("A".to_string(), 1);
    state.register_client("B".to_string(), 2);
    let queue = || Some("q".to_string());
    state.add_subscription("A", "1", "x", queue()).unwrap();
    state.add_subscription("B", "1", "x", queue()).unwrap();
    assert_eq!(publish(&mut state, "x", &[]), vec![taken(1, "1")]);
    state.remove_subscription("A", "1").unwrap();
    state.remove_subscription("B", "1").unwrap();
    state.add_subscription("A", "1", "x", queue()).unwrap();
    state.add_subscription("B", "1", "x", queue()).unwrap();
    assert_eq!(publish(&mut state, "x", &[]), vec![taken(1, "1")]);
}

#[test]
fn a_replaced_subscription_leaves_the_turn_of_its_queue() {
    let mut state = server();
    state.register_client("A".to_string(), 1);
    state.register_client("B".to_string(), 2);
    let queue = || Some("q".to_string());
    state.add_subscription("A", "1", "x", queue()).unwrap();
    state.add_subscription("B", "1", "x", queue()).unwrap();
    assert_eq!(publish(&mut state, "x", &[]), vec![taken(1, "1")]);
    state.add_subscription("A", "1", "y", None).unwrap();
    state.add_subscription("B", "1", "y", None).unwrap();
    state.add_subscription("A", "2", "x", queue()).unwrap();
    state.add_subscription("B", "2", "x", queue()).unwrap();
    assert_eq!(publish(&mut state, "x", &[]), vec![taken(2, "2")]);
}

#[test]
fn unsubscribe_undoes_subscribe() {
    let mut state = server();
    state.register_client("A".to_string(), 1);
    state.add_subscription("A", "1", "x", None).unwrap();
    state.add_subscription("A", "2", "x", Some("q".to_string())).unwrap();
    state.remove_subscription("A", "2").unwrap();
    assert_eq!(publish(&mut state, "x", &[]), vec![taken(1, "1")]);
}

#[test]
fn an_unregistered_client_leaves_nothing() {
    let mut state = server();
    state.register_client("A".to_string(), 1);
    state.register_client("B".to_string(), 2);
    state.add_subscription("A", "1", "x", None).unwrap();
    state.add_subscription("A", "2", "x", Some("q".to_string())).unwrap();
    state.add_subscription("B", "1", "x", None).unwrap();
    state.unregister_client("A");
    state.unregister_client("A");
    assert_eq!(publish(&mut state, "x", &[]), vec![taken(2, "1")]);
}

#[test]
fn a_second_registration_leaves_the_channels_of_subscriptions() {
    let mut state = server();
    state.register_client("A".to_string(), 1);
    state.add_subscription("A", "1", "x", None).unwrap();
    state.register_client("A".to_string(), 9);
    state.add_subscription("A", "2", "x", None).unwrap();
    assert_eq!(
        publish(&mut state, "x", &[]),
        vec![taken(1, "1"), taken(9, "2")]
    );
}

#[test]
fn an_offer_in_between_counts_once() {
    let mut state = server();
    state.register_client("A".to_string(), 1);
    state.add_subscription("A", "1", "x", None).unwrap();
    state.update_subscription_limit("A", "1", Some(1)).unwrap();
    let key = SubscriptionKey::new("A", "1");
    assert!(state.dispatch_subscription(&key, true));
    assert!(state.dispatch_subscription(&key, true));
    assert_eq!(publish(&mut state, "x", &[]), vec![]);
    assert!(!state.dispatch_subscription(&key, false));
    assert!(state.add_subscription("A", "1", "x", None).is_err());
}

#[test]
fn refused_requests_say_why() {
    let mut state = server();
    let e = state.add_subscription("A", "1", "x", None).unwrap_err();
    assert_eq!(e.message(), "客户端不存在: A");
    let e = state.add_subscription("A", "1", "x..y", None).unwrap_err();
    assert!(matches!(
        e,
        ServerError::InvalidSubject(SubjectError::EmptyToken { index: 1 })
    ));
    assert_eq!(
        e.message(),
        "科目解析失败: subject 不能包含连续的句点或空 segment，第 1 段无效"
    );
    let e = state.remove_subscription("A\n", "\"1\"").unwrap_err();
    assert_eq!(
        e.message(),
        "订阅不存在: SubscriptionKey { client_id: \"A\\n\", sid: \"\\\"1\\\"\" }"
    );
    match &e {
        ServerError::SubscriptionNotFound(key) => {
            assert_eq!(e.message(), format!("订阅不存在: {:?}", key))
        }
        other => panic!("{:?}", other),
    }
    assert!(matches!(
        state.update_subscription_limit("A", "1", Some(1)),
        Err(ServerError::SubscriptionNotFound(_))
    ));
    let small = ServerState::new(
        "S".to_string(),
        ServerConfig { port: 1, max_payload: 3 },
    );
    assert!(small.publish("x", None, vec![0; 3]).is_ok());
    let e = small.publish("x", None, vec![0; 4]).unwrap_err();
    assert!(matches!(e, ServerError::PayloadTooLarge { size: 4, max: 3 }));
    assert_eq!(e.message(), "消息负载超过限制: 4 > 3");
    let e = ServerError::from(SubjectError::Empty);
    assert_eq!(e.message(), "科目解析失败: subject 不能为空");
}
