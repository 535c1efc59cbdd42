use rustis::pipeline::{check_command, classify, Inbound, Pipeline};
use rustis::pub_sub::extract_message;
use rustis::reconnect::{handshake_commands, resubscribe_commands, ConnectionConfig, ReconnectPolicy};
use rustis::registry::{read_acknowledgement, Acknowledgement, FrameKind, Mode, Registry, SubscriptionKind};
use rustis::transaction::transaction_result;
use rustis::{cmd, Command, Error, PubSubMessage, PubSubStream, RedisError, RedisErrorKind, Transaction, Value};

fn bulk(b: &[u8]) -> Value {
    Value::BulkString(Some(b.to_vec()))
}

fn ok() -> Value {
    Value::SimpleString("OK".to_owned())
}

fn queued() -> Value {
    Value::SimpleString("QUEUED".to_owned())
}

fn parts(c: &Command) -> Vec<Vec<u8>> {
    c.parts.clone()
}

fn words(ws: &[&str]) -> Vec<Vec<u8>> {
    ws.iter().map(|w| w.as_bytes().to_vec()).collect()
}

#[test]
fn transaction_with_forget() {
    let mut t = Transaction::new();
    t.forget(cmd("SET").arg(b"k").arg(b"v"));
    t.queue(cmd("GET").arg(b"k"));
    let (commands, flags) = t.execute();
    let names: Vec<Vec<u8>> = commands.iter().map(|c| c.parts[0].clone()).collect();
    assert_eq!(words(&["MULTI", "SET", "GET", "EXEC"]), names);
    assert_eq!(vec![false, true, false], flags);
    let replies = vec![ok(), queued(), queued(), Value::Array(Some(vec![ok(), bulk(b"v")]))];
    assert_eq!(Ok(bulk(b"v")), transaction_result(replies, &flags));
}

#[test]
fn transaction_results() {
    let flags = vec![false, false, false];
    let replies = vec![ok(), queued(), queued(), Value::Array(Some(vec![ok(), bulk(b"v")]))];
    assert_eq!(
        Ok(Value::Array(Some(vec![ok(), bulk(b"v")]))),
        transaction_result(replies, &flags)
    );

    let all_forgotten = vec![false, true, true];
    let replies = vec![ok(), queued(), queued(), Value::Array(Some(vec![ok(), ok()]))];
    assert_eq!(Ok(Value::Array(Some(vec![]))), transaction_result(replies, &all_forgotten));

    let replies = vec![ok(), queued(), queued(), Value::Array(None)];
    assert_eq!(Err(Error::Aborted), transaction_result(replies, &flags));
    let replies = vec![ok(), queued(), queued(), Value::Nil];
    assert_eq!(Err(Error::Aborted), transaction_result(replies, &flags));

    let e = RedisError { kind: RedisErrorKind::GenericErr, description: "unknown command".to_owned() };
    let replies = vec![ok(), Value::Error(e.clone()), queued(), Value::Nil];
    assert_eq!(Err(Error::Redis(e.clone())), transaction_result(replies, &flags));

    let one = vec![false, true];
    let replies = vec![ok(), queued(), Value::Array(Some(vec![ok(), Value::Error(e.clone())]))];
    assert_eq!(Ok(Value::Array(Some(vec![]))), transaction_result(replies, &one));
    let one_kept = vec![false, false];
    let replies = vec![ok(), queued(), Value::Array(Some(vec![Value::Error(e.clone())]))];
    assert_eq!(Err(Error::Redis(e)), transaction_result(replies, &one_kept));

    let replies = vec![ok(), queued(), Value::Integer(3)];
    assert!(matches!(transaction_result(replies, &one_kept), Err(Error::Client(_))));
    let replies = vec![ok(), queued()];
    assert!(matches!(transaction_result(replies, &one_kept), Err(Error::Client(_))));
}

#[test]
fn pipeline_ordering() {
    let mut p = Pipeline::new();
    let batch = vec![cmd("INCR").arg(b"c"), cmd("INCR").arg(b"c"), cmd("INCR").arg(b"c")];
    let bytes = p.submit(Mode::Regular, &batch, 7).unwrap();
    assert_eq!(3, bytes.iter().filter(|b| **b == b'*').count());
    assert_eq!(3, p.len());
    let mut results = Vec::new();
    for n in 1..=3 {
        match p.on_frame(Mode::Regular, Value::Integer(n)) {
            Inbound::Response(7, v) => results.push(v),
            other => panic!("unexpected {other:?}"),
        }
    }
    assert_eq!(vec![Value::Integer(1), Value::Integer(2), Value::Integer(3)], results);
    assert_eq!(0, p.len());
}

#[test]
fn pipeline_fifo_interleaved() {
    let mut p = Pipeline::new();
    p.submit(Mode::Regular, &vec![cmd("GET").arg(b"a")], 1).unwrap();
    p.submit(Mode::Regular, &vec![cmd("GET").arg(b"b"), cmd("GET").arg(b"c")], 2).unwrap();
    assert_eq!(Inbound::Response(1, Value::Integer(10)), p.on_frame(Mode::Regular, Value::Integer(10)));
    p.submit(Mode::Regular, &vec![cmd("GET").arg(b"d")], 3).unwrap();
    assert_eq!(Inbound::Response(2, Value::Integer(11)), p.on_frame(Mode::Regular, Value::Integer(11)));
    assert_eq!(Inbound::Response(2, Value::Integer(12)), p.on_frame(Mode::Regular, Value::Integer(12)));
    assert_eq!(Inbound::Response(3, Value::Integer(13)), p.on_frame(Mode::Regular, Value::Integer(13)));
    assert_eq!(Inbound::Unsolicited(Value::Integer(14)), p.on_frame(Mode::Regular, Value::Integer(14)));
}

#[test]
fn pipeline_fails_all_on_connection_loss() {
    let mut p = Pipeline::new();
    p.submit(Mode::Regular, &vec![cmd("GET").arg(b"a")], 1).unwrap();
    p.submit(Mode::Regular, &vec![cmd("GET").arg(b"b")], 2).unwrap();
    assert_eq!(vec![1, 2], p.fail_all());
    assert_eq!(0, p.len());
}

#[test]
fn subscribed_mode_forbids_other_commands() {
    let mut p = Pipeline::new();
    let r = p.submit(Mode::Subscribed, &vec![cmd("SUBSCRIBE").arg(b"x"), cmd("GET").arg(b"k")], 1);
    assert_eq!(Err(Error::ForbiddenInSubscribedMode), r);
    assert_eq!(0, p.len());
    for name in ["SUBSCRIBE", "PSUBSCRIBE", "SSUBSCRIBE", "UNSUBSCRIBE", "PUNSUBSCRIBE", "SUNSUBSCRIBE", "PING", "QUIT", "RESET"] {
        assert_eq!(Ok(()), check_command(Mode::Subscribed, &cmd(name)));
    }
    assert_eq!(Err(Error::ForbiddenInSubscribedMode), check_command(Mode::Subscribed, &cmd("SET")));
    assert_eq!(Ok(()), check_command(Mode::Regular, &cmd("SET")));
    assert!(p.submit(Mode::Subscribed, &vec![cmd("PING")], 2).is_ok());
    assert_eq!(1, p.len());
}

fn message_array() -> Value {
    Value::Array(Some(vec![bulk(b"message"), bulk(b"c"), bulk(b"m")]))
}

#[test]
fn frame_classification() {
    assert_eq!(FrameKind::Push, classify(Mode::Subscribed, &message_array()));
    assert_eq!(FrameKind::Response, classify(Mode::Regular, &message_array()));
    let push = Value::Push(vec![bulk(b"message"), bulk(b"c"), bulk(b"m")]);
    assert_eq!(FrameKind::Push, classify(Mode::Regular, &push));
    let other = Value::Array(Some(vec![bulk(b"other"), bulk(b"c")]));
    assert_eq!(FrameKind::Response, classify(Mode::Subscribed, &other));
    assert_eq!(FrameKind::Response, classify(Mode::Subscribed, &Value::Integer(1)));
    let mut p = Pipeline::new();
    assert_eq!(Inbound::Push(message_array()), p.on_frame(Mode::Subscribed, message_array()));
    assert_eq!(Inbound::Unsolicited(message_array()), p.on_frame(Mode::Regular, message_array()));
}

#[test]
fn subscription_round_trip() {
    let mut reg = Registry::new();
    assert_eq!(Mode::Regular, reg.mode());
    reg.confirm_subscribe(SubscriptionKind::Channel, b"mychannel", 5);
    assert_eq!(Mode::Subscribed, reg.mode());
    let push = Value::Array(Some(vec![bulk(b"message"), bulk(b"mychannel"), bulk(b"mymessage")]));
    assert_eq!(
        Some((5, PubSubMessage { pattern: Value::Nil, channel: bulk(b"mychannel"), payload: bulk(b"mymessage") })),
        reg.route(push)
    );
    let other = Value::Array(Some(vec![bulk(b"message"), bulk(b"elsewhere"), bulk(b"m")]));
    assert_eq!(None, reg.route(other));
    reg.confirm_unsubscribe(SubscriptionKind::Channel, b"mychannel");
    let push = Value::Array(Some(vec![bulk(b"message"), bulk(b"mychannel"), bulk(b"mymessage")]));
    assert_eq!(None, reg.route(push));
    assert_eq!(Mode::Regular, reg.mode());
}

#[test]
fn resp3_push_is_routed() {
    let (frame, _) = rustis::decoder::decode(
        b">3\r\n$7\r\nmessage\r\n$7\r\nchannel\r\n$7\r\npayload\r\n",
    )
    .unwrap()
    .unwrap();
    assert_eq!(FrameKind::Push, classify(Mode::Regular, &frame));
    let mut reg = Registry::new();
    reg.confirm_subscribe(SubscriptionKind::Channel, b"channel", 1);
    assert_eq!(
        Some((1, PubSubMessage { pattern: Value::Nil, channel: bulk(b"channel"), payload: bulk(b"payload") })),
        reg.route(frame)
    );
}

#[test]
fn pattern_tagging() {
    let mut reg = Registry::new();
    reg.confirm_subscribe(SubscriptionKind::Pattern, b"news.*", 9);
    let push = Value::Push(vec![bulk(b"pmessage"), bulk(b"news.*"), bulk(b"news.tech"), bulk(b"hi")]);
    assert_eq!(
        Some((9, PubSubMessage { pattern: bulk(b"news.*"), channel: bulk(b"news.tech"), payload: bulk(b"hi") })),
        reg.route(push)
    );
    reg.confirm_subscribe(SubscriptionKind::ShardChannel, b"s", 4);
    let push = Value::Push(vec![bulk(b"smessage"), bulk(b"s"), bulk(b"x")]);
    assert_eq!(
        Some((4, PubSubMessage { pattern: Value::Nil, channel: bulk(b"s"), payload: bulk(b"x") })),
        reg.route(push)
    );
    assert_eq!(Some(9), reg.sink_of(SubscriptionKind::Pattern, b"news.*"));
    reg.confirm_subscribe(SubscriptionKind::Pattern, b"news.*", 10);
    assert_eq!(Some(10), reg.sink_of(SubscriptionKind::Pattern, b"news.*"));
    assert_eq!(None, reg.sink_of(SubscriptionKind::Channel, b"news.*"));
}

#[test]
fn resubscribe_after_reconnect() {
    let mut reg = Registry::new();
    reg.confirm_subscribe(SubscriptionKind::Channel, b"a", 1);
    reg.confirm_subscribe(SubscriptionKind::Channel, b"b", 2);
    reg.confirm_subscribe(SubscriptionKind::Pattern, b"p*", 3);
    let cmds = resubscribe_commands(&reg, true);
    let got: Vec<Vec<Vec<u8>>> = cmds.iter().map(parts).collect();
    assert_eq!(vec![words(&["SUBSCRIBE", "a", "b"]), words(&["PSUBSCRIBE", "p*"])], got);
    let push = Value::Array(Some(vec![bulk(b"message"), bulk(b"b"), bulk(b"after")]));
    assert_eq!(2, reg.route(push).unwrap().0);
    assert!(resubscribe_commands(&reg, false).is_empty());
}

#[test]
fn handshake_replay() {
    let config = ConnectionConfig {
        username: Some("user".to_owned()),
        password: Some("pw".to_owned()),
        connection_name: Some("pub/sub".to_owned()),
        database: 12,
        auto_resubscribe: true,
    };
    let got: Vec<Vec<Vec<u8>>> = handshake_commands(&config).iter().map(parts).collect();
    assert_eq!(
        vec![
            words(&["AUTH", "user", "pw"]),
            words(&["CLIENT", "SETNAME", "pub/sub"]),
            words(&["SELECT", "12"])
        ],
        got
    );
    let bare = ConnectionConfig {
        username: None,
        password: None,
        connection_name: None,
        database: 0,
        auto_resubscribe: false,
    };
    assert!(handshake_commands(&bare).is_empty());
}

#[test]
fn reconnect_backoff() {
    let policy = ReconnectPolicy { initial_delay: 100, multiplier: 2, max_delay: 1000, max_attempts: 5 };
    let delays: Vec<Option<u64>> = (0..6).map(|a| policy.next_delay(a)).collect();
    assert_eq!(vec![Some(100), Some(200), Some(400), Some(800), Some(1000), None], delays);
    let endless = ReconnectPolicy { initial_delay: 3, multiplier: 10, max_delay: u64::MAX, max_attempts: 0 };
    assert_eq!(Some(3000), endless.next_delay(3));
    assert_eq!(Some(u64::MAX), endless.next_delay(1000));
}

#[test]
fn pub_sub_message_parts() {
    let mut m = PubSubMessage::from_pmessage(bulk(b"p*"), bulk(b"pc"), bulk(b"x"));
    assert_eq!(bulk(b"p*"), m.get_pattern());
    assert_eq!(Value::Nil, m.pattern);
    assert_eq!(bulk(b"pc"), m.get_channel());
    assert_eq!(bulk(b"x"), m.get_payload());
    let mut m = PubSubMessage::from_message(bulk(b"c"), bulk(b"y"));
    assert_eq!(Value::Nil, m.get_pattern());
    assert_eq!(
        Ok(PubSubMessage { pattern: Value::Nil, channel: bulk(b"c"), payload: bulk(b"y") }),
        extract_message(Value::Array(Some(vec![bulk(b"c"), bulk(b"y")])))
    );
    assert!(matches!(extract_message(Value::Integer(1)), Err(Error::Client(_))));
}

#[test]
fn pub_sub_stream_lifecycle() {
    let mut s = PubSubStream::from_channels(vec!["a".to_owned(), "b".to_owned()]);
    assert!(!s.is_closed());
    let item = Some(Ok(Value::Array(Some(vec![bulk(b"p"), bulk(b"a"), bulk(b"m")]))));
    assert_eq!(
        Some(Ok(PubSubMessage { pattern: bulk(b"p"), channel: bulk(b"a"), payload: bulk(b"m") })),
        s.next_message(item)
    );
    assert_eq!(Some(Err(Error::Timeout)), s.next_message(Some(Err(Error::Timeout))));
    assert_eq!(None, s.next_message(None));
    assert_eq!(words(&["UNSUBSCRIBE", "a", "b"]), parts(&s.take_next_unsubscribe().unwrap()));
    assert!(s.take_next_unsubscribe().is_none());
    s.mark_closed();
    assert!(s.is_closed());
    assert_eq!(None, s.next_message(Some(Ok(Value::Integer(1)))));
    assert!(s.drop_unsubscribes().is_empty());

    let mut p = PubSubStream::from_patterns(vec!["x*".to_owned()]);
    let cmds: Vec<Vec<Vec<u8>>> = p.drop_unsubscribes().iter().map(parts).collect();
    assert_eq!(vec![words(&["PUNSUBSCRIBE", "x*"])], cmds);
    let mut sh = PubSubStream::from_shardchannels(vec!["s".to_owned()]);
    assert_eq!(words(&["SUNSUBSCRIBE", "s"]), parts(&sh.take_next_unsubscribe().unwrap()));
    assert!(sh.take_next_unsubscribe().is_none());
}

#[test]
fn failed_close_keeps_the_later_lists() {
    let mut s = PubSubStream::from_channels(vec!["a".to_owned()]);
    s.add_names(SubscriptionKind::Pattern, vec!["p*".to_owned()]);
    s.add_names(SubscriptionKind::ShardChannel, vec!["s1".to_owned(), "s2".to_owned()]);
    s.add_names(SubscriptionKind::Channel, vec!["b".to_owned()]);
    // The channel unsubscribe is taken and, say, fails: the stream stays open
    // and still holds its patterns and shard channels.
    assert_eq!(words(&["UNSUBSCRIBE", "a", "b"]), parts(&s.take_next_unsubscribe().unwrap()));
    assert!(!s.is_closed());
    let rest: Vec<Vec<Vec<u8>>> = s.drop_unsubscribes().iter().map(parts).collect();
    assert_eq!(
        vec![words(&["PUNSUBSCRIBE", "p*"]), words(&["SUNSUBSCRIBE", "s1", "s2"])],
        rest
    );
}

#[test]
fn subscribe_acknowledgements() {
    let ack = Value::Array(Some(vec![bulk(b"psubscribe"), bulk(b"news.*"), Value::Integer(1)]));
    assert_eq!(
        Some(Acknowledgement { kind: SubscriptionKind::Pattern, subscribed: true, name: b"news.*".to_vec() }),
        read_acknowledgement(&ack)
    );
    let ack = Value::Push(vec![bulk(b"sunsubscribe"), bulk(b"s"), Value::Integer(0)]);
    assert_eq!(
        Some(Acknowledgement { kind: SubscriptionKind::ShardChannel, subscribed: false, name: b"s".to_vec() }),
        read_acknowledgement(&ack)
    );
    let not_ack = Value::Array(Some(vec![bulk(b"message"), bulk(b"c"), bulk(b"m")]));
    assert_eq!(None, read_acknowledgement(&not_ack));
    assert_eq!(None, read_acknowledgement(&Value::Integer(3)));
}

#[test]
fn confirmed_unsubscribes_return_to_regular_mode() {
    let mut reg = Registry::new();
    let acks = [
        Value::Array(Some(vec![bulk(b"subscribe"), bulk(b"a"), Value::Integer(1)])),
        Value::Array(Some(vec![bulk(b"psubscribe"), bulk(b"p*"), Value::Integer(2)])),
    ];
    for ack in &acks {
        reg.apply_acknowledgement(&read_acknowledgement(ack).unwrap(), 3);
    }
    assert_eq!(Mode::Subscribed, reg.mode());
    assert_eq!(Some(3), reg.sink_of(SubscriptionKind::Channel, b"a"));
    assert_eq!(
        Err(Error::ForbiddenInSubscribedMode),
        check_command(reg.mode(), &cmd("GET").arg(b"key"))
    );
    let ack = Value::Push(vec![bulk(b"unsubscribe"), bulk(b"a"), Value::Integer(1)]);
    reg.apply_acknowledgement(&read_acknowledgement(&ack).unwrap(), 0);
    assert_eq!(Mode::Subscribed, reg.mode());
    let ack = Value::Push(vec![bulk(b"punsubscribe"), bulk(b"p*"), Value::Integer(0)]);
    reg.apply_acknowledgement(&read_acknowledgement(&ack).unwrap(), 0);
    assert_eq!(Mode::Regular, reg.mode());
    assert_eq!(Ok(()), check_command(reg.mode(), &cmd("GET").arg(b"key")));
}

#[test]
fn resubscribed_patterns_keep_their_tag() {
    let mut reg = Registry::new();
    reg.confirm_subscribe(SubscriptionKind::Channel, b"mychannel", 1);
    reg.confirm_subscribe(SubscriptionKind::Pattern, b"o*", 1);
    let got: Vec<Vec<Vec<u8>>> = resubscribe_commands(&reg, true).iter().map(parts).collect();
    assert_eq!(vec![words(&["SUBSCRIBE", "mychannel"]), words(&["PSUBSCRIBE", "o*"])], got);
    let push = Value::Push(vec![bulk(b"pmessage"), bulk(b"o*"), bulk(b"otherchannel"), bulk(b"othermessage")]);
    assert_eq!(
        Some((1, PubSubMessage { pattern: bulk(b"o*"), channel: bulk(b"otherchannel"), payload: bulk(b"othermessage") })),
        reg.route(push)
    );
}
