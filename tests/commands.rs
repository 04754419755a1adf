use my_redis::cmd::{bytes_arg, int_arg, text_arg, unknown_text, Command, Get, ParseError, Ping, Publish, SetCmd, Subscribe, Unknown, Unsubscribe};
use my_redis::db::State;
use my_redis::frame::Frame;
use my_redis::subscribe::{handle_command, make_message_frame, make_subscribe_frame, make_unsubscribe_frame, SubscribedAction, Subscriptions};

fn encode(f: &Frame) -> Vec<u8> {
    let mut out = Vec::new();
    f.encode(&mut out);
    out
}

fn request(parts: &[&str]) -> Frame {
    Frame::Array(parts.iter().map(|p| Frame::Bulk(p.as_bytes().to_vec())).collect())
}

fn command(bytes: &[u8]) -> Result<Command, ParseError> {
    let mut pos = 0usize;
    let frame = match Frame::parse(bytes, &mut pos) {
        Ok(f) => f,
        Err(_) => panic!("bad frame"),
    };
    Command::from_frame(frame)
}

/// One request against the store, as a connection in normal mode serves it.
fn serve(db: &mut State<()>, bytes: &[u8], now: u64) -> Vec<u8> {
    let reply = match command(bytes) {
        Ok(Command::Get(g)) => g.apply(db),
        Ok(Command::SetCmd(s)) => s.apply(db, now).0,
        Ok(Command::Publish(p)) => Publish::reply(db.channel(&p.channel).map(|_| None)),
        Ok(Command::Ping(p)) => p.apply(),
        Ok(Command::Unknown(u)) => u.apply(),
        Ok(_) => panic!("not served here"),
        Err(_) => panic!("parse error"),
    };
    encode(&reply)
}

#[test]
fn set_then_get_round_trip() {
    let mut db: State<()> = State::new();
    assert_eq!(serve(&mut db, b"*3\r\n$3\r\nSET\r\n$3\r\nfoo\r\n$3\r\nbar\r\n", 0), b"+OK\r\n".to_vec());
    assert_eq!(serve(&mut db, b"*2\r\n$3\r\nGET\r\n$3\r\nfoo\r\n", 1), b"$3\r\nbar\r\n".to_vec());
}

#[test]
fn missing_key_is_null() {
    let mut db: State<()> = State::new();
    assert_eq!(serve(&mut db, &encode(&request(&["GET", "missing"])), 0), b"$-1\r\n".to_vec());
}

#[test]
fn ttl_expiry() {
    let mut db: State<()> = State::new();
    assert_eq!(serve(&mut db, &encode(&request(&["SET", "k", "v", "PX", "100"])), 1000), b"+OK\r\n".to_vec());
    assert_eq!(db.purge_expired_keys(1050), Some(1100));
    assert_eq!(serve(&mut db, &encode(&request(&["GET", "k"])), 1050), b"$1\r\nv\r\n".to_vec());
    assert_eq!(db.purge_expired_keys(1200), None);
    assert_eq!(serve(&mut db, &encode(&request(&["GET", "k"])), 1200), b"$-1\r\n".to_vec());
}

#[test]
fn publish_without_subscribers() {
    let mut db: State<()> = State::new();
    assert_eq!(serve(&mut db, &encode(&request(&["PUBLISH", "room", "hi"])), 0), b":0\r\n".to_vec());
}

#[test]
fn unknown_command_then_ping() {
    let mut db: State<()> = State::new();
    assert_eq!(
        serve(&mut db, &encode(&request(&["FOO", "bar"])), 0),
        b"-ERR unknown command 'FOO'\r\n".to_vec()
    );
    assert_eq!(serve(&mut db, &encode(&request(&["PING"])), 0), b"+PONG\r\n".to_vec());
    assert_eq!(serve(&mut db, &encode(&request(&["ping", "hey"])), 0), b"$3\r\nhey\r\n".to_vec());
}

#[test]
fn subscribe_ack_and_message_bytes() {
    let mut subs = Subscriptions::new();
    let ack = subs.add("room".to_string());
    assert_eq!(encode(&ack), b"*3\r\n$9\r\nsubscribe\r\n$4\r\nroom\r\n:1\r\n".to_vec());
    let msg = make_message_frame("room".to_string(), b"hi".to_vec());
    assert_eq!(encode(&msg), b"*3\r\n$7\r\nmessage\r\n$4\r\nroom\r\n$2\r\nhi\r\n".to_vec());
}

#[test]
fn subscription_counts() {
    let mut subs = Subscriptions::new();
    subs.add("a".to_string());
    assert_eq!(encode(&subs.add("b".to_string())), encode(&make_subscribe_frame("b".to_string(), 2)));
    assert_eq!(encode(&subs.add("a".to_string())), encode(&make_subscribe_frame("a".to_string(), 2)));
    assert_eq!(subs.len(), 2);
    assert_eq!(encode(&subs.remove("zzz".to_string())), encode(&make_unsubscribe_frame("zzz".to_string(), 2)));
    assert_eq!(encode(&subs.remove("a".to_string())), encode(&make_unsubscribe_frame("a".to_string(), 1)));
    assert_eq!(subs.names(), vec!["b".to_string()]);
}

#[test]
fn subscribed_mode_commands() {
    let mut subs = Subscriptions::new();
    subs.add("x".to_string());
    subs.add("y".to_string());
    match handle_command(command(&encode(&request(&["SUBSCRIBE", "z"]))).ok().unwrap(), &subs) {
        SubscribedAction::Subscribe(c) => assert_eq!(c, vec!["z".to_string()]),
        _ => panic!("subscribe"),
    }
    match handle_command(command(&encode(&request(&["UNSUBSCRIBE"]))).ok().unwrap(), &subs) {
        SubscribedAction::Unsubscribe(c) => assert_eq!(c, vec!["x".to_string(), "y".to_string()]),
        _ => panic!("unsubscribe all"),
    }
    match handle_command(command(&encode(&request(&["unsubscribe", "y"]))).ok().unwrap(), &subs) {
        SubscribedAction::Unsubscribe(c) => assert_eq!(c, vec!["y".to_string()]),
        _ => panic!("unsubscribe one"),
    }
    match handle_command(command(&encode(&request(&["GET", "k"]))).ok().unwrap(), &subs) {
        SubscribedAction::Reply(f) => assert_eq!(encode(&f), b"-ERR unknown command 'get'\r\n".to_vec()),
        _ => panic!("reply"),
    }
}

#[test]
fn parses_commands_case_insensitively() {
    match command(&encode(&request(&["gEt", "k"]))) {
        Ok(Command::Get(g)) => assert_eq!(g.key(), "k"),
        _ => panic!("get"),
    }
    match command(&encode(&request(&["set", "k", "v", "ex", "2"]))) {
        Ok(Command::SetCmd(s)) => {
            assert_eq!(s.key(), "k");
            assert_eq!(s.value(), &b"v".to_vec());
            assert_eq!(s.expire(), Some(2000));
        }
        _ => panic!("set ex"),
    }
    match command(&encode(&request(&["SUBSCRIBE", "a", "b"]))) {
        Ok(Command::Subscribe(s)) => assert_eq!(s.channels, vec!["a".to_string(), "b".to_string()]),
        _ => panic!("subscribe"),
    }
    match command(&encode(&request(&["UNSUBSCRIBE"]))) {
        Ok(Command::Unsubscribe(u)) => assert!(u.channels.is_empty()),
        _ => panic!("unsubscribe"),
    }
}

#[test]
fn command_shape_errors() {
    assert!(command(&encode(&request(&["GET"]))).is_err());
    assert!(command(&encode(&request(&["GET", "a", "b"]))).is_err());
    assert!(command(&encode(&request(&["SET", "k"]))).is_err());
    assert!(command(&encode(&request(&["SET", "k", "v", "EX"]))).is_err());
    assert!(command(&encode(&request(&["SET", "k", "v", "KEEPTTL", "1"]))).is_err());
    assert!(command(&encode(&request(&["SET", "k", "v", "EX", "abc"]))).is_err());
    assert!(command(&encode(&request(&["PUBLISH", "room"]))).is_err());
    assert!(command(&encode(&request(&["SUBSCRIBE"]))).is_err());
    assert!(command(&encode(&request(&["PING", "a", "b"]))).is_err());
    assert!(command(b"+GET\r\n").is_err());
    assert!(matches!(command(b"*0\r\n"), Err(ParseError::EndOfStream)));
}

#[test]
fn client_side_frames() {
    assert_eq!(encode(&Get::new("foo").into_frame()), encode(&request(&["get", "foo"])));
    assert_eq!(
        encode(&SetCmd::new("k", b"v".to_vec(), Some(100)).into_frame()),
        b"*5\r\n$3\r\nset\r\n$1\r\nk\r\n$1\r\nv\r\n$2\r\npx\r\n:100\r\n".to_vec()
    );
    assert_eq!(encode(&SetCmd::new("k", b"v".to_vec(), None).into_frame()), encode(&request(&["set", "k", "v"])));
    assert_eq!(encode(&Publish::new("room", b"hi".to_vec()).into_frame()), encode(&request(&["publish", "room", "hi"])));
    assert_eq!(
        encode(&Subscribe::new(vec!["a".to_string(), "b".to_string()]).into_frame()),
        encode(&request(&["subscribe", "a", "b"]))
    );
    assert_eq!(encode(&Unsubscribe::new(&[]).into_frame()), encode(&request(&["unsubscribe"])));
}

#[test]
fn names_and_texts() {
    assert_eq!(unknown_text(&"FOO".to_string()), "ERR unknown command 'FOO'");
    assert_eq!(Unknown::new("Zap".to_string()).get_name(), "Zap");
    let c = command(&encode(&request(&["PUBLISH", "r", "m"]))).ok().unwrap();
    assert_eq!(c.get_name(), "publish");
    assert_eq!(encode(&Ping::new(None).apply()), b"+PONG\r\n".to_vec());
}

#[test]
fn argument_readers() {
    assert_eq!(text_arg(&Frame::Bulk("é!".as_bytes().to_vec())), Some("é!".to_string()));
    assert_eq!(text_arg(&Frame::Bulk(vec![0xff, 0x41])), None);
    assert_eq!(text_arg(&Frame::Integer(3)), None);
    assert_eq!(bytes_arg(&Frame::Simple("ab".to_string())), Some(b"ab".to_vec()));
    assert_eq!(int_arg(&Frame::Bulk(b"250".to_vec())), Some(250));
    assert_eq!(int_arg(&Frame::Simple("x".to_string())), None);
    assert_eq!(int_arg(&Frame::Integer(9)), Some(9));
    let u = Unsubscribe::new(&["a".to_string(), "b".to_string()]);
    assert_eq!(u.channels, vec!["a".to_string(), "b".to_string()]);
}

#[test]
fn publish_reply_counts() {
    assert_eq!(encode(&Publish::reply(None)), b":0\r\n".to_vec());
    assert_eq!(encode(&Publish::reply(Some(None))), b":0\r\n".to_vec());
    assert_eq!(encode(&Publish::reply(Some(Some(2)))), b":2\r\n".to_vec());
}

#[test]
fn set_with_huge_ex_saturates() {
    match command(&encode(&request(&["SET", "k", "v", "EX", "18446744073709551615"]))) {
        Ok(Command::SetCmd(s)) => assert_eq!(s.expire(), Some(u64::MAX)),
        _ => panic!("set ex"),
    }
}
