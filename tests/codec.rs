use my_redis::frame::{get_line, get_u8, parse_decimal, peek_u8, push_decimal, skip, Error, Frame};

fn encode(f: &Frame) -> Vec<u8> {
    let mut out = Vec::new();
    f.encode(&mut out);
    out
}

fn check_len(buf: &[u8]) -> Result<usize, Error> {
    let mut pos = 0usize;
    Frame::check(buf, &mut pos).map(|_| pos)
}

fn parse_all(buf: &[u8]) -> Result<(Frame, usize), Error> {
    let mut pos = 0usize;
    Frame::parse(buf, &mut pos).map(|f| (f, pos))
}

fn is_incomplete(r: &Result<usize, Error>) -> bool {
    matches!(r, Err(Error::Incomplete))
}

fn is_protocol(r: &Result<usize, Error>) -> bool {
    matches!(r, Err(Error::Other(_)))
}

#[test]
fn encodes_each_kind() {
    assert_eq!(encode(&Frame::Simple("OK".to_string())), b"+OK\r\n".to_vec());
    assert_eq!(encode(&Frame::Error("ERR x".to_string())), b"-ERR x\r\n".to_vec());
    assert_eq!(encode(&Frame::Integer(0)), b":0\r\n".to_vec());
    assert_eq!(encode(&Frame::Integer(1234)), b":1234\r\n".to_vec());
    assert_eq!(encode(&Frame::Bulk(b"bar".to_vec())), b"$3\r\nbar\r\n".to_vec());
    assert_eq!(encode(&Frame::Bulk(Vec::new())), b"$0\r\n\r\n".to_vec());
    assert_eq!(encode(&Frame::Null), b"$-1\r\n".to_vec());
    let arr = Frame::Array(vec![Frame::Bulk(b"GET".to_vec()), Frame::Bulk(b"foo".to_vec())]);
    assert_eq!(encode(&arr), b"*2\r\n$3\r\nGET\r\n$3\r\nfoo\r\n".to_vec());
    assert_eq!(encode(&Frame::Array(Vec::new())), b"*0\r\n".to_vec());
}

#[test]
fn encodes_largest_integer() {
    assert_eq!(encode(&Frame::Integer(u64::MAX)), b":18446744073709551615\r\n".to_vec());
}

#[test]
fn parses_each_kind() {
    match parse_all(b"+OK\r\n") {
        Ok((Frame::Simple(s), 5)) => assert_eq!(s, "OK"),
        _ => panic!("simple"),
    }
    match parse_all(b"-ERR bad\r\n") {
        Ok((Frame::Error(s), 10)) => assert_eq!(s, "ERR bad"),
        _ => panic!("error"),
    }
    match parse_all(b":42\r\n") {
        Ok((Frame::Integer(42), 5)) => {}
        _ => panic!("integer"),
    }
    match parse_all(b"$3\r\nbar\r\n") {
        Ok((Frame::Bulk(b), 9)) => assert_eq!(b, b"bar".to_vec()),
        _ => panic!("bulk"),
    }
    match parse_all(b"$-1\r\n") {
        Ok((Frame::Null, 5)) => {}
        _ => panic!("null"),
    }
    match parse_all(b"*2\r\n:1\r\n*1\r\n+x\r\n") {
        Ok((Frame::Array(items), 16)) => {
            assert_eq!(items.len(), 2);
            assert!(matches!(items[0], Frame::Integer(1)));
            match &items[1] {
                Frame::Array(inner) => assert!(matches!(&inner[0], Frame::Simple(s) if s == "x")),
                _ => panic!("nested"),
            }
        }
        _ => panic!("array"),
    }
}

#[test]
fn check_and_parse_agree() {
    let cases: Vec<&[u8]> = vec![
        b"+OK\r\n",
        b"+OK\r",
        b"+OK",
        b"",
        b"?x\r\n",
        b":12a\r\n",
        b"$-2\r\n",
        b"$3\r\nbarXY",
        b"$3\r\nba",
        b"*2\r\n:1\r\n",
        b"*2\r\n:1\r\n:2\r\nrest",
        b"+\xff\r\n",
        b"+a\nb\r\n",
    ];
    for c in cases {
        let checked = check_len(c);
        let parsed = parse_all(c).map(|(_, n)| n);
        match (&checked, &parsed) {
            (Ok(a), Ok(b)) => assert_eq!(a, b),
            (Err(Error::Incomplete), Err(Error::Incomplete)) => {}
            (Err(Error::Other(_)), Err(Error::Other(_))) => {}
            _ => panic!("check and parse disagree on {:?}", c),
        }
    }
}

#[test]
fn incomplete_and_protocol_errors() {
    assert!(is_incomplete(&check_len(b"")));
    assert!(is_incomplete(&check_len(b"+OK")));
    assert!(is_incomplete(&check_len(b"+OK\r")));
    assert!(is_incomplete(&check_len(b"$3\r\nba")));
    assert!(is_incomplete(&check_len(b"*2\r\n:1\r\n")));
    assert!(is_protocol(&check_len(b"?\r\n")));
    assert!(is_protocol(&check_len(b":12a\r\n")));
    assert!(is_protocol(&check_len(b":\r\n")));
    assert!(is_protocol(&check_len(b"$-2\r\n")));
    assert!(is_protocol(&check_len(b"+a\nb\r\n")));
    assert!(is_protocol(&check_len(b"+a\rb\r\n")));
    assert!(is_protocol(&check_len(b"$3\r\nbarXY")));
    assert!(is_protocol(&check_len(b"+\xff\r\n")));
    assert!(is_protocol(&check_len(b":18446744073709551616\r\n")));
    assert_eq!(check_len(b":18446744073709551615\r\n").ok(), Some(23));
}

#[test]
fn leaves_following_bytes() {
    assert_eq!(check_len(b"+OK\r\n+PONG\r\n").ok(), Some(5));
    let buf = b"+OK\r\n:7\r\n";
    let mut pos = 0usize;
    assert!(matches!(Frame::parse(buf, &mut pos), Ok(Frame::Simple(_))));
    assert_eq!(pos, 5);
    assert!(matches!(Frame::parse(buf, &mut pos), Ok(Frame::Integer(7))));
    assert_eq!(pos, buf.len());
}

#[test]
fn round_trips() {
    let frames = vec![
        Frame::Simple("hello world".to_string()),
        Frame::Error("ERR unknown command 'FOO'".to_string()),
        Frame::Integer(u64::MAX),
        Frame::Bulk(vec![0, 13, 10, 255]),
        Frame::Null,
        Frame::Array(vec![
            Frame::Bulk(b"message".to_vec()),
            Frame::Array(vec![Frame::Integer(3), Frame::Null]),
            Frame::Simple("é".to_string()),
        ]),
    ];
    for f in frames {
        let bytes = encode(&f);
        let (back, n) = match parse_all(&bytes) {
            Ok(x) => x,
            Err(_) => panic!("round trip failed"),
        };
        assert_eq!(n, bytes.len());
        assert_eq!(encode(&back), bytes);
    }
}

#[test]
fn cursor_primitives() {
    let buf = b"ab\r\ncd";
    let mut pos = 0usize;
    assert_eq!(peek_u8(buf, &mut pos).ok(), Some(b'a'));
    assert_eq!(pos, 0);
    assert_eq!(get_u8(buf, &mut pos).ok(), Some(b'a'));
    assert_eq!(pos, 1);
    let mut line_pos = 0usize;
    assert_eq!(get_line(buf, &mut line_pos).ok(), Some(&b"ab"[..]));
    assert_eq!(line_pos, 4);
    assert!(matches!(get_line(buf, &mut line_pos), Err(Error::Incomplete)));
    let mut skip_pos = 4usize;
    assert!(skip(buf, &mut skip_pos, 2).is_ok());
    assert_eq!(skip_pos, 6);
    assert!(matches!(skip(buf, &mut skip_pos, 1), Err(Error::Incomplete)));
    let mut end_pos = 6usize;
    assert!(matches!(get_u8(buf, &mut end_pos), Err(Error::Incomplete)));
}

#[test]
fn decimals() {
    assert_eq!(parse_decimal(b"0"), Some(0));
    assert_eq!(parse_decimal(b"007"), Some(7));
    assert_eq!(parse_decimal(b"18446744073709551615"), Some(u64::MAX));
    assert_eq!(parse_decimal(b"18446744073709551616"), None);
    assert_eq!(parse_decimal(b""), None);
    assert_eq!(parse_decimal(b"-1"), None);
    assert_eq!(parse_decimal(b"1x"), None);
    let mut out = Vec::new();
    push_decimal(&mut out, 905);
    assert_eq!(out, b"905".to_vec());
}

#[test]
fn array_builders() {
    let mut f = Frame::array();
    f.push_bulk(b"a".to_vec());
    f.push_int(9);
    assert_eq!(encode(&f), b"*2\r\n$1\r\na\r\n:9\r\n".to_vec());
}

#[test]
fn frame_equals_text() {
    assert!(Frame::Simple("OK".to_string()).eq_str("OK"));
    assert!(!Frame::Simple("OK".to_string()).eq_str("ok"));
    assert!(Frame::Bulk(b"hi".to_vec()).eq_str("hi"));
    assert!(!Frame::Bulk(b"hi".to_vec()).eq_str("hi!"));
    assert!(!Frame::Integer(1).eq_str("1"));
    assert!(!Frame::Null.eq_str(""));
}

#[test]
fn buffered_frame_reader() {
    match my_redis::frame::parse_frame(b"+OK\r\n:1\r\n") {
        Ok(Some((Frame::Simple(s), 5))) => assert_eq!(s, "OK"),
        _ => panic!("whole frame"),
    }
    assert!(matches!(my_redis::frame::parse_frame(b"$3\r\nba"), Ok(None)));
    assert!(matches!(my_redis::frame::parse_frame(b"!x\r\n"), Err(Error::Other(_))));
}

#[test]
fn cursor_kept_on_error() {
    let buf = b"+OK";
    let mut pos = 1usize;
    assert!(Frame::check(buf, &mut pos).is_err());
    assert_eq!(pos, 1);
    let mut pos2 = 0usize;
    assert!(Frame::parse(buf, &mut pos2).is_err());
    assert_eq!(pos2, 0);
    let mut pos3 = 2usize;
    assert!(skip(buf, &mut pos3, 5).is_err());
    assert_eq!(pos3, 2);
}
