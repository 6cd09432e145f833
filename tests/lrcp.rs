use speedd::escape::{escape, unescape};
use speedd::frame::{parse_number, Frame, FrameError, Lrcp};
use speedd::reverse::Reverse;
use speedd::session::{AckOutcome, Reader, Sessions, Writer};
use std::str::FromStr;

#[test]
fn parses_connect() {
    let string = r"/connect/123/";
    let frame = Frame::from_str(&string).unwrap();
    assert_eq!(Frame::Connect(123), frame);
}

#[test]
fn parses_data() {
    let string = r"/data/1234567/0/hello
/";
    let frame = Frame::from_str(&string).unwrap();
    assert_eq!(
        Frame::Data {
            session: 1234567,
            position: 0,
            data: "hello\n".to_string()
        },
        frame
    );
}

#[test]
fn parses_single_slash_message() {
    let string = r"/data/1234568/0/\//";
    let frame = Frame::from_str(&string).unwrap();
    assert_eq!(
        Frame::Data {
            session: 1234568,
            position: 0,
            data: r"/".to_string()
        },
        frame
    );
}

#[test]
fn backslashes() {
    let string = r"/data/1981800348/0/foo\/bar\/baz
foo\\bar\\baz
/";
    let frame = Frame::from_str(&string).unwrap();
    assert_eq!(
        frame,
        Frame::Data {
            session: 1981800348,
            position: 0,
            data: r"foo/bar/baz
foo\bar\baz
"
            .to_string()
        }
    );
}

#[test]
fn unescapes_backslashes() {
    let string = r"foo\/bar\\baz";
    let result = unescape(string);
    assert_eq!(result, r"foo/bar\baz");
}

#[test]
fn unescapes_backslashes_2() {
    let string = "some data with a slash\n";
    let result = unescape(string);
    assert_eq!(result, "some data with a slash\n");
}

#[test]
fn unescapes_backslashes_3() {
    let string = r"foo\/bar\/baz
foo\\\\bar\\baz
";
    let result = unescape(string);
    assert_eq!(
        result,
        r"foo/bar/baz
foo\\bar\baz
"
    );
}

#[test]
fn escape_then_unescape_gives_back_the_text() {
    for text in ["", "plain", r"a/b\c", r"\\//", "multi\nline/", r"trailing\"] {
        let escaped = escape(text);
        assert_eq!(unescape(&escaped), text);
    }
    assert_eq!(escape(r"a/b\c"), r"a\/b\\c");
}

#[test]
fn parses_ack_and_close() {
    assert_eq!(
        Frame::parse("/ack/7/12/"),
        Ok(Frame::Ack {
            session: 7,
            length: 12
        })
    );
    assert_eq!(Frame::parse("/close/7/"), Ok(Frame::Close(7)));
}

#[test]
fn rejects_malformed_frames() {
    for text in [
        "",
        "/",
        "/connect/",
        "/connect/12",
        "connect/12/",
        "/connect/1a/",
        "/connect/2147483648/",
        "/ack/1/",
        "/data/1/0//",
        "/data/1/0/a/b/",
        "/data/1/0/hello",
        "/bogus/1/",
        "/close/1/2/",
        r"/data/1/0/a\\/b/",
        r"/data/1/0/a\/",
        r"/data/1/0/a\n/",
        r"/data/1/0/\\\/",
    ] {
        assert_eq!(Frame::parse(text), Err(FrameError::Invalid), "{text:?}");
    }
}

#[test]
fn numbers_stay_below_the_limit() {
    assert_eq!(parse_number("2147483647"), Some(2147483647));
    assert_eq!(parse_number("2147483648"), None);
    assert_eq!(parse_number("007"), Some(7));
    assert_eq!(parse_number(""), None);
    assert_eq!(parse_number("+1"), None);
}

#[test]
fn encodes_frames() {
    assert_eq!(Frame::Connect(5).encode(), "/connect/5/");
    assert_eq!(
        Frame::Ack {
            session: 5,
            length: 120
        }
        .encode(),
        "/ack/5/120/"
    );
    assert_eq!(Frame::Close(0).encode(), "/close/0/");
    let data = Frame::Data {
        session: 12345,
        position: 9,
        data: r"a/b\c".to_string(),
    };
    assert_eq!(data.encode(), r"/data/12345/9/a\/b\\c/");
    assert_eq!(Frame::parse(&data.encode()), Ok(data.clone()));
    assert_eq!(data.session_id(), 12345);
}

#[test]
fn reader_acknowledges_in_order_data() {
    let mut reader = Reader::with_id(1);
    assert_eq!(reader.ack(), Frame::Ack { session: 1, length: 0 });
    let (ack, deliver) = reader.handle_data(0, "hello\n");
    assert_eq!(ack, Some(Frame::Ack { session: 1, length: 6 }));
    assert!(deliver);
    let (ack, deliver) = reader.handle_data(6, "world\n");
    assert_eq!(ack, Some(Frame::Ack { session: 1, length: 12 }));
    assert!(deliver);
    let (ack, deliver) = reader.handle_data(0, "hello\n");
    assert_eq!(ack, Some(Frame::Ack { session: 1, length: 12 }));
    assert!(!deliver);
    let (ack, deliver) = reader.handle_data(20, "xx");
    assert_eq!(ack, None);
    assert!(!deliver);
}

#[test]
fn session_in_order_then_duplicate_and_gap() {
    let mut sessions = Sessions::new();
    let r = sessions.handle(&Frame::parse("/connect/1/").unwrap());
    assert_eq!(r.replies, vec![Frame::Ack { session: 1, length: 0 }]);
    assert_eq!(r.deliver, None);
    let r = sessions.handle(&Frame::parse("/data/1/0/hello\n/").unwrap());
    assert_eq!(r.replies, vec![Frame::Ack { session: 1, length: 6 }]);
    assert_eq!(r.deliver, Some("hello\n".to_string()));
    let r = sessions.handle(&Frame::parse("/data/1/6/world\n/").unwrap());
    assert_eq!(r.replies, vec![Frame::Ack { session: 1, length: 12 }]);
    assert_eq!(r.deliver, Some("world\n".to_string()));
    let r = sessions.handle(&Frame::parse("/data/1/0/hello\n/").unwrap());
    assert_eq!(r.replies, vec![Frame::Ack { session: 1, length: 12 }]);
    assert_eq!(r.deliver, None);
    let r = sessions.handle(&Frame::parse("/data/1/20/xx/").unwrap());
    assert!(r.replies.is_empty());
    assert_eq!(r.deliver, None);
    let r = sessions.handle(&Frame::Connect(1));
    assert_eq!(r.replies, vec![Frame::Ack { session: 1, length: 12 }]);
}

#[test]
fn session_lifecycle() {
    let mut sessions = Sessions::new();
    let r = sessions.handle(&Frame::Data {
        session: 9,
        position: 0,
        data: "x".to_string(),
    });
    assert_eq!(r.replies, vec![Frame::Close(9)]);
    let r = sessions.handle(&Frame::Ack { session: 9, length: 0 });
    assert_eq!(r.replies, vec![Frame::Close(9)]);
    sessions.handle(&Frame::Connect(9));
    assert!(sessions.send(9, "olleh\n"));
    assert!(!sessions.send(10, "x"));
    assert_eq!(
        sessions.pending(9),
        vec![Frame::Data {
            session: 9,
            position: 0,
            data: "olleh\n".to_string()
        }]
    );
    let r = sessions.handle(&Frame::Ack { session: 9, length: 3 });
    assert!(r.replies.is_empty());
    assert_eq!(
        sessions.pending(9),
        vec![Frame::Data {
            session: 9,
            position: 3,
            data: "eh\n".to_string()
        }]
    );
    let r = sessions.handle(&Frame::Ack { session: 9, length: 100 });
    assert_eq!(r.replies, vec![Frame::Close(9)]);
    let r = sessions.handle(&Frame::Ack { session: 9, length: 0 });
    assert_eq!(r.replies, vec![Frame::Close(9)]);
    sessions.handle(&Frame::Connect(4));
    let r = sessions.handle(&Frame::Close(4));
    assert_eq!(r.replies, vec![Frame::Close(4)]);
    assert!(sessions.pending(4).is_empty());
}

#[test]
fn writer_handles_acks() {
    let mut writer = Writer::with_id(3);
    assert!(writer.push(&"a".repeat(500)));
    let frames = writer.pending();
    assert_eq!(frames.len(), 3);
    match &frames[2] {
        Frame::Data { position, data, .. } => {
            assert_eq!(*position, 480);
            assert_eq!(data.len(), 20);
        }
        other => panic!("unexpected {other:?}"),
    }
    assert_eq!(writer.handle_ack(501), AckOutcome::Close);
    assert_eq!(writer.handle_ack(0), AckOutcome::Ignored);
    assert_eq!(writer.handle_ack(500), AckOutcome::Advanced);
    assert_eq!(writer.handle_ack(400), AckOutcome::Ignored);
    assert!(writer.pending().is_empty());
}

#[test]
fn reverses_lines() {
    assert_eq!(Reverse::new().reverse_line("hello"), "olleh");
    assert_eq!(Reverse::new().reverse_line(""), "");
}

#[test]
fn datagram_codec() {
    let mut codec = Lrcp::default();
    assert_eq!(codec.decode(b""), Ok(None));
    assert_eq!(codec.decode(b"/connect/1/"), Ok(Some(Frame::Connect(1))));
    assert_eq!(codec.decode(&[0x2f, 0xff, 0x2f]), Err(FrameError::Invalid));
    assert_eq!(codec.decode(b"/nope/"), Err(FrameError::Invalid));
    assert_eq!(
        codec.decode("/data/2/0/caf\u{e9}/".as_bytes()),
        Ok(Some(Frame::Data {
            session: 2,
            position: 0,
            data: "caf\u{e9}".to_string()
        }))
    );
    let mut out = Vec::new();
    codec.encode(&Frame::Ack { session: 2, length: 5 }, &mut out);
    assert_eq!(out, b"/ack/2/5/".to_vec());
}

#[test]
fn writer_counts_utf8_bytes() {
    let mut writer = Writer::with_id(4);
    assert!(writer.push("\u{e9}t\u{e9}"));
    let frames = writer.pending();
    assert_eq!(
        frames,
        vec![Frame::Data {
            session: 4,
            position: 0,
            data: "\u{e9}t\u{e9}".to_string()
        }]
    );
    assert_eq!(writer.handle_ack(6), AckOutcome::Close);
    // An acknowledgement inside a character still counts; the character it
    // ends in is sent again from its start.
    assert_eq!(writer.handle_ack(1), AckOutcome::Advanced);
    assert_eq!(writer.pending(), frames);
    assert_eq!(writer.handle_ack(1), AckOutcome::Ignored);
    assert_eq!(writer.handle_ack(3), AckOutcome::Advanced);
    assert_eq!(
        writer.pending(),
        vec![Frame::Data {
            session: 4,
            position: 3,
            data: "\u{e9}".to_string()
        }]
    );
    let mut reader = Reader::with_id(4);
    let (ack, deliver) = reader.handle_data(0, "\u{e9}t\u{e9}");
    assert!(deliver);
    assert_eq!(ack, Some(Frame::Ack { session: 4, length: 5 }));
    assert_eq!(writer.handle_ack(5), AckOutcome::Advanced);
    assert!(writer.pending().is_empty());
}

#[test]
fn datagram_round_trip() {
    let mut codec = Lrcp::default();
    for f in [
        Frame::Connect(0),
        Frame::Close(2147483647),
        Frame::Ack { session: 1, length: 99 },
        Frame::Data { session: 3, position: 7, data: "a/b\\c\n\u{e9}".to_string() },
    ] {
        let mut bytes = Vec::new();
        codec.encode(&f, &mut bytes);
        assert_eq!(codec.decode(&bytes), Ok(Some(f)));
    }
}
