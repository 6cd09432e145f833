use speedd::mob::{replace, MessageDecoder, TONYS_ADDRESS};
use speedd::netcrab::{parse_hex_digit, HexError};
use speedd::pricetime::ResponseEncoder;
use speedd::primes::{answer, Number, Response};
use speedd::timeprice::Db;
use speedd::unusual::Message;
use std::str::FromStr;

#[test]
fn insert_and_query() {
    let mut db = Db::default();
    db.insert(1, 2);
    db.insert(2, 3);
    db.insert(0, 4);
    assert_eq!(3, { db.query(0, 4) });
    assert_eq!(0, { db.query(10, 9) });
}

#[test]
fn query_rounds_toward_zero() {
    let mut db = Db::default();
    db.insert(1, -3);
    db.insert(2, -4);
    db.insert(3, 100);
    db.insert(3, 1);
    assert_eq!(db.query(1, 2), -3);
    assert_eq!(db.query(2, 3), -1);
    assert_eq!(db.query(i32::MIN, i32::MAX), -2);
}

#[test]
fn parses() {
    assert_eq!(
        Message::from_str("foo=bar").unwrap(),
        Message::Insert {
            key: "foo".to_string(),
            value: "bar".to_string()
        }
    );
    assert_eq!(
        Message::from_str("foo=bar=baz").unwrap(),
        Message::Insert {
            key: "foo".to_string(),
            value: "bar=baz".to_string()
        }
    );
    assert_eq!(
        Message::from_str("foo=").unwrap(),
        Message::Insert {
            key: "foo".to_string(),
            value: "".to_string()
        }
    );
    assert_eq!(
        Message::from_str("foo===").unwrap(),
        Message::Insert {
            key: "foo".to_string(),
            value: "==".to_string()
        }
    );
    assert_eq!(
        Message::from_str("=foo").unwrap(),
        Message::Insert {
            key: "".to_string(),
            value: "foo".to_string()
        }
    );
}

#[test]
fn parses_queries() {
    assert_eq!(Message::parse("foo"), Message::Query("foo".to_string()));
    assert_eq!(Message::parse(""), Message::Query("".to_string()));
}

#[test]
fn replaces_addresses_in_words() {
    assert_eq!(
        replace("Hi alice, please send payment to 7iKDZEwPZSqIvDnHvVN2r0hUWXD5rHX\n"),
        format!("Hi alice, please send payment to {TONYS_ADDRESS}")
    );
    assert_eq!(
        replace("  too short 7F1u3wSD5RbOHQmupo9nx4TnhQ x 7abc "),
        format!("too short {TONYS_ADDRESS} x 7abc")
    );
    assert_eq!(
        replace("too long 7QDPU8nAmrWK5UbGDPt8LVKnCZSG3OLznPsc"),
        "too long 7QDPU8nAmrWK5UbGDPt8LVKnCZSG3OLznPsc"
    );
    assert_eq!(replace("7adNeSwJkMakpEcln9HEtthSRtxdmEHO-8T"), "7adNeSwJkMakpEcln9HEtthSRtxdmEHO-8T");
    assert_eq!(replace(""), "");
}

#[test]
fn parses_hex_bytes() {
    assert_eq!(parse_hex_digit("ff"), Ok(255));
    assert_eq!(parse_hex_digit("0A"), Ok(10));
    assert_eq!(parse_hex_digit("+7"), Ok(7));
    assert_eq!(parse_hex_digit("100"), Err(HexError::Invalid));
    assert_eq!(parse_hex_digit(""), Err(HexError::Invalid));
    assert_eq!(parse_hex_digit("+"), Err(HexError::Invalid));
    assert_eq!(parse_hex_digit("g"), Err(HexError::Invalid));
    assert_eq!(parse_hex_digit("-1"), Err(HexError::Invalid));
}

#[test]
fn encodes_price_answers() {
    let mut out = Vec::new();
    let mut encoder = ResponseEncoder::default();
    encoder.encode(258, &mut out);
    encoder.encode(-1, &mut out);
    assert_eq!(out, vec![0, 0, 1, 2, 0xff, 0xff, 0xff, 0xff]);
}

#[test]
fn prime_answers() {
    let ok = Response::wellformed(true);
    assert_eq!(ok.method, "isPrime");
    assert!(ok.prime);
    let bad = Response::malformed("None");
    assert_eq!(bad.method, "None");
    assert!(!bad.prime);
}

fn address_regex() -> regex::Regex {
    regex::Regex::new(speedd::mob::ADDRESS_PATTERN).unwrap()
}

#[test]
fn examples() {
    let re = address_regex();
    assert!(re.is_match("7F1u3wSD5RbOHQmupo9nx4TnhQ"));
    assert!(re.is_match("7iKDZEwPZSqIvDnHvVN2r0hUWXD5rHX"));
    assert!(re.is_match("7LOrwbDlS8NujgjddyogWgIM93MV5N2VR"));
    assert!(re.is_match("7adNeSwJkMakpEcln9HEtthSRtxdmEHOT8T"));
}

#[test]
fn replaces() {
    let text = " please pay bgcoin 540 to 7adNeSwJkMakpEcln9HEtthSRtxdmEHOT8T now.";
    let result = address_regex().replace(text, format!("{TONYS_ADDRESS}$2"));
    assert_eq!(
        result,
        " please pay bgcoin 540 to 7YWHMfk9JZe0LM0g1ZauHuiSxhI now."
    )
}

#[test]
fn replaces_2() {
    let text = "[BigFrank692] Send refunds to 78LQ1UzAp7GAvWuTLzKFntxfO0 please.";
    let result = address_regex().replace(text, format!("{TONYS_ADDRESS}$2"));
    assert_eq!(
        result,
        "[BigFrank692] Send refunds to 7YWHMfk9JZe0LM0g1ZauHuiSxhI please."
    );
}

#[test]
fn too_long() {
    let text = "[RichWizard12] This is too long: 7QDPU8nAmrWK5UbGDPt8LVKnCZSG3OLznPsc";
    let result = address_regex().replace(text, format!("{TONYS_ADDRESS}$2"));
    assert_eq!(result, text);
}

#[test]
fn stream_rewriter_replaces_addresses() {
    let mut decoder = MessageDecoder::default();
    let input = b"Hi 7adNeSwJkMakpEcln9HEtthSRtxdmEHOT8T now\n7abc x\n";
    let (out, used) = decoder.decode(input);
    assert_eq!(out, Some(b"Hi ".to_vec()));
    assert_eq!(used, 4);
    let (out, used2) = decoder.decode(&input[used..]);
    assert_eq!(out, Some(format!("{TONYS_ADDRESS} now\n").into_bytes()));
    let rest = &input[used + used2..];
    assert_eq!(rest, b"abc x\n");
    let (out, used3) = decoder.decode(rest);
    assert_eq!(out, Some(b"7abc x\n".to_vec()));
    assert_eq!(used3, rest.len());
    let (out, used) = decoder.decode(b"");
    assert_eq!((out, used), (None, 0));
}

#[test]
fn prime_service_answers() {
    let (r, close) = answer("isPrime", Number::Unsigned(7));
    assert_eq!(r, Response::wellformed(true));
    assert!(!close);
    let (r, _) = answer("isPrime", Number::Unsigned(22_801_763_489));
    assert!(r.prime);
    let (r, _) = answer("isPrime", Number::Unsigned(22_801_763_491));
    assert!(!r.prime);
    let (r, _) = answer("isPrime", Number::Unsigned(1));
    assert!(!r.prime);
    let (r, close) = answer("isPrime", Number::Signed(-7));
    assert_eq!(r, Response::wellformed(false));
    assert!(!close);
    let (r, close) = answer("isPrime", Number::Other);
    assert_eq!(r, Response::wellformed(false));
    assert!(close);
    let (r, close) = answer("isprime", Number::Unsigned(7));
    assert_eq!(r, Response::malformed("Invalid method"));
    assert!(close);
}
