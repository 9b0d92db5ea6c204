use raf::codec::{decode_token, encode_token, DecodeError, TokenPayload};

fn payload(source: Option<i64>, chan: Option<i64>, contest: Option<i64>) -> TokenPayload {
    TokenPayload { source, chan, contest }
}

#[test]
fn round_trip_all_fields() {
    let p = payload(Some(7), Some(-1001234567890), Some(2));
    let token = encode_token(&p);
    assert_eq!(decode_token(&token), Ok(p));
}

#[test]
fn round_trip_channel_only() {
    let p = payload(None, Some(42), None);
    let token = encode_token(&p);
    assert_eq!(decode_token(&token), Ok(p));
}

#[test]
fn round_trip_announcement_link() {
    // the shape published to the channel: chan and contest, no source
    let p = payload(None, Some(-100999), Some(17));
    let token = encode_token(&p);
    assert_eq!(decode_token(&token), Ok(p));
}

#[test]
fn round_trip_empty() {
    let p = payload(None, None, None);
    let token = encode_token(&p);
    assert_eq!(token, "");
    assert_eq!(decode_token(&token), Ok(p));
}

#[test]
fn round_trip_extreme_values() {
    let p = payload(Some(i64::MIN), Some(i64::MAX), Some(-1));
    let token = encode_token(&p);
    assert_eq!(decode_token(&token), Ok(p));
}

#[test]
fn encode_known_value() {
    // "chan=1" in URL-safe base64
    let p = payload(None, Some(1), None);
    assert_eq!(encode_token(&p), "Y2hhbj0x");
}

#[test]
fn encode_orders_chan_contest_source() {
    let p = payload(Some(3), Some(1), Some(2));
    let token = encode_token(&p);
    let bytes = data_encoding::BASE64URL.decode(token.as_bytes()).unwrap();
    assert_eq!(bytes, b"chan=1&contest=2&source=3");
}

#[test]
fn decode_ignores_unknown_keys() {
    let token = data_encoding::BASE64URL.encode(b"foo=9&chan=2");
    assert_eq!(decode_token(&token), Ok(payload(None, Some(2), None)));
}

#[test]
fn decode_rejects_bad_base64() {
    assert_eq!(decode_token("not base64 at all!"), Err(DecodeError::Base64));
}

#[test]
fn decode_rejects_field_without_equals() {
    let token = data_encoding::BASE64URL.encode(b"chan");
    assert_eq!(decode_token(&token), Err(DecodeError::Query));
}

#[test]
fn decode_non_numeric_value_is_absent() {
    let token = data_encoding::BASE64URL.encode(b"chan=xx&contest=5");
    assert_eq!(decode_token(&token), Ok(payload(None, None, Some(5))));
}

#[test]
fn decode_last_duplicate_wins() {
    let token = data_encoding::BASE64URL.encode(b"chan=1&chan=2");
    assert_eq!(decode_token(&token), Ok(payload(None, Some(2), None)));
}

#[test]
fn decode_empty_value_is_absent() {
    let token = data_encoding::BASE64URL.encode(b"chan=");
    assert_eq!(decode_token(&token), Ok(payload(None, None, None)));
}
