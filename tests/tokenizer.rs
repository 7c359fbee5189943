use rodata::decode::{ConsumableBytes, DecodeError, JsonDecoder, JsonToken};
use rodata::stream::{Advance, Error, Stream};

fn decode_all(doc: &[u8]) -> Result<Vec<JsonToken>, DecodeError> {
    let mut decoder = JsonDecoder::new();
    let mut bytes = ConsumableBytes::new_end_of_stream(doc);
    let mut out = Vec::new();
    loop {
        match decoder.decode(&mut bytes)? {
            Some(t) => out.push(t),
            None => return Ok(out),
        }
    }
}

fn decode_in_chunks(doc: &[u8], size: usize, capacity: usize) -> Result<Vec<JsonToken>, DecodeError> {
    let mut stream = Stream::from_stream_with_initial_capacity((), capacity).unwrap();
    let mut chunks = doc.chunks(size);
    let mut out = Vec::new();
    loop {
        match stream.advance() {
            Ok(Advance::NeedsChunk) => match chunks.next() {
                Some(c) => stream.supply_chunk(c),
                None => stream.supply_end(),
            },
            Ok(Advance::Ready) => match stream.get() {
                Some(t) => out.push(t.clone()),
                None => return Ok(out),
            },
            Err(Error::DecodeError(e)) => return Err(e),
            Err(Error::IoError(e)) => panic!("{}", e),
        }
    }
}

fn s(text: &str) -> String {
    text.to_string()
}

#[test]
fn tokens_of_a_small_document() {
    let tokens = decode_all(b" {\"a\": [1, -2.5e+3, true, false, null], \"b\" : \"x\"} ").unwrap();
    assert_eq!(
        tokens,
        vec![
            JsonToken::StartObject,
            JsonToken::JsKey(s("a")),
            JsonToken::StartArray,
            JsonToken::JsNumber(s("1")),
            JsonToken::JsNumber(s("-2.5e+3")),
            JsonToken::JsBoolean(true),
            JsonToken::JsBoolean(false),
            JsonToken::JsNull,
            JsonToken::EndArray,
            JsonToken::JsKey(s("b")),
            JsonToken::JsString(s("x")),
            JsonToken::EndObject,
        ]
    );
}

#[test]
fn chunked_input_gives_the_same_tokens() {
    let doc: &[u8] = b"{\"value\":[{\"n\":\"a\\\"b\",\"m\":[0,10.25,-3E-2]},{\"k\":null,\"t\":true}],\"@odata.nextLink\":\"u\"}";
    let whole = decode_all(doc).unwrap();
    for size in 1..doc.len() + 1 {
        assert_eq!(decode_in_chunks(doc, size, 1).unwrap(), whole);
        assert_eq!(decode_in_chunks(doc, size, 1024).unwrap(), whole);
    }
}

#[test]
fn byte_by_byte_string_keeps_its_escapes() {
    let doc: &[u8] = b"{\"s\":\"hi\\\"there\"}";
    let tokens = decode_in_chunks(doc, 1, 2).unwrap();
    assert_eq!(
        tokens,
        vec![
            JsonToken::StartObject,
            JsonToken::JsKey(s("s")),
            JsonToken::JsString(s("hi\\\"there")),
            JsonToken::EndObject,
        ]
    );
}

#[test]
fn needs_more_leaves_input_and_state_alone() {
    let mut decoder = JsonDecoder::new();
    let mut bytes = ConsumableBytes::new(b"[12");
    assert_eq!(decoder.decode(&mut bytes), Ok(Some(JsonToken::StartArray)));
    assert_eq!(bytes.len(), 2);
    assert_eq!(decoder.decode(&mut bytes), Err(DecodeError::NeedsMore));
    assert_eq!(bytes.len(), 2);
    let mut more = ConsumableBytes::new(b"12,");
    assert_eq!(decoder.decode(&mut more), Ok(Some(JsonToken::JsNumber(s("12")))));
    assert_eq!(more.len(), 1);
}

#[test]
fn literal_prefix_needs_more() {
    let mut decoder = JsonDecoder::new();
    let mut bytes = ConsumableBytes::new(b"tr");
    assert_eq!(decoder.decode(&mut bytes), Err(DecodeError::NeedsMore));
    let mut bytes = ConsumableBytes::new(b"tx");
    assert_eq!(decoder.decode(&mut bytes), Err(DecodeError::UnexpectedByte(b'x')));
}

#[test]
fn number_at_end_of_stream_is_whole() {
    let mut decoder = JsonDecoder::new();
    let mut bytes = ConsumableBytes::new_end_of_stream(b"42");
    assert_eq!(decoder.decode(&mut bytes), Ok(Some(JsonToken::JsNumber(s("42")))));
    assert_eq!(decoder.decode(&mut bytes), Ok(None));
    let mut decoder = JsonDecoder::new();
    let mut bytes = ConsumableBytes::new(b"42");
    assert_eq!(decoder.decode(&mut bytes), Err(DecodeError::NeedsMore));
}

#[test]
fn empty_input_is_the_end() {
    assert_eq!(decode_all(b"").unwrap(), vec![]);
    assert_eq!(decode_all(b" \t\r\n").unwrap(), vec![]);
    let mut decoder = JsonDecoder::new();
    let mut bytes = ConsumableBytes::new(b"  ");
    assert_eq!(decoder.decode(&mut bytes), Err(DecodeError::NeedsMore));
}

#[test]
fn unexpected_byte_errors() {
    assert_eq!(decode_all(b"[1,]"), Err(DecodeError::UnexpectedByte(b']')));
    assert_eq!(decode_all(b"{,}"), Err(DecodeError::UnexpectedByte(b',')));
    assert_eq!(decode_all(b"{\"a\" 1}"), Err(DecodeError::UnexpectedByte(b'1')));
    assert_eq!(decode_all(b"[1 2]"), Err(DecodeError::UnexpectedByte(b'2')));
    assert_eq!(decode_all(b"01"), Err(DecodeError::UnexpectedByte(b'1')));
    assert_eq!(decode_all(b"-x"), Err(DecodeError::UnexpectedByte(b'x')));
    assert_eq!(decode_all(b"1.e5"), Err(DecodeError::UnexpectedByte(b'e')));
    assert_eq!(decode_all(b"\"a\\qb\""), Err(DecodeError::UnexpectedByte(b'q')));
    assert_eq!(decode_all(b"\"\\u12g4\""), Err(DecodeError::UnexpectedByte(b'g')));
    assert_eq!(decode_all(b"\"\\u12\""), Err(DecodeError::UnexpectedByte(b'"')));
}

#[test]
fn end_of_stream_inside_a_token() {
    assert_eq!(decode_all(b"[1"), Err(DecodeError::UnexpectedEndOfStream));
    assert_eq!(decode_all(b"\"abc"), Err(DecodeError::UnexpectedEndOfStream));
    assert_eq!(decode_all(b"nul"), Err(DecodeError::UnexpectedEndOfStream));
    assert_eq!(decode_all(b"1e"), Err(DecodeError::UnexpectedEndOfStream));
    assert_eq!(decode_in_chunks(b"{\"a\":", 2, 4), Err(DecodeError::UnexpectedEndOfStream));
}

#[test]
fn invalid_utf8_in_a_string() {
    assert_eq!(decode_all(b"[\"a\xffb\"]"), Err(DecodeError::InvalidUtf8));
}

#[test]
fn unicode_escapes() {
    assert_eq!(decode_all(b"\"\\ud800\""), Err(DecodeError::InvalidUnicodeEscape(0xd800)));
    assert_eq!(decode_all(b"\"\\uDC01x\""), Err(DecodeError::InvalidUnicodeEscape(0xdc01)));
    assert_eq!(
        decode_all(b"\"\\ud83d\\ude00 \\u00e9\"").unwrap(),
        vec![JsonToken::JsString(s("\\ud83d\\ude00 \\u00e9"))]
    );
}

#[test]
fn multibyte_text_is_decoded() {
    let tokens = decode_all("{\"caf\u{e9}\":\"\u{20ac}5\"}".as_bytes()).unwrap();
    assert_eq!(
        tokens,
        vec![
            JsonToken::StartObject,
            JsonToken::JsKey(s("caf\u{e9}")),
            JsonToken::JsString(s("\u{20ac}5")),
            JsonToken::EndObject,
        ]
    );
}

#[test]
fn backslash_runs_decide_where_a_string_ends() {
    let tokens = decode_all(b"[\"a\\\\\",\"b\\\\\\\"c\"]").unwrap();
    assert_eq!(
        tokens,
        vec![
            JsonToken::StartArray,
            JsonToken::JsString(s("a\\\\")),
            JsonToken::JsString(s("b\\\\\\\"c")),
            JsonToken::EndArray,
        ]
    );
}

#[test]
fn consumable_bytes_consume() {
    let mut bytes = ConsumableBytes::new(b"abcdef");
    assert_eq!(bytes.len(), 6);
    bytes.consume_bytes(4);
    assert_eq!(bytes.len(), 2);
}

#[test]
fn stream_grows_its_buffer() {
    let doc = format!("[\"{}\"]", "x".repeat(5000));
    let tokens = decode_in_chunks(doc.as_bytes(), 700, 1).unwrap();
    assert_eq!(tokens.len(), 3);
    assert_eq!(tokens[1], JsonToken::JsString("x".repeat(5000)));
}
