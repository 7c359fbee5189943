use rodata::convert::csv::CsvConverter;
use rodata::convert::json::JsonConverter;
use rodata::convert::xml::XmlConverter;
use rodata::decode::{DecodeError, JsonToken};
use rodata::entity_stream::{EntityStreamer, RootEntityType, StreamStep};
use rodata::model::{EntitySetQuery, MyError, Token, Value, ValuePath, ValuePosition};
use rodata::provider::{CollectStep, EntitySetIterator, ResponseCollector, ResponseKind};
use rodata::stream::{Advance, Error, Stream};

/// Tokens of a document fed in chunks of `size` bytes.
fn tokens(doc: &[u8], size: usize) -> Vec<Option<JsonToken>> {
    let mut stream = Stream::from_stream_with_initial_capacity((), 16).unwrap();
    let mut chunks = doc.chunks(size);
    let mut out = Vec::new();
    loop {
        match stream.advance() {
            Ok(Advance::NeedsChunk) => match chunks.next() {
                Some(c) => stream.supply_chunk(c),
                None => stream.supply_end(),
            },
            Ok(Advance::Ready) => {
                out.push(stream.get().clone());
                if stream.get().is_none() {
                    return out;
                }
            },
            Err(Error::DecodeError(e)) => panic!("{:?}", e),
            Err(Error::IoError(e)) => panic!("{}", e),
        }
    }
}

/// Events of the producer over a document whose opening token the caller
/// has consumed.
fn produce(doc: &[u8], root: RootEntityType) -> Vec<Token> {
    let mut streamer = EntityStreamer::new(root);
    let mut out = Vec::new();
    out.extend(streamer.begin());
    for t in tokens(doc, 3).into_iter().skip(1) {
        match streamer.stream_token(&t).unwrap() {
            StreamStep::Emit(e) => out.push(e),
            StreamStep::Skip => {},
            StreamStep::Done => break,
        }
    }
    out.extend(streamer.end());
    out
}

/// Events of a sequence of responses of one kind, and the next link of the last.
fn collect(pages: &[&[u8]], kind: ResponseKind) -> Result<(Vec<Token>, Option<String>), MyError> {
    let mut collector = ResponseCollector::new(kind);
    let mut out = Vec::new();
    out.extend(collector.begin());
    let mut next = None;
    for page in pages {
        collector.start_response();
        for t in tokens(page, 5) {
            match collector.collect(&t)? {
                CollectStep::Emit(e) => out.push(e),
                CollectStep::Continue => {},
                CollectStep::Finished(n) => {
                    next = n;
                    break;
                },
            }
        }
    }
    out.extend(collector.end());
    Ok((out, next))
}

fn json(events: &[Token]) -> String {
    let mut c = JsonConverter::new();
    events.iter().map(|e| c.forward_json(e)).collect()
}

fn csv(events: &[Token]) -> String {
    let mut c = CsvConverter::new();
    events.iter().flat_map(|e| c.buffer_object(e)).collect()
}

fn xml(events: &[Token]) -> String {
    events.iter().filter_map(|e| XmlConverter::stream_as_xml(e)).collect()
}

fn path(steps: &[ValuePosition]) -> ValuePath {
    ValuePath::from_steps(steps.to_vec())
}

fn key(k: &str) -> ValuePosition {
    ValuePosition::Key(k.to_string())
}

fn ev(steps: &[ValuePosition], value: Value) -> Token {
    Token { path: path(steps), value }
}

#[test]
fn empty_array_root() {
    let events = produce(b"[]", RootEntityType::Array);
    assert_eq!(events, vec![ev(&[], Value::StartArray), ev(&[], Value::EndArray)]);
    assert_eq!(json(&events), "[]");
    assert_eq!(csv(&events), "");
}

#[test]
fn object_root_with_null() {
    let events = produce(b"{\"a\":1,\"b\":null}", RootEntityType::Object);
    assert_eq!(
        events,
        vec![
            ev(&[], Value::StartObject),
            ev(&[key("a")], Value::Number("1".to_string())),
            ev(&[key("b")], Value::Null),
            ev(&[], Value::EndObject),
        ]
    );
    assert_eq!(csv(&events), "a;b\r\n1;\r\n");
}

#[test]
fn next_link_is_followed_and_filtered() {
    let page: &[u8] = b"{\"value\":[{\"x\":true},{\"x\":false}],\"@odata.nextLink\":\"http://h/p2\"}";
    let (events, next) = collect(&[page], ResponseKind::EntitySet).unwrap();
    assert_eq!(next, Some("http://h/p2".to_string()));
    assert_eq!(
        events,
        vec![
            ev(&[], Value::StartArray),
            ev(&[ValuePosition::Index(0)], Value::StartObject),
            ev(&[ValuePosition::Index(0), key("x")], Value::Boolean(true)),
            ev(&[ValuePosition::Index(0)], Value::EndObject),
            ev(&[ValuePosition::Index(1)], Value::StartObject),
            ev(&[ValuePosition::Index(1), key("x")], Value::Boolean(false)),
            ev(&[ValuePosition::Index(1)], Value::EndObject),
            ev(&[], Value::EndArray),
        ]
    );
}

#[test]
fn csv_of_entity_set_without_context() {
    let page: &[u8] = b"{\"@odata.context\":\"\xe2\x80\xa6\",\"value\":[{\"n\":\"a\"},{\"n\":\"b\"}]}";
    let (events, next) = collect(&[page], ResponseKind::EntitySet).unwrap();
    assert_eq!(next, None);
    assert_eq!(csv(&events), "n\r\n\"a\"\r\n\"b\"\r\n");
}

#[test]
fn escaped_quote_survives_byte_by_byte() {
    let doc: &[u8] = b"{\"s\":\"hi\\\"there\"}";
    let mut streamer = EntityStreamer::new(RootEntityType::Object);
    let mut events = Vec::new();
    events.extend(streamer.begin());
    for t in tokens(doc, 1).into_iter().skip(1) {
        match streamer.stream_token(&t).unwrap() {
            StreamStep::Emit(e) => events.push(e),
            StreamStep::Skip => {},
            StreamStep::Done => break,
        }
    }
    events.extend(streamer.end());
    assert_eq!(events[1], ev(&[key("s")], Value::String("hi\\\"there".to_string())));
    assert_eq!(json(&events), "{\"s\": \"hi\\\"there\"}");
}

#[test]
fn csv_flattens_complex_members() {
    let events = produce(b"[{\"p\":{\"q\":1,\"r\":[2,3]}}]", RootEntityType::Array);
    assert_eq!(csv(&events), "p\r\n(q: 1 / r: 2 / 3)\r\n");
}

#[test]
fn json_round_trip_of_a_response() {
    let page: &[u8] = b"{\"@odata.context\":\"x\",\"value\":[ {\"a\":1, \"b\":[true,null], \"c\":{\"d\":\"e\", \"@odata.etag\":\"t\"}}, {\"a\":2}]}";
    let (events, _) = collect(&[page], ResponseKind::EntitySet).unwrap();
    assert_eq!(json(&events), "[{\"a\": 1,\"b\": [true,null],\"c\": {\"d\": \"e\"}},{\"a\": 2}]");
}

#[test]
fn end_events_carry_the_path_of_their_start() {
    let events = produce(b"[{\"a\":[{\"b\":{}}],\"c\":[]}]", RootEntityType::Array);
    let mut open: Vec<ValuePath> = Vec::new();
    for e in &events {
        match e.value {
            Value::StartArray | Value::StartObject => open.push(e.path.clone()),
            Value::EndArray | Value::EndObject => assert_eq!(open.pop().unwrap(), e.path),
            _ => assert!(e.path.current_level() > open.last().unwrap().current_level()),
        }
    }
    assert!(open.is_empty());
    assert_eq!(events[3].path.get_path_string(), "[0].a[0]");
    assert_eq!(events[4].path.get_path_string(), "[0].a[0].b");
}

#[test]
fn pages_stream_like_one_array() {
    let p1: &[u8] = b"{\"value\":[{\"n\":1},{\"n\":2}],\"@odata.nextLink\":\"http://h/p2\"}";
    let p2: &[u8] = b"{\"value\":[{\"n\":3}]}";
    let one: &[u8] = b"{\"value\":[{\"n\":1},{\"n\":2},{\"n\":3}]}";
    let (paged, next) = collect(&[p1, p2], ResponseKind::EntitySet).unwrap();
    let (whole, _) = collect(&[one], ResponseKind::EntitySet).unwrap();
    assert_eq!(next, None);
    assert_eq!(paged, whole);
    assert_eq!(paged[paged.len() - 2], ev(&[ValuePosition::Index(2)], Value::EndObject));
}

#[test]
fn csv_columns_are_fixed_by_the_first_record() {
    let events = produce(b"[{\"a\":1,\"b\":2},{\"b\":3,\"c\":4},{\"a\":5}]", RootEntityType::Array);
    let out = csv(&events);
    assert_eq!(out, "a;b\r\n1;2\r\n;3\r\n5;\r\n");
    for line in out.split("\r\n").filter(|l| !l.is_empty()) {
        assert_eq!(line.split(';').count(), 2);
    }
}

#[test]
fn xml_of_a_record() {
    let events = produce(b"[{\"a\":1,\"b\":null,\"c\":[true,\"s\"]}]", RootEntityType::Array);
    assert_eq!(
        xml(&events),
        "<list><object><a>1</a><b /><c><value>true</value><value>s</value></c></object></list>"
    );
}

#[test]
fn function_result_ignores_next_link() {
    let page: &[u8] = b"{\"@odata.nextLink\":\"http://h/p2\",\"other\":{\"x\":[1,{\"y\":2}]},\"value\":[7]}";
    let (events, next) = collect(&[page], ResponseKind::Function).unwrap();
    assert_eq!(next, None);
    assert_eq!(json(&events), "[7]");
}

#[test]
fn single_entity_drops_control_keys() {
    let page: &[u8] = b"{\"@odata.context\":\"c\",\"Name\":\"n\",\"Tags\":[\"t\"]}";
    let (events, next) = collect(&[page], ResponseKind::Entity).unwrap();
    assert_eq!(next, None);
    assert_eq!(json(&events), "{\"Name\": \"n\",\"Tags\": [\"t\"]}");
    assert_eq!(csv(&events), "Name;Tags\r\n\"n\";\"t\"\r\n");
}

#[test]
fn response_errors() {
    let e = collect(&[b"[1]"], ResponseKind::EntitySet).unwrap_err();
    assert_eq!(e.to_string(), "Invalid top level JSON structure of response");
    let e = collect(&[b"{\"value\":{}}"], ResponseKind::EntitySet).unwrap_err();
    assert_eq!(e.to_string(), "Expected an array for key 'value'");
    let e = collect(&[b"{\"@odata.nextLink\":3}"], ResponseKind::EntitySet).unwrap_err();
    assert_eq!(e.to_string(), "Expected a string value for key '@odata.nextLink'");
}

#[test]
fn premature_end_names_the_path() {
    let mut streamer = EntityStreamer::new(RootEntityType::Array);
    streamer.begin();
    streamer.stream_token(&Some(JsonToken::StartObject)).unwrap();
    streamer.stream_token(&Some(JsonToken::JsKey("k".to_string()))).unwrap();
    let e = streamer.stream_token(&None).unwrap_err();
    assert_eq!(e.to_string(), "Premature end of content at position [0].k");
}

#[test]
fn stream_error_messages() {
    let m = MyError::from_stream_error(&Error::DecodeError(DecodeError::UnexpectedByte(0x2c)));
    assert_eq!(m.to_string(), "Decode-Error: found an invalid byte: 2c");
    let m = MyError::from_stream_error(&Error::DecodeError(DecodeError::InvalidUnicodeEscape(0xd800)));
    assert_eq!(m.to_string(), "Decode-Error: String contains a sequence d800 which is an invalid unicode code point");
    let m = MyError::from_stream_error(&Error::DecodeError(DecodeError::InvalidUtf8));
    assert_eq!(m.to_string(), "Decode-Error: Invalid UTF-8");
}

#[test]
fn entity_set_url_options() {
    let it = EntitySetIterator::new();
    let mut q = EntitySetQuery::new("http://s/People".to_string());
    assert!(!q.has_options());
    assert_eq!(it.build_full_url(&q), "http://s/People");
    q.select = Some("a,b".to_string());
    assert_eq!(it.build_full_url(&q), "http://s/People?$select=a,b");
    q.filters = Some("x eq 1".to_string());
    q.order_by = Some("a".to_string());
    assert!(q.has_options());
    assert_eq!(it.build_full_url(&q), "http://s/People?$filter=x eq 1&$select=a,b&$orderby=a");
}

#[test]
fn path_text_and_steps() {
    let p = path(&[key("a"), ValuePosition::Index(10), key("b")]);
    assert_eq!(p.get_path_string(), "a[10].b");
    assert_eq!(path(&[ValuePosition::Index(0), key("c")]).get_path_string(), "[0].c");
    assert_eq!(p.build_key_path(), path(&[key("a"), key("b")]));
    assert_eq!(p.parent().unwrap(), path(&[key("a"), ValuePosition::Index(10)]));
    assert_eq!(p.top_most(), Some(key("b")));
    assert_eq!(ValuePath::new().parent(), None);
    let mut q = p.clone();
    assert_eq!(q.pop(), Some(key("b")));
    q.push(ValuePosition::Index(3));
    assert_eq!(q.current_level(), 3);
    assert_eq!(q.iter().count(), 3);
    q.reset();
    assert!(q.is_empty());
}

#[test]
fn numbers_and_hex_text() {
    assert_eq!(rodata::model::decimal_string(0), "0");
    assert_eq!(rodata::model::decimal_string(1907), "1907");
    assert_eq!(rodata::model::hex_string(255), "ff");
    assert_eq!(rodata::model::hex_string(0x1a2b), "1a2b");
}

#[test]
fn bare_value_root_has_no_framing() {
    let mut streamer = EntityStreamer::new(RootEntityType::Value);
    assert!(streamer.begin().is_none());
    let step = streamer.stream_token(&Some(JsonToken::JsNumber("42".to_string()))).unwrap();
    match step {
        StreamStep::Emit(t) => assert_eq!(t, ev(&[], Value::Number("42".to_string()))),
        other => panic!("{:?}", other),
    }
    assert!(streamer.end().is_none());
}

#[test]
fn stream_waits_for_chunks() {
    let mut stream = Stream::from_stream(()).unwrap();
    assert!(stream.needs_chunk());
    assert!(matches!(stream.advance(), Ok(Advance::NeedsChunk)));
    stream.supply_chunk(b"");
    assert!(stream.needs_chunk());
    stream.supply_chunk(b"[tr");
    assert_eq!(stream.pending_len(), 3);
    assert!(matches!(stream.advance(), Ok(Advance::Ready)));
    assert_eq!(stream.get(), &Some(JsonToken::StartArray));
    assert!(matches!(stream.advance(), Ok(Advance::NeedsChunk)));
    assert!(stream.needs_chunk());
    stream.supply_chunk(b"ue]");
    assert!(matches!(stream.advance(), Ok(Advance::Ready)));
    assert_eq!(stream.get(), &Some(JsonToken::JsBoolean(true)));
    assert!(matches!(stream.advance(), Ok(Advance::Ready)));
    assert_eq!(stream.get(), &Some(JsonToken::EndArray));
    assert!(matches!(stream.advance(), Ok(Advance::NeedsChunk)));
    stream.supply_end();
    assert!(matches!(stream.advance(), Ok(Advance::Ready)));
    assert_eq!(stream.get(), &None);
}

#[test]
fn truncated_stream_is_an_error() {
    let mut stream = Stream::from_stream(()).unwrap();
    stream.supply_chunk(b"{\"a\":tr");
    let mut seen = 0;
    loop {
        match stream.advance() {
            Ok(Advance::Ready) => seen += 1,
            Ok(Advance::NeedsChunk) => stream.supply_end(),
            Err(Error::DecodeError(e)) => {
                assert_eq!(e, DecodeError::UnexpectedEndOfStream);
                break;
            },
            Err(Error::IoError(e)) => panic!("{}", e),
        }
    }
    assert_eq!(seen, 2);
}

#[test]
fn early_end_inside_the_payload_names_the_path() {
    let page: &[u8] = b"{\"value\":[{\"a\":1},{\"b\":[tr";
    let mut collector = ResponseCollector::new(ResponseKind::EntitySet);
    collector.begin();
    collector.start_response();
    let mut stream = Stream::from_stream(()).unwrap();
    stream.supply_chunk(page);
    let err = loop {
        match stream.advance() {
            Ok(Advance::NeedsChunk) => stream.supply_end(),
            Ok(Advance::Ready) => {
                collector.collect(stream.get()).unwrap();
            },
            Err(e) => break collector.stream_failed(&e),
        }
    };
    assert_eq!(err.to_string(), "Premature end of content at position [1].b");
}

#[test]
fn early_end_outside_the_payload_is_a_stream_error() {
    let collector = ResponseCollector::new(ResponseKind::EntitySet);
    let err = collector.stream_failed(&Error::DecodeError(DecodeError::UnexpectedEndOfStream));
    assert_eq!(
        err.to_string(),
        "Decode-Error: More input needed to finish parse, but input bytes marked as end of stream"
    );
}

#[test]
fn buffer_doubles_until_the_chunk_fits() {
    let mut stream = Stream::from_stream_with_initial_capacity((), 3).unwrap();
    stream.supply_chunk(b"[\"abcdefghij");
    assert_eq!(stream.buffer_capacity(), 12);
    assert!(matches!(stream.advance(), Ok(Advance::Ready)));
    assert!(matches!(stream.advance(), Ok(Advance::NeedsChunk)));
    stream.supply_chunk(b"klm\"]");
    assert_eq!(stream.buffer_capacity(), 24);
    assert!(matches!(stream.advance(), Ok(Advance::Ready)));
    assert_eq!(stream.get(), &Some(JsonToken::JsString("abcdefghijklm".to_string())));
}

#[test]
fn json_converter_forgets_the_root_object() {
    let first = produce(b"{\"a\":1}", RootEntityType::Object);
    let second = produce(b"{\"b\":2}", RootEntityType::Object);
    let mut c = JsonConverter::new();
    let text: String = first.iter().chain(second.iter()).map(|e| c.forward_json(e)).collect();
    assert_eq!(text, "{\"a\": 1}{\"b\": 2}");
}
