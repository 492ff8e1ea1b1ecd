use jch::channel::Consumer;
use jch::channel::Producer;
use jch::channel::bounded_events;
use jch::channel::cb_recv;
use jch::channel::drain_schema;
use jch::channel::event_ring;
use jch::handler::ErrorPolicy;
use jch::handler::traverse;
use jch::jsonpath::JsonPath;
use jch::jsonpath::Step;
use jch::parser::JsonToken;
use jch::parser::Tokenizer;
use jch::plain::Plain;
use jch::schema::SchemaType;
use jch::sender::Event;
use jch::sender::Sender;
use jch::sender::VecSender;
use jch::sendpath::SendPath;
use jch::shredder::MsgPacker;
use jch::shredder::encode_to_msgpack;
use jch::shredder::encode_token;

#[test]
fn create() {
    let _je = JsonToken::String("hello".to_string());
    let _je = JsonToken::Number("5".to_string());
    let _je = JsonToken::ObjectKey("cle".to_string());
}

#[test]
fn ring_buffer_memory_stays_bounded() {
    // a capacity-1 ring with a consumer that drains one event per push:
    // a million events flow through while never more than one is in
    // flight, and the single overflow probe is handed back untouched
    let (mut tx, mut rx) = event_ring::<u64>(1);
    let mut rejected: u64 = 0;
    for i in 0..1_000_000u64 {
        let path = SendPath(vec![]);
        assert!(tx.send(Event::Value(path, i)).is_ok());
        // the buffer is full now: one more push must be refused and the
        // event handed back for a later retry
        let probe = Event::Value(SendPath(vec![]), i);
        match tx.send(probe) {
            Ok(()) => panic!("a capacity-1 ring accepted a second event"),
            Err(Event::Value(_, v)) => {
                assert_eq!(v, i);
                rejected += 1;
            },
            Err(_) => panic!("the rejected event came back changed"),
        }
        match rx.recv() {
            Some(Event::Value(_, v)) => assert_eq!(v, i),
            _ => panic!("the consumer should see the event"),
        }
        assert!(rx.recv().is_none());
    }
    assert_eq!(rejected, 1_000_000);
}

#[test]
fn bounded_channel_delivers_in_order() {
    let (mut tx, rx) = bounded_events::<SchemaType>(8);
    for i in 0..5u64 {
        let ev = Event::Value(
            SendPath(vec![Step::Key("k".into())]),
            SchemaType::Number(jch::schema::NumberType::Unsigned(i)),
        );
        assert!(tx.send(ev).is_ok());
    }
    assert!(tx.send(Event::Finished).is_ok());
    for i in 0..5u64 {
        match cb_recv(&rx) {
            Some(Event::Value(_, SchemaType::Number(jch::schema::NumberType::Unsigned(v)))) => {
                assert_eq!(v, i)
            },
            other => panic!("unexpected event {other:?}"),
        }
    }
    assert!(matches!(cb_recv(&rx), Some(Event::Finished)));
}

#[test]
fn drain_builds_the_same_schema() {
    let (mut tx, rx) = bounded_events::<SchemaType>(64);
    let mut tok = Tokenizer::from_bytes(b"{\"a\":1,\"b\":[1,2,3],\"c\":\"x\"}".to_vec());
    let conv = jch::schema::EventConverter::new();
    assert!(traverse(&conv, &mut tok, &mut tx, ErrorPolicy::Halt, u64::MAX).is_ok());
    let mut collector = jch::schema::SchemaCollector::new();
    let done = drain_schema(&rx, &mut collector, 1_000);
    assert!(done);
    let lines = collector.render_lines();
    assert_eq!(lines.len(), 3);
    assert_eq!(lines[0], "a Number(Unsigned(1)):1".to_string());
}

#[test]
fn msgpack_encodings_are_exact() {
    assert_eq!(encode_token(&JsonToken::Null).unwrap(), vec![0xc0]);
    assert_eq!(encode_token(&JsonToken::Boolean(true)).unwrap(), vec![0xc3]);
    assert_eq!(encode_token(&JsonToken::Boolean(false)).unwrap(), vec![0xc2]);
    assert_eq!(
        encode_token(&JsonToken::Number("1".to_string())).unwrap(),
        vec![0x01]
    );
    assert_eq!(
        encode_token(&JsonToken::String("x".to_string())).unwrap(),
        vec![0xa1, 0x78]
    );
    // a negative number round-trips through the real decoder
    let bytes = encode_token(&JsonToken::Number("-5".to_string())).unwrap();
    let mut slice = bytes.as_slice();
    let back: i64 = rmp::decode::read_int(&mut slice).unwrap();
    assert_eq!(back, -5);
    // a floating number is not encodable here
    assert!(encode_token(&JsonToken::Number("2.5".to_string())).is_none());
}

#[test]
fn encode_to_msgpack_keeps_the_path() {
    let path = JsonPath::new().append(Step::Key("a".into()));
    match encode_to_msgpack(&path, &JsonToken::Number("7".to_string())) {
        Event::Value(p, buf) => {
            assert_eq!(p.0, vec![Step::Key("a".into())]);
            assert_eq!(buf, vec![0x07]);
        },
        other => panic!("unexpected event {other:?}"),
    }
    match encode_to_msgpack(&path, &JsonToken::Number("2.5".to_string())) {
        Event::Error(p, _) => assert_eq!(p.0, vec![Step::Key("a".into())]),
        other => panic!("unexpected event {other:?}"),
    }
}

#[test]
fn plain_and_packer_walk_the_same_stream() {
    let mut tok = Tokenizer::from_bytes(b"[null,true]".to_vec());
    let mut tx: VecSender<JsonToken<String>> = VecSender::new();
    let plain = Plain::new();
    assert!(traverse(&plain, &mut tok, &mut tx, ErrorPolicy::Halt, u64::MAX).is_ok());
    assert_eq!(tx.events.len(), 3);
    match &tx.events[0] {
        Event::Value(p, JsonToken::Null) => assert_eq!(p.0, vec![Step::Index(0)]),
        other => panic!("unexpected event {other:?}"),
    }
    match &tx.events[1] {
        Event::Value(p, JsonToken::Boolean(true)) => assert_eq!(p.0, vec![Step::Index(1)]),
        other => panic!("unexpected event {other:?}"),
    }
    assert!(matches!(tx.events[2], Event::Finished));

    let mut tok = Tokenizer::from_bytes(b"[null,true]".to_vec());
    let mut btx: VecSender<Vec<u8>> = VecSender::new();
    let packer = MsgPacker::new();
    assert!(traverse(&packer, &mut tok, &mut btx, ErrorPolicy::Halt, u64::MAX).is_ok());
    assert_eq!(btx.events.len(), 3);
    match &btx.events[0] {
        Event::Value(_, buf) => assert_eq!(buf, &vec![0xc0]),
        other => panic!("unexpected event {other:?}"),
    }
    match &btx.events[1] {
        Event::Value(_, buf) => assert_eq!(buf, &vec![0xc3]),
        other => panic!("unexpected event {other:?}"),
    }
}

#[test]
fn valuer_converts_to_generic_values() {
    let mut tok = Tokenizer::from_bytes(b"{\"a\":1,\"b\":\"x\"}".to_vec());
    let mut tx: VecSender<serde_json::Value> = VecSender::new();
    let valuer = jch::valuer::Valuer::new();
    assert!(traverse(&valuer, &mut tok, &mut tx, ErrorPolicy::Halt, u64::MAX).is_ok());
    assert_eq!(tx.events.len(), 3);
    match &tx.events[0] {
        Event::Value(_, v) => assert_eq!(v, &serde_json::Value::Number(1.into())),
        other => panic!("unexpected event {other:?}"),
    }
    match &tx.events[1] {
        Event::Value(_, v) => assert_eq!(v, &serde_json::Value::String("x".to_string())),
        other => panic!("unexpected event {other:?}"),
    }
}
