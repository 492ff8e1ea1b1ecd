use jch::handler::ErrorPolicy;
use jch::handler::traverse;
use jch::jsonpath::Step;
use jch::parser::JsonToken;
use jch::parser::Tokenizer;
use jch::parser::VecSource;
use jch::schema::EventConverter;
use jch::schema::NumberType;
use jch::schema::SchemaCollector;
use jch::schema::SchemaType;
use jch::schema::collect_type;
use jch::schema::schema;
use jch::sender::Event;
use jch::sender::Sender;
use jch::sender::VecSender;
use jch::sendpath::SendPath;

#[test]
fn schema_of_simple_document() {
    let mut tok = Tokenizer::from_bytes(b"{\"a\":1,\"b\":[1,2,3],\"c\":\"x\"}".to_vec());
    let collector = schema(&mut tok, ErrorPolicy::Halt);
    let lines = collector.render_lines();
    assert_eq!(lines.len(), 3);
    assert_eq!(lines[0], "a Number(Unsigned(1)):1".to_string());
    assert_eq!(lines[1], "b/[] Number(Unsigned(3)):3".to_string());
    assert_eq!(lines[2], "c String(1):1".to_string());
    assert_eq!(collector.render_errors().len(), 0);
}

#[test]
fn heterogeneous_array_keeps_two_leaves() {
    let mut tok = Tokenizer::from_bytes(b"[1, 2.5]".to_vec());
    let collector = schema(&mut tok, ErrorPolicy::Halt);
    let lines = collector.render_lines();
    assert_eq!(lines.len(), 1);
    assert_eq!(
        lines[0],
        "[] [Number(Unsigned(1)):1,Number(Float(2.5, 2.5)):1]".to_string()
    );
}

#[test]
fn signed_and_float_ranges_widen() {
    let mut tok = Tokenizer::from_bytes(b"[-3, -7, 0.5, -2.5]".to_vec());
    let collector = schema(&mut tok, ErrorPolicy::Halt);
    let lines = collector.render_lines();
    assert_eq!(lines.len(), 1);
    assert_eq!(
        lines[0],
        "[] [Number(Signed(-7, -3)):2,Number(Float(-2.5, 0.5)):2]".to_string()
    );
}

#[test]
fn malformed_input_halts_with_an_error() {
    let mut tok = Tokenizer::from_bytes(b"{\"x\":}".to_vec());
    let collector = schema(&mut tok, ErrorPolicy::Halt);
    let errors = collector.render_errors();
    assert_eq!(errors.len(), 1);
    let text = &errors[0];
    assert!(text.starts_with("error at 1:"), "unexpected error text: {text}");
    assert!(text.contains("at path 'x'"), "unexpected error text: {text}");
}

#[test]
fn malformed_input_may_continue() {
    let mut tok = Tokenizer::from_bytes(b"{\"x\":}".to_vec());
    let collector = schema(&mut tok, ErrorPolicy::Continue);
    let errors = collector.render_errors();
    assert!(errors.len() >= 1);
    assert!(errors[0].starts_with("error at 1:"));
}

#[test]
fn exactly_one_finished_event_and_it_is_last() {
    let mut tok = Tokenizer::from_bytes(b"{\"a\":[true,null],\"b\":\"z\"}".to_vec());
    let mut tx: VecSender<SchemaType> = VecSender::new();
    let conv = EventConverter::new();
    let res = traverse(&conv, &mut tok, &mut tx, ErrorPolicy::Halt, u64::MAX);
    assert!(res.is_ok());
    let finished: Vec<usize> = tx
        .events
        .iter()
        .enumerate()
        .filter(|(_, e)| matches!(e, Event::Finished))
        .map(|(i, _)| i)
        .collect();
    assert_eq!(finished.len(), 1);
    assert_eq!(finished[0], tx.events.len() - 1);
}

#[test]
fn malformed_input_still_finishes_exactly_once() {
    let mut tok = Tokenizer::from_bytes(b"{\"x\":}".to_vec());
    let mut tx: VecSender<SchemaType> = VecSender::new();
    let conv = EventConverter::new();
    let res = traverse(&conv, &mut tok, &mut tx, ErrorPolicy::Halt, u64::MAX);
    assert!(res.is_ok());
    let finished_count = tx
        .events
        .iter()
        .filter(|e| matches!(e, Event::Finished))
        .count();
    assert_eq!(finished_count, 1);
    assert!(matches!(tx.events.last().unwrap(), Event::Finished));
}

#[test]
fn aggregation_is_order_independent_at_run_time() {
    let a = Event::Value(
        SendPath(vec![Step::Key("x".into())]),
        SchemaType::Number(NumberType::Unsigned(1)),
    );
    let b = Event::Value(
        SendPath(vec![Step::Key("x".into())]),
        SchemaType::Number(NumberType::Unsigned(9)),
    );
    let c = Event::Value(
        SendPath(vec![Step::Key("y".into())]),
        SchemaType::String(4),
    );
    let mut one = SchemaCollector::new();
    assert!(one.send(a.clone()).is_ok());
    assert!(one.send(b.clone()).is_ok());
    assert!(one.send(c.clone()).is_ok());
    let mut two = SchemaCollector::new();
    assert!(two.send(c).is_ok());
    assert!(two.send(b).is_ok());
    assert!(two.send(a).is_ok());
    assert_eq!(one.render_lines(), two.render_lines());
}

#[test]
fn collect_type_classifies_numbers() {
    let t = collect_type(&JsonToken::Number("7".to_string()));
    assert_eq!(t, SchemaType::Number(NumberType::Unsigned(7)));
    let t = collect_type(&JsonToken::Number("-7".to_string()));
    assert_eq!(t, SchemaType::Number(NumberType::Signed(-7, -7)));
    let t = collect_type(&JsonToken::Number("18446744073709551616".to_string()));
    assert!(matches!(t, SchemaType::Number(NumberType::Float(_, _))));
    let t = collect_type(&JsonToken::String("NaN".to_string()));
    assert!(matches!(t, SchemaType::Number(NumberType::Float(_, _))));
    let t = collect_type(&JsonToken::String("hi".to_string()));
    assert_eq!(t, SchemaType::String(2));
    let t = collect_type(&JsonToken::Boolean(true));
    assert_eq!(t, SchemaType::Boolean);
    let t = collect_type(&JsonToken::Null);
    assert_eq!(t, SchemaType::Null);
}

#[test]
fn replayed_source_matches_tokenizer() {
    let tokens = vec![
        JsonToken::StartObject,
        JsonToken::ObjectKey("a".to_string()),
        JsonToken::Number("1".to_string()),
        JsonToken::EndObject,
    ];
    let mut src = VecSource::new(tokens);
    let collector = schema(&mut src, ErrorPolicy::Halt);
    let lines = collector.render_lines();
    assert_eq!(lines, vec!["a Number(Unsigned(1)):1".to_string()]);
}

#[test]
fn nan_values_never_win_the_range() {
    let mut tok = Tokenizer::from_bytes(b"[\"NaN\", 2.5, \"NaN\"]".to_vec());
    let collector = schema(&mut tok, ErrorPolicy::Halt);
    let lines = collector.render_lines();
    assert_eq!(lines.len(), 1);
    assert_eq!(lines[0], "[] Number(Float(2.5, 2.5)):3".to_string());
}

#[test]
fn nesting_beyond_the_limit_is_reported_not_crashed() {
    let mut tok = Tokenizer::from_bytes(b"[[[[1]]]]".to_vec());
    let mut tx: VecSender<SchemaType> = VecSender::new();
    let conv = EventConverter::new();
    let res = traverse(&conv, &mut tok, &mut tx, ErrorPolicy::Halt, 2);
    assert!(res.is_ok());
    let errors = tx
        .events
        .iter()
        .filter(|e| matches!(e, Event::Error(_, _)))
        .count();
    assert_eq!(errors, 1);
    assert!(matches!(tx.events.last().unwrap(), Event::Finished));

    // the same document walks fine under a looser limit
    let mut tok = Tokenizer::from_bytes(b"[[[[1]]]]".to_vec());
    let mut tx: VecSender<SchemaType> = VecSender::new();
    let res = traverse(&conv, &mut tok, &mut tx, ErrorPolicy::Halt, 64);
    assert!(res.is_ok());
    assert!(matches!(tx.events[0], Event::Value(_, _)));
}

#[test]
fn source_failure_is_fatal_whatever_the_policy() {
    // a source that fails mid-array: one error event, then the stream is
    // closed with Finished, under either policy
    for policy in [ErrorPolicy::Halt, ErrorPolicy::Continue] {
        let tokens = vec![
            JsonToken::StartArray,
            JsonToken::Number("1".to_string()),
            JsonToken::Failed("device gone".to_string()),
            JsonToken::Number("2".to_string()),
        ];
        let mut src = VecSource::new(tokens);
        let mut tx: VecSender<SchemaType> = VecSender::new();
        let conv = EventConverter::new();
        assert!(traverse(&conv, &mut src, &mut tx, policy, u64::MAX).is_ok());
        assert_eq!(tx.events.len(), 3);
        assert!(matches!(tx.events[0], Event::Value(_, _)));
        match &tx.events[1] {
            Event::Error(_, m) => assert_eq!(m, "device gone"),
            other => panic!("unexpected event {other:?}"),
        }
        assert!(matches!(tx.events[2], Event::Finished));
        // the token after the failure was never consumed
        assert_eq!(src.pos, 3);
    }
}
