use jch::handler::ErrorPolicy;
use jch::jsonpath::Step;
use jch::parser::Tokenizer;
use jch::schema::NumberType;
use jch::schema::SchemaCollector;
use jch::schema::SchemaType;
use jch::schema::schema;
use jch::sender::Event;
use jch::sender::Sender;
use jch::sendpath::SendPath;

#[test]
fn duplicate_key_with_two_numeric_shapes() {
    // the same path seen with an unsigned and a floating shape keeps two
    // leaves, each counting one value
    let mut tok = Tokenizer::from_bytes(b"{\"x\":1,\"x\":2.5}".to_vec());
    let collector = schema(&mut tok, ErrorPolicy::Halt);
    let lines = collector.render_lines();
    assert_eq!(lines.len(), 1);
    assert_eq!(
        lines[0],
        "x [Number(Unsigned(1)):1,Number(Float(2.5, 2.5)):1]".to_string()
    );
}

#[test]
fn empty_containers_have_no_rows() {
    let mut tok = Tokenizer::from_bytes(b"{\"a\":{},\"b\":[]}".to_vec());
    let collector = schema(&mut tok, ErrorPolicy::Halt);
    assert_eq!(collector.render_lines().len(), 0);
    assert_eq!(collector.render_errors().len(), 0);
}

#[test]
fn empty_input_yields_nothing_but_no_crash() {
    let mut tok = Tokenizer::from_bytes(b"".to_vec());
    let collector = schema(&mut tok, ErrorPolicy::Halt);
    assert_eq!(collector.render_lines().len(), 0);
}

#[test]
fn top_level_scalar() {
    let mut tok = Tokenizer::from_bytes(b"5".to_vec());
    let collector = schema(&mut tok, ErrorPolicy::Halt);
    let lines = collector.render_lines();
    assert_eq!(lines, vec![" Number(Unsigned(5)):1".to_string()]);
}

#[test]
fn largest_unsigned_stays_unsigned() {
    let mut tok = Tokenizer::from_bytes(b"[18446744073709551615]".to_vec());
    let collector = schema(&mut tok, ErrorPolicy::Halt);
    let lines = collector.render_lines();
    assert_eq!(
        lines,
        vec!["[] Number(Unsigned(18446744073709551615)):1".to_string()]
    );
}

#[test]
fn deeply_nested_paths() {
    let mut tok = Tokenizer::from_bytes(b"{\"a\":[[{\"b\":[true]}]]}".to_vec());
    let collector = schema(&mut tok, ErrorPolicy::Halt);
    let lines = collector.render_lines();
    assert_eq!(lines, vec!["a/[]/[]/b/[] Boolean:1".to_string()]);
}

#[test]
fn unknown_values_merge_to_the_least_raw() {
    let path = SendPath(vec![Step::Key("u".into())]);
    let mut collector = SchemaCollector::new();
    let first = Event::Value(path.clone(), SchemaType::Unknown("zeta".to_string()));
    let second = Event::Value(path, SchemaType::Unknown("alpha".to_string()));
    assert!(collector.send(first).is_ok());
    assert!(collector.send(second).is_ok());
    let lines = collector.render_lines();
    assert_eq!(lines, vec!["u Unknown(alpha):2".to_string()]);
}

#[test]
fn booleans_and_nulls_count_up() {
    let mut tok = Tokenizer::from_bytes(b"[true,false,null,true]".to_vec());
    let collector = schema(&mut tok, ErrorPolicy::Halt);
    let lines = collector.render_lines();
    assert_eq!(lines, vec!["[] [Boolean:3,Null:1]".to_string()]);
}

#[test]
fn string_length_widens_to_the_longest() {
    let mut tok = Tokenizer::from_bytes(b"[\"a\",\"abc\",\"ab\"]".to_vec());
    let collector = schema(&mut tok, ErrorPolicy::Halt);
    let lines = collector.render_lines();
    assert_eq!(lines, vec!["[] String(3):3".to_string()]);
}

#[test]
fn signed_widens_only_with_signed() {
    // a signed and an unsigned value at one path stay two leaves
    let mut tok = Tokenizer::from_bytes(b"[-1, 1]".to_vec());
    let collector = schema(&mut tok, ErrorPolicy::Halt);
    let lines = collector.render_lines();
    assert_eq!(
        lines,
        vec!["[] [Number(Signed(-1, -1)):1,Number(Unsigned(1)):1]".to_string()]
    );
}

#[test]
fn count_reflects_every_same_shape_value() {
    let path = SendPath(vec![Step::Key("n".into())]);
    let mut collector = SchemaCollector::new();
    for i in 0..100u64 {
        let ev = Event::Value(path.clone(), SchemaType::Number(NumberType::Unsigned(i)));
        assert!(collector.send(ev).is_ok());
    }
    let lines = collector.render_lines();
    assert_eq!(lines, vec!["n Number(Unsigned(99)):100".to_string()]);
}
