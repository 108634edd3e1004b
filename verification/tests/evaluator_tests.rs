use indexmap::IndexMap;
use mydsl::evaluator::{can_evaluate, count_serials, evaluate_expression, EvaluatorState};
use mydsl::parser::{Expression, FieldModifier, FieldWithModifiers};
use serde_json::Value;

fn record_of(line: &str) -> IndexMap<String, Value> {
    serde_json::from_str(line).unwrap()
}

fn field(segments: &[&str]) -> Expression {
    Expression::FieldPath(segments.iter().map(|s| s.to_string()).collect())
}

fn field_with(segments: &[&str], modifiers: Vec<FieldModifier>) -> Expression {
    Expression::FieldWithModifiers(FieldWithModifiers {
        path: segments.iter().map(|s| s.to_string()).collect(),
        modifiers,
    })
}

fn literal(text: &str) -> Expression {
    Expression::Literal(text.to_string())
}

fn prefix(text: &str) -> FieldModifier {
    FieldModifier::Prefix(text.to_string())
}

fn suffix(text: &str) -> FieldModifier {
    FieldModifier::Suffix(text.to_string())
}

fn default(text: &str) -> FieldModifier {
    FieldModifier::Default(text.to_string())
}

fn eval_text(expr: &Expression, line: &str) -> String {
    let record = record_of(line);
    let mut state = EvaluatorState::new();
    assert!(can_evaluate(expr, &state));
    match evaluate_expression(expr, &record, &mut state) {
        Ok(Value::String(text)) => text,
        other => panic!("no string: {:?}", other),
    }
}

#[test]
fn state_starts_at_one() {
    assert_eq!(EvaluatorState::new().serial_counter, 1);
}

#[test]
fn literal_is_unescaped() {
    assert_eq!(eval_text(&literal("a\\tb"), "{}"), "a\tb");
    assert_eq!(eval_text(&literal(""), "{}"), "");
    let record = record_of("{}");
    let mut state = EvaluatorState::new();
    assert_eq!(
        evaluate_expression(&literal("x\\ny"), &record, &mut state),
        Ok(Value::String("x\ny".to_string()))
    );
    assert_eq!(state.serial_counter, 1);
}

#[test]
fn field_path_reads_a_string() {
    assert_eq!(eval_text(&field(&["q"]), "{\"q\":\"2+2\",\"lvl\":\"1\"}"), "2+2");
    assert_eq!(eval_text(&field(&["lvl"]), "{\"q\":\"2+2\",\"lvl\":\"1\"}"), "1");
}

#[test]
fn field_value_is_not_unescaped() {
    assert_eq!(eval_text(&field(&["q"]), "{\"q\":\"a\\\\nb\"}"), "a\\nb");
}

#[test]
fn field_path_walks_nested_objects() {
    let line = "{\"a\":{\"b\":{\"c\":\"deep\"},\"s\":\"flat\"}}";
    assert_eq!(eval_text(&field(&["a", "b", "c"]), line), "deep");
    assert_eq!(eval_text(&field(&["a", "s"]), line), "flat");
}

#[test]
fn missing_key_gives_the_empty_text() {
    let line = "{\"a\":{\"b\":\"v\"}}";
    assert_eq!(eval_text(&field(&["x"]), line), "");
    assert_eq!(eval_text(&field(&["a", "x"]), line), "");
    assert_eq!(eval_text(&field(&["x", "b"]), line), "");
}

#[test]
fn step_through_a_value_that_is_no_object_gives_the_empty_text() {
    let line = "{\"s\":\"text\",\"n\":5,\"l\":[{\"k\":1}],\"z\":null}";
    assert_eq!(eval_text(&field(&["s", "k"]), line), "");
    assert_eq!(eval_text(&field(&["n", "k"]), line), "");
    assert_eq!(eval_text(&field(&["l", "k"]), line), "");
    assert_eq!(eval_text(&field(&["l", "0"]), line), "");
    assert_eq!(eval_text(&field(&["z", "k"]), line), "");
}

#[test]
fn other_kinds_of_value_are_written_as_json() {
    let line = "{\"n\":42,\"f\":1.5,\"neg\":-3,\"t\":true,\"z\":null,\"l\":[1,\"two\",null],\"o\":{\"k\":\"v\",\"m\":[2]}}";
    assert_eq!(eval_text(&field(&["n"]), line), "42");
    assert_eq!(eval_text(&field(&["f"]), line), "1.5");
    assert_eq!(eval_text(&field(&["neg"]), line), "-3");
    assert_eq!(eval_text(&field(&["t"]), line), "true");
    assert_eq!(eval_text(&field(&["z"]), line), "null");
    assert_eq!(eval_text(&field(&["l"]), line), "[1,\"two\",null]");
    assert_eq!(eval_text(&field(&["o"]), line), "{\"k\":\"v\",\"m\":[2]}");
    assert_eq!(eval_text(&field(&["o", "m"]), line), "[2]");
}

#[test]
fn default_fills_a_missing_or_empty_field() {
    let expr = field_with(&["a", "b"], vec![default("x")]);
    assert_eq!(eval_text(&expr, "{\"other\":\"1\"}"), "x");
    assert_eq!(eval_text(&expr, "{\"a\":{\"b\":\"\"}}"), "x");
    assert_eq!(eval_text(&expr, "{\"a\":{\"c\":\"1\"}}"), "x");
    assert_eq!(eval_text(&expr, "{\"a\":\"no object\"}"), "x");
}

#[test]
fn default_never_overrides_a_value() {
    let expr = field_with(&["a", "b"], vec![default("x")]);
    assert_eq!(eval_text(&expr, "{\"a\":{\"b\":\"v\"}}"), "v");
    assert_eq!(eval_text(&expr, "{\"a\":{\"b\":0}}"), "0");
    assert_eq!(eval_text(&expr, "{\"a\":{\"b\":null}}"), "null");
}

#[test]
fn default_text_is_unescaped() {
    let expr = field_with(&["a"], vec![default("x\\ty")]);
    assert_eq!(eval_text(&expr, "{}"), "x\ty");
}

#[test]
fn first_default_that_is_not_empty_wins() {
    let expr = field_with(&["a"], vec![default("first"), default("second")]);
    assert_eq!(eval_text(&expr, "{}"), "first");
    let expr = field_with(&["a"], vec![default(""), default("second")]);
    assert_eq!(eval_text(&expr, "{}"), "second");
    let expr = field_with(&["a"], vec![default("")]);
    assert_eq!(eval_text(&expr, "{}"), "");
}

#[test]
fn prefix_and_suffix_never_apply_to_an_empty_field() {
    let expr = field_with(&["f"], vec![prefix("P"), suffix("S")]);
    assert_eq!(eval_text(&expr, "{\"f\":\"\"}"), "");
    assert_eq!(eval_text(&expr, "{}"), "");
    let expr = field_with(&["f"], vec![prefix("P"), default(""), suffix("S")]);
    assert_eq!(eval_text(&expr, "{}"), "");
}

#[test]
fn prefix_and_suffix_wrap_a_value() {
    let expr = field_with(&["f"], vec![prefix("P"), suffix("S")]);
    assert_eq!(eval_text(&expr, "{\"f\":\"v\"}"), "PvS");
    let expr = field_with(&["f"], vec![suffix("S"), prefix("P")]);
    assert_eq!(eval_text(&expr, "{\"f\":\"v\"}"), "PvS");
}

#[test]
fn modifiers_apply_in_the_order_written() {
    let expr = field_with(&["f"], vec![prefix("1"), prefix("2"), suffix("a"), suffix("b")]);
    assert_eq!(eval_text(&expr, "{\"f\":\"v\"}"), "21vab");
    let expr = field_with(&["f"], vec![suffix("a"), prefix("1"), suffix("b"), prefix("2")]);
    assert_eq!(eval_text(&expr, "{\"f\":\"v\"}"), "21vab");
}

#[test]
fn affix_texts_are_unescaped() {
    let expr = field_with(&["f"], vec![prefix("\\\""), suffix("\\n")]);
    assert_eq!(eval_text(&expr, "{\"f\":\"v\"}"), "\"v\n");
}

#[test]
fn default_applies_before_prefix_and_suffix_wherever_it_stands() {
    let expr = field_with(&["f"], vec![suffix("_x"), default("none")]);
    assert_eq!(eval_text(&expr, "{}"), "none_x");
    let expr = field_with(&["f"], vec![prefix("<"), default("d"), suffix(">")]);
    assert_eq!(eval_text(&expr, "{\"f\":\"\"}"), "<d>");
    assert_eq!(eval_text(&expr, "{\"f\":\"v\"}"), "<v>");
}

#[test]
fn field_with_no_modifiers_is_the_field() {
    let expr = field_with(&["f"], vec![]);
    assert_eq!(eval_text(&expr, "{\"f\":\"v\"}"), "v");
    assert_eq!(eval_text(&expr, "{}"), "");
    assert_eq!(eval_text(&expr, "{\"f\":7}"), "7");
}

#[test]
fn concat_joins_without_separator() {
    let expr = Expression::Concat(vec![field(&["a"]), literal("-"), field(&["b"])]);
    assert_eq!(eval_text(&expr, "{\"a\":\"x\",\"b\":\"y\"}"), "x-y");
    assert_eq!(eval_text(&expr, "{\"b\":\"y\"}"), "-y");
    assert_eq!(eval_text(&Expression::Concat(vec![]), "{}"), "");
}

#[test]
fn concat_may_be_nested() {
    let inner = Expression::Concat(vec![literal("b"), Expression::Serial]);
    let expr = Expression::Concat(vec![literal("a"), inner, Expression::Serial]);
    assert_eq!(eval_text(&expr, "{}"), "ab12");
}

#[test]
fn raw_record_inside_a_concat_counts_as_empty() {
    let expr = Expression::Concat(vec![literal("a"), Expression::RawRecord, literal("b")]);
    assert_eq!(eval_text(&expr, "{\"k\":\"v\"}"), "ab");
}

#[test]
fn raw_record_is_the_record_as_an_object() {
    let record = record_of("{\"b\":1,\"a\":{\"x\":[true]}}");
    let mut state = EvaluatorState::new();
    let value = evaluate_expression(&Expression::RawRecord, &record, &mut state).unwrap();
    assert!(value.is_object());
    assert_eq!(value.as_str(), None);
    let object = value.as_object().unwrap();
    assert_eq!(object.len(), 2);
    assert_eq!(value.get("b"), record.get("b"));
    assert_eq!(value.get("a"), record.get("a"));
    assert_eq!(value.get("c"), None);
    assert_eq!(state.serial_counter, 1);
}

#[test]
fn serial_gives_the_counter_and_moves_it_on() {
    let record = record_of("{}");
    let mut state = EvaluatorState::new();
    for expected in 1..=12usize {
        assert_eq!(
            evaluate_expression(&Expression::Serial, &record, &mut state),
            Ok(Value::String(expected.to_string()))
        );
        assert_eq!(state.serial_counter, expected + 1);
    }
}

#[test]
fn serials_in_one_concat_are_consecutive() {
    let expr = Expression::Concat(vec![
        Expression::Serial,
        literal(","),
        Expression::Serial,
        literal(","),
        Expression::Serial,
    ]);
    let record = record_of("{}");
    let mut state = EvaluatorState::new();
    assert_eq!(
        evaluate_expression(&expr, &record, &mut state),
        Ok(Value::String("1,2,3".to_string()))
    );
    assert_eq!(state.serial_counter, 4);
    assert_eq!(
        evaluate_expression(&expr, &record, &mut state),
        Ok(Value::String("4,5,6".to_string()))
    );
    assert_eq!(state.serial_counter, 7);
}

#[test]
fn serial_runs_past_nine() {
    let record = record_of("{}");
    let mut state = EvaluatorState { serial_counter: 9 };
    let expr = Expression::Concat(vec![Expression::Serial, literal(" "), Expression::Serial]);
    assert_eq!(
        evaluate_expression(&expr, &record, &mut state),
        Ok(Value::String("9 10".to_string()))
    );
}

#[test]
fn expression_without_serial_ignores_the_state() {
    let expr = Expression::Concat(vec![
        literal("a"),
        Expression::Concat(vec![literal("b"), literal("c")]),
        field_with(&["f"], vec![default("d")]),
    ]);
    let record = record_of("{}");
    let mut fresh = EvaluatorState::new();
    let mut used = EvaluatorState { serial_counter: 500 };
    let first = evaluate_expression(&expr, &record, &mut fresh);
    let second = evaluate_expression(&expr, &record, &mut used);
    assert_eq!(first, Ok(Value::String("abcd".to_string())));
    assert_eq!(first, second);
    assert_eq!(fresh.serial_counter, 1);
    assert_eq!(used.serial_counter, 500);
}

#[test]
fn literal_expressions_ignore_the_record() {
    let expr = Expression::Concat(vec![literal("x"), literal("y")]);
    assert_eq!(eval_text(&expr, "{}"), "xy");
    assert_eq!(eval_text(&expr, "{\"x\":\"other\"}"), "xy");
}

#[test]
fn count_serials_counts_every_serial() {
    assert_eq!(count_serials(&Expression::Serial), Some(1));
    assert_eq!(count_serials(&literal("serial()")), Some(0));
    assert_eq!(count_serials(&Expression::RawRecord), Some(0));
    let expr = Expression::Concat(vec![
        Expression::Serial,
        Expression::Concat(vec![Expression::Serial, field(&["serial"])]),
        Expression::Serial,
    ]);
    assert_eq!(count_serials(&expr), Some(3));
}

#[test]
fn can_evaluate_wants_paths_and_room() {
    let state = EvaluatorState::new();
    assert!(can_evaluate(&Expression::Serial, &state));
    assert!(!can_evaluate(&Expression::FieldPath(vec![]), &state));
    let full = EvaluatorState { serial_counter: usize::MAX };
    assert!(can_evaluate(&literal("x"), &full));
    assert!(!can_evaluate(&Expression::Serial, &full));
    let nearly = EvaluatorState { serial_counter: usize::MAX - 1 };
    assert!(can_evaluate(&Expression::Serial, &nearly));
    assert!(!can_evaluate(
        &Expression::Concat(vec![Expression::Serial, Expression::Serial]),
        &nearly
    ));
}

#[test]
fn repeated_key_keeps_the_value_read_last() {
    // the map keeps one entry for the key, with the value read last
    assert_eq!(eval_text(&field(&["k"]), "{\"k\":\"one\",\"k\":\"two\"}"), "two");
}
