use data_plumber::output::{AssertState, OutputAsserts};
use data_plumber::state::{
    Config, Document, MemoryReader, MemoryWriter, Process, Record, State, Table, Variant,
};
use serde_json::Value;

fn document(value: &Value) -> Document {
    match value {
        Value::Null => Document::Null,
        Value::Bool(b) => Document::Bool(*b),
        Value::Number(n) => match n.as_i128() {
            Some(i) => Document::Int(i),
            None => Document::Float(n.to_string()),
        },
        Value::String(s) => Document::String(s.clone()),
        Value::Array(items) => Document::Array(items.iter().map(document).collect()),
        Value::Object(members) => {
            Document::Object(members.iter().map(|(k, v)| (k.clone(), document(v))).collect())
        }
    }
}

fn parse(text: &str) -> Document {
    let value: Value = serde_json::from_str(text).unwrap();
    document(&value)
}

fn config() -> Config {
    Config { state_file: "state.json".to_string(), template_file: "template.json".to_string() }
}

fn state_for(pipeline: &Document) -> State {
    State::make(&config(), pipeline, Box::new(MemoryWriter::new()), Box::new(MemoryReader::new()))
        .unwrap()
}

fn named(name: &str) -> Record {
    let mut record = Record::new();
    record.insert("name".to_string(), Variant::String(name.to_string()));
    record
}

const EMPTY_PIPELINE: &str = r#"{
    "test": {
        "driver":"output::asserts",
        "asserts":[
            {
                "table":"table1",
                "state":{
                    "empty":""
                }
            }
        ]
    }
}"#;

const NOT_EMPTY_AND_LESS_THAN: &str = r#"{
    "test": {
        "driver":"output::asserts",
        "asserts":[
            {
                "table":"table1",
                "state":{
                    "and":[
                        {"not":{"empty":""}},
                        {"rows-count-less-than": 2}
                    ]
                }
            }
        ]
    }
}"#;

fn results_after(pipeline_text: &str, records: Vec<Record>) -> Vec<String> {
    let pipeline = parse(pipeline_text);
    let mut state = state_for(&pipeline);
    state.tables.push(Table { name: "table1".to_string(), records });
    let process =
        OutputAsserts::from_config("test".to_string(), pipeline.get("test").unwrap()).unwrap();
    process.run(&mut state).unwrap();
    state.results_writer.test_peek("test_results.txt").unwrap().clone()
}

#[test]
fn test_deserialize_simple_assert_state() {
    let json_string = r#"
{
  "state":{
    "empty":""
  }
}
"#;

    let parsed = parse(json_string);
    let state = AssertState::parse(parsed.get("state").unwrap()).unwrap();
    assert_eq!(state, AssertState::Empty);
}

#[test]
fn test_deserialize_nested_assert_state() {
    let json_string = r#"
{
  "state":{
    "not": {
      "empty":""
    }
  }
}
"#;

    let parsed = parse(json_string);
    let state = AssertState::parse(parsed.get("state").unwrap()).unwrap();

    match state {
        AssertState::Not(x) => assert_eq!(*x, AssertState::Empty),
        _ => panic!("wrong state"),
    }
}

#[test]
fn test_deserialize_and_state() {
    let json_string = r#"
{
    "state":{
        "and": [
        {
            "empty":""
        },
        {
            "has-field":"name"
        }
        ]
    }
}"#;

    let parsed = parse(json_string);
    let state = AssertState::parse(parsed.get("state").unwrap()).unwrap();

    match state {
        AssertState::And(x) => {
            assert_eq!(x.len(), 2);
            assert_eq!(x[0], AssertState::Empty);
            match &x[1] {
                AssertState::HasField(field) => assert_eq!(field, "name"),
                _ => panic!("wrong state"),
            }
        }
        _ => panic!("wrong state"),
    }
}

#[test]
fn test_deserialize_or_state() {
    let json_string = r#"
{
    "state":{
        "or": [
        {
            "empty":""
        },
        {
            "has-field":"name"
        }
        ]
    }
}"#;

    let parsed = parse(json_string);
    let state = AssertState::parse(parsed.get("state").unwrap()).unwrap();

    match state {
        AssertState::Or(x) => {
            assert_eq!(x.len(), 2);
            assert_eq!(x[0], AssertState::Empty);
            match &x[1] {
                AssertState::HasField(field) => assert_eq!(field, "name"),
                _ => panic!("wrong state"),
            }
        }
        _ => panic!("wrong state"),
    }
}

#[test]
fn test_deserialize_nested_or_state() {
    let json_string = r#"
{
    "state":{
        "or": [
        {
            "empty":""
        },
        {
            "or": [
                {
                    "has-field":"name"
                },
                {
                    "rows-count-equal": 10
                }
            ]
        }
        ]
    }
}"#;

    let parsed = parse(json_string);
    let state = AssertState::parse(parsed.get("state").unwrap()).unwrap();

    match state {
        AssertState::Or(x) => {
            assert_eq!(x.len(), 2);
            assert_eq!(x[0], AssertState::Empty);
            match &x[1] {
                AssertState::Or(y) => {
                    assert_eq!(y.len(), 2);
                    match &y[0] {
                        AssertState::HasField(field) => assert_eq!(field, "name"),
                        _ => panic!("wrong state"),
                    }
                    match &y[1] {
                        AssertState::RowsCountEqual(count) => assert_eq!(*count, 10),
                        _ => panic!("wrong state"),
                    }
                }
                _ => panic!("wrong state"),
            }
        }
        _ => panic!("wrong state"),
    }
}

#[test]
fn test_assert_empty() {
    let results = results_after(EMPTY_PIPELINE, vec![]);
    assert_eq!(results.len(), 0);
}

#[test]
fn test_assert_empty_fail() {
    let results = results_after(EMPTY_PIPELINE, vec![named("test")]);
    assert_eq!(results.len(), 1);
}

#[test]
fn test_assert_not_empty_and_less_than() {
    let results = results_after(NOT_EMPTY_AND_LESS_THAN, vec![named("test")]);
    assert_eq!(results.len(), 0);
}

#[test]
fn test_assert_not_empty_and_less_than_fail1() {
    let results = results_after(NOT_EMPTY_AND_LESS_THAN, vec![]);
    assert_eq!(results.len(), 1);
}

#[test]
fn test_assert_not_empty_and_less_than_fail2() {
    let results = results_after(NOT_EMPTY_AND_LESS_THAN, vec![named("test"), named("test2")]);
    assert_eq!(results.len(), 1);
}

#[test]
fn empty_assertion_on_empty_table_writes_no_rows() {
    let pipeline = parse(
        r#"{"n1": {"driver":"output::asserts","asserts":[{"table":"t","state":{"empty":""}}]}}"#,
    );
    let mut state = state_for(&pipeline);
    state.tables.push(Table { name: "t".to_string(), records: vec![] });
    let node = OutputAsserts::from_config("n1".to_string(), pipeline.get("n1").unwrap()).unwrap();
    node.run(&mut state).unwrap();
    let rows = state.results_writer.test_peek("n1_results.txt").unwrap();
    assert_eq!(rows.len(), 0);
}

#[test]
fn empty_assertion_on_filled_table_writes_one_row() {
    let pipeline = parse(
        r#"{"n1": {"driver":"output::asserts","asserts":[{"table":"t","state":{"empty":""}}]}}"#,
    );
    let mut state = state_for(&pipeline);
    state.tables.push(Table { name: "t".to_string(), records: vec![named("x")] });
    let node = OutputAsserts::from_config("n1".to_string(), pipeline.get("n1").unwrap()).unwrap();
    node.run(&mut state).unwrap();
    let rows = state.results_writer.test_peek("n1_results.txt").unwrap();
    assert_eq!(rows.len(), 1);
    assert!(rows[0].starts_with("table t failed assert:"));
    assert_eq!(rows[0], "table t failed assert: [\"table is not empty\"]");
}

#[test]
fn rows_count_less_than_fails_on_as_many_rows() {
    let table = Table { name: "t".to_string(), records: vec![named("a"), named("b")] };
    let (passed, errors) = AssertState::RowsCountLessThan(2).check(&table);
    assert!(!passed);
    assert_eq!(errors, vec!["table has more rows than expected".to_string()]);
    let (passed, errors) = AssertState::RowsCountLessThan(3).check(&table);
    assert!(passed);
    assert!(errors.is_empty());
}

#[test]
fn each_kind_of_assertion_reports_its_error() {
    let table = Table { name: "t".to_string(), records: vec![named("a")] };
    assert_eq!(AssertState::Empty.check(&table), (false, vec!["table is not empty".to_string()]));
    assert_eq!(
        AssertState::RowsCountEqual(2).check(&table),
        (false, vec!["table has different number of rows than expected".to_string()])
    );
    assert_eq!(AssertState::RowsCountEqual(1).check(&table), (true, vec![]));
    assert_eq!(
        AssertState::HasField("age".to_string()).check(&table),
        (false, vec!["table does not have field age".to_string()])
    );
    assert_eq!(AssertState::HasField("name".to_string()).check(&table), (true, vec![]));
}

#[test]
fn has_field_asks_every_record() {
    let mut other = Record::new();
    other.insert("age".to_string(), Variant::Int(3));
    let table = Table { name: "t".to_string(), records: vec![named("a"), other] };
    let (passed, _) = AssertState::HasField("name".to_string()).check(&table);
    assert!(!passed);
    let none = Table { name: "t".to_string(), records: vec![] };
    let (passed, _) = AssertState::HasField("name".to_string()).check(&none);
    assert!(passed);
}

#[test]
fn a_pass_hides_the_errors_found_inside() {
    let table = Table { name: "t".to_string(), records: vec![named("a")] };
    let not_empty = AssertState::Not(Box::new(AssertState::Empty));
    assert_eq!(not_empty.check(&table), (true, vec![]));
    let either =
        AssertState::Or(vec![AssertState::Empty, AssertState::HasField("name".to_string())]);
    assert_eq!(either.check(&table), (true, vec![]));
}

#[test]
fn a_failing_not_reports_the_errors_of_its_inner_assertion() {
    let table = Table { name: "t".to_string(), records: vec![] };
    let not_empty = AssertState::Not(Box::new(AssertState::Empty));
    assert_eq!(not_empty.check(&table), (false, vec![]));
}

#[test]
fn and_and_or_report_the_errors_of_all_inner_assertions_in_order() {
    let table = Table { name: "t".to_string(), records: vec![named("a")] };
    let first = AssertState::Empty;
    let second = AssertState::RowsCountEqual(2);
    let expected: Vec<String> =
        first.check(&table).1.into_iter().chain(second.check(&table).1).collect();
    assert_eq!(expected.len(), 2);
    let both = AssertState::And(vec![AssertState::Empty, AssertState::RowsCountEqual(2)]);
    assert_eq!(both.check(&table), (false, expected.clone()));
    let either = AssertState::Or(vec![AssertState::Empty, AssertState::RowsCountEqual(2)]);
    assert_eq!(either.check(&table), (false, expected));
    let mixed = AssertState::And(vec![AssertState::RowsCountEqual(1), AssertState::Empty]);
    assert_eq!(mixed.check(&table), (false, vec!["table is not empty".to_string()]));
}

#[test]
fn malformed_assertions_are_refused() {
    for text in [
        r#"{"unknown": 1}"#,
        r#"{}"#,
        r#"{"empty": "", "not": {"empty": ""}}"#,
        r#"{"has-field": 3}"#,
        r#"{"rows-count-equal": -1}"#,
        r#"{"rows-count-less-than": "2"}"#,
        r#"{"not": {"nothing": 1}}"#,
        r#"{"and": {"empty": ""}}"#,
        r#"{"or": [{"empty": ""}, {"bad": 1}]}"#,
        r#"["empty"]"#,
    ] {
        assert_eq!(
            AssertState::parse(&parse(text)),
            Err(data_plumber::PipelineError::MalformedAssert),
            "{}",
            text
        );
    }
}

#[test]
fn parse_reads_counts_and_names() {
    assert_eq!(
        AssertState::parse(&parse(r#"{"rows-count-less-than": 7}"#)),
        Ok(AssertState::RowsCountLessThan(7))
    );
    assert_eq!(
        AssertState::parse(&parse(r#"{"rows-count-equal": 0}"#)),
        Ok(AssertState::RowsCountEqual(0))
    );
    assert_eq!(
        AssertState::parse(&parse(r#"{"has-field": "id"}"#)),
        Ok(AssertState::HasField("id".to_string()))
    );
}

#[test]
fn asserts_node_needs_its_table_and_its_fields() {
    let pipeline = parse(EMPTY_PIPELINE);
    let mut state = state_for(&pipeline);
    let node =
        OutputAsserts::from_config("test".to_string(), pipeline.get("test").unwrap()).unwrap();
    assert_eq!(
        node.run(&mut state).err(),
        Some(data_plumber::PipelineError::UnknownTable("table1".to_string()))
    );
    assert!(state.results_writer.test_peek("test_results.txt").is_none());
    let missing = |text: &str| {
        OutputAsserts::from_config("n".to_string(), &parse(text)).err().unwrap()
    };
    assert_eq!(
        missing(r#"{"driver": "output::asserts"}"#),
        data_plumber::PipelineError::MissingField("asserts".to_string())
    );
    assert_eq!(
        missing(r#"{"asserts": [{"state": {"empty": ""}}]}"#),
        data_plumber::PipelineError::MissingField("table".to_string())
    );
    assert_eq!(
        missing(r#"{"asserts": [{"table": "t"}]}"#),
        data_plumber::PipelineError::MissingField("state".to_string())
    );
    assert_eq!(
        missing(r#"{"asserts": [{"table": "t", "state": {"what": 1}}]}"#),
        data_plumber::PipelineError::MalformedAssert
    );
}

#[test]
fn a_failure_line_names_the_table_and_shows_the_errors() {
    assert_eq!(
        data_plumber::output::asserts::failure_line("t", "[\"x\"]"),
        "table t failed assert: [\"x\"]"
    );
    assert_eq!(data_plumber::output::asserts::failure_line("", ""), "table  failed assert: ");
}

#[test]
fn the_sink_holds_one_row_for_each_failing_assertion_in_order() {
    let pipeline = parse(
        r#"{"n": {"driver":"output::asserts","asserts":[
            {"table":"a","state":{"empty":""}},
            {"table":"b","state":{"empty":""}},
            {"table":"a","state":{"rows-count-equal":2}},
            {"table":"b","state":{"has-field":"name"}}]}}"#,
    );
    let mut state = state_for(&pipeline);
    state.tables.push(Table { name: "a".to_string(), records: vec![named("x")] });
    state.tables.push(Table { name: "b".to_string(), records: vec![] });
    let node = OutputAsserts::from_config("n".to_string(), pipeline.get("n").unwrap()).unwrap();
    node.run(&mut state).unwrap();
    assert_eq!(
        state.results_writer.test_peek("n_results.txt"),
        Some(&vec![
            "table a failed assert: [\"table is not empty\"]".to_string(),
            "table a failed assert: [\"table has different number of rows than expected\"]"
                .to_string(),
        ])
    );
    assert_eq!(state.tables.len(), 2);
    assert_eq!(state.plan.len(), 1);
}
