use data_plumber::state::{
    register_nodes, run_next, Action, Config, Document, Factory, MemoryReader, MemoryWriter, Node,
    Record, State, Step, Table, Variant,
};
use data_plumber::PipelineError;
use serde_json::{Number, Value};

fn document(value: &Value) -> Document {
    match value {
        Value::Null => Document::Null,
        Value::Bool(b) => Document::Bool(*b),
        Value::Number(n) => match n.as_i128() {
            Some(i) => Document::Int(i),
            None => Document::Float(n.to_string()),
        },
        Value::String(s) => Document::String(s.clone()),
        Value::Array(items) => Document::Array(items.iter().map(document).collect()),
        Value::Object(members) => {
            Document::Object(members.iter().map(|(k, v)| (k.clone(), document(v))).collect())
        }
    }
}

fn value(document: &Document) -> Value {
    match document {
        Document::Null => Value::Null,
        Document::Bool(b) => Value::Bool(*b),
        Document::Int(i) => Value::Number(Number::from_i128(*i).unwrap()),
        Document::Float(text) => {
            Value::Number(Number::from_f64(text.parse::<f64>().unwrap()).unwrap())
        }
        Document::String(s) => Value::String(s.clone()),
        Document::Array(items) => Value::Array(items.iter().map(value).collect()),
        Document::Object(members) => {
            Value::Object(members.iter().map(|(k, v)| (k.clone(), value(v))).collect())
        }
    }
}

fn parse(text: &str) -> Document {
    let value: Value = serde_json::from_str(text).unwrap();
    document(&value)
}

const PIPELINE: &str = r#"{
    "a_read": {"driver": "input::json", "path": "people.json"},
    "b_check": {"driver": "output::asserts",
                "asserts": [{"table": "a_read", "state": {"rows-count-equal": 3}}]},
    "c_template_only": {"path": "nowhere"},
    "d_write": {"driver": "output::sql-inserts", "input": "a_read", "path": "out.sql",
                "table-name": "people"}
}"#;

const PEOPLE: &str = r#"[{"id": 2, "name": "Bob"}, {"id": 1, "name": "Al"}]"#;

fn fresh(pipeline: &Document) -> State {
    let config = Config::from(pipeline);
    State::make(&config, pipeline, Box::new(MemoryWriter::new()), Box::new(MemoryReader::new()))
        .unwrap()
}

fn factory() -> Factory {
    let mut factory = Factory::new(None).unwrap();
    register_nodes(&mut factory);
    factory
}

fn step(state: &mut State, factory: &Factory, pipeline: &Document) -> bool {
    let done = run_next(state, factory, pipeline).unwrap();
    match done {
        Step::Finished => return false,
        Step::Skipped => {}
        Step::Ran { action: Action::Done, .. } => {}
        Step::Ran { node: Node::InputJson(node), action: Action::ReadDocument { path } } => {
            assert_eq!(path, "people.json");
            assert_eq!(node.node_name, state.plan[0].0);
            node.load(&parse(PEOPLE), state).unwrap();
        }
        other => panic!("{:?}", other),
    }
    state.finish_step();
    true
}

fn tables_text(state: &State) -> String {
    value(&state.to_document()).get("tables").unwrap().to_string()
}

#[test]
fn a_run_takes_the_plan_from_the_front() {
    let pipeline = parse(PIPELINE);
    let factory = factory();
    let mut state = fresh(&pipeline);
    let names: Vec<String> = state.plan.iter().map(|entry| entry.0.clone()).collect();
    assert_eq!(names, vec!["a_read", "b_check", "c_template_only", "d_write"]);
    let mut steps = 0;
    while step(&mut state, &factory, &pipeline) {
        steps += 1;
        assert_eq!(state.plan.len(), 4 - steps);
    }
    assert_eq!(steps, 4);
    assert!(state.plan.is_empty());
    assert_eq!(state.tables.len(), 1);
    assert_eq!(state.tables[0].name, "a_read");
    assert_eq!(
        state.results_writer.test_peek("b_check_results.txt"),
        Some(&vec![
            "table a_read failed assert: [\"table has different number of rows than expected\"]"
                .to_string()
        ])
    );
    assert_eq!(
        state.results_writer.test_peek("out.sql"),
        Some(&vec![
            "insert into people (`id`,`name`) values (2,\"Bob\");".to_string(),
            "insert into people (`id`,`name`) values (1,\"Al\");".to_string(),
        ])
    );
    assert!(matches!(run_next(&mut state, &factory, &pipeline), Ok(Step::Finished)));
}

#[test]
fn a_run_that_is_stopped_goes_on_from_its_checkpoint() {
    let pipeline = parse(PIPELINE);
    let factory = factory();
    let mut whole = fresh(&pipeline);
    while step(&mut whole, &factory, &pipeline) {}
    for stop_after in 0..=4 {
        let mut first = fresh(&pipeline);
        for _ in 0..stop_after {
            assert!(step(&mut first, &factory, &pipeline));
        }
        let checkpoint = serde_json::to_string_pretty(&value(&first.to_document())).unwrap();
        let read: Value = serde_json::from_str(&checkpoint).unwrap();
        let mut second = State::from_document(
            &document(&read),
            Box::new(MemoryWriter::new()),
            Box::new(MemoryReader::new()),
        )
        .unwrap();
        assert_eq!(second.plan.len(), 4 - stop_after);
        assert_eq!(tables_text(&second), tables_text(&first));
        while step(&mut second, &factory, &pipeline) {}
        assert!(second.plan.is_empty());
        assert_eq!(tables_text(&second), tables_text(&whole));
    }
}

#[test]
fn a_step_that_fails_leaves_the_plan_as_it_was() {
    let pipeline = parse(r#"{"n": {"driver": "output::json", "input": "missing", "path": "p"}}"#);
    let factory = factory();
    let mut state = fresh(&pipeline);
    assert_eq!(
        run_next(&mut state, &factory, &pipeline).err(),
        Some(PipelineError::UnknownTable("missing".to_string()))
    );
    assert_eq!(state.plan.len(), 1);
    let unknown = parse(r#"{"n": {"driver": "output::nothing"}}"#);
    let mut state = fresh(&unknown);
    assert_eq!(
        run_next(&mut state, &factory, &unknown).err(),
        Some(PipelineError::UnknownDriver("output::nothing".to_string()))
    );
    assert_eq!(state.plan.len(), 1);
}

#[test]
fn a_node_is_configured_from_the_pipeline_as_it_is_now() {
    let old = parse(r#"{"n": {"driver": "output::json", "input": "old", "path": "p"}}"#);
    let new = parse(r#"{"n": {"driver": "output::json", "input": "t", "path": "q"}}"#);
    let factory = factory();
    let mut state = fresh(&old);
    state.tables.push(Table { name: "t".to_string(), records: vec![] });
    match run_next(&mut state, &factory, &new).unwrap() {
        Step::Ran { action: Action::WriteDocument { path, document }, .. } => {
            assert_eq!(path, "q");
            assert_eq!(value(&document).to_string(), "[]");
        }
        other => panic!("{:?}", other),
    }
    let gone = parse("{}");
    assert_eq!(
        run_next(&mut state, &factory, &gone).err(),
        Some(PipelineError::MalformedConfig)
    );
}

#[test]
fn a_checkpoint_holds_tables_and_plan() {
    let pipeline = Document::Object(vec![
        ("n".to_string(), parse(r#"{"driver": "x"}"#)),
        ("m".to_string(), Document::Int(3)),
    ]);
    let mut state = fresh(&pipeline);
    let mut record = Record::new();
    record.insert("id".to_string(), Variant::Int(1));
    record.insert("name".to_string(), Variant::String("Al".to_string()));
    record.insert("none".to_string(), Variant::Null);
    state.tables.push(Table { name: "t".to_string(), records: vec![record, Record::new()] });
    assert_eq!(
        value(&state.to_document()).to_string(),
        r#"{"plan":[["n",{"driver":"x"}],["m",3]],"tables":[{"name":"t","records":[{"id":1,"name":"Al","none":null},{}]}]}"#
    );
    let loaded = State::from_document(
        &state.to_document(),
        Box::new(MemoryWriter::new()),
        Box::new(MemoryReader::new()),
    )
    .unwrap();
    assert_eq!(value(&loaded.to_document()), value(&state.to_document()));
    assert_eq!(loaded.tables[0].records[0].get("name"), Some(&Variant::String("Al".to_string())));
}

#[test]
fn malformed_checkpoints_are_refused() {
    for text in [
        "[]",
        r#"{"tables": []}"#,
        r#"{"plan": []}"#,
        r#"{"tables": {}, "plan": []}"#,
        r#"{"tables": [{"name": "t"}], "plan": []}"#,
        r#"{"tables": [{"name": 3, "records": []}], "plan": []}"#,
        r#"{"tables": [], "plan": [["n"]]}"#,
        r#"{"tables": [], "plan": [[1, {}]]}"#,
        r#"{"tables": [], "plan": ["n"]}"#,
    ] {
        let loaded = State::from_document(
            &parse(text),
            Box::new(MemoryWriter::new()),
            Box::new(MemoryReader::new()),
        );
        assert_eq!(loaded.err(), Some(PipelineError::MalformedCheckpoint), "{}", text);
    }
    let loaded = State::from_document(
        &parse(r#"{"tables": [{"name": "t", "records": [{"a": [1]}]}], "plan": []}"#),
        Box::new(MemoryWriter::new()),
        Box::new(MemoryReader::new()),
    );
    assert_eq!(loaded.err(), Some(PipelineError::UnsupportedValueKind));
    let loaded = State::from_document(
        &parse(r#"{"tables": [{"name": "t", "records": [3]}], "plan": []}"#),
        Box::new(MemoryWriter::new()),
        Box::new(MemoryReader::new()),
    );
    assert_eq!(loaded.err(), Some(PipelineError::MalformedData));
}
