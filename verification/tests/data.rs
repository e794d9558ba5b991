use data_plumber::state::{
    Config, Document, MemoryReader, MemoryWriter, Record, State, Table, Variant,
};
use data_plumber::PipelineError;
use serde_json::{Number, Value};

fn document(value: &Value) -> Document {
    match value {
        Value::Null => Document::Null,
        Value::Bool(b) => Document::Bool(*b),
        Value::Number(n) => match n.as_i128() {
            Some(i) => Document::Int(i),
            None => Document::Float(n.to_string()),
        },
        Value::String(s) => Document::String(s.clone()),
        Value::Array(items) => Document::Array(items.iter().map(document).collect()),
        Value::Object(members) => {
            Document::Object(members.iter().map(|(k, v)| (k.clone(), document(v))).collect())
        }
    }
}

fn value(document: &Document) -> Value {
    match document {
        Document::Null => Value::Null,
        Document::Bool(b) => Value::Bool(*b),
        Document::Int(i) => Value::Number(Number::from_i128(*i).unwrap()),
        Document::Float(text) => {
            Value::Number(Number::from_f64(text.parse::<f64>().unwrap()).unwrap())
        }
        Document::String(s) => Value::String(s.clone()),
        Document::Array(items) => Value::Array(items.iter().map(value).collect()),
        Document::Object(members) => {
            Value::Object(members.iter().map(|(k, v)| (k.clone(), value(v))).collect())
        }
    }
}

fn float(x: f64) -> Variant {
    Variant::Float(Number::from_f64(x).unwrap().to_string())
}

fn to_string(record: &Record) -> String {
    serde_json::to_string(&value(&record.to_document())).expect("Failed to serialize")
}

fn from_str(text: &str) -> Record {
    let parsed: Value = serde_json::from_str(text).expect("Failed to deserialize");
    Record::from_document(&document(&parsed)).expect("Failed to deserialize")
}

#[test]
fn test_serialize_json_string() {
    let mut record = Record::new();
    record.insert("name".to_string(), Variant::String("Alice".to_string()));

    let serialized = to_string(&record);

    assert_eq!(serialized, r#"{"name":"Alice"}"#);
}

#[test]
fn test_serialize_json_int() {
    let mut record = Record::new();
    record.insert("age".to_string(), Variant::Int(30));

    let serialized = to_string(&record);

    assert_eq!(serialized, r#"{"age":30}"#);
}

#[test]
fn test_serialize_json_float() {
    let mut record = Record::new();
    record.insert("height".to_string(), float(5.9));

    let serialized = to_string(&record);

    assert_eq!(serialized, r#"{"height":5.9}"#);
}

#[test]
fn test_serialize_deserialize_record() {
    let mut record = Record::new();
    record.insert("age".to_string(), Variant::Int(30));
    record.insert("name".to_string(), Variant::String("Alice".to_string()));
    record.insert("height".to_string(), float(5.9));

    let serialized = to_string(&record);
    println!("Serialized: {}", serialized);

    let deserialized: Record = from_str(&serialized);

    assert_eq!(deserialized.get("age"), Some(&Variant::Int(30)));
    assert_eq!(deserialized.get("name"), Some(&Variant::String("Alice".to_string())));
    assert_eq!(deserialized.get("height"), Some(&float(5.9)));
}

#[test]
fn test_state_creation() {
    let config =
        Config { state_file: "state.json".to_string(), template_file: "template.json".to_string() };
    let parsed: Value = serde_json::from_str(r#"{"test":{"driver":"none"}}"#).unwrap();
    let pipeline = document(&parsed);
    let state = State::make(
        &config,
        &pipeline,
        Box::new(MemoryWriter::new()),
        Box::new(MemoryReader::new()),
    )
    .unwrap();
    assert_eq!(state.plan.len(), 1);
    assert_eq!(state.plan[0].0, "test");
    assert!(state.tables.is_empty());
}

#[test]
fn insert_keeps_every_name_once() {
    let mut record = Record::new();
    assert_eq!(record.len(), 0);
    record.insert("a".to_string(), Variant::Int(1));
    record.insert("b".to_string(), Variant::Int(2));
    record.insert("a".to_string(), Variant::Int(3));
    assert_eq!(record.len(), 2);
    assert_eq!(record.get("a"), Some(&Variant::Int(3)));
    assert_eq!(record.get("b"), Some(&Variant::Int(2)));
    assert_eq!(record.get("c"), None);
    assert!(record.contains_key("a"));
    assert!(!record.contains_key("c"));
    assert_eq!(record.fields[0].0, "a");
    assert_eq!(record.fields[1].0, "b");
}

#[test]
fn an_empty_record_is_an_empty_object() {
    let record = Record::new();
    assert_eq!(to_string(&record), "{}");
    assert_eq!(from_str("{}").len(), 0);
}

#[test]
fn records_of_composite_values_are_refused() {
    let parsed: Value = serde_json::from_str(r#"{"a": [1]}"#).unwrap();
    assert_eq!(
        Record::from_document(&document(&parsed)).err(),
        Some(PipelineError::UnsupportedValueKind)
    );
    assert_eq!(
        Record::from_document(&Document::Array(vec![])).err(),
        Some(PipelineError::MalformedData)
    );
}

#[test]
fn state_finds_the_first_table_of_a_name() {
    let mut state = State::new(Box::new(MemoryWriter::new()), Box::new(MemoryReader::new()));
    let mut first = Record::new();
    first.insert("n".to_string(), Variant::Int(1));
    state.tables.push(Table { name: "a".to_string(), records: vec![first] });
    state.tables.push(Table { name: "b".to_string(), records: vec![] });
    state.tables.push(Table { name: "a".to_string(), records: vec![] });
    assert_eq!(state.find_table("a").unwrap().records.len(), 1);
    assert_eq!(state.find_table("b").unwrap().records.len(), 0);
    assert!(state.find_table("c").is_none());
}

#[test]
fn memory_sink_and_source_keep_rows_by_name() {
    let mut reader = MemoryReader::new();
    reader.files.push(("in.txt".to_string(), vec!["one".to_string(), "two".to_string()]));
    let mut state = State::new(Box::new(MemoryWriter::new()), Box::new(reader));
    assert_eq!(state.read_file("in.txt"), Ok(vec!["one".to_string(), "two".to_string()]));
    assert_eq!(state.read_file("other.txt"), Err(PipelineError::MissingInput));
    assert!(state.results_writer.test_peek("out.txt").is_none());
    state.write_file("out.txt", &["a".to_string()]);
    state.write_file("more.txt", &[]);
    state.write_file("out.txt", &["b".to_string(), "c".to_string()]);
    assert_eq!(
        state.results_writer.test_peek("out.txt"),
        Some(&vec!["b".to_string(), "c".to_string()])
    );
    assert_eq!(state.results_writer.test_peek("more.txt"), Some(&vec![]));
}

#[test]
fn make_takes_every_member_of_the_pipeline_in_order() {
    let config = Config { state_file: "s".to_string(), template_file: "t".to_string() };
    let pipeline = Document::Object(vec![
        ("second".to_string(), Document::Object(vec![])),
        ("config".to_string(), Document::Object(vec![])),
        ("first".to_string(), Document::Null),
    ]);
    let state = State::make(
        &config,
        &pipeline,
        Box::new(MemoryWriter::new()),
        Box::new(MemoryReader::new()),
    )
    .unwrap();
    let names: Vec<&str> = state.plan.iter().map(|entry| entry.0.as_str()).collect();
    assert_eq!(names, vec!["second", "config", "first"]);
    let refused = State::make(
        &config,
        &Document::Array(vec![]),
        Box::new(MemoryWriter::new()),
        Box::new(MemoryReader::new()),
    );
    assert_eq!(refused.err(), Some(PipelineError::MalformedConfig));
}

#[test]
fn config_reads_its_settings_or_their_defaults() {
    let parsed: Value = serde_json::from_str(
        r#"{"config": {"state_file": "s.json", "template_file": "t.json"}, "n": {}}"#,
    )
    .unwrap();
    let config = Config::from(&document(&parsed));
    assert_eq!(config.state_file, "s.json");
    assert_eq!(config.template_file, "t.json");
    let parsed: Value = serde_json::from_str(r#"{"config": {"state_file": 3}}"#).unwrap();
    let config = Config::from(&document(&parsed));
    assert_eq!(config.state_file, "state.json");
    assert_eq!(config.template_file, "template.json");
    let config = Config::from(&Document::Object(vec![]));
    assert_eq!(config.state_file, "state.json");
    assert_eq!(config.template_file, "template.json");
}
