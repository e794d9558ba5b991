use data_plumber::output::compare::{compare_records, compare_tables};
use data_plumber::output::{Difference, OutputCompare, Side};
use data_plumber::state::{
    Action, Document, MemoryReader, MemoryWriter, Process, Record, State, Table, Variant,
};
use data_plumber::PipelineError;

fn record(fields: &[(&str, Variant)]) -> Record {
    let mut record = Record::new();
    for (name, value) in fields {
        record.insert(name.to_string(), value.clone());
    }
    record
}

fn ids(name: &str, ids: &[i64]) -> Table {
    Table {
        name: name.to_string(),
        records: ids.iter().map(|id| record(&[("id", Variant::Int(*id))])).collect(),
    }
}

fn rows(first: &Table, second: &Table, field: &str) -> Vec<String> {
    compare_tables(first, second, field)
        .unwrap()
        .iter()
        .map(|difference| difference.row("input1", "input2"))
        .collect()
}

fn node() -> OutputCompare {
    OutputCompare {
        node_name: "cmp".to_string(),
        input1: "input1".to_string(),
        input2: "input2".to_string(),
        path: "diff.txt".to_string(),
        identity_field: "id".to_string(),
    }
}

#[test]
fn a_record_only_in_the_second_table_is_extra_there() {
    let first = ids("input1", &[1]);
    let second = ids("input2", &[1, 2]);
    assert_eq!(rows(&first, &second, "id"), vec!["Extra in input2: 2".to_string()]);
    let mut state = State::new(Box::new(MemoryWriter::new()), Box::new(MemoryReader::new()));
    state.tables.push(first);
    state.tables.push(second);
    let done = node().run(&mut state).unwrap();
    assert!(matches!(done, Action::Done));
    assert_eq!(
        state.results_writer.test_peek("diff.txt"),
        Some(&vec!["Extra in input2: 2".to_string()])
    );
}

#[test]
fn a_string_key_is_reported_between_quotes() {
    let first = Table {
        name: "input1".to_string(),
        records: vec![record(&[("id", Variant::String("a".to_string()))])],
    };
    let second = Table { name: "input2".to_string(), records: vec![] };
    assert_eq!(rows(&first, &second, "id"), vec!["Extra in input1: \"a\"".to_string()]);
}

#[test]
fn a_record_only_in_the_first_table_is_extra_and_nothing_else() {
    let first = Table {
        name: "input1".to_string(),
        records: vec![
            record(&[("id", Variant::Int(3)), ("name", Variant::String("c".to_string()))]),
            record(&[("id", Variant::Int(1)), ("name", Variant::String("a".to_string()))]),
            record(&[("id", Variant::Int(2)), ("name", Variant::String("b".to_string()))]),
        ],
    };
    let second = Table {
        name: "input2".to_string(),
        records: vec![
            record(&[("id", Variant::Int(3)), ("name", Variant::String("x".to_string()))]),
            record(&[("id", Variant::Int(1)), ("name", Variant::String("a".to_string()))]),
        ],
    };
    let found = compare_tables(&first, &second, "id").unwrap();
    let about_two: Vec<&Difference> = found
        .iter()
        .filter(|difference| match difference {
            Difference::Extra { key, .. } => key == "2",
            Difference::Mismatch { key, .. } => key == "2",
            Difference::MissingField { key, .. } => key == "2",
        })
        .collect();
    assert_eq!(about_two.len(), 1);
    assert!(matches!(about_two[0], Difference::Extra { table: Side::First, .. }));
    assert_eq!(
        rows(&first, &second, "id"),
        vec![
            "Extra in input1: 2".to_string(),
            "Mismatch: id: 3, field: name, (input1) \"c\" != (input2) \"x\"".to_string(),
        ]
    );
}

#[test]
fn keys_are_ordered_as_text() {
    let first = ids("input1", &[10, 9, 100]);
    let second = ids("input2", &[]);
    assert_eq!(
        rows(&first, &second, "id"),
        vec![
            "Extra in input1: 10".to_string(),
            "Extra in input1: 100".to_string(),
            "Extra in input1: 9".to_string(),
        ]
    );
    let first = ids("input1", &[9, 10]);
    let second = ids("input2", &[10, 9]);
    assert_eq!(rows(&first, &second, "id"), Vec::<String>::new());
}

#[test]
fn fields_are_compared_both_ways() {
    let first = record(&[
        ("id", Variant::Int(1)),
        ("a", Variant::Int(1)),
        ("b", Variant::Int(2)),
        ("c", Variant::Null),
    ]);
    let second = record(&[
        ("id", Variant::Int(1)),
        ("d", Variant::Int(4)),
        ("b", Variant::String("2".to_string())),
        ("c", Variant::Null),
    ]);
    let found: Vec<String> =
        compare_records("1", &first, &second).iter().map(|d| d.row("t1", "t2")).collect();
    assert_eq!(
        found,
        vec![
            "Missing field in t2: id: 1, field: a".to_string(),
            "Mismatch: id: 1, field: b, (t1) 2 != (t2) \"2\"".to_string(),
            "Missing field in t1: id: 1, field: d".to_string(),
        ]
    );
}

#[test]
fn records_of_the_same_key_are_paired_in_their_order() {
    let first = Table {
        name: "input1".to_string(),
        records: vec![
            record(&[("id", Variant::Int(1)), ("v", Variant::Int(10))]),
            record(&[("id", Variant::Int(1)), ("v", Variant::Int(20))]),
        ],
    };
    let second = Table {
        name: "input2".to_string(),
        records: vec![
            record(&[("id", Variant::Int(1)), ("v", Variant::Int(10))]),
            record(&[("id", Variant::Int(1)), ("v", Variant::Int(21))]),
            record(&[("id", Variant::Int(1)), ("v", Variant::Int(30))]),
        ],
    };
    assert_eq!(
        rows(&first, &second, "id"),
        vec![
            "Mismatch: id: 1, field: v, (input1) 20 != (input2) 21".to_string(),
            "Extra in input2: 1".to_string(),
        ]
    );
}

#[test]
fn comparison_needs_its_tables_and_the_identity_field() {
    let mut state = State::new(Box::new(MemoryWriter::new()), Box::new(MemoryReader::new()));
    assert_eq!(
        node().run(&mut state).err(),
        Some(PipelineError::UnknownTable("input1".to_string()))
    );
    state.tables.push(ids("input1", &[1]));
    assert_eq!(
        node().run(&mut state).err(),
        Some(PipelineError::UnknownTable("input2".to_string()))
    );
    state.tables.push(Table {
        name: "input2".to_string(),
        records: vec![record(&[("other", Variant::Int(1))])],
    });
    assert_eq!(node().run(&mut state).err(), Some(PipelineError::MalformedData));
    assert!(state.results_writer.test_peek("diff.txt").is_none());
}

#[test]
fn comparison_reads_its_configuration() {
    let config = Document::Object(vec![
        ("driver".to_string(), Document::String("output::compare".to_string())),
        ("input1".to_string(), Document::String("a".to_string())),
        ("input2".to_string(), Document::String("b".to_string())),
        ("path".to_string(), Document::String("p".to_string())),
        ("identity_field".to_string(), Document::String("id".to_string())),
    ]);
    let node = OutputCompare::from_config("n".to_string(), &config).unwrap();
    assert_eq!(node.node_name, "n");
    assert_eq!(node.input1, "a");
    assert_eq!(node.input2, "b");
    assert_eq!(node.path, "p");
    assert_eq!(node.identity_field, "id");
    let config = Document::Object(vec![
        ("input1".to_string(), Document::String("a".to_string())),
        ("input2".to_string(), Document::Int(3)),
    ]);
    assert_eq!(
        OutputCompare::from_config("n".to_string(), &config).err(),
        Some(PipelineError::MissingField("input2".to_string()))
    );
}

#[test]
fn equal_tables_leave_an_empty_list_in_the_sink() {
    let mut state = State::new(Box::new(MemoryWriter::new()), Box::new(MemoryReader::new()));
    state.tables.push(ids("input1", &[2, 1, 3]));
    state.tables.push(ids("input2", &[3, 2, 1]));
    assert!(matches!(node().run(&mut state), Ok(Action::Done)));
    assert_eq!(state.results_writer.test_peek("diff.txt"), Some(&vec![]));
}

#[test]
fn the_sink_holds_the_rows_of_the_comparison_under_the_path() {
    let mut state = State::new(Box::new(MemoryWriter::new()), Box::new(MemoryReader::new()));
    state.tables.push(Table {
        name: "input1".to_string(),
        records: vec![
            record(&[("id", Variant::String("b".to_string()))]),
            record(&[("id", Variant::String("a".to_string()))]),
            record(&[("id", Variant::Int(1)), ("v", Variant::Int(1)), ("a", Variant::Int(2))]),
        ],
    });
    state.tables.push(Table {
        name: "input2".to_string(),
        records: vec![record(&[("id", Variant::Int(1)), ("v", Variant::Float("1.0".to_string()))])],
    });
    state.write_file("diff.txt", &["old".to_string()]);
    node().run(&mut state).unwrap();
    assert_eq!(
        state.results_writer.test_peek("diff.txt"),
        Some(&vec![
            "Extra in input1: \"a\"".to_string(),
            "Extra in input1: \"b\"".to_string(),
            "Mismatch: id: 1, field: v, (input1) 1 != (input2) 1.0".to_string(),
            "Missing field in input2: id: 1, field: a".to_string(),
        ])
    );
}
