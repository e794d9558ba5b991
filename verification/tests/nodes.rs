use data_plumber::input::{InputJson, InputMysql};
use data_plumber::output::rabbitmq::payload;
use data_plumber::output::sql_inserts::insert_statement;
use data_plumber::output::{OutputJson, OutputRabbitMQ, OutputSqlInserts, QueueArgument};
use data_plumber::state::{
    Action, Document, MemoryReader, MemoryWriter, Process, Record, RelationalValue, State, Table,
    Variant,
};
use data_plumber::PipelineError;

fn record(fields: &[(&str, Variant)]) -> Record {
    let mut record = Record::new();
    for (name, value) in fields {
        record.insert(name.to_string(), value.clone());
    }
    record
}

fn state_with(tables: Vec<Table>) -> State {
    let mut state = State::new(Box::new(MemoryWriter::new()), Box::new(MemoryReader::new()));
    for table in tables {
        state.tables.push(table);
    }
    state
}

fn object(members: &[(&str, Document)]) -> Document {
    Document::Object(members.iter().map(|(k, v)| (k.to_string(), v.clone())).collect())
}

fn text(value: &str) -> Document {
    Document::String(value.to_string())
}

#[test]
fn insert_statements_name_the_fields_in_ascending_order() {
    let person = record(&[
        ("name", Variant::String("O'Neil \"Al\"".to_string())),
        ("id", Variant::Int(7)),
        ("score", Variant::Float("1.5".to_string())),
        ("boss", Variant::Null),
    ]);
    assert_eq!(
        insert_statement("people", &person),
        "insert into people (`boss`,`id`,`name`,`score`) values (null,7,\"O'Neil \\\"Al\\\"\",1.5);"
    );
    assert_eq!(insert_statement("t", &Record::new()), "insert into t () values ();");
}

#[test]
fn sql_inserts_writes_one_row_for_each_record() {
    let node = OutputSqlInserts::from_config(
        "n".to_string(),
        &object(&[("input", text("t")), ("path", text("out.sql")), ("table-name", text("x"))]),
    )
    .unwrap();
    let table = Table {
        name: "t".to_string(),
        records: vec![record(&[("b", Variant::Int(1)), ("a", Variant::Int(2))]), Record::new()],
    };
    let mut state = state_with(vec![table]);
    assert!(matches!(node.run(&mut state), Ok(Action::Done)));
    assert_eq!(
        state.results_writer.test_peek("out.sql"),
        Some(&vec![
            "insert into x (`a`,`b`) values (2,1);".to_string(),
            "insert into x () values ();".to_string(),
        ])
    );
    let mut none = state_with(vec![]);
    assert_eq!(node.run(&mut none).err(), Some(PipelineError::UnknownTable("t".to_string())));
    assert_eq!(
        OutputSqlInserts::from_config(
            "n".to_string(),
            &object(&[("input", text("t")), ("path", text("p"))])
        )
        .err(),
        Some(PipelineError::MissingField("table-name".to_string()))
    );
}

#[test]
fn output_json_hands_out_the_records_as_a_list_of_objects() {
    let node = OutputJson::from_config(
        "n".to_string(),
        &object(&[("input", text("t")), ("path", text("out.json"))]),
    )
    .unwrap();
    let table = Table {
        name: "t".to_string(),
        records: vec![record(&[("id", Variant::Int(1)), ("n", Variant::Null)])],
    };
    let mut state = state_with(vec![table]);
    match node.run(&mut state).unwrap() {
        Action::WriteDocument { path, document } => {
            assert_eq!(path, "out.json");
            match document {
                Document::Array(items) => {
                    assert_eq!(items.len(), 1);
                    assert_eq!(items[0].get("id").unwrap().as_str(), None);
                    assert!(matches!(items[0].get("id"), Some(Document::Int(1))));
                    assert!(matches!(items[0].get("n"), Some(Document::Null)));
                }
                other => panic!("{:?}", other),
            }
        }
        other => panic!("{:?}", other),
    }
    assert!(state.results_writer.test_peek("out.json").is_none());
}

#[test]
fn input_json_reads_a_list_of_objects_into_a_table() {
    let node =
        InputJson::from_config("people".to_string(), &object(&[("path", text("in.json"))]))
            .unwrap();
    let mut state = state_with(vec![]);
    match node.run(&mut state).unwrap() {
        Action::ReadDocument { path } => assert_eq!(path, "in.json"),
        other => panic!("{:?}", other),
    }
    let source = Document::Array(vec![
        object(&[("id", Document::Int(1)), ("name", text("Al"))]),
        object(&[("id", Document::Int(2)), ("height", Document::Float("1.8".to_string()))]),
    ]);
    node.load(&source, &mut state).unwrap();
    assert_eq!(state.tables.len(), 1);
    assert_eq!(state.tables[0].name, "people");
    assert_eq!(state.tables[0].records.len(), 2);
    assert_eq!(state.tables[0].records[0].get("name"), Some(&Variant::String("Al".to_string())));
    assert_eq!(
        state.tables[0].records[1].get("height"),
        Some(&Variant::Float("1.8".to_string()))
    );
    assert_eq!(
        node.load(&object(&[]), &mut state).err(),
        Some(PipelineError::MalformedData)
    );
    assert_eq!(
        node.load(&Document::Array(vec![Document::Int(1)]), &mut state).err(),
        Some(PipelineError::MalformedData)
    );
    assert_eq!(
        node.load(
            &Document::Array(vec![object(&[("a", Document::Bool(true))])]),
            &mut state
        )
        .err(),
        Some(PipelineError::UnsupportedValueKind)
    );
    assert_eq!(state.tables.len(), 1);
}

#[test]
fn input_mysql_reads_rows_into_a_table() {
    let node = InputMysql::from_config(
        "rows".to_string(),
        &object(&[("url", text("mysql://db")), ("query", text("select 1"))]),
    )
    .unwrap();
    let mut state = state_with(vec![]);
    match node.run(&mut state).unwrap() {
        Action::Query { url, query } => {
            assert_eq!(url, "mysql://db");
            assert_eq!(query, "select 1");
        }
        other => panic!("{:?}", other),
    }
    let rows = vec![
        vec![
            ("id".to_string(), RelationalValue::UInt(1)),
            ("name".to_string(), RelationalValue::Bytes(b"Al".to_vec())),
        ],
        vec![
            ("id".to_string(), RelationalValue::Int(-2)),
            ("name".to_string(), RelationalValue::Null),
        ],
    ];
    node.load(rows, &mut state).unwrap();
    assert_eq!(state.tables[0].name, "rows");
    assert_eq!(state.tables[0].records[0].get("id"), Some(&Variant::Int(1)));
    assert_eq!(state.tables[0].records[0].get("name"), Some(&Variant::String("Al".to_string())));
    assert_eq!(state.tables[0].records[1].get("id"), Some(&Variant::Int(-2)));
    assert_eq!(state.tables[0].records[1].get("name"), Some(&Variant::Null));
    let odd = vec![vec![("when".to_string(), RelationalValue::Other)]];
    assert_eq!(node.load(odd, &mut state).err(), Some(PipelineError::UnsupportedValueKind));
    assert_eq!(state.tables.len(), 1);
    assert_eq!(
        InputMysql::from_config("n".to_string(), &object(&[("url", text("u"))])).err(),
        Some(PipelineError::MissingField("query".to_string()))
    );
}

#[test]
fn a_payload_replaces_the_placeholders_of_the_fields() {
    let person = record(&[("name", Variant::String("Al".to_string())), ("id", Variant::Int(7))]);
    assert_eq!(
        payload("{\"who\": {{name}}, \"id\": {{id}}, \"again\": {{id}}, \"x\": {{x}}}", &person),
        "{\"who\": \"Al\", \"id\": 7, \"again\": 7, \"x\": {{x}}}"
    );
    assert_eq!(payload("nothing to do", &person), "nothing to do");
    assert_eq!(payload("{{id}}", &Record::new()), "{{id}}");
}

#[test]
fn rabbitmq_hands_out_one_message_for_each_record() {
    let config = object(&[
        ("input", text("t")),
        ("exchange", text("ex")),
        ("routing_key", text("key")),
        ("url", text("amqp://mq")),
        ("body", text("id={{id}}")),
        (
            "exchange_options",
            object(&[
                ("x-max-length", Document::Int(10)),
                ("x-queue-mode", text("lazy")),
                ("x-single-active-consumer", Document::Bool(true)),
                ("x-nothing", Document::Null),
            ]),
        ),
        ("dry_run", Document::Bool(true)),
    ]);
    let node = OutputRabbitMQ::from_config("n".to_string(), &config).unwrap();
    assert!(node.dry_run);
    assert_eq!(node.exchange_options.len(), 4);
    let table = Table {
        name: "t".to_string(),
        records: vec![record(&[("id", Variant::Int(1))]), record(&[("id", Variant::Int(2))])],
    };
    let mut state = state_with(vec![table]);
    match node.run(&mut state).unwrap() {
        Action::Publish { url, exchange, routing_key, arguments, payloads, dry_run } => {
            assert_eq!(url, "amqp://mq");
            assert_eq!(exchange, "ex");
            assert_eq!(routing_key, "key");
            assert_eq!(arguments.len(), 4);
            assert_eq!(arguments[0].0, "x-max-length");
            assert!(matches!(arguments[0].1, QueueArgument::LongLongInt(10)));
            assert!(matches!(&arguments[1].1, QueueArgument::LongString(mode) if mode == "lazy"));
            assert!(matches!(arguments[2].1, QueueArgument::Boolean(true)));
            assert!(matches!(arguments[3].1, QueueArgument::Void));
            assert_eq!(payloads, vec!["id=1".to_string(), "id=2".to_string()]);
            assert!(dry_run);
        }
        other => panic!("{:?}", other),
    }
}

#[test]
fn rabbitmq_reads_its_configuration() {
    let plain = object(&[
        ("input", text("t")),
        ("exchange", text("ex")),
        ("routing_key", text("key")),
        ("url", text("amqp://mq")),
        ("body", text("b")),
        ("exchange_options", Document::Int(3)),
    ]);
    let node = OutputRabbitMQ::from_config("n".to_string(), &plain).unwrap();
    assert!(!node.dry_run);
    assert!(node.exchange_options.is_empty());
    let odd = object(&[
        ("input", text("t")),
        ("exchange", text("ex")),
        ("routing_key", text("key")),
        ("url", text("amqp://mq")),
        ("body", text("b")),
        ("dry_run", text("yes")),
    ]);
    assert_eq!(
        OutputRabbitMQ::from_config("n".to_string(), &odd).err(),
        Some(PipelineError::MissingField("dry_run".to_string()))
    );
    assert_eq!(
        OutputRabbitMQ::from_config("n".to_string(), &object(&[("input", text("t"))])).err(),
        Some(PipelineError::MissingField("exchange".to_string()))
    );
    let mut state = state_with(vec![]);
    assert_eq!(node.run(&mut state).err(), Some(PipelineError::UnknownTable("t".to_string())));
    let fraction = object(&[
        ("input", text("t")),
        ("exchange", text("ex")),
        ("routing_key", text("key")),
        ("url", text("amqp://mq")),
        ("body", text("b")),
        ("exchange_options", object(&[("x-ratio", Document::Float("0.5".to_string()))])),
    ]);
    let node = OutputRabbitMQ::from_config("n".to_string(), &fraction).unwrap();
    let mut state = state_with(vec![Table { name: "t".to_string(), records: vec![] }]);
    assert_eq!(node.run(&mut state).err(), Some(PipelineError::MalformedConfig));
}

#[test]
fn read_file_names_its_table() {
    let source = Document::Array(vec![object(&[("id", Document::Int(1))])]);
    assert_eq!(source.as_array().unwrap().len(), 1);
    let table = data_plumber::input::read_file(&source).unwrap();
    assert_eq!(table.name, "ExampleTable");
    assert_eq!(table.records.len(), 1);
    assert_eq!(table.records[0].get("id"), Some(&Variant::Int(1)));
    assert_eq!(
        data_plumber::input::read_file(&Document::Null).err(),
        Some(PipelineError::MalformedData)
    );
    assert!(Document::Null.as_array().is_none());
    assert!(source.as_object().is_none());
}

#[test]
fn nodes_register_under_the_names_of_their_drivers() {
    let mut factory = data_plumber::state::Factory::new(None).unwrap();
    InputJson::register(&mut factory);
    OutputSqlInserts::register(&mut factory);
    let names: Vec<&str> = factory.registry.iter().map(|entry| entry.0.as_str()).collect();
    assert_eq!(names, vec!["input::json", "output::sql-inserts"]);
    data_plumber::state::register_nodes(&mut factory);
    let names: Vec<&str> = factory.registry.iter().map(|entry| entry.0.as_str()).collect();
    assert_eq!(
        names,
        vec![
            "input::json",
            "output::sql-inserts",
            "input::mysql",
            "output::compare",
            "output::json",
            "output::rabbitmq",
            "output::asserts",
        ]
    );
}
