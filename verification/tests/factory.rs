use data_plumber::state::{register_nodes, Document, Driver, Factory, Node};
use data_plumber::PipelineError;
use serde_json::Value;

fn document(value: &Value) -> Document {
    match value {
        Value::Null => Document::Null,
        Value::Bool(b) => Document::Bool(*b),
        Value::Number(n) => match n.as_i128() {
            Some(i) => Document::Int(i),
            None => Document::Float(n.to_string()),
        },
        Value::String(s) => Document::String(s.clone()),
        Value::Array(items) => Document::Array(items.iter().map(document).collect()),
        Value::Object(members) => {
            Document::Object(members.iter().map(|(k, v)| (k.clone(), document(v))).collect())
        }
    }
}

fn parse(text: &str) -> Document {
    let value: Value = serde_json::from_str(text).unwrap();
    document(&value)
}

fn factory(templates: &str) -> Factory {
    let mut factory = Factory::new(Some(parse(templates))).unwrap();
    register_nodes(&mut factory);
    factory
}

#[test]
fn a_node_is_built_by_the_driver_that_its_configuration_names() {
    let factory = factory("{}");
    let node = factory
        .create_node(
            "n".to_string(),
            &parse(r#"{"driver": "output::json", "input": "t", "path": "out.json"}"#),
        )
        .unwrap()
        .unwrap();
    match node {
        Node::OutputJson(node) => {
            assert_eq!(node.input, "t");
            assert_eq!(node.path, "out.json");
        }
        other => panic!("{:?}", other),
    }
    for (driver, config) in [
        ("input::mysql", r#"{"driver": "input::mysql", "url": "u", "query": "q"}"#),
        ("input::json", r#"{"driver": "input::json", "path": "p"}"#),
        (
            "output::sql-inserts",
            r#"{"driver": "output::sql-inserts", "input": "t", "path": "p", "table-name": "x"}"#,
        ),
        (
            "output::compare",
            r#"{"driver": "output::compare", "input1": "a", "input2": "b", "path": "p",
                "identity_field": "id"}"#,
        ),
        (
            "output::rabbitmq",
            r#"{"driver": "output::rabbitmq", "input": "t", "exchange": "e", "routing_key": "k",
                "url": "u", "body": "b"}"#,
        ),
        ("output::asserts", r#"{"driver": "output::asserts", "asserts": []}"#),
    ] {
        let node = factory.create_node("n".to_string(), &parse(config)).unwrap().unwrap();
        let kind = match node {
            Node::InputMysql(_) => "input::mysql",
            Node::InputJson(_) => "input::json",
            Node::OutputSqlInserts(_) => "output::sql-inserts",
            Node::OutputCompare(_) => "output::compare",
            Node::OutputJson(_) => "output::json",
            Node::OutputRabbitMQ(_) => "output::rabbitmq",
            Node::OutputAsserts(_) => "output::asserts",
        };
        assert_eq!(kind, driver);
    }
}

#[test]
fn a_configuration_without_driver_gives_no_node() {
    let factory = factory(r#"{"base": {"path": "p"}}"#);
    assert!(factory.create_node("n".to_string(), &parse(r#"{"input": "t"}"#)).unwrap().is_none());
    assert!(factory
        .create_node("n".to_string(), &parse(r#"{"template": "base"}"#))
        .unwrap()
        .is_none());
    assert!(factory.create_node("config".to_string(), &parse("{}")).unwrap().is_none());
}

#[test]
fn a_template_fills_what_the_configuration_lacks() {
    let factory = factory(
        r#"{"json": {"driver": "output::json", "path": "default.json", "input": "t0"},
            "nested": {"driver": "output::asserts", "asserts": []}}"#,
    );
    let node = factory
        .create_node("n".to_string(), &parse(r#"{"template": "json", "input": "mine"}"#))
        .unwrap()
        .unwrap();
    match node {
        Node::OutputJson(node) => {
            assert_eq!(node.input, "mine");
            assert_eq!(node.path, "default.json");
        }
        other => panic!("{:?}", other),
    }
    let node = factory
        .create_node(
            "n".to_string(),
            &parse(
                r#"{"template": "nested", "driver": "output::json", "input": "a", "path": "b",
                    "asserts": [{"table": "t", "state": {"empty": ""}}]}"#,
            ),
        )
        .unwrap()
        .unwrap();
    assert!(matches!(node, Node::OutputJson(_)));
}

#[test]
fn the_factory_names_what_it_cannot_find() {
    let factory = factory(r#"{"odd": 3}"#);
    assert_eq!(
        factory.create_node("n".to_string(), &parse(r#"{"driver": "output::nothing"}"#)).err(),
        Some(PipelineError::UnknownDriver("output::nothing".to_string()))
    );
    assert_eq!(
        factory.create_node("n".to_string(), &parse(r#"{"template": "none"}"#)).err(),
        Some(PipelineError::UnknownTemplate("none".to_string()))
    );
    assert_eq!(
        factory.create_node("n".to_string(), &parse(r#"{"template": "odd"}"#)).err(),
        Some(PipelineError::MalformedConfig)
    );
    assert_eq!(
        factory.create_node("n".to_string(), &parse(r#"{"template": 1}"#)).err(),
        Some(PipelineError::MalformedConfig)
    );
    assert_eq!(
        factory.create_node("n".to_string(), &parse(r#"{"driver": 1}"#)).err(),
        Some(PipelineError::MalformedConfig)
    );
    assert_eq!(
        factory.create_node("n".to_string(), &parse("null")).err(),
        Some(PipelineError::MalformedConfig)
    );
    assert_eq!(
        factory.create_node("n".to_string(), &parse(r#"{"driver": "output::json"}"#)).err(),
        Some(PipelineError::MissingField("input".to_string()))
    );
}

#[test]
fn a_factory_starts_without_drivers() {
    let factory = Factory::new(None).unwrap();
    assert!(factory.registry.is_empty());
    assert!(factory.templates.is_empty());
    assert_eq!(
        factory.create_node("n".to_string(), &parse(r#"{"driver": "output::json"}"#)).err(),
        Some(PipelineError::UnknownDriver("output::json".to_string()))
    );
    assert_eq!(Factory::new(Some(parse("[]"))).err(), Some(PipelineError::MalformedConfig));
}

#[test]
fn a_later_registration_takes_the_place_of_an_earlier_one() {
    let mut factory = Factory::new(None).unwrap();
    factory.register_process("x".to_string(), Driver::InputJson);
    factory.register_process("y".to_string(), Driver::OutputJson);
    factory.register_process("x".to_string(), Driver::OutputJson);
    assert_eq!(factory.registry.len(), 2);
    let node = factory
        .create_node("n".to_string(), &parse(r#"{"driver": "x", "input": "t", "path": "p"}"#))
        .unwrap()
        .unwrap();
    assert!(matches!(node, Node::OutputJson(_)));
}
