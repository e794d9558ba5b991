//! The registry of drivers: from the name of a driver to the constructor of
//! its nodes, with the templates that fill the gaps of a configuration.

use crate::entries::{
    find_entry,
    inserted,
    lemma_inserted_at,
    lemma_lookup_first,
    lemma_lookup_push,
    lookup,
};
use crate::input::json::{input_json_config, input_json_run, InputJson, InputJsonModel};
use crate::input::mysql::{input_mysql_config, input_mysql_run, InputMysql, InputMysqlModel};
use crate::output::asserts::{asserts_config, asserts_run, OutputAsserts, OutputAssertsModel};
use crate::output::compare::{compare_config, compare_run, CompareModel, OutputCompare};
use crate::output::json::{output_json_config, output_json_run, OutputJson, OutputJsonModel};
use crate::output::rabbitmq::{
    arguments_model,
    rabbit_config,
    rabbit_run,
    ArgumentModel,
    OutputRabbitMQ,
    QueueArgument,
    RabbitModel,
};
use crate::output::sql_inserts::{
    sql_inserts_config,
    sql_inserts_run,
    OutputSqlInserts,
    SqlInsertsModel,
};
use crate::state::data::TableModel;
use crate::error::{ErrorModel, PipelineError};
use crate::state::document::{
    copy_members,
    lemma_object_model_push,
    lemma_object_view,
    object_model,
    Document,
    DocumentModel,
};
use crate::state::state::{begins_with, Held, State};
use crate::text::lines;
use vstd::prelude::*;

verus! {

/// The members of an object, written shorter.
pub type Members = Seq<(Seq<char>, DocumentModel)>;

/// The text of the member `name` of a configuration; nothing where it has no
/// such member or the member is no string.
pub open spec fn text_member(config: DocumentModel, name: Seq<char>) -> Option<Seq<char>> {
    match config.member(name) {
        Some(DocumentModel::String(text)) => Some(text),
        _ => None,
    }
}

/// The text that a configuration holds under `name`. A configuration without
/// that member, or with another kind of value there, is refused.
pub fn read_config_field(config: &Document, name: &str) -> (text: Result<String, PipelineError>)
    ensures
        match text {
            Ok(text) => text_member(config@, name@) == Some(text@),
            Err(error) => text_member(config@, name@) is None && error@
                == ErrorModel::MissingField(name@),
        },
{
    match config.get(name) {
        Some(member) => match member.as_str() {
            Some(text) => Ok(String::from_str(text)),
            None => Err(PipelineError::MissingField(String::from_str(name))),
        },
        None => Err(PipelineError::MissingField(String::from_str(name))),
    }
}

/// What is left to do outside once a node has run: the work that needs a
/// file, a database or a queue.
#[derive(Debug)]
pub enum Action {
    /// Nothing: the node has done all of its work.
    Done,
    /// Read the document at `path` and hand it to the node's `load`.
    ReadDocument { path: String },
    /// Run `query` on the database at `url` and hand the rows to the node's `load`.
    Query { url: String, query: String },
    /// Write `document` to `path`.
    WriteDocument { path: String, document: Document },
    /// Declare the queue `exchange` at `url` with `arguments`, and, unless
    /// this is a dry run, publish each payload under `routing_key`.
    Publish {
        url: String,
        exchange: String,
        routing_key: String,
        arguments: Vec<(String, QueueArgument)>,
        payloads: Vec<String>,
        dry_run: bool,
    },
}

/// What an `Action` holds, as a mathematical value.
pub enum ActionModel {
    Done,
    ReadDocument { path: Seq<char> },
    Query { url: Seq<char>, query: Seq<char> },
    WriteDocument { path: Seq<char>, document: DocumentModel },
    Publish {
        url: Seq<char>,
        exchange: Seq<char>,
        routing_key: Seq<char>,
        arguments: Seq<(Seq<char>, ArgumentModel)>,
        payloads: Seq<Seq<char>>,
        dry_run: bool,
    },
}

impl View for Action {
    type V = ActionModel;

    open spec fn view(&self) -> ActionModel {
        match self {
            Action::Done => ActionModel::Done,
            Action::ReadDocument { path } => ActionModel::ReadDocument { path: path@ },
            Action::Query { url, query } => ActionModel::Query { url: url@, query: query@ },
            Action::WriteDocument { path, document } => ActionModel::WriteDocument {
                path: path@,
                document: document@,
            },
            Action::Publish { url, exchange, routing_key, arguments, payloads, dry_run } => {
                ActionModel::Publish {
                    url: url@,
                    exchange: exchange@,
                    routing_key: routing_key@,
                    arguments: arguments_model(arguments@),
                    payloads: lines(payloads@),
                    dry_run: *dry_run,
                }
            },
        }
    }
}

/// What a run of a node comes to: the rows that it writes to the sink of
/// results, under a name, if it writes any, and what is left to do outside.
pub struct RunModel {
    pub written: Option<(Seq<char>, Seq<Seq<char>>)>,
    pub action: ActionModel,
}

/// Whether a run went as expected: where a run is expected, the action is
/// the expected one and the sink holds what was to be written under its
/// name, and under every other name what it held; where a failure is
/// expected, the failure is that one and the sink holds what it held.
pub open spec fn ran(
    expected: Result<RunModel, ErrorModel>,
    held_before: Held,
    done: Result<Action, PipelineError>,
    held_after: Held,
) -> bool {
    match expected {
        Ok(run) => (done matches Ok(action) && action@ == run.action) && held_after == (
        match run.written {
            Some(written) => held_before.insert(written.0, written.1),
            None => held_before,
        }),
        Err(error) => (done matches Err(failure) && failure@ == error) && held_after
            == held_before,
    }
}

/// A node of the pipeline: one configured unit of work.
pub trait Process {
    /// The node of this kind that a name and a configuration describe.
    fn from_config(node_name: String, config: &Document) -> (node: Result<
        Self,
        PipelineError,
    >) where Self: Sized;

    /// Runs the node on the state and says what is left to do outside. A
    /// node may add tables and write results; it takes no table away and
    /// leaves the plan as it is.
    fn run(&self, state: &mut State) -> (done: Result<Action, PipelineError>)
        ensures
            final(state)@.plan == old(state)@.plan,
            begins_with(final(state)@.tables, old(state)@.tables),
    ;
}

/// A configuration filled from a template: each member of the template whose
/// key the configuration lacks is added at the end, in the template's order.
pub open spec fn filled(config: Members, template: Members) -> Members
    decreases template.len(),
{
    if template.len() == 0 {
        config
    } else {
        let before = filled(config, template.drop_last());
        if lookup(before, template.last().0) is Some {
            before
        } else {
            before.push(template.last())
        }
    }
}

/// The merge is shallow and the configuration wins: a key finds in the filled
/// configuration what the configuration holds under it, and what the template
/// holds only where the configuration is silent.
pub proof fn lemma_filled_lookup(config: Members, template: Members, key: Seq<char>)
    ensures
        lookup(filled(config, template), key) == match lookup(config, key) {
            Some(value) => Some(value),
            None => lookup(template, key),
        },
    decreases template.len(),
{
    if template.len() > 0 {
        let front = template.drop_last();
        let before = filled(config, front);
        lemma_filled_lookup(config, front, key);
        lemma_filled_lookup(config, front, template.last().0);
        lemma_lookup_push(before, template.last(), key);
        lemma_lookup_push(front, template.last(), key);
        assert(front.push(template.last()) =~= template);
    }
}

/// What a configuration becomes before its node is built.
pub enum Effective {
    /// The members of the configuration, filled from its template where it names one.
    Config(Members),
    /// The configuration is no object, names a template by something else
    /// than a string, or names a template that is no object.
    Malformed,
    /// The configuration names a template that the factory does not hold.
    UnknownTemplate(Seq<char>),
}

/// The effective configuration of a node: its own members, filled from the
/// template that it names under `template`, if it names one.
pub open spec fn effective_config(templates: Members, config: DocumentModel) -> Effective {
    match config {
        DocumentModel::Object(members) => match lookup(members, "template"@) {
            None => Effective::Config(members),
            Some(DocumentModel::String(name)) => match lookup(templates, name) {
                None => Effective::UnknownTemplate(name),
                Some(DocumentModel::Object(template)) => Effective::Config(
                    filled(members, template),
                ),
                Some(_) => Effective::Malformed,
            },
            Some(_) => Effective::Malformed,
        },
        _ => Effective::Malformed,
    }
}

/// Fills `config` from `template`.
pub fn fill_from_template(config: &mut Vec<(String, Document)>, template: &Vec<(String, Document)>)
    ensures
        object_model(final(config)@) == filled(object_model(old(config)@), object_model(template@)),
{
    let mut i: usize = 0;
    proof {
        assert(object_model(template@).take(0) =~= Seq::empty());
    }
    while i < template.len()
        invariant
            i <= template@.len(),
            object_model(config@) == filled(
                object_model(old(config)@),
                object_model(template@).take(i as int),
            ),
        decreases template@.len() - i,
    {
        let ghost before = object_model(config@);
        proof {
            let next = object_model(template@).take(i + 1);
            assert(next.drop_last() =~= object_model(template@).take(i as int));
            assert(next.last() == (template@[i as int].0@, template@[i as int].1@));
        }
        let at = find_entry(config, template[i].0.as_str());
        proof {
            assert forall|j: int| 0 <= j < at implies (#[trigger] before[j]).0
                != template@[i as int].0@ by {
                assert(before[j].0 == config@[j].0@);
            }
            lemma_lookup_first(before, template@[i as int].0@, at as int);
        }
        if at == config.len() {
            let key = template[i].0.clone();
            let value = template[i].1.clone();
            proof {
                lemma_object_model_push(config@, (key, value));
            }
            config.push((key, value));
        }
        i += 1;
    }
    proof {
        assert(object_model(template@).take(i as int) =~= object_model(template@));
    }
}

/// The kinds of node that a driver can stand for.
#[derive(Clone, Copy, Debug, PartialEq, Eq, Structural)]
pub enum Driver {
    InputMysql,
    InputJson,
    OutputSqlInserts,
    OutputCompare,
    OutputJson,
    OutputRabbitMQ,
    OutputAsserts,
}

/// A node of one of the kinds.
#[derive(Debug)]
pub enum Node {
    InputMysql(InputMysql),
    InputJson(InputJson),
    OutputSqlInserts(OutputSqlInserts),
    OutputCompare(OutputCompare),
    OutputJson(OutputJson),
    OutputRabbitMQ(OutputRabbitMQ),
    OutputAsserts(OutputAsserts),
}

/// What a `Node` holds, as a mathematical value.
pub enum NodeModel {
    InputMysql(InputMysqlModel),
    InputJson(InputJsonModel),
    OutputSqlInserts(SqlInsertsModel),
    OutputCompare(CompareModel),
    OutputJson(OutputJsonModel),
    OutputRabbitMQ(RabbitModel),
    OutputAsserts(OutputAssertsModel),
}

impl View for Node {
    type V = NodeModel;

    open spec fn view(&self) -> NodeModel {
        match self {
            Node::InputMysql(node) => NodeModel::InputMysql(node@),
            Node::InputJson(node) => NodeModel::InputJson(node@),
            Node::OutputSqlInserts(node) => NodeModel::OutputSqlInserts(node@),
            Node::OutputCompare(node) => NodeModel::OutputCompare(node@),
            Node::OutputJson(node) => NodeModel::OutputJson(node@),
            Node::OutputRabbitMQ(node) => NodeModel::OutputRabbitMQ(node@),
            Node::OutputAsserts(node) => NodeModel::OutputAsserts(node@),
        }
    }
}

/// The node of a kind that a name and a configuration describe.
pub open spec fn node_of(driver: Driver, node_name: Seq<char>, config: DocumentModel) -> Result<
    NodeModel,
    ErrorModel,
> {
    match driver {
        Driver::InputMysql => match input_mysql_config(node_name, config) {
            Ok(node) => Ok(NodeModel::InputMysql(node)),
            Err(error) => Err(error),
        },
        Driver::InputJson => match input_json_config(node_name, config) {
            Ok(node) => Ok(NodeModel::InputJson(node)),
            Err(error) => Err(error),
        },
        Driver::OutputSqlInserts => match sql_inserts_config(node_name, config) {
            Ok(node) => Ok(NodeModel::OutputSqlInserts(node)),
            Err(error) => Err(error),
        },
        Driver::OutputCompare => match compare_config(node_name, config) {
            Ok(node) => Ok(NodeModel::OutputCompare(node)),
            Err(error) => Err(error),
        },
        Driver::OutputJson => match output_json_config(config) {
            Ok(node) => Ok(NodeModel::OutputJson(node)),
            Err(error) => Err(error),
        },
        Driver::OutputRabbitMQ => match rabbit_config(config) {
            Ok(node) => Ok(NodeModel::OutputRabbitMQ(node)),
            Err(error) => Err(error),
        },
        Driver::OutputAsserts => match asserts_config(node_name, config) {
            Ok(node) => Ok(NodeModel::OutputAsserts(node)),
            Err(error) => Err(error),
        },
    }
}

/// What a run of a node on the tables of a state comes to.
pub open spec fn node_run(node: NodeModel, tables: Seq<TableModel>) -> Result<
    RunModel,
    ErrorModel,
> {
    match node {
        NodeModel::InputMysql(node) => input_mysql_run(node, tables),
        NodeModel::InputJson(node) => input_json_run(node, tables),
        NodeModel::OutputSqlInserts(node) => sql_inserts_run(node, tables),
        NodeModel::OutputCompare(node) => compare_run(node, tables),
        NodeModel::OutputJson(node) => output_json_run(node, tables),
        NodeModel::OutputRabbitMQ(node) => rabbit_run(node, tables),
        NodeModel::OutputAsserts(node) => asserts_run(node, tables),
    }
}

impl Node {
    /// The node of a kind that a name and a configuration describe.
    pub fn build(driver: Driver, node_name: String, config: &Document) -> (node: Result<
        Node,
        PipelineError,
    >)
        ensures
            match node {
                Ok(node) => node_of(driver, node_name@, config@) == Ok::<NodeModel, ErrorModel>(
                    node@,
                ),
                Err(error) => node_of(driver, node_name@, config@) == Err::<NodeModel, ErrorModel>(
                    error@,
                ),
            },
    {
        match driver {
            Driver::InputMysql => match InputMysql::from_config(node_name, config) {
                Ok(node) => Ok(Node::InputMysql(node)),
                Err(error) => Err(error),
            },
            Driver::InputJson => match InputJson::from_config(node_name, config) {
                Ok(node) => Ok(Node::InputJson(node)),
                Err(error) => Err(error),
            },
            Driver::OutputSqlInserts => match OutputSqlInserts::from_config(node_name, config) {
                Ok(node) => Ok(Node::OutputSqlInserts(node)),
                Err(error) => Err(error),
            },
            Driver::OutputCompare => match OutputCompare::from_config(node_name, config) {
                Ok(node) => Ok(Node::OutputCompare(node)),
                Err(error) => Err(error),
            },
            Driver::OutputJson => match OutputJson::from_config(node_name, config) {
                Ok(node) => Ok(Node::OutputJson(node)),
                Err(error) => Err(error),
            },
            Driver::OutputRabbitMQ => match OutputRabbitMQ::from_config(node_name, config) {
                Ok(node) => Ok(Node::OutputRabbitMQ(node)),
                Err(error) => Err(error),
            },
            Driver::OutputAsserts => match OutputAsserts::from_config(node_name, config) {
                Ok(node) => Ok(Node::OutputAsserts(node)),
                Err(error) => Err(error),
            },
        }
    }

    /// Runs the node on the state and says what is left to do outside.
    /// The tables and the plan stay as they are.
    pub fn run(&self, state: &mut State) -> (done: Result<Action, PipelineError>)
        ensures
            final(state)@ == old(state)@,
            ran(
                node_run(self@, old(state)@.tables),
                old(state).results_writer.held(),
                done,
                final(state).results_writer.held(),
            ),
    {
        match self {
            Node::InputMysql(node) => node.run(state),
            Node::InputJson(node) => node.run(state),
            Node::OutputSqlInserts(node) => node.run(state),
            Node::OutputCompare(node) => node.run(state),
            Node::OutputJson(node) => node.run(state),
            Node::OutputRabbitMQ(node) => node.run(state),
            Node::OutputAsserts(node) => node.run(state),
        }
    }
}

/// The drivers under their names.
pub open spec fn registry_model(registry: Seq<(String, Driver)>) -> Seq<(Seq<char>, Driver)> {
    registry.map_values(|entry: (String, Driver)| (entry.0@, entry.1))
}

/// What a factory makes of a name and a configuration: nothing where the
/// effective configuration names no driver, the node of the registered kind
/// where it names one, and a failure where the configuration or its template
/// cannot be read, the driver is not registered or the node cannot be built.
pub open spec fn created(
    registry: Seq<(Seq<char>, Driver)>,
    templates: Members,
    node_name: Seq<char>,
    config: DocumentModel,
) -> Result<Option<NodeModel>, ErrorModel> {
    match effective_config(templates, config) {
        Effective::Malformed => Err(ErrorModel::MalformedConfig),
        Effective::UnknownTemplate(name) => Err(ErrorModel::UnknownTemplate(name)),
        Effective::Config(members) => match lookup(members, "driver"@) {
            None => Ok(None),
            Some(DocumentModel::String(driver)) => match lookup(registry, driver) {
                None => Err(ErrorModel::UnknownDriver(driver)),
                Some(kind) => match node_of(kind, node_name, DocumentModel::Object(members)) {
                    Ok(node) => Ok(Some(node)),
                    Err(error) => Err(error),
                },
            },
            Some(_) => Err(ErrorModel::MalformedConfig),
        },
    }
}

/// The registry of drivers and the templates of a run.
#[derive(Debug)]
pub struct Factory {
    pub registry: Vec<(String, Driver)>,
    pub templates: Vec<(String, Document)>,
}

/// What an optional value holds.
pub open spec fn view_of<T: View>(value: Option<T>) -> Option<T::V> {
    match value {
        Some(value) => Some(value@),
        None => None,
    }
}

impl Factory {
    /// A factory without drivers, with the templates of the template
    /// document. No document means no templates; a template document that is
    /// no object is refused.
    pub fn new(templates: Option<Document>) -> (made: Result<Factory, PipelineError>)
        ensures
            match made {
                Ok(factory) => factory.registry@.len() == 0 && match templates {
                    Some(document) => document@ == DocumentModel::Object(
                        object_model(factory.templates@),
                    ),
                    None => factory.templates@.len() == 0,
                },
                Err(error) => error == PipelineError::MalformedConfig && (
                templates matches Some(document) && !(document@ is Object)),
            },
    {
        match templates {
            None => Ok(Factory { registry: Vec::new(), templates: Vec::new() }),
            Some(Document::Object(entries)) => {
                proof {
                    lemma_object_view(entries);
                }
                Ok(Factory { registry: Vec::new(), templates: entries })
            },
            Some(_) => Err(PipelineError::MalformedConfig),
        }
    }

    /// Registers a kind of node under the name of a driver, in place of the
    /// one that the name had.
    pub fn register_process(&mut self, name: String, constructor: Driver)
        ensures
            registry_model(final(self).registry@) == inserted(
                registry_model(old(self).registry@),
                name@,
                constructor,
            ),
            final(self).templates == old(self).templates,
    {
        let at = find_entry(&self.registry, name.as_str());
        let ghost before = registry_model(self.registry@);
        proof {
            assert forall|j: int| 0 <= j < at implies (#[trigger] before[j]).0 != name@ by {
                assert(before[j].0 == self.registry@[j].0@);
            }
            lemma_inserted_at(before, name@, constructor, at as int);
        }
        if at < self.registry.len() {
            self.registry.set(at, (name, constructor));
            proof {
                assert(registry_model(self.registry@) =~= before.update(
                    at as int,
                    (name@, constructor),
                ));
            }
        } else {
            self.registry.push((name, constructor));
            proof {
                assert(registry_model(self.registry@) =~= before.push((name@, constructor)));
            }
        }
    }

    /// The node that a name and a configuration describe. The configuration
    /// is filled from the template that it names, if it names one; without
    /// a driver there is no node; with one, the node is of the kind that
    /// the driver is registered with.
    pub fn create_node(&self, node_name: String, config: &Document) -> (node: Result<
        Option<Node>,
        PipelineError,
    >)
        ensures
            match node {
                Ok(node) => created(
                    registry_model(self.registry@),
                    object_model(self.templates@),
                    node_name@,
                    config@,
                ) == Ok::<Option<NodeModel>, ErrorModel>(view_of(node)),
                Err(error) => created(
                    registry_model(self.registry@),
                    object_model(self.templates@),
                    node_name@,
                    config@,
                ) == Err::<Option<NodeModel>, ErrorModel>(error@),
            },
    {
        let members = match config {
            Document::Object(members) => {
                proof {
                    lemma_object_view(*members);
                }
                members
            },
            _ => {
                return Err(PipelineError::MalformedConfig);
            },
        };
        let mut merged = copy_members(members);
        let at = find_entry(members, "template");
        proof {
            let held = object_model(members@);
            assert forall|j: int| 0 <= j < at implies (#[trigger] held[j]).0 != "template"@ by {
                assert(held[j].0 == members@[j].0@);
            }
            lemma_lookup_first(held, "template"@, at as int);
        }
        if at < members.len() {
            let template_name = match &members[at].1 {
                Document::String(name) => name,
                _ => {
                    return Err(PipelineError::MalformedConfig);
                },
            };
            let found = find_entry(&self.templates, template_name.as_str());
            proof {
                let held = object_model(self.templates@);
                assert forall|j: int| 0 <= j < found implies (#[trigger] held[j]).0
                    != template_name@ by {
                    assert(held[j].0 == self.templates@[j].0@);
                }
                lemma_lookup_first(held, template_name@, found as int);
            }
            if found == self.templates.len() {
                return Err(PipelineError::UnknownTemplate(template_name.clone()));
            }
            match &self.templates[found].1 {
                Document::Object(template) => {
                    proof {
                        lemma_object_view(*template);
                    }
                    fill_from_template(&mut merged, template);
                },
                _ => {
                    return Err(PipelineError::MalformedConfig);
                },
            }
        }
        let driver_at = find_entry(&merged, "driver");
        proof {
            let held = object_model(merged@);
            assert forall|j: int| 0 <= j < driver_at implies (#[trigger] held[j]).0
                != "driver"@ by {
                assert(held[j].0 == merged@[j].0@);
            }
            lemma_lookup_first(held, "driver"@, driver_at as int);
        }
        if driver_at == merged.len() {
            return Ok(None);
        }
        let driver = match &merged[driver_at].1 {
            Document::String(driver) => driver.clone(),
            _ => {
                return Err(PipelineError::MalformedConfig);
            },
        };
        let kind_at = find_entry(&self.registry, driver.as_str());
        proof {
            let held = registry_model(self.registry@);
            assert forall|j: int| 0 <= j < kind_at implies (#[trigger] held[j]).0 != driver@ by {
                assert(held[j].0 == self.registry@[j].0@);
            }
            lemma_lookup_first(held, driver@, kind_at as int);
        }
        if kind_at == self.registry.len() {
            return Err(PipelineError::UnknownDriver(driver));
        }
        let kind = self.registry[kind_at].1;
        let effective = Document::Object(merged);
        proof {
            lemma_object_view(merged);
        }
        match Node::build(kind, node_name, &effective) {
            Ok(node) => Ok(Some(node)),
            Err(error) => Err(error),
        }
    }
}

/// Registers every kind of node under the name of its driver.
pub fn register_nodes(factory: &mut Factory)
    ensures
        registry_model(final(factory).registry@) == inserted(
            inserted(
                inserted(
                    inserted(
                        inserted(
                            inserted(
                                inserted(
                                    registry_model(old(factory).registry@),
                                    "input::mysql"@,
                                    Driver::InputMysql,
                                ),
                                "input::json"@,
                                Driver::InputJson,
                            ),
                            "output::sql-inserts"@,
                            Driver::OutputSqlInserts,
                        ),
                        "output::compare"@,
                        Driver::OutputCompare,
                    ),
                    "output::json"@,
                    Driver::OutputJson,
                ),
                "output::rabbitmq"@,
                Driver::OutputRabbitMQ,
            ),
            "output::asserts"@,
            Driver::OutputAsserts,
        ),
        final(factory).templates == old(factory).templates,
{
    InputMysql::register(factory);
    InputJson::register(factory);
    OutputSqlInserts::register(factory);
    OutputCompare::register(factory);
    OutputJson::register(factory);
    OutputRabbitMQ::register(factory);
    OutputAsserts::register(factory);
}

} // verus!
