//! The node that publishes the records of a table to a message queue.

use crate::entries::inserted;
use crate::error::{ErrorModel, PipelineError};
use crate::state::data::{Record, RecordModel, TableModel};
use crate::state::document::{
    copy_members,
    lemma_object_view,
    object_model,
    Document,
    DocumentModel,
};
use crate::state::factory::{
    ran,
    read_config_field,
    registry_model,
    text_member,
    Action,
    ActionModel,
    Driver,
    Factory,
    Members,
    Process,
    RunModel,
};
use crate::state::state::{lemma_begins_with_itself, table_named, State};
use crate::state::variant::canonical_text;
use crate::text::lines;
use vstd::prelude::*;

verus! {

/// The node that makes a message of each record of a table, from a body with
/// placeholders, and hands the messages out to be published.
#[derive(Debug)]
pub struct OutputRabbitMQ {
    pub input: String,
    pub exchange: String,
    pub routing_key: String,
    pub url: String,
    pub body: String,
    pub exchange_options: Vec<(String, Document)>,
    pub dry_run: bool,
}

/// What an `OutputRabbitMQ` holds, as a mathematical value.
pub struct RabbitModel {
    pub input: Seq<char>,
    pub exchange: Seq<char>,
    pub routing_key: Seq<char>,
    pub url: Seq<char>,
    pub body: Seq<char>,
    pub exchange_options: Members,
    pub dry_run: bool,
}

impl View for OutputRabbitMQ {
    type V = RabbitModel;

    open spec fn view(&self) -> RabbitModel {
        RabbitModel {
            input: self.input@,
            exchange: self.exchange@,
            routing_key: self.routing_key@,
            url: self.url@,
            body: self.body@,
            exchange_options: object_model(self.exchange_options@),
            dry_run: self.dry_run,
        }
    }
}

/// The options of the exchange: the members of the object under
/// `exchange_options`, and none where the configuration holds no object there.
pub open spec fn options_of(config: DocumentModel) -> Members {
    match config.member("exchange_options"@) {
        Some(DocumentModel::Object(members)) => members,
        _ => Seq::empty(),
    }
}

/// Whether the run is dry: the boolean under `dry_run`, false where the
/// configuration has no such member, and nothing where the member is no boolean.
pub open spec fn dry_run_of(config: DocumentModel) -> Option<bool> {
    match config.member("dry_run"@) {
        None => Some(false),
        Some(DocumentModel::Bool(dry_run)) => Some(dry_run),
        Some(_) => None,
    }
}

/// The node that a configuration describes: the texts under `input`,
/// `exchange`, `routing_key`, `url` and `body`, the options of the exchange
/// and whether the run is dry; or the first of them that is missing.
pub open spec fn rabbit_config(config: DocumentModel) -> Result<RabbitModel, ErrorModel> {
    match text_member(config, "input"@) {
        None => Err(ErrorModel::MissingField("input"@)),
        Some(input) => match text_member(config, "exchange"@) {
            None => Err(ErrorModel::MissingField("exchange"@)),
            Some(exchange) => match text_member(config, "routing_key"@) {
                None => Err(ErrorModel::MissingField("routing_key"@)),
                Some(routing_key) => match text_member(config, "url"@) {
                    None => Err(ErrorModel::MissingField("url"@)),
                    Some(url) => match text_member(config, "body"@) {
                        None => Err(ErrorModel::MissingField("body"@)),
                        Some(body) => match dry_run_of(config) {
                            None => Err(ErrorModel::MissingField("dry_run"@)),
                            Some(dry_run) => Ok(
                                RabbitModel {
                                    input,
                                    exchange,
                                    routing_key,
                                    url,
                                    body,
                                    exchange_options: options_of(config),
                                    dry_run,
                                },
                            ),
                        },
                    },
                },
            },
        },
    }
}

/// An argument of a queue, in one of the forms that a queue takes.
#[derive(Debug)]
pub enum QueueArgument {
    LongString(String),
    LongLongInt(i64),
    Boolean(bool),
    Void,
}

/// What a `QueueArgument` holds, as a mathematical value.
pub enum ArgumentModel {
    LongString(Seq<char>),
    LongLongInt(i64),
    Boolean(bool),
    Void,
}

impl View for QueueArgument {
    type V = ArgumentModel;

    open spec fn view(&self) -> ArgumentModel {
        match self {
            QueueArgument::LongString(text) => ArgumentModel::LongString(text@),
            QueueArgument::LongLongInt(i) => ArgumentModel::LongLongInt(*i),
            QueueArgument::Boolean(b) => ArgumentModel::Boolean(*b),
            QueueArgument::Void => ArgumentModel::Void,
        }
    }
}

/// What named arguments hold.
pub open spec fn arguments_model(arguments: Seq<(String, QueueArgument)>) -> Seq<
    (Seq<char>, ArgumentModel),
> {
    arguments.map_values(|argument: (String, QueueArgument)| (argument.0@, argument.1@))
}

/// The argument that an option of the exchange gives: a string is a long
/// string, an integer of 64 bits a long integer, a boolean a boolean, and any
/// other document no value at all; but for a number that is no integer of 64
/// bits, which gives nothing.
pub open spec fn argument_of(option: DocumentModel) -> Option<ArgumentModel> {
    match option {
        DocumentModel::String(text) => Some(ArgumentModel::LongString(text)),
        DocumentModel::Int(i) => if i64::MIN <= i <= i64::MAX {
            Some(ArgumentModel::LongLongInt(i as i64))
        } else {
            None
        },
        DocumentModel::Float(_) => None,
        DocumentModel::Bool(b) => Some(ArgumentModel::Boolean(b)),
        _ => Some(ArgumentModel::Void),
    }
}

/// The arguments that the options of the exchange give, under their names.
/// The first option that gives nothing makes the configuration malformed.
pub open spec fn arguments_of(options: Members) -> Result<
    Seq<(Seq<char>, ArgumentModel)>,
    ErrorModel,
>
    decreases options.len(),
{
    if options.len() == 0 {
        Ok(Seq::empty())
    } else {
        match arguments_of(options.drop_last()) {
            Err(error) => Err(error),
            Ok(front) => match argument_of(options.last().1) {
                None => Err(ErrorModel::MalformedConfig),
                Some(argument) => Ok(front.push((options.last().0, argument))),
            },
        }
    }
}

proof fn lemma_arguments_of_failure(options: Members, n: int)
    requires
        0 <= n <= options.len(),
        arguments_of(options.take(n)) is Err,
    ensures
        arguments_of(options) == arguments_of(options.take(n)),
    decreases options.len() - n,
{
    if n < options.len() {
        assert(options.take(n + 1).drop_last() =~= options.take(n));
        lemma_arguments_of_failure(options, n + 1);
    } else {
        assert(options.take(n) =~= options);
    }
}

/// The argument that an option of the exchange gives.
pub fn queue_argument(option: &Document) -> (argument: Option<QueueArgument>)
    ensures
        match argument {
            Some(argument) => argument_of(option@) == Some(argument@),
            None => argument_of(option@) is None,
        },
{
    match option {
        Document::String(text) => Some(QueueArgument::LongString(text.clone())),
        Document::Int(i) => {
            if -0x8000_0000_0000_0000 <= *i && *i <= 0x7fff_ffff_ffff_ffff {
                Some(QueueArgument::LongLongInt(*i as i64))
            } else {
                None
            }
        },
        Document::Float(_) => None,
        Document::Bool(b) => Some(QueueArgument::Boolean(*b)),
        _ => Some(QueueArgument::Void),
    }
}

/// The text with every occurrence of `from` replaced by `to`: occurrences are
/// found from the left and do not overlap. An empty `from` replaces nothing.
pub open spec fn replaced(text: Seq<char>, from: Seq<char>, to: Seq<char>) -> Seq<char>
    decreases text.len(),
{
    if from.len() == 0 || text.len() < from.len() {
        text
    } else if text.take(from.len() as int) == from {
        to + replaced(text.skip(from.len() as int), from, to)
    } else {
        seq![text[0]] + replaced(text.skip(1), from, to)
    }
}

/// Calls `str::replace` of std: every match of `from` in the text, found
/// from the left and not overlapping, is replaced by `to`.
#[verifier::external_body]
fn replace_all(text: &str, from: &str, to: &str) -> (changed: String)
    requires
        from@.len() > 0,
    ensures
        changed@ == replaced(text@, from@, to@),
{
    text.replace(from, to)
}

/// The placeholder of a field: its name between double curly brackets.
pub open spec fn placeholder(name: Seq<char>) -> Seq<char> {
    "{{"@ + name + "}}"@
}

/// The message of a record: the body, with the placeholder of each field
/// replaced by the canonical text of its value, one field after the other.
pub open spec fn payload_of(body: Seq<char>, record: RecordModel) -> Seq<char>
    decreases record.len(),
{
    if record.len() == 0 {
        body
    } else {
        replaced(
            payload_of(body, record.drop_last()),
            placeholder(record.last().0),
            canonical_text(record.last().1),
        )
    }
}

/// The messages of the records, in their order.
pub open spec fn payloads_of(body: Seq<char>, records: Seq<RecordModel>) -> Seq<Seq<char>> {
    records.map_values(|record: RecordModel| payload_of(body, record))
}

/// The messages of the table that the node names. A table that is not
/// there fails.
pub open spec fn table_payloads(node: RabbitModel, tables: Seq<TableModel>) -> Result<
    Seq<Seq<char>>,
    ErrorModel,
> {
    match table_named(tables, node.input) {
        None => Err(ErrorModel::UnknownTable(node.input)),
        Some(table) => Ok(payloads_of(node.body, table.records)),
    }
}

/// The message of a record.
pub fn payload(body: &str, record: &Record) -> (message: String)
    ensures
        message@ == payload_of(body@, record@),
{
    let mut message = String::from_str(body);
    let mut i: usize = 0;
    proof {
        assert(record@.take(0) =~= Seq::empty());
    }
    while i < record.fields.len()
        invariant
            i <= record.fields@.len(),
            record@.len() == record.fields@.len(),
            message@ == payload_of(body@, record@.take(i as int)),
        decreases record.fields@.len() - i,
    {
        let mut mark = String::from_str("{{");
        mark.append(record.fields[i].0.as_str());
        mark.append("}}");
        let value = record.fields[i].1.display();
        proof {
            reveal_strlit("{{");
            let next = record@.take(i + 1);
            assert(next.drop_last() =~= record@.take(i as int));
            assert(next.last() == record@[i as int]);
        }
        message = replace_all(message.as_str(), mark.as_str(), value.as_str());
        i += 1;
    }
    proof {
        assert(record@.take(i as int) =~= record@);
    }
    message
}

impl OutputRabbitMQ {
    /// The arguments of the queue that the options of the exchange give.
    pub fn arguments(&self) -> (arguments: Result<Vec<(String, QueueArgument)>, PipelineError>)
        ensures
            match arguments {
                Ok(arguments) => arguments_of(self@.exchange_options) == Ok::<
                    Seq<(Seq<char>, ArgumentModel)>,
                    ErrorModel,
                >(arguments_model(arguments@)),
                Err(error) => arguments_of(self@.exchange_options) == Err::<
                    Seq<(Seq<char>, ArgumentModel)>,
                    ErrorModel,
                >(error@),
            },
    {
        let mut arguments: Vec<(String, QueueArgument)> = Vec::new();
        let mut i: usize = 0;
        let ghost options = object_model(self.exchange_options@);
        proof {
            assert(options.take(0) =~= Seq::empty());
            assert(arguments_model(arguments@) =~= Seq::empty());
        }
        while i < self.exchange_options.len()
            invariant
                i <= self.exchange_options@.len(),
                options == object_model(self.exchange_options@),
                arguments_of(options.take(i as int)) == Ok::<
                    Seq<(Seq<char>, ArgumentModel)>,
                    ErrorModel,
                >(arguments_model(arguments@)),
            decreases self.exchange_options@.len() - i,
        {
            proof {
                let next = options.take(i + 1);
                assert(next.drop_last() =~= options.take(i as int));
                assert(next.last() == (
                    self.exchange_options@[i as int].0@,
                    self.exchange_options@[i as int].1@,
                ));
            }
            match queue_argument(&self.exchange_options[i].1) {
                Some(argument) => {
                    let name = self.exchange_options[i].0.clone();
                    proof {
                        assert(arguments_model(arguments@.push((name, argument)))
                            =~= arguments_model(arguments@).push((name@, argument@)));
                    }
                    arguments.push((name, argument));
                },
                None => {
                    proof {
                        assert(arguments_of(options.take(i + 1)) is Err);
                        lemma_arguments_of_failure(options, i + 1);
                    }
                    return Err(PipelineError::MalformedConfig);
                },
            }
            i += 1;
        }
        proof {
            assert(options.take(i as int) =~= options);
        }
        Ok(arguments)
    }

    /// The messages of the records of the table that the node names.
    pub fn payloads(&self, state: &State) -> (messages: Result<Vec<String>, PipelineError>)
        ensures
            match messages {
                Ok(messages) => table_payloads(self@, state@.tables) == Ok::<
                    Seq<Seq<char>>,
                    ErrorModel,
                >(lines(messages@)),
                Err(error) => table_payloads(self@, state@.tables) == Err::<
                    Seq<Seq<char>>,
                    ErrorModel,
                >(error@),
            },
    {
        let table = match state.find_table(self.input.as_str()) {
            Some(table) => table,
            None => {
                return Err(PipelineError::UnknownTable(self.input.clone()));
            },
        };
        let mut messages: Vec<String> = Vec::new();
        let mut i: usize = 0;
        let ghost expected = payloads_of(self.body@, table@.records);
        while i < table.records.len()
            invariant
                i <= table.records@.len(),
                expected == payloads_of(self.body@, table@.records),
                lines(messages@) == expected.take(i as int),
            decreases table.records@.len() - i,
        {
            let message = payload(self.body.as_str(), &table.records[i]);
            proof {
                assert(lines(messages@).len() == i);
                assert(expected[i as int] == payload_of(self.body@, table.records@[i as int]@));
                assert(lines(messages@.push(message)) =~= lines(messages@).push(message@));
                assert(expected.take(i + 1) =~= expected.take(i as int).push(expected[i as int]));
            }
            messages.push(message);
            i += 1;
        }
        proof {
            assert(expected.take(i as int) =~= expected);
        }
        Ok(messages)
    }
}

/// What a run of the node comes to: nothing is written to the sink of
/// results, and the messages of the table are left to be published as the
/// node says, to a queue with the arguments that its options give.
pub open spec fn rabbit_run(node: RabbitModel, tables: Seq<TableModel>) -> Result<
    RunModel,
    ErrorModel,
> {
    match table_payloads(node, tables) {
        Err(error) => Err(error),
        Ok(payloads) => match arguments_of(node.exchange_options) {
            Err(error) => Err(error),
            Ok(arguments) => Ok(
                RunModel {
                    written: None,
                    action: ActionModel::Publish {
                        url: node.url,
                        exchange: node.exchange,
                        routing_key: node.routing_key,
                        arguments,
                        payloads,
                        dry_run: node.dry_run,
                    },
                },
            ),
        },
    }
}

impl OutputRabbitMQ {
    /// Registers this kind of node under the name of its driver, `output::rabbitmq`.
    pub fn register(factory: &mut Factory)
        ensures
            registry_model(final(factory).registry@) == inserted(
                registry_model(old(factory).registry@),
                "output::rabbitmq"@,
                Driver::OutputRabbitMQ,
            ),
            final(factory).templates == old(factory).templates,
    {
        factory.register_process(String::from_str("output::rabbitmq"), Driver::OutputRabbitMQ);
    }
}

impl Process for OutputRabbitMQ {
    /// The node that a configuration describes.
    fn from_config(node_name: String, config: &Document) -> (node: Result<
        OutputRabbitMQ,
        PipelineError,
    >)
        ensures
            match node {
                Ok(node) => rabbit_config(config@) == Ok::<RabbitModel, ErrorModel>(node@),
                Err(error) => rabbit_config(config@) == Err::<RabbitModel, ErrorModel>(error@),
            },
    {
        let exchange_options: Vec<(String, Document)> = match config.get("exchange_options") {
            Some(Document::Object(members)) => {
                proof {
                    lemma_object_view(*members);
                }
                copy_members(members)
            },
            _ => {
                let none: Vec<(String, Document)> = Vec::new();
                proof {
                    assert(object_model(none@) =~= Seq::empty());
                }
                none
            },
        };
        let input = match read_config_field(config, "input") {
            Ok(text) => text,
            Err(error) => {
                return Err(error);
            },
        };
        let exchange = match read_config_field(config, "exchange") {
            Ok(text) => text,
            Err(error) => {
                return Err(error);
            },
        };
        let routing_key = match read_config_field(config, "routing_key") {
            Ok(text) => text,
            Err(error) => {
                return Err(error);
            },
        };
        let url = match read_config_field(config, "url") {
            Ok(text) => text,
            Err(error) => {
                return Err(error);
            },
        };
        let body = match read_config_field(config, "body") {
            Ok(text) => text,
            Err(error) => {
                return Err(error);
            },
        };
        let dry_run = match config.get("dry_run") {
            None => false,
            Some(Document::Bool(dry_run)) => *dry_run,
            Some(_) => {
                return Err(PipelineError::MissingField(String::from_str("dry_run")));
            },
        };
        Ok(OutputRabbitMQ { input, exchange, routing_key, url, body, exchange_options, dry_run })
    }

    /// Hands out the messages of the records of the table, to be published
    /// as the node says. The state stays as it is.
    fn run(&self, state: &mut State) -> (done: Result<Action, PipelineError>)
        ensures
            final(state)@ == old(state)@,
            ran(
                rabbit_run(self@, old(state)@.tables),
                old(state).results_writer.held(),
                done,
                final(state).results_writer.held(),
            ),
    {
        proof {
            lemma_begins_with_itself(state@.tables);
        }
        let payloads = match self.payloads(state) {
            Ok(payloads) => payloads,
            Err(error) => {
                return Err(error);
            },
        };
        let arguments = match self.arguments() {
            Ok(arguments) => arguments,
            Err(error) => {
                return Err(error);
            },
        };
        Ok(
            Action::Publish {
                url: self.url.clone(),
                exchange: self.exchange.clone(),
                routing_key: self.routing_key.clone(),
                arguments,
                payloads,
                dry_run: self.dry_run,
            },
        )
    }
}

} // verus!
