//! The node that reads a table from a document.

use crate::entries::inserted;
use crate::error::{ErrorModel, PipelineError};
use crate::state::data::{
    lemma_push_well_formed,
    records_from_documents,
    records_of_documents,
    records_well_formed,
    Table,
    TableModel,
};
use crate::state::document::{lemma_array_view, Document, DocumentModel};
use crate::state::factory::{
    ran,
    read_config_field,
    registry_model,
    text_member,
    Action,
    ActionModel,
    Driver,
    Factory,
    Process,
    RunModel,
};
use crate::state::state::{lemma_begins_with_itself, tables_model, State};
use vstd::prelude::*;

verus! {

/// The node that reads the document under a path, a list of objects, into a
/// table of its own name.
#[derive(Debug)]
pub struct InputJson {
    pub node_name: String,
    pub path: String,
}

/// What an `InputJson` holds, as a mathematical value.
pub struct InputJsonModel {
    pub node_name: Seq<char>,
    pub path: Seq<char>,
}

impl View for InputJson {
    type V = InputJsonModel;

    open spec fn view(&self) -> InputJsonModel {
        InputJsonModel { node_name: self.node_name@, path: self.path@ }
    }
}

/// The node that a configuration describes: the text under `path`.
pub open spec fn input_json_config(node_name: Seq<char>, config: DocumentModel) -> Result<
    InputJsonModel,
    ErrorModel,
> {
    match text_member(config, "path"@) {
        None => Err(ErrorModel::MissingField("path"@)),
        Some(path) => Ok(InputJsonModel { node_name, path }),
    }
}

/// The table of a name that a document describes: a list of objects whose
/// members are null, strings or numbers, each object a record.
pub open spec fn table_of_document(name: Seq<char>, document: DocumentModel) -> Result<
    TableModel,
    ErrorModel,
> {
    match document {
        DocumentModel::Array(items) => match records_of_documents(items) {
            Ok(records) => Ok(TableModel { name, records }),
            Err(error) => Err(error),
        },
        _ => Err(ErrorModel::MalformedData),
    }
}

/// The table of a name that a document describes.
pub fn table_from_document(name: String, document: &Document) -> (table: Result<
    Table,
    PipelineError,
>)
    ensures
        match table {
            Ok(table) => table_of_document(name@, document@) == Ok::<TableModel, ErrorModel>(
                table@,
            ) && table.wf(),
            Err(error) => table_of_document(name@, document@) == Err::<TableModel, ErrorModel>(
                error@,
            ),
        },
{
    let items = match document {
        Document::Array(items) => {
            proof {
                lemma_array_view(*items);
            }
            items
        },
        _ => {
            return Err(PipelineError::MalformedData);
        },
    };
    match records_from_documents(items) {
        Ok(records) => Ok(Table { name, records }),
        Err(error) => Err(error),
    }
}

/// The table that a document describes, under the name `ExampleTable`.
pub fn read_file(document: &Document) -> (table: Result<Table, PipelineError>)
    ensures
        match table {
            Ok(table) => table_of_document("ExampleTable"@, document@) == Ok::<
                TableModel,
                ErrorModel,
            >(table@) && table.wf(),
            Err(error) => table_of_document("ExampleTable"@, document@) == Err::<
                TableModel,
                ErrorModel,
            >(error@),
        },
{
    table_from_document(String::from_str("ExampleTable"), document)
}

impl InputJson {
    /// Adds the table that the document describes to the state, under the
    /// name of the node. A document that describes no table leaves the state
    /// as it is.
    pub fn load(&self, document: &Document, state: &mut State) -> (done: Result<(), PipelineError>)
        ensures
            final(state)@.plan == old(state)@.plan,
            records_well_formed(old(state)@.tables) ==> records_well_formed(final(state)@.tables),
            final(state).results_writer.held() == old(state).results_writer.held(),
            match table_of_document(self.node_name@, document@) {
                Ok(table) => done is Ok && final(state)@.tables == old(state)@.tables.push(table),
                Err(error) => (done matches Err(failure) && failure@ == error) && final(state)@
                    == old(state)@,
            },
    {
        let table = match table_from_document(self.node_name.clone(), document) {
            Ok(table) => table,
            Err(error) => {
                return Err(error);
            },
        };
        proof {
            assert(tables_model(state.tables@.push(table)) =~= tables_model(state.tables@).push(
                table@,
            ));
            lemma_push_well_formed(state@.tables, table@);
        }
        state.tables.push(table);
        Ok(())
    }
}

/// What a run of the node comes to: nothing is written, and the document
/// under the path of the node is left to be read.
pub open spec fn input_json_run(node: InputJsonModel, tables: Seq<TableModel>) -> Result<
    RunModel,
    ErrorModel,
> {
    Ok(RunModel { written: None, action: ActionModel::ReadDocument { path: node.path } })
}

impl InputJson {
    /// Registers this kind of node under the name of its driver, `input::json`.
    pub fn register(factory: &mut Factory)
        ensures
            registry_model(final(factory).registry@) == inserted(
                registry_model(old(factory).registry@),
                "input::json"@,
                Driver::InputJson,
            ),
            final(factory).templates == old(factory).templates,
    {
        factory.register_process(String::from_str("input::json"), Driver::InputJson);
    }
}

impl Process for InputJson {
    /// The node that a configuration describes.
    fn from_config(node_name: String, config: &Document) -> (node: Result<InputJson, PipelineError>)
        ensures
            match node {
                Ok(node) => input_json_config(node_name@, config@) == Ok::<
                    InputJsonModel,
                    ErrorModel,
                >(node@),
                Err(error) => input_json_config(node_name@, config@) == Err::<
                    InputJsonModel,
                    ErrorModel,
                >(error@),
            },
    {
        let path = match read_config_field(config, "path") {
            Ok(text) => text,
            Err(error) => {
                return Err(error);
            },
        };
        Ok(InputJson { node_name, path })
    }

    /// Asks for the document under the path of the node; `load` takes it
    /// from there. The state stays as it is.
    fn run(&self, state: &mut State) -> (done: Result<Action, PipelineError>)
        ensures
            final(state)@ == old(state)@,
            ran(
                input_json_run(self@, old(state)@.tables),
                old(state).results_writer.held(),
                done,
                final(state).results_writer.held(),
            ),
    {
        proof {
            lemma_begins_with_itself(state@.tables);
        }
        Ok(Action::ReadDocument { path: self.path.clone() })
    }
}

} // verus!
