//! The node that writes a table as a document.

use crate::entries::inserted;
use crate::error::{ErrorModel, PipelineError};
use crate::state::data::{documents_of_records, records_to_documents, TableModel};
use crate::state::document::{lemma_array_view, Document, DocumentModel};
use crate::state::factory::{
    ran,
    read_config_field,
    registry_model,
    text_member,
    Action,
    ActionModel,
    Driver,
    Factory,
    Process,
    RunModel,
};
use crate::state::state::{lemma_begins_with_itself, table_named, State};
use vstd::prelude::*;

verus! {

/// The node that hands out the records of a table as one document, a list of
/// objects, to be written under a path.
#[derive(Debug)]
pub struct OutputJson {
    pub input: String,
    pub path: String,
}

/// What an `OutputJson` holds, as a mathematical value.
pub struct OutputJsonModel {
    pub input: Seq<char>,
    pub path: Seq<char>,
}

impl View for OutputJson {
    type V = OutputJsonModel;

    open spec fn view(&self) -> OutputJsonModel {
        OutputJsonModel { input: self.input@, path: self.path@ }
    }
}

/// The node that a configuration describes: the texts under `input` and
/// `path`, or the first of them that is missing.
pub open spec fn output_json_config(config: DocumentModel) -> Result<OutputJsonModel, ErrorModel> {
    match text_member(config, "input"@) {
        None => Err(ErrorModel::MissingField("input"@)),
        Some(input) => match text_member(config, "path"@) {
            None => Err(ErrorModel::MissingField("path"@)),
            Some(path) => Ok(OutputJsonModel { input, path }),
        },
    }
}

/// The document of the records of the table that the node names. A table
/// that is not there fails.
pub open spec fn table_document(node: OutputJsonModel, tables: Seq<TableModel>) -> Result<
    DocumentModel,
    ErrorModel,
> {
    match table_named(tables, node.input) {
        None => Err(ErrorModel::UnknownTable(node.input)),
        Some(table) => Ok(DocumentModel::Array(documents_of_records(table.records))),
    }
}

/// What a run of the node comes to: nothing is written to the sink of
/// results, and the document of the table is left to be written under the
/// path of the node.
pub open spec fn output_json_run(node: OutputJsonModel, tables: Seq<TableModel>) -> Result<
    RunModel,
    ErrorModel,
> {
    match table_document(node, tables) {
        Ok(document) => Ok(
            RunModel {
                written: None,
                action: ActionModel::WriteDocument { path: node.path, document },
            },
        ),
        Err(error) => Err(error),
    }
}

impl OutputJson {
    /// Registers this kind of node under the name of its driver, `output::json`.
    pub fn register(factory: &mut Factory)
        ensures
            registry_model(final(factory).registry@) == inserted(
                registry_model(old(factory).registry@),
                "output::json"@,
                Driver::OutputJson,
            ),
            final(factory).templates == old(factory).templates,
    {
        factory.register_process(String::from_str("output::json"), Driver::OutputJson);
    }
}

impl Process for OutputJson {
    /// The node that a configuration describes.
    fn from_config(node_name: String, config: &Document) -> (node: Result<
        OutputJson,
        PipelineError,
    >)
        ensures
            match node {
                Ok(node) => output_json_config(config@) == Ok::<OutputJsonModel, ErrorModel>(node@),
                Err(error) => output_json_config(config@) == Err::<OutputJsonModel, ErrorModel>(
                    error@,
                ),
            },
    {
        let input = match read_config_field(config, "input") {
            Ok(text) => text,
            Err(error) => {
                return Err(error);
            },
        };
        let path = match read_config_field(config, "path") {
            Ok(text) => text,
            Err(error) => {
                return Err(error);
            },
        };
        Ok(OutputJson { input, path })
    }

    /// Hands out the document of the table, to be written under the path of
    /// the node. The state stays as it is.
    fn run(&self, state: &mut State) -> (done: Result<Action, PipelineError>)
        ensures
            final(state)@ == old(state)@,
            ran(
                output_json_run(self@, old(state)@.tables),
                old(state).results_writer.held(),
                done,
                final(state).results_writer.held(),
            ),
    {
        proof {
            lemma_begins_with_itself(state@.tables);
        }
        let table = match state.find_table(self.input.as_str()) {
            Some(table) => table,
            None => {
                return Err(PipelineError::UnknownTable(self.input.clone()));
            },
        };
        let items = records_to_documents(&table.records);
        proof {
            lemma_array_view(items);
        }
        Ok(Action::WriteDocument { path: self.path.clone(), document: Document::Array(items) })
    }
}

} // verus!
