//! The node that writes a table as SQL insert statements.

use crate::entries::inserted;
use crate::error::{ErrorModel, PipelineError};
use crate::state::data::{Record, RecordModel, TableModel};
use crate::state::document::{Document, DocumentModel};
use crate::state::factory::{
    ran,
    read_config_field,
    registry_model,
    text_member,
    Action,
    ActionModel,
    Driver,
    Factory,
    Process,
    RunModel,
};
use crate::state::state::{lemma_begins_with_itself, table_named, State};
use crate::state::variant::{canonical_text, VariantModel};
use crate::text::{
    is_stable_order,
    join,
    joined,
    lines,
    ordered_positions,
    positions,
    stable_order_of,
};
use vstd::prelude::*;

verus! {

/// The node that writes the records of a table as insert statements, one
/// row each, under a path.
#[derive(Debug)]
pub struct OutputSqlInserts {
    pub node_name: String,
    pub input: String,
    pub path: String,
    pub table_name: String,
}

/// What an `OutputSqlInserts` holds, as a mathematical value.
pub struct SqlInsertsModel {
    pub node_name: Seq<char>,
    pub input: Seq<char>,
    pub path: Seq<char>,
    pub table_name: Seq<char>,
}

impl View for OutputSqlInserts {
    type V = SqlInsertsModel;

    open spec fn view(&self) -> SqlInsertsModel {
        SqlInsertsModel {
            node_name: self.node_name@,
            input: self.input@,
            path: self.path@,
            table_name: self.table_name@,
        }
    }
}

/// The node that a configuration describes: the texts under `input`, `path`
/// and `table-name`, or the first of them that is missing.
pub open spec fn sql_inserts_config(node_name: Seq<char>, config: DocumentModel) -> Result<
    SqlInsertsModel,
    ErrorModel,
> {
    match text_member(config, "input"@) {
        None => Err(ErrorModel::MissingField("input"@)),
        Some(input) => match text_member(config, "path"@) {
            None => Err(ErrorModel::MissingField("path"@)),
            Some(path) => match text_member(config, "table-name"@) {
                None => Err(ErrorModel::MissingField("table-name"@)),
                Some(table_name) => Ok(SqlInsertsModel { node_name, input, path, table_name }),
            },
        },
    }
}

/// The names of the fields of a record, in the order of the fields.
pub open spec fn field_names(record: RecordModel) -> Seq<Seq<char>> {
    record.map_values(|field: (Seq<char>, VariantModel)| field.0)
}

/// The names of the fields in the order that `order` gives, each between backticks.
pub open spec fn quoted_names(record: RecordModel, order: Seq<int>) -> Seq<Seq<char>> {
    Seq::new(order.len(), |i: int| "`"@ + record[order[i]].0 + "`"@)
}

/// The canonical texts of the values of the fields in the order that `order` gives.
pub open spec fn value_texts(record: RecordModel, order: Seq<int>) -> Seq<Seq<char>> {
    Seq::new(order.len(), |i: int| canonical_text(record[order[i]].1))
}

/// The insert statement of a record: its fields by ascending name, the names
/// between backticks, the values as their canonical text, both joined by commas.
pub open spec fn insert_command(table_name: Seq<char>, record: RecordModel) -> Seq<char> {
    let order = stable_order_of(field_names(record));
    "insert into "@ + table_name + " ("@ + joined(quoted_names(record, order), ","@)
        + ") values ("@ + joined(value_texts(record, order), ","@) + ");"@
}

/// The insert statements of the records, in their order.
pub open spec fn insert_commands(table_name: Seq<char>, records: Seq<RecordModel>) -> Seq<
    Seq<char>,
> {
    records.map_values(|record: RecordModel| insert_command(table_name, record))
}

/// The rows that the node gives on the tables of a state. A table that is
/// not there fails the whole.
pub open spec fn sql_rows(node: SqlInsertsModel, tables: Seq<TableModel>) -> Result<
    Seq<Seq<char>>,
    ErrorModel,
> {
    match table_named(tables, node.input) {
        None => Err(ErrorModel::UnknownTable(node.input)),
        Some(table) => Ok(insert_commands(node.table_name, table.records)),
    }
}

/// The insert statement of a record into a table.
pub fn insert_statement(table_name: &str, record: &Record) -> (command: String)
    ensures
        command@ == insert_command(table_name@, record@),
{
    let mut names: Vec<String> = Vec::new();
    let mut i: usize = 0;
    while i < record.fields.len()
        invariant
            i <= record.fields@.len(),
            names@.len() == i,
            forall|k: int| 0 <= k < i ==> (#[trigger] names@[k])@ == record@[k].0,
        decreases record.fields@.len() - i,
    {
        names.push(record.fields[i].0.clone());
        i += 1;
    }
    proof {
        assert(lines(names@) =~= field_names(record@));
    }
    let order = ordered_positions(&names);
    let ghost places = positions(order@);
    let mut quoted: Vec<String> = Vec::new();
    let mut values: Vec<String> = Vec::new();
    let mut j: usize = 0;
    while j < order.len()
        invariant
            j <= order@.len(),
            places == positions(order@),
            is_stable_order(field_names(record@), places),
            record@.len() == record.fields@.len(),
            quoted@.len() == j,
            values@.len() == j,
            forall|k: int|
                0 <= k < j ==> (#[trigger] quoted@[k])@ == quoted_names(record@, places)[k],
            forall|k: int|
                0 <= k < j ==> (#[trigger] values@[k])@ == value_texts(record@, places)[k],
        decreases order@.len() - j,
    {
        let at: usize = order[j];
        proof {
            assert(places[j as int] == at);
            assert(0 <= places[j as int] < field_names(record@).len());
        }
        let mut name = String::from_str("`");
        name.append(record.fields[at].0.as_str());
        name.append("`");
        quoted.push(name);
        values.push(record.fields[at].1.display());
        j += 1;
    }
    proof {
        assert(lines(quoted@) =~= quoted_names(record@, places));
        assert(lines(values@) =~= value_texts(record@, places));
    }
    let mut command = String::from_str("insert into ");
    command.append(table_name);
    command.append(" (");
    command.append(join(&quoted, None).as_str());
    command.append(") values (");
    command.append(join(&values, None).as_str());
    command.append(");");
    command
}

impl OutputSqlInserts {
    /// The rows that this node gives on the tables of a state.
    pub fn evaluate(&self, state: &State) -> (rows: Result<Vec<String>, PipelineError>)
        ensures
            match rows {
                Ok(rows) => sql_rows(self@, state@.tables) == Ok::<Seq<Seq<char>>, ErrorModel>(
                    lines(rows@),
                ),
                Err(error) => sql_rows(self@, state@.tables) == Err::<Seq<Seq<char>>, ErrorModel>(
                    error@,
                ),
            },
    {
        let table = match state.find_table(self.input.as_str()) {
            Some(table) => table,
            None => {
                return Err(PipelineError::UnknownTable(self.input.clone()));
            },
        };
        let mut rows: Vec<String> = Vec::new();
        let mut i: usize = 0;
        let ghost expected = insert_commands(self.table_name@, table@.records);
        while i < table.records.len()
            invariant
                i <= table.records@.len(),
                expected == insert_commands(self.table_name@, table@.records),
                lines(rows@) == expected.take(i as int),
            decreases table.records@.len() - i,
        {
            let row = insert_statement(self.table_name.as_str(), &table.records[i]);
            proof {
                assert(lines(rows@).len() == i);
                assert(expected[i as int] == insert_command(
                    self.table_name@,
                    table.records@[i as int]@,
                ));
                assert(lines(rows@.push(row)) =~= lines(rows@).push(row@));
                assert(expected.take(i + 1) =~= expected.take(i as int).push(expected[i as int]));
            }
            rows.push(row);
            i += 1;
        }
        proof {
            assert(expected.take(i as int) =~= expected);
        }
        Ok(rows)
    }
}

/// What a run of the node comes to: the insert statements are written
/// under the path of the node, and nothing is left to do outside.
pub open spec fn sql_inserts_run(node: SqlInsertsModel, tables: Seq<TableModel>) -> Result<
    RunModel,
    ErrorModel,
> {
    match sql_rows(node, tables) {
        Ok(rows) => Ok(RunModel { written: Some((node.path, rows)), action: ActionModel::Done }),
        Err(error) => Err(error),
    }
}

impl OutputSqlInserts {
    /// Registers this kind of node under the name of its driver, `output::sql-inserts`.
    pub fn register(factory: &mut Factory)
        ensures
            registry_model(final(factory).registry@) == inserted(
                registry_model(old(factory).registry@),
                "output::sql-inserts"@,
                Driver::OutputSqlInserts,
            ),
            final(factory).templates == old(factory).templates,
    {
        factory.register_process(String::from_str("output::sql-inserts"), Driver::OutputSqlInserts);
    }
}

impl Process for OutputSqlInserts {
    /// The node that a configuration describes.
    fn from_config(node_name: String, config: &Document) -> (node: Result<
        OutputSqlInserts,
        PipelineError,
    >)
        ensures
            match node {
                Ok(node) => sql_inserts_config(node_name@, config@) == Ok::<
                    SqlInsertsModel,
                    ErrorModel,
                >(node@),
                Err(error) => sql_inserts_config(node_name@, config@) == Err::<
                    SqlInsertsModel,
                    ErrorModel,
                >(error@),
            },
    {
        let input = match read_config_field(config, "input") {
            Ok(text) => text,
            Err(error) => {
                return Err(error);
            },
        };
        let path = match read_config_field(config, "path") {
            Ok(text) => text,
            Err(error) => {
                return Err(error);
            },
        };
        let table_name = match read_config_field(config, "table-name") {
            Ok(text) => text,
            Err(error) => {
                return Err(error);
            },
        };
        Ok(OutputSqlInserts { node_name, input, path, table_name })
    }

    /// Writes the insert statements of the records of the table under the
    /// path of the node. A table that is not there ends the run before
    /// anything is written.
    fn run(&self, state: &mut State) -> (done: Result<Action, PipelineError>)
        ensures
            final(state)@ == old(state)@,
            ran(
                sql_inserts_run(self@, old(state)@.tables),
                old(state).results_writer.held(),
                done,
                final(state).results_writer.held(),
            ),
    {
        proof {
            lemma_begins_with_itself(state@.tables);
        }
        let rows = match self.evaluate(state) {
            Ok(rows) => rows,
            Err(error) => {
                return Err(error);
            },
        };
        state.write_file(self.path.as_str(), rows.as_slice());
        Ok(Action::Done)
    }
}

} // verus!
