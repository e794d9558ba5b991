//! The node that reads a table from a relational database.

use crate::entries::{distinct_keys, inserted, lemma_inserted_distinct};
use crate::error::{ErrorModel, PipelineError};
use crate::state::data::{
    lemma_push_well_formed,
    records_distinct,
    records_model,
    records_well_formed,
    Record,
    RecordModel,
    Table,
    TableModel,
};
use crate::state::document::{Document, DocumentModel};
use crate::state::factory::{
    ran,
    read_config_field,
    registry_model,
    text_member,
    Action,
    ActionModel,
    Driver,
    Factory,
    Process,
    RunModel,
};
use crate::state::state::{lemma_begins_with_itself, tables_model, State};
use crate::state::variant::{variant_of_relational, RelationalModel, RelationalValue, Variant};
use vstd::prelude::*;

verus! {

/// The node that runs a query on the database at a URL and reads the rows
/// into a table of its own name.
#[derive(Debug)]
pub struct InputMysql {
    pub node_name: String,
    pub url: String,
    pub query: String,
}

/// What an `InputMysql` holds, as a mathematical value.
pub struct InputMysqlModel {
    pub node_name: Seq<char>,
    pub url: Seq<char>,
    pub query: Seq<char>,
}

impl View for InputMysql {
    type V = InputMysqlModel;

    open spec fn view(&self) -> InputMysqlModel {
        InputMysqlModel { node_name: self.node_name@, url: self.url@, query: self.query@ }
    }
}

/// The node that a configuration describes: the texts under `url` and
/// `query`, or the first of them that is missing.
pub open spec fn input_mysql_config(node_name: Seq<char>, config: DocumentModel) -> Result<
    InputMysqlModel,
    ErrorModel,
> {
    match text_member(config, "url"@) {
        None => Err(ErrorModel::MissingField("url"@)),
        Some(url) => match text_member(config, "query"@) {
            None => Err(ErrorModel::MissingField("query"@)),
            Some(query) => Ok(InputMysqlModel { node_name, url, query }),
        },
    }
}

/// A row of a query: the columns, each a name and a value.
pub type RowModel = Seq<(Seq<char>, RelationalModel)>;

/// What the columns of a row hold.
pub open spec fn row_model(row: Seq<(String, RelationalValue)>) -> RowModel {
    row.map_values(|column: (String, RelationalValue)| (column.0@, column.1@))
}

/// What the rows of a query hold.
pub open spec fn rows_model(rows: Seq<Vec<(String, RelationalValue)>>) -> Seq<RowModel> {
    rows.map_values(|row: Vec<(String, RelationalValue)>| row_model(row@))
}

/// The record that a row describes: each column sets the field of its name,
/// the later of two columns of one name over the earlier. A column whose
/// value has no place among the kinds of values fails the whole.
pub open spec fn record_of_row(row: RowModel) -> Result<RecordModel, ErrorModel>
    decreases row.len(),
{
    if row.len() == 0 {
        Ok(Seq::empty())
    } else {
        match record_of_row(row.drop_last()) {
            Err(error) => Err(error),
            Ok(fields) => match variant_of_relational(row.last().1) {
                None => Err(ErrorModel::UnsupportedValueKind),
                Some(value) => Ok(inserted(fields, row.last().0, value)),
            },
        }
    }
}

/// The records that the rows describe, or the failure of the first row that
/// describes none.
pub open spec fn records_of_rows(rows: Seq<RowModel>) -> Result<Seq<RecordModel>, ErrorModel>
    decreases rows.len(),
{
    if rows.len() == 0 {
        Ok(Seq::empty())
    } else {
        match records_of_rows(rows.drop_last()) {
            Err(error) => Err(error),
            Ok(front) => match record_of_row(rows.last()) {
                Err(error) => Err(error),
                Ok(last) => Ok(front.push(last)),
            },
        }
    }
}

/// A record that a row describes has no name twice.
pub proof fn lemma_record_of_row_distinct(row: RowModel)
    ensures
        record_of_row(row) matches Ok(fields) ==> distinct_keys(fields),
    decreases row.len(),
{
    if row.len() > 0 {
        lemma_record_of_row_distinct(row.drop_last());
        if let Ok(fields) = record_of_row(row.drop_last()) {
            if let Some(value) = variant_of_relational(row.last().1) {
                lemma_inserted_distinct(fields, row.last().0, value);
            }
        }
    }
}

/// The records that rows describe have no name twice.
pub proof fn lemma_records_of_rows_distinct(rows: Seq<RowModel>)
    ensures
        records_of_rows(rows) matches Ok(records) ==> records_distinct(records),
    decreases rows.len(),
{
    if rows.len() > 0 {
        lemma_records_of_rows_distinct(rows.drop_last());
        lemma_record_of_row_distinct(rows.last());
        if let Ok(front) = records_of_rows(rows.drop_last()) {
            if let Ok(last) = record_of_row(rows.last()) {
                let records = front.push(last);
                assert forall|j: int| 0 <= j < records.len() implies distinct_keys(
                    #[trigger] records[j],
                ) by {
                    if j < front.len() {
                        assert(records[j] == front[j]);
                    }
                }
            }
        }
    }
}

proof fn lemma_record_of_row_failure(row: RowModel, n: int)
    requires
        0 <= n <= row.len(),
        record_of_row(row.take(n)) is Err,
    ensures
        record_of_row(row) == record_of_row(row.take(n)),
    decreases row.len() - n,
{
    if n < row.len() {
        assert(row.take(n + 1).drop_last() =~= row.take(n));
        lemma_record_of_row_failure(row, n + 1);
    } else {
        assert(row.take(n) =~= row);
    }
}

proof fn lemma_records_of_rows_failure(rows: Seq<RowModel>, n: int)
    requires
        0 <= n <= rows.len(),
        records_of_rows(rows.take(n)) is Err,
    ensures
        records_of_rows(rows) == records_of_rows(rows.take(n)),
    decreases rows.len() - n,
{
    if n < rows.len() {
        assert(rows.take(n + 1).drop_last() =~= rows.take(n));
        lemma_records_of_rows_failure(rows, n + 1);
    } else {
        assert(rows.take(n) =~= rows);
    }
}

/// The record that a row describes.
pub fn record_from_row(row: Vec<(String, RelationalValue)>) -> (record: Result<
    Record,
    PipelineError,
>)
    ensures
        match record {
            Ok(record) => record_of_row(row_model(row@)) == Ok::<RecordModel, ErrorModel>(record@)
                && record.wf(),
            Err(error) => record_of_row(row_model(row@)) == Err::<RecordModel, ErrorModel>(error@),
        },
{
    let mut record = Record::new();
    let ghost models = row_model(row@);
    let mut rest = row;
    proof {
        assert(models.take(0) =~= Seq::empty());
        assert(models.skip(0) =~= models);
        lemma_record_of_row_distinct(models);
    }
    while rest.len() > 0
        invariant
            models == row_model(row@),
            rest@.len() <= models.len(),
            row_model(rest@) == models.skip(models.len() - rest@.len()),
            record_of_row(models.take(models.len() - rest@.len())) == Ok::<RecordModel, ErrorModel>(
                record@,
            ),
        decreases rest@.len(),
    {
        let ghost done = models.len() - rest@.len();
        let ghost before = rest@;
        let column = rest.remove(0);
        proof {
            let next = models.take(done + 1);
            assert(next.drop_last() =~= models.take(done));
            assert(models.skip(done)[0] == models[done]);
            assert(row_model(before)[0] == (column.0@, column.1@));
            assert(next.last() == (column.0@, column.1@));
            assert(rest@ =~= before.skip(1));
            assert(row_model(before.skip(1)) =~= row_model(before).skip(1));
            assert(models.skip(done).skip(1) =~= models.skip(done + 1));
        }
        match Variant::from_mysql_value(column.1) {
            Ok(value) => {
                record.insert(column.0, value);
            },
            Err(error) => {
                proof {
                    assert(record_of_row(models.take(done + 1)) == Err::<RecordModel, ErrorModel>(
                        error@,
                    ));
                    lemma_record_of_row_failure(models, done + 1);
                }
                return Err(error);
            },
        }
    }
    proof {
        assert(models.take(models.len() as int) =~= models);
    }
    Ok(record)
}

impl InputMysql {
    /// Adds the table that the rows describe to the state, under the name of
    /// the node. Rows that describe no table leave the state as it is.
    pub fn load(&self, rows: Vec<Vec<(String, RelationalValue)>>, state: &mut State) -> (done:
        Result<(), PipelineError>)
        ensures
            final(state)@.plan == old(state)@.plan,
            records_well_formed(old(state)@.tables) ==> records_well_formed(final(state)@.tables),
            final(state).results_writer.held() == old(state).results_writer.held(),
            match records_of_rows(rows_model(rows@)) {
                Ok(records) => done is Ok && final(state)@.tables == old(state)@.tables.push(
                    TableModel { name: self.node_name@, records },
                ),
                Err(error) => (done matches Err(failure) && failure@ == error) && final(state)@
                    == old(state)@,
            },
    {
        let mut records: Vec<Record> = Vec::new();
        let ghost models = rows_model(rows@);
        let mut rest = rows;
        proof {
            assert(models.take(0) =~= Seq::empty());
            assert(models.skip(0) =~= models);
            assert(records_model(records@) =~= Seq::empty());
        }
        while rest.len() > 0
            invariant
                models == rows_model(rows@),
                state@ == old(state)@,
                state.results_writer.held() == old(state).results_writer.held(),
                rest@.len() <= models.len(),
                rows_model(rest@) == models.skip(models.len() - rest@.len()),
                records_of_rows(models.take(models.len() - rest@.len())) == Ok::<
                    Seq<RecordModel>,
                    ErrorModel,
                >(records_model(records@)),
            decreases rest@.len(),
        {
            let ghost done = models.len() - rest@.len();
            let ghost before = rest@;
            let row = rest.remove(0);
            proof {
                let next = models.take(done + 1);
                assert(next.drop_last() =~= models.take(done));
                assert(models.skip(done)[0] == models[done]);
                assert(rows_model(before)[0] == row_model(row@));
                assert(next.last() == row_model(row@));
                assert(rest@ =~= before.skip(1));
                assert(rows_model(before.skip(1)) =~= rows_model(before).skip(1));
                assert(models.skip(done).skip(1) =~= models.skip(done + 1));
            }
            match record_from_row(row) {
                Ok(record) => {
                    proof {
                        assert(records_model(records@.push(record)) =~= records_model(
                            records@,
                        ).push(record@));
                    }
                    records.push(record);
                },
                Err(error) => {
                    proof {
                        assert(records_of_rows(models.take(done + 1)) == Err::<
                            Seq<RecordModel>,
                            ErrorModel,
                        >(error@));
                        lemma_records_of_rows_failure(models, done + 1);
                    }
                    return Err(error);
                },
            }
        }
        proof {
            assert(models.take(models.len() as int) =~= models);
        }
        let table = Table { name: self.node_name.clone(), records };
        proof {
            assert(tables_model(state.tables@.push(table)) =~= tables_model(state.tables@).push(
                table@,
            ));
            lemma_records_of_rows_distinct(models);
            lemma_push_well_formed(state@.tables, table@);
        }
        state.tables.push(table);
        Ok(())
    }
}

/// What a run of the node comes to: nothing is written, and the query of
/// the node is left to be run on the database at its URL.
pub open spec fn input_mysql_run(node: InputMysqlModel, tables: Seq<TableModel>) -> Result<
    RunModel,
    ErrorModel,
> {
    Ok(
        RunModel {
            written: None,
            action: ActionModel::Query { url: node.url, query: node.query },
        },
    )
}

impl InputMysql {
    /// Registers this kind of node under the name of its driver, `input::mysql`.
    pub fn register(factory: &mut Factory)
        ensures
            registry_model(final(factory).registry@) == inserted(
                registry_model(old(factory).registry@),
                "input::mysql"@,
                Driver::InputMysql,
            ),
            final(factory).templates == old(factory).templates,
    {
        factory.register_process(String::from_str("input::mysql"), Driver::InputMysql);
    }
}

impl Process for InputMysql {
    /// The node that a configuration describes.
    fn from_config(node_name: String, config: &Document) -> (node: Result<
        InputMysql,
        PipelineError,
    >)
        ensures
            match node {
                Ok(node) => input_mysql_config(node_name@, config@) == Ok::<
                    InputMysqlModel,
                    ErrorModel,
                >(node@),
                Err(error) => input_mysql_config(node_name@, config@) == Err::<
                    InputMysqlModel,
                    ErrorModel,
                >(error@),
            },
    {
        let url = match read_config_field(config, "url") {
            Ok(text) => text,
            Err(error) => {
                return Err(error);
            },
        };
        let query = match read_config_field(config, "query") {
            Ok(text) => text,
            Err(error) => {
                return Err(error);
            },
        };
        Ok(InputMysql { node_name, url, query })
    }

    /// Asks for the rows of the query of the node; `load` takes them from
    /// there. The state stays as it is.
    fn run(&self, state: &mut State) -> (done: Result<Action, PipelineError>)
        ensures
            final(state)@ == old(state)@,
            ran(
                input_mysql_run(self@, old(state)@.tables),
                old(state).results_writer.held(),
                done,
                final(state).results_writer.held(),
            ),
    {
        proof {
            lemma_begins_with_itself(state@.tables);
        }
        Ok(Action::Query { url: self.url.clone(), query: self.query.clone() })
    }
}

} // verus!
