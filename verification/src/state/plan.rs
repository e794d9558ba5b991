//! The run of a plan, one entry at a time, and the checkpoint that lets a
//! run go on where an earlier one stopped.

use crate::entries::{distinct_keys, lookup};
use crate::error::{ErrorModel, PipelineError};
use crate::state::data::{
    documents_of_records,
    lemma_push_well_formed,
    lemma_records_round_trip,
    records_from_documents,
    records_of_documents,
    records_to_documents,
    records_well_formed,
    Table,
    TableModel,
};
use crate::state::document::{
    array_model,
    lemma_array_model_push,
    lemma_array_view,
    lemma_object_model_push,
    lemma_object_view,
    object_model,
    Document,
    DocumentModel,
};
use crate::state::factory::{
    created,
    node_run,
    ran,
    registry_model,
    Action,
    Factory,
    Members,
    Node,
};
use crate::state::state::{
    tables_model,
    InputReader,
    ResultsWriter,
    State,
    StateModel,
    Held,
};
use vstd::prelude::*;

verus! {

/// What one step of a run came to.
#[derive(Debug)]
pub enum Step {
    /// The plan is empty: the run is over.
    Finished,
    /// The entry at the front of the plan describes no node.
    Skipped,
    /// The node at the front of the plan ran; the action is what is left
    /// to do outside.
    Ran { node: Node, action: Action },
}

/// The configuration of a node in the pipeline document: the member of its
/// name, and null where the document has none.
pub open spec fn node_config(pipeline: DocumentModel, name: Seq<char>) -> DocumentModel {
    match pipeline.member(name) {
        Some(config) => config,
        None => DocumentModel::Null,
    }
}

/// Whether a step went as the plan, the factory and the pipeline document
/// say: on an empty plan the run is over; otherwise the node is built from
/// the name at the front of the plan and its configuration in the pipeline
/// document, and run, or skipped where the configuration describes no node.
pub open spec fn stepped(
    factory: Factory,
    pipeline: DocumentModel,
    before: StateModel,
    held_before: Held,
    step: Result<Step, PipelineError>,
    held_after: Held,
) -> bool {
    if before.plan.len() == 0 {
        step matches Ok(Step::Finished) && held_after == held_before
    } else {
        match created(
            registry_model(factory.registry@),
            object_model(factory.templates@),
            before.plan[0].0,
            node_config(pipeline, before.plan[0].0),
        ) {
            Err(error) => (step matches Err(failure) && failure@ == error) && held_after
                == held_before,
            Ok(None) => step matches Ok(Step::Skipped) && held_after == held_before,
            Ok(Some(node)) => match node_run(node, before.tables) {
                Err(error) => (step matches Err(failure) && failure@ == error) && held_after
                    == held_before,
                Ok(run) => (step matches Ok(Step::Ran { node: built, action }) && built@ == node
                    && action@ == run.action) && held_after == (match run.written {
                    Some(written) => held_before.insert(written.0, written.1),
                    None => held_before,
                }),
            },
        }
    }
}

/// Takes the step that the front of the plan asks for: builds its node, from
/// its configuration in the pipeline document as the document is now, and
/// runs it. The plan stays as it is: `finish_step` takes the entry off once
/// the work outside is done too.
pub fn run_next(state: &mut State, factory: &Factory, pipeline: &Document) -> (step: Result<
    Step,
    PipelineError,
>)
    ensures
        final(state)@ == old(state)@,
        stepped(
            *factory,
            pipeline@,
            old(state)@,
            old(state).results_writer.held(),
            step,
            final(state).results_writer.held(),
        ),
{
    if state.plan.len() == 0 {
        return Ok(Step::Finished);
    }
    let name = state.plan[0].0.clone();
    proof {
        assert(state@.plan[0].0 == name@);
    }
    let null = Document::Null;
    let config: &Document = match pipeline.get(name.as_str()) {
        Some(config) => config,
        None => &null,
    };
    let node = match factory.create_node(name, config) {
        Ok(Some(node)) => node,
        Ok(None) => {
            return Ok(Step::Skipped);
        },
        Err(error) => {
            return Err(error);
        },
    };
    match node.run(state) {
        Ok(action) => Ok(Step::Ran { node, action }),
        Err(error) => Err(error),
    }
}

impl State {
    /// Takes the entry at the front of the plan off, once its step is done.
    /// An empty plan stays empty.
    pub fn finish_step(&mut self)
        ensures
            final(self)@.tables == old(self)@.tables,
            final(self)@.plan == if old(self)@.plan.len() == 0 {
                old(self)@.plan
            } else {
                old(self)@.plan.skip(1)
            },
            final(self).results_writer == old(self).results_writer,
            final(self).input_reader == old(self).input_reader,
    {
        if self.plan.len() > 0 {
            let ghost before = self.plan@;
            let _ = self.plan.remove(0);
            proof {
                assert(self.plan@ =~= before.skip(1));
                assert(object_model(before.skip(1)) =~= object_model(before).skip(1));
            }
        }
    }
}

/// The tables that a run comes to: each name of the plan, from the front,
/// changes the tables by the effect of its node.
pub open spec fn run_plan(
    plan: Seq<Seq<char>>,
    tables: Seq<TableModel>,
    effect: spec_fn(Seq<char>, Seq<TableModel>) -> Seq<TableModel>,
) -> Seq<TableModel>
    decreases plan.len(),
{
    if plan.len() == 0 {
        tables
    } else {
        run_plan(plan.skip(1), effect(plan[0], tables), effect)
    }
}

/// A run that stops after some steps and goes on from there, with the tables
/// and the rest of the plan that it had, comes to the tables of a run that
/// never stopped: as long as each node does to given tables what it did before.
pub proof fn lemma_resume(
    plan: Seq<Seq<char>>,
    tables: Seq<TableModel>,
    effect: spec_fn(Seq<char>, Seq<TableModel>) -> Seq<TableModel>,
    steps: int,
)
    requires
        0 <= steps <= plan.len(),
    ensures
        run_plan(plan.skip(steps), run_plan(plan.take(steps), tables, effect), effect) == run_plan(
            plan,
            tables,
            effect,
        ),
    decreases steps,
{
    if steps == 0 {
        assert(plan.skip(0) =~= plan);
        assert(plan.take(0) =~= Seq::empty());
    } else {
        let rest = plan.skip(1);
        lemma_resume(rest, effect(plan[0], tables), effect, steps - 1);
        assert(rest.skip(steps - 1) =~= plan.skip(steps));
        assert(plan.take(steps).skip(1) =~= rest.take(steps - 1));
        assert(plan.take(steps)[0] == plan[0]);
    }
}

/// The document of a table in a checkpoint: its name and the documents of its records.
pub open spec fn document_of_table(table: TableModel) -> DocumentModel {
    DocumentModel::Object(
        seq![
            ("name"@, DocumentModel::String(table.name)),
            ("records"@, DocumentModel::Array(documents_of_records(table.records))),
        ],
    )
}

/// The table that a document of a checkpoint describes.
pub open spec fn table_of_document(document: DocumentModel) -> Result<TableModel, ErrorModel> {
    match document.member("name"@) {
        Some(DocumentModel::String(name)) => match document.member("records"@) {
            Some(DocumentModel::Array(items)) => match records_of_documents(items) {
                Ok(records) => Ok(TableModel { name, records }),
                Err(error) => Err(error),
            },
            _ => Err(ErrorModel::MalformedCheckpoint),
        },
        _ => Err(ErrorModel::MalformedCheckpoint),
    }
}

/// The documents of the tables of a list.
pub open spec fn documents_of_tables(tables: Seq<TableModel>) -> Seq<DocumentModel> {
    tables.map_values(|table: TableModel| document_of_table(table))
}

/// The tables that the documents of a list describe, or the failure of the
/// first document that describes none.
pub open spec fn tables_of_documents(items: Seq<DocumentModel>) -> Result<
    Seq<TableModel>,
    ErrorModel,
>
    decreases items.len(),
{
    if items.len() == 0 {
        Ok(Seq::empty())
    } else {
        match tables_of_documents(items.drop_last()) {
            Err(error) => Err(error),
            Ok(front) => match table_of_document(items.last()) {
                Err(error) => Err(error),
                Ok(last) => Ok(front.push(last)),
            },
        }
    }
}

/// The document of an entry of the plan in a checkpoint: the name and the
/// configuration, as a list of two.
pub open spec fn document_of_entry(entry: (Seq<char>, DocumentModel)) -> DocumentModel {
    DocumentModel::Array(seq![DocumentModel::String(entry.0), entry.1])
}

/// The entry of the plan that a document of a checkpoint describes.
pub open spec fn entry_of_document(document: DocumentModel) -> Result<
    (Seq<char>, DocumentModel),
    ErrorModel,
> {
    match document {
        DocumentModel::Array(items) => if items.len() == 2 {
            match items[0] {
                DocumentModel::String(name) => Ok((name, items[1])),
                _ => Err(ErrorModel::MalformedCheckpoint),
            }
        } else {
            Err(ErrorModel::MalformedCheckpoint)
        },
        _ => Err(ErrorModel::MalformedCheckpoint),
    }
}

/// The documents of the entries of a plan.
pub open spec fn documents_of_plan(plan: Members) -> Seq<DocumentModel> {
    plan.map_values(|entry: (Seq<char>, DocumentModel)| document_of_entry(entry))
}

/// The plan that the documents of a list describe, or the failure of the
/// first document that describes no entry.
pub open spec fn plan_of_documents(items: Seq<DocumentModel>) -> Result<Members, ErrorModel>
    decreases items.len(),
{
    if items.len() == 0 {
        Ok(Seq::empty())
    } else {
        match plan_of_documents(items.drop_last()) {
            Err(error) => Err(error),
            Ok(front) => match entry_of_document(items.last()) {
                Err(error) => Err(error),
                Ok(last) => Ok(front.push(last)),
            },
        }
    }
}

/// The checkpoint of a state: the documents of its tables and of its plan.
pub open spec fn document_of_state(state: StateModel) -> DocumentModel {
    DocumentModel::Object(
        seq![
            ("tables"@, DocumentModel::Array(documents_of_tables(state.tables))),
            ("plan"@, DocumentModel::Array(documents_of_plan(state.plan))),
        ],
    )
}

/// The state that a checkpoint describes.
pub open spec fn state_of_document(document: DocumentModel) -> Result<StateModel, ErrorModel> {
    match document.member("tables"@) {
        Some(DocumentModel::Array(tables)) => match document.member("plan"@) {
            Some(DocumentModel::Array(plan)) => match tables_of_documents(tables) {
                Err(error) => Err(error),
                Ok(tables) => match plan_of_documents(plan) {
                    Err(error) => Err(error),
                    Ok(plan) => Ok(StateModel { tables, plan }),
                },
            },
            _ => Err(ErrorModel::MalformedCheckpoint),
        },
        _ => Err(ErrorModel::MalformedCheckpoint),
    }
}

/// The two members of an object of two different keys are found under their keys.
proof fn lemma_two_members(
    first: Seq<char>,
    one: DocumentModel,
    second: Seq<char>,
    other: DocumentModel,
)
    requires
        first != second,
    ensures
        DocumentModel::Object(seq![(first, one), (second, other)]).member(first) == Some(one),
        DocumentModel::Object(seq![(first, one), (second, other)]).member(second) == Some(other),
{
    let members = seq![(first, one), (second, other)];
    assert(members[0] == (first, one));
    assert(members.skip(1)[0] == (second, other));
    assert(lookup(members.skip(1), second) == Some(other));
}

/// A table whose records have no name twice comes back from its document as it was.
pub proof fn lemma_table_round_trip(table: TableModel)
    requires
        forall|j: int| 0 <= j < table.records.len() ==> distinct_keys(#[trigger] table.records[j]),
    ensures
        table_of_document(document_of_table(table)) == Ok::<TableModel, ErrorModel>(table),
{
    reveal_strlit("name");
    reveal_strlit("records");
    assert("name"@ != "records"@) by {
        assert("name"@.len() != "records"@.len());
    }
    lemma_two_members(
        "name"@,
        DocumentModel::String(table.name),
        "records"@,
        DocumentModel::Array(documents_of_records(table.records)),
    );
    lemma_records_round_trip(table.records);
}

/// Tables whose records have no name twice come back from their documents as they were.
pub proof fn lemma_tables_round_trip(tables: Seq<TableModel>)
    requires
        records_well_formed(tables),
    ensures
        tables_of_documents(documents_of_tables(tables)) == Ok::<Seq<TableModel>, ErrorModel>(
            tables,
        ),
    decreases tables.len(),
{
    let items = documents_of_tables(tables);
    if tables.len() == 0 {
        assert(tables =~= Seq::empty());
    } else {
        let front = tables.drop_last();
        assert(items.drop_last() =~= documents_of_tables(front));
        assert(records_well_formed(front)) by {
            assert forall|i: int, j: int|
                0 <= i < front.len() && 0 <= j < front[i].records.len() implies distinct_keys(
                #[trigger] front[i].records[j],
            ) by {
                assert(front[i] == tables[i]);
            }
        }
        lemma_tables_round_trip(front);
        lemma_table_round_trip(tables.last());
        assert(front.push(tables.last()) =~= tables);
    }
}

/// A plan comes back from its documents as it was.
pub proof fn lemma_plan_round_trip(plan: Members)
    ensures
        plan_of_documents(documents_of_plan(plan)) == Ok::<Members, ErrorModel>(plan),
    decreases plan.len(),
{
    let items = documents_of_plan(plan);
    if plan.len() == 0 {
        assert(plan =~= Seq::empty());
    } else {
        let front = plan.drop_last();
        assert(items.drop_last() =~= documents_of_plan(front));
        lemma_plan_round_trip(front);
        assert(front.push(plan.last()) =~= plan);
    }
}

/// A state whose records have no name twice comes back from its checkpoint
/// as it was: the same tables and the same plan.
pub proof fn lemma_checkpoint_round_trip(state: StateModel)
    requires
        records_well_formed(state.tables),
    ensures
        state_of_document(document_of_state(state)) == Ok::<StateModel, ErrorModel>(state),
{
    reveal_strlit("tables");
    reveal_strlit("plan");
    assert("tables"@ != "plan"@) by {
        assert("tables"@.len() != "plan"@.len());
    }
    lemma_two_members(
        "tables"@,
        DocumentModel::Array(documents_of_tables(state.tables)),
        "plan"@,
        DocumentModel::Array(documents_of_plan(state.plan)),
    );
    lemma_tables_round_trip(state.tables);
    lemma_plan_round_trip(state.plan);
}

/// The names of the entries of a plan.
pub open spec fn plan_names(plan: Members) -> Seq<Seq<char>> {
    plan.map_values(|entry: (Seq<char>, DocumentModel)| entry.0)
}

/// A run that is stopped after some steps, and started again from the
/// checkpoint that was written then, comes to the tables of a run that never
/// stopped: as long as each node does to given tables what it did before, and
/// no record has a name twice.
pub proof fn lemma_resume_from_checkpoint(
    plan: Members,
    tables: Seq<TableModel>,
    effect: spec_fn(Seq<char>, Seq<TableModel>) -> Seq<TableModel>,
    steps: int,
)
    requires
        0 <= steps <= plan.len(),
        records_well_formed(run_plan(plan_names(plan).take(steps), tables, effect)),
    ensures
        ({
            let stopped = StateModel {
                tables: run_plan(plan_names(plan).take(steps), tables, effect),
                plan: plan.skip(steps),
            };
            let loaded = state_of_document(document_of_state(stopped));
            loaded is Ok && run_plan(
                plan_names(loaded->Ok_0.plan),
                loaded->Ok_0.tables,
                effect,
            ) == run_plan(plan_names(plan), tables, effect)
        }),
{
    let stopped = StateModel {
        tables: run_plan(plan_names(plan).take(steps), tables, effect),
        plan: plan.skip(steps),
    };
    lemma_checkpoint_round_trip(stopped);
    lemma_resume(plan_names(plan), tables, effect, steps);
    assert(plan_names(plan.skip(steps)) =~= plan_names(plan).skip(steps));
}

proof fn lemma_tables_of_documents_failure(items: Seq<DocumentModel>, n: int)
    requires
        0 <= n <= items.len(),
        tables_of_documents(items.take(n)) is Err,
    ensures
        tables_of_documents(items) == tables_of_documents(items.take(n)),
    decreases items.len() - n,
{
    if n < items.len() {
        assert(items.take(n + 1).drop_last() =~= items.take(n));
        lemma_tables_of_documents_failure(items, n + 1);
    } else {
        assert(items.take(n) =~= items);
    }
}

proof fn lemma_plan_of_documents_failure(items: Seq<DocumentModel>, n: int)
    requires
        0 <= n <= items.len(),
        plan_of_documents(items.take(n)) is Err,
    ensures
        plan_of_documents(items) == plan_of_documents(items.take(n)),
    decreases items.len() - n,
{
    if n < items.len() {
        assert(items.take(n + 1).drop_last() =~= items.take(n));
        lemma_plan_of_documents_failure(items, n + 1);
    } else {
        assert(items.take(n) =~= items);
    }
}

impl Table {
    /// The document of this table in a checkpoint.
    pub fn to_document(&self) -> (document: Document)
        ensures
            document@ == document_of_table(self@),
    {
        let records = records_to_documents(&self.records);
        let mut members: Vec<(String, Document)> = Vec::new();
        proof {
            lemma_array_view(records);
            assert(object_model(members@) =~= Seq::empty());
        }
        let name = (String::from_str("name"), Document::String(self.name.clone()));
        proof {
            lemma_object_model_push(members@, name);
        }
        members.push(name);
        let list = (String::from_str("records"), Document::Array(records));
        proof {
            lemma_object_model_push(members@, list);
        }
        members.push(list);
        proof {
            lemma_object_view(members);
            assert(object_model(members@) =~= document_of_table(self@)->Object_0);
        }
        Document::Object(members)
    }

    /// The table that a document of a checkpoint describes: an object with
    /// a `name` and a list of `records`.
    pub fn from_document(document: &Document) -> (table: Result<Table, PipelineError>)
        ensures
            match table {
                Ok(table) => table_of_document(document@) == Ok::<TableModel, ErrorModel>(table@)
                    && table.wf(),
                Err(error) => table_of_document(document@) == Err::<TableModel, ErrorModel>(
                    error@,
                ),
            },
    {
        let name = match document.get("name") {
            Some(Document::String(name)) => name.clone(),
            _ => {
                return Err(PipelineError::MalformedCheckpoint);
            },
        };
        let items = match document.get("records") {
            Some(Document::Array(items)) => {
                proof {
                    lemma_array_view(*items);
                }
                items
            },
            _ => {
                return Err(PipelineError::MalformedCheckpoint);
            },
        };
        match records_from_documents(items) {
            Ok(records) => Ok(Table { name, records }),
            Err(error) => Err(error),
        }
    }
}

/// The documents of the tables of a list.
fn tables_to_documents(tables: &Vec<Table>) -> (items: Vec<Document>)
    ensures
        array_model(items@) == documents_of_tables(tables_model(tables@)),
{
    let mut items: Vec<Document> = Vec::new();
    let mut i: usize = 0;
    let ghost expected = documents_of_tables(tables_model(tables@));
    while i < tables.len()
        invariant
            i <= tables@.len(),
            expected == documents_of_tables(tables_model(tables@)),
            array_model(items@) == expected.take(i as int),
        decreases tables@.len() - i,
    {
        let item = tables[i].to_document();
        proof {
            lemma_array_model_push(items@, item);
            assert(expected[i as int] == item@);
            assert(expected.take(i + 1) =~= expected.take(i as int).push(expected[i as int]));
        }
        items.push(item);
        i += 1;
    }
    proof {
        assert(expected.take(i as int) =~= expected);
    }
    items
}

/// The tables that the documents of a list describe.
fn tables_from_documents(items: &Vec<Document>) -> (tables: Result<Vec<Table>, PipelineError>)
    ensures
        match tables {
            Ok(tables) => tables_of_documents(array_model(items@)) == Ok::<
                Seq<TableModel>,
                ErrorModel,
            >(tables_model(tables@)) && records_well_formed(tables_model(tables@)),
            Err(error) => tables_of_documents(array_model(items@)) == Err::<
                Seq<TableModel>,
                ErrorModel,
            >(error@),
        },
{
    let mut tables: Vec<Table> = Vec::new();
    let mut i: usize = 0;
    let ghost models = array_model(items@);
    proof {
        assert(models.take(0) =~= Seq::empty());
        assert(tables_model(tables@) =~= Seq::empty());
    }
    while i < items.len()
        invariant
            i <= items@.len(),
            models == array_model(items@),
            tables_of_documents(models.take(i as int)) == Ok::<Seq<TableModel>, ErrorModel>(
                tables_model(tables@),
            ),
            records_well_formed(tables_model(tables@)),
        decreases items@.len() - i,
    {
        proof {
            let next = models.take(i + 1);
            assert(next.drop_last() =~= models.take(i as int));
            assert(next.last() == items@[i as int]@);
        }
        match Table::from_document(&items[i]) {
            Ok(table) => {
                proof {
                    assert(tables_model(tables@.push(table)) =~= tables_model(tables@).push(
                        table@,
                    ));
                    lemma_push_well_formed(tables_model(tables@), table@);
                }
                tables.push(table);
            },
            Err(error) => {
                proof {
                    assert(tables_of_documents(models.take(i + 1)) == Err::<
                        Seq<TableModel>,
                        ErrorModel,
                    >(error@));
                    lemma_tables_of_documents_failure(models, i + 1);
                }
                return Err(error);
            },
        }
        i += 1;
    }
    proof {
        assert(models.take(i as int) =~= models);
    }
    Ok(tables)
}

/// The documents of the entries of a plan.
fn plan_to_documents(plan: &Vec<(String, Document)>) -> (items: Vec<Document>)
    ensures
        array_model(items@) == documents_of_plan(object_model(plan@)),
{
    let mut items: Vec<Document> = Vec::new();
    let mut i: usize = 0;
    let ghost expected = documents_of_plan(object_model(plan@));
    while i < plan.len()
        invariant
            i <= plan@.len(),
            expected == documents_of_plan(object_model(plan@)),
            array_model(items@) == expected.take(i as int),
        decreases plan@.len() - i,
    {
        let mut pair: Vec<Document> = Vec::new();
        pair.push(Document::String(plan[i].0.clone()));
        pair.push(plan[i].1.clone());
        proof {
            lemma_array_view(pair);
            assert(array_model(pair@) =~= seq![
                DocumentModel::String(plan@[i as int].0@),
                plan@[i as int].1@,
            ]);
        }
        let item = Document::Array(pair);
        proof {
            lemma_array_model_push(items@, item);
            assert(expected[i as int] == item@);
            assert(expected.take(i + 1) =~= expected.take(i as int).push(expected[i as int]));
        }
        items.push(item);
        i += 1;
    }
    proof {
        assert(expected.take(i as int) =~= expected);
    }
    items
}

/// The entry of the plan that a document of a checkpoint describes.
fn entry_from_document(document: &Document) -> (entry: Result<(String, Document), PipelineError>)
    ensures
        match entry {
            Ok(entry) => entry_of_document(document@) == Ok::<
                (Seq<char>, DocumentModel),
                ErrorModel,
            >((entry.0@, entry.1@)),
            Err(error) => entry_of_document(document@) == Err::<
                (Seq<char>, DocumentModel),
                ErrorModel,
            >(error@),
        },
{
    let items = match document {
        Document::Array(items) => {
            proof {
                lemma_array_view(*items);
            }
            items
        },
        _ => {
            return Err(PipelineError::MalformedCheckpoint);
        },
    };
    if items.len() != 2 {
        return Err(PipelineError::MalformedCheckpoint);
    }
    match &items[0] {
        Document::String(name) => Ok((name.clone(), items[1].clone())),
        _ => Err(PipelineError::MalformedCheckpoint),
    }
}

/// The plan that the documents of a list describe.
fn plan_from_documents(items: &Vec<Document>) -> (plan: Result<
    Vec<(String, Document)>,
    PipelineError,
>)
    ensures
        match plan {
            Ok(plan) => plan_of_documents(array_model(items@)) == Ok::<Members, ErrorModel>(
                object_model(plan@),
            ),
            Err(error) => plan_of_documents(array_model(items@)) == Err::<Members, ErrorModel>(
                error@,
            ),
        },
{
    let mut plan: Vec<(String, Document)> = Vec::new();
    let mut i: usize = 0;
    let ghost models = array_model(items@);
    proof {
        assert(models.take(0) =~= Seq::empty());
        assert(object_model(plan@) =~= Seq::empty());
    }
    while i < items.len()
        invariant
            i <= items@.len(),
            models == array_model(items@),
            plan_of_documents(models.take(i as int)) == Ok::<Members, ErrorModel>(
                object_model(plan@),
            ),
        decreases items@.len() - i,
    {
        proof {
            let next = models.take(i + 1);
            assert(next.drop_last() =~= models.take(i as int));
            assert(next.last() == items@[i as int]@);
        }
        match entry_from_document(&items[i]) {
            Ok(entry) => {
                proof {
                    lemma_object_model_push(plan@, entry);
                }
                plan.push(entry);
            },
            Err(error) => {
                proof {
                    assert(plan_of_documents(models.take(i + 1)) == Err::<Members, ErrorModel>(
                        error@,
                    ));
                    lemma_plan_of_documents_failure(models, i + 1);
                }
                return Err(error);
            },
        }
        i += 1;
    }
    proof {
        assert(models.take(i as int) =~= models);
    }
    Ok(plan)
}

impl State {
    /// The checkpoint of this state: the documents of its tables and of
    /// what is left of its plan.
    pub fn to_document(&self) -> (document: Document)
        ensures
            document@ == document_of_state(self@),
    {
        let tables = tables_to_documents(&self.tables);
        let plan = plan_to_documents(&self.plan);
        let mut members: Vec<(String, Document)> = Vec::new();
        proof {
            lemma_array_view(tables);
            lemma_array_view(plan);
            assert(object_model(members@) =~= Seq::empty());
        }
        let first = (String::from_str("tables"), Document::Array(tables));
        proof {
            lemma_object_model_push(members@, first);
        }
        members.push(first);
        let second = (String::from_str("plan"), Document::Array(plan));
        proof {
            lemma_object_model_push(members@, second);
        }
        members.push(second);
        proof {
            lemma_object_view(members);
            assert(object_model(members@) =~= document_of_state(self@)->Object_0);
        }
        Document::Object(members)
    }

    /// The state that a checkpoint describes, with a sink of results and a
    /// source of inputs: it holds the tables and the plan of the checkpoint,
    /// so that a run goes on at the first entry that was left.
    pub fn from_document(
        document: &Document,
        results_writer: Box<dyn ResultsWriter>,
        input_reader: Box<dyn InputReader>,
    ) -> (loaded: Result<State, PipelineError>)
        ensures
            match loaded {
                Ok(state) => state_of_document(document@) == Ok::<StateModel, ErrorModel>(state@)
                    && records_well_formed(state@.tables)
                    && state.results_writer == results_writer && state.input_reader
                    == input_reader,
                Err(error) => state_of_document(document@) == Err::<StateModel, ErrorModel>(
                    error@,
                ),
            },
    {
        let table_items = match document.get("tables") {
            Some(Document::Array(items)) => {
                proof {
                    lemma_array_view(*items);
                }
                items
            },
            _ => {
                return Err(PipelineError::MalformedCheckpoint);
            },
        };
        let plan_items = match document.get("plan") {
            Some(Document::Array(items)) => {
                proof {
                    lemma_array_view(*items);
                }
                items
            },
            _ => {
                return Err(PipelineError::MalformedCheckpoint);
            },
        };
        let tables = match tables_from_documents(table_items) {
            Ok(tables) => tables,
            Err(error) => {
                return Err(error);
            },
        };
        let plan = match plan_from_documents(plan_items) {
            Ok(plan) => plan,
            Err(error) => {
                return Err(error);
            },
        };
        let state = State { tables, plan, results_writer, input_reader };
        Ok(state)
    }
}

} // verus!
