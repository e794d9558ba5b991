//! The state of a run: the tables made so far and the plan of what is left,
//! with the sink that results go to and the source that inputs come from.

use crate::entries::{
    entries_map,
    find_entry,
    lemma_entries_map_inserted,
    lemma_inserted_at,
    lemma_lookup_first,
    lookup,
};
use crate::error::PipelineError;
use crate::state::config::Config;
use crate::state::data::{Table, TableModel};
use crate::state::document::{copy_members, object_model, Document, DocumentModel};
use crate::text::{lines, text_equal};
use vstd::prelude::*;

verus! {

/// What a sink holds: under each name the rows that were written there last.
pub type Held = Map<Seq<char>, Seq<Seq<char>>>;

/// A sink for results: rows written under a name replace what the name
/// held. Where the rows are kept is the sink's own affair: a file, a list in
/// memory. A sink that is written outside this library answers for `write`
/// itself: nothing here holds its code to the contract.
pub trait ResultsWriter {
    /// What the sink holds under each name.
    spec fn held(&self) -> Held;

    /// Writes the rows under the name, in place of what was there.
    fn write(&mut self, name: &str, rows: &[String])
        ensures
            final(self).held() == old(self).held().insert(name@, lines(rows@)),
    ;

    /// The rows under the name, where the sink keeps them in memory. A sink
    /// that says nothing else of itself shows none.
    fn test_peek(&self, name: &str) -> (rows: Option<&Vec<String>>)
        ensures
            rows matches Some(kept) ==> self.held().dom().contains(name@) && self.held()[name@]
                == lines(kept@),
        default_ensures
            rows is None,
    {
        None
    }
}

/// A source of inputs: the rows that stand under a name.
pub trait InputReader {
    /// Whether `rows` is an answer of this source to a reading of `name`. A
    /// source that says nothing of itself, such as one that reads files, may
    /// answer anything.
    open spec fn gives(&self, name: Seq<char>, rows: Result<Vec<String>, PipelineError>) -> bool {
        true
    }

    /// The rows under the name; a name that the source does not hold is refused.
    fn read(&self, name: &str) -> (rows: Result<Vec<String>, PipelineError>)
        ensures
            self.gives(name@, rows),
    ;
}

/// What named lists of rows hold.
pub open spec fn files_model(files: Seq<(String, Vec<String>)>) -> Seq<
    (Seq<char>, Seq<Seq<char>>),
> {
    files.map_values(|file: (String, Vec<String>)| (file.0@, lines(file.1@)))
}

/// A copy of the rows.
pub fn copy_rows(rows: &[String]) -> (copy: Vec<String>)
    ensures
        lines(copy@) == lines(rows@),
{
    let mut copy: Vec<String> = Vec::new();
    let mut i: usize = 0;
    while i < rows.len()
        invariant
            i <= rows@.len(),
            copy@.len() == i,
            forall|k: int| 0 <= k < i ==> (#[trigger] copy@[k])@ == rows@[k]@,
        decreases rows@.len() - i,
    {
        copy.push(rows[i].clone());
        i += 1;
    }
    proof {
        assert(lines(copy@) =~= lines(rows@));
    }
    copy
}

/// A sink that keeps what is written in memory.
#[derive(Debug)]
pub struct MemoryWriter {
    pub results: Vec<(String, Vec<String>)>,
}

impl MemoryWriter {
    /// What the sink holds under each name.
    pub open spec fn written(&self) -> Held {
        entries_map(files_model(self.results@))
    }

    /// A sink that holds nothing yet.
    pub fn new() -> (writer: MemoryWriter)
        ensures
            writer.written() == Map::<Seq<char>, Seq<Seq<char>>>::empty(),
    {
        let writer = MemoryWriter { results: Vec::new() };
        proof {
            assert(files_model(writer.results@) =~= Seq::empty());
            assert(writer.written() =~= Map::<Seq<char>, Seq<Seq<char>>>::empty());
        }
        writer
    }
}

impl ResultsWriter for MemoryWriter {
    /// A sink in memory holds what its list of results holds.
    open spec fn held(&self) -> Held {
        self.written()
    }

    /// Keeps a copy of the rows under the name, in place of what was there.
    fn write(&mut self, name: &str, rows: &[String]) {
        let at = find_entry(&self.results, name);
        let copy = copy_rows(rows);
        let ghost before = files_model(self.results@);
        proof {
            assert forall|j: int| 0 <= j < at implies (#[trigger] before[j]).0 != name@ by {
                assert(before[j].0 == self.results@[j].0@);
            }
            lemma_inserted_at(before, name@, lines(rows@), at as int);
            lemma_entries_map_inserted(before, name@, lines(rows@));
        }
        if at < self.results.len() {
            self.results.set(at, (String::from_str(name), copy));
            proof {
                assert(files_model(self.results@) =~= before.update(
                    at as int,
                    (name@, lines(rows@)),
                ));
            }
        } else {
            self.results.push((String::from_str(name), copy));
            proof {
                assert(files_model(self.results@) =~= before.push((name@, lines(rows@))));
            }
        }
    }

    /// The rows that the sink holds under the name.
    fn test_peek(&self, name: &str) -> (rows: Option<&Vec<String>>)
        ensures
            match rows {
                Some(kept) => self.written().dom().contains(name@) && self.written()[name@]
                    == lines(kept@),
                None => !self.written().dom().contains(name@),
            },
    {
        let at = find_entry(&self.results, name);
        proof {
            let held = files_model(self.results@);
            assert forall|j: int| 0 <= j < at implies (#[trigger] held[j]).0 != name@ by {
                assert(held[j].0 == self.results@[j].0@);
            }
            lemma_lookup_first(held, name@, at as int);
        }
        if at < self.results.len() {
            Some(&self.results[at].1)
        } else {
            None
        }
    }
}

/// A source that holds its files in memory.
#[derive(Debug)]
pub struct MemoryReader {
    pub files: Vec<(String, Vec<String>)>,
}

impl MemoryReader {
    /// What the source holds under each name.
    pub open spec fn files(&self) -> Map<Seq<char>, Seq<Seq<char>>> {
        entries_map(files_model(self.files@))
    }

    /// A source that holds no file.
    pub fn new() -> (reader: MemoryReader)
        ensures
            reader.files() == Map::<Seq<char>, Seq<Seq<char>>>::empty(),
    {
        let reader = MemoryReader { files: Vec::new() };
        proof {
            assert(files_model(reader.files@) =~= Seq::empty());
            assert(reader.files() =~= Map::<Seq<char>, Seq<Seq<char>>>::empty());
        }
        reader
    }
}

impl InputReader for MemoryReader {
    /// The answer of a source in memory: the rows that it holds under the
    /// name, and a refusal where it holds none.
    open spec fn gives(&self, name: Seq<char>, rows: Result<Vec<String>, PipelineError>) -> bool {
        match rows {
            Ok(rows) => self.files().dom().contains(name) && self.files()[name] == lines(rows@),
            Err(error) => !self.files().dom().contains(name) && error
                == PipelineError::MissingInput,
        }
    }

    /// A copy of the rows that the source holds under the name.
    fn read(&self, name: &str) -> (rows: Result<Vec<String>, PipelineError>) {
        let at = find_entry(&self.files, name);
        proof {
            let held = files_model(self.files@);
            assert forall|j: int| 0 <= j < at implies (#[trigger] held[j]).0 != name@ by {
                assert(held[j].0 == self.files@[j].0@);
            }
            lemma_lookup_first(held, name@, at as int);
        }
        if at < self.files.len() {
            Ok(copy_rows(self.files[at].1.as_slice()))
        } else {
            Err(PipelineError::MissingInput)
        }
    }
}

/// What the tables of a list hold.
pub open spec fn tables_model(tables: Seq<Table>) -> Seq<TableModel> {
    tables.map_values(|table: Table| table@)
}

/// The tables as entries under their names.
pub open spec fn named_tables(tables: Seq<TableModel>) -> Seq<(Seq<char>, TableModel)> {
    tables.map_values(|table: TableModel| (table.name, table))
}

/// The first table of this name, if there is one.
pub open spec fn table_named(tables: Seq<TableModel>, name: Seq<char>) -> Option<TableModel> {
    lookup(named_tables(tables), name)
}

/// Whether `head` is the beginning of `whole`.
pub open spec fn begins_with<T>(whole: Seq<T>, head: Seq<T>) -> bool {
    head.len() <= whole.len() && whole.take(head.len() as int) == head
}

/// A list begins with itself.
pub proof fn lemma_begins_with_itself<T>(whole: Seq<T>)
    ensures
        begins_with(whole, whole),
{
    assert(whole.take(whole.len() as int) =~= whole);
}

/// The state of a run. Nodes append tables and never take one away; the plan
/// holds the nodes that are left, the next one first. The sink of results and
/// the source of inputs are trait objects unless a caller chooses otherwise.
pub struct State<W = Box<dyn ResultsWriter>, R = Box<dyn InputReader>> {
    pub tables: Vec<Table>,
    pub plan: Vec<(String, Document)>,
    pub results_writer: W,
    pub input_reader: R,
}

/// What a `State` holds of tables and plan, as a mathematical value: what a
/// checkpoint keeps. What the sink of a state holds is `results_writer.held()`.
pub struct StateModel {
    pub tables: Seq<TableModel>,
    pub plan: Seq<(Seq<char>, DocumentModel)>,
}

impl View for State {
    type V = StateModel;

    open spec fn view(&self) -> StateModel {
        StateModel { tables: tables_model(self.tables@), plan: object_model(self.plan@) }
    }
}

impl State {
    /// A state without tables and with an empty plan.
    pub fn new(
        results_writer: Box<dyn ResultsWriter>,
        input_reader: Box<dyn InputReader>,
    ) -> (state: State)
        ensures
            state@.tables == Seq::<TableModel>::empty(),
            state@.plan == Seq::<(Seq<char>, DocumentModel)>::empty(),
            state.results_writer == results_writer,
            state.input_reader == input_reader,
    {
        let tables: Vec<Table> = Vec::new();
        let plan: Vec<(String, Document)> = Vec::new();
        let state = State { tables, plan, results_writer, input_reader };
        proof {
            assert(state@.tables =~= Seq::<TableModel>::empty());
            assert(state@.plan =~= Seq::<(Seq<char>, DocumentModel)>::empty());
        }
        state
    }

    /// The state at the start of a run without checkpoint: no tables, and as
    /// plan every member of the pipeline document, in the document's order.
    /// A pipeline document that is no object is refused.
    pub fn make(
        config: &Config,
        pipeline: &Document,
        results_writer: Box<dyn ResultsWriter>,
        input_reader: Box<dyn InputReader>,
    ) -> (made: Result<State, PipelineError>)
        ensures
            match made {
                Ok(state) => pipeline@ == DocumentModel::Object(state@.plan) && state@.tables
                    == Seq::<TableModel>::empty() && state.results_writer == results_writer
                    && state.input_reader == input_reader,
                Err(error) => error == PipelineError::MalformedConfig && !(pipeline@ is Object),
            },
    {
        match pipeline.as_object() {
            Some(entries) => {
                let tables: Vec<Table> = Vec::new();
                let plan = copy_members(entries);
                let state = State { tables, plan, results_writer, input_reader };
                proof {
                    assert(state@.tables =~= Seq::<TableModel>::empty());
                }
                Ok(state)
            },
            None => Err(PipelineError::MalformedConfig),
        }
    }

    /// The first table of this name.
    pub fn find_table(&self, table_name: &str) -> (found: Option<&Table>)
        ensures
            found matches Some(table) ==> table_named(self@.tables, table_name@) == Some(table@),
            found is None ==> table_named(self@.tables, table_name@) is None,
    {
        let mut i: usize = 0;
        let ghost named = named_tables(self@.tables);
        while i < self.tables.len()
            invariant
                i <= self.tables@.len(),
                named == named_tables(self@.tables),
                forall|j: int| 0 <= j < i ==> (#[trigger] named[j]).0 != table_name@,
            decreases self.tables@.len() - i,
        {
            if text_equal(self.tables[i].name.as_str(), table_name) {
                proof {
                    assert(named[i as int] == (
                        self.tables@[i as int]@.name,
                        self.tables@[i as int]@,
                    ));
                    lemma_lookup_first(named, table_name@, i as int);
                }
                return Some(&self.tables[i]);
            }
            proof {
                assert(named[i as int].0 == self.tables@[i as int].name@);
            }
            i += 1;
        }
        proof {
            lemma_lookup_first(named, table_name@, i as int);
        }
        None
    }

    /// Writes rows to the sink of results, under a name: the sink then
    /// holds these rows under the name, and under every other name what it
    /// held. Tables, plan and source stay as they are.
    pub fn write_file(&mut self, name: &str, rows: &[String])
        ensures
            final(self).results_writer.held() == old(self).results_writer.held().insert(
                name@,
                lines(rows@),
            ),
            final(self)@ == old(self)@,
            final(self).input_reader == old(self).input_reader,
    {
        self.results_writer.write(name, rows);
    }

    /// Reads the rows that the source of inputs holds under a name: the
    /// answer is the one that the source gives to a reading of that name.
    pub fn read_file(&self, name: &str) -> (rows: Result<Vec<String>, PipelineError>)
        ensures
            self.input_reader.gives(name@, rows),
    {
        self.input_reader.read(name)
    }
}

} // verus!
