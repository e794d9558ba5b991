//! Assertions on tables: expressions that a table passes or fails, and the
//! node that checks a list of them and reports the failures.

use crate::entries::{inserted, lookup};
use crate::error::{ErrorModel, PipelineError};
use crate::state::factory::{
    ran,
    registry_model,
    text_member,
    Action,
    ActionModel,
    Driver,
    Factory,
    Process,
    RunModel,
};
use crate::state::state::{lemma_begins_with_itself, table_named, State};
use crate::state::data::{RecordModel, Table, TableModel};
use crate::state::document::{
    array_model,
    lemma_array_view,
    lemma_object_view,
    object_model,
    Document,
    DocumentModel,
};
use crate::text::{appended, lemma_lines_concat, lines, text_equal};
use vstd::prelude::*;

verus! {

/// An assertion on a table.
#[derive(Debug, PartialEq)]
pub enum AssertState {
    /// The table has no records.
    Empty,
    /// The table has fewer records than this.
    RowsCountLessThan(usize),
    /// The table has exactly this many records.
    RowsCountEqual(usize),
    /// Every record of the table has this field.
    HasField(String),
    /// The inner assertion fails.
    Not(Box<AssertState>),
    /// One of the inner assertions passes.
    Or(Vec<AssertState>),
    /// All of the inner assertions pass.
    And(Vec<AssertState>),
}

/// What an `AssertState` holds, as a mathematical value.
pub enum AssertModel {
    Empty,
    RowsCountLessThan(nat),
    RowsCountEqual(nat),
    HasField(Seq<char>),
    Not(Box<AssertModel>),
    Or(Seq<AssertModel>),
    And(Seq<AssertModel>),
}

/// What an assertion holds.
pub open spec fn assert_model(state: AssertState) -> AssertModel
    decreases state,
{
    match state {
        AssertState::Empty => AssertModel::Empty,
        AssertState::RowsCountLessThan(count) => AssertModel::RowsCountLessThan(count as nat),
        AssertState::RowsCountEqual(count) => AssertModel::RowsCountEqual(count as nat),
        AssertState::HasField(name) => AssertModel::HasField(name@),
        AssertState::Not(inner) => AssertModel::Not(Box::new(assert_model(*inner))),
        AssertState::Or(states) => AssertModel::Or(states_model(states@)),
        AssertState::And(states) => AssertModel::And(states_model(states@)),
    }
}

/// What the assertions of a list hold, one by one.
pub open spec fn states_model(states: Seq<AssertState>) -> Seq<AssertModel>
    decreases states,
{
    if states.len() == 0 {
        Seq::empty()
    } else {
        states_model(states.drop_last()).push(assert_model(states.last()))
    }
}

impl View for AssertState {
    type V = AssertModel;

    open spec fn view(&self) -> AssertModel {
        assert_model(*self)
    }
}

/// What the assertions of a list hold.
pub open spec fn asserts_model(states: Seq<AssertState>) -> Seq<AssertModel> {
    states.map_values(|state: AssertState| state@)
}

proof fn lemma_states_model(states: Seq<AssertState>)
    ensures
        states_model(states) == asserts_model(states),
    decreases states.len(),
{
    if states.len() > 0 {
        lemma_states_model(states.drop_last());
    }
    assert(states_model(states) =~= asserts_model(states));
}

/// An `Or` holds what its inner assertions hold, in their order.
pub proof fn lemma_or_view(states: Vec<AssertState>)
    ensures
        AssertState::Or(states)@ == AssertModel::Or(asserts_model(states@)),
{
    lemma_states_model(states@);
}

/// An `And` holds what its inner assertions hold, in their order.
pub proof fn lemma_and_view(states: Vec<AssertState>)
    ensures
        AssertState::And(states)@ == AssertModel::And(asserts_model(states@)),
{
    lemma_states_model(states@);
}

/// The outcome of a check: whether the table passed, and the errors if it did not.
pub type Outcome = (bool, Seq<Seq<char>>);

/// Whether every record has the field.
pub open spec fn every_record_has(records: Seq<RecordModel>, name: Seq<char>) -> bool {
    forall|i: int| 0 <= i < records.len() ==> lookup(#[trigger] records[i], name) is Some
}

/// Whether all of the outcomes are passes.
pub open spec fn all_passed(outcomes: Seq<Outcome>) -> bool {
    forall|i: int| 0 <= i < outcomes.len() ==> (#[trigger] outcomes[i]).0
}

/// Whether one of the outcomes is a pass.
pub open spec fn any_passed(outcomes: Seq<Outcome>) -> bool {
    exists|i: int| 0 <= i < outcomes.len() && (#[trigger] outcomes[i]).0
}

/// The errors of all the outcomes, one outcome after the other.
pub open spec fn errors_of(outcomes: Seq<Outcome>) -> Seq<Seq<char>>
    decreases outcomes.len(),
{
    if outcomes.len() == 0 {
        Seq::empty()
    } else {
        errors_of(outcomes.drop_last()) + outcomes.last().1
    }
}

/// A pass has no errors; a failure keeps the errors that were found.
pub open spec fn masked(passed: bool, errors: Seq<Seq<char>>) -> Outcome {
    if passed {
        (true, Seq::empty())
    } else {
        (false, errors)
    }
}

/// The outcome of checking an assertion against a table.
pub open spec fn check_model(state: AssertModel, table: TableModel) -> Outcome
    decreases state,
{
    match state {
        AssertModel::Empty => masked(table.records.len() == 0, seq!["table is not empty"@]),
        AssertModel::RowsCountLessThan(count) => masked(
            table.records.len() < count,
            seq!["table has more rows than expected"@],
        ),
        AssertModel::RowsCountEqual(count) => masked(
            table.records.len() == count,
            seq!["table has different number of rows than expected"@],
        ),
        AssertModel::HasField(name) => masked(
            every_record_has(table.records, name),
            seq!["table does not have field "@ + name],
        ),
        AssertModel::Not(inner) => {
            let outcome = check_model(*inner, table);
            masked(!outcome.0, outcome.1)
        },
        AssertModel::And(states) => {
            let outcomes = check_each(states, table);
            masked(all_passed(outcomes), errors_of(outcomes))
        },
        AssertModel::Or(states) => {
            let outcomes = check_each(states, table);
            masked(any_passed(outcomes), errors_of(outcomes))
        },
    }
}

/// The outcomes of checking each assertion of a list against a table, with
/// no assertion left out.
pub open spec fn check_each(states: Seq<AssertModel>, table: TableModel) -> Seq<Outcome>
    decreases states,
{
    if states.len() == 0 {
        Seq::empty()
    } else {
        check_each(states.drop_last(), table).push(check_model(states.last(), table))
    }
}

/// Checking a list gives one outcome for each assertion, in their order.
pub proof fn lemma_check_each(states: Seq<AssertModel>, table: TableModel)
    ensures
        check_each(states, table).len() == states.len(),
        forall|i: int|
            0 <= i < states.len() ==> #[trigger] check_each(states, table)[i] == check_model(
                states[i],
                table,
            ),
    decreases states.len(),
{
    if states.len() > 0 {
        lemma_check_each(states.drop_last(), table);
    }
}

/// A check that passes reports no errors, whatever its inner assertions found.
pub proof fn lemma_pass_has_no_errors(state: AssertModel, table: TableModel)
    ensures
        check_model(state, table).0 ==> check_model(state, table).1 == Seq::<Seq<char>>::empty(),
{
}

/// Outcomes that each hold no errors hold none together.
proof fn lemma_errors_of_none(outcomes: Seq<Outcome>)
    requires
        forall|i: int| 0 <= i < outcomes.len() ==> (#[trigger] outcomes[i]).1.len() == 0,
    ensures
        errors_of(outcomes) == Seq::<Seq<char>>::empty(),
    decreases outcomes.len(),
{
    if outcomes.len() > 0 {
        assert forall|i: int| 0 <= i < outcomes.drop_last().len() implies (
        #[trigger] outcomes.drop_last()[i]).1.len() == 0 by {
            assert(outcomes.drop_last()[i] == outcomes[i]);
        }
        lemma_errors_of_none(outcomes.drop_last());
        assert(outcomes.last().1 =~= Seq::empty());
    }
}

/// The errors of an `And` are the errors of its inner assertions, one after
/// the other, whether the `And` passes or fails.
pub proof fn lemma_and_errors(states: Seq<AssertModel>, table: TableModel)
    ensures
        check_model(AssertModel::And(states), table).1 == errors_of(check_each(states, table)),
{
    let outcomes = check_each(states, table);
    lemma_check_each(states, table);
    if all_passed(outcomes) {
        assert forall|i: int| 0 <= i < outcomes.len() implies (#[trigger] outcomes[i]).1.len()
            == 0 by {
            lemma_pass_has_no_errors(states[i], table);
        }
        lemma_errors_of_none(outcomes);
    }
}

/// The errors of an `And` of two assertions are the errors of the first
/// followed by the errors of the second.
pub proof fn lemma_and_errors_pair(first: AssertModel, second: AssertModel, table: TableModel)
    ensures
        check_model(AssertModel::And(seq![first, second]), table).1 == check_model(first, table).1
            + check_model(second, table).1,
{
    lemma_and_errors(seq![first, second], table);
    lemma_errors_of_pair(first, second, table);
}

proof fn lemma_errors_of_pair(first: AssertModel, second: AssertModel, table: TableModel)
    ensures
        errors_of(check_each(seq![first, second], table)) == check_model(first, table).1
            + check_model(second, table).1,
{
    let states = seq![first, second];
    let outcomes = check_each(states, table);
    lemma_check_each(states, table);
    let front = outcomes.drop_last();
    assert(front.drop_last() =~= Seq::empty());
    assert(errors_of(front.drop_last()) =~= Seq::empty());
    assert(front.last() == check_model(first, table));
    assert(errors_of(front) =~= check_model(first, table).1);
    assert(outcomes.last() == check_model(second, table));
}

/// The errors of an `Or` that fails, or whose inner assertions found no
/// errors, are the errors of its inner assertions, one after the other.
pub proof fn lemma_or_errors(states: Seq<AssertModel>, table: TableModel)
    requires
        !check_model(AssertModel::Or(states), table).0 || errors_of(check_each(states, table))
            == Seq::<Seq<char>>::empty(),
    ensures
        check_model(AssertModel::Or(states), table).1 == errors_of(check_each(states, table)),
{
}

/// The errors of an `Or` of two assertions that fails, or whose two
/// assertions found no errors, are the errors of the first followed by the
/// errors of the second.
pub proof fn lemma_or_errors_pair(first: AssertModel, second: AssertModel, table: TableModel)
    requires
        !check_model(AssertModel::Or(seq![first, second]), table).0 || (check_model(
            first,
            table,
        ).1.len() == 0 && check_model(second, table).1.len() == 0),
    ensures
        check_model(AssertModel::Or(seq![first, second]), table).1 == check_model(first, table).1
            + check_model(second, table).1,
{
    lemma_errors_of_pair(first, second, table);
    if check_model(AssertModel::Or(seq![first, second]), table).0 {
        assert(check_model(first, table).1 + check_model(second, table).1 =~= Seq::empty());
    }
}

/// One more outcome at the end: all passed where all passed before and the
/// new one is a pass, one passed where one passed before or the new one is a
/// pass, and the errors are the errors before followed by the new ones.
pub proof fn lemma_outcomes_push(outcomes: Seq<Outcome>, outcome: Outcome)
    ensures
        all_passed(outcomes.push(outcome)) == (all_passed(outcomes) && outcome.0),
        any_passed(outcomes.push(outcome)) == (any_passed(outcomes) || outcome.0),
        errors_of(outcomes.push(outcome)) == errors_of(outcomes) + outcome.1,
{
    let longer = outcomes.push(outcome);
    assert(longer.drop_last() =~= outcomes);
    assert(longer.last() == outcome);
    if all_passed(longer) {
        assert forall|i: int| 0 <= i < outcomes.len() implies (#[trigger] outcomes[i]).0 by {
            assert(longer[i] == outcomes[i]);
        }
        assert(longer[outcomes.len() as int].0);
    }
    if all_passed(outcomes) && outcome.0 {
        assert forall|i: int| 0 <= i < longer.len() implies (#[trigger] longer[i]).0 by {
            if i < outcomes.len() {
                assert(longer[i] == outcomes[i]);
            }
        }
    }
    if any_passed(longer) {
        let i = choose|i: int| 0 <= i < longer.len() && (#[trigger] longer[i]).0;
        if i < outcomes.len() {
            assert(outcomes[i] == longer[i]);
        }
    }
    if any_passed(outcomes) {
        let i = choose|i: int| 0 <= i < outcomes.len() && (#[trigger] outcomes[i]).0;
        assert(longer[i] == outcomes[i]);
    }
    if outcome.0 {
        assert(longer[outcomes.len() as int].0);
    }
}

/// The count that a document gives: an integer that is not negative and that
/// the machine can count to.
pub open spec fn count_of(document: DocumentModel) -> Option<nat> {
    match document {
        DocumentModel::Int(count) => if 0 <= count <= usize::MAX {
            Some(count as nat)
        } else {
            None
        },
        _ => None,
    }
}

/// The assertion that a document describes: an object of one member, whose
/// key names the kind and whose value fits it. Nothing for any other document.
pub open spec fn parse_model(document: DocumentModel) -> Option<AssertModel>
    decreases document,
{
    match document {
        DocumentModel::Object(members) => if members.len() == 1 {
            let key = members[0].0;
            let value = members[0].1;
            if key == "empty"@ {
                Some(AssertModel::Empty)
            } else if key == "has-field"@ {
                match value {
                    DocumentModel::String(name) => Some(AssertModel::HasField(name)),
                    _ => None,
                }
            } else if key == "rows-count-less-than"@ {
                match count_of(value) {
                    Some(count) => Some(AssertModel::RowsCountLessThan(count)),
                    None => None,
                }
            } else if key == "rows-count-equal"@ {
                match count_of(value) {
                    Some(count) => Some(AssertModel::RowsCountEqual(count)),
                    None => None,
                }
            } else if key == "not"@ {
                match parse_model(value) {
                    Some(inner) => Some(AssertModel::Not(Box::new(inner))),
                    None => None,
                }
            } else if key == "or"@ {
                match value {
                    DocumentModel::Array(items) => match parse_each(items) {
                        Some(states) => Some(AssertModel::Or(states)),
                        None => None,
                    },
                    _ => None,
                }
            } else if key == "and"@ {
                match value {
                    DocumentModel::Array(items) => match parse_each(items) {
                        Some(states) => Some(AssertModel::And(states)),
                        None => None,
                    },
                    _ => None,
                }
            } else {
                None
            }
        } else {
            None
        },
        _ => None,
    }
}

/// The assertions that the documents of a list describe, where each of them
/// describes one.
pub open spec fn parse_each(items: Seq<DocumentModel>) -> Option<Seq<AssertModel>>
    decreases items,
{
    if items.len() == 0 {
        Some(Seq::empty())
    } else {
        match (parse_each(items.drop_last()), parse_model(items.last())) {
            (Some(front), Some(last)) => Some(front.push(last)),
            _ => None,
        }
    }
}

/// Where the beginning of a list describes no assertions, the list describes none.
proof fn lemma_parse_each_none(items: Seq<DocumentModel>, n: int)
    requires
        0 <= n <= items.len(),
        parse_each(items.take(n)) is None,
    ensures
        parse_each(items) is None,
    decreases items.len() - n,
{
    if n < items.len() {
        assert(items.take(n + 1).drop_last() =~= items.take(n));
        lemma_parse_each_none(items, n + 1);
    } else {
        assert(items.take(n) =~= items);
    }
}

/// The count that a document gives.
fn parse_count(value: &Document) -> (count: Option<usize>)
    ensures
        match count {
            Some(count) => count_of(value@) == Some(count as nat),
            None => count_of(value@) is None,
        },
{
    match value {
        Document::Int(count) => {
            if 0 <= *count && *count <= usize::MAX as i128 {
                Some(*count as usize)
            } else {
                None
            }
        },
        _ => None,
    }
}

/// The assertions that the documents of a list describe.
fn parse_list(items: &Vec<Document>) -> (parsed: Result<Vec<AssertState>, PipelineError>)
    ensures
        match parsed {
            Ok(states) => parse_each(array_model(items@)) == Some(asserts_model(states@)),
            Err(error) => error == PipelineError::MalformedAssert && parse_each(array_model(items@))
                is None,
        },
    decreases items,
{
    let mut states: Vec<AssertState> = Vec::new();
    let mut i: usize = 0;
    let ghost models = array_model(items@);
    proof {
        assert(models.take(0) =~= Seq::empty());
        assert(asserts_model(states@) =~= Seq::empty());
    }
    while i < items.len()
        invariant
            i <= items@.len(),
            models == array_model(items@),
            parse_each(models.take(i as int)) == Some(asserts_model(states@)),
        decreases items@.len() - i,
    {
        proof {
            let next = models.take(i + 1);
            assert(next.drop_last() =~= models.take(i as int));
            assert(next.last() == items@[i as int]@);
        }
        match AssertState::parse(&items[i]) {
            Ok(state) => {
                proof {
                    assert(asserts_model(states@.push(state)) =~= asserts_model(states@).push(
                        state@,
                    ));
                }
                states.push(state);
            },
            Err(error) => {
                proof {
                    lemma_parse_each_none(models, i + 1);
                }
                return Err(error);
            },
        }
        i += 1;
    }
    proof {
        assert(models.take(i as int) =~= models);
    }
    Ok(states)
}

impl AssertState {
    /// The assertion that a document describes. The document is an object
    /// of one member: `empty`, `has-field` with the name of a field,
    /// `rows-count-less-than` or `rows-count-equal` with a count, `not` with
    /// the document of an assertion, `and` or `or` with a list of such
    /// documents. Any other document is refused.
    pub fn parse(value: &Document) -> (parsed: Result<AssertState, PipelineError>)
        ensures
            match parsed {
                Ok(state) => parse_model(value@) == Some(state@),
                Err(error) => error == PipelineError::MalformedAssert && parse_model(value@)
                    is None,
            },
        decreases value,
    {
        let entries = match value {
            Document::Object(entries) => entries,
            _ => {
                return Err(PipelineError::MalformedAssert);
            },
        };
        proof {
            lemma_object_view(*entries);
        }
        if entries.len() != 1 {
            return Err(PipelineError::MalformedAssert);
        }
        let key: &str = entries[0].0.as_str();
        let sub_value: &Document = &entries[0].1;
        proof {
            assert(object_model(entries@)[0] == (key@, sub_value@));
        }
        if text_equal(key, "empty") {
            Ok(AssertState::Empty)
        } else if text_equal(key, "has-field") {
            match sub_value.as_str() {
                Some(name) => Ok(AssertState::HasField(String::from_str(name))),
                None => Err(PipelineError::MalformedAssert),
            }
        } else if text_equal(key, "rows-count-less-than") {
            match parse_count(sub_value) {
                Some(count) => Ok(AssertState::RowsCountLessThan(count)),
                None => Err(PipelineError::MalformedAssert),
            }
        } else if text_equal(key, "rows-count-equal") {
            match parse_count(sub_value) {
                Some(count) => Ok(AssertState::RowsCountEqual(count)),
                None => Err(PipelineError::MalformedAssert),
            }
        } else if text_equal(key, "not") {
            match AssertState::parse(sub_value) {
                Ok(inner) => Ok(AssertState::Not(Box::new(inner))),
                Err(error) => Err(error),
            }
        } else if text_equal(key, "or") {
            match sub_value {
                Document::Array(items) => {
                    proof {
                        lemma_array_view(*items);
                    }
                    match parse_list(items) {
                        Ok(states) => {
                            proof {
                                lemma_or_view(states);
                            }
                            Ok(AssertState::Or(states))
                        },
                        Err(error) => Err(error),
                    }
                },
                _ => Err(PipelineError::MalformedAssert),
            }
        } else if text_equal(key, "and") {
            match sub_value {
                Document::Array(items) => {
                    proof {
                        lemma_array_view(*items);
                    }
                    match parse_list(items) {
                        Ok(states) => {
                            proof {
                                lemma_and_view(states);
                            }
                            Ok(AssertState::And(states))
                        },
                        Err(error) => Err(error),
                    }
                },
                _ => Err(PipelineError::MalformedAssert),
            }
        } else {
            Err(PipelineError::MalformedAssert)
        }
    }
}

/// The outcome of a check whose errors are one message.
fn outcome_of(passed: bool, message: &str) -> (outcome: (bool, Vec<String>))
    ensures
        outcome.0 == passed,
        lines(outcome.1@) == masked(passed, seq![message@]).1,
        passed ==> outcome.1@.len() == 0,
{
    let mut errors: Vec<String> = Vec::new();
    if !passed {
        errors.push(String::from_str(message));
    }
    proof {
        assert(lines(errors@) =~= masked(passed, seq![message@]).1);
    }
    (passed, errors)
}

impl AssertState {
    /// Checks the assertion against a table: whether the table passes, and
    /// the errors where it does not. A pass comes without errors.
    pub fn check(&self, table: &Table) -> (outcome: (bool, Vec<String>))
        ensures
            outcome.0 == check_model(self@, table@).0,
            lines(outcome.1@) == check_model(self@, table@).1,
            outcome.0 ==> outcome.1@.len() == 0,
        decreases self,
    {
        match self {
            AssertState::Empty => outcome_of(table.records.len() == 0, "table is not empty"),
            AssertState::RowsCountLessThan(count) => outcome_of(
                table.records.len() < *count,
                "table has more rows than expected",
            ),
            AssertState::RowsCountEqual(count) => outcome_of(
                table.records.len() == *count,
                "table has different number of rows than expected",
            ),
            AssertState::HasField(name) => {
                let mut every: bool = true;
                let mut i: usize = 0;
                while i < table.records.len()
                    invariant
                        i <= table.records@.len(),
                        every == forall|k: int|
                            0 <= k < i ==> lookup(#[trigger] table@.records[k], name@) is Some,
                    decreases table.records@.len() - i,
                {
                    let present = table.records[i].contains_key(name.as_str());
                    proof {
                        assert(table@.records[i as int] == table.records@[i as int]@);
                        if !present {
                            assert(!(lookup(table@.records[i as int], name@) is Some));
                        }
                    }
                    if !present {
                        every = false;
                    }
                    i += 1;
                }
                let mut errors: Vec<String> = Vec::new();
                if !every {
                    errors.push(
                        appended(String::from_str("table does not have field "), name.as_str()),
                    );
                }
                proof {
                    assert(lines(errors@) =~= masked(
                        every,
                        seq!["table does not have field "@ + name@],
                    ).1);
                }
                (every, errors)
            },
            AssertState::Not(inner) => {
                let (passed, errors) = inner.check(table);
                if passed {
                    (false, errors)
                } else {
                    let none: Vec<String> = Vec::new();
                    proof {
                        assert(lines(none@) =~= Seq::empty());
                    }
                    (true, none)
                }
            },
            AssertState::And(states) => {
                let (all, any, errors) = check_list(states, table);
                proof {
                    lemma_and_view(*states);
                }
                if all {
                    let none: Vec<String> = Vec::new();
                    proof {
                        assert(lines(none@) =~= Seq::empty());
                    }
                    (true, none)
                } else {
                    (false, errors)
                }
            },
            AssertState::Or(states) => {
                let (all, any, errors) = check_list(states, table);
                proof {
                    lemma_or_view(*states);
                }
                if any {
                    let none: Vec<String> = Vec::new();
                    proof {
                        assert(lines(none@) =~= Seq::empty());
                    }
                    (true, none)
                } else {
                    (false, errors)
                }
            },
        }
    }
}

/// Checks every assertion of a list against a table, none left out: whether
/// all passed, whether one passed, and the errors of all, one after the other.
pub fn check_list(states: &Vec<AssertState>, table: &Table) -> (found: (bool, bool, Vec<String>))
    ensures
        found.0 == all_passed(check_each(asserts_model(states@), table@)),
        found.1 == any_passed(check_each(asserts_model(states@), table@)),
        lines(found.2@) == errors_of(check_each(asserts_model(states@), table@)),
    decreases states,
{
    let mut all: bool = true;
    let mut any: bool = false;
    let mut errors: Vec<String> = Vec::new();
    let mut i: usize = 0;
    let ghost models = asserts_model(states@);
    proof {
        assert(models.take(0) =~= Seq::empty());
        assert(lines(errors@) =~= Seq::empty());
    }
    while i < states.len()
        invariant
            i <= states@.len(),
            models == asserts_model(states@),
            all == all_passed(check_each(models.take(i as int), table@)),
            any == any_passed(check_each(models.take(i as int), table@)),
            lines(errors@) == errors_of(check_each(models.take(i as int), table@)),
        decreases states@.len() - i,
    {
        let (passed, mut more) = states[i].check(table);
        proof {
            let next = models.take(i + 1);
            assert(next.drop_last() =~= models.take(i as int));
            assert(next.last() == states@[i as int]@);
            lemma_outcomes_push(
                check_each(models.take(i as int), table@),
                check_model(states@[i as int]@, table@),
            );
            lemma_lines_concat(errors@, more@);
        }
        if !passed {
            all = false;
        } else {
            any = true;
        }
        errors.append(&mut more);
        i += 1;
    }
    proof {
        assert(models.take(i as int) =~= models);
    }
    (all, any, errors)
}

/// An assertion with the name of the table that it is about.
#[derive(Debug)]
pub struct Assert {
    pub table: String,
    pub state: AssertState,
}

/// What an `Assert` holds, as a mathematical value.
pub struct AssertEntry {
    pub table: Seq<char>,
    pub state: AssertModel,
}

impl View for Assert {
    type V = AssertEntry;

    open spec fn view(&self) -> AssertEntry {
        AssertEntry { table: self.table@, state: self.state@ }
    }
}

/// What the assertions of a node hold.
pub open spec fn entries_model(asserts: Seq<Assert>) -> Seq<AssertEntry> {
    asserts.map_values(|assert: Assert| assert@)
}

/// The node that checks assertions on tables and writes the failures, one
/// row each, to the sink of results.
#[derive(Debug)]
pub struct OutputAsserts {
    pub node_name: String,
    pub asserts: Vec<Assert>,
}

/// What an `OutputAsserts` holds, as a mathematical value.
pub struct OutputAssertsModel {
    pub node_name: Seq<char>,
    pub asserts: Seq<AssertEntry>,
}

impl View for OutputAsserts {
    type V = OutputAssertsModel;

    open spec fn view(&self) -> OutputAssertsModel {
        OutputAssertsModel { node_name: self.node_name@, asserts: entries_model(self.asserts@) }
    }
}

/// The node that a configuration describes.
pub open spec fn asserts_config(node_name: Seq<char>, config: DocumentModel) -> Result<
    OutputAssertsModel,
    ErrorModel,
> {
    match asserts_of(config) {
        Ok(asserts) => Ok(OutputAssertsModel { node_name, asserts }),
        Err(error) => Err(error),
    }
}

/// The entry that one item of the `asserts` of a configuration describes:
/// the text under `table` and the assertion under `state`.
pub open spec fn entry_of(item: DocumentModel) -> Result<AssertEntry, ErrorModel> {
    match text_member(item, "table"@) {
        None => Err(ErrorModel::MissingField("table"@)),
        Some(table) => match item.member("state"@) {
            None => Err(ErrorModel::MissingField("state"@)),
            Some(document) => match parse_model(document) {
                None => Err(ErrorModel::MalformedAssert),
                Some(state) => Ok(AssertEntry { table, state }),
            },
        },
    }
}

/// The entries that the items describe, or the failure of the first item
/// that describes none.
pub open spec fn entries_of(items: Seq<DocumentModel>) -> Result<Seq<AssertEntry>, ErrorModel>
    decreases items.len(),
{
    if items.len() == 0 {
        Ok(Seq::empty())
    } else {
        match entries_of(items.drop_last()) {
            Err(error) => Err(error),
            Ok(front) => match entry_of(items.last()) {
                Err(error) => Err(error),
                Ok(last) => Ok(front.push(last)),
            },
        }
    }
}

/// The entries that a configuration describes under `asserts`.
pub open spec fn asserts_of(config: DocumentModel) -> Result<Seq<AssertEntry>, ErrorModel> {
    match config.member("asserts"@) {
        Some(DocumentModel::Array(items)) => entries_of(items),
        _ => Err(ErrorModel::MissingField("asserts"@)),
    }
}

/// Where the beginning of a list fails, the list fails in the same way.
proof fn lemma_entries_of_failure(items: Seq<DocumentModel>, n: int)
    requires
        0 <= n <= items.len(),
        entries_of(items.take(n)) is Err,
    ensures
        entries_of(items) == entries_of(items.take(n)),
    decreases items.len() - n,
{
    if n < items.len() {
        assert(items.take(n + 1).drop_last() =~= items.take(n));
        lemma_entries_of_failure(items, n + 1);
    } else {
        assert(items.take(n) =~= items);
    }
}

/// The text that the `{:?}` format of std writes for a list of strings: the
/// strings between square brackets, each between double quotes and escaped.
pub uninterp spec fn debug_list(rows: Seq<Seq<char>>) -> Seq<char>;

/// Calls `format!` of std on the rows, with the format `{:?}`.
#[verifier::external_body]
fn debug_text(rows: &Vec<String>) -> (text: String)
    ensures
        text@ == debug_list(lines(rows@)),
{
    format!("{:?}", rows)
}

/// The row that reports a failed assertion on a table.
pub open spec fn failure_row(table: Seq<char>, errors: Seq<Seq<char>>) -> Seq<char> {
    failure_text(table, debug_list(errors))
}

/// The row that reports a failed assertion on a table, from the name of the
/// table and the text that shows the errors.
pub open spec fn failure_text(table: Seq<char>, shown: Seq<char>) -> Seq<char> {
    "table "@ + table + " failed assert: "@ + shown
}

/// The row that reports a failed assertion on a table, from the name of the
/// table and the text that shows the errors.
pub fn failure_line(table: &str, shown: &str) -> (row: String)
    ensures
        row@ == failure_text(table@, shown@),
{
    let mut row = String::from_str("table ");
    row.append(table);
    row.append(" failed assert: ");
    row.append(shown);
    row
}

/// The name under which a node writes its results.
pub open spec fn results_name(node_name: Seq<char>) -> Seq<char> {
    node_name + "_results.txt"@
}

/// The rows that the assertions give on the tables: one for each that
/// fails, in their order. The first assertion about a table that is not
/// there fails the whole.
pub open spec fn failure_rows(asserts: Seq<AssertEntry>, tables: Seq<TableModel>) -> Result<
    Seq<Seq<char>>,
    ErrorModel,
>
    decreases asserts.len(),
{
    if asserts.len() == 0 {
        Ok(Seq::empty())
    } else {
        match failure_rows(asserts.drop_last(), tables) {
            Err(error) => Err(error),
            Ok(rows) => match table_named(tables, asserts.last().table) {
                None => Err(ErrorModel::UnknownTable(asserts.last().table)),
                Some(table) => {
                    let outcome = check_model(asserts.last().state, table);
                    if outcome.0 {
                        Ok(rows)
                    } else {
                        Ok(rows.push(failure_row(asserts.last().table, outcome.1)))
                    }
                },
            },
        }
    }
}

/// The entry that one item of the `asserts` of a configuration describes.
fn read_entry(item: &Document) -> (entry: Result<Assert, PipelineError>)
    ensures
        match entry {
            Ok(assert) => entry_of(item@) == Ok::<AssertEntry, ErrorModel>(assert@),
            Err(error) => entry_of(item@) == Err::<AssertEntry, ErrorModel>(error@),
        },
{
    let table = match item.get("table") {
        Some(member) => match member.as_str() {
            Some(text) => String::from_str(text),
            None => {
                return Err(PipelineError::MissingField(String::from_str("table")));
            },
        },
        None => {
            return Err(PipelineError::MissingField(String::from_str("table")));
        },
    };
    let document = match item.get("state") {
        Some(document) => document,
        None => {
            return Err(PipelineError::MissingField(String::from_str("state")));
        },
    };
    match AssertState::parse(document) {
        Ok(state) => Ok(Assert { table, state }),
        Err(error) => Err(error),
    }
}

impl OutputAsserts {
    /// The rows that the assertions of this node give on the tables.
    pub fn evaluate(&self, state: &State) -> (rows: Result<Vec<String>, PipelineError>)
        ensures
            match rows {
                Ok(rows) => failure_rows(entries_model(self.asserts@), state@.tables) == Ok::<
                    Seq<Seq<char>>,
                    ErrorModel,
                >(lines(rows@)),
                Err(error) => failure_rows(entries_model(self.asserts@), state@.tables) == Err::<
                    Seq<Seq<char>>,
                    ErrorModel,
                >(error@),
            },
    {
        let mut rows: Vec<String> = Vec::new();
        let mut i: usize = 0;
        let ghost entries = entries_model(self.asserts@);
        proof {
            assert(entries.take(0) =~= Seq::empty());
            assert(lines(rows@) =~= Seq::empty());
        }
        while i < self.asserts.len()
            invariant
                i <= self.asserts@.len(),
                entries == entries_model(self.asserts@),
                failure_rows(entries.take(i as int), state@.tables) == Ok::<
                    Seq<Seq<char>>,
                    ErrorModel,
                >(lines(rows@)),
            decreases self.asserts@.len() - i,
        {
            let assert_: &Assert = &self.asserts[i];
            proof {
                let next = entries.take(i + 1);
                assert(next.drop_last() =~= entries.take(i as int));
                assert(next.last() == assert_@);
            }
            match state.find_table(assert_.table.as_str()) {
                Some(table) => {
                    let (passed, errors) = assert_.state.check(table);
                    if !passed {
                        let shown = debug_text(&errors);
                        let row = failure_line(assert_.table.as_str(), shown.as_str());
                        proof {
                            assert(lines(rows@.push(row)) =~= lines(rows@).push(row@));
                        }
                        rows.push(row);
                    }
                },
                None => {
                    proof {
                        lemma_failure_rows_failure(entries, state@.tables, i + 1);
                    }
                    return Err(PipelineError::UnknownTable(assert_.table.clone()));
                },
            }
            i += 1;
        }
        proof {
            assert(entries.take(i as int) =~= entries);
        }
        Ok(rows)
    }
}

/// Where the beginning of a list of assertions fails for want of a table,
/// the list fails in the same way.
proof fn lemma_failure_rows_failure(asserts: Seq<AssertEntry>, tables: Seq<TableModel>, n: int)
    requires
        0 <= n <= asserts.len(),
        failure_rows(asserts.take(n), tables) is Err,
    ensures
        failure_rows(asserts, tables) == failure_rows(asserts.take(n), tables),
    decreases asserts.len() - n,
{
    if n < asserts.len() {
        assert(asserts.take(n + 1).drop_last() =~= asserts.take(n));
        lemma_failure_rows_failure(asserts, tables, n + 1);
    } else {
        assert(asserts.take(n) =~= asserts);
    }
}

/// What a run of the node comes to: the rows of the failures are written
/// under the name of the node, followed by `_results.txt`, and nothing is
/// left to do outside. An assertion about a table that is not there fails it.
pub open spec fn asserts_run(node: OutputAssertsModel, tables: Seq<TableModel>) -> Result<
    RunModel,
    ErrorModel,
> {
    match failure_rows(node.asserts, tables) {
        Ok(rows) => Ok(
            RunModel {
                written: Some((results_name(node.node_name), rows)),
                action: ActionModel::Done,
            },
        ),
        Err(error) => Err(error),
    }
}

impl OutputAsserts {
    /// Registers this kind of node under the name of its driver, `output::asserts`.
    pub fn register(factory: &mut Factory)
        ensures
            registry_model(final(factory).registry@) == inserted(
                registry_model(old(factory).registry@),
                "output::asserts"@,
                Driver::OutputAsserts,
            ),
            final(factory).templates == old(factory).templates,
    {
        factory.register_process(String::from_str("output::asserts"), Driver::OutputAsserts);
    }
}

impl Process for OutputAsserts {
    /// The node that a configuration describes: its `asserts` are a list of
    /// objects, each with the name of a `table` and the document of a `state`.
    fn from_config(node_name: String, config: &Document) -> (node: Result<
        OutputAsserts,
        PipelineError,
    >)
        ensures
            match node {
                Ok(node) => asserts_config(node_name@, config@) == Ok::<
                    OutputAssertsModel,
                    ErrorModel,
                >(node@),
                Err(error) => asserts_config(node_name@, config@) == Err::<
                    OutputAssertsModel,
                    ErrorModel,
                >(error@),
            },
    {
        let items = match config.get("asserts") {
            Some(Document::Array(items)) => {
                proof {
                    lemma_array_view(*items);
                }
                items
            },
            _ => {
                return Err(PipelineError::MissingField(String::from_str("asserts")));
            },
        };
        let mut asserts: Vec<Assert> = Vec::new();
        let mut i: usize = 0;
        let ghost models = array_model(items@);
        proof {
            assert(models.take(0) =~= Seq::empty());
            assert(entries_model(asserts@) =~= Seq::empty());
            assert(asserts_of(config@) == entries_of(models));
        }
        while i < items.len()
            invariant
                i <= items@.len(),
                models == array_model(items@),
                asserts_of(config@) == entries_of(models),
                entries_of(models.take(i as int)) == Ok::<Seq<AssertEntry>, ErrorModel>(
                    entries_model(asserts@),
                ),
            decreases items@.len() - i,
        {
            proof {
                let next = models.take(i + 1);
                assert(next.drop_last() =~= models.take(i as int));
                assert(next.last() == items@[i as int]@);
            }
            match read_entry(&items[i]) {
                Ok(assert_) => {
                    proof {
                        assert(entries_model(asserts@.push(assert_)) =~= entries_model(
                            asserts@,
                        ).push(assert_@));
                    }
                    asserts.push(assert_);
                },
                Err(error) => {
                    proof {
                        assert(entries_of(models.take(i + 1)) == Err::<
                            Seq<AssertEntry>,
                            ErrorModel,
                        >(error@));
                        lemma_entries_of_failure(models, i + 1);
                        assert(entries_of(models) == Err::<Seq<AssertEntry>, ErrorModel>(error@));
                        assert(asserts_of(config@) == entries_of(models));
                    }
                    return Err(error);
                },
            }
            i += 1;
        }
        proof {
            assert(models.take(i as int) =~= models);
        }
        Ok(OutputAsserts { node_name, asserts })
    }

    /// Checks every assertion and writes the rows of the failures under the
    /// name of the node, followed by `_results.txt`. An assertion about a
    /// table that the state does not hold ends the run before anything is written.
    fn run(&self, state: &mut State) -> (done: Result<Action, PipelineError>)
        ensures
            final(state)@ == old(state)@,
            ran(
                asserts_run(self@, old(state)@.tables),
                old(state).results_writer.held(),
                done,
                final(state).results_writer.held(),
            ),
    {
        proof {
            lemma_begins_with_itself(state@.tables);
        }
        let rows = match self.evaluate(state) {
            Ok(rows) => rows,
            Err(error) => {
                return Err(error);
            },
        };
        let name = appended(self.node_name.clone(), "_results.txt");
        state.write_file(name.as_str(), rows.as_slice());
        Ok(Action::Done)
    }
}

} // verus!
