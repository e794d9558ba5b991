//! The comparison of two tables by an identity field: a merge over the
//! records of both, each side in the order of its keys.

use crate::error::{ErrorModel, PipelineError};
use crate::state::document::{Document, DocumentModel};
use crate::state::factory::{
    ran,
    read_config_field,
    registry_model,
    text_member,
    Action,
    ActionModel,
    Driver,
    Factory,
    Process,
    RunModel,
};
use crate::state::state::{lemma_begins_with_itself, table_named, State};
use crate::state::data::{records_model, Record, RecordModel, Table, TableModel};
use crate::entries::{inserted, lookup};
use crate::state::variant::{canonical_text, Variant, VariantModel};
use crate::text::{
    lemma_text_trichotomy,
    lines,
    ordered_positions,
    positions,
    is_stable_order,
    lemma_stable_order_exists,
    stable_order_of,
    text_before,
    text_less,
};
use vstd::prelude::*;

verus! {

/// One of the two tables of a comparison.
#[derive(Clone, Copy, Debug, PartialEq, Eq, Structural)]
pub enum Side {
    First,
    Second,
}

/// One finding of a comparison. Keys and values stand in it as their canonical text.
#[derive(Debug)]
pub enum Difference {
    /// A record of `table` whose key the other table does not have at this
    /// point of the merge.
    Extra { table: Side, key: String },
    /// A field that both records of a key have, with different values.
    Mismatch { key: String, field: String, first: String, second: String },
    /// A field that the record of `table` lacks and the other record of the key has.
    MissingField { table: Side, key: String, field: String },
}

/// What a `Difference` holds, as a mathematical value.
pub enum DifferenceModel {
    Extra { table: Side, key: Seq<char> },
    Mismatch { key: Seq<char>, field: Seq<char>, first: Seq<char>, second: Seq<char> },
    MissingField { table: Side, key: Seq<char>, field: Seq<char> },
}

impl DifferenceModel {
    /// The key of the record, or of the two records, that the finding is about.
    pub open spec fn key(self) -> Seq<char> {
        match self {
            DifferenceModel::Extra { key, .. } => key,
            DifferenceModel::Mismatch { key, .. } => key,
            DifferenceModel::MissingField { key, .. } => key,
        }
    }
}

impl View for Difference {
    type V = DifferenceModel;

    open spec fn view(&self) -> DifferenceModel {
        match self {
            Difference::Extra { table, key } => DifferenceModel::Extra { table: *table, key: key@ },
            Difference::Mismatch { key, field, first, second } => DifferenceModel::Mismatch {
                key: key@,
                field: field@,
                first: first@,
                second: second@,
            },
            Difference::MissingField { table, key, field } => DifferenceModel::MissingField {
                table: *table,
                key: key@,
                field: field@,
            },
        }
    }
}

/// What the findings of a list hold.
pub open spec fn differences_model(differences: Seq<Difference>) -> Seq<DifferenceModel> {
    differences.map_values(|difference: Difference| difference@)
}

/// A record with the key it is ordered by.
pub type Keyed = (Seq<char>, RecordModel);

/// What one field of the first record of a key gives against the second
/// record: a missing field where the second lacks it, a mismatch where the
/// values differ, nothing where they are the same.
pub open spec fn field_difference(
    key: Seq<char>,
    field: (Seq<char>, VariantModel),
    second: RecordModel,
) -> Seq<DifferenceModel> {
    match lookup(second, field.0) {
        Some(value) => if value != field.1 {
            seq![
                DifferenceModel::Mismatch {
                    key,
                    field: field.0,
                    first: canonical_text(field.1),
                    second: canonical_text(value),
                },
            ]
        } else {
            Seq::empty()
        },
        None => seq![DifferenceModel::MissingField { table: Side::Second, key, field: field.0 }],
    }
}

/// The findings for the fields of the first record, in their order.
pub open spec fn fields_against(
    key: Seq<char>,
    fields: RecordModel,
    second: RecordModel,
) -> Seq<DifferenceModel>
    decreases fields.len(),
{
    if fields.len() == 0 {
        Seq::empty()
    } else {
        fields_against(key, fields.drop_last(), second) + field_difference(
            key,
            fields.last(),
            second,
        )
    }
}

/// What one field of the second record gives against the first: a missing
/// field where the first lacks it.
pub open spec fn field_missing(
    key: Seq<char>,
    field: (Seq<char>, VariantModel),
    first: RecordModel,
) -> Seq<DifferenceModel> {
    if lookup(first, field.0) is None {
        seq![DifferenceModel::MissingField { table: Side::First, key, field: field.0 }]
    } else {
        Seq::empty()
    }
}

/// The findings for the fields of the second record that the first lacks, in their order.
pub open spec fn fields_missing(
    key: Seq<char>,
    fields: RecordModel,
    first: RecordModel,
) -> Seq<DifferenceModel>
    decreases fields.len(),
{
    if fields.len() == 0 {
        Seq::empty()
    } else {
        fields_missing(key, fields.drop_last(), first) + field_missing(key, fields.last(), first)
    }
}

/// The findings for two records of one key: the fields of the first against
/// the second, then the fields that only the second has.
pub open spec fn record_differences(
    key: Seq<char>,
    first: RecordModel,
    second: RecordModel,
) -> Seq<DifferenceModel> {
    fields_against(key, first, second) + fields_missing(key, second, first)
}

/// The merge of two lists of keyed records. The smaller of the two keys at the
/// front is extra on its side and leaves; equal keys give the findings of
/// their two records and leave together. Once one list is empty, what is left
/// of the other is extra.
pub open spec fn merge_differences(first: Seq<Keyed>, second: Seq<Keyed>) -> Seq<DifferenceModel>
    decreases first.len() + second.len(),
{
    if first.len() == 0 && second.len() == 0 {
        Seq::empty()
    } else if second.len() == 0 || (first.len() > 0 && text_less(first[0].0, second[0].0)) {
        seq![DifferenceModel::Extra { table: Side::First, key: first[0].0 }] + merge_differences(
            first.skip(1),
            second,
        )
    } else if first.len() == 0 || text_less(second[0].0, first[0].0) {
        seq![DifferenceModel::Extra { table: Side::Second, key: second[0].0 }] + merge_differences(
            first,
            second.skip(1),
        )
    } else {
        record_differences(first[0].0, first[0].1, second[0].1) + merge_differences(
            first.skip(1),
            second.skip(1),
        )
    }
}

/// The keys of the records: the canonical text of the identity field of each.
/// Nothing where a record lacks the field.
pub open spec fn record_keys(records: Seq<RecordModel>, field: Seq<char>) -> Option<
    Seq<Seq<char>>,
> {
    if forall|i: int| 0 <= i < records.len() ==> lookup(#[trigger] records[i], field) is Some {
        Some(
            Seq::new(
                records.len(),
                |i: int| canonical_text(lookup(records[i], field).unwrap()),
            ),
        )
    } else {
        None
    }
}

/// The records with their keys, in the order that `order` gives.
pub open spec fn arranged(keys: Seq<Seq<char>>, records: Seq<RecordModel>, order: Seq<int>) -> Seq<
    Keyed,
> {
    Seq::new(order.len(), |i: int| (keys[order[i]], records[order[i]]))
}

/// The records with their keys, in the stable order of the keys.
pub open spec fn sorted_records(keys: Seq<Seq<char>>, records: Seq<RecordModel>) -> Seq<Keyed> {
    arranged(keys, records, stable_order_of(keys))
}

/// The findings of comparing two tables by an identity field. Nothing where
/// a record of either table lacks the field.
pub open spec fn table_differences(
    first: Seq<RecordModel>,
    second: Seq<RecordModel>,
    field: Seq<char>,
) -> Option<Seq<DifferenceModel>> {
    match (record_keys(first, field), record_keys(second, field)) {
        (Some(first_keys), Some(second_keys)) => Some(
            merge_differences(
                sorted_records(first_keys, first),
                sorted_records(second_keys, second),
            ),
        ),
        _ => None,
    }
}

/// Every finding for two records of one key is about that key, and none of
/// them is an extra record.
pub proof fn lemma_record_differences_key(
    key: Seq<char>,
    first: RecordModel,
    second: RecordModel,
    n: int,
)
    requires
        0 <= n < record_differences(key, first, second).len(),
    ensures
        record_differences(key, first, second)[n].key() == key,
        !(record_differences(key, first, second)[n] is Extra),
{
    let against = fields_against(key, first, second);
    if n < against.len() {
        lemma_fields_against_key(key, first, second, n);
    } else {
        lemma_fields_missing_key(key, second, first, n - against.len());
    }
}

proof fn lemma_fields_against_key(key: Seq<char>, fields: RecordModel, second: RecordModel, n: int)
    requires
        0 <= n < fields_against(key, fields, second).len(),
    ensures
        fields_against(key, fields, second)[n].key() == key,
        !(fields_against(key, fields, second)[n] is Extra),
    decreases fields.len(),
{
    if fields.len() > 0 {
        let front = fields_against(key, fields.drop_last(), second);
        if n < front.len() {
            lemma_fields_against_key(key, fields.drop_last(), second, n);
        }
    }
}

proof fn lemma_fields_missing_key(key: Seq<char>, fields: RecordModel, first: RecordModel, n: int)
    requires
        0 <= n < fields_missing(key, fields, first).len(),
    ensures
        fields_missing(key, fields, first)[n].key() == key,
        !(fields_missing(key, fields, first)[n] is Extra),
    decreases fields.len(),
{
    if fields.len() > 0 {
        let front = fields_missing(key, fields.drop_last(), first);
        if n < front.len() {
            lemma_fields_missing_key(key, fields.drop_last(), first, n);
        }
    }
}

/// A key that only the first list has gives records extra in the first list
/// and nothing else: no finding about that key is a mismatch, a missing field
/// or a record extra in the second list.
pub proof fn lemma_key_only_in_first(first: Seq<Keyed>, second: Seq<Keyed>, key: Seq<char>, n: int)
    requires
        forall|j: int| 0 <= j < second.len() ==> (#[trigger] second[j]).0 != key,
        0 <= n < merge_differences(first, second).len(),
        merge_differences(first, second)[n].key() == key,
    ensures
        merge_differences(first, second)[n] == (DifferenceModel::Extra { table: Side::First, key }),
    decreases first.len() + second.len(),
{
    if first.len() == 0 && second.len() == 0 {
    } else if second.len() == 0 || (first.len() > 0 && text_less(first[0].0, second[0].0)) {
        if n > 0 {
            lemma_key_only_in_first(first.skip(1), second, key, n - 1);
        }
    } else if first.len() == 0 || text_less(second[0].0, first[0].0) {
        assert(second[0].0 != key);
        assert forall|j: int| 0 <= j < second.skip(1).len() implies (#[trigger] second.skip(
            1,
        )[j]).0 != key by {
            assert(second.skip(1)[j] == second[j + 1]);
        }
        lemma_key_only_in_first(first, second.skip(1), key, n - 1);
    } else {
        lemma_text_trichotomy(first[0].0, second[0].0);
        assert(second[0].0 != key);
        let pair = record_differences(first[0].0, first[0].1, second[0].1);
        if n < pair.len() {
            lemma_record_differences_key(first[0].0, first[0].1, second[0].1, n);
        } else {
            assert forall|j: int| 0 <= j < second.skip(1).len() implies (#[trigger] second.skip(
                1,
            )[j]).0 != key by {
                assert(second.skip(1)[j] == second[j + 1]);
            }
            lemma_key_only_in_first(first.skip(1), second.skip(1), key, n - pair.len());
        }
    }
}

/// A key that only the second list has gives records extra in the second
/// list and nothing else.
pub proof fn lemma_key_only_in_second(first: Seq<Keyed>, second: Seq<Keyed>, key: Seq<char>, n: int)
    requires
        forall|i: int| 0 <= i < first.len() ==> (#[trigger] first[i]).0 != key,
        0 <= n < merge_differences(first, second).len(),
        merge_differences(first, second)[n].key() == key,
    ensures
        merge_differences(first, second)[n] == (DifferenceModel::Extra {
            table: Side::Second,
            key,
        }),
    decreases first.len() + second.len(),
{
    if first.len() == 0 && second.len() == 0 {
    } else if second.len() == 0 || (first.len() > 0 && text_less(first[0].0, second[0].0)) {
        assert(first[0].0 != key);
        assert forall|i: int| 0 <= i < first.skip(1).len() implies (#[trigger] first.skip(1)[i]).0
            != key by {
            assert(first.skip(1)[i] == first[i + 1]);
        }
        lemma_key_only_in_second(first.skip(1), second, key, n - 1);
    } else if first.len() == 0 || text_less(second[0].0, first[0].0) {
        if n > 0 {
            lemma_key_only_in_second(first, second.skip(1), key, n - 1);
        }
    } else {
        assert(first[0].0 != key);
        let pair = record_differences(first[0].0, first[0].1, second[0].1);
        if n < pair.len() {
            lemma_record_differences_key(first[0].0, first[0].1, second[0].1, n);
        } else {
            assert forall|i: int| 0 <= i < first.skip(1).len() implies (#[trigger] first.skip(
                1,
            )[i]).0 != key by {
                assert(first.skip(1)[i] == first[i + 1]);
            }
            lemma_key_only_in_second(first.skip(1), second.skip(1), key, n - pair.len());
        }
    }
}

/// Comparing two tables, a record of the first whose key no record of the
/// second has is reported as extra in the first, and in no other way: every
/// finding about its key is that one.
pub proof fn lemma_record_only_in_first(
    first: Seq<RecordModel>,
    second: Seq<RecordModel>,
    field: Seq<char>,
    key: Seq<char>,
    n: int,
)
    requires
        table_differences(first, second, field) is Some,
        !record_keys(second, field).unwrap().contains(key),
        0 <= n < table_differences(first, second, field).unwrap().len(),
        table_differences(first, second, field).unwrap()[n].key() == key,
    ensures
        table_differences(first, second, field).unwrap()[n] == (DifferenceModel::Extra {
            table: Side::First,
            key,
        }),
{
    let first_keys = record_keys(first, field).unwrap();
    let second_keys = record_keys(second, field).unwrap();
    let b = sorted_records(second_keys, second);
    lemma_sorted_records_keys(second_keys, second);
    assert forall|j: int| 0 <= j < b.len() implies (#[trigger] b[j]).0 != key by {
        assert(second_keys.contains(b[j].0));
    }
    lemma_key_only_in_first(sorted_records(first_keys, first), b, key, n);
}

/// Comparing two tables, a record of the second whose key no record of the
/// first has is reported as extra in the second, and in no other way.
pub proof fn lemma_record_only_in_second(
    first: Seq<RecordModel>,
    second: Seq<RecordModel>,
    field: Seq<char>,
    key: Seq<char>,
    n: int,
)
    requires
        table_differences(first, second, field) is Some,
        !record_keys(first, field).unwrap().contains(key),
        0 <= n < table_differences(first, second, field).unwrap().len(),
        table_differences(first, second, field).unwrap()[n].key() == key,
    ensures
        table_differences(first, second, field).unwrap()[n] == (DifferenceModel::Extra {
            table: Side::Second,
            key,
        }),
{
    let first_keys = record_keys(first, field).unwrap();
    let second_keys = record_keys(second, field).unwrap();
    let a = sorted_records(first_keys, first);
    lemma_sorted_records_keys(first_keys, first);
    assert forall|i: int| 0 <= i < a.len() implies (#[trigger] a[i]).0 != key by {
        assert(first_keys.contains(a[i].0));
    }
    lemma_key_only_in_second(a, sorted_records(second_keys, second), key, n);
}

/// The records in the order of their keys are as many as the keys, and each
/// stands with one of the keys.
pub proof fn lemma_sorted_records_keys(keys: Seq<Seq<char>>, records: Seq<RecordModel>)
    ensures
        sorted_records(keys, records).len() == keys.len(),
        forall|i: int|
            0 <= i < keys.len() ==> keys.contains((#[trigger] sorted_records(keys, records)[i]).0),
{
    lemma_stable_order_exists(keys);
    let order = stable_order_of(keys);
    assert forall|i: int| 0 <= i < keys.len() implies keys.contains(
        (#[trigger] sorted_records(keys, records)[i]).0,
    ) by {
        assert(keys[order[i]] == sorted_records(keys, records)[i].0);
    }
}

/// The keys of the records of a table, or nothing where a record lacks the
/// identity field.
pub fn table_keys(records: &Vec<Record>, field: &str) -> (keys: Option<Vec<String>>)
    ensures
        match keys {
            Some(keys) => record_keys(records_model(records@), field@) == Some(lines(keys@)),
            None => record_keys(records_model(records@), field@) is None,
        },
{
    let mut keys: Vec<String> = Vec::new();
    let mut i: usize = 0;
    while i < records.len()
        invariant
            i <= records@.len(),
            keys@.len() == i,
            forall|k: int|
                0 <= k < i ==> lookup(#[trigger] records_model(records@)[k], field@) is Some,
            forall|k: int|
                0 <= k < i ==> (#[trigger] keys@[k])@ == canonical_text(
                    lookup(records_model(records@)[k], field@).unwrap(),
                ),
        decreases records@.len() - i,
    {
        match records[i].get(field) {
            Some(value) => {
                keys.push(value.display());
            },
            None => {
                proof {
                    assert(lookup(records_model(records@)[i as int], field@) is None);
                }
                return None;
            },
        }
        i += 1;
    }
    proof {
        assert(record_keys(records_model(records@), field@).unwrap() =~= lines(keys@));
    }
    Some(keys)
}

/// The findings for two records of one key.
pub fn compare_records(key: &str, first: &Record, second: &Record) -> (found: Vec<Difference>)
    ensures
        differences_model(found@) == record_differences(key@, first@, second@),
{
    let mut found: Vec<Difference> = Vec::new();
    let mut i: usize = 0;
    proof {
        assert(differences_model(found@) =~= Seq::empty());
        assert(first@.take(0) =~= Seq::empty());
    }
    while i < first.fields.len()
        invariant
            i <= first.fields@.len(),
            first@.len() == first.fields@.len(),
            differences_model(found@) == fields_against(key@, first@.take(i as int), second@),
        decreases first.fields@.len() - i,
    {
        let name: &String = &first.fields[i].0;
        let value: &Variant = &first.fields[i].1;
        let ghost before = differences_model(found@);
        proof {
            let next = first@.take(i + 1);
            assert(next.drop_last() =~= first@.take(i as int));
            assert(next.last() == (name@, value@));
        }
        match second.get(name.as_str()) {
            Some(other) => {
                if !(*other == *value) {
                    found.push(
                        Difference::Mismatch {
                            key: String::from_str(key),
                            field: name.clone(),
                            first: value.display(),
                            second: other.display(),
                        },
                    );
                    proof {
                        assert(differences_model(found@) =~= before + field_difference(
                            key@,
                            (name@, value@),
                            second@,
                        ));
                    }
                } else {
                    proof {
                        assert(differences_model(found@) =~= before + field_difference(
                            key@,
                            (name@, value@),
                            second@,
                        ));
                    }
                }
            },
            None => {
                found.push(
                    Difference::MissingField {
                        table: Side::Second,
                        key: String::from_str(key),
                        field: name.clone(),
                    },
                );
                proof {
                    assert(differences_model(found@) =~= before + field_difference(
                        key@,
                        (name@, value@),
                        second@,
                    ));
                }
            },
        }
        i += 1;
    }
    let ghost against = differences_model(found@);
    proof {
        assert(first@.take(i as int) =~= first@);
        assert(second@.take(0) =~= Seq::empty());
    }
    let mut j: usize = 0;
    while j < second.fields.len()
        invariant
            j <= second.fields@.len(),
            second@.len() == second.fields@.len(),
            against == fields_against(key@, first@, second@),
            differences_model(found@) == against + fields_missing(
                key@,
                second@.take(j as int),
                first@,
            ),
        decreases second.fields@.len() - j,
    {
        let name: &String = &second.fields[j].0;
        let ghost before = differences_model(found@);
        proof {
            let next = second@.take(j + 1);
            assert(next.drop_last() =~= second@.take(j as int));
            assert(next.last() == (name@, second.fields@[j as int].1@));
        }
        if !first.contains_key(name.as_str()) {
            found.push(
                Difference::MissingField {
                    table: Side::First,
                    key: String::from_str(key),
                    field: name.clone(),
                },
            );
        }
        proof {
            assert(differences_model(found@) =~= before + field_missing(
                key@,
                (name@, second.fields@[j as int].1@),
                first@,
            ));
            assert(before + field_missing(key@, (name@, second.fields@[j as int].1@), first@)
                =~= against + fields_missing(key@, second@.take(j + 1), first@));
        }
        j += 1;
    }
    proof {
        assert(second@.take(j as int) =~= second@);
    }
    found
}

/// Compares two tables by an identity field: the records of each side in the
/// stable order of their keys, merged. A record of either table that lacks
/// the field is refused.
pub fn compare_tables(first: &Table, second: &Table, field: &str) -> (found: Result<
    Vec<Difference>,
    PipelineError,
>)
    ensures
        match found {
            Ok(differences) => table_differences(first@.records, second@.records, field@) == Some(
                differences_model(differences@),
            ),
            Err(error) => error == PipelineError::MalformedData && table_differences(
                first@.records,
                second@.records,
                field@,
            ) is None,
        },
{
    let first_keys = match table_keys(&first.records, field) {
        Some(keys) => keys,
        None => {
            return Err(PipelineError::MalformedData);
        },
    };
    let second_keys = match table_keys(&second.records, field) {
        Some(keys) => keys,
        None => {
            return Err(PipelineError::MalformedData);
        },
    };
    let first_order = ordered_positions(&first_keys);
    let second_order = ordered_positions(&second_keys);
    let ghost a = sorted_records(lines(first_keys@), first@.records);
    let ghost b = sorted_records(lines(second_keys@), second@.records);
    let mut found: Vec<Difference> = Vec::new();
    let mut i: usize = 0;
    let mut j: usize = 0;
    proof {
        assert(a.skip(0) =~= a);
        assert(b.skip(0) =~= b);
        assert(differences_model(found@) + merge_differences(a, b) =~= merge_differences(a, b));
    }
    while i < first_order.len() || j < second_order.len()
        invariant
            i <= first_order@.len(),
            j <= second_order@.len(),
            is_stable_order(lines(first_keys@), positions(first_order@)),
            is_stable_order(lines(second_keys@), positions(second_order@)),
            first_keys@.len() == first.records@.len(),
            second_keys@.len() == second.records@.len(),
            a == arranged(lines(first_keys@), first@.records, positions(first_order@)),
            b == arranged(lines(second_keys@), second@.records, positions(second_order@)),
            differences_model(found@) + merge_differences(a.skip(i as int), b.skip(j as int))
                == merge_differences(a, b),
        decreases (first_order@.len() - i) + (second_order@.len() - j),
    {
        let ghost before = differences_model(found@);
        let ghost rest_a = a.skip(i as int);
        let ghost rest_b = b.skip(j as int);
        let mut take_first: bool = false;
        let mut take_second: bool = false;
        if j >= second_order.len() {
            take_first = true;
        } else if i >= first_order.len() {
            take_second = true;
        } else {
            let first_key: &String = &first_keys[first_order[i]];
            let second_key: &String = &second_keys[second_order[j]];
            proof {
                assert(rest_a[0].0 == first_key@);
                assert(rest_b[0].0 == second_key@);
            }
            if text_before(first_key.as_str(), second_key.as_str()) {
                take_first = true;
            } else if text_before(second_key.as_str(), first_key.as_str()) {
                take_second = true;
            } else {
                take_first = true;
                take_second = true;
            }
        }
        if take_first && take_second {
            let at: usize = first_order[i];
            let other: usize = second_order[j];
            let mut more = compare_records(
                first_keys[at].as_str(),
                &first.records[at],
                &second.records[other],
            );
            proof {
                assert(rest_a[0] == (first_keys@[at as int]@, first.records@[at as int]@));
                assert(rest_b[0].1 == second.records@[other as int]@);
                assert(rest_a.skip(1) =~= a.skip(i + 1));
                assert(rest_b.skip(1) =~= b.skip(j + 1));
                assert(differences_model(found@ + more@) =~= before + differences_model(more@));
                assert((before + differences_model(more@)) + merge_differences(
                    a.skip(i + 1),
                    b.skip(j + 1),
                ) =~= before + merge_differences(rest_a, rest_b));
            }
            found.append(&mut more);
            i += 1;
            j += 1;
        } else if take_first {
            let at: usize = first_order[i];
            let finding = Difference::Extra { table: Side::First, key: first_keys[at].clone() };
            proof {
                assert(rest_a[0].0 == first_keys@[at as int]@);
                assert(rest_a.skip(1) =~= a.skip(i + 1));
                assert(differences_model(found@.push(finding)) =~= before + seq![finding@]);
                assert((before + seq![finding@]) + merge_differences(a.skip(i + 1), rest_b)
                    =~= before + merge_differences(rest_a, rest_b));
            }
            found.push(finding);
            i += 1;
        } else {
            let at: usize = second_order[j];
            let finding = Difference::Extra { table: Side::Second, key: second_keys[at].clone() };
            proof {
                assert(rest_b[0].0 == second_keys@[at as int]@);
                assert(rest_b.skip(1) =~= b.skip(j + 1));
                assert(differences_model(found@.push(finding)) =~= before + seq![finding@]);
                assert((before + seq![finding@]) + merge_differences(rest_a, b.skip(j + 1))
                    =~= before + merge_differences(rest_a, rest_b));
            }
            found.push(finding);
            j += 1;
        }
    }
    proof {
        assert(differences_model(found@) + merge_differences(a.skip(i as int), b.skip(j as int))
            =~= differences_model(found@));
    }
    Ok(found)
}

/// The name of the table on a side of the comparison.
pub open spec fn side_name(side: Side, input1: Seq<char>, input2: Seq<char>) -> Seq<char> {
    match side {
        Side::First => input1,
        Side::Second => input2,
    }
}

/// The row that reports a finding, with the names of the two tables.
pub open spec fn difference_row(
    difference: DifferenceModel,
    input1: Seq<char>,
    input2: Seq<char>,
) -> Seq<char> {
    match difference {
        DifferenceModel::Extra { table, key } => "Extra in "@ + side_name(table, input1, input2)
            + ": "@ + key,
        DifferenceModel::Mismatch { key, field, first, second } => "Mismatch: id: "@ + key
            + ", field: "@ + field + ", ("@ + input1 + ") "@ + first + " != ("@ + input2 + ") "@
            + second,
        DifferenceModel::MissingField { table, key, field } => "Missing field in "@ + side_name(
            table,
            input1,
            input2,
        ) + ": id: "@ + key + ", field: "@ + field,
    }
}

/// The rows that report the findings, in their order.
pub open spec fn difference_rows(
    differences: Seq<DifferenceModel>,
    input1: Seq<char>,
    input2: Seq<char>,
) -> Seq<Seq<char>> {
    differences.map_values(|difference: DifferenceModel| difference_row(difference, input1, input2))
}

impl Difference {
    /// The row that reports this finding, with the names of the two tables.
    pub fn row(&self, input1: &str, input2: &str) -> (row: String)
        ensures
            row@ == difference_row(self@, input1@, input2@),
    {
        match self {
            Difference::Extra { table, key } => {
                let mut row = String::from_str("Extra in ");
                match table {
                    Side::First => row.append(input1),
                    Side::Second => row.append(input2),
                }
                row.append(": ");
                row.append(key.as_str());
                row
            },
            Difference::Mismatch { key, field, first, second } => {
                let mut row = String::from_str("Mismatch: id: ");
                row.append(key.as_str());
                row.append(", field: ");
                row.append(field.as_str());
                row.append(", (");
                row.append(input1);
                row.append(") ");
                row.append(first.as_str());
                row.append(" != (");
                row.append(input2);
                row.append(") ");
                row.append(second.as_str());
                row
            },
            Difference::MissingField { table, key, field } => {
                let mut row = String::from_str("Missing field in ");
                match table {
                    Side::First => row.append(input1),
                    Side::Second => row.append(input2),
                }
                row.append(": id: ");
                row.append(key.as_str());
                row.append(", field: ");
                row.append(field.as_str());
                row
            },
        }
    }
}

/// The node that compares two tables by an identity field and writes the
/// findings, one row each, under a path.
#[derive(Debug)]
pub struct OutputCompare {
    pub node_name: String,
    pub input1: String,
    pub input2: String,
    pub path: String,
    pub identity_field: String,
}

/// What an `OutputCompare` holds, as a mathematical value.
pub struct CompareModel {
    pub node_name: Seq<char>,
    pub input1: Seq<char>,
    pub input2: Seq<char>,
    pub path: Seq<char>,
    pub identity_field: Seq<char>,
}

impl View for OutputCompare {
    type V = CompareModel;

    open spec fn view(&self) -> CompareModel {
        CompareModel {
            node_name: self.node_name@,
            input1: self.input1@,
            input2: self.input2@,
            path: self.path@,
            identity_field: self.identity_field@,
        }
    }
}

/// The node that a configuration describes: the texts under `input1`,
/// `input2`, `path` and `identity_field`, or the first of them that is missing.
pub open spec fn compare_config(node_name: Seq<char>, config: DocumentModel) -> Result<
    CompareModel,
    ErrorModel,
> {
    match text_member(config, "input1"@) {
        None => Err(ErrorModel::MissingField("input1"@)),
        Some(input1) => match text_member(config, "input2"@) {
            None => Err(ErrorModel::MissingField("input2"@)),
            Some(input2) => match text_member(config, "path"@) {
                None => Err(ErrorModel::MissingField("path"@)),
                Some(path) => match text_member(config, "identity_field"@) {
                    None => Err(ErrorModel::MissingField("identity_field"@)),
                    Some(identity_field) => Ok(
                        CompareModel { node_name, input1, input2, path, identity_field },
                    ),
                },
            },
        },
    }
}

/// The rows that the comparison of a node gives on the tables of a state. A
/// table that is not there, or a record without the identity field, fails the whole.
pub open spec fn comparison_rows(node: CompareModel, tables: Seq<TableModel>) -> Result<
    Seq<Seq<char>>,
    ErrorModel,
> {
    match table_named(tables, node.input1) {
        None => Err(ErrorModel::UnknownTable(node.input1)),
        Some(first) => match table_named(tables, node.input2) {
            None => Err(ErrorModel::UnknownTable(node.input2)),
            Some(second) => match table_differences(
                first.records,
                second.records,
                node.identity_field,
            ) {
                None => Err(ErrorModel::MalformedData),
                Some(differences) => Ok(difference_rows(differences, node.input1, node.input2)),
            },
        },
    }
}

impl OutputCompare {
    /// The rows that this comparison gives on the tables of a state.
    pub fn evaluate(&self, state: &State) -> (rows: Result<Vec<String>, PipelineError>)
        ensures
            match rows {
                Ok(rows) => comparison_rows(self@, state@.tables) == Ok::<
                    Seq<Seq<char>>,
                    ErrorModel,
                >(lines(rows@)),
                Err(error) => comparison_rows(self@, state@.tables) == Err::<
                    Seq<Seq<char>>,
                    ErrorModel,
                >(error@),
            },
    {
        let first = match state.find_table(self.input1.as_str()) {
            Some(table) => table,
            None => {
                return Err(PipelineError::UnknownTable(self.input1.clone()));
            },
        };
        let second = match state.find_table(self.input2.as_str()) {
            Some(table) => table,
            None => {
                return Err(PipelineError::UnknownTable(self.input2.clone()));
            },
        };
        let differences = match compare_tables(first, second, self.identity_field.as_str()) {
            Ok(differences) => differences,
            Err(error) => {
                return Err(error);
            },
        };
        let mut rows: Vec<String> = Vec::new();
        let mut i: usize = 0;
        let ghost expected = difference_rows(
            differences_model(differences@),
            self.input1@,
            self.input2@,
        );
        while i < differences.len()
            invariant
                i <= differences@.len(),
                expected == difference_rows(
                    differences_model(differences@),
                    self.input1@,
                    self.input2@,
                ),
                lines(rows@) == expected.take(i as int),
            decreases differences@.len() - i,
        {
            let row = differences[i].row(self.input1.as_str(), self.input2.as_str());
            proof {
                assert(lines(rows@).len() == i);
                assert(expected[i as int] == difference_row(
                    differences@[i as int]@,
                    self.input1@,
                    self.input2@,
                ));
                assert(lines(rows@.push(row)) =~= lines(rows@).push(row@));
                assert(expected.take(i + 1) =~= expected.take(i as int).push(expected[i as int]));
            }
            rows.push(row);
            i += 1;
        }
        proof {
            assert(expected.take(i as int) =~= expected);
        }
        Ok(rows)
    }
}

/// What a run of the node comes to: the rows of the findings are written
/// under the path of the node, and nothing is left to do outside.
pub open spec fn compare_run(node: CompareModel, tables: Seq<TableModel>) -> Result<
    RunModel,
    ErrorModel,
> {
    match comparison_rows(node, tables) {
        Ok(rows) => Ok(RunModel { written: Some((node.path, rows)), action: ActionModel::Done }),
        Err(error) => Err(error),
    }
}

impl OutputCompare {
    /// Registers this kind of node under the name of its driver, `output::compare`.
    pub fn register(factory: &mut Factory)
        ensures
            registry_model(final(factory).registry@) == inserted(
                registry_model(old(factory).registry@),
                "output::compare"@,
                Driver::OutputCompare,
            ),
            final(factory).templates == old(factory).templates,
    {
        factory.register_process(String::from_str("output::compare"), Driver::OutputCompare);
    }
}

impl Process for OutputCompare {
    /// The node that a configuration describes.
    fn from_config(node_name: String, config: &Document) -> (node: Result<
        OutputCompare,
        PipelineError,
    >)
        ensures
            match node {
                Ok(node) => compare_config(node_name@, config@) == Ok::<CompareModel, ErrorModel>(
                    node@,
                ),
                Err(error) => compare_config(node_name@, config@) == Err::<
                    CompareModel,
                    ErrorModel,
                >(error@),
            },
    {
        let input1 = match read_config_field(config, "input1") {
            Ok(text) => text,
            Err(error) => {
                return Err(error);
            },
        };
        let input2 = match read_config_field(config, "input2") {
            Ok(text) => text,
            Err(error) => {
                return Err(error);
            },
        };
        let path = match read_config_field(config, "path") {
            Ok(text) => text,
            Err(error) => {
                return Err(error);
            },
        };
        let identity_field = match read_config_field(config, "identity_field") {
            Ok(text) => text,
            Err(error) => {
                return Err(error);
            },
        };
        Ok(OutputCompare { node_name, input1, input2, path, identity_field })
    }

    /// Compares the two tables and writes the rows of the findings under
    /// the path of the node. A table that is not there, or a record without
    /// the identity field, ends the run before anything is written.
    fn run(&self, state: &mut State) -> (done: Result<Action, PipelineError>)
        ensures
            final(state)@ == old(state)@,
            ran(
                compare_run(self@, old(state)@.tables),
                old(state).results_writer.held(),
                done,
                final(state).results_writer.held(),
            ),
    {
        proof {
            lemma_begins_with_itself(state@.tables);
        }
        let rows = match self.evaluate(state) {
            Ok(rows) => rows,
            Err(error) => {
                return Err(error);
            },
        };
        state.write_file(self.path.as_str(), rows.as_slice());
        Ok(Action::Done)
    }
}

} // verus!
