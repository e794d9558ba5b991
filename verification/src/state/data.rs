//! Records and tables: the data that the nodes of a pipeline hand to each other.

use crate::error::{ErrorModel, PipelineError};
use crate::entries::{
    distinct_keys,
    find_entry,
    has_key,
    inserted,
    lemma_inserted_at,
    lemma_inserted_distinct,
    lemma_lookup_first,
    lemma_lookup_has_key,
    lookup,
};
use crate::state::document::{
    array_model,
    lemma_array_model_push,
    lemma_object_model_push,
    lemma_object_view,
    object_model,
    Document,
    DocumentModel,
};
use crate::state::variant::{
    document_of_variant,
    lemma_document_round_trip,
    variant_of_document,
    Variant,
    VariantModel,
};
use vstd::prelude::*;

verus! {

/// What a record holds: its fields, each a name and a value.
pub type RecordModel = Seq<(Seq<char>, VariantModel)>;

/// A record: named values. The fields stand in the order in which their names
/// came in first; `insert` keeps every name once.
#[derive(Debug)]
pub struct Record {
    pub fields: Vec<(String, Variant)>,
}

/// A table: a name and the records under it, in the order in which the node
/// that made the table produced them.
#[derive(Debug)]
pub struct Table {
    pub name: String,
    pub records: Vec<Record>,
}

/// What a `Table` holds, as a mathematical value.
pub struct TableModel {
    pub name: Seq<char>,
    pub records: Seq<RecordModel>,
}

impl View for Record {
    type V = RecordModel;

    open spec fn view(&self) -> RecordModel {
        self.fields@.map_values(|field: (String, Variant)| (field.0@, field.1@))
    }
}

/// What the records of a list hold.
pub open spec fn records_model(records: Seq<Record>) -> Seq<RecordModel> {
    records.map_values(|record: Record| record@)
}

impl View for Table {
    type V = TableModel;

    open spec fn view(&self) -> TableModel {
        TableModel { name: self.name@, records: records_model(self.records@) }
    }
}

impl Record {
    /// Whether no name occurs twice among the fields.
    pub open spec fn wf(&self) -> bool {
        distinct_keys(self@)
    }

    /// A record without fields.
    pub fn new() -> (record: Record)
        ensures
            record@ == Seq::<(Seq<char>, VariantModel)>::empty(),
            record.wf(),
    {
        let record = Record { fields: Vec::new() };
        proof {
            assert(record@ =~= Seq::<(Seq<char>, VariantModel)>::empty());
        }
        record
    }

    /// Sets the field `name` to `value`: in place where the record has the
    /// field, at the end where it has not.
    pub fn insert(&mut self, name: String, value: Variant)
        ensures
            final(self)@ == inserted(old(self)@, name@, value@),
            old(self).wf() ==> final(self).wf(),
    {
        let at = find_entry(&self.fields, name.as_str());
        proof {
            let held = self@;
            assert forall|j: int| 0 <= j < at implies (#[trigger] held[j]).0 != name@ by {
                assert(held[j].0 == self.fields@[j].0@);
            }
            lemma_inserted_at(held, name@, value@, at as int);
            if self.wf() {
                lemma_inserted_distinct(held, name@, value@);
            }
        }
        let ghost before = self@;
        if at < self.fields.len() {
            self.fields.set(at, (name, value));
            proof {
                assert(self@ =~= before.update(at as int, (name@, value@)));
            }
        } else {
            self.fields.push((name, value));
            proof {
                assert(self@ =~= before.push((name@, value@)));
            }
        }
    }

    /// The value of the field `name`, where the record has the field.
    pub fn get(&self, name: &str) -> (found: Option<&Variant>)
        ensures
            found matches Some(value) ==> lookup(self@, name@) == Some(value@),
            found is None ==> lookup(self@, name@) is None,
    {
        let at = find_entry(&self.fields, name);
        proof {
            let held = self@;
            assert forall|j: int| 0 <= j < at implies (#[trigger] held[j]).0 != name@ by {
                assert(held[j].0 == self.fields@[j].0@);
            }
            lemma_lookup_first(held, name@, at as int);
        }
        if at < self.fields.len() {
            Some(&self.fields[at].1)
        } else {
            None
        }
    }

    /// Whether the record has the field `name`.
    pub fn contains_key(&self, name: &str) -> (found: bool)
        ensures
            found == has_key(self@, name@),
            found == lookup(self@, name@) is Some,
    {
        proof {
            lemma_lookup_has_key(self@, name@);
        }
        self.get(name).is_some()
    }

    /// The number of fields.
    pub fn len(&self) -> (count: usize)
        ensures
            count == self@.len(),
    {
        self.fields.len()
    }
}

/// The document of a record: an object with a member for each field, in
/// the order of the fields.
pub open spec fn document_of_record(fields: RecordModel) -> DocumentModel {
    DocumentModel::Object(
        fields.map_values(
            |field: (Seq<char>, VariantModel)| (field.0, document_of_variant(field.1)),
        ),
    )
}

/// The record that the members of an object describe: each member sets the
/// field of its key, the later of two members of one key over the earlier.
/// A member whose value is none of null, string and number fails the whole.
pub open spec fn record_of_members(members: Seq<(Seq<char>, DocumentModel)>) -> Result<
    RecordModel,
    ErrorModel,
>
    decreases members.len(),
{
    if members.len() == 0 {
        Ok(Seq::empty())
    } else {
        match record_of_members(members.drop_last()) {
            Err(error) => Err(error),
            Ok(fields) => match variant_of_document(members.last().1) {
                None => Err(ErrorModel::UnsupportedValueKind),
                Some(value) => Ok(inserted(fields, members.last().0, value)),
            },
        }
    }
}

/// The record that a document describes. A document that is no object is
/// malformed data.
pub open spec fn record_of_document(document: DocumentModel) -> Result<RecordModel, ErrorModel> {
    match document {
        DocumentModel::Object(members) => record_of_members(members),
        _ => Err(ErrorModel::MalformedData),
    }
}

/// A record that members describe has no name twice.
pub proof fn lemma_record_of_members_distinct(members: Seq<(Seq<char>, DocumentModel)>)
    ensures
        record_of_members(members) matches Ok(fields) ==> distinct_keys(fields),
    decreases members.len(),
{
    if members.len() > 0 {
        lemma_record_of_members_distinct(members.drop_last());
        if let Ok(fields) = record_of_members(members.drop_last()) {
            if let Some(value) = variant_of_document(members.last().1) {
                lemma_inserted_distinct(fields, members.last().0, value);
            }
        }
    }
}

/// Where the beginning of the members fails, the members fail in the same way.
pub proof fn lemma_record_of_members_failure(members: Seq<(Seq<char>, DocumentModel)>, n: int)
    requires
        0 <= n <= members.len(),
        record_of_members(members.take(n)) is Err,
    ensures
        record_of_members(members) == record_of_members(members.take(n)),
    decreases members.len() - n,
{
    if n < members.len() {
        assert(members.take(n + 1).drop_last() =~= members.take(n));
        lemma_record_of_members_failure(members, n + 1);
    } else {
        assert(members.take(n) =~= members);
    }
}

/// A record whose names are all different comes back from its document as it was.
pub proof fn lemma_record_round_trip(fields: RecordModel)
    requires
        distinct_keys(fields),
    ensures
        record_of_document(document_of_record(fields)) == Ok::<RecordModel, ErrorModel>(fields),
    decreases fields.len(),
{
    let members = document_of_record(fields)->Object_0;
    if fields.len() == 0 {
        assert(fields =~= Seq::empty());
    } else {
        let front = fields.drop_last();
        assert(members.drop_last() =~= document_of_record(front)->Object_0);
        lemma_record_round_trip(front);
        assert(members.last() == (fields.last().0, document_of_variant(fields.last().1)));
        lemma_document_round_trip(fields.last().1);
        assert forall|j: int| 0 <= j < front.len() implies (#[trigger] front[j]).0
            != fields.last().0 by {
            assert(front[j] == fields[j]);
        }
        lemma_inserted_at(front, fields.last().0, fields.last().1, front.len() as int);
        assert(front.push(fields.last()) =~= fields);
    }
}

impl Record {
    /// The document of this record.
    pub fn to_document(&self) -> (document: Document)
        ensures
            document@ == document_of_record(self@),
    {
        let mut members: Vec<(String, Document)> = Vec::new();
        let mut i: usize = 0;
        let ghost expected = document_of_record(self@)->Object_0;
        while i < self.fields.len()
            invariant
                i <= self.fields@.len(),
                expected == document_of_record(self@)->Object_0,
                object_model(members@) == expected.take(i as int),
            decreases self.fields@.len() - i,
        {
            let name = self.fields[i].0.clone();
            let value = self.fields[i].1.to_serde_value();
            proof {
                lemma_object_model_push(members@, (name, value));
                assert(expected[i as int] == (name@, value@));
                assert(expected.take(i + 1) =~= expected.take(i as int).push(expected[i as int]));
            }
            members.push((name, value));
            i += 1;
        }
        proof {
            assert(expected.take(i as int) =~= expected);
            lemma_object_view(members);
        }
        Document::Object(members)
    }

    /// The record that a document describes: an object whose members are
    /// null, strings or numbers. The later of two members of one key wins.
    pub fn from_document(document: &Document) -> (record: Result<Record, PipelineError>)
        ensures
            match record {
                Ok(record) => record_of_document(document@) == Ok::<RecordModel, ErrorModel>(
                    record@,
                ) && record.wf(),
                Err(error) => record_of_document(document@) == Err::<RecordModel, ErrorModel>(
                    error@,
                ),
            },
    {
        let members = match document {
            Document::Object(members) => {
                proof {
                    lemma_object_view(*members);
                    lemma_record_of_members_distinct(object_model(members@));
                }
                members
            },
            _ => {
                return Err(PipelineError::MalformedData);
            },
        };
        let mut record = Record::new();
        let mut i: usize = 0;
        let ghost models = object_model(members@);
        proof {
            assert(models.take(0) =~= Seq::empty());
        }
        while i < members.len()
            invariant
                i <= members@.len(),
                models == object_model(members@),
                record_of_document(document@) == record_of_members(models),
                record_of_members(models.take(i as int)) == Ok::<RecordModel, ErrorModel>(record@),
            decreases members@.len() - i,
        {
            proof {
                let next = models.take(i + 1);
                assert(next.drop_last() =~= models.take(i as int));
                assert(next.last() == (members@[i as int].0@, members@[i as int].1@));
            }
            match Variant::from_serde_value(&members[i].1) {
                Ok(value) => {
                    record.insert(members[i].0.clone(), value);
                },
                Err(error) => {
                    proof {
                        assert(record_of_members(models.take(i + 1)) == Err::<
                            RecordModel,
                            ErrorModel,
                        >(error@));
                        lemma_record_of_members_failure(models, i + 1);
                    }
                    return Err(error);
                },
            }
            i += 1;
        }
        proof {
            assert(models.take(i as int) =~= models);
        }
        Ok(record)
    }
}

/// Whether no record of the list has a name twice.
pub open spec fn records_distinct(records: Seq<RecordModel>) -> bool {
    forall|j: int| 0 <= j < records.len() ==> distinct_keys(#[trigger] records[j])
}

impl Table {
    /// Whether no record of the table has a name twice.
    pub open spec fn wf(&self) -> bool {
        records_distinct(self@.records)
    }
}

/// Whether no record of the tables has a name twice.
pub open spec fn records_well_formed(tables: Seq<TableModel>) -> bool {
    forall|i: int, j: int|
        0 <= i < tables.len() && 0 <= j < tables[i].records.len() ==> distinct_keys(
            #[trigger] tables[i].records[j],
        )
}

/// One more table whose records have no name twice keeps the tables so.
pub proof fn lemma_push_well_formed(tables: Seq<TableModel>, table: TableModel)
    requires
        records_distinct(table.records),
    ensures
        records_well_formed(tables) ==> records_well_formed(tables.push(table)),
{
    if records_well_formed(tables) {
        let longer = tables.push(table);
        assert forall|i: int, j: int|
            0 <= i < longer.len() && 0 <= j < longer[i].records.len() implies distinct_keys(
            #[trigger] longer[i].records[j],
        ) by {
            if i < tables.len() {
                assert(longer[i] == tables[i]);
            }
        }
    }
}

/// The documents of the records of a list.
pub open spec fn documents_of_records(records: Seq<RecordModel>) -> Seq<DocumentModel> {
    records.map_values(|record: RecordModel| document_of_record(record))
}

/// The records that the documents of a list describe, or the failure of the
/// first document that describes none.
pub open spec fn records_of_documents(items: Seq<DocumentModel>) -> Result<
    Seq<RecordModel>,
    ErrorModel,
>
    decreases items.len(),
{
    if items.len() == 0 {
        Ok(Seq::empty())
    } else {
        match records_of_documents(items.drop_last()) {
            Err(error) => Err(error),
            Ok(front) => match record_of_document(items.last()) {
                Err(error) => Err(error),
                Ok(last) => Ok(front.push(last)),
            },
        }
    }
}

/// The records that documents describe have no name twice.
pub proof fn lemma_records_of_documents_distinct(items: Seq<DocumentModel>)
    ensures
        records_of_documents(items) matches Ok(records) ==> records_distinct(records),
    decreases items.len(),
{
    if items.len() > 0 {
        lemma_records_of_documents_distinct(items.drop_last());
        if let DocumentModel::Object(members) = items.last() {
            lemma_record_of_members_distinct(members);
        }
        if let Ok(front) = records_of_documents(items.drop_last()) {
            if let Ok(last) = record_of_document(items.last()) {
                let records = front.push(last);
                assert forall|j: int| 0 <= j < records.len() implies distinct_keys(
                    #[trigger] records[j],
                ) by {
                    if j < front.len() {
                        assert(records[j] == front[j]);
                    }
                }
            }
        }
    }
}

/// Where the beginning of a list fails, the list fails in the same way.
pub proof fn lemma_records_of_documents_failure(items: Seq<DocumentModel>, n: int)
    requires
        0 <= n <= items.len(),
        records_of_documents(items.take(n)) is Err,
    ensures
        records_of_documents(items) == records_of_documents(items.take(n)),
    decreases items.len() - n,
{
    if n < items.len() {
        assert(items.take(n + 1).drop_last() =~= items.take(n));
        lemma_records_of_documents_failure(items, n + 1);
    } else {
        assert(items.take(n) =~= items);
    }
}

/// Records whose names are all different come back from their documents as they were.
pub proof fn lemma_records_round_trip(records: Seq<RecordModel>)
    requires
        forall|i: int| 0 <= i < records.len() ==> distinct_keys(#[trigger] records[i]),
    ensures
        records_of_documents(documents_of_records(records)) == Ok::<Seq<RecordModel>, ErrorModel>(
            records,
        ),
    decreases records.len(),
{
    let items = documents_of_records(records);
    if records.len() == 0 {
        assert(records =~= Seq::empty());
    } else {
        let front = records.drop_last();
        assert(items.drop_last() =~= documents_of_records(front));
        assert forall|i: int| 0 <= i < front.len() implies distinct_keys(#[trigger] front[i]) by {
            assert(front[i] == records[i]);
        }
        lemma_records_round_trip(front);
        lemma_record_round_trip(records.last());
        assert(front.push(records.last()) =~= records);
    }
}

/// The documents of the records of a list.
pub fn records_to_documents(records: &Vec<Record>) -> (items: Vec<Document>)
    ensures
        array_model(items@) == documents_of_records(records_model(records@)),
{
    let mut items: Vec<Document> = Vec::new();
    let mut i: usize = 0;
    let ghost expected = documents_of_records(records_model(records@));
    while i < records.len()
        invariant
            i <= records@.len(),
            expected == documents_of_records(records_model(records@)),
            array_model(items@) == expected.take(i as int),
        decreases records@.len() - i,
    {
        let item = records[i].to_document();
        proof {
            lemma_array_model_push(items@, item);
            assert(expected[i as int] == item@);
            assert(expected.take(i + 1) =~= expected.take(i as int).push(expected[i as int]));
        }
        items.push(item);
        i += 1;
    }
    proof {
        assert(expected.take(i as int) =~= expected);
    }
    items
}

/// The records that the documents of a list describe.
pub fn records_from_documents(items: &Vec<Document>) -> (records: Result<
    Vec<Record>,
    PipelineError,
>)
    ensures
        match records {
            Ok(records) => records_of_documents(array_model(items@)) == Ok::<
                Seq<RecordModel>,
                ErrorModel,
            >(records_model(records@)) && records_distinct(records_model(records@)),
            Err(error) => records_of_documents(array_model(items@)) == Err::<
                Seq<RecordModel>,
                ErrorModel,
            >(error@),
        },
{
    let mut records: Vec<Record> = Vec::new();
    let mut i: usize = 0;
    let ghost models = array_model(items@);
    proof {
        assert(models.take(0) =~= Seq::empty());
        assert(records_model(records@) =~= Seq::empty());
        lemma_records_of_documents_distinct(models);
    }
    while i < items.len()
        invariant
            i <= items@.len(),
            models == array_model(items@),
            records_of_documents(models.take(i as int)) == Ok::<Seq<RecordModel>, ErrorModel>(
                records_model(records@),
            ),
        decreases items@.len() - i,
    {
        proof {
            let next = models.take(i + 1);
            assert(next.drop_last() =~= models.take(i as int));
            assert(next.last() == items@[i as int]@);
        }
        match Record::from_document(&items[i]) {
            Ok(record) => {
                proof {
                    assert(records_model(records@.push(record)) =~= records_model(records@).push(
                        record@,
                    ));
                }
                records.push(record);
            },
            Err(error) => {
                proof {
                    assert(records_of_documents(models.take(i + 1)) == Err::<
                        Seq<RecordModel>,
                        ErrorModel,
                    >(error@));
                    lemma_records_of_documents_failure(models, i + 1);
                }
                return Err(error);
            },
        }
        i += 1;
    }
    proof {
        assert(models.take(i as int) =~= models);
    }
    Ok(records)
}

} // verus!
