//! Structured documents: the JSON-like values that configurations, templates,
//! checkpoints and source data are written in.

use crate::entries::{find_entry, lemma_lookup_first, lookup};
use vstd::prelude::*;

verus! {

/// A structured document. A number with a fraction or an exponent is held as
/// its decimal text: documents carry such numbers, they never compute with them.
/// An object keeps its members in the order in which they were given.
#[derive(Debug)]
pub enum Document {
    Null,
    Bool(bool),
    Int(i128),
    Float(String),
    String(String),
    Array(Vec<Document>),
    Object(Vec<(String, Document)>),
}

/// What a `Document` holds, as a mathematical value.
pub enum DocumentModel {
    Null,
    Bool(bool),
    Int(int),
    Float(Seq<char>),
    String(Seq<char>),
    Array(Seq<DocumentModel>),
    Object(Seq<(Seq<char>, DocumentModel)>),
}

impl DocumentModel {
    /// The member of an object under this key; nothing for any other document.
    pub open spec fn member(self, key: Seq<char>) -> Option<DocumentModel> {
        match self {
            DocumentModel::Object(entries) => lookup(entries, key),
            _ => None,
        }
    }

    /// The text of a string document.
    pub open spec fn text(self) -> Option<Seq<char>> {
        match self {
            DocumentModel::String(text) => Some(text),
            _ => None,
        }
    }
}

/// What a document holds.
pub open spec fn document_model(document: Document) -> DocumentModel
    decreases document,
{
    match document {
        Document::Null => DocumentModel::Null,
        Document::Bool(b) => DocumentModel::Bool(b),
        Document::Int(i) => DocumentModel::Int(i as int),
        Document::Float(text) => DocumentModel::Float(text@),
        Document::String(text) => DocumentModel::String(text@),
        Document::Array(items) => DocumentModel::Array(items_model(items@)),
        Document::Object(entries) => DocumentModel::Object(members_model(entries@)),
    }
}

/// What the items of an array hold, item by item.
pub open spec fn items_model(items: Seq<Document>) -> Seq<DocumentModel>
    decreases items,
{
    if items.len() == 0 {
        Seq::empty()
    } else {
        items_model(items.drop_last()).push(document_model(items.last()))
    }
}

/// What the members of an object hold, member by member.
pub open spec fn members_model(entries: Seq<(String, Document)>) -> Seq<(Seq<char>, DocumentModel)>
    decreases entries,
{
    if entries.len() == 0 {
        Seq::empty()
    } else {
        members_model(entries.drop_last()).push(
            (entries.last().0@, document_model(entries.last().1)),
        )
    }
}

impl View for Document {
    type V = DocumentModel;

    open spec fn view(&self) -> DocumentModel {
        document_model(*self)
    }
}

/// What the items of an array hold.
pub open spec fn array_model(items: Seq<Document>) -> Seq<DocumentModel> {
    items.map_values(|item: Document| item@)
}

/// What the members of an object hold.
pub open spec fn object_model(entries: Seq<(String, Document)>) -> Seq<(Seq<char>, DocumentModel)> {
    entries.map_values(|entry: (String, Document)| (entry.0@, entry.1@))
}

proof fn lemma_items_model(items: Seq<Document>)
    ensures
        items_model(items) == array_model(items),
    decreases items.len(),
{
    if items.len() > 0 {
        lemma_items_model(items.drop_last());
    }
    assert(items_model(items) =~= array_model(items));
}

proof fn lemma_members_model(entries: Seq<(String, Document)>)
    ensures
        members_model(entries) == object_model(entries),
    decreases entries.len(),
{
    if entries.len() > 0 {
        lemma_members_model(entries.drop_last());
    }
    assert(members_model(entries) =~= object_model(entries));
}

/// One more item at the end of an array is one more at the end of what it holds.
pub proof fn lemma_array_model_push(items: Seq<Document>, item: Document)
    ensures
        array_model(items.push(item)) == array_model(items).push(item@),
{
    assert(array_model(items.push(item)) =~= array_model(items).push(item@));
}

/// One more member at the end of an object is one more at the end of what it holds.
pub proof fn lemma_object_model_push(entries: Seq<(String, Document)>, entry: (String, Document))
    ensures
        object_model(entries.push(entry)) == object_model(entries).push((entry.0@, entry.1@)),
{
    assert(object_model(entries.push(entry)) =~= object_model(entries).push((entry.0@, entry.1@)));
}

/// An array document holds what its items hold, in their order.
pub proof fn lemma_array_view(items: Vec<Document>)
    ensures
        Document::Array(items)@ == DocumentModel::Array(array_model(items@)),
{
    lemma_items_model(items@);
}

/// An object document holds what its members hold, in their order.
pub proof fn lemma_object_view(entries: Vec<(String, Document)>)
    ensures
        Document::Object(entries)@ == DocumentModel::Object(object_model(entries@)),
{
    lemma_members_model(entries@);
}

impl Clone for Document {
    fn clone(&self) -> (copy: Document)
        ensures
            copy@ == self@,
        decreases self,
    {
        match self {
            Document::Null => Document::Null,
            Document::Bool(b) => Document::Bool(*b),
            Document::Int(i) => Document::Int(*i),
            Document::Float(text) => Document::Float(text.clone()),
            Document::String(text) => Document::String(text.clone()),
            Document::Array(items) => {
                let mut copies: Vec<Document> = Vec::new();
                let mut i: usize = 0;
                while i < items.len()
                    invariant
                        i <= items@.len(),
                        decreases_to!(self => items),
                        array_model(copies@) == array_model(items@).take(i as int),
                    decreases items@.len() - i,
                {
                    let copy = items[i].clone();
                    proof {
                        let before = array_model(copies@);
                        let after = array_model(copies@.push(copy));
                        assert(before.len() == i);
                        assert forall|j: int| 0 <= j < i + 1 implies after[j] == array_model(
                            items@,
                        )[j] by {
                            if j < i {
                                assert(after[j] == before[j]);
                            }
                        }
                        assert(after =~= array_model(items@).take(i + 1));
                    }
                    copies.push(copy);
                    i += 1;
                }
                proof {
                    assert(array_model(items@).take(i as int) =~= array_model(items@));
                    lemma_array_view(*items);
                    lemma_array_view(copies);
                }
                Document::Array(copies)
            },
            Document::Object(entries) => {
                let mut copies: Vec<(String, Document)> = Vec::new();
                let mut i: usize = 0;
                while i < entries.len()
                    invariant
                        i <= entries@.len(),
                        decreases_to!(self => entries),
                        object_model(copies@) == object_model(entries@).take(i as int),
                    decreases entries@.len() - i,
                {
                    let key = entries[i].0.clone();
                    let copy = entries[i].1.clone();
                    proof {
                        let before = object_model(copies@);
                        let after = object_model(copies@.push((key, copy)));
                        assert(before.len() == i);
                        assert forall|j: int| 0 <= j < i + 1 implies after[j] == object_model(
                            entries@,
                        )[j] by {
                            if j < i {
                                assert(after[j] == before[j]);
                            }
                        }
                        assert(after =~= object_model(entries@).take(i + 1));
                    }
                    copies.push((key, copy));
                    i += 1;
                }
                proof {
                    assert(object_model(entries@).take(i as int) =~= object_model(entries@));
                    lemma_object_view(*entries);
                    lemma_object_view(copies);
                }
                Document::Object(copies)
            },
        }
    }
}

/// A copy of the members of an object.
pub fn copy_members(entries: &Vec<(String, Document)>) -> (copies: Vec<(String, Document)>)
    ensures
        object_model(copies@) == object_model(entries@),
{
    let mut copies: Vec<(String, Document)> = Vec::new();
    let mut i: usize = 0;
    while i < entries.len()
        invariant
            i <= entries@.len(),
            object_model(copies@) == object_model(entries@).take(i as int),
        decreases entries@.len() - i,
    {
        let key = entries[i].0.clone();
        let copy = entries[i].1.clone();
        proof {
            lemma_object_model_push(copies@, (key, copy));
            assert(object_model(entries@).take(i + 1) =~= object_model(entries@).take(
                i as int,
            ).push(object_model(entries@)[i as int]));
        }
        copies.push((key, copy));
        i += 1;
    }
    proof {
        assert(object_model(entries@).take(i as int) =~= object_model(entries@));
    }
    copies
}

impl Document {
    /// The member of an object under `key`: the first, where several have it.
    /// Nothing for a document that is no object or has no such member.
    pub fn get(&self, key: &str) -> (found: Option<&Document>)
        ensures
            found matches Some(document) ==> self@.member(key@) == Some(document@),
            found is None ==> self@.member(key@) is None,
    {
        match self {
            Document::Object(entries) => {
                proof {
                    lemma_object_view(*entries);
                }
                let at = find_entry(entries, key);
                proof {
                    let held = object_model(entries@);
                    assert forall|j: int| 0 <= j < at implies (#[trigger] held[j]).0 != key@ by {
                        assert(held[j].0 == entries@[j].0@);
                    }
                    lemma_lookup_first(held, key@, at as int);
                }
                if at < entries.len() {
                    Some(&entries[at].1)
                } else {
                    None
                }
            },
            _ => None,
        }
    }

    /// The text of a string document.
    pub fn as_str(&self) -> (text: Option<&str>)
        ensures
            text matches Some(t) ==> self@.text() == Some(t@),
            text is None ==> self@.text() is None,
    {
        match self {
            Document::String(text) => Some(text.as_str()),
            _ => None,
        }
    }

    /// The items of an array document.
    pub fn as_array(&self) -> (items: Option<&Vec<Document>>)
        ensures
            items matches Some(v) ==> self@ == DocumentModel::Array(array_model(v@)),
            items is None ==> !(self@ is Array),
    {
        match self {
            Document::Array(items) => {
                proof {
                    lemma_array_view(*items);
                }
                Some(items)
            },
            _ => None,
        }
    }

    /// The members of an object document.
    pub fn as_object(&self) -> (entries: Option<&Vec<(String, Document)>>)
        ensures
            entries matches Some(v) ==> self@ == DocumentModel::Object(object_model(v@)),
            entries is None ==> !(self@ is Object),
    {
        match self {
            Document::Object(entries) => {
                proof {
                    lemma_object_view(*entries);
                }
                Some(entries)
            },
            _ => None,
        }
    }
}

} // verus!
