//! Lists of named entries: the fields of a record, the members of an object,
//! the files of a sink. The first entry of a name is the one that counts.

use crate::text::text_equal;
use vstd::prelude::*;

verus! {

/// The value that the first entry with this key holds, if there is one.
pub open spec fn lookup<V>(entries: Seq<(Seq<char>, V)>, key: Seq<char>) -> Option<V>
    decreases entries.len(),
{
    if entries.len() == 0 {
        None
    } else if entries[0].0 == key {
        Some(entries[0].1)
    } else {
        lookup(entries.skip(1), key)
    }
}

/// Whether some entry has this key.
pub open spec fn has_key<V>(entries: Seq<(Seq<char>, V)>, key: Seq<char>) -> bool {
    exists|i: int| 0 <= i < entries.len() && (#[trigger] entries[i]).0 == key
}

/// Whether no key occurs twice.
pub open spec fn distinct_keys<V>(entries: Seq<(Seq<char>, V)>) -> bool {
    forall|i: int, j: int|
        0 <= i < j < entries.len() ==> (#[trigger] entries[i]).0 != (#[trigger] entries[j]).0
}

/// `lookup` finds a value exactly where some entry has the key.
pub proof fn lemma_lookup_has_key<V>(entries: Seq<(Seq<char>, V)>, key: Seq<char>)
    ensures
        lookup(entries, key) is Some <==> has_key(entries, key),
    decreases entries.len(),
{
    if entries.len() > 0 {
        if entries[0].0 == key {
            assert(has_key(entries, key));
        } else {
            let rest = entries.skip(1);
            lemma_lookup_has_key(rest, key);
            if has_key(rest, key) {
                let i = choose|i: int| 0 <= i < rest.len() && (#[trigger] rest[i]).0 == key;
                assert(entries[i + 1] == rest[i]);
            }
            if has_key(entries, key) {
                let i = choose|i: int| 0 <= i < entries.len() && (#[trigger] entries[i]).0 == key;
                assert(rest[i - 1] == entries[i]);
            }
        }
    }
}

/// Where `at` is the first position whose entry has the key, `lookup` finds
/// that entry's value; where no entry has it, `lookup` finds nothing.
pub proof fn lemma_lookup_first<V>(entries: Seq<(Seq<char>, V)>, key: Seq<char>, at: int)
    requires
        0 <= at <= entries.len(),
        forall|j: int| 0 <= j < at ==> (#[trigger] entries[j]).0 != key,
        at < entries.len() ==> entries[at].0 == key,
    ensures
        at < entries.len() ==> lookup(entries, key) == Some(entries[at].1),
        at == entries.len() ==> lookup(entries, key) is None,
    decreases entries.len(),
{
    if entries.len() > 0 && at > 0 {
        let rest = entries.skip(1);
        assert(entries[0].0 != key);
        assert forall|j: int| 0 <= j < at - 1 implies (#[trigger] rest[j]).0 != key by {
            assert(rest[j] == entries[j + 1]);
        }
        lemma_lookup_first(rest, key, at - 1);
    }
}

/// The position of the first entry with this key, or the number of entries
/// where no entry has it.
pub fn find_entry<V>(entries: &Vec<(String, V)>, key: &str) -> (at: usize)
    ensures
        at <= entries@.len(),
        at < entries@.len() ==> entries@[at as int].0@ == key@,
        forall|j: int| 0 <= j < at ==> (#[trigger] entries@[j]).0@ != key@,
{
    let mut i: usize = 0;
    while i < entries.len()
        invariant
            i <= entries@.len(),
            forall|j: int| 0 <= j < i ==> (#[trigger] entries@[j]).0@ != key@,
        decreases entries@.len() - i,
    {
        if text_equal(entries[i].0.as_str(), key) {
            return i;
        }
        i += 1;
    }
    i
}

/// The entries after `name` was set to `value`: the first entry of that name
/// holds the new value; where there was none, the entry is added at the end.
pub open spec fn inserted<V>(fields: Seq<(Seq<char>, V)>, name: Seq<char>, value: V) -> Seq<
    (Seq<char>, V),
>
    decreases fields.len(),
{
    if fields.len() == 0 {
        seq![(name, value)]
    } else if fields[0].0 == name {
        seq![(name, value)] + fields.skip(1)
    } else {
        seq![fields[0]] + inserted(fields.skip(1), name, value)
    }
}

/// `inserted` replaces the value at the first position of the name, or adds
/// the entry at the end where no entry has the name.
pub proof fn lemma_inserted_at<V>(
    fields: Seq<(Seq<char>, V)>,
    name: Seq<char>,
    value: V,
    at: int,
)
    requires
        0 <= at <= fields.len(),
        forall|j: int| 0 <= j < at ==> (#[trigger] fields[j]).0 != name,
        at < fields.len() ==> fields[at].0 == name,
    ensures
        at < fields.len() ==> inserted(fields, name, value) == fields.update(at, (name, value)),
        at == fields.len() ==> inserted(fields, name, value) == fields.push((name, value)),
    decreases fields.len(),
{
    if fields.len() == 0 {
        assert(seq![(name, value)] =~= fields.push((name, value)));
    } else if at == 0 {
        assert(seq![(name, value)] + fields.skip(1) =~= fields.update(0, (name, value)));
    } else {
        let rest = fields.skip(1);
        assert(fields[0].0 != name);
        assert forall|j: int| 0 <= j < at - 1 implies (#[trigger] rest[j]).0 != name by {
            assert(rest[j] == fields[j + 1]);
        }
        lemma_inserted_at(rest, name, value, at - 1);
        if at < fields.len() {
            assert(seq![fields[0]] + rest.update(at - 1, (name, value)) =~= fields.update(
                at,
                (name, value),
            ));
        } else {
            assert(seq![fields[0]] + rest.push((name, value)) =~= fields.push((name, value)));
        }
    }
}

/// Setting an entry keeps every name once.
pub proof fn lemma_inserted_distinct<V>(fields: Seq<(Seq<char>, V)>, name: Seq<char>, value: V)
    requires
        distinct_keys(fields),
    ensures
        distinct_keys(inserted(fields, name, value)),
        inserted(fields, name, value).len() == if has_key(fields, name) {
            fields.len()
        } else {
            fields.len() + 1
        },
{
    if has_key(fields, name) {
        let at = choose|i: int| 0 <= i < fields.len() && (#[trigger] fields[i]).0 == name;
        assert forall|j: int| 0 <= j < at implies (#[trigger] fields[j]).0 != name by {}
        lemma_inserted_at(fields, name, value, at);
    } else {
        lemma_inserted_at(fields, name, value, fields.len() as int);
    }
}

/// After an entry was set, its name finds the new value and every other name
/// finds what it found before.
pub proof fn lemma_lookup_inserted<V>(
    fields: Seq<(Seq<char>, V)>,
    name: Seq<char>,
    value: V,
    other: Seq<char>,
)
    ensures
        lookup(inserted(fields, name, value), other) == if other == name {
            Some(value)
        } else {
            lookup(fields, other)
        },
    decreases fields.len(),
{
    let after = inserted(fields, name, value);
    if fields.len() == 0 {
        assert(after[0] == (name, value));
        assert(after.skip(1) =~= Seq::empty());
        assert(lookup(after.skip(1), other) is None);
        assert(lookup(fields, other) is None);
    } else if fields[0].0 == name {
        assert(after[0] == (name, value));
        assert(after.skip(1) =~= fields.skip(1));
    } else {
        assert(after[0] == fields[0]);
        assert(after.skip(1) =~= inserted(fields.skip(1), name, value));
        lemma_lookup_inserted(fields.skip(1), name, value, other);
    }
}

/// Looking a key up in a list with one more entry at its end.
pub proof fn lemma_lookup_push<V>(
    entries: Seq<(Seq<char>, V)>,
    entry: (Seq<char>, V),
    key: Seq<char>,
)
    ensures
        lookup(entries.push(entry), key) == match lookup(entries, key) {
            Some(value) => Some(value),
            None => if entry.0 == key {
                Some(entry.1)
            } else {
                None
            },
        },
    decreases entries.len(),
{
    let longer = entries.push(entry);
    if entries.len() == 0 {
        assert(longer[0] == entry);
        assert(longer.skip(1) =~= Seq::empty());
        assert(lookup(longer.skip(1), key) is None);
    } else {
        assert(longer[0] == entries[0]);
        assert(longer.skip(1) =~= entries.skip(1).push(entry));
        lemma_lookup_push(entries.skip(1), entry, key);
    }
}

/// The map from each name to the value that `lookup` finds for it.
pub open spec fn entries_map<V>(entries: Seq<(Seq<char>, V)>) -> Map<Seq<char>, V> {
    Map::new(
        |name: Seq<char>| lookup(entries, name) is Some,
        |name: Seq<char>| lookup(entries, name).unwrap(),
    )
}

/// Setting an entry is an insertion into the map of the entries.
pub proof fn lemma_entries_map_inserted<V>(fields: Seq<(Seq<char>, V)>, name: Seq<char>, value: V)
    ensures
        entries_map(inserted(fields, name, value)) == entries_map(fields).insert(name, value),
{
    let after = entries_map(inserted(fields, name, value));
    let expected = entries_map(fields).insert(name, value);
    assert forall|other: Seq<char>| #[trigger]
        after.dom().contains(other) == expected.dom().contains(other) && (after.dom().contains(
            other,
        ) ==> after[other] == expected[other]) by {
        lemma_lookup_inserted(fields, name, value, other);
    }
    assert(after =~= expected);
}

} // verus!
