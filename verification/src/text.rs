//! Text helpers shared by the nodes: the order of keys, joining and ordering lines.

use core::cmp::Ordering;
use itertools::Itertools;
use vstd::prelude::*;
use vstd::set_lib::*;
use vstd::utf8::*;

verus! {

/// The texts that a sequence of strings holds.
pub open spec fn lines(rows: Seq<String>) -> Seq<Seq<char>> {
    rows.map_values(|row: String| row@)
}

/// The texts of two lists of rows, one after the other.
pub proof fn lemma_lines_concat(first: Seq<String>, second: Seq<String>)
    ensures
        lines(first + second) == lines(first) + lines(second),
{
    assert(lines(first + second) =~= lines(first) + lines(second));
}

/// Lexicographic order on byte strings: a proper prefix comes first, otherwise
/// the first differing byte decides.
pub open spec fn bytes_less(a: Seq<u8>, b: Seq<u8>) -> bool
    decreases a.len(),
{
    if b.len() == 0 {
        false
    } else if a.len() == 0 {
        true
    } else if a[0] != b[0] {
        a[0] < b[0]
    } else {
        bytes_less(a.skip(1), b.skip(1))
    }
}

/// The order of texts: lexicographic on their UTF-8 encoding.
pub open spec fn text_less(a: Seq<char>, b: Seq<char>) -> bool {
    bytes_less(encode_utf8(a), encode_utf8(b))
}

/// Of two byte strings, one comes before the other or they are the same.
pub proof fn lemma_bytes_trichotomy(a: Seq<u8>, b: Seq<u8>)
    ensures
        bytes_less(a, b) || bytes_less(b, a) || a == b,
        !(bytes_less(a, b) && bytes_less(b, a)),
        !bytes_less(a, a),
    decreases a.len(),
{
    if a.len() == 0 || b.len() == 0 {
        if a.len() == 0 && b.len() == 0 {
            assert(a =~= b);
        }
    } else if a[0] == b[0] {
        lemma_bytes_trichotomy(a.skip(1), b.skip(1));
        if a.skip(1) == b.skip(1) {
            assert(a =~= seq![a[0]] + a.skip(1));
            assert(b =~= seq![b[0]] + b.skip(1));
        }
    }
    if a.len() > 0 {
        lemma_bytes_irreflexive(a);
    }
}

proof fn lemma_bytes_irreflexive(a: Seq<u8>)
    ensures
        !bytes_less(a, a),
    decreases a.len(),
{
    if a.len() > 0 {
        lemma_bytes_irreflexive(a.skip(1));
    }
}

/// The order on byte strings is transitive.
pub proof fn lemma_bytes_transitive(a: Seq<u8>, b: Seq<u8>, c: Seq<u8>)
    requires
        bytes_less(a, b),
        bytes_less(b, c),
    ensures
        bytes_less(a, c),
    decreases a.len(),
{
    if a.len() > 0 && a[0] == b[0] && b[0] == c[0] {
        lemma_bytes_transitive(a.skip(1), b.skip(1), c.skip(1));
    }
}

/// The order of texts is a strict total order: exactly one of "before", "after"
/// and "same text" holds of two texts.
pub proof fn lemma_text_trichotomy(a: Seq<char>, b: Seq<char>)
    ensures
        text_less(a, b) || text_less(b, a) || a == b,
        !(text_less(a, b) && text_less(b, a)),
        !text_less(a, a),
{
    lemma_bytes_trichotomy(encode_utf8(a), encode_utf8(b));
    lemma_bytes_trichotomy(encode_utf8(a), encode_utf8(a));
    if encode_utf8(a) == encode_utf8(b) {
        encode_utf8_decode_utf8(a);
        encode_utf8_decode_utf8(b);
    }
}

/// The order of texts is transitive.
pub proof fn lemma_text_transitive(a: Seq<char>, b: Seq<char>, c: Seq<char>)
    requires
        text_less(a, b),
        text_less(b, c),
    ensures
        text_less(a, c),
{
    lemma_bytes_transitive(encode_utf8(a), encode_utf8(b), encode_utf8(c));
}

/// Whether `a` comes strictly before `b` in the order of texts.
pub fn text_before(a: &str, b: &str) -> (before: bool)
    ensures
        before == text_less(a@, b@),
{
    let x = a.as_bytes();
    let y = b.as_bytes();
    let mut i: usize = 0;
    proof {
        assert(x@.skip(0) =~= x@);
        assert(y@.skip(0) =~= y@);
    }
    while i < x.len() && i < y.len()
        invariant
            i <= x@.len(),
            i <= y@.len(),
            x@ == encode_utf8(a@),
            y@ == encode_utf8(b@),
            bytes_less(x@, y@) == bytes_less(x@.skip(i as int), y@.skip(i as int)),
        decreases x@.len() - i,
    {
        let p: u8 = x[i];
        let q: u8 = y[i];
        proof {
            assert(x@.skip(i as int)[0] == p);
            assert(y@.skip(i as int)[0] == q);
            assert(x@.skip(i as int).skip(1) =~= x@.skip(i + 1));
            assert(y@.skip(i as int).skip(1) =~= y@.skip(i + 1));
        }
        if p != q {
            return p < q;
        }
        i += 1;
    }
    i < y.len()
}

/// Whether two texts are the same.
pub fn text_equal(a: &str, b: &str) -> (same: bool)
    ensures
        same == (a@ == b@),
{
    let x = a.as_bytes();
    let y = b.as_bytes();
    proof {
        encode_utf8_decode_utf8(a@);
        encode_utf8_decode_utf8(b@);
    }
    if x.len() != y.len() {
        return false;
    }
    let mut i: usize = 0;
    while i < x.len()
        invariant
            i <= x@.len(),
            x@.len() == y@.len(),
            x@ == encode_utf8(a@),
            y@ == encode_utf8(b@),
            forall|j: int| 0 <= j < i ==> x@[j] == y@[j],
        decreases x@.len() - i,
    {
        if x[i] != y[i] {
            return false;
        }
        i += 1;
    }
    proof {
        assert(x@ =~= y@);
    }
    true
}

/// The order of two keys, as a sort asks for it.
pub fn key_order(a: &str, b: &str) -> (order: Ordering)
    ensures
        order == Ordering::Less <==> text_less(a@, b@),
        order == Ordering::Greater <==> text_less(b@, a@),
        order == Ordering::Equal <==> a@ == b@,
{
    proof {
        lemma_text_trichotomy(a@, b@);
    }
    if text_before(a, b) {
        Ordering::Less
    } else if text_before(b, a) {
        Ordering::Greater
    } else {
        Ordering::Equal
    }
}

/// Whether `order` lists every position of `keys` once, by ascending key, and
/// positions of the same key in ascending order.
pub open spec fn is_stable_order(keys: Seq<Seq<char>>, order: Seq<int>) -> bool {
    &&& order.len() == keys.len()
    &&& forall|i: int| 0 <= i < order.len() ==> 0 <= #[trigger] order[i] < keys.len()
    &&& forall|i: int, j: int| 0 <= i < j < order.len() ==> order[i] != order[j]
    &&& forall|i: int, j: int|
        0 <= i < j < order.len() ==> !text_less(
            #[trigger] keys[order[j]],
            #[trigger] keys[order[i]],
        )
    &&& forall|i: int, j: int|
        0 <= i < j < order.len() && #[trigger] keys[order[i]] == #[trigger] keys[order[j]]
            ==> order[i] < order[j]
}

/// Whether position `x` of `keys` stands before position `y` in the stable
/// order: by key first, by position among equal keys.
pub open spec fn position_before(keys: Seq<Seq<char>>, x: int, y: int) -> bool {
    text_less(keys[x], keys[y]) || (keys[x] == keys[y] && x < y)
}

proof fn lemma_order_increasing(keys: Seq<Seq<char>>, order: Seq<int>, i: int, j: int)
    requires
        is_stable_order(keys, order),
        0 <= i < j < order.len(),
    ensures
        position_before(keys, order[i], order[j]),
        !position_before(keys, order[j], order[i]),
{
    lemma_text_trichotomy(keys[order[i]], keys[order[j]]);
}

proof fn lemma_order_onto(keys: Seq<Seq<char>>, order: Seq<int>, x: int)
    requires
        is_stable_order(keys, order),
        0 <= x < keys.len(),
    ensures
        exists|i: int| 0 <= i < order.len() && order[i] == x,
{
    let n = keys.len() as int;
    assert(order.no_duplicates());
    order.unique_seq_to_set();
    lemma_int_range(0, n);
    assert(order.to_set().subset_of(set_int_range(0, n))) by {
        assert forall|v: int| order.to_set().contains(v) implies set_int_range(0, n).contains(
            v,
        ) by {
            let i = choose|i: int| 0 <= i < order.len() && order[i] == v;
        }
    }
    lemma_len_subset(order.to_set(), set_int_range(0, n));
    lemma_subset_equality(order.to_set(), set_int_range(0, n));
    assert(set_int_range(0, n).contains(x));
    assert(order.to_set().contains(x));
}

proof fn lemma_stable_order_unique_at(keys: Seq<Seq<char>>, a: Seq<int>, b: Seq<int>, i: int)
    requires
        is_stable_order(keys, a),
        is_stable_order(keys, b),
        0 <= i < a.len(),
    ensures
        a[i] == b[i],
    decreases i,
{
    assert forall|k: int| 0 <= k < i implies a[k] == b[k] by {
        lemma_stable_order_unique_at(keys, a, b, k);
    }
    lemma_order_onto(keys, b, a[i]);
    let m = choose|m: int| 0 <= m < b.len() && b[m] == a[i];
    lemma_order_onto(keys, a, b[i]);
    let k = choose|k: int| 0 <= k < a.len() && a[k] == b[i];
    if m < i {
        assert(a[m] == b[m]);
    }
    if k < i {
        assert(a[k] == b[k]);
    }
    if m > i && k > i {
        lemma_order_increasing(keys, b, i, m);
        lemma_order_increasing(keys, a, i, k);
    }
}

/// There is one stable order of given keys and no other.
pub proof fn lemma_stable_order_unique(keys: Seq<Seq<char>>, a: Seq<int>, b: Seq<int>)
    requires
        is_stable_order(keys, a),
        is_stable_order(keys, b),
    ensures
        a == b,
{
    assert forall|i: int| 0 <= i < a.len() implies a[i] == b[i] by {
        lemma_stable_order_unique_at(keys, a, b, i);
    }
    assert(a =~= b);
}

/// A key that comes before a second one comes before every key that the
/// second does not come after.
proof fn lemma_less_then_not_greater(a: Seq<char>, b: Seq<char>, c: Seq<char>)
    requires
        text_less(a, b),
        !text_less(c, b),
    ensures
        text_less(a, c),
{
    lemma_text_trichotomy(b, c);
    if text_less(b, c) {
        lemma_text_transitive(a, b, c);
    }
}

proof fn lemma_build_stable_order(keys: Seq<Seq<char>>) -> (order: Seq<int>)
    ensures
        is_stable_order(keys, order),
    decreases keys.len(),
{
    if keys.len() == 0 {
        Seq::empty()
    } else {
        let front = keys.drop_last();
        let last = keys.len() - 1;
        let inner = lemma_build_stable_order(front);
        let at = lemma_first_after(keys, inner, keys[last], 0);
        let order = inner.insert(at, last);
        assert forall|i: int| 0 <= i < inner.len() implies front[inner[i]] == keys[inner[i]] by {}
        assert forall|i: int, j: int| 0 <= i < j < order.len() implies order[i] != order[j]
            && !text_less(#[trigger] keys[order[j]], #[trigger] keys[order[i]]) && (keys[order[i]]
            == keys[order[j]] ==> order[i] < order[j]) by {
            let x = if i < at {
                i
            } else {
                i - 1
            };
            let y = if j < at {
                j
            } else {
                j - 1
            };
            if i == at {
                assert(order[j] == inner[y]);
                assert(front[inner[y]] == keys[inner[y]]);
                assert(front[inner[at]] == keys[inner[at]]);
                if y > at {
                    assert(!text_less(front[inner[y]], front[inner[at]]));
                } else {
                    lemma_text_trichotomy(keys[inner[at]], keys[inner[at]]);
                }
                lemma_less_then_not_greater(keys[last], keys[inner[at]], keys[inner[y]]);
                lemma_text_trichotomy(keys[last], keys[inner[y]]);
            } else if j == at {
                assert(order[i] == inner[x]);
                lemma_text_trichotomy(keys[last], keys[inner[x]]);
            } else {
                assert(order[i] == inner[x]);
                assert(order[j] == inner[y]);
                assert(front[inner[x]] == keys[inner[x]]);
                assert(front[inner[y]] == keys[inner[y]]);
                assert(!text_less(front[inner[y]], front[inner[x]]));
            }
        }
        order
    }
}

/// The first place at or behind `from` whose key comes after `key`, or the
/// end of the order where no such key is left.
proof fn lemma_first_after(keys: Seq<Seq<char>>, order: Seq<int>, key: Seq<char>, from: int) -> (at:
    int)
    requires
        0 <= from <= order.len(),
        forall|i: int| 0 <= i < order.len() ==> 0 <= #[trigger] order[i] < keys.len(),
        forall|i: int| 0 <= i < from ==> !text_less(key, keys[#[trigger] order[i]]),
    ensures
        from <= at <= order.len(),
        forall|i: int| 0 <= i < at ==> !text_less(key, keys[#[trigger] order[i]]),
        at < order.len() ==> text_less(key, keys[order[at]]),
    decreases order.len() - from,
{
    if from == order.len() || text_less(key, keys[order[from]]) {
        from
    } else {
        lemma_first_after(keys, order, key, from + 1)
    }
}

/// The stable order of the keys: every position once, by ascending key, and
/// positions of the same key in ascending order.
pub open spec fn stable_order_of(keys: Seq<Seq<char>>) -> Seq<int> {
    choose|order: Seq<int>| is_stable_order(keys, order)
}

/// Every list of keys has its stable order.
pub proof fn lemma_stable_order_exists(keys: Seq<Seq<char>>)
    ensures
        is_stable_order(keys, stable_order_of(keys)),
{
    let order = lemma_build_stable_order(keys);
}

/// The positions that a list of indices holds.
pub open spec fn positions(order: Seq<usize>) -> Seq<int> {
    order.map_values(|position: usize| position as int)
}

/// Calls `Itertools::sorted_by` on the positions of `keys`, with `key_order` on
/// the keys as the comparison, which is a total order. The sort is stable: the
/// result holds every position once, keys ascending, and positions of equal
/// keys in their first order.
#[verifier::external_body]
pub(crate) fn stable_order(keys: &Vec<String>) -> (order: Vec<usize>)
    ensures
        is_stable_order(lines(keys@), positions(order@)),
{
    keys.iter().enumerate().sorted_by(|a, b| key_order(a.1, b.1)).map(|p| p.0).collect()
}

/// The rows with `separator` between each two neighbours.
pub open spec fn joined(rows: Seq<Seq<char>>, separator: Seq<char>) -> Seq<char>
    decreases rows.len(),
{
    if rows.len() == 0 {
        Seq::empty()
    } else if rows.len() == 1 {
        rows[0]
    } else {
        joined(rows.drop_last(), separator) + separator + rows.last()
    }
}

/// The separator that `join` uses: the one given, or a comma.
pub open spec fn separator_of(joiner: Option<&str>) -> Seq<char> {
    match joiner {
        Some(separator) => separator@,
        None => ","@,
    }
}

/// Joins the items into one text, with the joiner (a comma, where none is
/// given) between each two.
pub fn join(items: &Vec<String>, joiner: Option<&str>) -> (text: String)
    ensures
        text@ == joined(lines(items@), separator_of(joiner)),
{
    let separator: &str = match joiner {
        Some(separator) => separator,
        None => ",",
    };
    let mut text = String::new();
    let mut i: usize = 0;
    while i < items.len()
        invariant
            i <= items@.len(),
            separator@ == separator_of(joiner),
            text@ == joined(lines(items@).take(i as int), separator@),
        decreases items@.len() - i,
    {
        proof {
            let next = lines(items@).take(i + 1);
            assert(next.drop_last() =~= lines(items@).take(i as int));
            assert(next.last() == items@[i as int]@);
        }
        if i > 0 {
            text.append(separator);
        }
        text.append(items[i].as_str());
        i += 1;
    }
    proof {
        assert(lines(items@).take(i as int) =~= lines(items@));
    }
    text
}

/// Appends `tail` to `head`.
pub fn appended(head: String, tail: &str) -> (text: String)
    ensures
        text@ == head@ + tail@,
{
    let mut text = head;
    text.append(tail);
    text
}

/// The positions of the keys in their stable order.
pub fn ordered_positions(keys: &Vec<String>) -> (order: Vec<usize>)
    ensures
        positions(order@) == stable_order_of(lines(keys@)),
        is_stable_order(lines(keys@), positions(order@)),
{
    let order = stable_order(keys);
    proof {
        lemma_stable_order_unique(lines(keys@), positions(order@), stable_order_of(lines(keys@)));
    }
    order
}

} // verus!
