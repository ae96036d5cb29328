//! The order in which the members of objects are given does not matter:
//! trees that hold the same values have the same canonical encoding.

use crate::canonical_json::{
    ascending, bytes_lt, canonical, distinct_keys, items_text, key_order, keys_of,
    lemma_ascending_unique, lemma_bytes_lt_irreflexive, lemma_bytes_lt_transitive,
    lemma_key_order, member_text, members_text, position, quoted, representable, JsonValue,
    CLOSE_BRACE, COLON, COMMA, OPEN_BRACE,
};
use vstd::prelude::*;
use vstd::utf8::{encode_utf8, is_ascii_chars, is_ascii_chars_encode_utf8, valid_utf8};

verus! {

/// The two sequences hold the same members, in whatever order.
pub open spec fn same_members(a: Seq<(Seq<u8>, JsonValue)>, b: Seq<(Seq<u8>, JsonValue)>) -> bool {
    &&& forall|i: int| 0 <= i < a.len() ==> b.contains(#[trigger] a[i])
    &&& forall|j: int| 0 <= j < b.len() ==> a.contains(#[trigger] b[j])
}

/// A key of one sequence of members is written with the same text from
/// another sequence that holds the same members.
proof fn lemma_member_text_same(
    a: Seq<(Seq<u8>, JsonValue)>,
    b: Seq<(Seq<u8>, JsonValue)>,
    key: Seq<u8>,
)
    requires
        distinct_keys(a),
        distinct_keys(b),
        same_members(a, b),
        keys_of(a).contains(key),
    ensures
        member_text(a, key) == member_text(b, key),
{
    let i = choose|i: int| 0 <= i < keys_of(a).len() && keys_of(a)[i] == key;
    assert(a[i].0 == key);
    let pa = position(a, key);
    assert(pa == i);
    assert(b.contains(a[i]));
    let j = choose|j: int| 0 <= j < b.len() && b[j] == a[i];
    assert(b[j].0 == key);
    let pb = position(b, key);
    assert(pb == j);
}

proof fn lemma_members_text_same(
    a: Seq<(Seq<u8>, JsonValue)>,
    b: Seq<(Seq<u8>, JsonValue)>,
    keys: Seq<Seq<u8>>,
    n: nat,
)
    requires
        distinct_keys(a),
        distinct_keys(b),
        same_members(a, b),
        n <= keys.len(),
        forall|k: int| 0 <= k < keys.len() ==> keys_of(a).contains(#[trigger] keys[k]),
    ensures
        members_text(a, keys, n) == members_text(b, keys, n),
    decreases n,
{
    if n > 0 {
        lemma_members_text_same(a, b, keys, (n - 1) as nat);
        lemma_member_text_same(a, b, keys[n - 1]);
    }
}

/// An object's canonical encoding does not depend on the order in which
/// its members are given: two sequences that hold the same members, each
/// without a key named twice, are written as the same bytes.
pub proof fn lemma_member_order_irrelevant(
    a: Seq<(Seq<u8>, JsonValue)>,
    b: Seq<(Seq<u8>, JsonValue)>,
)
    requires
        distinct_keys(a),
        distinct_keys(b),
        same_members(a, b),
    ensures
        canonical(JsonValue::Object(a)) == canonical(JsonValue::Object(b)),
        representable(JsonValue::Object(a)) == representable(JsonValue::Object(b)),
{
    let ka = keys_of(a);
    let kb = keys_of(b);
    assert forall|key: Seq<u8>| ka.contains(key) <==> kb.contains(key) by {
        if ka.contains(key) {
            let i = choose|i: int| 0 <= i < ka.len() && ka[i] == key;
            assert(b.contains(a[i]));
            let j = choose|j: int| 0 <= j < b.len() && b[j] == a[i];
            assert(kb[j] == key);
        }
        if kb.contains(key) {
            let j = choose|j: int| 0 <= j < kb.len() && kb[j] == key;
            assert(a.contains(b[j]));
            let i = choose|i: int| 0 <= i < a.len() && a[i] == b[j];
            assert(ka[i] == key);
        }
    }
    lemma_key_order(ka);
    lemma_key_order(kb);
    let keys = key_order(ka);
    assert forall|key: Seq<u8>| keys.contains(key) <==> key_order(kb).contains(key) by {}
    lemma_ascending_unique(keys, key_order(kb));
    assert forall|k: int| 0 <= k < keys.len() implies ka.contains(#[trigger] keys[k]) by {
        assert(keys.contains(keys[k]));
    }
    lemma_members_text_same(a, b, keys, keys.len());
    let va = JsonValue::Object(a);
    let vb = JsonValue::Object(b);
    assert(va->Object_0 == a && vb->Object_0 == b);
    if representable(va) {
        assert forall|j: int| 0 <= j < b.len() implies valid_utf8((#[trigger] b[j]).0)
            && representable(b[j].1) by {
            assert(a.contains(b[j]));
            let i = choose|i: int| 0 <= i < a.len() && a[i] == b[j];
            assert(representable(a[i].1));
        }
    }
    if representable(vb) {
        assert forall|i: int| 0 <= i < a.len() implies valid_utf8((#[trigger] a[i]).0)
            && representable(a[i].1) by {
            assert(b.contains(a[i]));
            let j = choose|j: int| 0 <= j < b.len() && b[j] == a[i];
            assert(representable(b[j].1));
        }
    }
}

/// The two trees hold the same values. Arrays hold the same values at the
/// same places. Objects hold the same keys, and under each key the same
/// value, in whatever order the members stand.
pub open spec fn same_value(a: JsonValue, b: JsonValue) -> bool
    decreases a,
{
    match a {
        JsonValue::Null => b is Null,
        JsonValue::Text(text) => b == a,
        JsonValue::Raw(bytes) => b == a,
        JsonValue::List(items) => {
            &&& b is List
            &&& b->List_0.len() == items.len()
            &&& forall|i: int|
                0 <= i < items.len() ==> same_value(#[trigger] items[i], b->List_0[i])
        },
        JsonValue::Object(members) => {
            &&& b is Object
            &&& forall|j: int|
                0 <= j < b->Object_0.len() ==> keys_of(members).contains(
                    (#[trigger] b->Object_0[j]).0,
                )
            &&& forall|i: int|
                0 <= i < members.len() ==> {
                    &&& keys_of(b->Object_0).contains((#[trigger] members[i]).0)
                    &&& same_value(
                        members[i].1,
                        b->Object_0[position(b->Object_0, members[i].0)].1,
                    )
                }
        },
    }
}

/// Trees that hold the same values, and name no key twice in an object,
/// are written as the same bytes.
pub proof fn lemma_same_value_same_bytes(a: JsonValue, b: JsonValue)
    requires
        same_value(a, b),
        representable(a),
        representable(b),
    ensures
        canonical(a) == canonical(b),
    decreases a, 0nat,
{
    match a {
        JsonValue::Null => {},
        JsonValue::Text(text) => {},
        JsonValue::Raw(bytes) => {},
        JsonValue::List(items) => {
            let others = b->List_0;
            lemma_same_items_text(items, others, items.len());
        },
        JsonValue::Object(members) => {
            let others = b->Object_0;
            let keys = keys_of(members);
            let other_keys = keys_of(others);
            assert forall|key: Seq<u8>| keys.contains(key) <==> other_keys.contains(key) by {
                if keys.contains(key) {
                    let i = choose|i: int| 0 <= i < keys.len() && keys[i] == key;
                    assert(members[i].0 == key);
                }
                if other_keys.contains(key) {
                    let j = choose|j: int| 0 <= j < other_keys.len() && other_keys[j] == key;
                    assert(others[j].0 == key);
                }
            }
            lemma_key_order(keys);
            lemma_key_order(other_keys);
            let order = key_order(keys);
            assert forall|key: Seq<u8>| order.contains(key) <==> key_order(other_keys).contains(
                key,
            ) by {}
            lemma_ascending_unique(order, key_order(other_keys));
            assert forall|k: int| 0 <= k < order.len() implies keys.contains(#[trigger] order[k]) by {
                assert(order.contains(order[k]));
            }
            lemma_same_members_text(members, others, order, order.len());
        },
    }
}

proof fn lemma_same_items_text(items: Seq<JsonValue>, others: Seq<JsonValue>, n: nat)
    requires
        others.len() == items.len(),
        forall|i: int| 0 <= i < items.len() ==> same_value(#[trigger] items[i], others[i]),
        forall|i: int| 0 <= i < items.len() ==> representable(#[trigger] items[i]),
        forall|i: int| 0 <= i < others.len() ==> representable(#[trigger] others[i]),
    ensures
        items_text(items, n) == items_text(others, n),
    decreases items, n,
{
    if n == 0 || n > items.len() {
    } else if n == 1 {
        lemma_same_value_same_bytes(items[0], others[0]);
    } else {
        lemma_same_items_text(items, others, (n - 1) as nat);
        lemma_same_value_same_bytes(items[n - 1], others[n - 1]);
    }
}

proof fn lemma_same_member_text(
    members: Seq<(Seq<u8>, JsonValue)>,
    others: Seq<(Seq<u8>, JsonValue)>,
    key: Seq<u8>,
)
    requires
        same_value(JsonValue::Object(members), JsonValue::Object(others)),
        representable(JsonValue::Object(members)),
        representable(JsonValue::Object(others)),
        keys_of(members).contains(key),
    ensures
        member_text(members, key) == member_text(others, key),
    decreases members, 0nat,
{
    let a = JsonValue::Object(members);
    let b = JsonValue::Object(others);
    assert(a->Object_0 == members && b->Object_0 == others);
    let k = choose|k: int| 0 <= k < keys_of(members).len() && keys_of(members)[k] == key;
    assert(members[k].0 == key);
    let i = position(members, key);
    assert(0 <= i < members.len() && members[i].0 == key);
    assert(keys_of(others).contains(members[i].0));
    let m = choose|m: int| 0 <= m < keys_of(others).len() && keys_of(others)[m] == key;
    assert(others[m].0 == key);
    let j = position(others, key);
    assert(0 <= j < others.len() && others[j].0 == key);
    assert(same_value(members[i].1, others[j].1));
    assert(representable(members[i].1));
    assert(representable(others[j].1));
    lemma_same_value_same_bytes(members[i].1, others[j].1);
}

proof fn lemma_same_members_text(
    members: Seq<(Seq<u8>, JsonValue)>,
    others: Seq<(Seq<u8>, JsonValue)>,
    keys: Seq<Seq<u8>>,
    n: nat,
)
    requires
        same_value(JsonValue::Object(members), JsonValue::Object(others)),
        representable(JsonValue::Object(members)),
        representable(JsonValue::Object(others)),
        forall|k: int| 0 <= k < keys.len() ==> keys_of(members).contains(#[trigger] keys[k]),
    ensures
        members_text(members, keys, n) == members_text(others, keys, n),
    decreases members, n,
{
    if n == 0 || n > keys.len() {
    } else if n == 1 {
        lemma_same_member_text(members, others, keys[0]);
    } else {
        lemma_same_members_text(members, others, keys, (n - 1) as nat);
        lemma_same_member_text(members, others, keys[n - 1]);
    }
}

/// One member as it is written: the key quoted, a colon, the value's
/// canonical encoding.
pub open spec fn entry(member: (Seq<u8>, JsonValue)) -> Seq<u8> {
    quoted(member.0) + seq![COLON] + canonical(member.1)
}

/// The first `n` members as they are written, in the order given, with a
/// comma between two of them.
pub open spec fn entries(members: Seq<(Seq<u8>, JsonValue)>, n: nat) -> Seq<u8>
    decreases n,
{
    if n == 0 || n > members.len() {
        Seq::empty()
    } else if n == 1 {
        entry(members[0])
    } else {
        entries(members, (n - 1) as nat) + seq![COMMA] + entry(members[n - 1])
    }
}

/// Byte strings that agree before place `k`, where the first has the
/// smaller byte, are in order.
pub proof fn lemma_bytes_lt_at(a: Seq<u8>, b: Seq<u8>, k: int)
    requires
        0 <= k < a.len(),
        k < b.len(),
        forall|i: int| 0 <= i < k ==> a[i] == b[i],
        a[k] < b[k],
    ensures
        bytes_lt(a, b),
    decreases k,
{
    if k > 0 {
        assert(a[0] == b[0]);
        lemma_bytes_lt_at(a.drop_first(), b.drop_first(), k - 1);
    }
}

/// Two ASCII texts that agree before place `k`, where the first has the
/// smaller character, have their bytes in order.
pub proof fn lemma_texts_in_order(a: Seq<char>, b: Seq<char>, k: int)
    requires
        is_ascii_chars(a),
        is_ascii_chars(b),
        0 <= k < a.len(),
        k < b.len(),
        forall|i: int| 0 <= i < k ==> a[i] == b[i],
        a[k] < b[k],
    ensures
        bytes_lt(encode_utf8(a), encode_utf8(b)),
{
    is_ascii_chars_encode_utf8(a);
    is_ascii_chars_encode_utf8(b);
    lemma_bytes_lt_at(encode_utf8(a), encode_utf8(b), k);
}

/// Members whose keys ascend name no key twice.
pub proof fn lemma_ascending_distinct(members: Seq<(Seq<u8>, JsonValue)>)
    requires
        ascending(keys_of(members)),
    ensures
        distinct_keys(members),
{
    let keys = keys_of(members);
    assert forall|i: int, j: int|
        0 <= i < members.len() && 0 <= j < members.len() && i != j implies (#[trigger] members[i]).0
        != (#[trigger] members[j]).0 by {
        assert(keys[i] == members[i].0 && keys[j] == members[j].0);
        if i < j {
            assert(bytes_lt(keys[i], keys[j]));
        } else {
            assert(bytes_lt(keys[j], keys[i]));
        }
        lemma_bytes_lt_irreflexive(members[i].0);
    }
}

/// Keys of which each comes before the next ascend.
pub proof fn lemma_ascending_from_neighbours(keys: Seq<Seq<u8>>)
    requires
        forall|i: int| 0 <= i < keys.len() - 1 ==> bytes_lt(#[trigger] keys[i], keys[i + 1]),
    ensures
        ascending(keys),
{
    assert forall|i: int, j: int| 0 <= i < j < keys.len() implies bytes_lt(
        #[trigger] keys[i],
        #[trigger] keys[j],
    ) by {
        lemma_neighbours_reach(keys, i, j);
    }
}

proof fn lemma_neighbours_reach(keys: Seq<Seq<u8>>, i: int, j: int)
    requires
        forall|i: int| 0 <= i < keys.len() - 1 ==> bytes_lt(#[trigger] keys[i], keys[i + 1]),
        0 <= i < j < keys.len(),
    ensures
        bytes_lt(keys[i], keys[j]),
    decreases j - i,
{
    if j > i + 1 {
        lemma_neighbours_reach(keys, i, j - 1);
        assert(bytes_lt(keys[j - 1], keys[j - 1 + 1]));
        lemma_bytes_lt_transitive(keys[i], keys[j - 1], keys[j]);
    }
}

/// Members whose keys ascend as they are given are written in the order
/// given.
pub proof fn lemma_ascending_members(members: Seq<(Seq<u8>, JsonValue)>)
    requires
        ascending(keys_of(members)),
    ensures
        canonical(JsonValue::Object(members)) == seq![OPEN_BRACE] + entries(
            members,
            members.len(),
        ) + seq![CLOSE_BRACE],
{
    let keys = keys_of(members);
    lemma_key_order(keys);
    lemma_ascending_unique(key_order(keys), keys);
    lemma_entries(members, members.len());
}

proof fn lemma_entries(members: Seq<(Seq<u8>, JsonValue)>, n: nat)
    requires
        ascending(keys_of(members)),
        n <= members.len(),
    ensures
        members_text(members, keys_of(members), n) == entries(members, n),
    decreases n,
{
    if n > 0 {
        lemma_entries(members, (n - 1) as nat);
        let keys = keys_of(members);
        let key = keys[n - 1];
        assert(members[n - 1].0 == key);
        let i = position(members, key);
        assert(0 <= i < members.len() && members[i].0 == key);
        if i != n - 1 {
            assert(keys[i] == key);
            if i < n - 1 {
                assert(bytes_lt(keys[i], keys[n - 1]));
            } else {
                assert(bytes_lt(keys[n - 1], keys[i]));
            }
            lemma_bytes_lt_irreflexive(key);
        }
        assert(member_text(members, key) == entry(members[n - 1]));
        assert(keys.len() == members.len());
    }
}

/// Members are written in the order of a sequence that holds the same
/// members with each key before the next.
pub proof fn lemma_written_in_order(
    given: Seq<(Seq<u8>, JsonValue)>,
    sorted: Seq<(Seq<u8>, JsonValue)>,
)
    requires
        distinct_keys(given),
        same_members(given, sorted),
        forall|i: int| 0 <= i < sorted.len() - 1 ==> bytes_lt((#[trigger] sorted[i]).0, sorted[i + 1].0),
    ensures
        canonical(JsonValue::Object(given)) == seq![OPEN_BRACE] + entries(sorted, sorted.len())
            + seq![CLOSE_BRACE],
{
    let keys = keys_of(sorted);
    assert forall|i: int| 0 <= i < keys.len() - 1 implies bytes_lt(#[trigger] keys[i], keys[i + 1]) by {
        assert(bytes_lt(sorted[i].0, sorted[i + 1].0));
    }
    lemma_ascending_from_neighbours(keys);
    lemma_ascending_members(sorted);
    lemma_ascending_distinct(sorted);
    lemma_member_order_irrelevant(given, sorted);
}

} // verus!
