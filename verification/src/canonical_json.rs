//! Canonical JSON: one byte sequence for each value.
//!
//! Every structure of this crate is first turned into a [`Json`] tree and
//! then written by [`to_canonical_json`]. Object members are written by
//! ascending key, strings are escaped in one fixed way, pre-encoded blobs are
//! copied as they are, and no whitespace is written anywhere.

use vstd::prelude::*;
use vstd::utf8::{encode_utf8, valid_utf8};

verus! {

broadcast use {vstd::std_specs::vec::group_vec_axioms, vstd::utf8::encode_utf8_valid_utf8};

/// The double quote.
pub const QUOTE: u8 = 0x22;

/// The backslash.
pub const BACKSLASH: u8 = 0x5c;

/// The comma.
pub const COMMA: u8 = 0x2c;

/// The colon.
pub const COLON: u8 = 0x3a;

/// The opening square bracket.
pub const OPEN_BRACKET: u8 = 0x5b;

/// The closing square bracket.
pub const CLOSE_BRACKET: u8 = 0x5d;

/// The opening curly bracket.
pub const OPEN_BRACE: u8 = 0x7b;

/// The closing curly bracket.
pub const CLOSE_BRACE: u8 = 0x7d;

/// A value that cannot be written as canonical JSON.
#[derive(Debug, Clone, Copy, PartialEq, Eq)]
pub enum EncodeError {
    /// A pre-encoded blob is not UTF-8, or an object names one key twice.
    Unrepresentable,
}

/// The mathematical model of a JSON tree. Text and keys are held as the
/// bytes of their UTF-8 encoding.
pub ghost enum JsonValue {
    /// `null`
    Null,
    /// A string, by its bytes.
    Text(Seq<u8>),
    /// An array, by its items in order.
    List(Seq<JsonValue>),
    /// An object, by its members in the order given: each a key and a
    /// value.
    Object(Seq<(Seq<u8>, JsonValue)>),
    /// Bytes that stand for themselves.
    Raw(Seq<u8>),
}

/// A JSON tree as the encoder takes it.
#[derive(Debug)]
pub enum Json {
    /// `null`
    Null,
    /// A string.
    Text(String),
    /// An array; the items are written in the order given.
    List(Vec<Json>),
    /// An object; the members are written by ascending key, whatever the
    /// order given here.
    Object(Vec<(String, Json)>),
    /// Bytes that already are canonical JSON. They are copied, not escaped.
    Raw(Vec<u8>),
}

/// The models of a sequence of trees.
pub open spec fn item_values(items: Seq<Json>) -> Seq<JsonValue>
    decreases items,
{
    if items.len() == 0 {
        Seq::empty()
    } else {
        item_values(items.drop_last()).push(items.last()@)
    }
}

/// The models of a sequence of object members.
pub open spec fn member_values(members: Seq<(String, Json)>) -> Seq<(Seq<u8>, JsonValue)>
    decreases members,
{
    if members.len() == 0 {
        Seq::empty()
    } else {
        member_values(members.drop_last()).push(
            (encode_utf8(members.last().0@), members.last().1@),
        )
    }
}

impl View for Json {
    type V = JsonValue;

    open spec fn view(&self) -> JsonValue
        decreases self,
    {
        match self {
            Json::Null => JsonValue::Null,
            Json::Text(text) => JsonValue::Text(encode_utf8(text@)),
            Json::List(items) => JsonValue::List(item_values(items@)),
            Json::Object(members) => JsonValue::Object(member_values(members@)),
            Json::Raw(bytes) => JsonValue::Raw(bytes@),
        }
    }
}

/// The digit that stands for `n` in lower-case hexadecimal.
pub open spec fn hex_digit(n: int) -> u8 {
    if n < 10 {
        (0x30 + n) as u8
    } else {
        (0x57 + n) as u8
    }
}

/// What stands for one byte of a string between the quotes: the quote and
/// the backslash behind a backslash, the five control characters that have
/// a short form in it, the other control characters as `\u00` and two
/// hexadecimal digits, and every other byte as itself.
pub open spec fn escape(b: u8) -> Seq<u8> {
    if b == QUOTE {
        seq![BACKSLASH, QUOTE]
    } else if b == BACKSLASH {
        seq![BACKSLASH, BACKSLASH]
    } else if b == 0x08 {
        seq![BACKSLASH, 0x62u8]
    } else if b == 0x09 {
        seq![BACKSLASH, 0x74u8]
    } else if b == 0x0a {
        seq![BACKSLASH, 0x6eu8]
    } else if b == 0x0c {
        seq![BACKSLASH, 0x66u8]
    } else if b == 0x0d {
        seq![BACKSLASH, 0x72u8]
    } else if b < 0x20 {
        seq![BACKSLASH, 0x75u8, 0x30u8, 0x30u8, hex_digit(b as int / 16), hex_digit(b as int % 16)]
    } else {
        seq![b]
    }
}

/// The bytes of a string, each escaped, in order.
pub open spec fn escaped(text: Seq<u8>) -> Seq<u8>
    decreases text.len(),
{
    if text.len() == 0 {
        Seq::empty()
    } else {
        escaped(text.drop_last()) + escape(text.last())
    }
}

/// A string as JSON writes it: escaped, between two quotes.
pub open spec fn quoted(text: Seq<u8>) -> Seq<u8> {
    seq![QUOTE] + escaped(text) + seq![QUOTE]
}

/// Byte strings in lexicographic order: `a` comes strictly before `b`.
pub open spec fn bytes_lt(a: Seq<u8>, b: Seq<u8>) -> bool
    decreases a.len(),
{
    if b.len() == 0 {
        false
    } else if a.len() == 0 {
        true
    } else if a[0] != b[0] {
        a[0] < b[0]
    } else {
        bytes_lt(a.drop_first(), b.drop_first())
    }
}

/// Each key comes strictly before the next.
pub open spec fn ascending(keys: Seq<Seq<u8>>) -> bool {
    forall|i: int, j: int| 0 <= i < j < keys.len() ==> bytes_lt(#[trigger] keys[i], #[trigger] keys[j])
}

/// The two sequences hold the same keys.
pub open spec fn same_keys(a: Seq<Seq<u8>>, b: Seq<Seq<u8>>) -> bool {
    forall|key: Seq<u8>| a.contains(key) <==> b.contains(key)
}

/// The keys in the order in which they are written: ascending.
pub open spec fn key_order(keys: Seq<Seq<u8>>) -> Seq<Seq<u8>> {
    choose|sorted: Seq<Seq<u8>>| ascending(sorted) && same_keys(sorted, keys)
}

/// The keys of the members, in the order given.
pub open spec fn keys_of(members: Seq<(Seq<u8>, JsonValue)>) -> Seq<Seq<u8>> {
    Seq::new(members.len(), |i: int| members[i].0)
}

/// No two members have the same key.
pub open spec fn distinct_keys(members: Seq<(Seq<u8>, JsonValue)>) -> bool {
    forall|i: int, j: int|
        0 <= i < members.len() && 0 <= j < members.len() && i != j ==> (#[trigger] members[i]).0
            != (#[trigger] members[j]).0
}

/// An index at which `key` stands among the members.
pub open spec fn position(members: Seq<(Seq<u8>, JsonValue)>, key: Seq<u8>) -> int {
    choose|i: int| 0 <= i < members.len() && (#[trigger] members[i]).0 == key
}

/// The trees that have a canonical encoding: every text, key and blob in
/// them is UTF-8 and no object in them names a key twice.
pub open spec fn representable(value: JsonValue) -> bool
    decreases value,
{
    match value {
        JsonValue::Null => true,
        JsonValue::Text(text) => valid_utf8(text),
        JsonValue::Raw(bytes) => valid_utf8(bytes),
        JsonValue::List(items) => forall|i: int|
            0 <= i < items.len() ==> representable(#[trigger] items[i]),
        JsonValue::Object(members) => distinct_keys(members) && forall|i: int|
            0 <= i < members.len() ==> valid_utf8((#[trigger] members[i]).0) && representable(
                members[i].1,
            ),
    }
}

/// The canonical encoding of a tree.
pub open spec fn canonical(value: JsonValue) -> Seq<u8>
    decreases value, 0nat,
{
    match value {
        JsonValue::Null => seq![0x6eu8, 0x75u8, 0x6cu8, 0x6cu8],
        JsonValue::Text(text) => quoted(text),
        JsonValue::Raw(bytes) => bytes,
        JsonValue::List(items) => seq![OPEN_BRACKET] + items_text(items, items.len()) + seq![
            CLOSE_BRACKET,
        ],
        JsonValue::Object(members) => {
            let keys = key_order(keys_of(members));
            seq![OPEN_BRACE] + members_text(members, keys, keys.len()) + seq![CLOSE_BRACE]
        },
    }
}

/// The first `n` items, each in its canonical encoding, with a comma
/// between two of them.
pub open spec fn items_text(items: Seq<JsonValue>, n: nat) -> Seq<u8>
    decreases items, n,
{
    if n == 0 || n > items.len() {
        Seq::empty()
    } else if n == 1 {
        canonical(items[0])
    } else {
        items_text(items, (n - 1) as nat) + seq![COMMA] + canonical(items[n - 1])
    }
}

/// The member with that key: the key quoted, a colon, the value's
/// canonical encoding.
pub open spec fn member_text(members: Seq<(Seq<u8>, JsonValue)>, key: Seq<u8>) -> Seq<u8>
    decreases members, 0nat,
{
    let i = position(members, key);
    quoted(key) + seq![COLON] + if 0 <= i < members.len() {
        canonical(members[i].1)
    } else {
        Seq::empty()
    }
}

/// The members with the first `n` of the keys, in the order of the keys,
/// with a comma between two of them.
pub open spec fn members_text(members: Seq<(Seq<u8>, JsonValue)>, keys: Seq<Seq<u8>>, n: nat) -> Seq<
    u8,
>
    decreases members, n,
{
    if n == 0 || n > keys.len() {
        Seq::empty()
    } else if n == 1 {
        member_text(members, keys[0])
    } else {
        members_text(members, keys, (n - 1) as nat) + seq![COMMA] + member_text(
            members,
            keys[n - 1],
        )
    }
}

/// No byte string comes before itself.
pub proof fn lemma_bytes_lt_irreflexive(a: Seq<u8>)
    ensures
        !bytes_lt(a, a),
    decreases a.len(),
{
    if a.len() > 0 {
        lemma_bytes_lt_irreflexive(a.drop_first());
    }
}

/// The order of byte strings is transitive.
pub proof fn lemma_bytes_lt_transitive(a: Seq<u8>, b: Seq<u8>, c: Seq<u8>)
    requires
        bytes_lt(a, b),
        bytes_lt(b, c),
    ensures
        bytes_lt(a, c),
    decreases a.len(),
{
    if a.len() > 0 && a[0] == b[0] && b[0] == c[0] {
        lemma_bytes_lt_transitive(a.drop_first(), b.drop_first(), c.drop_first());
    }
}

/// Of two different byte strings one comes before the other.
pub proof fn lemma_bytes_lt_total(a: Seq<u8>, b: Seq<u8>)
    ensures
        bytes_lt(a, b) || a == b || bytes_lt(b, a),
    decreases a.len(),
{
    if a.len() == 0 || b.len() == 0 {
        if a.len() == 0 && b.len() == 0 {
            assert(a =~= b);
        }
    } else if a[0] == b[0] {
        lemma_bytes_lt_total(a.drop_first(), b.drop_first());
        if a.drop_first() == b.drop_first() {
            assert(a =~= seq![a[0]] + a.drop_first());
            assert(b =~= seq![b[0]] + b.drop_first());
        }
    }
}

/// Where `a` comes before `b`, `b` does not come before `a`.
pub proof fn lemma_bytes_lt_asymmetric(a: Seq<u8>, b: Seq<u8>)
    requires
        bytes_lt(a, b),
    ensures
        !bytes_lt(b, a),
{
    if bytes_lt(b, a) {
        lemma_bytes_lt_transitive(a, b, a);
        lemma_bytes_lt_irreflexive(a);
    }
}

/// Where `a` does not come after `b`, and `b` comes before `c`, `a` comes
/// before `c`; likewise where `a` comes before `b` and `b` not after `c`.
pub proof fn lemma_bytes_lt_chain(a: Seq<u8>, b: Seq<u8>, c: Seq<u8>)
    requires
        (!bytes_lt(b, a) && bytes_lt(b, c)) || (bytes_lt(a, b) && !bytes_lt(c, b)),
    ensures
        bytes_lt(a, c),
{
    lemma_bytes_lt_total(a, b);
    lemma_bytes_lt_total(b, c);
    if bytes_lt(a, b) && bytes_lt(b, c) {
        lemma_bytes_lt_transitive(a, b, c);
    }
}

/// Two ascending sequences that hold the same keys are one sequence.
pub proof fn lemma_ascending_unique(a: Seq<Seq<u8>>, b: Seq<Seq<u8>>)
    requires
        ascending(a),
        ascending(b),
        same_keys(a, b),
    ensures
        a == b,
    decreases a.len(),
{
    if a.len() == 0 {
        if b.len() > 0 {
            assert(b.contains(b[0]));
            assert(a.contains(b[0]));
        }
        assert(a =~= b);
    } else if b.len() == 0 {
        assert(a.contains(a[0]));
        assert(b.contains(a[0]));
    } else {
        let x = a.last();
        let y = b.last();
        assert(a.contains(x));
        assert(b.contains(y));
        let i = choose|i: int| 0 <= i < b.len() && b[i] == x;
        let j = choose|j: int| 0 <= j < a.len() && a[j] == y;
        // x is in b, so x <= y; y is in a, so y <= x
        if i < b.len() - 1 && j < a.len() - 1 {
            assert(bytes_lt(b[i], b[b.len() - 1]));
            assert(bytes_lt(a[j], a[a.len() - 1]));
            lemma_bytes_lt_asymmetric(x, y);
        }
        if i < b.len() - 1 && j == a.len() - 1 {
            assert(bytes_lt(b[i], b[b.len() - 1]));
            lemma_bytes_lt_irreflexive(x);
        }
        if i == b.len() - 1 && j < a.len() - 1 {
            assert(bytes_lt(a[j], a[a.len() - 1]));
            lemma_bytes_lt_irreflexive(x);
        }
        assert(x == y);
        let a0 = a.drop_last();
        let b0 = b.drop_last();
        assert forall|key: Seq<u8>| a0.contains(key) <==> b0.contains(key) by {
            if a0.contains(key) {
                let k = choose|k: int| 0 <= k < a0.len() && a0[k] == key;
                assert(a[k] == key);
                assert(bytes_lt(a[k], a[a.len() - 1]));
                assert(a.contains(key));
                let m = choose|m: int| 0 <= m < b.len() && b[m] == key;
                if m == b.len() - 1 {
                    lemma_bytes_lt_irreflexive(key);
                }
                assert(b0[m] == key);
            }
            if b0.contains(key) {
                let k = choose|k: int| 0 <= k < b0.len() && b0[k] == key;
                assert(b[k] == key);
                assert(bytes_lt(b[k], b[b.len() - 1]));
                assert(b.contains(key));
                let m = choose|m: int| 0 <= m < a.len() && a[m] == key;
                if m == a.len() - 1 {
                    lemma_bytes_lt_irreflexive(key);
                }
                assert(a0[m] == key);
            }
        }
        assert(ascending(a0)) by {
            assert forall|i: int, j: int| 0 <= i < j < a0.len() implies bytes_lt(
                #[trigger] a0[i],
                #[trigger] a0[j],
            ) by {
                assert(bytes_lt(a[i], a[j]));
            }
        }
        assert(ascending(b0)) by {
            assert forall|i: int, j: int| 0 <= i < j < b0.len() implies bytes_lt(
                #[trigger] b0[i],
                #[trigger] b0[j],
            ) by {
                assert(bytes_lt(b[i], b[j]));
            }
        }
        lemma_ascending_unique(a0, b0);
        assert(a =~= a0.push(x));
        assert(b =~= b0.push(y));
    }
}

/// An ascending sequence with one more key put in its place.
proof fn lemma_insert_key(sorted: Seq<Seq<u8>>, key: Seq<u8>) -> (result: Seq<Seq<u8>>)
    requires
        ascending(sorted),
    ensures
        ascending(result),
        forall|other: Seq<u8>| result.contains(other) <==> (sorted.contains(other) || other == key),
    decreases sorted.len(),
{
    if sorted.len() == 0 {
        let result = seq![key];
        assert(result[0] == key);
        result
    } else {
        let last = sorted.last();
        let front = sorted.drop_last();
        assert(sorted =~= front.push(last));
        assert forall|i: int| 0 <= i < front.len() implies bytes_lt(#[trigger] front[i], last) by {
            assert(bytes_lt(sorted[i], sorted[sorted.len() - 1]));
        }
        if bytes_lt(last, key) {
            let result = sorted.push(key);
            assert forall|i: int, j: int| 0 <= i < j < result.len() implies bytes_lt(
                #[trigger] result[i],
                #[trigger] result[j],
            ) by {
                if j < sorted.len() {
                    assert(bytes_lt(sorted[i], sorted[j]));
                } else if i < sorted.len() - 1 {
                    assert(bytes_lt(sorted[i], sorted[sorted.len() - 1]));
                    lemma_bytes_lt_transitive(sorted[i], last, key);
                }
            }
            assert forall|other: Seq<u8>| result.contains(other) <==> (sorted.contains(other)
                || other == key) by {
                if sorted.contains(other) {
                    let i = choose|i: int| 0 <= i < sorted.len() && sorted[i] == other;
                    assert(result[i] == other);
                }
                if other == key {
                    assert(result[sorted.len() as int] == other);
                }
            }
            result
        } else if last == key {
            sorted
        } else {
            lemma_bytes_lt_total(last, key);
            assert(ascending(front)) by {
                assert forall|i: int, j: int| 0 <= i < j < front.len() implies bytes_lt(
                    #[trigger] front[i],
                    #[trigger] front[j],
                ) by {
                    assert(bytes_lt(sorted[i], sorted[j]));
                }
            }
            let placed = lemma_insert_key(front, key);
            let result = placed.push(last);
            assert forall|i: int, j: int| 0 <= i < j < result.len() implies bytes_lt(
                #[trigger] result[i],
                #[trigger] result[j],
            ) by {
                if j < placed.len() {
                    assert(bytes_lt(placed[i], placed[j]));
                } else {
                    assert(placed.contains(placed[i]));
                    if front.contains(placed[i]) {
                        let k = choose|k: int| 0 <= k < front.len() && front[k] == placed[i];
                        assert(bytes_lt(front[k], last));
                    }
                }
            }
            assert forall|other: Seq<u8>| result.contains(other) <==> (sorted.contains(other)
                || other == key) by {
                if result.contains(other) {
                    let i = choose|i: int| 0 <= i < result.len() && result[i] == other;
                    if i < placed.len() {
                        assert(placed.contains(placed[i]));
                        if front.contains(other) {
                            let k = choose|k: int| 0 <= k < front.len() && front[k] == other;
                            assert(sorted[k] == other);
                        }
                    } else {
                        assert(sorted[sorted.len() - 1] == other);
                    }
                }
                if sorted.contains(other) {
                    let i = choose|i: int| 0 <= i < sorted.len() && sorted[i] == other;
                    if i < front.len() {
                        assert(front[i] == other);
                        assert(front.contains(other));
                        assert(placed.contains(other));
                        let k = choose|k: int| 0 <= k < placed.len() && placed[k] == other;
                        assert(result[k] == other);
                    } else {
                        assert(result[placed.len() as int] == other);
                    }
                }
                if other == key {
                    assert(placed.contains(other));
                    let k = choose|k: int| 0 <= k < placed.len() && placed[k] == other;
                    assert(result[k] == other);
                }
            }
            result
        }
    }
}

/// Every sequence of keys has its ascending order, and the keys are
/// written in it.
pub proof fn lemma_key_order(keys: Seq<Seq<u8>>)
    ensures
        ascending(key_order(keys)),
        same_keys(key_order(keys), keys),
    decreases keys.len(),
{
    if keys.len() == 0 {
        let sorted = Seq::<Seq<u8>>::empty();
        assert(ascending(sorted) && same_keys(sorted, keys));
    } else {
        let front = keys.drop_last();
        lemma_key_order(front);
        let sorted = lemma_insert_key(key_order(front), keys.last());
        assert forall|key: Seq<u8>| sorted.contains(key) <==> keys.contains(key) by {
            if keys.contains(key) {
                let i = choose|i: int| 0 <= i < keys.len() && keys[i] == key;
                if i < front.len() {
                    assert(front[i] == key);
                    assert(front.contains(key));
                }
            }
            if front.contains(key) {
                let i = choose|i: int| 0 <= i < front.len() && front[i] == key;
                assert(keys[i] == key);
            }
            if key == keys.last() {
                assert(keys[keys.len() - 1] == key);
            }
        }
        assert(ascending(sorted) && same_keys(sorted, keys));
    }
}

/// The model of a sequence of trees holds the model of each, in order.
pub proof fn lemma_item_values(items: Seq<Json>)
    ensures
        item_values(items).len() == items.len(),
        forall|i: int| 0 <= i < items.len() ==> (#[trigger] item_values(items)[i]) == items[i]@,
    decreases items.len(),
{
    if items.len() > 0 {
        lemma_item_values(items.drop_last());
        assert(item_values(items) == item_values(items.drop_last()).push(items.last()@));
    }
}

/// The model of a sequence of members holds each key's bytes and each
/// value's model, in order.
pub proof fn lemma_member_values(members: Seq<(String, Json)>)
    ensures
        member_values(members).len() == members.len(),
        forall|i: int|
            0 <= i < members.len() ==> (#[trigger] member_values(members)[i]) == (
                encode_utf8(members[i].0@),
                members[i].1@,
            ),
    decreases members.len(),
{
    if members.len() > 0 {
        lemma_member_values(members.drop_last());
        assert(member_values(members) == member_values(members.drop_last()).push(
            (encode_utf8(members.last().0@), members.last().1@),
        ));
    }
}

/// Whether the bytes are UTF-8, as `std::str::from_utf8` finds: it accepts
/// exactly the well-formed sequences.
#[verifier::external_body]
fn is_utf8(bytes: &[u8]) -> (valid: bool)
    ensures
        valid == valid_utf8(bytes@),
{
    std::str::from_utf8(bytes).is_ok()
}

/// The hexadecimal digit of a number below sixteen.
fn hex_digit_of(n: u8) -> (digit: u8)
    requires
        n < 16,
    ensures
        digit == hex_digit(n as int),
{
    if n < 10 {
        0x30 + n
    } else {
        0x57 + n
    }
}

/// Appends what stands for one byte of a string.
fn write_escaped_byte(b: u8, out: &mut Vec<u8>)
    ensures
        final(out)@ == old(out)@ + escape(b),
{
    if b == QUOTE {
        out.push(BACKSLASH);
        out.push(QUOTE);
    } else if b == BACKSLASH {
        out.push(BACKSLASH);
        out.push(BACKSLASH);
    } else if b == 0x08 {
        out.push(BACKSLASH);
        out.push(0x62);
    } else if b == 0x09 {
        out.push(BACKSLASH);
        out.push(0x74);
    } else if b == 0x0a {
        out.push(BACKSLASH);
        out.push(0x6e);
    } else if b == 0x0c {
        out.push(BACKSLASH);
        out.push(0x66);
    } else if b == 0x0d {
        out.push(BACKSLASH);
        out.push(0x72);
    } else if b < 0x20 {
        out.push(BACKSLASH);
        out.push(0x75);
        out.push(0x30);
        out.push(0x30);
        out.push(hex_digit_of(b / 16));
        out.push(hex_digit_of(b % 16));
    } else {
        out.push(b);
    }
    assert(out@ =~= old(out)@ + escape(b));
}

/// Appends the string, escaped and between quotes.
pub fn write_text(text: &[u8], out: &mut Vec<u8>)
    ensures
        final(out)@ == old(out)@ + quoted(text@),
{
    let ghost start = out@;
    out.push(QUOTE);
    let mut i: usize = 0;
    while i < text.len()
        invariant
            i <= text.len(),
            out@ == start + seq![QUOTE] + escaped(text@.take(i as int)),
        decreases text.len() - i,
    {
        write_escaped_byte(text[i], out);
        proof {
            assert(text@.take(i + 1).drop_last() =~= text@.take(i as int));
            assert(text@.take(i + 1).last() == text@[i as int]);
        }
        i += 1;
    }
    out.push(QUOTE);
    proof {
        assert(text@.take(text.len() as int) =~= text@);
        assert(out@ =~= start + quoted(text@));
    }
}

/// Whether `a` comes before `b` in the order of the keys.
pub fn bytes_less(a: &[u8], b: &[u8]) -> (less: bool)
    ensures
        less == bytes_lt(a@, b@),
{
    let mut i: usize = 0;
    assert(a@.skip(0) =~= a@ && b@.skip(0) =~= b@);
    while i < a.len() && i < b.len()
        invariant
            i <= a.len(),
            i <= b.len(),
            bytes_lt(a@, b@) == bytes_lt(a@.skip(i as int), b@.skip(i as int)),
        decreases a.len() - i,
    {
        if a[i] != b[i] {
            return a[i] < b[i];
        }
        proof {
            assert(a@.skip(i as int).drop_first() =~= a@.skip(i + 1));
            assert(b@.skip(i as int).drop_first() =~= b@.skip(i + 1));
        }
        i += 1;
    }
    i < b.len()
}

/// The bytes of the key of member `i`.
pub open spec fn key_bytes(members: Seq<(String, Json)>, i: int) -> Seq<u8> {
    encode_utf8(members[i].0@)
}

/// The key of member `i`, as bytes.
fn key_at(members: &Vec<(String, Json)>, i: usize) -> (key: &[u8])
    requires
        i < members.len(),
    ensures
        key@ == key_bytes(members@, i as int),
{
    members[i].0.as_str().as_bytes()
}

/// `order` lists the indices below `n`, each once, and `back` says at which
/// place of `order` each index stands.
spec fn arranges(order: Seq<usize>, back: Seq<int>, n: int) -> bool {
    &&& order.len() == n
    &&& back.len() == n
    &&& forall|k: int| 0 <= k < n ==> 0 <= #[trigger] order[k] < n && back[order[k] as int] == k
    &&& forall|i: int| 0 <= i < n ==> 0 <= #[trigger] back[i] < n && order[back[i]] == i
}

/// The indices of the members, ordered so that their keys do not descend.
fn sorted_order(members: &Vec<(String, Json)>) -> (result: (Vec<usize>, Ghost<Seq<int>>))
    ensures
        arranges(result.0@, result.1@, members.len() as int),
        forall|a: int, b: int|
            0 <= a < b < members.len() ==> !bytes_lt(
                key_bytes(members@, (#[trigger] result.0@[b]) as int),
                key_bytes(members@, (#[trigger] result.0@[a]) as int),
            ),
{
    let n = members.len();
    let mut order: Vec<usize> = Vec::new();
    let mut k: usize = 0;
    while k < n
        invariant
            k <= n,
            order@.len() == k,
            forall|i: int| 0 <= i < k ==> order@[i] == i,
        decreases n - k,
    {
        order.push(k);
        k += 1;
    }
    let ghost mut back: Seq<int> = Seq::new(n as nat, |i: int| i);
    if n == 0 {
        return (order, Ghost(back));
    }
    let mut i: usize = 1;
    while i < n
        invariant
            n == members.len(),
            1 <= i <= n,
            arranges(order@, back, n as int),
            forall|a: int, b: int|
                0 <= a < b < i ==> !bytes_lt(
                    key_bytes(members@, (#[trigger] order@[b]) as int),
                    key_bytes(members@, (#[trigger] order@[a]) as int),
                ),
        decreases n - i,
    {
        let mut j: usize = i;
        while j > 0 && bytes_less(key_at(members, order[j]), key_at(members, order[j - 1]))
            invariant
                n == members.len(),
                j <= i < n,
                arranges(order@, back, n as int),
                forall|a: int, b: int|
                    0 <= a < b <= i && a != j && b != j ==> !bytes_lt(
                        key_bytes(members@, (#[trigger] order@[b]) as int),
                        key_bytes(members@, (#[trigger] order@[a]) as int),
                    ),
                forall|b: int|
                    j < b <= i ==> bytes_lt(
                        key_bytes(members@, order@[j as int] as int),
                        key_bytes(members@, (#[trigger] order@[b]) as int),
                    ),
            decreases j,
        {
            let x = order[j - 1];
            let y = order[j];
            order[j - 1] = y;
            order[j] = x;
            proof {
                back = back.update(x as int, j as int).update(y as int, j - 1);
            }
            j -= 1;
        }
        proof {
            assert forall|a: int, b: int| 0 <= a < b < i + 1 implies !bytes_lt(
                key_bytes(members@, (#[trigger] order@[b]) as int),
                key_bytes(members@, (#[trigger] order@[a]) as int),
            ) by {
                let ka = key_bytes(members@, order@[a] as int);
                let kb = key_bytes(members@, order@[b] as int);
                if b == j {
                    let kp = key_bytes(members@, order@[j - 1] as int);
                    if a < j - 1 {
                        assert(!bytes_lt(kp, ka));
                    }
                    if bytes_lt(kb, ka) {
                        lemma_bytes_lt_chain(kb, ka, kp);
                    }
                } else if a == j {
                    lemma_bytes_lt_asymmetric(ka, kb);
                }
            }
        }
        i += 1;
    }
    (order, Ghost(back))
}

/// What begins a beginning of a sequence begins the sequence.
proof fn lemma_prefix_of_prefix(a: Seq<u8>, b: Seq<u8>, c: Seq<u8>)
    requires
        a.is_prefix_of(b),
        b.is_prefix_of(c),
    ensures
        a.is_prefix_of(c),
{
    assert(a =~= c.subrange(0, a.len() as int)) by {
        assert forall|i: int| 0 <= i < a.len() implies a[i] == c[i] by {
            assert(a[i] == b.subrange(0, a.len() as int)[i]);
            assert(b[i] == c.subrange(0, b.len() as int)[i]);
        }
    }
}

/// The keys of the members at the places of `order`, place by place.
spec fn keys_along(members: Seq<(String, Json)>, order: Seq<usize>) -> Seq<Seq<u8>> {
    Seq::new(order.len(), |k: int| key_bytes(members, order[k] as int))
}

/// Where the keys ascend along an arrangement of the members, no key
/// stands twice, the keys along it are the keys as they are written, and
/// each key finds the member it came from.
proof fn lemma_keys_along(members: Seq<(String, Json)>, order: Seq<usize>, back: Seq<int>)
    requires
        arranges(order, back, members.len() as int),
        ascending(keys_along(members, order)),
    ensures
        distinct_keys(member_values(members)),
        keys_along(members, order) == key_order(keys_of(member_values(members))),
        forall|k: int|
            0 <= k < order.len() ==> position(
                member_values(members),
                #[trigger] keys_along(members, order)[k],
            ) == order[k],
{
    let values = member_values(members);
    let along = keys_along(members, order);
    let keys = keys_of(values);
    lemma_member_values(members);
    assert forall|i: int, j: int|
        0 <= i < values.len() && 0 <= j < values.len() && i != j implies (#[trigger] values[i]).0
        != (#[trigger] values[j]).0 by {
        let a = back[i];
        let b = back[j];
        assert(order[a] == i && order[b] == j);
        assert(along[a] == values[i].0 && along[b] == values[j].0);
        if a < b {
            assert(bytes_lt(along[a], along[b]));
        } else {
            assert(bytes_lt(along[b], along[a]));
        }
        lemma_bytes_lt_irreflexive(values[i].0);
    }
    assert forall|key: Seq<u8>| along.contains(key) <==> keys.contains(key) by {
        if along.contains(key) {
            let k = choose|k: int| 0 <= k < along.len() && along[k] == key;
            assert(keys[order[k] as int] == key);
        }
        if keys.contains(key) {
            let i = choose|i: int| 0 <= i < keys.len() && keys[i] == key;
            assert(along[back[i]] == key);
        }
    }
    lemma_key_order(keys);
    assert forall|key: Seq<u8>| along.contains(key) <==> key_order(keys).contains(key) by {}
    lemma_ascending_unique(along, key_order(keys));
    assert forall|k: int| 0 <= k < order.len() implies position(values, #[trigger] along[k])
        == order[k] by {
        let i = order[k] as int;
        assert(values[i].0 == along[k]);
    }
}

/// Appends the object's canonical encoding.
fn write_object(members: &Vec<(String, Json)>, out: &mut Vec<u8>) -> (result: Result<
    (),
    EncodeError,
>)
    ensures
        match result {
            Ok(()) => representable(JsonValue::Object(member_values(members@))) && final(out)@
                == old(out)@ + canonical(JsonValue::Object(member_values(members@))),
            Err(_) => !representable(JsonValue::Object(member_values(members@))) && old(
                out,
            )@.is_prefix_of(final(out)@),
        },
    decreases members,
{
    let ghost start = out@;
    let ghost values = member_values(members@);
    let n = members.len();
    let (order, Ghost(back)) = sorted_order(members);
    let ghost along = keys_along(members@, order@);
    proof {
        lemma_member_values(members@);
    }
    let mut k: usize = 1;
    while k < n
        invariant
            n == members.len(),
            1 <= k,
            k <= n || n == 0,
            values == member_values(members@),
            along == keys_along(members@, order@),
            arranges(order@, back, n as int),
            forall|i: int| 0 <= i < n ==> (#[trigger] values[i]) == (
                encode_utf8(members@[i].0@),
                members@[i].1@,
            ),
            values.len() == n,
            forall|a: int, b: int|
                0 <= a < b < n ==> !bytes_lt(
                    key_bytes(members@, (#[trigger] order@[b]) as int),
                    key_bytes(members@, (#[trigger] order@[a]) as int),
                ),
            forall|a: int, b: int|
                0 <= a < b < k && b < n ==> bytes_lt(#[trigger] along[a], #[trigger] along[b]),
        decreases n - k,
    {
        if !bytes_less(key_at(members, order[k - 1]), key_at(members, order[k])) {
            proof {
                let i = order@[k - 1] as int;
                let j = order@[k as int] as int;
                assert(!bytes_lt(key_bytes(members@, j), key_bytes(members@, i)));
                lemma_bytes_lt_total(key_bytes(members@, i), key_bytes(members@, j));
                assert(back[i] == k - 1 && back[j] == k);
                assert(values[i].0 == values[j].0);
            }
            return Err(EncodeError::Unrepresentable);
        }
        proof {
            assert forall|a: int, b: int| 0 <= a < b < k + 1 && b < n implies bytes_lt(
                #[trigger] along[a],
                #[trigger] along[b],
            ) by {
                if b == k && a < k - 1 {
                    assert(bytes_lt(along[a], along[k - 1]));
                    lemma_bytes_lt_transitive(along[a], along[k - 1], along[b]);
                }
            }
        }
        k += 1;
    }
    proof {
        assert(ascending(along));
        lemma_keys_along(members@, order@, back);
    }
    out.push(OPEN_BRACE);
    let mut k: usize = 0;
    while k < n
        invariant
            n == members.len(),
            k <= n,
            values == member_values(members@),
            along == keys_along(members@, order@),
            arranges(order@, back, n as int),
            values.len() == n,
            forall|i: int| 0 <= i < n ==> (#[trigger] values[i]) == (
                encode_utf8(members@[i].0@),
                members@[i].1@,
            ),
            forall|i: int|
                0 <= i < n ==> position(values, #[trigger] along[i]) == order@[i],
            forall|i: int| 0 <= i < k ==> representable(members@[(#[trigger] order@[i]) as int].1@),
            start == old(out)@,
            out@ == start + seq![OPEN_BRACE] + members_text(values, along, k as nat),
        decreases n - k,
    {
        let ghost before = out@;
        if k > 0 {
            out.push(COMMA);
        }
        let at = order[k];
        write_text(key_at(members, at), out);
        out.push(COLON);
        let ghost written = out@;
        match write_json(&members[at].1, out) {
            Ok(()) => {},
            Err(error) => {
                proof {
                    assert(values[at as int].1 == members@[at as int].1@);
                    assert(start.is_prefix_of(written));
                    lemma_prefix_of_prefix(start, written, out@);
                }
                return Err(error);
            },
        }
        proof {
            let key = along[k as int];
            assert(key == key_bytes(members@, at as int));
            assert(position(values, key) == at);
            assert(values[at as int].1 == members@[at as int].1@);
            assert(member_text(values, key) == quoted(key) + seq![COLON] + canonical(
                members@[at as int].1@,
            ));
            if k > 0 {
                assert(out@ =~= before + seq![COMMA] + member_text(values, key));
            } else {
                assert(out@ =~= before + member_text(values, key));
            }
        }
        k += 1;
    }
    out.push(CLOSE_BRACE);
    proof {
        assert forall|i: int| 0 <= i < values.len() implies valid_utf8((#[trigger] values[i]).0)
            && representable(values[i].1) by {
            assert(order@[back[i]] == i);
        }
        assert(out@ =~= start + canonical(JsonValue::Object(values)));
    }
    Ok(())
}

/// Appends the array's canonical encoding.
fn write_list(items: &Vec<Json>, out: &mut Vec<u8>) -> (result: Result<(), EncodeError>)
    ensures
        match result {
            Ok(()) => representable(JsonValue::List(item_values(items@))) && final(out)@ == old(
                out,
            )@ + canonical(JsonValue::List(item_values(items@))),
            Err(_) => !representable(JsonValue::List(item_values(items@))) && old(
                out,
            )@.is_prefix_of(final(out)@),
        },
    decreases items,
{
    let ghost start = out@;
    let ghost values = item_values(items@);
    let n = items.len();
    proof {
        lemma_item_values(items@);
    }
    out.push(OPEN_BRACKET);
    let mut k: usize = 0;
    while k < n
        invariant
            n == items.len(),
            k <= n,
            values == item_values(items@),
            values.len() == n,
            forall|i: int| 0 <= i < n ==> (#[trigger] values[i]) == items@[i]@,
            forall|i: int| 0 <= i < k ==> representable(#[trigger] values[i]),
            start == old(out)@,
            out@ == start + seq![OPEN_BRACKET] + items_text(values, k as nat),
        decreases n - k,
    {
        let ghost before = out@;
        if k > 0 {
            out.push(COMMA);
        }
        let ghost written = out@;
        match write_json(&items[k], out) {
            Ok(()) => {},
            Err(error) => {
                proof {
                    assert(values[k as int] == items@[k as int]@);
                    assert(JsonValue::List(values)->List_0 == values);
                    assert(start.is_prefix_of(written));
                    lemma_prefix_of_prefix(start, written, out@);
                }
                return Err(error);
            },
        }
        proof {
            assert(values[k as int] == items@[k as int]@);
            if k > 0 {
                assert(out@ =~= before + seq![COMMA] + canonical(values[k as int]));
            } else {
                assert(out@ =~= before + canonical(values[k as int]));
            }
        }
        k += 1;
    }
    out.push(CLOSE_BRACKET);
    proof {
        assert(out@ =~= start + canonical(JsonValue::List(values)));
    }
    Ok(())
}

/// Appends the canonical encoding of `value` to `out`, or finds that the
/// value has none. On failure `out` still begins with what it held, and
/// may hold a part of the encoding behind it.
pub fn write_json(value: &Json, out: &mut Vec<u8>) -> (result: Result<(), EncodeError>)
    ensures
        match result {
            Ok(()) => representable(value@) && final(out)@ == old(out)@ + canonical(value@),
            Err(_) => !representable(value@) && old(out)@.is_prefix_of(final(out)@),
        },
    decreases value,
{
    match value {
        Json::Null => {
            out.push(0x6e);
            out.push(0x75);
            out.push(0x6c);
            out.push(0x6c);
            assert(out@ =~= old(out)@ + canonical(value@));
            Ok(())
        },
        Json::Text(text) => {
            write_text(text.as_str().as_bytes(), out);
            Ok(())
        },
        Json::Raw(bytes) => {
            if !is_utf8(bytes.as_slice()) {
                return Err(EncodeError::Unrepresentable);
            }
            out.extend_from_slice(bytes.as_slice());
            assert(out@ =~= old(out)@ + canonical(value@));
            Ok(())
        },
        Json::List(items) => write_list(items, out),
        Json::Object(members) => write_object(members, out),
    }
}

/// The canonical encoding of a tree: `Ok` with the bytes where the tree has
/// one, `Err` where a blob in it is not UTF-8 or one of its objects names a
/// key twice. (The texts and keys of a tree are strings, and so UTF-8.)
pub fn to_canonical_json(value: &Json) -> (result: Result<Vec<u8>, EncodeError>)
    ensures
        match result {
            Ok(bytes) => representable(value@) && bytes@ == canonical(value@),
            Err(_) => !representable(value@),
        },
{
    let mut out: Vec<u8> = Vec::new();
    match write_json(value, &mut out) {
        Ok(()) => Ok(out),
        Err(error) => Err(error),
    }
}

/// The bytes of a text: its UTF-8 encoding.
pub open spec fn utf8(text: &str) -> Seq<u8> {
    encode_utf8(text@)
}

/// Two different texts have different bytes.
pub proof fn lemma_utf8_injective(a: Seq<char>, b: Seq<char>)
    requires
        a != b,
    ensures
        encode_utf8(a) != encode_utf8(b),
{
    vstd::utf8::encode_utf8_decode_utf8(a);
    vstd::utf8::encode_utf8_decode_utf8(b);
}

/// Adds a member to the members of an object that is being built.
pub fn push_member(members: &mut Vec<(String, Json)>, key: &str, value: Json)
    ensures
        member_values(final(members)@) == member_values(old(members)@).push((utf8(key), value@)),
{
    let ghost before = members@;
    let owned = key.to_owned();
    members.push((owned, value));
    proof {
        assert(members@.drop_last() =~= before);
    }
}

/// Adds an item to the items of an array that is being built.
pub fn push_item(items: &mut Vec<Json>, value: Json)
    ensures
        item_values(final(items)@) == item_values(old(items)@).push(value@),
{
    let ghost before = items@;
    items.push(value);
    proof {
        assert(items@.drop_last() =~= before);
    }
}

} // verus!
