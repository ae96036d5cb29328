//! The canonical encoding is text: where a tree has a canonical encoding,
//! the bytes are UTF-8.

use crate::canonical_json::{
    canonical, escape, escaped, items_text, key_order, keys_of, lemma_key_order, member_text,
    members_text, position, quoted, representable, JsonValue,
};
use vstd::prelude::*;
use vstd::utf8::{
    length_of_first_scalar, pop_first_scalar, take_first_scalar, valid_first_scalar, valid_utf8,
    valid_utf8_concat,
};

verus! {

/// Every byte is below 0x80.
pub open spec fn all_ascii(bytes: Seq<u8>) -> bool {
    forall|i: int| 0 <= i < bytes.len() ==> (#[trigger] bytes[i]) < 0x80
}

/// ASCII is UTF-8.
pub proof fn lemma_ascii_is_utf8(bytes: Seq<u8>)
    requires
        all_ascii(bytes),
    ensures
        valid_utf8(bytes),
    decreases bytes.len(),
{
    if bytes.len() > 0 {
        let first = bytes[0];
        assert((first & 0x7F) as u32 <= 0x7F) by (bit_vector);
        assert(valid_first_scalar(bytes));
        let rest = pop_first_scalar(bytes);
        assert forall|i: int| 0 <= i < rest.len() implies (#[trigger] rest[i]) < 0x80 by {
            assert(rest[i] == bytes[i + 1]);
        }
        lemma_ascii_is_utf8(rest);
    }
}

/// What stands for an ASCII byte is ASCII.
pub proof fn lemma_escape_ascii(b: u8)
    requires
        b < 0x80,
    ensures
        all_ascii(escape(b)),
{
}

/// A byte from 0x80 on stands for itself.
pub proof fn lemma_escape_high(b: u8)
    requires
        b >= 0x80,
    ensures
        escape(b) == seq![b],
{
}

/// Escaping goes byte by byte: two parts are escaped each for itself.
pub proof fn lemma_escaped_concat(a: Seq<u8>, b: Seq<u8>)
    ensures
        escaped(a + b) == escaped(a) + escaped(b),
    decreases b.len(),
{
    if b.len() == 0 {
        assert(a + b =~= a);
        assert(escaped(a) + escaped(b) =~= escaped(a));
    } else {
        lemma_escaped_concat(a, b.drop_last());
        assert((a + b).drop_last() =~= a + b.drop_last());
        assert((a + b).last() == b.last());
        assert(escaped(a + b) =~= escaped(a) + escaped(b));
    }
}

/// Bytes that all stand for themselves are their own escaped form.
proof fn lemma_escaped_high(bytes: Seq<u8>)
    requires
        forall|i: int| 0 <= i < bytes.len() ==> (#[trigger] bytes[i]) >= 0x80,
    ensures
        escaped(bytes) == bytes,
    decreases bytes.len(),
{
    if bytes.len() > 0 {
        let front = bytes.drop_last();
        assert forall|i: int| 0 <= i < front.len() implies (#[trigger] front[i]) >= 0x80 by {
            assert(front[i] == bytes[i]);
        }
        lemma_escaped_high(front);
        lemma_escape_high(bytes.last());
        assert(escaped(bytes) =~= bytes);
    }
}

/// Escaped text is UTF-8 where the text is.
pub proof fn lemma_escaped_is_utf8(text: Seq<u8>)
    requires
        valid_utf8(text),
    ensures
        valid_utf8(escaped(text)),
    decreases text.len(),
{
    if text.len() > 0 {
        let first = take_first_scalar(text);
        let rest = pop_first_scalar(text);
        let width = length_of_first_scalar(text);
        assert(text =~= first + rest);
        lemma_escaped_concat(first, rest);
        lemma_escaped_is_utf8(rest);
        if width == 1 {
            assert(first =~= seq![text[0]]);
            assert(escaped(first.drop_last()) =~= Seq::<u8>::empty());
            assert(escaped(first) =~= escape(text[0]));
            lemma_escape_ascii(text[0]);
            lemma_ascii_is_utf8(escaped(first));
        } else {
            assert forall|i: int| 0 <= i < first.len() implies (#[trigger] first[i]) >= 0x80 by {
                assert(first[i] == text[i]);
            }
            lemma_escaped_high(first);
            assert(valid_utf8(first)) by {
                reveal_with_fuel(valid_utf8, 2);
                assert(valid_first_scalar(first));
                assert(pop_first_scalar(first) =~= Seq::<u8>::empty());
            }
        }
        valid_utf8_concat(escaped(first), escaped(rest));
    }
}

/// A quoted text is UTF-8 where the text is.
pub proof fn lemma_quoted_is_utf8(text: Seq<u8>)
    requires
        valid_utf8(text),
    ensures
        valid_utf8(quoted(text)),
{
    lemma_escaped_is_utf8(text);
    let quote = seq![crate::canonical_json::QUOTE];
    lemma_ascii_is_utf8(quote);
    valid_utf8_concat(quote, escaped(text));
    valid_utf8_concat(quote + escaped(text), quote);
}

/// The canonical encoding of a tree that has one is UTF-8.
pub proof fn lemma_canonical_is_utf8(value: JsonValue)
    requires
        representable(value),
    ensures
        valid_utf8(canonical(value)),
    decreases value, 0nat,
{
    match value {
        JsonValue::Null => {
            lemma_ascii_is_utf8(canonical(value));
        },
        JsonValue::Text(text) => {
            lemma_quoted_is_utf8(text);
        },
        JsonValue::Raw(bytes) => {},
        JsonValue::List(items) => {
            lemma_items_text_is_utf8(items, items.len());
            let open = seq![crate::canonical_json::OPEN_BRACKET];
            let close = seq![crate::canonical_json::CLOSE_BRACKET];
            lemma_ascii_is_utf8(open);
            lemma_ascii_is_utf8(close);
            valid_utf8_concat(open, items_text(items, items.len()));
            valid_utf8_concat(open + items_text(items, items.len()), close);
        },
        JsonValue::Object(members) => {
            let keys = key_order(keys_of(members));
            lemma_key_order(keys_of(members));
            lemma_members_text_is_utf8(members, keys, keys.len());
            let open = seq![crate::canonical_json::OPEN_BRACE];
            let close = seq![crate::canonical_json::CLOSE_BRACE];
            lemma_ascii_is_utf8(open);
            lemma_ascii_is_utf8(close);
            valid_utf8_concat(open, members_text(members, keys, keys.len()));
            valid_utf8_concat(open + members_text(members, keys, keys.len()), close);
        },
    }
}

proof fn lemma_items_text_is_utf8(items: Seq<JsonValue>, n: nat)
    requires
        forall|i: int| 0 <= i < items.len() ==> representable(#[trigger] items[i]),
    ensures
        valid_utf8(items_text(items, n)),
    decreases items, n,
{
    if n == 0 || n > items.len() {
    } else if n == 1 {
        lemma_canonical_is_utf8(items[0]);
    } else {
        lemma_items_text_is_utf8(items, (n - 1) as nat);
        lemma_canonical_is_utf8(items[n - 1]);
        let comma = seq![crate::canonical_json::COMMA];
        lemma_ascii_is_utf8(comma);
        valid_utf8_concat(items_text(items, (n - 1) as nat), comma);
        valid_utf8_concat(items_text(items, (n - 1) as nat) + comma, canonical(items[n - 1]));
    }
}

proof fn lemma_member_text_is_utf8(members: Seq<(Seq<u8>, JsonValue)>, key: Seq<u8>)
    requires
        forall|i: int|
            0 <= i < members.len() ==> valid_utf8((#[trigger] members[i]).0) && representable(
                members[i].1,
            ),
        keys_of(members).contains(key),
    ensures
        valid_utf8(member_text(members, key)),
    decreases members, 0nat,
{
    let k = choose|k: int| 0 <= k < keys_of(members).len() && keys_of(members)[k] == key;
    assert(members[k].0 == key);
    let i = position(members, key);
    assert(0 <= i < members.len() && members[i].0 == key);
    lemma_quoted_is_utf8(key);
    lemma_canonical_is_utf8(members[i].1);
    let colon = seq![crate::canonical_json::COLON];
    lemma_ascii_is_utf8(colon);
    valid_utf8_concat(quoted(key), colon);
    valid_utf8_concat(quoted(key) + colon, canonical(members[i].1));
}

proof fn lemma_members_text_is_utf8(
    members: Seq<(Seq<u8>, JsonValue)>,
    keys: Seq<Seq<u8>>,
    n: nat,
)
    requires
        forall|i: int|
            0 <= i < members.len() ==> valid_utf8((#[trigger] members[i]).0) && representable(
                members[i].1,
            ),
        forall|k: int| 0 <= k < keys.len() ==> keys_of(members).contains(#[trigger] keys[k]),
    ensures
        valid_utf8(members_text(members, keys, n)),
    decreases members, n,
{
    if n == 0 || n > keys.len() {
    } else if n == 1 {
        lemma_member_text_is_utf8(members, keys[0]);
    } else {
        lemma_members_text_is_utf8(members, keys, (n - 1) as nat);
        lemma_member_text_is_utf8(members, keys[n - 1]);
        let comma = seq![crate::canonical_json::COMMA];
        lemma_ascii_is_utf8(comma);
        valid_utf8_concat(members_text(members, keys, (n - 1) as nat), comma);
        valid_utf8_concat(
            members_text(members, keys, (n - 1) as nat) + comma,
            member_text(members, keys[n - 1]),
        );
    }
}

} // verus!
