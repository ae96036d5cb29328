//! Convience methods for signing transactions

use crate::canonical_json::{
    canonical, distinct_keys, lemma_utf8_injective, push_item, push_member, representable,
    to_canonical_json, utf8, EncodeError, Json, JsonValue, CLOSE_BRACE, OPEN_BRACE,
};
use crate::member_order::{entries, lemma_texts_in_order, lemma_written_in_order};
use crate::msg::Msg;
use crate::stdfee::StdFee;
use crate::uint256::{decimal_text, Uint256};
use crate::validity::lemma_canonical_is_utf8;
use vstd::pervasive::unreached;
use vstd::prelude::*;
use vstd::utf8::{encode_utf8, valid_utf8};

verus! {

broadcast use vstd::utf8::encode_utf8_valid_utf8;

/// A raw message that gets serialized as a JSON
#[derive(Debug)]
pub struct RawMessage(pub Vec<u8>);

/// The messages as JSON holds them: each as the bytes it is, one after the
/// other.
pub open spec fn raw_messages_json(msgs: Seq<RawMessage>) -> Seq<JsonValue> {
    Seq::new(msgs.len(), |i: int| JsonValue::Raw(msgs[i].0@))
}

/// Every message is UTF-8.
pub open spec fn all_utf8(msgs: Seq<RawMessage>) -> bool {
    forall|i: int| 0 <= i < msgs.len() ==> valid_utf8((#[trigger] msgs[i]).0@)
}

/// The messages as a JSON array.
pub fn raw_messages_to_json(msgs: &Vec<RawMessage>) -> (json: Json)
    ensures
        json@ == JsonValue::List(raw_messages_json(msgs@)),
{
    let mut items: Vec<Json> = Vec::new();
    let mut i: usize = 0;
    while i < msgs.len()
        invariant
            i <= msgs.len(),
            crate::canonical_json::item_values(items@) == raw_messages_json(msgs@.take(i as int)),
        decreases msgs.len() - i,
    {
        let bytes = msgs[i].0.clone();
        assert(bytes@ =~= msgs@[i as int].0@);
        push_item(&mut items, Json::Raw(bytes));
        proof {
            assert(raw_messages_json(msgs@.take(i as int)).push(JsonValue::Raw(msgs@[i as int].0@))
                =~= raw_messages_json(msgs@.take(i + 1)));
        }
        i += 1;
    }
    proof {
        assert(msgs@.take(msgs.len() as int) =~= msgs@);
    }
    Json::List(items)
}

/// The messages, each in its canonical encoding and for itself.
pub fn encode_messages(msgs: &Vec<Msg>) -> (raws: Vec<RawMessage>)
    ensures
        raws@.len() == msgs@.len(),
        forall|i: int| 0 <= i < msgs@.len() ==> (#[trigger] raws@[i]).0@ == canonical(msgs@[i].json()),
        all_utf8(raws@),
{
    let mut raws: Vec<RawMessage> = Vec::new();
    let mut i: usize = 0;
    while i < msgs.len()
        invariant
            i <= msgs.len(),
            raws@.len() == i,
            forall|k: int| 0 <= k < i ==> (#[trigger] raws@[k]).0@ == canonical(msgs@[k].json()),
            all_utf8(raws@),
        decreases msgs.len() - i,
    {
        let bytes = match msgs[i].to_sign_bytes() {
            Ok(bytes) => bytes,
            Err(_) => unreached(),
        };
        proof {
            msgs@[i as int].lemma_representable();
            lemma_canonical_is_utf8(msgs@[i as int].json());
        }
        raws.push(RawMessage(bytes));
        i += 1;
    }
    raws
}

/// An internal structure that gets created during the signing process
/// that contains most of the properties of a `StdSignMsg` in a
/// preparation of a payload for a signing process.
#[derive(Debug)]
pub struct StdSignDoc {
    /// Identifies the Chain-Id for which this transaction is valid
    pub chain_id: String,
    /// Account numer for the account on this chain
    pub account_number: String,
    /// Sequence number for this transaction
    pub sequence: String,
    /// Fees to be paid the validator set
    pub fee: StdFee,
    /// Msgs contained
    pub msgs: Vec<RawMessage>,
    /// Memo field
    pub memo: String,
}

impl StdSignDoc {
    /// The document as JSON holds it.
    pub open spec fn json(&self) -> JsonValue {
        JsonValue::Object(
            seq![
                (utf8("chain_id"), JsonValue::Text(encode_utf8(self.chain_id@))),
                (utf8("account_number"), JsonValue::Text(encode_utf8(self.account_number@))),
                (utf8("sequence"), JsonValue::Text(encode_utf8(self.sequence@))),
                (utf8("fee"), self.fee.json()),
                (utf8("msgs"), JsonValue::List(raw_messages_json(self.msgs@))),
                (utf8("memo"), JsonValue::Text(encode_utf8(self.memo@))),
            ],
        )
    }

    /// The six keys of the document differ from each other.
    proof fn lemma_distinct_keys(&self)
        ensures
            distinct_keys(self.json()->Object_0),
    {
        reveal_strlit("chain_id");
        reveal_strlit("account_number");
        reveal_strlit("sequence");
        reveal_strlit("fee");
        reveal_strlit("msgs");
        reveal_strlit("memo");
        lemma_utf8_injective("chain_id"@, "account_number"@);
        lemma_utf8_injective("chain_id"@, "sequence"@);
        lemma_utf8_injective("chain_id"@, "fee"@);
        lemma_utf8_injective("chain_id"@, "msgs"@);
        lemma_utf8_injective("chain_id"@, "memo"@);
        lemma_utf8_injective("account_number"@, "sequence"@);
        lemma_utf8_injective("account_number"@, "fee"@);
        lemma_utf8_injective("account_number"@, "msgs"@);
        lemma_utf8_injective("account_number"@, "memo"@);
        lemma_utf8_injective("sequence"@, "fee"@);
        lemma_utf8_injective("sequence"@, "msgs"@);
        lemma_utf8_injective("sequence"@, "memo"@);
        lemma_utf8_injective("fee"@, "msgs"@);
        lemma_utf8_injective("fee"@, "memo"@);
        assert("msgs"@[1] != "memo"@[1]);
        lemma_utf8_injective("msgs"@, "memo"@);
    }

    /// The members of the document by ascending key.
    pub open spec fn members_in_order(&self) -> Seq<(Seq<u8>, JsonValue)> {
        seq![
            (utf8("account_number"), JsonValue::Text(encode_utf8(self.account_number@))),
            (utf8("chain_id"), JsonValue::Text(encode_utf8(self.chain_id@))),
            (utf8("fee"), self.fee.json()),
            (utf8("memo"), JsonValue::Text(encode_utf8(self.memo@))),
            (utf8("msgs"), JsonValue::List(raw_messages_json(self.msgs@))),
            (utf8("sequence"), JsonValue::Text(encode_utf8(self.sequence@))),
        ]
    }

    /// The document is written with its fields in this order:
    /// `account_number`, `chain_id`, `fee`, `memo`, `msgs`, `sequence`.
    pub proof fn lemma_field_order(&self)
        ensures
            canonical(self.json()) == seq![OPEN_BRACE] + entries(self.members_in_order(), 6)
                + seq![CLOSE_BRACE],
    {
        let given = self.json()->Object_0;
        let sorted = self.members_in_order();
        reveal_strlit("chain_id");
        reveal_strlit("account_number");
        reveal_strlit("sequence");
        reveal_strlit("fee");
        reveal_strlit("msgs");
        reveal_strlit("memo");
        lemma_texts_in_order("account_number"@, "chain_id"@, 0);
        lemma_texts_in_order("chain_id"@, "fee"@, 0);
        lemma_texts_in_order("fee"@, "memo"@, 0);
        lemma_texts_in_order("memo"@, "msgs"@, 1);
        lemma_texts_in_order("msgs"@, "sequence"@, 0);
        self.lemma_distinct_keys();
        assert(sorted.len() == 6);
        assert(sorted[1] == given[0] && sorted[0] == given[1] && sorted[5] == given[2] && sorted[2]
            == given[3] && sorted[4] == given[4] && sorted[3] == given[5]);
        lemma_written_in_order(given, sorted);
    }

    /// The document has a canonical encoding exactly where each of its
    /// messages is UTF-8.
    pub proof fn lemma_representable(&self)
        ensures
            representable(self.json()) <==> all_utf8(self.msgs@),
    {
        self.lemma_distinct_keys();
        let members = self.json()->Object_0;
        assert(distinct_keys(members));
        self.fee.lemma_representable();
        let raws = raw_messages_json(self.msgs@);
        let list = JsonValue::List(raws);
        assert(list->List_0 == raws);
        assert(members[4].1 == list);
        if all_utf8(self.msgs@) {
            assert forall|i: int| 0 <= i < raws.len() implies representable(#[trigger] raws[i]) by {
                assert(valid_utf8(self.msgs@[i].0@));
            }
            assert(representable(list));
            assert(representable(members[0].1) && representable(members[1].1) && representable(
                members[2].1,
            ) && representable(members[3].1) && representable(members[4].1) && representable(
                members[5].1,
            ));
        }
        if representable(self.json()) {
            assert(representable(members[4].1));
            assert forall|i: int| 0 <= i < self.msgs@.len() implies valid_utf8(
                (#[trigger] self.msgs@[i]).0@,
            ) by {
                assert(representable(raws[i]));
            }
        }
    }

    /// The document as a JSON object.
    pub fn to_json(&self) -> (json: Json)
        ensures
            json@ == self.json(),
    {
        let mut members: Vec<(String, Json)> = Vec::new();
        push_member(&mut members, "chain_id", Json::Text(self.chain_id.clone()));
        push_member(&mut members, "account_number", Json::Text(self.account_number.clone()));
        push_member(&mut members, "sequence", Json::Text(self.sequence.clone()));
        push_member(&mut members, "fee", self.fee.to_json());
        push_member(&mut members, "msgs", raw_messages_to_json(&self.msgs));
        push_member(&mut members, "memo", Json::Text(self.memo.clone()));
        let json = Json::Object(members);
        proof {
            assert(json@->Object_0 =~= self.json()->Object_0);
        }
        json
    }

    /// The document to sign for these messages. The account number and the
    /// sequence are held in decimal. Each message is held in its own
    /// canonical encoding, so the document has a canonical encoding too.
    pub fn build(
        chain_id: String,
        account_number: u64,
        sequence: u64,
        fee: StdFee,
        msgs: &Vec<Msg>,
        memo: String,
    ) -> (doc: StdSignDoc)
        ensures
            doc.chain_id == chain_id,
            doc.account_number@ == decimal_text(account_number as nat),
            doc.sequence@ == decimal_text(sequence as nat),
            doc.fee == fee,
            doc.memo == memo,
            doc.msgs@.len() == msgs@.len(),
            forall|i: int|
                0 <= i < msgs@.len() ==> (#[trigger] doc.msgs@[i]).0@ == canonical(
                    msgs@[i].json(),
                ),
            all_utf8(doc.msgs@),
    {
        StdSignDoc {
            chain_id,
            account_number: Uint256::from_u64(account_number).to_string(),
            sequence: Uint256::from_u64(sequence).to_string(),
            fee,
            msgs: encode_messages(msgs),
            memo,
        }
    }

    /// This creates a bytes based using a canonical JSON serialization
    /// format.
    ///
    /// The result is the canonical encoding of the document where each of
    /// its messages is UTF-8, and an error where one is not.
    pub fn to_bytes(&self) -> (result: Result<Vec<u8>, EncodeError>)
        ensures
            match result {
                Ok(bytes) => all_utf8(self.msgs@) && bytes@ == canonical(self.json()),
                Err(_) => !all_utf8(self.msgs@),
            },
    {
        proof {
            self.lemma_representable();
        }
        to_canonical_json(&self.to_json())
    }
}

impl Default for StdSignDoc {
    /// The document without a chain, numbers, fee, messages or memo.
    fn default() -> (doc: StdSignDoc)
        ensures
            doc.chain_id@ == Seq::<char>::empty(),
            doc.account_number@ == Seq::<char>::empty(),
            doc.sequence@ == Seq::<char>::empty(),
            doc.fee.amount is None,
            doc.fee.gas.value() == 0,
            doc.msgs@ == Seq::<RawMessage>::empty(),
            doc.memo@ == Seq::<char>::empty(),
    {
        StdSignDoc {
            chain_id: String::new(),
            account_number: String::new(),
            sequence: String::new(),
            fee: StdFee::default(),
            msgs: Vec::new(),
            memo: String::new(),
        }
    }
}

} // verus!
