//! Message format for broadcasting transctions

use crate::canonical_json::{
    canonical, distinct_keys, lemma_utf8_injective, push_item, push_member, representable,
    to_canonical_json, utf8, EncodeError, Json, JsonValue, CLOSE_BRACE, OPEN_BRACE,
};
use crate::member_order::{entries, lemma_texts_in_order, lemma_written_in_order};
use crate::msg::{lemma_messages_representable, messages_json, messages_to_json, Msg};
use crate::stdfee::StdFee;
use vstd::prelude::*;
use vstd::string::StringExecFns;
use vstd::utf8::encode_utf8;

verus! {

broadcast use vstd::utf8::encode_utf8_valid_utf8;

/// The base64 text of `data`, in the standard alphabet and with padding,
/// as `base64::encode` gives it.
pub uninterp spec fn base64_text(data: Seq<u8>) -> Seq<char>;

/// Calls `base64::encode` and names its result. The crate panics where the
/// length of the text does not fit in `usize`: data of at most half of
/// `usize::MAX` bytes is far from that.
#[verifier::external_body]
fn base64_encode(data: &[u8]) -> (text: String)
    requires
        data@.len() <= usize::MAX / 2,
    ensures
        text@ == base64_text(data@),
{
    base64::encode(data)
}

/// A Secp256k1 public key in its compressed form of 33 bytes.
#[derive(Debug, Clone, Copy, PartialEq, Eq)]
pub struct SecpKey(pub [u8; 33]);

/// A Secp256k1 ECDSA signature in its fixed form of 64 bytes.
#[derive(Debug, Clone, Copy, PartialEq, Eq)]
pub struct Sig(pub [u8; 64]);

/// The public key of a signer, by the kind of key.
#[derive(Debug, Clone, Copy, PartialEq, Eq)]
pub enum PubKey {
    /// Secp256k1 key
    SecpKey(SecpKey),
}

/// Signatures on the transactions
#[derive(Debug, Clone, Copy, PartialEq, Eq)]
pub struct TxSignature {
    /// Optional Public key on a singature
    pub pub_key: Option<PubKey>,
    /// Standard Secp256k1 ECDSA signature
    pub signature: Sig,
}

/// The signed transaction: the messages, the fee, the memo and the
/// signatures collected for them.
#[derive(Debug)]
pub struct StdTx {
    /// Messages in transction
    pub msg: Vec<Msg>,
    /// Fees to be paid
    pub fee: StdFee,
    /// Memo field
    pub memo: String,
    /// Signatures
    pub signatures: Vec<TxSignature>,
}

/// A signed transaction under the tag of its family of chains.
#[derive(Debug)]
pub enum CosmosSDKTx {
    /// Standard Cosmos SDK transaction interface
    CosmosStdTx(StdTx),
    /// Terra Cosmos SDK transaction interface
    Terra(StdTx),
}

impl SecpKey {
    /// The key as JSON holds it: its bytes in base64, as a string.
    pub open spec fn json(&self) -> JsonValue {
        JsonValue::Text(encode_utf8(base64_text(self.0@)))
    }

    /// The key as a JSON string.
    pub fn to_json(&self) -> (json: Json)
        ensures
            json@ == self.json(),
    {
        Json::Text(base64_encode(self.0.as_slice()))
    }
}

impl Sig {
    /// The signature as JSON holds it: its bytes in base64, as a string.
    pub open spec fn json(&self) -> JsonValue {
        JsonValue::Text(encode_utf8(base64_text(self.0@)))
    }

    /// The signature as a JSON string.
    pub fn to_json(&self) -> (json: Json)
        ensures
            json@ == self.json(),
    {
        Json::Text(base64_encode(self.0.as_slice()))
    }
}

impl PubKey {
    /// The key as JSON holds it: the kind of key under `type`, the key
    /// under `value`.
    pub open spec fn json(&self) -> JsonValue {
        match self {
            PubKey::SecpKey(key) => JsonValue::Object(
                seq![
                    (utf8("type"), JsonValue::Text(utf8("tendermint/PubKeySecp256k1"))),
                    (utf8("value"), key.json()),
                ],
            ),
        }
    }

    /// Every key has a canonical encoding.
    pub proof fn lemma_representable(&self)
        ensures
            representable(self.json()),
    {
        reveal_strlit("type");
        reveal_strlit("value");
        lemma_utf8_injective("type"@, "value"@);
        let members = self.json()->Object_0;
        assert(distinct_keys(members));
        assert(representable(members[0].1) && representable(members[1].1));
    }

    /// A key is written with its kind under `type` first, then the key
    /// under `value`.
    pub proof fn lemma_field_order(&self)
        ensures
            canonical(self.json()) == seq![OPEN_BRACE] + entries(self.json()->Object_0, 2) + seq![
                CLOSE_BRACE,
            ],
    {
        let given = self.json()->Object_0;
        let sorted = self.json()->Object_0;
        reveal_strlit("type");
        reveal_strlit("value");
        lemma_texts_in_order("type"@, "value"@, 0);
        self.lemma_representable();
        assert(sorted.len() == 2);
        assert(sorted[0] == given[0] && sorted[1] == given[1]);
        lemma_written_in_order(given, sorted);
    }

    /// The key as a JSON object.
    pub fn to_json(&self) -> (json: Json)
        ensures
            json@ == self.json(),
    {
        match self {
            PubKey::SecpKey(key) => {
                let mut members: Vec<(String, Json)> = Vec::new();
                push_member(
                    &mut members,
                    "type",
                    Json::Text("tendermint/PubKeySecp256k1".to_owned()),
                );
                push_member(&mut members, "value", key.to_json());
                let json = Json::Object(members);
                proof {
                    assert(json@->Object_0 =~= self.json()->Object_0);
                }
                json
            },
        }
    }
}

impl TxSignature {
    /// The signature as JSON holds it. The public key is left out where
    /// there is none.
    pub open spec fn json(&self) -> JsonValue {
        match self.pub_key {
            Some(key) => JsonValue::Object(
                seq![(utf8("pub_key"), key.json()), (utf8("signature"), self.signature.json())],
            ),
            None => JsonValue::Object(seq![(utf8("signature"), self.signature.json())]),
        }
    }

    /// Every signature has a canonical encoding.
    pub proof fn lemma_representable(&self)
        ensures
            representable(self.json()),
    {
        reveal_strlit("pub_key");
        reveal_strlit("signature");
        lemma_utf8_injective("pub_key"@, "signature"@);
        let members = self.json()->Object_0;
        assert(distinct_keys(members));
        match self.pub_key {
            Some(key) => {
                key.lemma_representable();
                assert(representable(members[0].1) && representable(members[1].1));
            },
            None => {
                assert(representable(members[0].1));
            },
        }
    }

    /// A signature is written with its public key first, where it has one,
    /// then the signature.
    pub proof fn lemma_field_order(&self)
        ensures
            canonical(self.json()) == seq![OPEN_BRACE] + entries(
                self.json()->Object_0,
                self.json()->Object_0.len(),
            ) + seq![CLOSE_BRACE],
    {
        let given = self.json()->Object_0;
        reveal_strlit("pub_key");
        reveal_strlit("signature");
        lemma_texts_in_order("pub_key"@, "signature"@, 0);
        self.lemma_representable();
        match self.pub_key {
            Some(key) => {
                assert(given.len() == 2);
                assert(given[0] == given[0] && given[1] == given[1]);
            },
            None => {
                assert(given.len() == 1);
                assert(given[0] == given[0]);
            },
        }
        lemma_written_in_order(given, given);
    }

    /// The signature as a JSON object.
    pub fn to_json(&self) -> (json: Json)
        ensures
            json@ == self.json(),
    {
        let mut members: Vec<(String, Json)> = Vec::new();
        match &self.pub_key {
            Some(key) => {
                push_member(&mut members, "pub_key", key.to_json());
            },
            None => {},
        }
        push_member(&mut members, "signature", self.signature.to_json());
        let json = Json::Object(members);
        proof {
            assert(json@->Object_0 =~= self.json()->Object_0);
        }
        json
    }

    /// The text that shows the signature to a reader: `ECDSA Signature: `
    /// and the signature in base64.
    pub fn debug_string(&self) -> (text: String)
        ensures
            text@ == "ECDSA Signature: "@ + base64_text(self.signature.0@),
    {
        let encoded = base64_encode(self.signature.0.as_slice());
        "ECDSA Signature: ".to_owned().concat(encoded.as_str())
    }
}

/// The signatures as JSON holds them, one after the other.
pub open spec fn signatures_json(signatures: Seq<TxSignature>) -> Seq<JsonValue> {
    Seq::new(signatures.len(), |i: int| signatures[i].json())
}

/// The signatures as a JSON array.
pub fn signatures_to_json(signatures: &Vec<TxSignature>) -> (json: Json)
    ensures
        json@ == JsonValue::List(signatures_json(signatures@)),
{
    let mut items: Vec<Json> = Vec::new();
    let mut i: usize = 0;
    while i < signatures.len()
        invariant
            i <= signatures.len(),
            crate::canonical_json::item_values(items@) == signatures_json(
                signatures@.take(i as int),
            ),
        decreases signatures.len() - i,
    {
        push_item(&mut items, signatures[i].to_json());
        proof {
            assert(signatures_json(signatures@.take(i as int)).push(signatures@[i as int].json())
                =~= signatures_json(signatures@.take(i + 1)));
        }
        i += 1;
    }
    proof {
        assert(signatures@.take(signatures.len() as int) =~= signatures@);
    }
    Json::List(items)
}

impl StdTx {
    /// The transaction as JSON holds it.
    pub open spec fn json(&self) -> JsonValue {
        JsonValue::Object(
            seq![
                (utf8("msg"), JsonValue::List(messages_json(self.msg@))),
                (utf8("fee"), self.fee.json()),
                (utf8("memo"), JsonValue::Text(encode_utf8(self.memo@))),
                (utf8("signatures"), JsonValue::List(signatures_json(self.signatures@))),
            ],
        )
    }

    /// Every transaction has a canonical encoding.
    pub proof fn lemma_representable(&self)
        ensures
            representable(self.json()),
    {
        reveal_strlit("msg");
        reveal_strlit("fee");
        reveal_strlit("memo");
        reveal_strlit("signatures");
        lemma_utf8_injective("msg"@, "fee"@);
        lemma_utf8_injective("msg"@, "memo"@);
        lemma_utf8_injective("msg"@, "signatures"@);
        lemma_utf8_injective("fee"@, "memo"@);
        lemma_utf8_injective("fee"@, "signatures"@);
        lemma_utf8_injective("memo"@, "signatures"@);
        let members = self.json()->Object_0;
        assert(distinct_keys(members));
        lemma_messages_representable(self.msg@);
        self.fee.lemma_representable();
        let signatures = signatures_json(self.signatures@);
        let list = JsonValue::List(signatures);
        assert(list->List_0 == signatures);
        assert forall|i: int| 0 <= i < signatures.len() implies representable(
            #[trigger] signatures[i],
        ) by {
            self.signatures@[i].lemma_representable();
        }
        assert(representable(members[0].1) && representable(members[1].1) && representable(
            members[2].1,
        ) && representable(members[3].1));
    }

    /// The members by ascending key.
    pub open spec fn members_in_order(&self) -> Seq<(Seq<u8>, JsonValue)> {
        seq![
            (utf8("fee"), self.fee.json()),
            (utf8("memo"), JsonValue::Text(encode_utf8(self.memo@))),
            (utf8("msg"), JsonValue::List(messages_json(self.msg@))),
            (utf8("signatures"), JsonValue::List(signatures_json(self.signatures@))),
        ]
    }

    /// A transaction is written with its fields in this order: `fee`,
    /// `memo`, `msg`, `signatures`.
    pub proof fn lemma_field_order(&self)
        ensures
            canonical(self.json()) == seq![OPEN_BRACE] + entries(self.members_in_order(), 4) + seq![
                CLOSE_BRACE,
            ],
    {
        let given = self.json()->Object_0;
        let sorted = self.members_in_order();
        reveal_strlit("fee");
        reveal_strlit("memo");
        reveal_strlit("msg");
        reveal_strlit("signatures");
        lemma_texts_in_order("fee"@, "memo"@, 0);
        lemma_texts_in_order("memo"@, "msg"@, 1);
        lemma_texts_in_order("msg"@, "signatures"@, 0);
        self.lemma_representable();
        assert(sorted.len() == 4);
        assert(sorted[2] == given[0] && sorted[0] == given[1] && sorted[1] == given[2] && sorted[3] == given[3]);
        lemma_written_in_order(given, sorted);
    }

    /// The transaction of these messages, without a signature yet.
    pub fn new(msg: Vec<Msg>, fee: StdFee, memo: String) -> (tx: StdTx)
        ensures
            tx.msg == msg,
            tx.fee == fee,
            tx.memo == memo,
            tx.signatures@ == Seq::<TxSignature>::empty(),
    {
        StdTx { msg, fee, memo, signatures: Vec::new() }
    }

    /// Puts one more signature behind those collected so far. The
    /// messages, the fee and the memo stay as they are.
    pub fn add_signature(&mut self, signature: TxSignature)
        ensures
            final(self).signatures@ == old(self).signatures@.push(signature),
            final(self).msg == old(self).msg,
            final(self).fee == old(self).fee,
            final(self).memo == old(self).memo,
    {
        self.signatures.push(signature);
    }

    /// The transaction as a JSON object.
    pub fn to_json(&self) -> (json: Json)
        ensures
            json@ == self.json(),
    {
        let mut members: Vec<(String, Json)> = Vec::new();
        push_member(&mut members, "msg", messages_to_json(&self.msg));
        push_member(&mut members, "fee", self.fee.to_json());
        push_member(&mut members, "memo", Json::Text(self.memo.clone()));
        push_member(&mut members, "signatures", signatures_to_json(&self.signatures));
        let json = Json::Object(members);
        proof {
            assert(json@->Object_0 =~= self.json()->Object_0);
        }
        json
    }
}

impl Default for StdTx {
    /// The transaction without messages, fee, memo or signatures.
    fn default() -> (tx: StdTx)
        ensures
            tx.msg@ == Seq::<Msg>::empty(),
            tx.fee.amount is None,
            tx.fee.gas.value() == 0,
            tx.memo@ == Seq::<char>::empty(),
            tx.signatures@ == Seq::<TxSignature>::empty(),
    {
        StdTx { msg: Vec::new(), fee: StdFee::default(), memo: String::new(), signatures: Vec::new() }
    }
}

impl CosmosSDKTx {
    /// The tag that names the family of chains on the wire.
    pub open spec fn tag(&self) -> Seq<char> {
        match self {
            CosmosSDKTx::CosmosStdTx(_) => "cosmos-sdk/StdTx"@,
            CosmosSDKTx::Terra(_) => "core/StdTx"@,
        }
    }

    /// The transaction in the envelope.
    pub open spec fn tx(&self) -> StdTx {
        match self {
            CosmosSDKTx::CosmosStdTx(tx) => *tx,
            CosmosSDKTx::Terra(tx) => *tx,
        }
    }

    /// The envelope as JSON holds it: the tag under `type`, the
    /// transaction under `value`.
    pub open spec fn json(&self) -> JsonValue {
        JsonValue::Object(
            seq![
                (utf8("type"), JsonValue::Text(encode_utf8(self.tag()))),
                (utf8("value"), self.tx().json()),
            ],
        )
    }

    /// Every envelope has a canonical encoding.
    pub proof fn lemma_representable(&self)
        ensures
            representable(self.json()),
    {
        reveal_strlit("type");
        reveal_strlit("value");
        lemma_utf8_injective("type"@, "value"@);
        let members = self.json()->Object_0;
        assert(distinct_keys(members));
        self.tx().lemma_representable();
        assert(representable(members[0].1) && representable(members[1].1));
    }

    /// An envelope is written with its tag under `type` first, then the
    /// transaction under `value`.
    pub proof fn lemma_field_order(&self)
        ensures
            canonical(self.json()) == seq![OPEN_BRACE] + entries(self.json()->Object_0, 2) + seq![
                CLOSE_BRACE,
            ],
    {
        let given = self.json()->Object_0;
        let sorted = self.json()->Object_0;
        reveal_strlit("type");
        reveal_strlit("value");
        lemma_texts_in_order("type"@, "value"@, 0);
        self.lemma_representable();
        assert(sorted.len() == 2);
        assert(sorted[0] == given[0] && sorted[1] == given[1]);
        lemma_written_in_order(given, sorted);
    }

    /// The envelope as a JSON object.
    pub fn to_json(&self) -> (json: Json)
        ensures
            json@ == self.json(),
    {
        let (tag, content) = match self {
            CosmosSDKTx::CosmosStdTx(tx) => ("cosmos-sdk/StdTx", tx.to_json()),
            CosmosSDKTx::Terra(tx) => ("core/StdTx", tx.to_json()),
        };
        let mut members: Vec<(String, Json)> = Vec::new();
        push_member(&mut members, "type", Json::Text(tag.to_owned()));
        push_member(&mut members, "value", content);
        let json = Json::Object(members);
        proof {
            assert(json@->Object_0 =~= self.json()->Object_0);
        }
        json
    }

    /// The bytes to broadcast: the canonical encoding of the envelope.
    /// The result is always `Ok`.
    pub fn to_bytes(&self) -> (result: Result<Vec<u8>, EncodeError>)
        ensures
            result matches Ok(bytes) && bytes@ == canonical(self.json()),
    {
        proof {
            self.lemma_representable();
        }
        to_canonical_json(&self.to_json())
    }
}

} // verus!
