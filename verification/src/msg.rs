//! Transaction MSGs for various comsos sdk chains

use crate::address::{Address, TerraAddress, TerraValidatorOperatorAddress};
use crate::canonical_json::{
    canonical, distinct_keys, lemma_utf8_injective, push_item, push_member, representable,
    to_canonical_json, utf8, EncodeError, Json, JsonValue, CLOSE_BRACE, COLON, OPEN_BRACE,
};
use crate::coin::Coin;
use crate::decimal::Decimal;
use crate::member_order::{entries, lemma_texts_in_order, lemma_written_in_order};
use crate::stdfee::{clone_coins, coins_json, coins_to_json, lemma_coins_representable};
use crate::uint256::digit;
use sha2::Digest;
use vstd::prelude::*;
use vstd::slice::slice_subrange;
use vstd::utf8::encode_utf8;

verus! {

broadcast use vstd::utf8::encode_utf8_valid_utf8;

/// The SHA-256 digest of `data`, as `sha2::Sha256::digest` gives it.
pub uninterp spec fn sha256_digest(data: Seq<u8>) -> Seq<u8>;

/// Calls `sha2::Sha256::digest` and names its result, which has 32 bytes.
#[verifier::external_body]
fn sha256(data: &[u8]) -> (digest: [u8; 32])
    ensures
        digest@ == sha256_digest(data@),
{
    sha2::Sha256::digest(data).into()
}

/// The character of one hexadecimal digit, in lower case.
pub open spec fn hex_char(n: int) -> char {
    if n < 10 {
        digit(n)
    } else if n == 10 {
        'a'
    } else if n == 11 {
        'b'
    } else if n == 12 {
        'c'
    } else if n == 13 {
        'd'
    } else if n == 14 {
        'e'
    } else {
        'f'
    }
}

/// The bytes in hexadecimal: two digits for each byte, the upper four bits
/// first.
pub open spec fn hex_string(data: Seq<u8>) -> Seq<char>
    decreases data.len(),
{
    if data.len() == 0 {
        Seq::empty()
    } else {
        hex_string(data.drop_last()).push(hex_char(data.last() as int / 16)).push(
            hex_char(data.last() as int % 16),
        )
    }
}

/// One of `0` to `9` and `a` to `f`.
pub open spec fn is_hex_char(c: char) -> bool {
    ('0' <= c <= '9') || ('a' <= c <= 'f')
}

/// Hexadecimal text has two characters for each byte, each of them a
/// hexadecimal digit.
pub proof fn lemma_hex_string(data: Seq<u8>)
    ensures
        hex_string(data).len() == 2 * data.len(),
        forall|i: int| 0 <= i < hex_string(data).len() ==> is_hex_char(#[trigger] hex_string(data)[i]),
    decreases data.len(),
{
    if data.len() > 0 {
        lemma_hex_string(data.drop_last());
    }
}

/// Calls `subtle_encoding::hex::encode`, which writes each byte as two
/// lower-case hexadecimal digits, the upper four bits first, into a vector
/// of twice the length. The digits are ASCII, so the vector is the text.
#[verifier::external_body]
fn hex_encode(data: &[u8]) -> (text: String)
    requires
        data@.len() * 2 <= usize::MAX,
    ensures
        text@ == hex_string(data@),
{
    String::from_utf8(subtle_encoding::hex::encode(data)).unwrap()
}

/// Sends Coins between accounts
#[derive(Debug)]
pub struct SendMsg {
    /// Origin address
    pub from_address: Address,
    /// Destination Address
    pub to_address: Address,
    /// Coins to be sent
    pub amount: Vec<Coin>,
}

/// Terra Oracle Vote Message
#[derive(Debug)]
pub struct MsgExchangeRateVote {
    /// Exchange rate voted on. Negative values are an abstain vote.
    pub exchange_rate: Decimal,
    /// Salt for commit reveal prootocol
    pub salt: String,
    /// Denom for Oracle Vote
    pub denom: String,
    /// Origin of the Feed Msg
    pub feeder: TerraAddress,
    /// Validator voting on behalf of
    pub validator: TerraValidatorOperatorAddress,
}

/// Terra Oracle Prevote message
#[derive(Debug)]
pub struct MsgExchangeRatePrevote {
    /// Commitment to future vote
    pub hash: String,
    /// Denom to commit for
    pub denom: String,
    /// Origin Address for vote
    pub feeder: TerraAddress,
    /// Validator voting on behalf of
    pub validator: TerraValidatorOperatorAddress,
}

/// Delegate Terra Oracle voting account to a new key
#[derive(Debug)]
pub struct MsgDelegateFeedConsent {
    /// operator delegating voting authority
    pub operator: TerraValidatorOperatorAddress,
    /// key delegated to
    pub feeder: TerraAddress,
}

/// Any arbitrary message
#[derive(Debug)]
pub enum Msg {
    /// Send coins
    SendMsg(SendMsg),
    /// Terra oracle vote
    MsgExchangeRateVote(MsgExchangeRateVote),
    /// Terra Oracle prevote
    MsgExchangeRatePrevote(MsgExchangeRatePrevote),
    /// Terra Oracle delegate voting authority
    MsgDelegateFeedConsent(MsgDelegateFeedConsent),
    /// Test message
    Test(String),
}

impl Clone for SendMsg {
    /// A message of the same addresses and coins.
    fn clone(&self) -> (msg: SendMsg)
        ensures
            msg.from_address == self.from_address,
            msg.to_address == self.to_address,
            msg.amount@ == self.amount@,
            msg.json() == self.json(),
    {
        let msg = SendMsg {
            from_address: self.from_address,
            to_address: self.to_address,
            amount: clone_coins(&self.amount),
        };
        proof {
            assert(msg.json()->Object_0 =~= self.json()->Object_0);
        }
        msg
    }
}

impl Clone for MsgExchangeRateVote {
    /// The same vote.
    fn clone(&self) -> (msg: MsgExchangeRateVote)
        ensures
            msg == *self,
    {
        MsgExchangeRateVote {
            exchange_rate: self.exchange_rate,
            salt: self.salt.clone(),
            denom: self.denom.clone(),
            feeder: self.feeder,
            validator: self.validator,
        }
    }
}

impl Clone for MsgExchangeRatePrevote {
    /// The same prevote.
    fn clone(&self) -> (msg: MsgExchangeRatePrevote)
        ensures
            msg == *self,
    {
        MsgExchangeRatePrevote {
            hash: self.hash.clone(),
            denom: self.denom.clone(),
            feeder: self.feeder,
            validator: self.validator,
        }
    }
}

impl Clone for MsgDelegateFeedConsent {
    /// The same delegation.
    fn clone(&self) -> (msg: MsgDelegateFeedConsent)
        ensures
            msg == *self,
    {
        MsgDelegateFeedConsent { operator: self.operator, feeder: self.feeder }
    }
}

impl Clone for Msg {
    /// A message of the same kind and content.
    fn clone(&self) -> (msg: Msg)
        ensures
            msg.json() == self.json(),
    {
        let msg = match self {
            Msg::SendMsg(inner) => Msg::SendMsg(inner.clone()),
            Msg::MsgExchangeRateVote(inner) => Msg::MsgExchangeRateVote(inner.clone()),
            Msg::MsgExchangeRatePrevote(inner) => Msg::MsgExchangeRatePrevote(inner.clone()),
            Msg::MsgDelegateFeedConsent(inner) => Msg::MsgDelegateFeedConsent(inner.clone()),
            Msg::Test(text) => Msg::Test(text.clone()),
        };
        proof {
            assert(msg.json()->Object_0 =~= self.json()->Object_0);
        }
        msg
    }
}

impl SendMsg {
    /// The message as JSON holds it.
    pub open spec fn json(&self) -> JsonValue {
        JsonValue::Object(
            seq![
                (utf8("from_address"), self.from_address.json()),
                (utf8("to_address"), self.to_address.json()),
                (utf8("amount"), JsonValue::List(coins_json(self.amount@))),
            ],
        )
    }

    /// Every message has a canonical encoding.
    pub proof fn lemma_representable(&self)
        ensures
            representable(self.json()),
    {
        reveal_strlit("from_address");
        reveal_strlit("to_address");
        reveal_strlit("amount");
        lemma_utf8_injective("from_address"@, "to_address"@);
        lemma_utf8_injective("from_address"@, "amount"@);
        lemma_utf8_injective("to_address"@, "amount"@);
        let members = self.json()->Object_0;
        assert(distinct_keys(members));
        lemma_coins_representable(self.amount@);
        assert(representable(members[0].1) && representable(members[1].1) && representable(
            members[2].1,
        ));
    }

    /// The members by ascending key.
    pub open spec fn members_in_order(&self) -> Seq<(Seq<u8>, JsonValue)> {
        seq![
            (utf8("amount"), JsonValue::List(coins_json(self.amount@))),
            (utf8("from_address"), self.from_address.json()),
            (utf8("to_address"), self.to_address.json()),
        ]
    }

    /// A transfer is written with its fields in this order: `amount`,
    /// `from_address`, `to_address`.
    pub proof fn lemma_field_order(&self)
        ensures
            canonical(self.json()) == seq![OPEN_BRACE] + entries(self.members_in_order(), 3) + seq![
                CLOSE_BRACE,
            ],
    {
        let given = self.json()->Object_0;
        let sorted = self.members_in_order();
        reveal_strlit("amount");
        reveal_strlit("from_address");
        reveal_strlit("to_address");
        lemma_texts_in_order("amount"@, "from_address"@, 0);
        lemma_texts_in_order("from_address"@, "to_address"@, 0);
        self.lemma_representable();
        assert(sorted.len() == 3);
        assert(sorted[1] == given[0] && sorted[2] == given[1] && sorted[0] == given[2]);
        lemma_written_in_order(given, sorted);
    }

    /// The message as a JSON object.
    pub fn to_json(&self) -> (json: Json)
        ensures
            json@ == self.json(),
    {
        let mut members: Vec<(String, Json)> = Vec::new();
        push_member(&mut members, "from_address", self.from_address.to_json());
        push_member(&mut members, "to_address", self.to_address.to_json());
        push_member(&mut members, "amount", coins_to_json(&self.amount));
        let json = Json::Object(members);
        proof {
            assert(json@->Object_0 =~= self.json()->Object_0);
        }
        json
    }
}

impl MsgExchangeRateVote {
    /// What is hashed: the salt, the text of the exchange rate, the
    /// denomination and the text of the validator's address, with a colon
    /// between two of them.
    pub open spec fn vote_text(&self) -> Seq<u8> {
        encode_utf8(self.salt@) + seq![COLON] + encode_utf8(self.exchange_rate.text()) + seq![
            COLON,
        ] + encode_utf8(self.denom@) + seq![COLON] + encode_utf8(self.validator.text())
    }

    /// The commitment to the vote: the first twenty bytes of the SHA-256
    /// digest of the vote's text, in hexadecimal.
    pub open spec fn vote_hash(&self) -> Seq<char> {
        hex_string(sha256_digest(self.vote_text()).subrange(0, 20))
    }

    /// Generatea hex encoded truncated sha256 of vote. Needed to generate prevote
    pub fn generate_vote_hash(&self) -> (hash: String)
        ensures
            hash@ == self.vote_hash(),
            hash@.len() == 40,
            forall|i: int| 0 <= i < 40 ==> is_hex_char(#[trigger] hash@[i]),
    {
        let mut data: Vec<u8> = Vec::new();
        data.extend_from_slice(self.salt.as_str().as_bytes());
        data.push(COLON);
        let rate = self.exchange_rate.to_string();
        data.extend_from_slice(rate.as_str().as_bytes());
        data.push(COLON);
        data.extend_from_slice(self.denom.as_str().as_bytes());
        data.push(COLON);
        let validator = self.validator.to_string();
        data.extend_from_slice(validator.as_str().as_bytes());
        assert(data@ =~= self.vote_text());
        //Tendermint truncated sha256
        let digest = sha256(data.as_slice());
        let truncated = slice_subrange(digest.as_slice(), 0, 20);
        proof {
            lemma_hex_string(truncated@);
        }
        hex_encode(truncated)
    }

    /// The message as JSON holds it.
    pub open spec fn json(&self) -> JsonValue {
        JsonValue::Object(
            seq![
                (utf8("exchange_rate"), self.exchange_rate.json()),
                (utf8("salt"), JsonValue::Text(encode_utf8(self.salt@))),
                (utf8("denom"), JsonValue::Text(encode_utf8(self.denom@))),
                (utf8("feeder"), self.feeder.json()),
                (utf8("validator"), self.validator.json()),
            ],
        )
    }

    /// Every message has a canonical encoding.
    pub proof fn lemma_representable(&self)
        ensures
            representable(self.json()),
    {
        reveal_strlit("exchange_rate");
        reveal_strlit("salt");
        reveal_strlit("denom");
        reveal_strlit("feeder");
        reveal_strlit("validator");
        lemma_utf8_injective("exchange_rate"@, "salt"@);
        lemma_utf8_injective("exchange_rate"@, "denom"@);
        lemma_utf8_injective("exchange_rate"@, "feeder"@);
        lemma_utf8_injective("exchange_rate"@, "validator"@);
        lemma_utf8_injective("salt"@, "denom"@);
        lemma_utf8_injective("salt"@, "feeder"@);
        lemma_utf8_injective("salt"@, "validator"@);
        lemma_utf8_injective("denom"@, "feeder"@);
        lemma_utf8_injective("denom"@, "validator"@);
        lemma_utf8_injective("feeder"@, "validator"@);
        let members = self.json()->Object_0;
        assert(distinct_keys(members));
        assert(representable(members[0].1) && representable(members[1].1) && representable(
            members[2].1,
        ) && representable(members[3].1) && representable(members[4].1));
    }

    /// The members by ascending key.
    pub open spec fn members_in_order(&self) -> Seq<(Seq<u8>, JsonValue)> {
        seq![
            (utf8("denom"), JsonValue::Text(encode_utf8(self.denom@))),
            (utf8("exchange_rate"), self.exchange_rate.json()),
            (utf8("feeder"), self.feeder.json()),
            (utf8("salt"), JsonValue::Text(encode_utf8(self.salt@))),
            (utf8("validator"), self.validator.json()),
        ]
    }

    /// A vote is written with its fields in this order: `denom`,
    /// `exchange_rate`, `feeder`, `salt`, `validator`.
    pub proof fn lemma_field_order(&self)
        ensures
            canonical(self.json()) == seq![OPEN_BRACE] + entries(self.members_in_order(), 5) + seq![
                CLOSE_BRACE,
            ],
    {
        let given = self.json()->Object_0;
        let sorted = self.members_in_order();
        reveal_strlit("denom");
        reveal_strlit("exchange_rate");
        reveal_strlit("feeder");
        reveal_strlit("salt");
        reveal_strlit("validator");
        lemma_texts_in_order("denom"@, "exchange_rate"@, 0);
        lemma_texts_in_order("exchange_rate"@, "feeder"@, 0);
        lemma_texts_in_order("feeder"@, "salt"@, 0);
        lemma_texts_in_order("salt"@, "validator"@, 0);
        self.lemma_representable();
        assert(sorted.len() == 5);
        assert(sorted[1] == given[0] && sorted[3] == given[1] && sorted[0] == given[2] && sorted[2] == given[3] && sorted[4] == given[4]);
        lemma_written_in_order(given, sorted);
    }

    /// The message as a JSON object.
    pub fn to_json(&self) -> (json: Json)
        ensures
            json@ == self.json(),
    {
        let mut members: Vec<(String, Json)> = Vec::new();
        push_member(&mut members, "exchange_rate", self.exchange_rate.to_json());
        push_member(&mut members, "salt", Json::Text(self.salt.clone()));
        push_member(&mut members, "denom", Json::Text(self.denom.clone()));
        push_member(&mut members, "feeder", self.feeder.to_json());
        push_member(&mut members, "validator", self.validator.to_json());
        let json = Json::Object(members);
        proof {
            assert(json@->Object_0 =~= self.json()->Object_0);
        }
        json
    }
}

/// The commitment to a vote depends on the salt, the exchange rate, the
/// denomination and the validator alone: two votes that agree in these
/// have the same hash, whoever feeds them.
pub proof fn lemma_vote_hash_deterministic(a: MsgExchangeRateVote, b: MsgExchangeRateVote)
    requires
        a.salt@ == b.salt@,
        a.exchange_rate.mantissa_value() == b.exchange_rate.mantissa_value(),
        a.exchange_rate.scale_value() == b.exchange_rate.scale_value(),
        a.denom@ == b.denom@,
        a.validator.0.bytes() == b.validator.0.bytes(),
    ensures
        a.vote_hash() == b.vote_hash(),
{
}

impl MsgExchangeRatePrevote {
    /// The message as JSON holds it.
    pub open spec fn json(&self) -> JsonValue {
        JsonValue::Object(
            seq![
                (utf8("hash"), JsonValue::Text(encode_utf8(self.hash@))),
                (utf8("denom"), JsonValue::Text(encode_utf8(self.denom@))),
                (utf8("feeder"), self.feeder.json()),
                (utf8("validator"), self.validator.json()),
            ],
        )
    }

    /// Every message has a canonical encoding.
    pub proof fn lemma_representable(&self)
        ensures
            representable(self.json()),
    {
        reveal_strlit("hash");
        reveal_strlit("denom");
        reveal_strlit("feeder");
        reveal_strlit("validator");
        lemma_utf8_injective("hash"@, "denom"@);
        lemma_utf8_injective("hash"@, "feeder"@);
        lemma_utf8_injective("hash"@, "validator"@);
        lemma_utf8_injective("denom"@, "feeder"@);
        lemma_utf8_injective("denom"@, "validator"@);
        lemma_utf8_injective("feeder"@, "validator"@);
        let members = self.json()->Object_0;
        assert(distinct_keys(members));
        assert(representable(members[0].1) && representable(members[1].1) && representable(
            members[2].1,
        ) && representable(members[3].1));
    }

    /// The members by ascending key.
    pub open spec fn members_in_order(&self) -> Seq<(Seq<u8>, JsonValue)> {
        seq![
            (utf8("denom"), JsonValue::Text(encode_utf8(self.denom@))),
            (utf8("feeder"), self.feeder.json()),
            (utf8("hash"), JsonValue::Text(encode_utf8(self.hash@))),
            (utf8("validator"), self.validator.json()),
        ]
    }

    /// A prevote is written with its fields in this order: `denom`,
    /// `feeder`, `hash`, `validator`.
    pub proof fn lemma_field_order(&self)
        ensures
            canonical(self.json()) == seq![OPEN_BRACE] + entries(self.members_in_order(), 4) + seq![
                CLOSE_BRACE,
            ],
    {
        let given = self.json()->Object_0;
        let sorted = self.members_in_order();
        reveal_strlit("denom");
        reveal_strlit("feeder");
        reveal_strlit("hash");
        reveal_strlit("validator");
        lemma_texts_in_order("denom"@, "feeder"@, 0);
        lemma_texts_in_order("feeder"@, "hash"@, 0);
        lemma_texts_in_order("hash"@, "validator"@, 0);
        self.lemma_representable();
        assert(sorted.len() == 4);
        assert(sorted[2] == given[0] && sorted[0] == given[1] && sorted[1] == given[2] && sorted[3] == given[3]);
        lemma_written_in_order(given, sorted);
    }

    /// The message as a JSON object.
    pub fn to_json(&self) -> (json: Json)
        ensures
            json@ == self.json(),
    {
        let mut members: Vec<(String, Json)> = Vec::new();
        push_member(&mut members, "hash", Json::Text(self.hash.clone()));
        push_member(&mut members, "denom", Json::Text(self.denom.clone()));
        push_member(&mut members, "feeder", self.feeder.to_json());
        push_member(&mut members, "validator", self.validator.to_json());
        let json = Json::Object(members);
        proof {
            assert(json@->Object_0 =~= self.json()->Object_0);
        }
        json
    }
}

impl MsgDelegateFeedConsent {
    /// The message as JSON holds it.
    pub open spec fn json(&self) -> JsonValue {
        JsonValue::Object(
            seq![(utf8("operator"), self.operator.json()), (utf8("feeder"), self.feeder.json())],
        )
    }

    /// Every message has a canonical encoding.
    pub proof fn lemma_representable(&self)
        ensures
            representable(self.json()),
    {
        reveal_strlit("operator");
        reveal_strlit("feeder");
        lemma_utf8_injective("operator"@, "feeder"@);
        let members = self.json()->Object_0;
        assert(distinct_keys(members));
        assert(representable(members[0].1) && representable(members[1].1));
    }

    /// The members by ascending key.
    pub open spec fn members_in_order(&self) -> Seq<(Seq<u8>, JsonValue)> {
        seq![(utf8("feeder"), self.feeder.json()), (utf8("operator"), self.operator.json())]
    }

    /// A delegation is written with its feeder first, then its operator.
    pub proof fn lemma_field_order(&self)
        ensures
            canonical(self.json()) == seq![OPEN_BRACE] + entries(self.members_in_order(), 2) + seq![
                CLOSE_BRACE,
            ],
    {
        let given = self.json()->Object_0;
        let sorted = self.members_in_order();
        reveal_strlit("feeder");
        reveal_strlit("operator");
        lemma_texts_in_order("feeder"@, "operator"@, 0);
        self.lemma_representable();
        assert(sorted.len() == 2);
        assert(sorted[1] == given[0] && sorted[0] == given[1]);
        lemma_written_in_order(given, sorted);
    }

    /// The message as a JSON object.
    pub fn to_json(&self) -> (json: Json)
        ensures
            json@ == self.json(),
    {
        let mut members: Vec<(String, Json)> = Vec::new();
        push_member(&mut members, "operator", self.operator.to_json());
        push_member(&mut members, "feeder", self.feeder.to_json());
        let json = Json::Object(members);
        proof {
            assert(json@->Object_0 =~= self.json()->Object_0);
        }
        json
    }
}

impl Msg {
    /// The tag that names the kind of message on the wire.
    pub open spec fn tag(&self) -> Seq<char> {
        match self {
            Msg::SendMsg(_) => "cosmos-sdk/MsgSend"@,
            Msg::MsgExchangeRateVote(_) => "oracle/MsgExchangeRateVote"@,
            Msg::MsgExchangeRatePrevote(_) => "oracle/MsgExchangeRatePrevote"@,
            Msg::MsgDelegateFeedConsent(_) => "oracle/MsgDelegateFeedConsent"@,
            Msg::Test(_) => "deep_space/Test"@,
        }
    }

    /// The message's own content as JSON holds it.
    pub open spec fn content(&self) -> JsonValue {
        match self {
            Msg::SendMsg(msg) => msg.json(),
            Msg::MsgExchangeRateVote(msg) => msg.json(),
            Msg::MsgExchangeRatePrevote(msg) => msg.json(),
            Msg::MsgDelegateFeedConsent(msg) => msg.json(),
            Msg::Test(text) => JsonValue::Text(encode_utf8(text@)),
        }
    }

    /// The message as JSON holds it: the tag under `type`, the content
    /// under `value`.
    pub open spec fn json(&self) -> JsonValue {
        JsonValue::Object(
            seq![
                (utf8("type"), JsonValue::Text(encode_utf8(self.tag()))),
                (utf8("value"), self.content()),
            ],
        )
    }

    /// Every message has a canonical encoding.
    pub proof fn lemma_representable(&self)
        ensures
            representable(self.json()),
    {
        reveal_strlit("type");
        reveal_strlit("value");
        lemma_utf8_injective("type"@, "value"@);
        let members = self.json()->Object_0;
        assert(distinct_keys(members));
        match self {
            Msg::SendMsg(msg) => msg.lemma_representable(),
            Msg::MsgExchangeRateVote(msg) => msg.lemma_representable(),
            Msg::MsgExchangeRatePrevote(msg) => msg.lemma_representable(),
            Msg::MsgDelegateFeedConsent(msg) => msg.lemma_representable(),
            Msg::Test(_) => {},
        }
        assert(representable(members[0].1) && representable(members[1].1));
    }

    /// A message is written with its tag under `type` first, then its
    /// content under `value`.
    pub proof fn lemma_field_order(&self)
        ensures
            canonical(self.json()) == seq![OPEN_BRACE] + entries(self.json()->Object_0, 2) + seq![
                CLOSE_BRACE,
            ],
    {
        let given = self.json()->Object_0;
        let sorted = self.json()->Object_0;
        reveal_strlit("type");
        reveal_strlit("value");
        lemma_texts_in_order("type"@, "value"@, 0);
        self.lemma_representable();
        assert(sorted.len() == 2);
        assert(sorted[0] == given[0] && sorted[1] == given[1]);
        lemma_written_in_order(given, sorted);
    }

    /// The message as a JSON object.
    pub fn to_json(&self) -> (json: Json)
        ensures
            json@ == self.json(),
    {
        let (tag, content) = match self {
            Msg::SendMsg(msg) => ("cosmos-sdk/MsgSend", msg.to_json()),
            Msg::MsgExchangeRateVote(msg) => ("oracle/MsgExchangeRateVote", msg.to_json()),
            Msg::MsgExchangeRatePrevote(msg) => ("oracle/MsgExchangeRatePrevote", msg.to_json()),
            Msg::MsgDelegateFeedConsent(msg) => ("oracle/MsgDelegateFeedConsent", msg.to_json()),
            Msg::Test(text) => ("deep_space/Test", Json::Text(text.clone())),
        };
        let mut members: Vec<(String, Json)> = Vec::new();
        push_member(&mut members, "type", Json::Text(tag.to_owned()));
        push_member(&mut members, "value", content);
        let json = Json::Object(members);
        proof {
            assert(json@->Object_0 =~= self.json()->Object_0);
        }
        json
    }

    /// Transform message to canonical signable form
    ///
    /// The result is always `Ok`, with the canonical encoding of the
    /// message.
    pub fn to_sign_bytes(&self) -> (result: Result<Vec<u8>, EncodeError>)
        ensures
            result matches Ok(bytes) && bytes@ == canonical(self.json()),
    {
        proof {
            self.lemma_representable();
        }
        to_canonical_json(&self.to_json())
    }
}

/// The messages as JSON holds them, one after the other.
pub open spec fn messages_json(msgs: Seq<Msg>) -> Seq<JsonValue> {
    Seq::new(msgs.len(), |i: int| msgs[i].json())
}

/// A list of messages has a canonical encoding.
pub proof fn lemma_messages_representable(msgs: Seq<Msg>)
    ensures
        representable(JsonValue::List(messages_json(msgs))),
{
    let list = JsonValue::List(messages_json(msgs));
    assert(list->List_0 == messages_json(msgs));
    assert forall|i: int| 0 <= i < messages_json(msgs).len() implies representable(
        #[trigger] messages_json(msgs)[i],
    ) by {
        msgs[i].lemma_representable();
    }
}

/// The messages as a JSON array.
pub fn messages_to_json(msgs: &Vec<Msg>) -> (json: Json)
    ensures
        json@ == JsonValue::List(messages_json(msgs@)),
{
    let mut items: Vec<Json> = Vec::new();
    let mut i: usize = 0;
    while i < msgs.len()
        invariant
            i <= msgs.len(),
            crate::canonical_json::item_values(items@) == messages_json(msgs@.take(i as int)),
        decreases msgs.len() - i,
    {
        push_item(&mut items, msgs[i].to_json());
        proof {
            assert(messages_json(msgs@.take(i as int)).push(msgs@[i as int].json())
                =~= messages_json(msgs@.take(i + 1)));
        }
        i += 1;
    }
    proof {
        assert(msgs@.take(msgs.len() as int) =~= msgs@);
    }
    Json::List(items)
}

} // verus!
