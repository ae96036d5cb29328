//! Cosmos SDK Coins Struct

use crate::canonical_json::{
    canonical, distinct_keys, lemma_utf8_injective, push_member, representable, utf8, Json,
    JsonValue, CLOSE_BRACE, OPEN_BRACE,
};
use crate::member_order::{entries, lemma_texts_in_order, lemma_written_in_order};
use crate::uint256::Uint256;
use vstd::prelude::*;
use vstd::utf8::encode_utf8;

verus! {

broadcast use vstd::utf8::encode_utf8_valid_utf8;

/// Coin holds some amount of one currency
#[derive(Debug)]
pub struct Coin {
    /// Amount of Coins to use in message
    pub amount: Uint256,
    /// Denominsation of Coin to use
    pub denom: String,
}

impl Coin {
    /// The coin as JSON holds it: the amount in decimal and the
    /// denomination, both as strings.
    pub open spec fn json(&self) -> JsonValue {
        JsonValue::Object(
            seq![
                (utf8("amount"), self.amount.json()),
                (utf8("denom"), JsonValue::Text(encode_utf8(self.denom@))),
            ],
        )
    }

    /// Every coin has a canonical encoding.
    pub proof fn lemma_representable(&self)
        ensures
            representable(self.json()),
    {
        reveal_strlit("amount");
        reveal_strlit("denom");
        lemma_utf8_injective("amount"@, "denom"@);
        let members = self.json()->Object_0;
        assert(distinct_keys(members));
        assert(representable(members[0].1) && representable(members[1].1));
    }

    /// A coin is written with its amount first, then its denomination.
    pub proof fn lemma_field_order(&self)
        ensures
            canonical(self.json()) == seq![OPEN_BRACE] + entries(self.json()->Object_0, 2) + seq![
                CLOSE_BRACE,
            ],
    {
        let given = self.json()->Object_0;
        let sorted = self.json()->Object_0;
        reveal_strlit("amount");
        reveal_strlit("denom");
        lemma_texts_in_order("amount"@, "denom"@, 0);
        self.lemma_representable();
        assert(sorted.len() == 2);
        assert(sorted[0] == given[0] && sorted[1] == given[1]);
        lemma_written_in_order(given, sorted);
    }

    /// Contruct a new Coin
    pub fn new(amount: Uint256, denom: String) -> (coin: Coin)
        ensures
            coin.amount == amount,
            coin.denom == denom,
    {
        Coin { amount, denom }
    }

    /// The coin as a JSON object.
    pub fn to_json(&self) -> (json: Json)
        ensures
            json@ == self.json(),
    {
        let mut members: Vec<(String, Json)> = Vec::new();
        push_member(&mut members, "amount", self.amount.to_json());
        push_member(&mut members, "denom", Json::Text(self.denom.clone()));
        let json = Json::Object(members);
        proof {
            assert(json@->Object_0 =~= self.json()->Object_0);
        }
        json
    }
}

impl Clone for Coin {
    /// A coin of the same amount and denomination.
    fn clone(&self) -> (coin: Coin)
        ensures
            coin == *self,
    {
        Coin { amount: self.amount, denom: self.denom.clone() }
    }
}

impl Default for Coin {
    /// No amount of a coin without a name.
    fn default() -> (coin: Coin)
        ensures
            coin.amount.value() == 0,
            coin.denom@ == Seq::<char>::empty(),
    {
        Coin { amount: Uint256::default(), denom: String::new() }
    }
}

} // verus!
