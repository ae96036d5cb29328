//! Types for Cosmos SDK fees

use crate::canonical_json::{
    canonical, distinct_keys, lemma_utf8_injective, push_item, push_member, representable, utf8,
    Json, JsonValue, CLOSE_BRACE, OPEN_BRACE,
};
use crate::member_order::{entries, lemma_texts_in_order, lemma_written_in_order};
use crate::coin::Coin;
use crate::uint256::Uint256;
use vstd::prelude::*;

verus! {

broadcast use vstd::utf8::encode_utf8_valid_utf8;

/// The coins as JSON holds them, one after the other.
pub open spec fn coins_json(coins: Seq<Coin>) -> Seq<JsonValue> {
    Seq::new(coins.len(), |i: int| coins[i].json())
}

/// A list of coins has a canonical encoding.
pub proof fn lemma_coins_representable(coins: Seq<Coin>)
    ensures
        representable(JsonValue::List(coins_json(coins))),
{
    let list = JsonValue::List(coins_json(coins));
    assert(list->List_0 == coins_json(coins));
    assert forall|i: int| 0 <= i < coins_json(coins).len() implies representable(
        #[trigger] coins_json(coins)[i],
    ) by {
        coins[i].lemma_representable();
    }
}

/// The coins as a JSON array.
pub fn coins_to_json(coins: &Vec<Coin>) -> (json: Json)
    ensures
        json@ == JsonValue::List(coins_json(coins@)),
{
    let mut items: Vec<Json> = Vec::new();
    let mut i: usize = 0;
    while i < coins.len()
        invariant
            i <= coins.len(),
            crate::canonical_json::item_values(items@) == coins_json(coins@.take(i as int)),
        decreases coins.len() - i,
    {
        push_item(&mut items, coins[i].to_json());
        proof {
            assert(coins_json(coins@.take(i as int)).push(coins@[i as int].json())
                =~= coins_json(coins@.take(i + 1)));
        }
        i += 1;
    }
    proof {
        assert(coins@.take(coins.len() as int) =~= coins@);
    }
    Json::List(items)
}

/// Coins of the same amounts and denominations, in the same order.
pub fn clone_coins(coins: &Vec<Coin>) -> (copy: Vec<Coin>)
    ensures
        copy@ == coins@,
{
    let mut copy: Vec<Coin> = Vec::new();
    let mut i: usize = 0;
    while i < coins.len()
        invariant
            i <= coins.len(),
            copy@ == coins@.take(i as int),
        decreases coins.len() - i,
    {
        copy.push(coins[i].clone());
        proof {
            assert(coins@.take(i as int).push(coins@[i as int]) =~= coins@.take(i + 1));
        }
        i += 1;
    }
    proof {
        assert(coins@.take(coins.len() as int) =~= coins@);
    }
    copy
}

/// Every coin has a denomination, and no two coins have the same.
pub open spec fn distinct_denoms(coins: Seq<Coin>) -> bool {
    &&& forall|i: int| 0 <= i < coins.len() ==> (#[trigger] coins[i]).denom@.len() > 0
    &&& forall|i: int, j: int|
        0 <= i < j < coins.len() ==> (#[trigger] coins[i]).denom@ != (#[trigger] coins[j]).denom@
}

/// Whether every coin has a denomination and no two coins have the same.
pub fn has_distinct_denoms(coins: &Vec<Coin>) -> (distinct: bool)
    ensures
        distinct == distinct_denoms(coins@),
{
    let mut j: usize = 0;
    while j < coins.len()
        invariant
            j <= coins.len(),
            forall|i: int| 0 <= i < j ==> (#[trigger] coins@[i]).denom@.len() > 0,
            forall|a: int, b: int|
                0 <= a < b < j ==> (#[trigger] coins@[a]).denom@ != (#[trigger] coins@[b]).denom@,
        decreases coins.len() - j,
    {
        if coins[j].denom.as_str().is_empty() {
            return false;
        }
        let mut i: usize = 0;
        while i < j
            invariant
                i <= j < coins.len(),
                forall|a: int| 0 <= a < i ==> (#[trigger] coins@[a]).denom@ != coins@[j as int].denom@,
            decreases j - i,
        {
            if coins[i].denom == coins[j].denom {
                return false;
            }
            i += 1;
        }
        j += 1;
    }
    true
}

/// StdFee includes the amount of coins paid in fees and the maximum
/// gas to be used by the transaction. The ratio yields an effective "gasprice",
/// which must be above some miminum to be accepted into the mempool.
#[derive(Debug)]
pub struct StdFee {
    /// Fee to be paid
    pub amount: Option<Vec<Coin>>,
    /// Gas requested for transaction
    pub gas: Uint256,
}

impl StdFee {
    /// The fee as JSON holds it. The amount is `null` where there is none.
    pub open spec fn json(&self) -> JsonValue {
        JsonValue::Object(
            seq![
                (
                    utf8("amount"),
                    match self.amount {
                        Some(coins) => JsonValue::List(coins_json(coins@)),
                        None => JsonValue::Null,
                    },
                ),
                (utf8("gas"), self.gas.json()),
            ],
        )
    }

    /// Every fee has a canonical encoding.
    pub proof fn lemma_representable(&self)
        ensures
            representable(self.json()),
    {
        reveal_strlit("amount");
        reveal_strlit("gas");
        lemma_utf8_injective("amount"@, "gas"@);
        let members = self.json()->Object_0;
        assert(distinct_keys(members));
        match self.amount {
            Some(coins) => {
                lemma_coins_representable(coins@);
            },
            None => {},
        }
        assert(representable(members[0].1) && representable(members[1].1));
    }

    /// A fee is written with its amount first, then its gas.
    pub proof fn lemma_field_order(&self)
        ensures
            canonical(self.json()) == seq![OPEN_BRACE] + entries(self.json()->Object_0, 2) + seq![
                CLOSE_BRACE,
            ],
    {
        let given = self.json()->Object_0;
        let sorted = self.json()->Object_0;
        reveal_strlit("amount");
        reveal_strlit("gas");
        lemma_texts_in_order("amount"@, "gas"@, 0);
        self.lemma_representable();
        assert(sorted.len() == 2);
        assert(sorted[0] == given[0] && sorted[1] == given[1]);
        lemma_written_in_order(given, sorted);
    }

    /// The fee is fit to be broadcast: where it has an amount, every coin
    /// of it has a denomination and no two coins have the same.
    pub open spec fn well_formed(&self) -> bool {
        self.amount matches Some(coins) ==> distinct_denoms(coins@)
    }

    /// Whether the fee is fit to be broadcast.
    pub fn is_well_formed(&self) -> (fit: bool)
        ensures
            fit == self.well_formed(),
    {
        match &self.amount {
            Some(coins) => has_distinct_denoms(coins),
            None => true,
        }
    }

    /// The fee as a JSON object.
    pub fn to_json(&self) -> (json: Json)
        ensures
            json@ == self.json(),
    {
        let amount = match &self.amount {
            Some(coins) => coins_to_json(coins),
            None => Json::Null,
        };
        let mut members: Vec<(String, Json)> = Vec::new();
        push_member(&mut members, "amount", amount);
        push_member(&mut members, "gas", self.gas.to_json());
        let json = Json::Object(members);
        proof {
            assert(json@->Object_0 =~= self.json()->Object_0);
        }
        json
    }
}

impl Clone for StdFee {
    /// A fee of the same coins and gas.
    fn clone(&self) -> (fee: StdFee)
        ensures
            fee.json() == self.json(),
            fee.gas == self.gas,
            fee.amount is Some <==> self.amount is Some,
            fee.amount is Some ==> fee.amount->0@ == self.amount->0@,
    {
        let amount = match &self.amount {
            Some(coins) => Some(clone_coins(coins)),
            None => None,
        };
        let fee = StdFee { amount, gas: self.gas };
        proof {
            assert(fee.json()->Object_0 =~= self.json()->Object_0);
        }
        fee
    }
}

impl Default for StdFee {
    /// No amount, and no gas.
    fn default() -> (fee: StdFee)
        ensures
            fee.amount is None,
            fee.gas.value() == 0,
    {
        StdFee { amount: None, gas: Uint256::default() }
    }
}

} // verus!
