use deep_space::address::{Address, TerraAddress, TerraValidatorOperatorAddress};
use deep_space::canonical_json::to_canonical_json;
use deep_space::coin::Coin;
use deep_space::decimal::Decimal;
use deep_space::msg::{
    messages_to_json, Msg, MsgDelegateFeedConsent, MsgExchangeRatePrevote, MsgExchangeRateVote,
    SendMsg,
};
use deep_space::uint256::Uint256;
use serde_json::{from_str, Value};

fn counting() -> Address {
    let mut bytes = [0u8; 20];
    for (i, byte) in bytes.iter_mut().enumerate() {
        *byte = i as u8 + 1;
    }
    Address::from_bytes(bytes)
}

fn vote() -> MsgExchangeRateVote {
    MsgExchangeRateVote {
        exchange_rate: Decimal::new(-100, 2),
        denom: "test".to_string(),
        salt: "hello_world".to_string(),
        feeder: TerraAddress {
            0: Address::from_bech32("terra1grgelyng2v6v3t8z87wu3sxgt9m5s03x259evd").unwrap(),
        },
        validator: TerraValidatorOperatorAddress {
            0: Address::from_bech32("terravaloper1grgelyng2v6v3t8z87wu3sxgt9m5s03x2mfyu7")
                .unwrap(),
        },
    }
}

fn signable(msg: &Msg) -> String {
    String::from_utf8(msg.to_sign_bytes().expect("Unable to serialize")).unwrap()
}

#[test]
fn test_serialize_msg() {
    let msg: Msg = Msg::Test("TestMsg1".to_string());
    let s = String::from_utf8(msg.to_sign_bytes().expect("Unable to serialize")).unwrap();
    let v: Value = from_str(&s).expect("Unable to deserialize");
    let mut expected = serde_json::Map::new();
    expected.insert("type".to_string(), Value::String("deep_space/Test".to_string()));
    expected.insert("value".to_string(), Value::String("TestMsg1".to_string()));
    assert_eq!(v, Value::Object(expected));
}

#[test]
fn test_has_prevote_msg() {
    let vote: Msg = Msg::MsgExchangeRateVote(MsgExchangeRateVote {
        exchange_rate: Decimal::new(-100, 2),
        denom: "test".to_string(),
        salt: "hello_world".to_string(),
        feeder: TerraAddress {
            0: Address::from_bech32("terra1grgelyng2v6v3t8z87wu3sxgt9m5s03x259evd").unwrap(),
        },
        validator: TerraValidatorOperatorAddress {
            0: Address::from_bech32("terravaloper1grgelyng2v6v3t8z87wu3sxgt9m5s03x2mfyu7")
                .unwrap(),
        },
    });

    let mut hash_str: String = "".to_string();
    if let Msg::MsgExchangeRateVote(x) = vote {
        hash_str = x.generate_vote_hash();
    }
    assert_ne!(hash_str, "");
}

#[test]
fn the_test_message_in_exact_bytes() {
    let msg = Msg::Test("TestMsg1".to_string());
    assert_eq!(signable(&msg), "{\"type\":\"deep_space/Test\",\"value\":\"TestMsg1\"}");
    assert_eq!(
        signable(&Msg::Test("a\"b\\c\n".to_string())),
        "{\"type\":\"deep_space/Test\",\"value\":\"a\\\"b\\\\c\\n\"}"
    );
    assert_eq!(signable(&Msg::Test(String::new())), "{\"type\":\"deep_space/Test\",\"value\":\"\"}");
}

#[test]
fn the_vote_hash_is_the_truncated_digest_in_hexadecimal() {
    // the first twenty bytes of the SHA-256 digest of
    // hello_world:-1.00:test:terravaloper1grgelyng2v6v3t8z87wu3sxgt9m5s03x2mfyu7
    assert_eq!(vote().generate_vote_hash(), "dd8c98d29b88ee960211d067cf94aa51a3038d2b");
}

#[test]
fn the_vote_hash_has_forty_hexadecimal_characters() {
    let mut state: u32 = 99;
    for round in 0..50 {
        let mut bytes = [0u8; 20];
        for byte in bytes.iter_mut() {
            state = state.wrapping_mul(1664525).wrapping_add(1013904223);
            *byte = (state >> 24) as u8;
        }
        let vote = MsgExchangeRateVote {
            exchange_rate: Decimal::new(round * 37 - 500, (round % 7) as u32),
            denom: format!("denom{}", round),
            salt: format!("{:x}", state),
            feeder: TerraAddress::default(),
            validator: TerraValidatorOperatorAddress(Address::from_bytes(bytes)),
        };
        let hash = vote.generate_vote_hash();
        assert_eq!(hash.len(), 40);
        assert!(hash.chars().all(|c| matches!(c, '0'..='9' | 'a'..='f')), "{}", hash);
    }
}

#[test]
fn the_vote_hash_depends_on_four_fields() {
    let hash = vote().generate_vote_hash();
    assert_eq!(vote().generate_vote_hash(), hash);
    assert_eq!(vote().clone().generate_vote_hash(), hash);

    let mut other = vote();
    other.feeder = TerraAddress::default();
    assert_eq!(other.generate_vote_hash(), hash);

    let mut other = vote();
    other.salt = "hello_worle".to_string();
    assert_ne!(other.generate_vote_hash(), hash);

    let mut other = vote();
    other.exchange_rate = Decimal::new(-100, 3);
    assert_ne!(other.generate_vote_hash(), hash);
    other.exchange_rate = Decimal::new(-1, 0);
    assert_ne!(other.generate_vote_hash(), hash);
    other.exchange_rate = Decimal::new(100, 2);
    assert_ne!(other.generate_vote_hash(), hash);

    let mut other = vote();
    other.denom = "tesu".to_string();
    assert_ne!(other.generate_vote_hash(), hash);

    let mut other = vote();
    other.validator = TerraValidatorOperatorAddress::default();
    assert_ne!(other.generate_vote_hash(), hash);

    // the colons are part of what is hashed
    let mut other = vote();
    other.salt = "hello_world:-1.00".to_string();
    other.exchange_rate = Decimal::new(-100, 2);
    assert_ne!(other.generate_vote_hash(), hash);
}

#[test]
fn the_vote_in_exact_bytes() {
    assert_eq!(
        signable(&Msg::MsgExchangeRateVote(vote())),
        "{\"type\":\"oracle/MsgExchangeRateVote\",\"value\":{\"denom\":\"test\",\"exchange_rate\":\"-1.00\",\"feeder\":\"terra1grgelyng2v6v3t8z87wu3sxgt9m5s03x259evd\",\"salt\":\"hello_world\",\"validator\":\"terravaloper1grgelyng2v6v3t8z87wu3sxgt9m5s03x2mfyu7\"}}"
    );
}

#[test]
fn the_prevote_in_exact_bytes() {
    let vote = vote();
    let prevote = MsgExchangeRatePrevote {
        hash: vote.generate_vote_hash(),
        denom: vote.denom.clone(),
        feeder: vote.feeder,
        validator: vote.validator,
    };
    assert_eq!(
        signable(&Msg::MsgExchangeRatePrevote(prevote.clone())),
        "{\"type\":\"oracle/MsgExchangeRatePrevote\",\"value\":{\"denom\":\"test\",\"feeder\":\"terra1grgelyng2v6v3t8z87wu3sxgt9m5s03x259evd\",\"hash\":\"dd8c98d29b88ee960211d067cf94aa51a3038d2b\",\"validator\":\"terravaloper1grgelyng2v6v3t8z87wu3sxgt9m5s03x2mfyu7\"}}"
    );
}

#[test]
fn the_delegation_in_exact_bytes() {
    let msg = MsgDelegateFeedConsent {
        operator: TerraValidatorOperatorAddress(counting()),
        feeder: TerraAddress(Address::default()),
    };
    assert_eq!(
        signable(&Msg::MsgDelegateFeedConsent(msg.clone())),
        "{\"type\":\"oracle/MsgDelegateFeedConsent\",\"value\":{\"feeder\":\"terra1qqqqqqqqqqqqqqqqqqqqqqqqqqqqqqqq486l9a\",\"operator\":\"terravaloper1qypqxpq9qcrsszg2pvxq6rs0zqg3yyc5ef6r50\"}}"
    );
}

#[test]
fn the_transfer_in_exact_bytes() {
    let msg = SendMsg {
        from_address: Address::default(),
        to_address: counting(),
        amount: vec![
            Coin::new(Uint256::from_u64(100), "uatom".to_string()),
            Coin::new(Uint256::new(1, 0), "stake".to_string()),
        ],
    };
    let expected = "{\"type\":\"cosmos-sdk/MsgSend\",\"value\":{\"amount\":[{\"amount\":\"100\",\"denom\":\"uatom\"},{\"amount\":\"340282366920938463463374607431768211456\",\"denom\":\"stake\"}],\"from_address\":\"cosmos1qqqqqqqqqqqqqqqqqqqqqqqqqqqqqqqqnrql8a\",\"to_address\":\"cosmos1qypqxpq9qcrsszg2pvxq6rs0zqg3yyc5lzv7xu\"}}";
    assert_eq!(signable(&Msg::SendMsg(msg.clone())), expected);
    assert_eq!(signable(&Msg::SendMsg(msg).clone()), expected);

    let empty = SendMsg { from_address: counting(), to_address: counting(), amount: vec![] };
    assert_eq!(
        signable(&Msg::SendMsg(empty)),
        "{\"type\":\"cosmos-sdk/MsgSend\",\"value\":{\"amount\":[],\"from_address\":\"cosmos1qypqxpq9qcrsszg2pvxq6rs0zqg3yyc5lzv7xu\",\"to_address\":\"cosmos1qypqxpq9qcrsszg2pvxq6rs0zqg3yyc5lzv7xu\"}}"
    );
}

#[test]
fn every_message_is_json_with_a_type_and_a_value() {
    let msgs = vec![
        Msg::Test("x".to_string()),
        Msg::MsgExchangeRateVote(vote()),
        Msg::MsgDelegateFeedConsent(MsgDelegateFeedConsent {
            operator: TerraValidatorOperatorAddress::default(),
            feeder: TerraAddress::default(),
        }),
        Msg::SendMsg(SendMsg {
            from_address: Address::default(),
            to_address: Address::default(),
            amount: vec![Coin::default()],
        }),
    ];
    let tags = [
        "deep_space/Test",
        "oracle/MsgExchangeRateVote",
        "oracle/MsgDelegateFeedConsent",
        "cosmos-sdk/MsgSend",
    ];
    for (msg, tag) in msgs.iter().zip(tags) {
        let parsed: Value = from_str(&signable(msg)).unwrap();
        let object = parsed.as_object().unwrap();
        assert_eq!(object.len(), 2);
        assert_eq!(object.get("type"), Some(&Value::String(tag.to_string())));
        assert!(object.contains_key("value"));
        assert_eq!(msg.to_sign_bytes(), to_canonical_json(&msg.to_json()));
    }
    let list = to_canonical_json(&messages_to_json(&msgs)).unwrap();
    let parsed: Value = serde_json::from_slice(&list).unwrap();
    assert_eq!(parsed.as_array().unwrap().len(), 4);
}

#[test]
fn a_coin_in_exact_bytes() {
    let coin = Coin::new(Uint256::from_u64(5), "u\"x".to_string());
    assert_eq!(
        to_canonical_json(&coin.to_json()),
        Ok(b"{\"amount\":\"5\",\"denom\":\"u\\\"x\"}".to_vec())
    );
    assert_eq!(
        to_canonical_json(&Coin::default().to_json()),
        Ok(b"{\"amount\":\"0\",\"denom\":\"\"}".to_vec())
    );
    let copy = coin.clone();
    assert_eq!(copy.amount, coin.amount);
    assert_eq!(copy.denom, coin.denom);
}
