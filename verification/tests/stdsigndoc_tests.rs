use deep_space::address::Address;
use deep_space::canonical_json::{to_canonical_json, EncodeError};
use deep_space::coin::Coin;
use deep_space::msg::{Msg, SendMsg};
use deep_space::stdfee::{clone_coins, coins_to_json, has_distinct_denoms, StdFee};
use deep_space::stdsigndoc::{encode_messages, RawMessage, StdSignDoc};
use deep_space::uint256::Uint256;

fn text(bytes: Result<Vec<u8>, EncodeError>) -> String {
    String::from_utf8(bytes.unwrap()).unwrap()
}

#[test]
fn to_bytes() {
    let std_sign_msg = StdSignDoc::default();
    // Safe enough to compare as this is canonical JSON and the representation should be always the same
    assert_eq!(String::from_utf8(std_sign_msg.to_bytes().unwrap()).unwrap(), "{\"account_number\":\"\",\"chain_id\":\"\",\"fee\":{\"amount\":null,\"gas\":\"0\"},\"memo\":\"\",\"msgs\":[],\"sequence\":\"\"}");
}

#[test]
fn a_fee_in_exact_bytes() {
    assert_eq!(text(to_canonical_json(&StdFee::default().to_json())), "{\"amount\":null,\"gas\":\"0\"}");
    let none = StdFee { amount: Some(vec![]), gas: Uint256::from_u64(200000) };
    assert_eq!(text(to_canonical_json(&none.to_json())), "{\"amount\":[],\"gas\":\"200000\"}");
    let fee = StdFee {
        amount: Some(vec![
            Coin::new(Uint256::from_u64(1), "b".to_string()),
            Coin::new(Uint256::from_u64(2), "a".to_string()),
        ]),
        gas: Uint256::from_u64(7),
    };
    let expected = "{\"amount\":[{\"amount\":\"1\",\"denom\":\"b\"},{\"amount\":\"2\",\"denom\":\"a\"}],\"gas\":\"7\"}";
    assert_eq!(text(to_canonical_json(&fee.to_json())), expected);
    assert_eq!(text(to_canonical_json(&fee.clone().to_json())), expected);
    assert_eq!(text(to_canonical_json(&StdFee::default().clone().to_json())), "{\"amount\":null,\"gas\":\"0\"}");
}

#[test]
fn a_built_document_in_exact_bytes() {
    let msgs = vec![
        Msg::Test("first".to_string()),
        Msg::SendMsg(SendMsg {
            from_address: Address::default(),
            to_address: Address::default(),
            amount: vec![Coin::new(Uint256::from_u64(9), "uatom".to_string())],
        }),
    ];
    let fee = StdFee {
        amount: Some(vec![Coin::new(Uint256::from_u64(3), "uatom".to_string())]),
        gas: Uint256::from_u64(200000),
    };
    let doc = StdSignDoc::build("testing".to_string(), 12, 0, fee, &msgs, "a memo".to_string());
    assert_eq!(doc.chain_id, "testing");
    assert_eq!(doc.account_number, "12");
    assert_eq!(doc.sequence, "0");
    assert_eq!(doc.memo, "a memo");
    assert_eq!(doc.msgs.len(), 2);
    assert_eq!(doc.msgs[0].0, msgs[0].to_sign_bytes().unwrap());
    assert_eq!(doc.msgs[1].0, msgs[1].to_sign_bytes().unwrap());
    assert_eq!(
        text(doc.to_bytes()),
        "{\"account_number\":\"12\",\"chain_id\":\"testing\",\"fee\":{\"amount\":[{\"amount\":\"3\",\"denom\":\"uatom\"}],\"gas\":\"200000\"},\"memo\":\"a memo\",\"msgs\":[{\"type\":\"deep_space/Test\",\"value\":\"first\"},{\"type\":\"cosmos-sdk/MsgSend\",\"value\":{\"amount\":[{\"amount\":\"9\",\"denom\":\"uatom\"}],\"from_address\":\"cosmos1qqqqqqqqqqqqqqqqqqqqqqqqqqqqqqqqnrql8a\",\"to_address\":\"cosmos1qqqqqqqqqqqqqqqqqqqqqqqqqqqqqqqqnrql8a\"}}],\"sequence\":\"0\"}"
    );
    // the messages of the document are not the messages anymore, and the messages stay
    assert_eq!(msgs.len(), 2);
    let numbers = StdSignDoc::build(String::new(), u64::MAX, 1, StdFee::default(), &vec![], String::new());
    assert_eq!(numbers.account_number, "18446744073709551615");
    assert_eq!(numbers.sequence, "1");
    assert_eq!(
        text(numbers.to_bytes()),
        "{\"account_number\":\"18446744073709551615\",\"chain_id\":\"\",\"fee\":{\"amount\":null,\"gas\":\"0\"},\"memo\":\"\",\"msgs\":[],\"sequence\":\"1\"}"
    );
}

#[test]
fn messages_are_encoded_each_for_itself() {
    let msgs = vec![Msg::Test("b".to_string()), Msg::Test("a".to_string())];
    let raws = encode_messages(&msgs);
    assert_eq!(raws.len(), 2);
    assert_eq!(raws[0].0, b"{\"type\":\"deep_space/Test\",\"value\":\"b\"}".to_vec());
    assert_eq!(raws[1].0, b"{\"type\":\"deep_space/Test\",\"value\":\"a\"}".to_vec());
    assert_eq!(encode_messages(&vec![]).len(), 0);
}

#[test]
fn raw_messages_are_not_escaped_again() {
    let mut doc = StdSignDoc::default();
    doc.msgs.push(RawMessage(b"{\"k\":\"a\\\"b\"}".to_vec()));
    doc.msgs.push(RawMessage(b"[1, 2]".to_vec()));
    doc.memo = "a\"b".to_string();
    assert_eq!(
        text(doc.to_bytes()),
        "{\"account_number\":\"\",\"chain_id\":\"\",\"fee\":{\"amount\":null,\"gas\":\"0\"},\"memo\":\"a\\\"b\",\"msgs\":[{\"k\":\"a\\\"b\"},[1, 2]],\"sequence\":\"\"}"
    );
}

#[test]
fn a_raw_message_that_is_not_utf8_is_refused() {
    let mut doc = StdSignDoc::default();
    doc.msgs.push(RawMessage(b"{}".to_vec()));
    doc.msgs.push(RawMessage(vec![b'"', 0xff, b'"']));
    assert_eq!(doc.to_bytes(), Err(EncodeError::Unrepresentable));
    doc.msgs.pop();
    assert!(doc.to_bytes().is_ok());
}

fn coin(amount: u64, denom: &str) -> Coin {
    Coin::new(Uint256::from_u64(amount), denom.to_string())
}

#[test]
fn coins_with_a_denomination_named_once() {
    assert!(has_distinct_denoms(&vec![]));
    assert!(has_distinct_denoms(&vec![coin(1, "a")]));
    assert!(has_distinct_denoms(&vec![coin(1, "a"), coin(1, "b"), coin(1, "A")]));
    assert!(!has_distinct_denoms(&vec![coin(1, "a"), coin(2, "b"), coin(3, "a")]));
    assert!(!has_distinct_denoms(&vec![coin(1, "a"), coin(2, "a")]));
    assert!(!has_distinct_denoms(&vec![coin(1, "b"), coin(2, "c"), coin(3, "c")]));
    assert!(!has_distinct_denoms(&vec![coin(1, "")]));
    assert!(!has_distinct_denoms(&vec![coin(1, "a"), coin(1, "")]));

    assert!(StdFee::default().is_well_formed());
    assert!(StdFee { amount: Some(vec![]), gas: Uint256::default() }.is_well_formed());
    assert!(StdFee { amount: Some(vec![coin(1, "a"), coin(1, "b")]), gas: Uint256::default() }
        .is_well_formed());
    assert!(!StdFee { amount: Some(vec![coin(1, "a"), coin(1, "a")]), gas: Uint256::default() }
        .is_well_formed());
    assert!(!StdFee { amount: Some(vec![coin(1, "")]), gas: Uint256::default() }.is_well_formed());
}

#[test]
fn coins_are_copied_and_written_in_order() {
    let coins = vec![coin(2, "b"), coin(1, "a")];
    let copy = clone_coins(&coins);
    assert_eq!(copy.len(), 2);
    assert_eq!(copy[0].denom, "b");
    assert_eq!(copy[0].amount, Uint256::from_u64(2));
    assert_eq!(copy[1].denom, "a");
    assert_eq!(
        text(to_canonical_json(&coins_to_json(&copy))),
        "[{\"amount\":\"2\",\"denom\":\"b\"},{\"amount\":\"1\",\"denom\":\"a\"}]"
    );
    assert_eq!(text(to_canonical_json(&coins_to_json(&vec![]))), "[]");
}
