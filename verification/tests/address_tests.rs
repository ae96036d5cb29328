use deep_space::address::{
    Address, CosmosValidatorOperatorAddress, DecodeError, TerraAddress,
    TerraValidatorOperatorAddress,
};

const ZERO_COSMOS: &str = "cosmos1qqqqqqqqqqqqqqqqqqqqqqqqqqqqqqqqnrql8a";
const ALPHABET: &str = "qpzry9x8gf2tvdw0s3jn54khce6mua7l";

fn counting() -> [u8; 20] {
    let mut bytes = [0u8; 20];
    for (i, byte) in bytes.iter_mut().enumerate() {
        *byte = i as u8 + 1;
    }
    bytes
}

#[test]
fn test_bech32() {
    let address = Address::default();
    assert_eq!(
        address.to_bech32("cosmos"),
        "cosmos1qqqqqqqqqqqqqqqqqqqqqqqqqqqqqqqqnrql8a"
    );

    let decoded = Address::from_bech32(&"cosmos1qqqqqqqqqqqqqqqqqqqqqqqqqqqqqqqqnrql8a".to_string())
        .expect("Unable to decode");
    assert_eq!(address, decoded);
}

#[test]
fn it_works() {
    assert_eq!(2 + 2, 4);
}

#[test]
fn zero_address_under_cosmos() {
    let address = Address::from_bytes([0u8; 20]);
    assert_eq!(address.to_bech32("cosmos"), ZERO_COSMOS);
    assert_eq!(address.to_string(), ZERO_COSMOS);
    assert_eq!(address.as_bytes(), &[0u8; 20]);
}

#[test]
fn encoding_depends_on_bytes_and_prefix() {
    let address = Address::from_bytes(counting());
    assert_eq!(address.to_bech32("cosmos"), "cosmos1qypqxpq9qcrsszg2pvxq6rs0zqg3yyc5lzv7xu");
    assert_eq!(
        address.to_bech32("cosmosvaloper"),
        "cosmosvaloper1qypqxpq9qcrsszg2pvxq6rs0zqg3yyc56kct20"
    );
    assert_eq!(address.to_bech32("terra"), "terra1qypqxpq9qcrsszg2pvxq6rs0zqg3yyc5exk7yu");
    assert_eq!(
        address.to_bech32("terravaloper"),
        "terravaloper1qypqxpq9qcrsszg2pvxq6rs0zqg3yyc5ef6r50"
    );
}

#[test]
fn known_vector_of_the_format() {
    let bytes = [
        0, 68, 50, 20, 199, 66, 84, 182, 53, 207, 132, 101, 58, 86, 215, 198, 117, 190, 119, 223,
    ];
    let address = Address::from_bytes(bytes);
    assert_eq!(address.to_bech32("abcdef"), "abcdef1qpzry9x8gf2tvdw0s3jn54khce6mua7lmqqqxw");
    assert_eq!(
        Address::from_bech32("abcdef1qpzry9x8gf2tvdw0s3jn54khce6mua7lmqqqxw"),
        Ok(address)
    );
}

#[test]
fn the_four_kinds_write_their_own_prefix() {
    let address = Address::from_bytes([0u8; 20]);
    assert_eq!(
        CosmosValidatorOperatorAddress(address).to_string(),
        "cosmosvaloper1qqqqqqqqqqqqqqqqqqqqqqqqqqqqqqqqkh52tw"
    );
    assert_eq!(TerraAddress(address).to_string(), "terra1qqqqqqqqqqqqqqqqqqqqqqqqqqqqqqqq486l9a");
    assert_eq!(
        TerraValidatorOperatorAddress(address).to_string(),
        "terravaloper1qqqqqqqqqqqqqqqqqqqqqqqqqqqqqqqq4gkz4w"
    );
    assert_eq!(CosmosValidatorOperatorAddress::default().0, Address::default());
    assert_eq!(TerraAddress::default().0, Address::default());
    assert_eq!(TerraValidatorOperatorAddress::default().0, Address::default());
}

#[test]
fn decoding_gives_back_what_was_encoded() {
    let prefixes = ["cosmos", "cosmosvaloper", "terra", "terravaloper", "a", "x1y", "?~{|}"];
    let mut samples: Vec<[u8; 20]> = vec![[0u8; 20], [0xffu8; 20], counting()];
    let mut state: u32 = 12345;
    for _ in 0..40 {
        let mut bytes = [0u8; 20];
        for byte in bytes.iter_mut() {
            state = state.wrapping_mul(1664525).wrapping_add(1013904223);
            *byte = (state >> 24) as u8;
        }
        samples.push(bytes);
    }
    for prefix in prefixes {
        for bytes in &samples {
            let address = Address::from_bytes(*bytes);
            let text = address.to_bech32(prefix);
            assert_eq!(Address::from_bech32_with_prefix(&text, prefix), Ok(address));
            assert_eq!(Address::from_bech32(&text), Ok(address));
        }
    }
}

#[test]
fn the_four_kinds_decode_their_own_text_only() {
    let address = Address::from_bytes(counting());
    let cosmos = address.to_string();
    let valoper = CosmosValidatorOperatorAddress(address).to_string();
    let terra = TerraAddress(address).to_string();
    let terra_valoper = TerraValidatorOperatorAddress(address).to_string();

    assert_eq!(
        CosmosValidatorOperatorAddress::from_bech32(&valoper),
        Ok(CosmosValidatorOperatorAddress(address))
    );
    assert_eq!(TerraAddress::from_bech32(&terra), Ok(TerraAddress(address)));
    assert_eq!(
        TerraValidatorOperatorAddress::from_bech32(&terra_valoper),
        Ok(TerraValidatorOperatorAddress(address))
    );

    assert_eq!(
        CosmosValidatorOperatorAddress::from_bech32(&cosmos),
        Err(DecodeError::PrefixMismatch)
    );
    assert_eq!(TerraAddress::from_bech32(&terra_valoper), Err(DecodeError::PrefixMismatch));
    assert_eq!(TerraValidatorOperatorAddress::from_bech32(&terra), Err(DecodeError::PrefixMismatch));
    assert_eq!(
        Address::from_bech32_with_prefix(&terra, "cosmos"),
        Err(DecodeError::PrefixMismatch)
    );
    // without an expected prefix the prefix is not looked at
    assert_eq!(Address::from_bech32(&terra), Ok(address));
    assert_eq!(Address::from_bech32(&terra_valoper), Ok(address));
}

#[test]
fn an_altered_checksum_character_is_refused() {
    let texts = [
        ZERO_COSMOS.to_string(),
        Address::from_bytes(counting()).to_bech32("terravaloper"),
        Address::from_bytes([0xabu8; 20]).to_bech32("terra"),
    ];
    for text in texts {
        let length = text.len();
        for place in length - 6..length {
            let unchanged = text.as_bytes()[place] as char;
            for other in ALPHABET.chars() {
                if other == unchanged {
                    continue;
                }
                let mut altered: Vec<char> = text.chars().collect();
                altered[place] = other;
                let altered: String = altered.into_iter().collect();
                assert_eq!(
                    Address::from_bech32(&altered),
                    Err(DecodeError::ChecksumMismatch),
                    "{}",
                    altered
                );
            }
            for other in ['b', 'i', 'o', '1', 'Q', ' ', '!'] {
                let mut altered: Vec<char> = text.chars().collect();
                altered[place] = other;
                let altered: String = altered.into_iter().collect();
                assert!(Address::from_bech32(&altered).is_err(), "{}", altered);
            }
        }
    }
}

#[test]
fn an_altered_data_character_is_refused() {
    let text = Address::from_bytes(counting()).to_bech32("cosmos");
    let start = "cosmos1".len();
    for place in start..text.len() - 6 {
        let unchanged = text.as_bytes()[place] as char;
        for other in ALPHABET.chars() {
            if other == unchanged {
                continue;
            }
            let mut altered: Vec<char> = text.chars().collect();
            altered[place] = other;
            let altered: String = altered.into_iter().collect();
            assert_eq!(Address::from_bech32(&altered), Err(DecodeError::ChecksumMismatch));
        }
    }
}

#[test]
fn a_payload_of_another_length_is_refused() {
    // valid checksums over 19, 21 and no bytes
    assert_eq!(
        Address::from_bech32("cosmos1qqqqqqqqqqqqqqqqqqqqqqqqqqqqqqqe9qc7s"),
        Err(DecodeError::WrongLength)
    );
    assert_eq!(
        Address::from_bech32("cosmos1qqqqqqqqqqqqqqqqqqqqqqqqqqqqqqqqqqeh9n80"),
        Err(DecodeError::WrongLength)
    );
    assert_eq!(Address::from_bech32("cosmos1550dq7"), Err(DecodeError::WrongLength));
    assert_eq!(Address::from_bech32("a12uel5l"), Err(DecodeError::WrongLength));
    // the length is looked at before the prefix
    assert_eq!(
        Address::from_bech32_with_prefix("cosmos1550dq7", "terra"),
        Err(DecodeError::WrongLength)
    );
    assert_eq!(TerraAddress::from_bech32("cosmos1550dq7"), Err(DecodeError::WrongLength));
}

#[test]
fn malformed_text_is_refused() {
    for text in [
        "",
        "cosmos",
        "pzry9x0s0muk",
        "1pzry9x0s0muk",
        "x1b4n0q5v",
        "li1dgmt3",
        "de1lg7wt\u{7f}",
        "\u{20}1nwldj5",
        "cosmos1qqqqqqqqqqqqqqqqqqqqqqqqqqqqqqqqnrql8a ",
        "cosmos1qqqqqqqqqqqqqqqqqqqqqqqqqqqqqqqqnrql8a\n",
        "cosmos1QQQQQQQQQQQQQQQQQQQQQQQQQQQQQQQQNRQL8A",
    ] {
        assert_eq!(Address::from_bech32(text), Err(DecodeError::Malformed), "{:?}", text);
    }
}

#[test]
fn from_decoded_checks_length_then_prefix() {
    let data = counting().to_vec();
    let address = Address::from_bytes(counting());
    assert_eq!(Address::from_decoded(Ok(("terra".to_string(), data.clone())), None), Ok(address));
    assert_eq!(
        Address::from_decoded(Ok(("terra".to_string(), data.clone())), Some("terra")),
        Ok(address)
    );
    assert_eq!(
        Address::from_decoded(Ok(("terra".to_string(), data.clone())), Some("cosmos")),
        Err(DecodeError::PrefixMismatch)
    );
    assert_eq!(
        Address::from_decoded(Ok(("terra".to_string(), data[..19].to_vec())), Some("cosmos")),
        Err(DecodeError::WrongLength)
    );
    assert_eq!(
        Address::from_decoded(Ok(("terra".to_string(), Vec::new())), None),
        Err(DecodeError::WrongLength)
    );
    assert_eq!(
        Address::from_decoded(Err(DecodeError::ChecksumMismatch), Some("terra")),
        Err(DecodeError::ChecksumMismatch)
    );
    assert_eq!(Address::from_decoded(Err(DecodeError::Malformed), None), Err(DecodeError::Malformed));
}

#[test]
fn an_upper_case_prefix_in_the_text_is_read_in_lower_case() {
    let address = Address::from_bytes([0u8; 20]);
    assert_eq!(
        Address::from_bech32_with_prefix("COSMOS1qqqqqqqqqqqqqqqqqqqqqqqqqqqqqqqqnrql8a", "cosmos"),
        Ok(address)
    );
}
