//! Cosmos SDK account addresses
//!
//! An address is twenty raw bytes. Its text form is bech32 under a prefix
//! that names the network and the role; the four kinds of address differ in
//! that prefix and in their type, so that an account address cannot stand
//! where a validator operator's is asked for.

use crate::canonical_json::{Json, JsonValue};
use vstd::prelude::*;
use vstd::utf8::encode_utf8;

verus! {

/// Why a text is not the address that was asked for.
#[derive(Debug, Clone, Copy, PartialEq, Eq)]
pub enum DecodeError {
    /// The text is not bech32: it has no separator or no prefix, a character
    /// outside the alphabet, a data part shorter than a checksum, bad
    /// padding, or whitespace at its end.
    Malformed,
    /// The checksum does not match the prefix and the data.
    ChecksumMismatch,
    /// The data is not twenty bytes long.
    WrongLength,
    /// The text is under another prefix than the one expected.
    PrefixMismatch,
}

/// The bech32 text of `data` under the prefix `hrp`, as
/// `subtle_encoding::bech32::encode` gives it.
pub uninterp spec fn bech32_text(hrp: Seq<char>, data: Seq<u8>) -> Seq<char>;

/// What `subtle_encoding::bech32::decode` makes of `text`: the prefix and
/// the data, or the reason why it is no bech32.
pub uninterp spec fn bech32_parse(text: Seq<char>) -> Result<(Seq<char>, Seq<u8>), DecodeError>;

/// The prefixes under which an encoded text decodes to what went in: not
/// empty, of printable ASCII characters without blank, none of them an
/// upper-case letter.
pub open spec fn valid_prefix(hrp: Seq<char>) -> bool {
    &&& hrp.len() > 0
    &&& forall|i: int|
        0 <= i < hrp.len() ==> {
            let c = #[trigger] hrp[i];
            '!' <= c <= '~' && !('A' <= c <= 'Z')
        }
}

/// The decoder finds this prefix and this data in the text.
pub open spec fn parses_as(text: Seq<char>, hrp: Seq<char>, data: Seq<u8>) -> bool {
    bech32_parse(text) matches Ok(parsed) && parsed.0 == hrp && parsed.1 == data
}

/// Calls `subtle_encoding::bech32::encode`, which accepts every prefix and
/// all data. The contract names its result, and claims of the crate's
/// decoder that it gives the prefix and the data back where the prefix is
/// a valid one: the decoder splits at the last `1`, which the data part
/// never holds, lower-cases the prefix, and checks the checksum that the
/// encoder made.
#[verifier::external_body]
fn bech32_encode(hrp: &str, data: &[u8]) -> (text: String)
    ensures
        text@ == bech32_text(hrp@, data@),
        valid_prefix(hrp@) ==> parses_as(text@, hrp@, data@),
{
    subtle_encoding::bech32::encode(hrp, data)
}

/// Calls `subtle_encoding::bech32::decode` and names its result. The
/// crate's error is mapped kind by kind: only a checksum that does not
/// match is `ChecksumMismatch`, every other kind is `Malformed`.
#[verifier::external_body]
fn bech32_decode(text: &str) -> (result: Result<(String, Vec<u8>), DecodeError>)
    ensures
        match result {
            Ok((hrp, data)) => parses_as(text@, hrp@, data@),
            Err(error) => (bech32_parse(text@) matches Err(reason) && reason == error),
        },
{
    match subtle_encoding::bech32::decode(text) {
        Ok((hrp, data)) => Ok((hrp, data)),
        Err(subtle_encoding::Error::ChecksumInvalid) => Err(DecodeError::ChecksumMismatch),
        Err(subtle_encoding::Error::EncodingInvalid) => Err(DecodeError::Malformed),
        Err(subtle_encoding::Error::IoError) => Err(DecodeError::Malformed),
        Err(subtle_encoding::Error::LengthInvalid) => Err(DecodeError::Malformed),
        Err(subtle_encoding::Error::PaddingInvalid) => Err(DecodeError::Malformed),
        Err(subtle_encoding::Error::TrailingWhitespace) => Err(DecodeError::Malformed),
    }
}

/// The address that a decoded text stands for: the decoder's error where
/// it found one, `WrongLength` where the data is not twenty bytes,
/// `PrefixMismatch` where a prefix is expected and the text has another,
/// and else the data.
pub open spec fn address_of(
    parsed: Result<(Seq<char>, Seq<u8>), DecodeError>,
    expected: Option<Seq<char>>,
) -> Result<Seq<u8>, DecodeError> {
    match parsed {
        Err(error) => Err(error),
        Ok((hrp, data)) => if data.len() != 20 {
            Err(DecodeError::WrongLength)
        } else if expected is Some && expected->0 != hrp {
            Err(DecodeError::PrefixMismatch)
        } else {
            Ok(data)
        },
    }
}

/// The address that a text stands for, under any prefix or under the one
/// expected.
pub open spec fn decoded_address(text: Seq<char>, expected: Option<Seq<char>>) -> Result<
    Seq<u8>,
    DecodeError,
> {
    address_of(bech32_parse(text), expected)
}

/// A text whose data is not twenty bytes long is refused for its length,
/// though its checksum matches, whatever prefix it is under and whichever
/// is expected.
pub proof fn lemma_wrong_length_is_refused(text: Seq<char>, expected: Option<Seq<char>>)
    requires
        bech32_parse(text) matches Ok(parsed) && parsed.1.len() != 20,
    ensures
        decoded_address(text, expected) matches Err(error) && error == DecodeError::WrongLength,
{
}

/// A text that decodes to a prefix and twenty bytes is the address of
/// these bytes, where no prefix is expected or the same one.
pub proof fn lemma_decoded_under_its_prefix(text: Seq<char>, hrp: Seq<char>, data: Seq<u8>)
    requires
        parses_as(text, hrp, data),
        data.len() == 20,
    ensures
        decoded_address(text, Some(hrp)) matches Ok(bytes) && bytes == data,
        decoded_address(text, None) matches Ok(bytes) && bytes == data,
{
}

/// A Cosmos Hub address that's derived from a given PublicKey
#[derive(Debug, PartialEq, Eq, Copy, Clone)]
pub struct Address([u8; 20]);

/// A Cosmos Hub Validator Operator address that's derived from a given PublicKey
#[derive(Debug, PartialEq, Eq, Copy, Clone)]
pub struct CosmosValidatorOperatorAddress(pub Address);

/// A Terra address that's derived from a given PublicKey
#[derive(Debug, PartialEq, Eq, Copy, Clone)]
pub struct TerraAddress(pub Address);

/// A Terra Validator Operator address that's derived from a given PublicKey
#[derive(Debug, PartialEq, Eq, Copy, Clone)]
pub struct TerraValidatorOperatorAddress(pub Address);

/// What a decoder handed over, as plain values.
pub open spec fn decoded_view(decoded: Result<(String, Vec<u8>), DecodeError>) -> Result<
    (Seq<char>, Seq<u8>),
    DecodeError,
> {
    match decoded {
        Ok((hrp, data)) => Ok((hrp@, data@)),
        Err(error) => Err(error),
    }
}

/// The prefix that is expected, if any, as plain values.
pub open spec fn prefix_view(expected: Option<&str>) -> Option<Seq<char>> {
    match expected {
        Some(hrp) => Some(hrp@),
        None => None,
    }
}

/// The views of the two results agree: the same error, or addresses of
/// the same bytes.
pub open spec fn agrees(
    result: Result<Address, DecodeError>,
    expected: Result<Seq<u8>, DecodeError>,
) -> bool {
    match result {
        Ok(address) => expected matches Ok(bytes) && bytes == address.bytes(),
        Err(error) => expected matches Err(reason) && reason == error,
    }
}

impl Address {
    /// The twenty raw bytes of the address.
    pub closed spec fn bytes(&self) -> Seq<u8> {
        self.0@
    }

    /// An address has twenty bytes.
    pub proof fn lemma_length(&self)
        ensures
            self.bytes().len() == 20,
    {
    }

    /// Create an address from byte array.
    pub fn from_bytes(bytes: [u8; 20]) -> (address: Address)
        ensures
            address.bytes() == bytes@,
    {
        Address(bytes)
    }

    /// The raw bytes.
    pub fn as_bytes(&self) -> (bytes: &[u8; 20])
        ensures
            bytes@ == self.bytes(),
    {
        &self.0
    }

    /// Obtain a bech32 encoded address with a given prefix.
    ///
    /// * `hrp` - A prefix for bech32 encoding. The convention for addresses
    /// in Cosmos is `cosmos`.
    ///
    /// Under a valid prefix the text decodes to this address again, with
    /// or without the prefix expected.
    pub fn to_bech32(&self, hrp: &str) -> (text: String)
        ensures
            text@ == bech32_text(hrp@, self.bytes()),
            valid_prefix(hrp@) ==> (decoded_address(text@, Some(hrp@)) matches Ok(bytes) && bytes
                == self.bytes()),
            valid_prefix(hrp@) ==> (decoded_address(text@, None) matches Ok(bytes) && bytes
                == self.bytes()),
    {
        bech32_encode(hrp, self.0.as_slice())
    }

    /// The address that a decoded text holds. `decoded` is what the bech32
    /// decoder made of the text; `expected` is the prefix that the text
    /// must be under, if any is asked for. The checks come in this order:
    /// the decoder's own, the length of the data, the prefix.
    pub fn from_decoded(
        decoded: Result<(String, Vec<u8>), DecodeError>,
        expected: Option<&str>,
    ) -> (result: Result<Address, DecodeError>)
        ensures
            agrees(result, address_of(decoded_view(decoded), prefix_view(expected))),
    {
        match decoded {
            Err(error) => Err(error),
            Ok((hrp, data)) => {
                if data.len() != 20 {
                    return Err(DecodeError::WrongLength);
                }
                match expected {
                    Some(wanted) => {
                        let wanted_owned = wanted.to_owned();
                        if hrp != wanted_owned {
                            return Err(DecodeError::PrefixMismatch);
                        }
                    },
                    None => {},
                }
                let mut bytes = [0u8; 20];
                let mut i: usize = 0;
                while i < 20
                    invariant
                        i <= 20,
                        data@.len() == 20,
                        forall|k: int| 0 <= k < i ==> bytes@[k] == data@[k],
                    decreases 20 - i,
                {
                    bytes[i] = data[i];
                    i += 1;
                }
                assert(bytes@ =~= data@);
                Ok(Address(bytes))
            },
        }
    }

    /// Parse a bech32 encoded address
    ///
    /// * `s` - A bech32 encoded address
    ///
    /// The prefix is not looked at. The result is an error where the text
    /// is no bech32 or its checksum does not match, `WrongLength` where it
    /// holds other than twenty bytes, and else the address.
    pub fn from_bech32(s: &str) -> (result: Result<Address, DecodeError>)
        ensures
            agrees(result, decoded_address(s@, None)),
    {
        Address::from_decoded(bech32_decode(s), None)
    }

    /// Parse a bech32 encoded address that must stand under the prefix
    /// `hrp`: as `from_bech32`, and `PrefixMismatch` where the text holds
    /// twenty bytes under another prefix.
    pub fn from_bech32_with_prefix(s: &str, hrp: &str) -> (result: Result<Address, DecodeError>)
        ensures
            agrees(result, decoded_address(s@, Some(hrp@))),
    {
        Address::from_decoded(bech32_decode(s), Some(hrp))
    }
}

/// `cosmos`, `cosmosvaloper`, `terra` and `terravaloper` are valid prefixes.
pub proof fn lemma_known_prefixes()
    ensures
        valid_prefix("cosmos"@),
        valid_prefix("cosmosvaloper"@),
        valid_prefix("terra"@),
        valid_prefix("terravaloper"@),
{
    reveal_strlit("cosmos");
    reveal_strlit("cosmosvaloper");
    reveal_strlit("terra");
    reveal_strlit("terravaloper");
}

impl Default for Address {
    /// The address of twenty zero bytes.
    fn default() -> (address: Address)
        ensures
            address.bytes() == Seq::new(20, |i: int| 0u8),
    {
        let address = Address([0u8; 20]);
        assert(address.bytes() =~= Seq::new(20, |i: int| 0u8));
        address
    }
}

impl Address {
    /// The text of the address: bech32 under `cosmos`.
    pub open spec fn text(&self) -> Seq<char> {
        bech32_text("cosmos"@, self.bytes())
    }

    /// The address as JSON holds it: its text, as a string.
    pub open spec fn json(&self) -> JsonValue {
        JsonValue::Text(encode_utf8(self.text()))
    }

    /// The text of the address, which decodes to the address again.
    pub fn to_string(&self) -> (text: String)
        ensures
            text@ == self.text(),
            decoded_address(text@, Some("cosmos"@)) matches Ok(bytes) && bytes == self.bytes(),
    {
        proof {
            lemma_known_prefixes();
        }
        self.to_bech32("cosmos")
    }

    /// The address as a JSON string.
    pub fn to_json(&self) -> (json: Json)
        ensures
            json@ == self.json(),
    {
        Json::Text(self.to_string())
    }
}

impl Default for CosmosValidatorOperatorAddress {
    /// The address of twenty zero bytes.
    fn default() -> (address: CosmosValidatorOperatorAddress)
        ensures
            address.0.bytes() == Seq::new(20, |i: int| 0u8),
    {
        CosmosValidatorOperatorAddress(Address::default())
    }
}

impl CosmosValidatorOperatorAddress {
    /// The text of the address: bech32 under `cosmosvaloper`.
    pub open spec fn text(&self) -> Seq<char> {
        bech32_text("cosmosvaloper"@, self.0.bytes())
    }

    /// The address as JSON holds it: its text, as a string.
    pub open spec fn json(&self) -> JsonValue {
        JsonValue::Text(encode_utf8(self.text()))
    }

    /// The text of the address, which decodes to the address again.
    pub fn to_string(&self) -> (text: String)
        ensures
            text@ == self.text(),
            decoded_address(text@, Some("cosmosvaloper"@)) matches Ok(bytes) && bytes == self.0.bytes(),
    {
        proof {
            lemma_known_prefixes();
        }
        self.0.to_bech32("cosmosvaloper")
    }

    /// Parse a bech32 encoded address under `cosmosvaloper`. A text under
    /// another prefix is refused with `PrefixMismatch`.
    pub fn from_bech32(s: &str) -> (result: Result<CosmosValidatorOperatorAddress, DecodeError>)
        ensures
            agrees(
                match result {
                    Ok(address) => Ok(address.0),
                    Err(error) => Err(error),
                },
                decoded_address(s@, Some("cosmosvaloper"@)),
            ),
    {
        match Address::from_bech32_with_prefix(s, "cosmosvaloper") {
            Ok(address) => Ok(CosmosValidatorOperatorAddress(address)),
            Err(error) => Err(error),
        }
    }

    /// The address as a JSON string.
    pub fn to_json(&self) -> (json: Json)
        ensures
            json@ == self.json(),
    {
        Json::Text(self.to_string())
    }
}

impl Default for TerraAddress {
    /// The address of twenty zero bytes.
    fn default() -> (address: TerraAddress)
        ensures
            address.0.bytes() == Seq::new(20, |i: int| 0u8),
    {
        TerraAddress(Address::default())
    }
}

impl TerraAddress {
    /// The text of the address: bech32 under `terra`.
    pub open spec fn text(&self) -> Seq<char> {
        bech32_text("terra"@, self.0.bytes())
    }

    /// The address as JSON holds it: its text, as a string.
    pub open spec fn json(&self) -> JsonValue {
        JsonValue::Text(encode_utf8(self.text()))
    }

    /// The text of the address, which decodes to the address again.
    pub fn to_string(&self) -> (text: String)
        ensures
            text@ == self.text(),
            decoded_address(text@, Some("terra"@)) matches Ok(bytes) && bytes == self.0.bytes(),
    {
        proof {
            lemma_known_prefixes();
        }
        self.0.to_bech32("terra")
    }

    /// Parse a bech32 encoded address under `terra`. A text under
    /// another prefix is refused with `PrefixMismatch`.
    pub fn from_bech32(s: &str) -> (result: Result<TerraAddress, DecodeError>)
        ensures
            agrees(
                match result {
                    Ok(address) => Ok(address.0),
                    Err(error) => Err(error),
                },
                decoded_address(s@, Some("terra"@)),
            ),
    {
        match Address::from_bech32_with_prefix(s, "terra") {
            Ok(address) => Ok(TerraAddress(address)),
            Err(error) => Err(error),
        }
    }

    /// The address as a JSON string.
    pub fn to_json(&self) -> (json: Json)
        ensures
            json@ == self.json(),
    {
        Json::Text(self.to_string())
    }
}

impl Default for TerraValidatorOperatorAddress {
    /// The address of twenty zero bytes.
    fn default() -> (address: TerraValidatorOperatorAddress)
        ensures
            address.0.bytes() == Seq::new(20, |i: int| 0u8),
    {
        TerraValidatorOperatorAddress(Address::default())
    }
}

impl TerraValidatorOperatorAddress {
    /// The text of the address: bech32 under `terravaloper`.
    pub open spec fn text(&self) -> Seq<char> {
        bech32_text("terravaloper"@, self.0.bytes())
    }

    /// The address as JSON holds it: its text, as a string.
    pub open spec fn json(&self) -> JsonValue {
        JsonValue::Text(encode_utf8(self.text()))
    }

    /// The text of the address, which decodes to the address again.
    pub fn to_string(&self) -> (text: String)
        ensures
            text@ == self.text(),
            decoded_address(text@, Some("terravaloper"@)) matches Ok(bytes) && bytes == self.0.bytes(),
    {
        proof {
            lemma_known_prefixes();
        }
        self.0.to_bech32("terravaloper")
    }

    /// Parse a bech32 encoded address under `terravaloper`. A text under
    /// another prefix is refused with `PrefixMismatch`.
    pub fn from_bech32(s: &str) -> (result: Result<TerraValidatorOperatorAddress, DecodeError>)
        ensures
            agrees(
                match result {
                    Ok(address) => Ok(address.0),
                    Err(error) => Err(error),
                },
                decoded_address(s@, Some("terravaloper"@)),
            ),
    {
        match Address::from_bech32_with_prefix(s, "terravaloper") {
            Ok(address) => Ok(TerraValidatorOperatorAddress(address)),
            Err(error) => Err(error),
        }
    }

    /// The address as a JSON string.
    pub fn to_json(&self) -> (json: Json)
        ensures
            json@ == self.json(),
    {
        Json::Text(self.to_string())
    }
}

} // verus!
