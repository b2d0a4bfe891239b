//! What nodes are told of an election: the root of the voters' tree, the key that
//! proofs are checked with, and the seed of the key generation.
use crate::decimal;
use crate::field;
use crate::field::FieldElement;
use crate::zkp;
use crate::zkp::VerifyingKey;
use base64::engine::general_purpose::STANDARD;
use base64::Engine;
use vstd::prelude::*;

verus! {

/// The sixty-four symbols, in their order.
pub open spec fn symbols() -> Seq<char> {
    seq![
        'A', 'B', 'C', 'D', 'E', 'F', 'G', 'H', 'I', 'J', 'K', 'L', 'M', 'N', 'O', 'P',
        'Q', 'R', 'S', 'T', 'U', 'V', 'W', 'X', 'Y', 'Z', 'a', 'b', 'c', 'd', 'e', 'f',
        'g', 'h', 'i', 'j', 'k', 'l', 'm', 'n', 'o', 'p', 'q', 'r', 's', 't', 'u', 'v',
        'w', 'x', 'y', 'z', '0', '1', '2', '3', '4', '5', '6', '7', '8', '9', '+', '/',
    ]
}

/// The symbol of six bits.
pub open spec fn symbol(v: int) -> char {
    symbols()[v]
}

/// Bytes in symbols: three bytes in four symbols, and padding at the end.
pub open spec fn base64_text(b: Seq<u8>) -> Seq<char>
    decreases b.len(),
{
    if b.len() == 0 {
        Seq::empty()
    } else if b.len() == 1 {
        seq![symbol(b[0] as int / 4), symbol(b[0] as int % 4 * 16), '=', '=']
    } else if b.len() == 2 {
        seq![
            symbol(b[0] as int / 4),
            symbol(b[0] as int % 4 * 16 + b[1] as int / 16),
            symbol(b[1] as int % 16 * 4),
            '=',
        ]
    } else {
        seq![
            symbol(b[0] as int / 4),
            symbol(b[0] as int % 4 * 16 + b[1] as int / 16),
            symbol(b[1] as int % 16 * 4 + b[2] as int / 64),
            symbol(b[2] as int % 64),
        ] + base64_text(b.skip(3))
    }
}

/// `base64::Engine::encode` of `base64::engine::general_purpose::STANDARD`: the
/// standard symbols, with padding. Inputs whose text would not fit are left out.
#[verifier::external_body]
fn encode_base64(bytes: &[u8]) -> (r: String)
    requires
        bytes@.len() <= usize::MAX / 8,
    ensures
        r@ == base64_text(bytes@),
{
    STANDARD.encode(bytes)
}

/// `base64::Engine::decode` of `base64::engine::general_purpose::STANDARD`: it reads
/// back what `encode` writes, and refuses every other text, also one with other
/// padding or with bits that stand for nothing.
#[verifier::external_body]
fn decode_base64(text: &str) -> (r: Option<Vec<u8>>)
    ensures
        r matches Some(v) ==> text@ == base64_text(v@),
        forall|b: Seq<u8>| text@ == #[trigger] base64_text(b) ==> r is Some && r.unwrap()@ == b,
{
    STANDARD.decode(text).ok()
}

/// Reads the key that proofs are checked with, as it is written down.
pub fn read_key(text: &str) -> (r: Option<VerifyingKey>)
    ensures
        forall|b: Seq<u8>|
            text@ == #[trigger] base64_text(b) ==> {
                &&& r is Some == (zkp::key_fits(b) && zkp::key_decoding(b) is Some)
                &&& r matches Some(vk) ==> zkp::key_decoding(b) == Some(zkp::key_encoding(vk))
            },
        (forall|b: Seq<u8>| text@ != #[trigger] base64_text(b)) ==> r is None,
{
    match decode_base64(text) {
        Some(bytes) => zkp::key_from_bytes(bytes.as_slice()),
        None => None,
    }
}

/// What nodes are told of an election.
#[derive(Debug)]
pub struct CryptoConfig {
    pub num_candidates: usize,
    /// In decimal.
    pub merkle_root: String,
    /// Its bytes, in symbols.
    pub verifying_key: String,
    pub global_seed: u64,
}

/// Writes down what nodes are told of an election; nothing where the key is too
/// long.
pub fn crypto_config(
    num_candidates: usize,
    merkle_root: &FieldElement,
    vk: &VerifyingKey,
    global_seed: u64,
) -> (r: Option<CryptoConfig>)
    ensures
        r is Some <==> zkp::key_encoding(*vk).len() <= usize::MAX / 8,
        r matches Some(c) ==> {
            &&& c.num_candidates == num_candidates
            &&& c.merkle_root@ == decimal::decimal(merkle_root@ as nat)
            &&& c.verifying_key@ == base64_text(zkp::key_encoding(*vk))
            &&& zkp::key_is_read_back(*vk)
            &&& c.global_seed == global_seed
        },
{
    let bytes = zkp::write_key(vk);
    if bytes.len() > usize::MAX / 8 {
        return None;
    }
    Some(
        CryptoConfig {
            num_candidates,
            merkle_root: merkle_root.to_text(),
            verifying_key: encode_base64(bytes.as_slice()),
            global_seed,
        },
    )
}

/// A key that was written down is read back: `text` is what `crypto_config` writes of
/// `vk`, and `r` is what `read_key` gives for it.
pub proof fn law_key_is_read_back(vk: VerifyingKey, text: Seq<char>, r: Option<VerifyingKey>)
    requires
        zkp::key_is_read_back(vk),
        text == base64_text(zkp::key_encoding(vk)),
        forall|b: Seq<u8>|
            text == #[trigger] base64_text(b) ==> {
                &&& r is Some == (zkp::key_fits(b) && zkp::key_decoding(b) is Some)
                &&& r matches Some(k) ==> zkp::key_decoding(b) == Some(zkp::key_encoding(k))
            },
    ensures
        r is Some,
        zkp::key_encoding(r.unwrap()) == zkp::key_encoding(vk),
{
}

/// The root of the voters' tree, as it is written down, stands for the root
/// again.
pub proof fn law_root_is_read_back(root: FieldElement)
    ensures
        decimal::is_decimal(decimal::decimal(root@ as nat)),
        decimal::decimal_value(decimal::decimal(root@ as nat)) as int % field::field_order()
            == root@,
{
    broadcast use field::lemma_field_range;

    decimal::lemma_is_decimal(root@ as nat);
    decimal::lemma_decimal_value(root@ as nat);
    vstd::arithmetic::div_mod::lemma_small_mod(root@ as nat, field::field_order() as nat);
}

} // verus!
