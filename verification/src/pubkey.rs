use vstd::prelude::*;

use solana_program::pubkey::Pubkey;

verus! {

/// `solana_program::pubkey::Pubkey`, a 32-byte account address, carried through
/// the library as an opaque value.
#[verifier::external_type_specification]
#[verifier::external_body]
pub struct ExPubkey(solana_program::pubkey::Pubkey);

/// The address that `Pubkey::new_from_array` builds from the given 32 bytes.
pub uninterp spec fn pubkey_of_bytes(bytes: Seq<u8>) -> Pubkey;

/// Calls `Pubkey::new_from_array`, which wraps the byte array as it is. Trusted:
/// the result is the address named by the bytes, and no other byte array of
/// length 32 names the same address (the address is the array itself).
#[verifier::external_body]
pub(crate) fn pubkey_new_from_array(bytes: [u8; 32]) -> (key: Pubkey)
    ensures
        key == pubkey_of_bytes(bytes@),
        forall|other: Seq<u8>|
            other.len() == 32 && #[trigger] pubkey_of_bytes(other) == key ==> other == bytes@,
{
    Pubkey::new_from_array(bytes)
}

/// Calls `Pubkey::to_bytes`, which hands back the wrapped byte array. Trusted:
/// the bytes name the address, and no other byte array of length 32 names it.
#[verifier::external_body]
pub(crate) fn pubkey_to_bytes(key: &Pubkey) -> (bytes: [u8; 32])
    ensures
        pubkey_of_bytes(bytes@) == *key,
        forall|other: Seq<u8>|
            other.len() == 32 && #[trigger] pubkey_of_bytes(other) == *key ==> other == bytes@,
{
    key.to_bytes()
}

} // verus!
