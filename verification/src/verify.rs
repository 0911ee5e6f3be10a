//! Proof verification: a single keyed-hash proof over `data || salt`, the
//! balance variant that also parses and compares decimal strings, and
//! all-or-nothing batch verification under one shared key.

use vstd::prelude::*;
use crate::compare::secure_equal;
use crate::decimal::{dec_ge, frac_part, int_part, is_decimal_str, DecimalParser};
use crate::hash::{hmac_of, push_bytes, KeyedHashEngine};

verus! {

/// The fewest salt bytes a proof is accepted with.
pub const MIN_SALT_LEN: usize = 16;

/// A proof passes: the salt is long enough and the proof equals the keyed
/// hash of `data || salt` under `key`.
pub open spec fn proof_ok(proof: Seq<u8>, data: Seq<u8>, salt: Seq<u8>, key: Seq<u8>) -> bool {
    &&& salt.len() >= MIN_SALT_LEN
    &&& proof == hmac_of(data + salt, key)
}

/// A balance proof passes: the proof authenticates the balance string, both
/// strings are well-formed decimals, and the balance is at least the
/// required amount.
pub open spec fn balance_ok(
    proof: Seq<u8>,
    balance_data: Seq<u8>,
    required_data: Seq<u8>,
    salt: Seq<u8>,
    key: Seq<u8>,
) -> bool {
    &&& proof_ok(proof, balance_data, salt, key)
    &&& is_decimal_str(balance_data)
    &&& is_decimal_str(required_data)
    &&& dec_ge(int_part(balance_data), frac_part(balance_data), int_part(required_data),
        frac_part(required_data))
}

/// A batch passes: the three lists have equal length and every entry passes
/// under the shared key.
pub open spec fn batch_ok(
    proofs: Seq<Seq<u8>>,
    data_items: Seq<Seq<u8>>,
    salts: Seq<Seq<u8>>,
    key: Seq<u8>,
) -> bool {
    &&& proofs.len() == data_items.len()
    &&& proofs.len() == salts.len()
    &&& forall|i: int|
        0 <= i < proofs.len() ==> proof_ok(proofs[i], data_items[i], salts[i], key)
}

/// Verifier of keyed-hash commitments to byte data and balances.
pub struct ZkpBalanceVerifier;

impl ZkpBalanceVerifier {
    /// Verifies one 32-byte proof over `data || salt` under a 32-byte key.
    /// Malformed input (a salt shorter than `MIN_SALT_LEN`) yields `false`,
    /// never a fault.
    pub fn verify_proof(proof: &Vec<u8>, data: &Vec<u8>, salt: &Vec<u8>, key: &Vec<u8>) -> (r:
        bool)
        requires
            proof@.len() == 32,
            key@.len() == 32,
        ensures
            r == proof_ok(proof@, data@, salt@, key@),
    {
        if salt.len() < MIN_SALT_LEN {
            return false;
        }
        let mut message: Vec<u8> = Vec::new();
        push_bytes(&mut message, data);
        push_bytes(&mut message, salt);
        proof {
            assert(Seq::<u8>::empty() + data@ + salt@ =~= data@ + salt@);
        }
        let expected = KeyedHashEngine::compute(&message, key);
        secure_equal(proof, &expected)
    }

    /// Verifies a balance proof: the proof must authenticate `balance_data`,
    /// both strings must parse as decimals, and the balance must be at least
    /// the required amount. Note that `required_data` itself is not covered
    /// by the proof.
    pub fn verify_balance(
        proof: &Vec<u8>,
        balance_data: &Vec<u8>,
        required_data: &Vec<u8>,
        salt: &Vec<u8>,
        key: &Vec<u8>,
    ) -> (r: bool)
        requires
            proof@.len() == 32,
            key@.len() == 32,
        ensures
            r == balance_ok(proof@, balance_data@, required_data@, salt@, key@),
    {
        let proof_valid = Self::verify_proof(proof, balance_data, salt, key);
        if !proof_valid {
            return false;
        }
        let balance = match DecimalParser::parse(balance_data) {
            Some(a) => a,
            None => {
                return false;
            },
        };
        let required = match DecimalParser::parse(required_data) {
            Some(a) => a,
            None => {
                return false;
            },
        };
        balance.at_least(&required)
    }

    /// Verifies a batch of independent proofs under one shared key: passes
    /// only if the three lists have equal length and every entry passes.
    /// Every entry is evaluated unconditionally, with no early exit on the
    /// first failure.
    pub fn verify_batch(
        proofs: &Vec<Vec<u8>>,
        data_items: &Vec<Vec<u8>>,
        salts: &Vec<Vec<u8>>,
        key: &Vec<u8>,
    ) -> (r: bool)
        requires
            key@.len() == 32,
            forall|i: int| 0 <= i < proofs@.len() ==> (#[trigger] proofs@[i])@.len() == 32,
        ensures
            r == batch_ok(proofs.deep_view(), data_items.deep_view(), salts.deep_view(),
                key@),
    {
        if proofs.len() != data_items.len() || proofs.len() != salts.len() {
            return false;
        }
        let mut all_ok: bool = true;
        let mut i: usize = 0;
        while i < proofs.len()
            invariant
                i <= proofs@.len(),
                proofs@.len() == data_items@.len(),
                proofs@.len() == salts@.len(),
                key@.len() == 32,
                forall|j: int| 0 <= j < proofs@.len() ==> (#[trigger] proofs@[j])@.len() == 32,
                all_ok <==> (forall|j: int|
                    0 <= j < i ==> proof_ok((#[trigger] proofs@[j])@, data_items@[j]@,
                        salts@[j]@, key@)),
            decreases proofs@.len() - i,
        {
            let entry_ok = Self::verify_proof(&proofs[i], &data_items[i], &salts[i], key);
            all_ok = all_ok && entry_ok;
            i = i + 1;
        }
        proof {
            assert(forall|j: int|
                0 <= j < proofs@.len() ==> proofs.deep_view()[j] == (#[trigger] proofs@[j])@);
            assert(forall|j: int|
                0 <= j < data_items@.len() ==> data_items.deep_view()[j] == (
                #[trigger] data_items@[j])@);
            assert(forall|j: int|
                0 <= j < salts@.len() ==> salts.deep_view()[j] == (#[trigger] salts@[j])@);
        }
        all_ok
    }

    /// Compares two 32-byte digests in constant time.
    pub fn secure_compare(a: &Vec<u8>, b: &Vec<u8>) -> (r: bool)
        requires
            a@.len() == 32,
            b@.len() == 32,
        ensures
            r == (a@ == b@),
    {
        secure_equal(a, b)
    }
}

/// Round trip: the keyed hash of `data || salt` itself always verifies, for
/// any key and any salt of at least the minimum length.
pub proof fn lemma_round_trip(data: Seq<u8>, salt: Seq<u8>, key: Seq<u8>)
    requires
        salt.len() >= MIN_SALT_LEN,
    ensures
        proof_ok(hmac_of(data + salt, key), data, salt, key),
{
}

/// Negation: any proof other than the one valid digest fails, so altering a
/// valid proof in any byte makes verification fail.
pub proof fn lemma_altered_proof_fails(
    good: Seq<u8>,
    bad: Seq<u8>,
    data: Seq<u8>,
    salt: Seq<u8>,
    key: Seq<u8>,
)
    requires
        proof_ok(good, data, salt, key),
        bad != good,
    ensures
        !proof_ok(bad, data, salt, key),
{
}

/// Salt-length boundary: a salt shorter than the minimum makes verification
/// fail regardless of the proof bytes.
pub proof fn lemma_short_salt_fails(proof: Seq<u8>, data: Seq<u8>, salt: Seq<u8>, key: Seq<u8>)
    requires
        salt.len() < MIN_SALT_LEN,
    ensures
        !proof_ok(proof, data, salt, key),
{
}

} // verus!
