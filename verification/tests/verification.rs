use proof_balance::decimal::DecimalParser;
use proof_balance::hash::KeyedHashEngine;
use proof_balance::verify::ZkpBalanceVerifier;

use sha2::Digest;

/// The 32-byte test key.
fn create_test_key() -> Vec<u8> {
    vec![
        0x55, 0x75, 0x43, 0x32, 0xf6, 0x05, 0xd5, 0x14, 0xb1, 0x65, 0x8c, 0x16, 0x2f, 0x87, 0x86,
        0xf7, 0x79, 0xb4, 0x24, 0xa7, 0x4e, 0xf4, 0xa6, 0xd7, 0x42, 0x7d, 0x26, 0x86, 0x0f, 0x84,
        0x5c, 0x77,
    ]
}

/// A 16-byte test salt: the bytes 0 through 15.
fn create_test_salt() -> Vec<u8> {
    (0u8..16).collect()
}

/// The expected proof for `data` and `salt` under `key`: the keyed hash of
/// `data || salt`.
fn compute_expected_proof(data: &[u8], salt: &[u8], key: &Vec<u8>) -> Vec<u8> {
    let mut message: Vec<u8> = Vec::new();
    message.extend_from_slice(data);
    message.extend_from_slice(salt);
    KeyedHashEngine::compute(&message, key)
}

#[test]
fn test_verify_valid_proof() {
    let key = create_test_key();
    let salt = create_test_salt();
    let data: Vec<u8> = vec![1, 2, 3, 4, 5];

    let proof = compute_expected_proof(&data, &salt, &key);

    let result = ZkpBalanceVerifier::verify_proof(&proof, &data, &salt, &key);

    assert!(result, "Valid proof should be verified successfully");
}

#[test]
fn test_verify_invalid_proof() {
    let key = create_test_key();
    let salt = create_test_salt();
    let data: Vec<u8> = vec![1, 2, 3, 4, 5];

    let invalid_proof = vec![0u8; 32];

    let result = ZkpBalanceVerifier::verify_proof(&invalid_proof, &data, &salt, &key);

    assert!(!result, "Invalid proof should fail verification");
}

#[test]
fn test_verify_proof_with_invalid_salt_length() {
    let key = create_test_key();

    let short_salt: Vec<u8> = (0u8..8).collect();
    let data: Vec<u8> = vec![1, 2, 3, 4, 5];

    let proof = vec![0u8; 32];

    let result = ZkpBalanceVerifier::verify_proof(&proof, &data, &short_salt, &key);

    assert!(!result, "Proof with short salt should fail");
}

#[test]
fn test_verify_balance_proof() {
    let key = create_test_key();
    let salt = create_test_salt();

    let balance_data = b"1000.0".to_vec();
    let required_data = b"500.0".to_vec();

    let proof = compute_expected_proof(&balance_data, &salt, &key);

    let result =
        ZkpBalanceVerifier::verify_balance(&proof, &balance_data, &required_data, &salt, &key);

    assert!(result, "Valid balance proof should be verified");
}

#[test]
fn test_verify_balance_proof_insufficient() {
    let key = create_test_key();
    let salt = create_test_salt();

    let balance_data = b"99.0".to_vec();
    let required_data = b"100.0".to_vec();

    let proof = compute_expected_proof(&balance_data, &salt, &key);

    let result =
        ZkpBalanceVerifier::verify_balance(&proof, &balance_data, &required_data, &salt, &key);

    assert!(!result, "Balance proof should fail when balance < required");
}

#[test]
fn test_verify_balance_proof_malformed_input() {
    let key = create_test_key();
    let salt = create_test_salt();

    let malformed_balance = b"-".to_vec();
    let required_data = b"100.0".to_vec();

    let proof = compute_expected_proof(&malformed_balance, &salt, &key);

    let result =
        ZkpBalanceVerifier::verify_balance(&proof, &malformed_balance, &required_data, &salt, &key);

    assert!(!result, "Malformed balance '-' should fail verification");

    let dot_only = b".".to_vec();

    let proof2 = compute_expected_proof(&dot_only, &salt, &key);

    let result2 =
        ZkpBalanceVerifier::verify_balance(&proof2, &dot_only, &required_data, &salt, &key);

    assert!(!result2, "Malformed balance '.' should fail verification");
}

#[test]
fn test_batch_verification_all_valid() {
    let key = create_test_key();

    let mut proofs: Vec<Vec<u8>> = Vec::new();
    let mut data_items: Vec<Vec<u8>> = Vec::new();
    let mut salts: Vec<Vec<u8>> = Vec::new();

    for i in 0u8..3 {
        let salt = create_test_salt();
        let data: Vec<u8> = vec![i, i + 1, i + 2];

        let proof = compute_expected_proof(&data, &salt, &key);

        proofs.push(proof);
        data_items.push(data);
        salts.push(salt);
    }

    let result = ZkpBalanceVerifier::verify_batch(&proofs, &data_items, &salts, &key);

    assert!(result, "All valid proofs should pass batch verification");
}

#[test]
fn test_batch_verification_one_invalid() {
    let key = create_test_key();

    let mut proofs: Vec<Vec<u8>> = Vec::new();
    let mut data_items: Vec<Vec<u8>> = Vec::new();
    let mut salts: Vec<Vec<u8>> = Vec::new();

    let salt1 = create_test_salt();
    let data1: Vec<u8> = vec![1, 2, 3];
    let proof1 = compute_expected_proof(&data1, &salt1, &key);

    proofs.push(proof1);
    data_items.push(data1);
    salts.push(salt1);

    let salt2 = create_test_salt();
    let data2: Vec<u8> = vec![4, 5, 6];
    let invalid_proof = vec![0u8; 32];

    proofs.push(invalid_proof);
    data_items.push(data2);
    salts.push(salt2);

    let result = ZkpBalanceVerifier::verify_batch(&proofs, &data_items, &salts, &key);

    assert!(!result, "Batch with one invalid proof should fail");
}

#[test]
fn test_constant_time_comparison() {
    let hash1 = vec![0xAB; 32];
    let hash2 = vec![0xAB; 32];

    assert!(ZkpBalanceVerifier::secure_compare(&hash1, &hash2));

    let hash3 = vec![0xAB; 32];
    let mut different_bytes = vec![0xAB; 32];
    different_bytes[31] = 0xAC;

    assert!(!ZkpBalanceVerifier::secure_compare(&hash3, &different_bytes));
}

#[test]
fn test_known_answer_digest() {
    // HMAC-SHA256 of [1,2,3,4,5] || bytes 0..15 under the test key, computed
    // with an independent implementation.
    let key = create_test_key();
    let salt = create_test_salt();
    let data: Vec<u8> = vec![1, 2, 3, 4, 5];

    let expected: Vec<u8> = vec![
        0x8f, 0xa5, 0xe0, 0x68, 0x66, 0xb7, 0x1b, 0x82, 0xaa, 0x20, 0x5e, 0xf8, 0xc0, 0x0b, 0x8d,
        0x20, 0x68, 0x0a, 0x78, 0xbb, 0xfd, 0x25, 0xeb, 0x51, 0x95, 0x76, 0xff, 0xef, 0x58, 0xf3,
        0x31, 0xc6,
    ];

    let digest = compute_expected_proof(&data, &salt, &key);
    assert_eq!(digest, expected);

    assert!(ZkpBalanceVerifier::verify_proof(&expected, &data, &salt, &key));
    assert!(!ZkpBalanceVerifier::verify_proof(&vec![0u8; 32], &data, &salt, &key));
}

#[test]
fn test_keyed_hash_matches_direct_sha256() {
    // The engine must agree with HMAC built directly from SHA-256: pad the
    // key to 64 bytes, XOR with 0x36 and 0x5c, and nest two hash passes.
    let key = create_test_key();
    let message: Vec<u8> = b"a message of arbitrary length".to_vec();

    let mut key_padded = key.clone();
    key_padded.resize(64, 0u8);

    let mut inner: Vec<u8> = key_padded.iter().map(|b| b ^ 0x36).collect();
    inner.extend_from_slice(&message);
    let inner_digest = sha2::Sha256::digest(&inner);

    let mut outer: Vec<u8> = key_padded.iter().map(|b| b ^ 0x5c).collect();
    outer.extend_from_slice(&inner_digest);
    let expected = sha2::Sha256::digest(&outer).to_vec();

    let digest = KeyedHashEngine::compute(&message, &key);
    assert_eq!(digest, expected);
}

#[test]
fn test_salt_length_boundary() {
    let key = create_test_key();
    let data: Vec<u8> = vec![9, 9, 9];

    let salt15: Vec<u8> = (0u8..15).collect();
    let proof15 = compute_expected_proof(&data, &salt15, &key);
    assert!(
        !ZkpBalanceVerifier::verify_proof(&proof15, &data, &salt15, &key),
        "A 15-byte salt must fail even with a correct digest"
    );

    let salt16: Vec<u8> = (0u8..16).collect();
    let proof16 = compute_expected_proof(&data, &salt16, &key);
    assert!(
        ZkpBalanceVerifier::verify_proof(&proof16, &data, &salt16, &key),
        "A 16-byte salt must verify normally"
    );
}

#[test]
fn test_single_bit_flip_fails() {
    let key = create_test_key();
    let salt = create_test_salt();
    let data: Vec<u8> = vec![1, 2, 3, 4, 5];

    let proof = compute_expected_proof(&data, &salt, &key);

    for byte in 0..32 {
        for bit in 0..8 {
            let mut altered = proof.clone();
            altered[byte] ^= 1u8 << bit;
            assert!(
                !ZkpBalanceVerifier::verify_proof(&altered, &data, &salt, &key),
                "A proof with one flipped bit must fail"
            );
        }
    }
}

#[test]
fn test_decimal_parsing() {
    assert!(DecimalParser::parse(&b"1000.0".to_vec()).is_some());
    assert!(DecimalParser::parse(&b"500.0".to_vec()).is_some());
    assert!(DecimalParser::parse(&b"-".to_vec()).is_none());
    assert!(DecimalParser::parse(&b".".to_vec()).is_none());
    assert!(DecimalParser::parse(&b"".to_vec()).is_none());
    assert!(DecimalParser::parse(&b"12.3.4".to_vec()).is_none());

    // An empty integer or fractional part is allowed as long as a digit
    // appears somewhere.
    assert!(DecimalParser::parse(&b"1000.".to_vec()).is_some());
    assert!(DecimalParser::parse(&b".5".to_vec()).is_some());
}

#[test]
fn test_amount_comparison_exact() {
    let parse = |s: &[u8]| DecimalParser::parse(&s.to_vec()).unwrap();

    // Trailing fractional zeros and leading integer zeros do not change the
    // value.
    assert!(parse(b"1.5").at_least(&parse(b"1.50")));
    assert!(parse(b"1.50").at_least(&parse(b"1.5")));
    assert!(parse(b"007").at_least(&parse(b"7")));
    assert!(parse(b"7").at_least(&parse(b"007")));

    // Exact ordering, with no floating-point rounding.
    assert!(parse(b"10").at_least(&parse(b"9.999")));
    assert!(!parse(b"9.999").at_least(&parse(b"10")));
    assert!(parse(b"0.3").at_least(&parse(b"0.2999999999999999")));
    assert!(!parse(b"0.2999999999999999").at_least(&parse(b"0.3")));

    // An empty integer part means zero units; an empty fractional part means
    // a whole number.
    assert!(parse(b".5").at_least(&parse(b"0.5")));
    assert!(parse(b"0.5").at_least(&parse(b".5")));
    assert!(parse(b"1000.").at_least(&parse(b"1000")));
    assert!(parse(b"1000").at_least(&parse(b"1000.")));
}

#[test]
fn test_balance_equal_boundary() {
    let key = create_test_key();
    let salt = create_test_salt();

    let balance_data = b"100.0".to_vec();
    let required_data = b"100".to_vec();

    let proof = compute_expected_proof(&balance_data, &salt, &key);

    let result =
        ZkpBalanceVerifier::verify_balance(&proof, &balance_data, &required_data, &salt, &key);

    assert!(result, "A balance equal to the required amount suffices");
}

#[test]
fn test_batch_empty_valid() {
    let key = create_test_key();

    let proofs: Vec<Vec<u8>> = Vec::new();
    let data_items: Vec<Vec<u8>> = Vec::new();
    let salts: Vec<Vec<u8>> = Vec::new();

    let result = ZkpBalanceVerifier::verify_batch(&proofs, &data_items, &salts, &key);

    assert!(result, "An empty batch is vacuously valid");
}

#[test]
fn test_batch_length_mismatch() {
    let key = create_test_key();
    let salt = create_test_salt();
    let data: Vec<u8> = vec![1, 2, 3];
    let proof = compute_expected_proof(&data, &salt, &key);

    let proofs = vec![proof.clone(), proof];
    let data_items = vec![data];
    let salts = vec![salt];

    let result = ZkpBalanceVerifier::verify_batch(&proofs, &data_items, &salts, &key);

    assert!(!result, "Batches with mismatched list lengths must fail");
}
