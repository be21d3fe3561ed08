use ark_bls12_381::Fr;
use ark_ff::BigInt;
use ark_ff::PrimeField;
use ark_serialize::CanonicalSerialize;
use fri::field::Felt;
use fri::hash::concat_bytes;
use fri::hash::copy_bytes;
use fri::hash::hash_nodes;
use fri::hash::hash_tuple;
use fri::hash::same_bytes;
use sha2::Digest;
use sha2::Sha256;

fn hex(bytes: &[u8]) -> String {
    bytes.iter().map(|b| format!("{:02x}", b)).collect()
}

#[test]
fn node_hash_is_sha256_of_the_children() {
    assert_eq!(
        hex(&hash_nodes(&vec![], &vec![])),
        "e3b0c44298fc1c149afbf4c8996fb92427ae41e4649b934ca495991b7852b855"
    );
    assert_eq!(
        hex(&hash_nodes(&b"a".to_vec(), &b"bc".to_vec())),
        "ba7816bf8f01cfea414140de5dae2223b00361a396177a9cb410ff61f20015ad"
    );
    assert_eq!(hash_nodes(&b"ab".to_vec(), &b"c".to_vec()), hash_nodes(&b"a".to_vec(), &b"bc".to_vec()));
    assert_ne!(hash_nodes(&b"a".to_vec(), &b"b".to_vec()), hash_nodes(&b"b".to_vec(), &b"a".to_vec()));
}

#[test]
fn tuple_hash_is_sha256_of_length_and_elements() {
    // the number 2 in eight bytes, then 1 and 258 in 32 bytes each, low byte first
    let mut bytes = vec![2u8, 0, 0, 0, 0, 0, 0, 0];
    let mut one = vec![0u8; 32];
    one[0] = 1;
    let mut other = vec![0u8; 32];
    other[0] = 2;
    other[1] = 1;
    bytes.extend(one);
    bytes.extend(other);
    let expected = Sha256::digest(&bytes).to_vec();
    assert_eq!(hash_tuple(&[Felt::from_u64(1), Felt::from_u64(258)]), expected);
}

#[test]
fn tuple_hash_is_the_hash_of_the_canonical_serialization() {
    let limbs = [0x0123456789abcdefu64, 0xfedcba9876543210, 0x1111222233334444, 0x0555666677778888];
    let big = Felt::from_limbs(limbs[0], limbs[1], limbs[2], limbs[3]).unwrap();
    let tuple = vec![big, Felt::zero(), Felt::from_u64(u64::MAX), Felt::one()];
    let elements: Vec<Fr> = vec![
        Fr::from_bigint(BigInt::new(limbs)).unwrap(),
        Fr::from(0u64),
        Fr::from(u64::MAX),
        Fr::from(1u64),
    ];
    let mut bytes = Vec::new();
    elements.serialize_compressed(&mut bytes).unwrap();
    assert_eq!(bytes.len(), 8 + 4 * 32);
    assert_eq!(hash_tuple(&tuple), Sha256::digest(&bytes).to_vec());
}

#[test]
fn tuple_hash_depends_on_order_and_length() {
    let a = Felt::from_u64(1);
    let b = Felt::from_u64(2);
    assert_ne!(hash_tuple(&[a, b]), hash_tuple(&[b, a]));
    assert_ne!(hash_tuple(&[a]), hash_tuple(&[a, Felt::zero()]));
    assert_eq!(hash_tuple(&[]).len(), 32);
}

#[test]
fn byte_helpers_copy_join_and_compare() {
    let a = vec![1u8, 2, 3];
    let b = vec![4u8, 5];
    assert_eq!(copy_bytes(&a), a);
    assert_eq!(concat_bytes(&a, &b), vec![1, 2, 3, 4, 5]);
    assert_eq!(concat_bytes(&vec![], &b), b);
    assert!(same_bytes(&a, &vec![1, 2, 3]));
    assert!(!same_bytes(&a, &vec![1, 2, 4]));
    assert!(!same_bytes(&a, &vec![1, 2]));
    assert!(same_bytes(&vec![], &vec![]));
}
