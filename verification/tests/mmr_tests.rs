//! Behavioural tests of the accumulator: small shapes with exact expected
//! digests, the proof round trip, tamper and staleness checks, and the
//! capacity boundary.

use mmr::{Digest, HashType, MerkleMountainRange, MmrError};

fn leaf(b: u8) -> Digest {
    Digest::from_bytes([b; 32])
}

/// The combination of two digests, computed independently of the pairing
/// code: left bytes, then right bytes, hashed as one 64-byte input.
fn combine_via(m: &MerkleMountainRange, l: &Digest, r: &Digest) -> Digest {
    let mut buf: Vec<u8> = Vec::new();
    buf.extend_from_slice(l.as_bytes());
    buf.extend_from_slice(r.as_bytes());
    m.compute_hash(&buf)
}

#[test]
fn empty_accumulator_queries_are_absent() {
    let m = MerkleMountainRange::new(5, HashType::Blake3);
    assert!(m.compute_root().is_none());
    assert!(m.get_peaks().is_none());
    assert!(m.top_level().is_none());
    assert!(m.generate_proof(0).is_none());
    assert!(m.generate_proof(3).is_none());
    assert!(m.get_node(0, 0).is_none());
    assert!(m.get_level(0).unwrap().is_empty());
    assert!(m.get_level(5).is_none());
}

#[test]
fn zero_height_accumulator_rejects_appends() {
    let mut m = MerkleMountainRange::new(0, HashType::Blake3);
    assert_eq!(m.append_leaf(leaf(1)), Err(MmrError::CapacityExceeded));
    assert!(m.compute_root().is_none());
    assert!(m.get_peaks().is_none());
    assert!(m.get_level(0).is_none());
}

#[test]
fn single_leaf_root_is_the_leaf() {
    let mut m = MerkleMountainRange::new(5, HashType::Blake3);
    let l = leaf(1);
    m.append_leaf(l).unwrap();
    assert_eq!(m.compute_root().unwrap(), l);
    assert_eq!(m.get_peaks().unwrap(), vec![l]);
    assert_eq!(m.top_level(), Some(0));
    assert_eq!(m.get_node(0, 0).unwrap(), l);
}

#[test]
fn two_leaves_fold_into_one_peak() {
    let mut m = MerkleMountainRange::new(5, HashType::Blake3);
    let (l0, l1) = (leaf(1), leaf(2));
    m.append_leaf(l0).unwrap();
    m.append_leaf(l1).unwrap();
    let c01 = combine_via(&m, &l0, &l1);
    assert_eq!(m.get_level(0).unwrap().len(), 2);
    assert_eq!(m.get_level(1).unwrap().clone(), vec![c01]);
    assert_eq!(m.get_peaks().unwrap(), vec![c01]);
    assert_eq!(m.compute_root().unwrap(), c01);
    assert_eq!(m.top_level(), Some(1));
}

#[test]
fn three_leaves_have_two_peaks_low_level_first() {
    let mut m = MerkleMountainRange::new(5, HashType::Blake3);
    let (l0, l1, l2) = (leaf(1), leaf(2), leaf(3));
    m.append_leaf(l0).unwrap();
    m.append_leaf(l1).unwrap();
    m.append_leaf(l2).unwrap();
    let c01 = combine_via(&m, &l0, &l1);
    assert_eq!(m.get_level(0).unwrap().len(), 3);
    assert_eq!(m.get_level(1).unwrap().clone(), vec![c01]);
    assert_eq!(m.get_node(0, 2).unwrap(), l2);
    assert_eq!(m.get_peaks().unwrap(), vec![l2, c01]);
    assert_eq!(m.compute_root().unwrap(), combine_via(&m, &l2, &c01));
    assert_eq!(m.top_level(), Some(1));
}

#[test]
fn root_is_deterministic_and_unmoved_by_queries() {
    let mut a = MerkleMountainRange::new(6, HashType::Keccak256);
    let mut b = MerkleMountainRange::new(6, HashType::Keccak256);
    for i in 0..13u8 {
        a.append_leaf(leaf(i)).unwrap();
        // Interleave queries on one of the two: reads change nothing.
        a.compute_root();
        a.get_peaks();
        a.generate_proof(0);
        b.append_leaf(leaf(i)).unwrap();
    }
    assert_eq!(a.compute_root().unwrap(), b.compute_root().unwrap());
    assert_eq!(a.compute_root().unwrap(), a.compute_root().unwrap());
    assert_eq!(a.get_peaks().unwrap(), b.get_peaks().unwrap());
}

#[test]
fn proof_round_trip_holds_for_every_leaf() {
    for alg in [HashType::Keccak256, HashType::Blake3] {
        let mut m = MerkleMountainRange::new(5, alg);
        for i in 0..11u8 {
            m.append_data(&[i, i + 1, 7]).unwrap();
        }
        let root = m.compute_root().unwrap();
        let peaks = m.get_peaks().unwrap();
        for i in 0..11usize {
            let path = m.generate_proof(i).unwrap();
            let l = m.get_node(0, i).unwrap();
            assert!(m.verify_proof(root, &peaks, &path, l, i));
        }
    }
}

#[test]
fn tampered_leaf_fails_verification() {
    let mut m = MerkleMountainRange::new(5, HashType::Blake3);
    for i in 0..6u8 {
        m.append_leaf(leaf(i)).unwrap();
    }
    let root = m.compute_root().unwrap();
    let peaks = m.get_peaks().unwrap();
    let path = m.generate_proof(2).unwrap();
    let good = m.get_node(0, 2).unwrap();
    assert!(m.verify_proof(root, &peaks, &path, good, 2));
    for byte in 0..32 {
        let mut bad = *good.as_bytes();
        bad[byte] ^= 0x01;
        assert!(!m.verify_proof(root, &peaks, &path, Digest::from_bytes(bad), 2));
    }
}

#[test]
fn tampered_proof_entry_fails_verification() {
    let mut m = MerkleMountainRange::new(5, HashType::Keccak256);
    for i in 0..6u8 {
        m.append_leaf(leaf(i)).unwrap();
    }
    let root = m.compute_root().unwrap();
    let peaks = m.get_peaks().unwrap();
    let path = m.generate_proof(2).unwrap();
    let l = m.get_node(0, 2).unwrap();
    assert!(!path.is_empty());
    for entry in 0..path.len() {
        for byte in [0usize, 13, 31] {
            let mut bad_path = path.clone();
            let mut bytes = *bad_path[entry].as_bytes();
            bytes[byte] ^= 0x80;
            bad_path[entry] = Digest::from_bytes(bytes);
            assert!(!m.verify_proof(root, &peaks, &bad_path, l, 2));
        }
    }
}

#[test]
fn tampered_leaf_index_fails_verification() {
    let mut m = MerkleMountainRange::new(5, HashType::Blake3);
    for i in 0..6u8 {
        m.append_leaf(leaf(i)).unwrap();
    }
    let root = m.compute_root().unwrap();
    let peaks = m.get_peaks().unwrap();
    let path = m.generate_proof(2).unwrap();
    let l = m.get_node(0, 2).unwrap();
    // The walk consumes one parity bit per sibling; a wrong index is caught
    // whenever it differs from the true one in a consumed bit. Index 6
    // agrees with index 2 in both consumed bits (the two-entry path reads
    // only the low two bits), pairs identically, and is not caught.
    for wrong in [0usize, 1, 3, 4, 5, 7] {
        assert!(!m.verify_proof(root, &peaks, &path, l, wrong));
    }
    assert!(m.verify_proof(root, &peaks, &path, l, 6));
}

#[test]
fn stale_proof_fails_against_later_root() {
    let mut m = MerkleMountainRange::new(5, HashType::Blake3);
    let l0 = leaf(1);
    m.append_leaf(l0).unwrap();
    let stale_path = m.generate_proof(0).unwrap();
    m.append_leaf(leaf(2)).unwrap();
    let root = m.compute_root().unwrap();
    let peaks = m.get_peaks().unwrap();
    // The old peak (the bare leaf) was folded away by the second append, so
    // the stale, empty sibling path no longer walks to a current peak.
    assert!(!m.verify_proof(root, &peaks, &stale_path, l0, 0));
}

#[test]
fn stale_proof_passes_while_its_peak_survives() {
    let mut m = MerkleMountainRange::new(5, HashType::Blake3);
    let (l0, l1) = (leaf(1), leaf(2));
    m.append_leaf(l0).unwrap();
    m.append_leaf(l1).unwrap();
    let stale_path = m.generate_proof(0).unwrap();
    m.append_leaf(leaf(3)).unwrap();
    let root = m.compute_root().unwrap();
    let peaks = m.get_peaks().unwrap();
    // After the pair boundary, the peak covering the first two leaves still
    // stands (the third leaf is a peak of its own), so the stale path still
    // walks to a current peak and the check accidentally passes.
    assert!(m.verify_proof(root, &peaks, &stale_path, l0, 0));
}

#[test]
fn capacity_boundary_is_exact() {
    let mut m = MerkleMountainRange::new(3, HashType::Blake3);
    for i in 0..7u8 {
        assert_eq!(m.append_leaf(leaf(i)), Ok(()));
    }
    let root_before = m.compute_root().unwrap();
    assert_eq!(m.append_leaf(leaf(7)), Err(MmrError::CapacityExceeded));
    // The failed append corrupted nothing.
    assert_eq!(m.get_level(0).unwrap().len(), 7);
    assert_eq!(m.compute_root().unwrap(), root_before);
    assert_eq!(m.append_leaf(leaf(8)), Err(MmrError::CapacityExceeded));
}

#[test]
fn keccak256_matches_known_vector() {
    let m = MerkleMountainRange::new(4, HashType::Keccak256);
    let expected =
        hex::decode("c5d2460186f7233c927e7db2dcc703c0e500b653ca82273b7bfad8045d85a470").unwrap();
    assert_eq!(m.compute_hash(b"").as_bytes().to_vec(), expected);
}

#[test]
fn blake3_matches_known_vector() {
    let m = MerkleMountainRange::new(4, HashType::Blake3);
    let expected =
        hex::decode("af1349b9f5f9a1a6a0404dea36dcc9499bcb25c9adc112b7cc9a93cae41f3262").unwrap();
    assert_eq!(m.compute_hash(b"").as_bytes().to_vec(), expected);
}

#[test]
fn compute_hash_matches_hash_crates() {
    let data = b"mountain range of digests";
    let k = MerkleMountainRange::new(4, HashType::Keccak256);
    assert_eq!(k.compute_hash(data).as_bytes(), &alloy::primitives::keccak256(data).0);
    let b = MerkleMountainRange::new(4, HashType::Blake3);
    assert_eq!(b.compute_hash(data).as_bytes(), blake3::hash(data).as_bytes());
}

#[test]
fn append_data_appends_the_digest_of_the_bytes() {
    let mut via_data = MerkleMountainRange::new(4, HashType::Keccak256);
    let mut via_digest = MerkleMountainRange::new(4, HashType::Keccak256);
    for word in [b"one".as_slice(), b"two", b"three"] {
        via_data.append_data(word).unwrap();
        let d = via_digest.compute_hash(word);
        via_digest.append_leaf(d).unwrap();
    }
    assert_eq!(via_data.compute_root().unwrap(), via_digest.compute_root().unwrap());
}

#[test]
fn top_level_is_floor_log2_of_leaf_count() {
    let mut m = MerkleMountainRange::new(5, HashType::Blake3);
    let expected = [0usize, 1, 1, 2, 2, 2, 2, 3, 3];
    for i in 0..9u8 {
        m.append_leaf(leaf(i)).unwrap();
        assert_eq!(m.top_level(), Some(expected[i as usize]));
    }
}

#[test]
fn peaks_follow_binary_representation_of_leaf_count() {
    let mut m = MerkleMountainRange::new(5, HashType::Keccak256);
    for i in 0..5u8 {
        m.append_leaf(leaf(i)).unwrap();
    }
    // Five leaves: binary 101, so peaks at level 0 and level 2.
    assert_eq!(m.get_level(0).unwrap().len(), 5);
    assert_eq!(m.get_level(1).unwrap().len(), 2);
    assert_eq!(m.get_level(2).unwrap().len(), 1);
    assert_eq!(m.get_level(3).unwrap().len(), 0);
    let peaks = m.get_peaks().unwrap();
    assert_eq!(peaks, vec![m.get_node(0, 4).unwrap(), m.get_node(2, 0).unwrap()]);
}

#[test]
fn get_node_bounds_are_checked() {
    let mut m = MerkleMountainRange::new(3, HashType::Blake3);
    m.append_leaf(leaf(1)).unwrap();
    assert!(m.get_node(3, 0).is_none());
    assert!(m.get_node(7, 0).is_none());
    assert!(m.get_node(0, 1).is_none());
    assert!(m.get_node(1, 0).is_none());
    assert!(m.get_node(0, 0).is_some());
}
