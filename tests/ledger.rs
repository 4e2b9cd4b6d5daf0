use sha2::Digest;
use shard_nfts::contract::{CompressedNFTContract, NftError};
use shard_nfts::hashing::Sha256Algorithm;
use shard_nfts::leaf::NFTLeaf;
use shard_nfts::merkle::{bytes_eq, bytes_le_exec, combine, fold_proof, verify};

fn leaf(id: &str, owner: &str, metadata: &str) -> NFTLeaf {
    NFTLeaf { nft_id: id.to_string(), owner: owner.to_string(), metadata: metadata.to_string() }
}

fn sha(bytes: &[u8]) -> [u8; 32] {
    sha2::Sha256::digest(bytes).into()
}

/// Levels of a tree built over `leaves`, pairing neighbours, the odd last node moving up.
fn levels(leaves: Vec<[u8; 32]>) -> Vec<Vec<[u8; 32]>> {
    let mut all = vec![leaves];
    while all.last().unwrap().len() > 1 {
        let level = all.last().unwrap();
        let mut up = Vec::new();
        let mut k = 0;
        while k < level.len() {
            if k + 1 < level.len() {
                up.push(combine(&level[k], &level[k + 1]));
            } else {
                up.push(level[k]);
            }
            k += 2;
        }
        all.push(up);
    }
    all
}

fn path(levels: &[Vec<[u8; 32]>], mut i: usize) -> Vec<Vec<u8>> {
    let mut p = Vec::new();
    for level in &levels[..levels.len() - 1] {
        if i % 2 == 1 {
            p.push(level[i - 1].to_vec());
        } else if i + 1 < level.len() {
            p.push(level[i + 1].to_vec());
        }
        i /= 2;
    }
    p
}

fn root(levels: &[Vec<[u8; 32]>]) -> [u8; 32] {
    levels.last().unwrap()[0]
}

#[test]
fn encoding_is_length_prefixed() {
    let l = leaf("1", "ab", "");
    let mut expected = vec![0u8, 0, 0, 0, 0, 0, 0, 1, b'1'];
    expected.extend_from_slice(&[0, 0, 0, 0, 0, 0, 0, 2, b'a', b'b']);
    expected.extend_from_slice(&[0, 0, 0, 0, 0, 0, 0, 0]);
    assert_eq!(l.encode(), expected);
    assert_eq!(l.digest(), sha(&expected));
}

#[test]
fn digest_is_deterministic() {
    let a = leaf("7", "alice.near", "some metadata");
    let b = leaf("7", "alice.near", "some metadata");
    assert_eq!(a.digest(), a.digest());
    assert_eq!(a.digest(), b.digest());
    assert_ne!(a.digest(), leaf("7", "bob.near", "some metadata").digest());
}

#[test]
fn field_boundaries_are_kept() {
    assert_ne!(leaf("ab", "c", "").digest(), leaf("a", "bc", "").digest());
}

#[test]
fn combine_hashes_smaller_first() {
    let abc = [
        0xba, 0x78, 0x16, 0xbf, 0x8f, 0x01, 0xcf, 0xea, 0x41, 0x41, 0x40, 0xde, 0x5d, 0xae, 0x22,
        0x23, 0xb0, 0x03, 0x61, 0xa3, 0x96, 0x17, 0x7a, 0x9c, 0xb4, 0x10, 0xff, 0x61, 0xf2, 0x00,
        0x15, 0xad,
    ];
    assert_eq!(combine(b"ab", b"c"), abc);
    assert_eq!(combine(b"c", b"ab"), abc);
}

#[test]
fn combine_is_order_independent() {
    let a = sha(b"left");
    let b = sha(b"right");
    assert_eq!(combine(&a, &b), combine(&b, &a));
    let mut ab = Vec::new();
    if a < b {
        ab.extend_from_slice(&a);
        ab.extend_from_slice(&b);
    } else {
        ab.extend_from_slice(&b);
        ab.extend_from_slice(&a);
    }
    assert_eq!(combine(&a, &b), sha(&ab));
    let mut aa = a.to_vec();
    aa.extend_from_slice(&a);
    assert_eq!(combine(&a, &a), sha(&aa));
}

#[test]
fn lexicographic_order() {
    assert!(bytes_le_exec(&[1, 2], &[1, 3]));
    assert!(!bytes_le_exec(&[1, 3], &[1, 2]));
    assert!(bytes_le_exec(&[1], &[1, 0]));
    assert!(!bytes_le_exec(&[1, 0], &[1]));
    assert!(bytes_le_exec(&[4, 4], &[4, 4]));
    assert!(bytes_eq(&[4, 4], &[4, 4]));
    assert!(!bytes_eq(&[4, 4], &[4]));
}

#[test]
fn builder_paths_verify() {
    for n in 1..8usize {
        let leaves: Vec<[u8; 32]> = (0..n).map(|i| leaf(&i.to_string(), "o", "m").digest()).collect();
        let lv = levels(leaves.clone());
        for i in 0..n {
            assert!(verify(&leaves[i], &path(&lv, i), &root(&lv)));
        }
    }
}

#[test]
fn empty_proof_needs_leaf_equal_root() {
    let d = sha(b"only");
    assert!(verify(&d, &Vec::new(), &d));
    assert!(!verify(&d, &Vec::new(), &sha(b"other")));
    assert_eq!(fold_proof(&d, &Vec::new()), Some(d));
}

#[test]
fn malformed_proof_is_rejected() {
    let d = sha(b"x");
    let proof = vec![vec![1, 2, 3], vec![4, 5, 6]];
    assert_eq!(fold_proof(&d, &proof), None);
    assert!(!verify(&d, &proof, &d));
}

#[test]
fn tampering_is_detected() {
    let leaves: Vec<[u8; 32]> = (0..4).map(|i| leaf(&i.to_string(), "o", "m").digest()).collect();
    let lv = levels(leaves.clone());
    let p = path(&lv, 2);
    let r = root(&lv);
    assert!(verify(&leaves[2], &p, &r));
    let mut bad_root = r;
    bad_root[5] ^= 0x10;
    assert!(!verify(&leaves[2], &p, &bad_root));
    let mut bad_path = p.clone();
    bad_path[1][0] ^= 1;
    assert!(!verify(&leaves[2], &bad_path, &r));
    let tampered = leaf("2", "p", "m").digest();
    assert!(!verify(&tampered, &p, &r));
}

#[test]
fn finish_reads_first_eight_bytes() {
    let mut data = [0u8; 32];
    for (i, b) in data.iter_mut().enumerate() {
        *b = i as u8 + 1;
    }
    let h = Sha256Algorithm::new(data);
    assert_eq!(h.finish(), 0x0102030405060708);
    assert_eq!(h.hash(), sha(&data));
    assert_eq!(h.data(), data);
    let z = Sha256Algorithm::default();
    assert_eq!(z.finish(), 0);
    assert_eq!(z.hash(), sha(&[0u8; 32]));
}

fn setup() -> (CompressedNFTContract, Vec<NFTLeaf>, Vec<Vec<[u8; 32]>>) {
    let leaves = vec![leaf("1", "owner.near", "some metadata"), leaf("2", "owner.near", "other")];
    let lv = levels(leaves.iter().map(|l| l.digest()).collect());
    let c = CompressedNFTContract::new("owner.near".to_string(), vec![root(&lv)]).unwrap();
    (c, leaves, lv)
}

#[test]
fn new_needs_a_root() {
    assert!(matches!(
        CompressedNFTContract::new("owner.near".to_string(), Vec::new()),
        Err(NftError::Validation)
    ));
    let (c, _, lv) = setup();
    assert_eq!(c.owner(), "owner.near");
    assert_eq!(c.get_root(), root(&lv));
    assert!(c.is_authorized(&"owner.near".to_string()));
    assert!(!c.is_authorized(&"eve.near".to_string()));
}

#[test]
fn end_to_end_transfer() {
    let (mut c, leaves, lv) = setup();
    let owner = "owner.near".to_string();
    let first_path = path(&lv, 0);
    assert!(c.verify_merkle_proof(&leaves[0], &first_path));
    assert_eq!(c.transfer_nft(&owner, "new.near".to_string(), "1".to_string(), &leaves[0], &first_path), Ok(()));
    let moved = leaf("1", "new.near", "some metadata");
    let expected = fold_proof(&moved.digest(), &first_path).unwrap();
    assert_eq!(c.get_root(), expected);
    assert_eq!(
        c.transfer_nft(&owner, "third.near".to_string(), "1".to_string(), &leaves[0], &first_path),
        Err(NftError::ProofMismatch)
    );
    assert_eq!(c.get_root(), expected);
    assert_eq!(
        c.transfer_nft(&"new.near".to_string(), "third.near".to_string(), "1".to_string(), &moved, &first_path),
        Ok(())
    );
}

#[test]
fn failed_transfer_changes_nothing() {
    let (mut c, leaves, lv) = setup();
    let before = c.serialize_merkle_tree_data();
    let first_path = path(&lv, 0);
    let eve = "eve.near".to_string();
    assert_eq!(c.transfer_nft(&eve, eve.clone(), "1".to_string(), &leaves[0], &first_path), Err(NftError::Authorization));
    assert_eq!(c.serialize_merkle_tree_data(), before);
    let owner = "owner.near".to_string();
    let wrong = path(&lv, 1);
    assert_eq!(c.transfer_nft(&owner, eve.clone(), "1".to_string(), &leaves[0], &wrong), Err(NftError::ProofMismatch));
    assert_eq!(c.serialize_merkle_tree_data(), before);
    let malformed = vec![vec![1, 2, 3], vec![4, 5, 6]];
    assert_eq!(c.transfer_nft(&owner, eve.clone(), "1".to_string(), &leaves[0], &malformed), Err(NftError::Validation));
    assert_eq!(c.transfer_nft(&owner, eve.clone(), "2".to_string(), &leaves[0], &first_path), Err(NftError::NotFound));
    assert_eq!(c.serialize_merkle_tree_data(), before);
}

#[test]
fn update_root_is_gated() {
    let (mut c, _, lv) = setup();
    let eve = "eve.near".to_string();
    let owner = "owner.near".to_string();
    let new_root = sha(b"new root");
    assert_eq!(c.update_merkle_root(&eve, new_root), Err(NftError::Authorization));
    assert_eq!(c.get_root(), root(&lv));
    assert_eq!(c.update_merkle_root_after_mint(&eve, new_root), Err(NftError::Authorization));
    assert_eq!(c.get_root(), root(&lv));
    assert_eq!(c.add_authorized_account(&eve, eve.clone()), Err(NftError::Authorization));
    assert!(!c.is_authorized(&eve));
    assert_eq!(c.add_authorized_account(&owner, "indexer.near".to_string()), Ok(()));
    assert_eq!(c.update_merkle_root(&"indexer.near".to_string(), new_root), Ok(()));
    assert_eq!(c.get_root(), new_root);
    assert_eq!(c.serialize_merkle_tree_data(), new_root.to_vec());
}

#[test]
fn mint_replaces_the_root() {
    let mut c = CompressedNFTContract::new("owner.near".to_string(), vec![[1u8; 32], [2u8; 32]]).unwrap();
    let owner = "owner.near".to_string();
    let minted = sha(b"minted");
    assert_eq!(c.update_merkle_root_after_mint(&owner, minted), Ok(()));
    assert_eq!(c.get_root(), minted);
    assert_eq!(c.serialize_merkle_tree_data(), minted.to_vec());
    assert_eq!(c.update_merkle_root_after_mint(&owner, minted), Ok(()));
    assert_eq!(c.serialize_merkle_tree_data(), minted.to_vec());
}

#[test]
fn two_roots_serialize_end_to_end() {
    let c = CompressedNFTContract::new("owner.near".to_string(), vec![[1u8; 32], [2u8; 32]]).unwrap();
    let mut expected = vec![1u8; 32];
    expected.extend_from_slice(&[2u8; 32]);
    assert_eq!(c.serialize_merkle_tree_data(), expected);
    assert_eq!(c.get_root(), [2u8; 32]);
    assert!(c.is_authorized(&"owner.near".to_string()));
}

#[test]
fn authorization_edits_are_idempotent() {
    let (mut c, _, _) = setup();
    let owner = "owner.near".to_string();
    let a = "a.near".to_string();
    assert_eq!(c.add_authorized_account(&owner, a.clone()), Ok(()));
    assert_eq!(c.add_authorized_account(&owner, a.clone()), Ok(()));
    assert!(c.is_authorized(&a));
    assert_eq!(c.remove_authorized_account(&owner, &a), Ok(()));
    assert!(!c.is_authorized(&a));
    assert_eq!(c.remove_authorized_account(&owner, &a), Ok(()));
    assert!(!c.is_authorized(&a));
    assert_eq!(c.remove_authorized_account(&a, &owner), Err(NftError::Authorization));
    assert_eq!(c.remove_authorized_account(&owner, &owner), Ok(()));
    assert!(c.is_authorized(&owner));
}

#[test]
fn deserialize_reads_json_roots() {
    let (mut c, _, _) = setup();
    let owner = "owner.near".to_string();
    let a = [3u8; 32];
    let b = [9u8; 32];
    let text = format!("[{:?},{:?}]", a, b);
    assert_eq!(c.deserialize_merkle_tree(&owner, text.as_bytes()), Ok(()));
    assert_eq!(c.get_root(), b);
    let mut expected = a.to_vec();
    expected.extend_from_slice(&b);
    assert_eq!(c.serialize_merkle_tree_data(), expected);
    assert_eq!(c.deserialize_merkle_tree(&owner, b"[]"), Err(NftError::Validation));
    assert_eq!(c.deserialize_merkle_tree(&owner, b"[[1,2,3]]"), Err(NftError::Validation));
    assert_eq!(c.deserialize_merkle_tree(&owner, b"not json"), Err(NftError::Validation));
    assert_eq!(c.deserialize_merkle_tree(&"eve.near".to_string(), text.as_bytes()), Err(NftError::Authorization));
    assert_eq!(c.get_root(), b);
    assert_eq!(c.replace_merkle_tree_data(&owner, vec![a]), Ok(()));
    assert_eq!(c.get_root(), a);
    assert_eq!(c.replace_merkle_tree_data(&owner, Vec::new()), Err(NftError::Validation));
}
