use beacon::msg::copy_round_vals;
use beacon::{
    commitment_preimage, BatchWSSMsg, BeaconMsg, CTRBCMsg, CoinMsg, Digest, MerkleProof, RoundVals,
    ShareDigest, WSSMsg, WrapperMsg,
};

fn le(x: u64, n: usize) -> Vec<u8> {
    x.to_le_bytes()[..n].to_vec()
}

fn sample_proof(item: u8, root: u8) -> MerkleProof {
    MerkleProof { lemma: vec![[item; 32], [9u8; 32], [root; 32]], path: vec![true] }
}

fn sample_round_vals() -> RoundVals {
    vec![(3u32, vec![(1usize, vec![5u8, 6u8]), (2usize, vec![])]), (4u32, vec![])]
}

fn sample_batch() -> BatchWSSMsg {
    BatchWSSMsg::new(
        vec![vec![1u8], vec![2u8]],
        7,
        vec![(vec![10u8], [0xC0u8; 32]), (vec![11u8], [0xC1u8; 32])],
        vec![sample_proof(0xA0, 0xB0), sample_proof(0xA1, 0xB1)],
    )
}

fn accepting_digests() -> Vec<ShareDigest> {
    vec![
        ShareDigest { commitment_hash: [0xC0u8; 32], proof_valid: true, leaf_hash: [0xA0u8; 32] },
        ShareDigest { commitment_hash: [0xC1u8; 32], proof_valid: true, leaf_hash: [0xA1u8; 32] },
    ]
}

fn sample_beacon() -> BeaconMsg {
    BeaconMsg::new(7, 12, sample_batch(), vec![[0xB0u8; 32], [0xB1u8; 32]], sample_round_vals())
}

#[test]
fn beacon_new_sets_fields() {
    let msg = sample_beacon();
    assert_eq!(msg.origin, 7);
    assert_eq!(msg.round, 12);
    assert!(msg.wss.is_some());
    assert_eq!(msg.root_vec, Some(vec![[0xB0u8; 32], [0xB1u8; 32]]));
    assert_eq!(msg.appx_con, Some(sample_round_vals()));
}

#[test]
fn beacon_new_with_appx_has_no_batch() {
    let msg = BeaconMsg::new_with_appx(2, 5, sample_round_vals());
    assert_eq!(msg.origin, 2);
    assert_eq!(msg.round, 5);
    assert!(msg.wss.is_none());
    assert!(msg.root_vec.is_none());
    assert_eq!(msg.appx_con, Some(sample_round_vals()));
}

#[test]
fn serialize_ctrbc_exact_bytes_without_roots() {
    let msg = BeaconMsg::new_with_appx(2, 5, vec![(9u32, vec![(1usize, vec![0xEEu8])])]);
    let mut expected = Vec::new();
    expected.extend(le(2, 8));
    expected.extend(le(5, 4));
    expected.push(0);
    expected.push(0);
    expected.push(1);
    expected.extend(le(1, 8));
    expected.extend(le(9, 4));
    expected.extend(le(1, 8));
    expected.extend(le(1, 8));
    expected.extend(le(1, 8));
    expected.push(0xEE);
    assert_eq!(msg.serialize_ctrbc(), expected);
}

#[test]
fn serialize_ctrbc_exact_bytes_with_roots() {
    let msg = BeaconMsg::new(1, 0x01020304, BatchWSSMsg::empty(), vec![[0x11u8; 32]], vec![]);
    let mut expected = Vec::new();
    expected.extend(le(1, 8));
    expected.extend(vec![4u8, 3, 2, 1]);
    expected.push(0);
    expected.push(1);
    expected.extend(le(1, 8));
    expected.extend(vec![0x11u8; 32]);
    expected.push(1);
    expected.extend(le(0, 8));
    assert_eq!(msg.serialize_ctrbc(), expected);
}

#[test]
fn serialize_ctrbc_ignores_share_batch() {
    let a = BeaconMsg::new(7, 12, sample_batch(), vec![[0xB0u8; 32]], sample_round_vals());
    let b = BeaconMsg::new(7, 12, BatchWSSMsg::empty(), vec![[0xB0u8; 32]], sample_round_vals());
    assert_eq!(a.serialize_ctrbc(), b.serialize_ctrbc());
    let c = BeaconMsg::new(7, 13, BatchWSSMsg::empty(), vec![[0xB0u8; 32]], sample_round_vals());
    assert_ne!(a.serialize_ctrbc(), c.serialize_ctrbc());
}

#[test]
fn init_returns_the_message() {
    let msg = sample_beacon().init();
    assert_eq!(msg.round, 12);
    let wrapped = WrapperMsg::new(CoinMsg::BeaconValue(3, 4, 99), 4, [1u8; 32], 3).init();
    assert_eq!(wrapped.sender, 4);
}

#[test]
fn verify_proofs_accepts_matching_batch() {
    assert!(sample_beacon().verify_proofs(&accepting_digests()));
}

#[test]
fn verify_proofs_without_batch_is_true() {
    let msg = BeaconMsg::new_with_appx(2, 5, vec![]);
    assert!(msg.verify_proofs(&vec![]));
}

#[test]
fn verify_proofs_rejects_wrong_commitment_hash() {
    let mut digests = accepting_digests();
    digests[1].commitment_hash = [0u8; 32];
    assert!(!sample_beacon().verify_proofs(&digests));
}

#[test]
fn verify_proofs_rejects_invalid_proof() {
    let mut digests = accepting_digests();
    digests[0].proof_valid = false;
    assert!(!sample_beacon().verify_proofs(&digests));
}

#[test]
fn verify_proofs_rejects_wrong_leaf() {
    let mut digests = accepting_digests();
    digests[1].leaf_hash = [0xA0u8; 32];
    assert!(!sample_beacon().verify_proofs(&digests));
}

#[test]
fn verify_proofs_rejects_wrong_root() {
    let msg = BeaconMsg::new(7, 12, sample_batch(), vec![[0xB0u8; 32], [0xB0u8; 32]], vec![]);
    assert!(!msg.verify_proofs(&accepting_digests()));
}

#[test]
fn verify_proofs_stops_at_first_failure() {
    // The second share has no root and no digest; the first share fails first.
    let mut digests = accepting_digests();
    digests[0].proof_valid = false;
    digests.truncate(1);
    let msg = BeaconMsg::new(7, 12, sample_batch(), vec![[0xB0u8; 32]], vec![]);
    assert!(!msg.verify_proofs(&digests));
}

#[test]
fn ctrbc_new_and_verify_mr_proof() {
    let msg = CTRBCMsg::new(vec![1, 2, 3], sample_proof(1, 2), 8, 3);
    assert_eq!(msg.round, 8);
    assert_eq!(msg.origin, 3);
    assert!(msg.verify_mr_proof(|mp: &MerkleProof, shard: &Vec<u8>| shard.len() == 3 && mp.lemma.len() == 3));
    assert!(!msg.verify_mr_proof(|_: &MerkleProof, shard: &Vec<u8>| shard.is_empty()));
}

#[test]
fn batch_empty_and_wss_new() {
    let b = BatchWSSMsg::empty();
    assert!(b.secrets.is_empty() && b.commitments.is_empty() && b.mps.is_empty());
    assert_eq!(b.origin, 0);
    assert!(!b.empty);
    let w = WSSMsg::new(vec![4], 2, (vec![5], [6u8; 32]), sample_proof(1, 2));
    assert_eq!(w.secret, vec![4]);
    assert_eq!(w.origin, 2);
    assert_eq!(w.commitment.1, [6u8; 32]);
    let d = w.duplicate();
    assert_eq!(d.commitment.0, vec![5]);
}

#[test]
fn merkle_item_and_root() {
    let p = sample_proof(0x10, 0x20);
    assert_eq!(p.item(), [0x10u8; 32]);
    assert_eq!(p.root(), [0x20u8; 32]);
}

#[test]
fn wrapper_new_sets_fields() {
    let mac: Digest = [3u8; 32];
    let w = WrapperMsg::new(CoinMsg::BeaconValue(1, 2, 3), 5, mac, 6);
    assert_eq!(w.sender, 5);
    assert_eq!(w.mac, mac);
    assert_eq!(w.round, 6);
    assert!(matches!(w.protmsg, CoinMsg::BeaconValue(1, 2, 3)));
}

#[test]
fn copy_round_vals_is_equal() {
    assert_eq!(copy_round_vals(&sample_round_vals()), sample_round_vals());
}

#[test]
fn commitment_preimage_adds_signed_values() {
    assert_eq!(commitment_preimage(&[1], &[2]), vec![3]);
    assert_eq!(commitment_preimage(&[0x7f], &[1]), vec![0x00, 0x80]);
    assert_eq!(commitment_preimage(&[0xff], &[1]), vec![0]);
    assert_eq!(commitment_preimage(&[0x80], &[0xff]), vec![0xff, 0x7f]);
    assert_eq!(commitment_preimage(&[], &[]), vec![0]);
    assert_eq!(commitment_preimage(&[0x00, 0x05], &[0x01, 0x00]), vec![0x01, 0x05]);
}

#[test]
fn commitment_preimage_is_symmetric() {
    let a = vec![0x12u8, 0x34, 0x56];
    let b = vec![0xfeu8, 0x00];
    assert_eq!(commitment_preimage(&a, &b), commitment_preimage(&b, &a));
}

#[test]
fn serialize_ctrbc_tells_headers_apart() {
    let base = BeaconMsg::new(7, 12, sample_batch(), vec![[0xB0u8; 32]], sample_round_vals());
    let other_vals = BeaconMsg::new(
        7,
        12,
        BatchWSSMsg::empty(),
        vec![[0xB0u8; 32]],
        vec![(3u32, vec![(1usize, vec![5u8, 7u8]), (2usize, vec![])]), (4u32, vec![])],
    );
    let other_roots = BeaconMsg::new(7, 12, BatchWSSMsg::empty(), vec![[0xB1u8; 32]], sample_round_vals());
    let other_origin = BeaconMsg::new(8, 12, BatchWSSMsg::empty(), vec![[0xB0u8; 32]], sample_round_vals());
    let no_roots = BeaconMsg::new_with_appx(7, 12, sample_round_vals());
    assert_ne!(base.serialize_ctrbc(), other_vals.serialize_ctrbc());
    assert_ne!(base.serialize_ctrbc(), other_roots.serialize_ctrbc());
    assert_ne!(base.serialize_ctrbc(), other_origin.serialize_ctrbc());
    assert_ne!(base.serialize_ctrbc(), no_roots.serialize_ctrbc());
}
