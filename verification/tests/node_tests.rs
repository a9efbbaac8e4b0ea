use std::collections::HashSet;

use beacon::{
    BeaconMsg, CoinCheckPlan, Context, MerkleProof, RoundPlan, ShareOutcome, SharePackage,
    ShareStep, WSSMsg,
};

fn ctx() -> Context {
    Context {
        myid: 1,
        num_nodes: 4,
        num_faults: 1,
        batch_size: 3,
        frequency: 5,
        max_rounds: 100,
        rounds_aa: 4,
        curr_round: 10,
    }
}

fn sample_proof(tag: u8) -> MerkleProof {
    MerkleProof { lemma: vec![[tag; 32], [0u8; 32], [tag.wrapping_add(100); 32]], path: vec![false] }
}

fn package(b: u8, i: u8) -> SharePackage {
    SharePackage {
        share: vec![b, i],
        nonce: vec![i, b, 1],
        commitment: [b * 16 + i; 32],
        proof: sample_proof(b * 16 + i),
    }
}

#[test]
fn round_plan_next_round() {
    let c = ctx();
    assert_eq!(c.new_round_plan(14), Some(RoundPlan { new_round: 15, batch_sharing: true, advance: true }));
    assert_eq!(c.new_round_plan(10), Some(RoundPlan { new_round: 11, batch_sharing: false, advance: true }));
}

#[test]
fn round_plan_stale_round() {
    let c = ctx();
    assert_eq!(c.new_round_plan(9), None);
    let mut late = ctx();
    late.curr_round = 101;
    assert_eq!(late.new_round_plan(200), None);
}

#[test]
fn round_plan_cap_wraps_to_zero() {
    let mut c = ctx();
    c.curr_round = 30000;
    assert_eq!(c.new_round_plan(20000), Some(RoundPlan { new_round: 0, batch_sharing: true, advance: false }));
}

#[test]
fn committee_round_rounds_up() {
    let c = ctx();
    // 10 + 4 + 3 = 17, next multiple of 5 is 20
    assert_eq!(c.committee_round(10), 20);
    // 13 + 4 + 3 = 20 is already a multiple
    assert_eq!(c.committee_round(13), 20);
    let mut one = ctx();
    one.frequency = 1;
    assert_eq!(one.committee_round(10), 17);
}

#[test]
fn batch_beacon_msgs_transposes_shares() {
    let c = ctx();
    let shares: Vec<Vec<SharePackage>> =
        (0..2u8).map(|b| (0..4u8).map(|i| package(b, i)).collect()).collect();
    let roots = vec![[0xE0u8; 32], [0xE1u8; 32]];
    let vals = vec![(1u32, vec![(2usize, vec![3u8])])];
    let msgs = c.batch_beacon_msgs(6, &shares, &roots, &vals);
    assert_eq!(msgs.len(), 4);
    for (i, (rep, msg)) in msgs.iter().enumerate() {
        assert_eq!(*rep, i + 1);
        assert_eq!(msg.origin, 1);
        assert_eq!(msg.round, 6);
        assert_eq!(msg.root_vec, Some(roots.clone()));
        assert_eq!(msg.appx_con, Some(vals.clone()));
        let w = msg.wss.as_ref().unwrap();
        assert_eq!(w.origin, 1);
        assert_eq!(w.secrets, vec![vec![0u8, i as u8], vec![1u8, i as u8]]);
        assert_eq!(w.commitments[1], (vec![i as u8, 1, 1], [16 + i as u8; 32]));
        assert_eq!(w.mps[0].lemma[0], [i as u8; 32]);
    }
    let first = msgs[0].1.serialize_ctrbc();
    for (_, msg) in msgs.iter() {
        assert_eq!(msg.serialize_ctrbc(), first);
    }
}

#[test]
fn batch_beacon_msgs_skips_missing_entries() {
    let c = ctx();
    let shares: Vec<Vec<SharePackage>> =
        vec![(0..2u8).map(|i| package(0, i)).collect(), (0..4u8).map(|i| package(1, i)).collect()];
    let msgs = c.batch_beacon_msgs(6, &shares, &vec![], &vec![]);
    assert_eq!(msgs[1].1.wss.as_ref().unwrap().secrets, vec![vec![0u8, 1], vec![1u8, 1]]);
    assert_eq!(msgs[3].1.wss.as_ref().unwrap().secrets, vec![vec![1u8, 3]]);
}

#[test]
fn appx_beacon_msgs_for_each_node() {
    let c = ctx();
    let vals = vec![(1u32, vec![(2usize, vec![3u8])])];
    let msgs = c.appx_beacon_msgs(7, &vals);
    assert_eq!(msgs.len(), 4);
    for (i, (rep, msg)) in msgs.iter().enumerate() {
        assert_eq!(*rep, i + 1);
        assert!(msg.wss.is_none() && msg.root_vec.is_none());
        assert_eq!(msg.appx_con, Some(vals.clone()));
        assert_eq!(msg.serialize_ctrbc(), msgs[0].1.serialize_ctrbc());
    }
}

#[test]
fn rbc_init_actions_pairs_shards() {
    let c = ctx();
    let msgs: Vec<(usize, BeaconMsg)> =
        (1..=4usize).map(|rep| (rep, BeaconMsg::new_with_appx(1, 6, vec![]))).collect();
    let shards: Vec<Vec<u8>> = (0..4u8).map(|i| vec![i; 3]).collect();
    let proofs: Vec<MerkleProof> = (0..4u8).map(sample_proof).collect();
    let inits = c.rbc_init_actions(6, msgs, &shards, &proofs);
    assert_eq!(inits.len(), 4);
    for (k, init) in inits.iter().enumerate() {
        assert_eq!(init.to, k);
        assert_eq!(init.local, k == 1);
        assert_eq!(init.ctrbc.shard, vec![k as u8; 3]);
        assert_eq!(init.ctrbc.mp.lemma[0], [k as u8; 32]);
        assert_eq!(init.ctrbc.round, 6);
        assert_eq!(init.ctrbc.origin, 1);
        assert_eq!(init.beacon.round, 6);
    }
}

#[test]
fn pending_coins_lists_unreconstructed() {
    let c = ctx();
    let mut done = HashSet::new();
    done.insert(1usize);
    assert_eq!(c.pending_coins(&done), vec![0, 2]);
    assert_eq!(c.pending_coins(&HashSet::new()), vec![0, 1, 2]);
}

#[test]
fn next_coin_cases() {
    let c = ctx();
    assert_eq!(c.next_coin(1, &vec![]), Some(1));
    assert_eq!(c.next_coin(1, &vec![(0, vec![9]), (1, vec![8])]), Some(2));
    assert_eq!(c.next_coin(0, &vec![(1, vec![8])]), Some(0));
    assert_eq!(c.next_coin(1, &vec![(2, vec![8])]), None);
    assert_eq!(c.next_coin(3, &vec![]), None);
}

#[test]
fn reconstruct_plan_outputs_every_ready_coin() {
    let c = ctx();
    let past = c.reconstruct_plan(1, &vec![(1, vec![9]), (2, vec![8])]);
    assert_eq!(past.next_coin, None);
    assert_eq!(past.output_coins, vec![1, 2]);
    let first = c.reconstruct_plan(0, &vec![(1, vec![8])]);
    assert_eq!(first.next_coin, Some(0));
    assert_eq!(first.output_coins, vec![1]);
    let later = c.reconstruct_plan(1, &vec![(0, vec![7])]);
    assert_eq!(later.next_coin, Some(1));
    assert_eq!(later.output_coins, vec![0]);
    let none_ready = c.reconstruct_plan(2, &vec![]);
    assert_eq!(none_ready.next_coin, Some(2));
    assert!(none_ready.output_coins.is_empty());
}

#[test]
fn committee_shares_keeps_members_in_order() {
    let mut committee = HashSet::new();
    committee.insert(2usize);
    committee.insert(4usize);
    let shares: Vec<(usize, WSSMsg)> = (1..=4usize)
        .map(|r| (r, WSSMsg::new(vec![r as u8], r, (vec![], [0u8; 32]), sample_proof(r as u8))))
        .collect();
    let kept = Context::committee_shares(shares, &committee);
    let reps: Vec<usize> = kept.iter().map(|(r, _)| *r).collect();
    assert_eq!(reps, vec![2, 4]);
    assert_eq!(kept[1].1.secret, vec![4u8]);
}

#[test]
fn accepts_shares_cases() {
    let c = ctx();
    assert!(c.accepts_shares(0, false, false));
    assert!(!c.accepts_shares(0, true, false));
    assert!(c.accepts_shares(1, true, false));
    assert!(!c.accepts_shares(1, false, true));
}

#[test]
fn share_step_cases() {
    let c = ctx();
    assert_eq!(c.share_step(1, ShareOutcome::AlreadyReconstructed), ShareStep::Stop);
    assert_eq!(c.share_step(1, ShareOutcome::Invalid), ShareStep::NextShare);
    assert_eq!(c.share_step(1, ShareOutcome::SecretPending), ShareStep::NextShare);
    assert_eq!(c.share_step(1, ShareOutcome::CoinPending), ShareStep::NextShare);
    assert_eq!(c.share_step(1, ShareOutcome::CoinReady), ShareStep::CoinDone { next_coin: Some(2) });
    assert_eq!(c.share_step(2, ShareOutcome::CoinReady), ShareStep::CoinDone { next_coin: None });
    assert_eq!(c.share_step(0, ShareOutcome::CoinReady), ShareStep::CoinDone { next_coin: None });
}

#[test]
fn coin_check_plan_cases() {
    let c = ctx();
    let mut done = HashSet::new();
    done.insert(0usize);
    assert_eq!(
        c.coin_check_plan(10, 0, &done),
        CoinCheckPlan { clear_state: false, committee_round: Some(20), batch_finished: false }
    );
    done.insert(1);
    done.insert(2);
    assert_eq!(
        c.coin_check_plan(10, 2, &done),
        CoinCheckPlan { clear_state: true, committee_round: None, batch_finished: true }
    );
    let mut partial = HashSet::new();
    partial.insert(1usize);
    assert_eq!(
        c.coin_check_plan(10, 1, &partial),
        CoinCheckPlan { clear_state: false, committee_round: None, batch_finished: false }
    );
}

#[test]
fn dealt_batch_passes_verification() {
    let c = ctx();
    let roots = vec![[100u8; 32], [116u8; 32]];
    let shares: Vec<Vec<SharePackage>> = (0..2u8)
        .map(|b| {
            (0..4u8)
                .map(|i| {
                    let mut p = package(b, i);
                    p.proof.lemma[2] = roots[b as usize];
                    p
                })
                .collect()
        })
        .collect();
    let msgs = c.batch_beacon_msgs(6, &shares, &roots, &vec![]);
    for (i, (_, msg)) in msgs.iter().enumerate() {
        let digests: Vec<beacon::ShareDigest> = (0..2usize)
            .map(|b| beacon::ShareDigest {
                commitment_hash: shares[b][i].commitment,
                proof_valid: true,
                leaf_hash: shares[b][i].proof.lemma[0],
            })
            .collect();
        assert!(msg.verify_proofs(&digests));
        let mut wrong = digests.clone();
        wrong[1].commitment_hash = [0xFFu8; 32];
        assert!(!msg.verify_proofs(&wrong));
    }
}

#[test]
fn rbc_init_wrapper_sets_sender_and_round() {
    let c = ctx();
    let msgs: Vec<(usize, BeaconMsg)> = vec![(3, BeaconMsg::new_with_appx(1, 6, vec![]))];
    let shards: Vec<Vec<u8>> = (0..4u8).map(|i| vec![i; 2]).collect();
    let proofs: Vec<MerkleProof> = (0..4u8).map(sample_proof).collect();
    let mut inits = c.rbc_init_actions(6, msgs, &shards, &proofs);
    let init = inits.remove(0);
    assert_eq!(init.to, 2);
    let w = c.rbc_init_wrapper(6, init, [7u8; 32]);
    assert_eq!(w.sender, 1);
    assert_eq!(w.round, 6);
    assert_eq!(w.mac, [7u8; 32]);
    match w.protmsg {
        beacon::CoinMsg::CTRBCInit(b, ctrbc) => {
            assert_eq!(b.round, 6);
            assert_eq!(ctrbc.shard, vec![2u8; 2]);
        }
        _ => panic!("expected a reliable-broadcast init"),
    }
}
