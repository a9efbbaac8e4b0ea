use vstd::prelude::*;

use std::collections::HashSet;

use crate::codec::ctrbc_encoding;
use crate::msg::{
    batch_checkable, copy_hashes, copy_round_vals, copy_val, share_accepted, share_checkable,
    shares_accepted_before, BatchWSSMsg, BatchWSSView, BeaconMsg, BeaconView, CTRBCMsg, CTRBCView,
    CoinMsg, Digest, MerkleProof, MerkleProofView, Replica, Round, RoundVals, ShareDigest, Val, WrapperMsg,
};

verus! {

/// The parameters and round counter of a beacon node that its round and
/// reconstruction decisions read.
pub struct Context {
    /// This node's index.
    pub myid: Replica,
    /// Number of nodes.
    pub num_nodes: usize,
    /// Number of faults tolerated.
    pub num_faults: usize,
    /// Number of secrets (beacons) shared per batch.
    pub batch_size: usize,
    /// A new batch of secrets is shared every `frequency` rounds.
    pub frequency: u32,
    /// Rounds after this one start no new round.
    pub max_rounds: Round,
    /// Rounds of approximate agreement that follow a batch.
    pub rounds_aa: u32,
    /// The round the node is in.
    pub curr_round: Round,
}

/// What starting the round after `round` does: the number of the new round,
/// whether a new batch of secrets is shared in it, and whether the node then
/// moves on to the following round (not after the cap, where the new round
/// is `0`).
#[derive(PartialEq, Eq, Structural, Debug, Clone, Copy)]
pub struct RoundPlan {
    pub new_round: Round,
    pub batch_sharing: bool,
    pub advance: bool,
}

/// The round after `round`: round `20000` is the cap and wraps to `0`;
/// otherwise the next round.
pub open spec fn next_round_number(round: Round) -> int {
    if round == 20000 {
        0
    } else {
        round + 1
    }
}

/// Away from the cap the round after `round` is `round + 1`; the cap, round
/// `20000`, wraps to round `0`.
pub proof fn lemma_next_round_is_successor(round: Round)
    ensures
        round != 20000 ==> next_round_number(round) == round + 1,
        round == 20000 ==> next_round_number(round) == 0,
{
}

/// The least multiple of `f` that is at least `r`.
pub open spec fn round_up_to_multiple(r: int, f: int) -> int {
    if r % f == 0 {
        r
    } else {
        (r / f + 1) * f
    }
}

/// `round_up_to_multiple(r, f)` is a multiple of `f`, at least `r`, and less
/// than `r + f`: no smaller multiple of `f` is at least `r`.
pub proof fn lemma_round_up_is_least_multiple(r: int, f: int)
    requires
        r >= 0,
        f > 0,
    ensures
        round_up_to_multiple(r, f) % f == 0,
        r <= round_up_to_multiple(r, f) < r + f,
        forall|m: int| #![trigger m % f] r <= m && m % f == 0 ==> round_up_to_multiple(r, f) <= m,
{
    let q = r / f;
    assert(r == q * f + r % f && 0 <= r % f < f) by (nonlinear_arith)
        requires
            f > 0,
            q == r / f,
    ;
    if r % f != 0 {
        assert(((q + 1) * f) % f == 0) by (nonlinear_arith)
            requires
                f > 0,
        ;
        assert((q + 1) * f == q * f + f) by (nonlinear_arith);
    }
    assert forall|m: int| #![trigger m % f] r <= m && m % f == 0 implies round_up_to_multiple(r, f)
        <= m by {
        let k = m / f;
        assert(m == k * f) by (nonlinear_arith)
            requires
                f > 0,
                k == m / f,
                m % f == 0,
        ;
        if r % f != 0 {
            // m > q * f since m >= r > q * f; so k > q, k >= q + 1
            assert(k * f > q * f);
            assert(k > q) by (nonlinear_arith)
                requires
                    k * f > q * f,
                    f > 0,
            ;
            assert((q + 1) * f <= k * f) by (nonlinear_arith)
                requires
                    q + 1 <= k,
                    f > 0,
            ;
        }
    }
}

/// Starting reliable broadcast toward one node: the node, whether it is this
/// node itself (then the message is processed locally instead of sent), the
/// node's beacon message and its shard of the broadcast bytes.
pub struct RbcInit {
    pub to: Replica,
    pub local: bool,
    pub beacon: BeaconMsg,
    pub ctrbc: CTRBCMsg,
}

/// Coins `0..n` of a batch that are not yet reconstructed, in increasing order.
pub open spec fn pending_prefix(n: int, done: Set<usize>) -> Seq<usize>
    decreases n,
{
    if n <= 0 {
        seq![]
    } else {
        pending_prefix(n - 1, done) + if done.contains((n - 1) as usize) {
            seq![]
        } else {
            seq![(n - 1) as usize]
        }
    }
}

/// The pending coins below `n` are listed in strictly increasing order, and a
/// coin is listed exactly when it is below `n` and not yet reconstructed.
pub proof fn lemma_pending_prefix_members(n: int, done: Set<usize>)
    requires
        0 <= n <= usize::MAX,
    ensures
        forall|j: int, k: int|
            0 <= j < k < pending_prefix(n, done).len() ==> pending_prefix(n, done)[j] < pending_prefix(
                n,
                done,
            )[k],
        forall|c: usize| #[trigger]
            pending_prefix(n, done).contains(c) <==> (c < n && !done.contains(c)),
    decreases n,
{
    if n > 0 {
        lemma_pending_prefix_members(n - 1, done);
        let prev = pending_prefix(n - 1, done);
        let last = (n - 1) as usize;
        assert forall|k: int| 0 <= k < prev.len() implies prev[k] < n - 1 by {
            assert(prev.contains(prev[k]));
        }
        if done.contains(last) {
            assert(pending_prefix(n, done) =~= prev);
        } else {
            assert(pending_prefix(n, done) =~= prev.push(last));
            assert forall|c: usize| #[trigger]
                pending_prefix(n, done).contains(c) <==> (c < n && !done.contains(c)) by {
                if c == last {
                    assert(pending_prefix(n, done)[prev.len() as int] == c);
                    assert(pending_prefix(n, done).contains(c));
                } else if pending_prefix(n, done).contains(c) {
                    let k = choose|k: int| 0 <= k < pending_prefix(n, done).len() && pending_prefix(n, done)[k] == c;
                    assert(k < prev.len());
                    assert(prev[k] == c);
                    assert(prev.contains(c));
                } else if c < n && !done.contains(c) {
                    assert(prev.contains(c));
                    let k = choose|k: int| 0 <= k < prev.len() && prev[k] == c;
                    assert(pending_prefix(n, done)[k] == c);
                }
            }
        }
    } else {
        assert(pending_prefix(n, done) =~= Seq::<usize>::empty());
    }
}

/// The entries of `s` whose node is in `committee`, in order.
pub open spec fn committee_entries<T>(s: Seq<(Replica, T)>, committee: Set<Replica>) -> Seq<(Replica, T)>
    decreases s.len(),
{
    if s.len() == 0 {
        seq![]
    } else {
        committee_entries(s.drop_last(), committee) + if committee.contains(s.last().0) {
            seq![s.last()]
        } else {
            seq![]
        }
    }
}

/// The entries kept for a committee are exactly those of `s` whose node is in
/// the committee, wherever they stand, in their order in `s`.
pub proof fn lemma_committee_entries_filter<T>(s: Seq<(Replica, T)>, committee: Set<Replica>)
    ensures
        committee_entries(s, committee) == s.filter(|e: (Replica, T)| committee.contains(e.0)),
    decreases s.len(),
{
    reveal(Seq::filter);
    if s.len() > 0 {
        lemma_committee_entries_filter(s.drop_last(), committee);
        if committee.contains(s.last().0) {
            assert(committee_entries(s, committee) =~= s.drop_last().filter(
                |e: (Replica, T)| committee.contains(e.0),
            ).push(s.last()));
        } else {
            assert(committee_entries(s, committee) =~= s.drop_last().filter(
                |e: (Replica, T)| committee.contains(e.0),
            ));
        }
    } else {
        assert(committee_entries(s, committee) =~= s);
    }
}

/// What a reconstruction request comes to: the coin whose shares are sent
/// next, if any, and the ready coins that are output, in order.
#[derive(Debug)]
pub struct ReconstructPlan {
    pub next_coin: Option<usize>,
    pub output_coins: Vec<usize>,
}

/// What processing one received share found.
#[derive(PartialEq, Eq, Structural, Debug, Clone, Copy)]
pub enum ShareOutcome {
    /// The coin was already reconstructed.
    AlreadyReconstructed,
    /// The share failed validation.
    Invalid,
    /// Not enough shares yet to reconstruct the secret.
    SecretPending,
    /// The secret is reconstructed, but not every secret the coin needs is.
    CoinPending,
    /// The coin is reconstructed.
    CoinReady,
}

/// What to do after one received share.
#[derive(PartialEq, Eq, Structural, Debug, Clone, Copy)]
pub enum ShareStep {
    /// Stop processing the received shares.
    Stop,
    /// Go on with the next received share.
    NextShare,
    /// The coin is done: hand it out, start reconstructing `next_coin` if there
    /// is one, and stop processing the received shares.
    CoinDone { next_coin: Option<usize> },
}

/// What checking a reconstructed coin leads to.
#[derive(PartialEq, Eq, Structural, Debug, Clone, Copy)]
pub struct CoinCheckPlan {
    /// Every secret of the batch is reconstructed: the round's state can go.
    pub clear_state: bool,
    /// The coin elects the committee of this round.
    pub committee_round: Option<Round>,
    /// The last coin of the batch is reconstructed.
    pub batch_finished: bool,
}

/// One node's share of one secret of a batch, as the dealer hands it out:
/// the share, the nonce share, the commitment hash of the two, and the Merkle
/// proof of that commitment in the secret's commitment tree.
pub struct SharePackage {
    pub share: Val,
    pub nonce: Val,
    pub commitment: Digest,
    pub proof: MerkleProof,
}

/// The mathematical content of a [`SharePackage`].
pub struct SharePackageView {
    pub share: Seq<u8>,
    pub nonce: Seq<u8>,
    pub commitment: Digest,
    pub proof: MerkleProofView,
}

impl View for SharePackage {
    type V = SharePackageView;

    open spec fn view(&self) -> SharePackageView {
        SharePackageView {
            share: self.share@,
            nonce: self.nonce@,
            commitment: self.commitment,
            proof: self.proof@,
        }
    }
}

/// The packages of a batch, secret by secret and node by node.
pub open spec fn packages_view(rows: Seq<Vec<SharePackage>>) -> Seq<Seq<SharePackageView>> {
    Seq::new(rows.len(), |b: int| Seq::new(rows[b]@.len(), |i: int| rows[b]@[i]@))
}

/// Column `i` of the rows: entry `i` of each row, in row order, skipping rows
/// that have no entry `i`.
pub open spec fn share_column<T>(rows: Seq<Seq<T>>, i: int) -> Seq<T>
    decreases rows.len(),
{
    if rows.len() == 0 {
        seq![]
    } else {
        share_column(rows.drop_last(), i) + if 0 <= i < rows.last().len() {
            seq![rows.last()[i]]
        } else {
            seq![]
        }
    }
}

/// Every secret of the batch has a package for node `i`.
pub open spec fn every_row_has(shares: Seq<Vec<SharePackage>>, i: int) -> bool {
    forall|c: int| 0 <= c < shares.len() ==> i < #[trigger] shares[c]@.len()
}

/// Entry `b` of batch `w` is package `p`: its share, its nonce with its
/// commitment, and its whole Merkle proof (lemma and path).
pub open spec fn holds_entry(w: BatchWSSView, p: SharePackageView, b: int) -> bool {
    &&& w.secrets[b] == p.share
    &&& w.commitments[b] == (p.nonce, p.commitment)
    &&& w.mps[b].lemma == p.proof.lemma
    &&& w.mps[b].path == p.proof.path
}

/// The batch that node `i` (counting from 0) receives from dealer `origin`:
/// its package of each secret.
pub open spec fn batch_for(rows: Seq<Seq<SharePackageView>>, origin: Replica, i: int) -> BatchWSSView {
    let col = share_column(rows, i);
    BatchWSSView {
        secrets: Seq::new(col.len(), |k: int| col[k].share),
        origin: origin,
        commitments: Seq::new(col.len(), |k: int| (col[k].nonce, col[k].commitment)),
        mps: Seq::new(col.len(), |k: int| col[k].proof),
        empty: false,
    }
}

/// The batch that node `i` receives from dealer `origin` holds, for each
/// secret in which the dealer has an entry for node `i` (in the order of the
/// secrets), that entry's share, its nonce with its commitment, and its whole
/// Merkle proof, lemma and path alike; it is marked as not empty.
pub proof fn lemma_batch_for_entries(rows: Seq<Seq<SharePackageView>>, origin: Replica, i: int)
    ensures
        ({
            let w = batch_for(rows, origin, i);
            let col = share_column(rows, i);
            &&& w.origin == origin
            &&& !w.empty
            &&& w.secrets.len() == col.len()
            &&& w.commitments.len() == col.len()
            &&& w.mps.len() == col.len()
            &&& forall|k: int|
                0 <= k < col.len() ==> {
                    &&& #[trigger] w.mps[k].lemma == col[k].proof.lemma
                    &&& w.mps[k].path == col[k].proof.path
                    &&& w.secrets[k] == col[k].share
                    &&& w.commitments[k] == (col[k].nonce, col[k].commitment)
                }
        }),
{
}

/// When every row has an entry `i`, column `i` holds entry `i` of each row.
pub proof fn lemma_full_column<T>(rows: Seq<Seq<T>>, i: int)
    requires
        0 <= i,
        forall|b: int| 0 <= b < rows.len() ==> i < #[trigger] rows[b].len(),
    ensures
        share_column(rows, i) == Seq::new(rows.len(), |b: int| rows[b][i]),
    decreases rows.len(),
{
    if rows.len() > 0 {
        lemma_full_column(rows.drop_last(), i);
        assert(share_column(rows, i) =~= Seq::new(rows.len(), |b: int| rows[b][i]));
    } else {
        assert(share_column(rows, i) =~= Seq::new(rows.len(), |b: int| rows[b][i]));
    }
}

/// A batch that an honest dealer hands to node `i` passes the node's checks.
/// The dealer's rows have an entry for node `i` in every secret; the proof in
/// each entry has at least two lemma entries and ends at that secret's root;
/// and the node's digests for secret `b` are the dealer's commitment hash, a
/// validating proof, and the proof's own leaf. Then the message that
/// `batch_beacon_msgs` builds for node `i` passes `verify_proofs`, and its
/// checks never index past its parts.
pub proof fn lemma_dealt_batch_verifies(
    rows: Seq<Seq<SharePackageView>>,
    origin: Replica,
    i: int,
    roots: Seq<Digest>,
    msg: BeaconMsg,
    digests: Seq<ShareDigest>,
)
    requires
        0 <= i,
        roots.len() == rows.len(),
        digests.len() == rows.len(),
        forall|b: int| 0 <= b < rows.len() ==> i < #[trigger] rows[b].len(),
        forall|b: int|
            0 <= b < rows.len() ==> {
                &&& #[trigger] rows[b][i].proof.lemma.len() >= 2
                &&& rows[b][i].proof.lemma.last() == roots[b]
                &&& digests[b].commitment_hash == rows[b][i].commitment
                &&& digests[b].proof_valid
                &&& digests[b].leaf_hash == rows[b][i].proof.lemma[0]
            },
        msg@.wss == Some(batch_for(rows, origin, i)),
        msg@.root_vec == Some(roots),
    ensures
        msg.proofs_hold(digests),
        batch_checkable(batch_for(rows, origin, i), Some(roots), digests),
{
    lemma_full_column(rows, i);
    let w = batch_for(rows, origin, i);
    assert(msg.wss is Some);
    assert(msg.wss->0@ == w);
    assert forall|b: int| 0 <= b < w.secrets.len() implies share_accepted(w, Some(roots), digests, b) by {
        assert(rows[b][i].proof.lemma.len() >= 2);
    }
    assert forall|b: int|
        0 <= b < w.secrets.len() && shares_accepted_before(w, Some(roots), digests, b) implies #[trigger] share_checkable(
        w,
        Some(roots),
        digests,
        b,
    ) by {
        assert(rows[b][i].proof.lemma.len() >= 2);
    }
}

impl Context {
    /// The batch of shares for node `i` (counting from 0): its package of each
    /// secret of the batch.
    #[verifier::spinoff_prover]
    #[verifier::rlimit(40)]
    fn batch_for_node(&self, shares: &Vec<Vec<SharePackage>>, i: usize) -> (w: BatchWSSMsg)
        ensures
            w@ == batch_for(packages_view(shares@), self.myid, i as int),
    {
        let ghost rows = packages_view(shares@);
        let mut secrets: Vec<Val> = Vec::new();
        let mut commitments: Vec<(Val, Digest)> = Vec::new();
        let mut mps: Vec<MerkleProof> = Vec::new();
        for b in 0..shares.len()
            invariant
                rows == packages_view(shares@),
                ({
                    let col = share_column(rows.take(b as int), i as int);
                    &&& secrets@.len() == col.len()
                    &&& commitments@.len() == col.len()
                    &&& mps@.len() == col.len()
                    &&& forall|k: int| 0 <= k < col.len() ==> #[trigger] secrets@[k]@ == col[k].share
                    &&& forall|k: int|
                        0 <= k < col.len() ==> #[trigger] commitments@[k].0@ == col[k].nonce
                            && commitments@[k].1 == col[k].commitment
                    &&& forall|k: int| 0 <= k < col.len() ==> #[trigger] mps@[k]@ == col[k].proof
                }),
        {
            let ghost prev_col = share_column(rows.take(b as int), i as int);
            assert(rows.take(b + 1).drop_last() =~= rows.take(b as int));
            assert(rows.take(b + 1).last() == rows[b as int]);
            assert(rows[b as int].len() == shares@[b as int]@.len());
            assert(share_column(rows.take(b + 1), i as int) == prev_col + if 0 <= i < rows[b as int].len() {
                seq![rows[b as int][i as int]]
            } else {
                seq![]
            });
            if i < shares[b].len() {
                let p = &shares[b][i];
                assert(rows[b as int][i as int] == p@);
                assert(share_column(rows.take(b + 1), i as int) =~= prev_col.push(p@));
                secrets.push(copy_val(&p.share));
                commitments.push((copy_val(&p.nonce), p.commitment));
                mps.push(p.proof.duplicate());
            } else {
                assert(share_column(rows.take(b + 1), i as int) =~= prev_col);
            }
        }
        assert(rows.take(shares.len() as int) =~= rows);
        let w = BatchWSSMsg::new(secrets, self.myid, commitments, mps);
        proof {
            let col = share_column(rows, i as int);
            assert(w@.secrets =~= batch_for(rows, self.myid, i as int).secrets) by {
                assert forall|k: int| 0 <= k < col.len() implies #[trigger] w@.secrets[k]
                    == col[k].share by {
                    assert(secrets@[k]@ == col[k].share);
                    assert(secrets@[k].deep_view() =~= secrets@[k]@);
                }
            }
            assert(w@.commitments =~= batch_for(rows, self.myid, i as int).commitments);
            assert(w@.mps =~= batch_for(rows, self.myid, i as int).mps);
        }
        w
    }

    /// The beacon messages of a round that shares a new batch: node `i + 1`
    /// gets, from this node, its batch of shares (`shares[b][i]` for each
    /// secret `b`), the Merkle roots of the commitments and the agreement
    /// values. Every message carries the same roots and values, so the bytes
    /// that go into reliable broadcast are the same for all of them.
    pub fn batch_beacon_msgs(
        &self,
        new_round: Round,
        shares: &Vec<Vec<SharePackage>>,
        roots: &Vec<Digest>,
        round_vals: &RoundVals,
    ) -> (msgs: Vec<(Replica, BeaconMsg)>)
        requires
            forall|b: int| 0 <= b < shares@.len() ==> #[trigger] shares@[b]@.len() <= self.num_nodes,
        ensures
            msgs@.len() == self.num_nodes,
            forall|i: int|
                0 <= i < self.num_nodes ==> {
                    &&& #[trigger] msgs@[i].0 == i + 1
                    &&& msgs@[i].1@ == (BeaconView {
                        origin: self.myid,
                        round: new_round,
                        wss: Some(batch_for(packages_view(shares@), self.myid, i)),
                        root_vec: Some(roots@),
                        appx_con: Some(round_vals.deep_view()),
                    })
                },
            forall|i: int, b: int|
                #![trigger holds_entry(msgs@[i].1@.wss->0, shares@[b]@[i]@, b)]
                0 <= i < self.num_nodes && 0 <= b < shares@.len() && every_row_has(shares@, i)
                    ==> holds_entry(msgs@[i].1@.wss->0, shares@[b]@[i]@, b),
            forall|i: int|
                0 <= i < self.num_nodes ==> #[trigger] msgs@[i].1.ctrbc_bytes() == ctrbc_encoding(
                    self.myid,
                    new_round,
                    Some(roots@),
                    Some(round_vals.deep_view()),
                ),
    {
        let mut msgs: Vec<(Replica, BeaconMsg)> = Vec::new();
        let mut i: usize = 0;
        while i < self.num_nodes
            invariant
                i <= self.num_nodes,
                msgs@.len() == i,
                forall|k: int|
                    0 <= k < i ==> {
                        &&& #[trigger] msgs@[k].0 == k + 1
                        &&& msgs@[k].1@ == (BeaconView {
                            origin: self.myid,
                            round: new_round,
                            wss: Some(batch_for(packages_view(shares@), self.myid, k)),
                            root_vec: Some(roots@),
                            appx_con: Some(round_vals.deep_view()),
                        })
                    },
            decreases self.num_nodes - i,
        {
            let w = self.batch_for_node(shares, i);
            let msg = BeaconMsg::new(self.myid, new_round, w, copy_hashes(roots), copy_round_vals(round_vals));
            assert(msg@ == (BeaconView {
                origin: self.myid,
                round: new_round,
                wss: Some(batch_for(packages_view(shares@), self.myid, i as int)),
                root_vec: Some(roots@),
                appx_con: Some(round_vals.deep_view()),
            }));
            let ghost mv = msg@;
            let ghost prev = msgs@;
            msgs.push((i + 1, msg));
            assert(msgs@[i as int].1@ == mv);
            assert(forall|k: int| 0 <= k < i ==> msgs@[k] == prev[k]);
            i = i + 1;
        }
        assert forall|i: int| 0 <= i < self.num_nodes implies #[trigger] msgs@[i].1.ctrbc_bytes()
            == ctrbc_encoding(self.myid, new_round, Some(roots@), Some(round_vals.deep_view())) by {
            assert(msgs@[i].0 == i + 1);
            assert(msgs@[i].1@.root_vec == Some(roots@));
        }
        proof {
            let rows = packages_view(shares@);
            assert forall|i: int, b: int|
                #![trigger holds_entry(msgs@[i].1@.wss->0, shares@[b]@[i]@, b)]
                0 <= i < self.num_nodes && 0 <= b < shares@.len() && every_row_has(shares@, i)
                    implies holds_entry(msgs@[i].1@.wss->0, shares@[b]@[i]@, b) by {
                assert forall|c: int| 0 <= c < rows.len() implies i < #[trigger] rows[c].len() by {
                    assert(rows[c].len() == shares@[c]@.len());
                }
                lemma_full_column(rows, i);
                assert(msgs@[i].0 == i + 1);
                assert(share_column(rows, i)[b] == rows[b][i]);
                assert(rows[b][i] == shares@[b]@[i]@);
                assert(msgs@[i].1@.wss == Some(batch_for(rows, self.myid, i)));
            }
        }
        msgs
    }

    /// Pairs each beacon message with its shard of the broadcast bytes: the
    /// message for node `rep` (counting from 1) goes to node `rep - 1` with
    /// shard `rep - 1` and its proof; it is processed locally when that node
    /// is this one.
    pub fn rbc_init_actions(
        &self,
        new_round: Round,
        beacon_msgs: Vec<(Replica, BeaconMsg)>,
        shards: &Vec<Val>,
        shard_proofs: &Vec<MerkleProof>,
    ) -> (inits: Vec<RbcInit>)
        requires
            shard_proofs@.len() == shards@.len(),
            forall|k: int|
                0 <= k < beacon_msgs@.len() ==> 1 <= #[trigger] beacon_msgs@[k].0 <= shards@.len(),
        ensures
            inits@.len() == beacon_msgs@.len(),
            forall|k: int|
                0 <= k < beacon_msgs@.len() ==> {
                    let to = beacon_msgs@[k].0 - 1;
                    &&& #[trigger] inits@[k].to == to
                    &&& inits@[k].local == (to == self.myid)
                    &&& inits@[k].beacon == beacon_msgs@[k].1
                    &&& inits@[k].ctrbc@ == (CTRBCView {
                        shard: shards@[to]@,
                        mp: shard_proofs@[to]@,
                        round: new_round,
                        origin: self.myid,
                    })
                },
    {
        let ghost orig = beacon_msgs@;
        let mut rest = beacon_msgs;
        let mut inits: Vec<RbcInit> = Vec::new();
        while rest.len() > 0
            invariant
                rest@ == orig.skip(inits@.len() as int),
                inits@.len() <= orig.len(),
                shard_proofs@.len() == shards@.len(),
                forall|k: int| 0 <= k < orig.len() ==> 1 <= #[trigger] orig[k].0 <= shards@.len(),
                forall|k: int|
                    0 <= k < inits@.len() ==> {
                        let to = orig[k].0 - 1;
                        &&& #[trigger] inits@[k].to == to
                        &&& inits@[k].local == (to == self.myid)
                        &&& inits@[k].beacon == orig[k].1
                        &&& inits@[k].ctrbc@ == (CTRBCView {
                            shard: shards@[to]@,
                            mp: shard_proofs@[to]@,
                            round: new_round,
                            origin: self.myid,
                        })
                    },
            decreases rest@.len(),
        {
            let ghost k = inits@.len() as int;
            assert(rest@[0] == orig[k]);
            let (rep, beacon) = rest.remove(0);
            assert(1 <= orig[k].0);
            let replica = rep - 1;
            let ctrbc = CTRBCMsg::new(
                copy_val(&shards[replica]),
                shard_proofs[replica].duplicate(),
                new_round,
                self.myid,
            );
            inits.push(RbcInit { to: replica, local: replica == self.myid, beacon, ctrbc });
            assert(rest@ =~= orig.skip(inits@.len() as int));
        }
        assert(inits@.len() == orig.len());
        inits
    }

    /// The wire message that starts reliable broadcast toward another node:
    /// the node's beacon message and shard, sent by this node for `new_round`
    /// and authenticated by `mac`.
    pub fn rbc_init_wrapper(&self, new_round: Round, init: RbcInit, mac: Digest) -> (wrapped: WrapperMsg)
        ensures
            wrapped.protmsg == CoinMsg::CTRBCInit(init.beacon, init.ctrbc),
            wrapped.sender == self.myid,
            wrapped.mac == mac,
            wrapped.round == new_round,
    {
        WrapperMsg::new(CoinMsg::CTRBCInit(init.beacon, init.ctrbc), self.myid, mac, new_round)
    }

    /// The coins of the batch still to check, in increasing order: those not
    /// yet reconstructed.
    pub fn pending_coins(&self, reconstructed: &HashSet<usize>) -> (coins: Vec<usize>)
        ensures
            coins@ == pending_prefix(self.batch_size as int, reconstructed@),
            forall|j: int, k: int| 0 <= j < k < coins@.len() ==> coins@[j] < coins@[k],
            forall|c: usize| #[trigger]
                coins@.contains(c) <==> (c < self.batch_size && !reconstructed@.contains(c)),
    {
        broadcast use vstd::std_specs::hash::group_hash_axioms;

        let mut coins: Vec<usize> = Vec::new();
        for coin in 0..self.batch_size
            invariant
                coins@ == pending_prefix(coin as int, reconstructed@),
        {
            if !reconstructed.contains(&coin) {
                coins.push(coin);
            }
        }
        proof {
            lemma_pending_prefix_members(self.batch_size as int, reconstructed@);
        }
        coins
    }

    /// The coin to reconstruct next: when a later reconstruction was asked
    /// for (`coin_number != 0`) and some coins turned out ready, the coin after
    /// the last ready one; otherwise `coin_number`. None when that is past the
    /// batch.
    pub fn next_coin(&self, coin_number: usize, ready: &Vec<(usize, Vec<u8>)>) -> (coin: Option<usize>)
        requires
            self.batch_size > 0,
            ready@.len() > 0 && coin_number != 0 ==> ready@.last().0 < usize::MAX,
        ensures
            ({
                let c = if ready@.len() > 0 && coin_number != 0 {
                    ready@.last().0 + 1
                } else {
                    coin_number as int
                };
                coin == if c > self.batch_size - 1 {
                    None
                } else {
                    Some(c as usize)
                }
            }),
    {
        let mut coin_number = coin_number;
        if ready.len() > 0 && coin_number != 0 {
            coin_number = ready[ready.len() - 1].0 + 1;
        }
        if coin_number > self.batch_size - 1 {
            return None;
        }
        Some(coin_number)
    }

    /// What reconstructing coin `coin_number` of a batch comes to, once the
    /// coins of the batch that are already ready are known (`ready`, in
    /// increasing order): every ready coin is output, in order, whatever comes
    /// next; and the coin whose shares are sent next is `next_coin` of the
    /// same inputs (none when it is past the batch).
    pub fn reconstruct_plan(&self, coin_number: usize, ready: &Vec<(usize, Vec<u8>)>) -> (plan: ReconstructPlan)
        requires
            self.batch_size > 0,
            ready@.len() > 0 && coin_number != 0 ==> ready@.last().0 < usize::MAX,
        ensures
            plan.output_coins@ == Seq::new(ready@.len(), |k: int| ready@[k].0),
            ({
                let c = if ready@.len() > 0 && coin_number != 0 {
                    ready@.last().0 + 1
                } else {
                    coin_number as int
                };
                plan.next_coin == if c > self.batch_size - 1 {
                    None
                } else {
                    Some(c as usize)
                }
            }),
    {
        let next_coin = self.next_coin(coin_number, ready);
        let mut output_coins: Vec<usize> = Vec::new();
        for k in 0..ready.len()
            invariant
                output_coins@ == Seq::new(k as nat, |j: int| ready@[j].0),
        {
            output_coins.push(ready[k].0);
            assert(output_coins@ =~= Seq::new((k + 1) as nat, |j: int| ready@[j].0));
        }
        ReconstructPlan { next_coin, output_coins }
    }

    /// The shares held for the committee's members: the entries of `shares`
    /// whose node is in `committee`, in order.
    pub fn committee_shares<T>(shares: Vec<(Replica, T)>, committee: &HashSet<Replica>) -> (kept: Vec<(Replica, T)>)
        ensures
            kept@ == committee_entries(shares@, committee@),
            kept@ == shares@.filter(|e: (Replica, T)| committee@.contains(e.0)),
    {
        broadcast use vstd::std_specs::hash::group_hash_axioms;

        let ghost orig = shares@;
        let mut rest = shares;
        let mut kept: Vec<(Replica, T)> = Vec::new();
        let total = rest.len();
        assert(total == orig.len());
        let mut k: usize = 0;
        while rest.len() > 0
            invariant
                k <= orig.len() <= usize::MAX,
                rest@ == orig.skip(k as int),
                kept@ == committee_entries(orig.take(k as int), committee@),
            decreases rest@.len(),
        {
            assert(rest@[0] == orig[k as int]);
            let entry = rest.remove(0);
            assert(orig.take(k + 1).drop_last() =~= orig.take(k as int));
            if committee.contains(&entry.0) {
                kept.push(entry);
            }
            k = k + 1;
            assert(rest@ =~= orig.skip(k as int));
        }
        assert(orig.take(k as int) =~= orig);
        proof {
            lemma_committee_entries_filter(orig, committee@);
        }
        kept
    }

    /// Whether received shares of coin `coin_num` are taken in: not once the
    /// committee is elected (for coin 0), and not after the round's state was
    /// cleared.
    pub fn accepts_shares(&self, coin_num: usize, committee_elected: bool, cleared: bool) -> (ok: bool)
        ensures
            ok == (!(coin_num == 0 && committee_elected) && !cleared),
    {
        if coin_num == 0 && committee_elected {
            return false;
        }
        if cleared {
            return false;
        }
        true
    }

    /// The step after one received share of coin `coin_num`: stop when the
    /// coin was already reconstructed, go on while it is not, and when it is,
    /// go on to the next coin of the batch, unless this was coin 0 (the
    /// committee coin) or the batch's last coin.
    pub fn share_step(&self, coin_num: usize, outcome: ShareOutcome) -> (step: ShareStep)
        requires
            outcome == ShareOutcome::CoinReady ==> self.batch_size > 0,
        ensures
            step == match outcome {
                ShareOutcome::AlreadyReconstructed => ShareStep::Stop,
                ShareOutcome::CoinReady => ShareStep::CoinDone {
                    next_coin: if coin_num < self.batch_size - 1 && coin_num != 0 {
                        Some((coin_num + 1) as usize)
                    } else {
                        None
                    },
                },
                _ => ShareStep::NextShare,
            },
    {
        match outcome {
            ShareOutcome::AlreadyReconstructed => ShareStep::Stop,
            ShareOutcome::Invalid => ShareStep::NextShare,
            ShareOutcome::SecretPending => ShareStep::NextShare,
            ShareOutcome::CoinPending => ShareStep::NextShare,
            ShareOutcome::CoinReady => {
                if coin_num < self.batch_size - 1 && coin_num != 0 {
                    ShareStep::CoinDone { next_coin: Some(coin_num + 1) }
                } else {
                    ShareStep::CoinDone { next_coin: None }
                }
            },
        }
    }

    /// What a reconstructed coin `coin_num` of the batch of `round` leads to:
    /// the round's state is cleared once every secret of the batch is
    /// reconstructed; coin 0 elects the committee of `committee_round(round)`;
    /// any other coin is output, and the batch is finished once its last coin
    /// is reconstructed.
    pub fn coin_check_plan(&self, round: Round, coin_num: usize, reconstructed: &HashSet<usize>) -> (plan: CoinCheckPlan)
        requires
            coin_num == 0 ==> {
                &&& self.frequency > 0
                &&& round + self.rounds_aa + 3 <= u32::MAX
                &&& round_up_to_multiple(round + self.rounds_aa + 3, self.frequency as int) <= u32::MAX
            },
            coin_num != 0 ==> self.batch_size > 0,
        ensures
            plan.clear_state == (reconstructed@.len() == self.batch_size),
            coin_num == 0 ==> plan.committee_round == Some(
                round_up_to_multiple(round + self.rounds_aa + 3, self.frequency as int) as Round,
            ) && !plan.batch_finished,
            coin_num != 0 ==> plan.committee_round is None && plan.batch_finished
                == reconstructed@.contains((self.batch_size - 1) as usize),
    {
        broadcast use vstd::std_specs::hash::group_hash_axioms;

        let clear_state = reconstructed.len() == self.batch_size;
        if coin_num == 0 {
            CoinCheckPlan {
                clear_state,
                committee_round: Some(self.committee_round(round)),
                batch_finished: false,
            }
        } else {
            CoinCheckPlan {
                clear_state,
                committee_round: None,
                batch_finished: reconstructed.contains(&(self.batch_size - 1)),
            }
        }
    }

    /// The beacon messages of a round without a new batch: node `i + 1` gets
    /// the agreement values only.
    pub fn appx_beacon_msgs(&self, new_round: Round, round_vals: &RoundVals) -> (msgs: Vec<(Replica, BeaconMsg)>)
        ensures
            msgs@.len() == self.num_nodes,
            forall|i: int|
                0 <= i < self.num_nodes ==> {
                    &&& #[trigger] msgs@[i].0 == i + 1
                    &&& msgs@[i].1@ == (BeaconView {
                        origin: self.myid,
                        round: new_round,
                        wss: None,
                        root_vec: None,
                        appx_con: Some(round_vals.deep_view()),
                    })
                },
            forall|i: int|
                0 <= i < self.num_nodes ==> #[trigger] msgs@[i].1.ctrbc_bytes() == ctrbc_encoding(
                    self.myid,
                    new_round,
                    None,
                    Some(round_vals.deep_view()),
                ),
    {
        let mut msgs: Vec<(Replica, BeaconMsg)> = Vec::new();
        let mut i: usize = 0;
        while i < self.num_nodes
            invariant
                i <= self.num_nodes,
                msgs@.len() == i,
                forall|k: int|
                    0 <= k < i ==> {
                        &&& #[trigger] msgs@[k].0 == k + 1
                        &&& msgs@[k].1@ == (BeaconView {
                            origin: self.myid,
                            round: new_round,
                            wss: None,
                            root_vec: None,
                            appx_con: Some(round_vals.deep_view()),
                        })
                    },
            decreases self.num_nodes - i,
        {
            let msg = BeaconMsg::new_with_appx(self.myid, new_round, copy_round_vals(round_vals));
            assert(msg@ == (BeaconView {
                origin: self.myid,
                round: new_round,
                wss: None,
                root_vec: None,
                appx_con: Some(round_vals.deep_view()),
            }));
            msgs.push((i + 1, msg));
            i = i + 1;
        }
        assert forall|i: int| 0 <= i < self.num_nodes implies #[trigger] msgs@[i].1.ctrbc_bytes()
            == ctrbc_encoding(self.myid, new_round, None, Some(round_vals.deep_view())) by {
            assert(msgs@[i].0 == i + 1);
            assert(msgs@[i].1@.root_vec == None::<Seq<Digest>>);
        }
        msgs
    }

    /// Decides how the round after `round` starts, or that it does not:
    /// round `20000` wraps to round `0`; otherwise no new round starts when the
    /// node is already past `round` or past the last round. A batch of secrets
    /// is shared in every round that is a multiple of `frequency`. After the
    /// round's messages are out, the node moves on unless the new round is `0`.
    pub fn new_round_plan(&self, round: Round) -> (plan: Option<RoundPlan>)
        requires
            round < u32::MAX,
            round == 20000 || (self.curr_round <= round && self.curr_round <= self.max_rounds)
                ==> self.frequency > 0,
        ensures
            round != 20000 && (self.curr_round > round || self.curr_round > self.max_rounds)
                ==> plan is None,
            round == 20000 || (self.curr_round <= round && self.curr_round <= self.max_rounds)
                ==> plan == Some(
                RoundPlan {
                    new_round: next_round_number(round) as Round,
                    batch_sharing: next_round_number(round) % (self.frequency as int) == 0,
                    advance: next_round_number(round) > 0,
                },
            ),
            plan is Some ==> plan->0.new_round == if round == 20000 {
                0
            } else {
                round + 1
            },
            plan is Some ==> plan->0.batch_sharing == (plan->0.new_round % self.frequency == 0),
            plan is Some ==> plan->0.advance == (plan->0.new_round != 0),
    {
        let mut new_round = round + 1;
        if round == 20000 {
            new_round = 0;
        } else if self.curr_round > round || self.curr_round > self.max_rounds {
            return None;
        }
        Some(RoundPlan { new_round, batch_sharing: new_round % self.frequency == 0, advance: new_round > 0 })
    }

    /// The round whose committee a batch's first beacon elects: the first
    /// multiple of `frequency` at or after `round + rounds_aa + 3`.
    pub fn committee_round(&self, round: Round) -> (fin: Round)
        requires
            self.frequency > 0,
            round + self.rounds_aa + 3 <= u32::MAX,
            round_up_to_multiple(round + self.rounds_aa + 3, self.frequency as int) <= u32::MAX,
        ensures
            fin == round_up_to_multiple(round + self.rounds_aa + 3, self.frequency as int),
    {
        let round_baa = round + self.rounds_aa + 3;
        if round_baa % self.frequency == 0 {
            round_baa
        } else {
            let q = round_baa / self.frequency;
            proof {
                let f = self.frequency as int;
                let r = round_baa as int;
                // f == 1 divides everything, so here f >= 2 and q + 1 fits.
                assert(f != 1);
                assert(q * f <= r) by (nonlinear_arith)
                    requires
                        f > 0,
                        r >= 0,
                        q == r / f,
                ;
                assert(q < u32::MAX) by (nonlinear_arith)
                    requires
                        q * f <= r,
                        f >= 2,
                        r <= u32::MAX,
                        q >= 0,
                ;
                assert(round_up_to_multiple(r, f) == (q + 1) * f);
            }
            (q + 1) * self.frequency
        }
    }
}

} // verus!
