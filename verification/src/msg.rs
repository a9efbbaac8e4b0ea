use vstd::prelude::*;

use crate::codec::{
    bincode_ctrbc, ctrbc_encoding, ctrbc_fields_bounded, lemma_ctrbc_encoding_injective,
    lemma_ctrbc_roots_in_order, opt_hashes_view, rounds_bounded, two_pow_64, values_bounded,
};

verus! {

/// Index of a node.
pub type Replica = usize;

/// Protocol round number.
pub type Round = u32;

/// A byte string carried in a message.
pub type Val = Vec<u8>;

/// A 32-byte hash value.
pub type Digest = [u8; 32];

/// Values of approximate agreement, grouped by round: `(round, [(replica, value)])`.
pub type RoundVals = Vec<(Round, Vec<(Replica, Val)>)>;

/// A Merkle inclusion proof: `lemma` is `[item, siblings.., root]` and `path`
/// says, level by level, whether the running hash is the left child.
#[derive(Debug)]
pub struct MerkleProof {
    pub lemma: Vec<Digest>,
    pub path: Vec<bool>,
}

/// The mathematical content of a [`MerkleProof`].
pub struct MerkleProofView {
    pub lemma: Seq<Digest>,
    pub path: Seq<bool>,
}

impl View for MerkleProof {
    type V = MerkleProofView;

    open spec fn view(&self) -> MerkleProofView {
        MerkleProofView { lemma: self.lemma@, path: self.path@ }
    }
}

/// Copies a vector of digests.
pub fn copy_hashes(v: &Vec<Digest>) -> (out: Vec<Digest>)
    ensures
        out@ == v@,
{
    let mut out: Vec<Digest> = Vec::new();
    for i in 0..v.len()
        invariant
            out@ == v@.take(i as int),
    {
        let h: Digest = v[i];
        out.push(h);
        assert(out@ =~= v@.take(i + 1));
    }
    assert(out@ =~= v@);
    out
}

/// Copies a byte string.
pub fn copy_val(v: &Val) -> (out: Val)
    ensures
        out@ == v@,
{
    let out = v.clone();
    assert(out@ =~= v@);
    out
}

impl MerkleProof {
    /// A copy of the proof.
    pub fn duplicate(&self) -> (out: MerkleProof)
        ensures
            out@ == self@,
    {
        let path = self.path.clone();
        assert(path@ =~= self.path@);
        MerkleProof { lemma: copy_hashes(&self.lemma), path }
    }

    /// The proven leaf: the first entry of the lemma.
    pub fn item(&self) -> (h: Digest)
        requires
            self.lemma@.len() > 0,
        ensures
            h == self.lemma@[0],
    {
        self.lemma[0]
    }

    /// The root: the last entry of the lemma.
    pub fn root(&self) -> (h: Digest)
        requires
            self.lemma@.len() > 0,
        ensures
            h == self.lemma@.last(),
    {
        self.lemma[self.lemma.len() - 1]
    }
}


/// Compares two hash values byte by byte.
pub fn digest_eq(a: &Digest, b: &Digest) -> (eq: bool)
    ensures
        eq == (*a == *b),
{
    broadcast use vstd::array::group_array_axioms;

    for i in 0..32
        invariant
            forall|k: int| 0 <= k < i ==> a@[k] == b@[k],
    {
        if a[i] != b[i] {
            return false;
        }
    }
    assert(*a =~= *b);
    true
}

/// A batch of weakly verifiable secret shares sent to one node: the node's
/// share of each secret, the nonce share and commitment hash of each, and a
/// Merkle proof of each commitment.
#[derive(Debug)]
pub struct BatchWSSMsg {
    pub secrets: Vec<Val>,
    pub origin: Replica,
    pub commitments: Vec<(Val, Digest)>,
    pub mps: Vec<MerkleProof>,
    pub empty: bool,
}

/// The mathematical content of a [`BatchWSSMsg`].
pub struct BatchWSSView {
    pub secrets: Seq<Seq<u8>>,
    pub origin: Replica,
    pub commitments: Seq<(Seq<u8>, Digest)>,
    pub mps: Seq<MerkleProofView>,
    pub empty: bool,
}

impl View for BatchWSSMsg {
    type V = BatchWSSView;

    open spec fn view(&self) -> BatchWSSView {
        BatchWSSView {
            secrets: self.secrets.deep_view(),
            origin: self.origin,
            commitments: Seq::new(
                self.commitments@.len(),
                |i: int| (self.commitments@[i].0@, self.commitments@[i].1),
            ),
            mps: Seq::new(self.mps@.len(), |i: int| self.mps@[i]@),
            empty: self.empty,
        }
    }
}

impl BatchWSSMsg {
    /// A batch from `origin` with the given shares, commitments and proofs.
    pub fn new(
        secrets: Vec<Val>,
        origin: Replica,
        commitments: Vec<(Val, Digest)>,
        mps: Vec<MerkleProof>,
    ) -> (msg: Self)
        ensures
            msg.secrets == secrets,
            msg.origin == origin,
            msg.commitments == commitments,
            msg.mps == mps,
            !msg.empty,
    {
        BatchWSSMsg { secrets: secrets, origin: origin, commitments: commitments, mps: mps, empty: false }
    }

    /// A batch with no shares, from node 0.
    pub fn empty() -> (msg: BatchWSSMsg)
        ensures
            msg@.secrets.len() == 0,
            msg.origin == 0,
            msg@.commitments.len() == 0,
            msg@.mps.len() == 0,
            !msg.empty,
    {
        BatchWSSMsg {
            secrets: Vec::new(),
            origin: 0,
            commitments: Vec::new(),
            mps: Vec::new(),
            empty: false,
        }
    }
}

/// One weakly verifiable secret share: the share, its origin, the nonce share
/// and commitment hash, and the Merkle proof of the commitment.
#[derive(Debug)]
pub struct WSSMsg {
    pub secret: Val,
    pub origin: Replica,
    pub commitment: (Val, Digest),
    pub mp: MerkleProof,
}

/// The mathematical content of a [`WSSMsg`].
pub struct WSSMsgView {
    pub secret: Seq<u8>,
    pub origin: Replica,
    pub commitment: (Seq<u8>, Digest),
    pub mp: MerkleProofView,
}

impl View for WSSMsg {
    type V = WSSMsgView;

    open spec fn view(&self) -> WSSMsgView {
        WSSMsgView {
            secret: self.secret@,
            origin: self.origin,
            commitment: (self.commitment.0@, self.commitment.1),
            mp: self.mp@,
        }
    }
}

impl WSSMsg {
    /// A copy of the share message.
    pub fn duplicate(&self) -> (out: WSSMsg)
        ensures
            out@ == self@,
    {
        WSSMsg {
            secret: copy_val(&self.secret),
            origin: self.origin,
            commitment: (copy_val(&self.commitment.0), self.commitment.1),
            mp: self.mp.duplicate(),
        }
    }

    /// A share message with the given parts.
    pub fn new(secret: Val, origin: Replica, commitment: (Val, Digest), mp: MerkleProof) -> (msg: Self)
        ensures
            msg.secret == secret,
            msg.origin == origin,
            msg.commitment == commitment,
            msg.mp == mp,
    {
        WSSMsg { secret: secret, origin: origin, commitment: commitment, mp: mp }
    }
}

/// The digests that a node computes for share `i` of a batch before it checks
/// the batch: the hash of the share's commitment preimage, whether the share's
/// Merkle proof validates, and the Merkle leaf hash of the commitment hash.
#[derive(Clone, Copy, Debug)]
pub struct ShareDigest {
    pub commitment_hash: Digest,
    pub proof_valid: bool,
    pub leaf_hash: Digest,
}

/// Share `i` of the batch matches its commitment and its proof validates for
/// the committed leaf.
pub open spec fn share_checks_out(w: BatchWSSView, d: ShareDigest, i: int) -> bool {
    &&& d.commitment_hash == w.commitments[i].1
    &&& d.proof_valid
    &&& w.mps[i].lemma[0] == d.leaf_hash
}

/// The proof of share `i` ends in root `i` of the root vector.
pub open spec fn share_root_matches(w: BatchWSSView, root_vec: Option<Seq<Digest>>, i: int) -> bool {
    &&& root_vec is Some
    &&& w.mps[i].lemma.last() == root_vec.unwrap()[i]
}

/// A message's share batch passes exactly when every share `i` has its
/// committed commitment hash, a validating proof whose leaf is the committed
/// leaf and whose last entry is root `i` of the message's root vector.
pub proof fn lemma_proofs_hold_iff(m: BeaconMsg, ds: Seq<ShareDigest>)
    ensures
        m.proofs_hold(ds) <==> m.shares_match(ds),
{
    if m.wss is Some {
        let w = m.wss->0;
        if m.proofs_hold(ds) {
            if w@.secrets.len() > 0 {
                assert(share_accepted(w@, opt_hashes_view(m.root_vec), ds, 0));
            }
            assert forall|i: int| 0 <= i < w@.secrets.len() implies {
                &&& #[trigger] m.wss->0@.mps[i].lemma.last() == m.root_vec->0@[i]
                &&& ds[i].commitment_hash == m.wss->0@.commitments[i].1
                &&& ds[i].proof_valid
                &&& m.wss->0@.mps[i].lemma[0] == ds[i].leaf_hash
            } by {
                assert(share_accepted(w@, opt_hashes_view(m.root_vec), ds, i));
            }
        }
        if m.shares_match(ds) {
            assert forall|i: int| 0 <= i < w@.secrets.len() implies share_accepted(
                w@,
                opt_hashes_view(m.root_vec),
                ds,
                i,
            ) by {
                assert(m.wss->0@.mps[i].lemma.last() == m.root_vec->0@[i]);
            }
        }
    }
}

/// Share `i` passes every check.
pub open spec fn share_accepted(
    w: BatchWSSView,
    root_vec: Option<Seq<Digest>>,
    ds: Seq<ShareDigest>,
    i: int,
) -> bool {
    share_checks_out(w, ds[i], i) && share_root_matches(w, root_vec, i)
}

/// Every share before `i` passes.
pub open spec fn shares_accepted_before(
    w: BatchWSSView,
    root_vec: Option<Seq<Digest>>,
    ds: Seq<ShareDigest>,
    i: int,
) -> bool {
    forall|j: int| 0 <= j < i ==> share_accepted(w, root_vec, ds, j)
}

/// The checks of share `i` index only what exists: it has a commitment, a
/// proof and a digest; a proof reported valid has at least two lemma entries;
/// and if the share checks out there is a root to compare with.
pub open spec fn share_checkable(
    w: BatchWSSView,
    root_vec: Option<Seq<Digest>>,
    ds: Seq<ShareDigest>,
    i: int,
) -> bool {
    &&& i < w.commitments.len()
    &&& i < w.mps.len()
    &&& i < ds.len()
    &&& ds[i].proof_valid ==> w.mps[i].lemma.len() >= 2
    &&& share_checks_out(w, ds[i], i) ==> (root_vec is Some && i < root_vec.unwrap().len())
}

/// Every share that the checks reach (all before it passed) is checkable.
pub open spec fn batch_checkable(w: BatchWSSView, root_vec: Option<Seq<Digest>>, ds: Seq<ShareDigest>) -> bool {
    forall|i: int|
        0 <= i < w.secrets.len() && shares_accepted_before(w, root_vec, ds, i) ==> #[trigger] share_checkable(
            w,
            root_vec,
            ds,
            i,
        )
}

/// A beacon message of a round: optionally a batch of shares and the Merkle
/// roots of its commitments, and the approximate-agreement values it carries.
#[derive(Debug)]
pub struct BeaconMsg {
    pub origin: Replica,
    pub round: Round,
    pub wss: Option<BatchWSSMsg>,
    pub root_vec: Option<Vec<Digest>>,
    pub appx_con: Option<RoundVals>,
}

/// The mathematical content of a [`BeaconMsg`].
pub struct BeaconView {
    pub origin: Replica,
    pub round: Round,
    pub wss: Option<BatchWSSView>,
    pub root_vec: Option<Seq<Digest>>,
    pub appx_con: Option<Seq<(Round, Seq<(Replica, Seq<u8>)>)>>,
}

/// The view of an optional share batch.
pub open spec fn opt_batch_view(o: Option<BatchWSSMsg>) -> Option<BatchWSSView> {
    match o {
        None => None,
        Some(w) => Some(w@),
    }
}

impl View for BeaconMsg {
    type V = BeaconView;

    open spec fn view(&self) -> BeaconView {
        BeaconView {
            origin: self.origin,
            round: self.round,
            wss: opt_batch_view(self.wss),
            root_vec: opt_hashes_view(self.root_vec),
            appx_con: self.appx_con.deep_view(),
        }
    }
}

/// Every length in a message's broadcast header fits eight bytes: each is the
/// length of a vector.
pub proof fn lemma_beacon_header_bounded(m: BeaconMsg)
    ensures
        ctrbc_fields_bounded(m@.root_vec, m@.appx_con),
{
    broadcast use vstd::std_specs::vec::axiom_spec_len;

    if let Some(v) = m.root_vec {
        assert(v.len() == v@.len());
    }
    if let Some(a) = m.appx_con {
        assert(a.len() == a@.len());
        let d = a.deep_view();
        assert forall|i: int| 0 <= i < d.len() implies #[trigger] values_bounded(d[i].1) by {
            let inner = a@[i].1;
            assert(inner.len() == inner@.len());
            assert(d[i].1 == inner.deep_view());
            assert forall|j: int| 0 <= j < d[i].1.len() implies (#[trigger] d[i].1[j]).1.len()
                < two_pow_64() by {
                let val = inner@[j].1;
                assert(val.len() == val@.len());
                assert(d[i].1[j] == inner@[j].deep_view());
            }
        }
        assert(rounds_bounded(d));
    }
}

/// The broadcast bytes of two messages are equal exactly when their origins,
/// rounds, root vectors and agreement values are: the share batch never
/// reaches them, and everything else can be read back from them.
pub proof fn lemma_ctrbc_bytes_determine_header(m1: BeaconMsg, m2: BeaconMsg)
    ensures
        (m1.ctrbc_bytes() == m2.ctrbc_bytes()) == (m1.origin == m2.origin && m1.round == m2.round
            && m1@.root_vec == m2@.root_vec && m1@.appx_con == m2@.appx_con),
{
    if m1.ctrbc_bytes() == m2.ctrbc_bytes() {
        lemma_beacon_header_bounded(m1);
        lemma_beacon_header_bounded(m2);
        lemma_ctrbc_encoding_injective(
            m1.origin,
            m1.round,
            m1@.root_vec,
            m1@.appx_con,
            m2.origin,
            m2.round,
            m2@.root_vec,
            m2@.appx_con,
        );
    }
}

/// Copies the approximate-agreement values.
pub fn copy_round_vals(v: &RoundVals) -> (out: RoundVals)
    ensures
        out.deep_view() == v.deep_view(),
{
    let mut out: RoundVals = Vec::new();
    for i in 0..v.len()
        invariant
            out@.len() == i,
            out.deep_view() =~= v.deep_view().take(i as int),
    {
        let vals = &v[i].1;
        let mut inner: Vec<(Replica, Val)> = Vec::new();
        for j in 0..vals.len()
            invariant
                vals == v@[i as int].1,
                inner@.len() == j,
                inner.deep_view() =~= vals.deep_view().take(j as int),
        {
            let rep: Replica = vals[j].0;
            let val = copy_val(&vals[j].1);
            let ghost prev = inner.deep_view();
            inner.push((rep, val));
            assert(val.deep_view() =~= val@);
            assert(vals@[j as int].1.deep_view() =~= vals@[j as int].1@);
            assert(inner@[j as int].deep_view() == (rep, val.deep_view()));
            assert(inner.deep_view() =~= prev.push((rep, val.deep_view())));
            assert(inner.deep_view() =~= vals.deep_view().take(j + 1));
        }
        assert(inner.deep_view() =~= vals.deep_view());
        let r: Round = v[i].0;
        let ghost prev = out.deep_view();
        let ghost inner_view = inner.deep_view();
        out.push((r, inner));
        assert(out@[i as int].deep_view() == (r, inner_view));
        assert(out.deep_view() =~= prev.push((r, inner_view)));
        assert(out.deep_view() =~= v.deep_view().take(i + 1));
    }
    assert(out.deep_view() =~= v.deep_view());
    out
}

impl BeaconMsg {
    /// A message with a batch of shares, the roots and the agreement values.
    pub fn new(
        origin: Replica,
        round: Round,
        wss_msg: BatchWSSMsg,
        root_vec: Vec<Digest>,
        appx_con: RoundVals,
    ) -> (msg: BeaconMsg)
        ensures
            msg.origin == origin,
            msg.round == round,
            msg.wss == Some(wss_msg),
            msg.root_vec == Some(root_vec),
            msg.appx_con == Some(appx_con),
    {
        BeaconMsg {
            origin: origin,
            round: round,
            wss: Some(wss_msg),
            root_vec: Some(root_vec),
            appx_con: Some(appx_con),
        }
    }

    /// A message that carries agreement values only.
    pub fn new_with_appx(origin: Replica, round: Round, appx_con: RoundVals) -> (msg: BeaconMsg)
        ensures
            msg.origin == origin,
            msg.round == round,
            msg.wss is None,
            msg.root_vec is None,
            msg.appx_con == Some(appx_con),
    {
        BeaconMsg { origin: origin, round: round, wss: None, root_vec: None, appx_con: Some(appx_con) }
    }

    /// The bytes that go into reliable broadcast: the message with its share
    /// batch left out.
    pub open spec fn ctrbc_bytes(self) -> Seq<u8> {
        ctrbc_encoding(self.origin, self.round, opt_hashes_view(self.root_vec), self.appx_con.deep_view())
    }

    /// Serializes the message without its share batch (the batch is private to
    /// each receiver; the rest is common to all receivers of the round).
    pub fn serialize_ctrbc(&self) -> (bytes: Vec<u8>)
        ensures
            bytes@ == self.ctrbc_bytes(),
            self.root_vec matches Some(v) ==> forall|k: int|
                0 <= k < v@.len() ==> #[trigger] bytes@.subrange(22 + 32 * k, 22 + 32 * k + 32) == v@[k]@,
    {
        let no_batch: Option<()> = None;
        let bytes = bincode_ctrbc(self.origin, self.round, &no_batch, &self.root_vec, &self.appx_con);
        proof {
            if self.root_vec is Some {
                lemma_ctrbc_roots_in_order(self.origin, self.round, self.root_vec->0@, self.appx_con.deep_view());
            }
        }
        bytes
    }

    /// The message itself, as it came off the wire.
    pub fn init(self) -> (msg: Self)
        ensures
            msg == self,
    {
        self
    }

    /// Each share `i` of the batch, checked field by field against digest
    /// `i`: the digest's commitment hash is the committed one, the proof
    /// validates, the proof's first entry is the digest's leaf and its last
    /// entry is root `i` (so a message with shares has a root vector).
    pub open spec fn shares_match(self, ds: Seq<ShareDigest>) -> bool {
        self.wss is Some ==> {
            let w = self.wss->0@;
            &&& w.secrets.len() > 0 ==> self.root_vec is Some
            &&& forall|i: int|
                0 <= i < w.secrets.len() ==> {
                    &&& #[trigger] w.mps[i].lemma.last() == self.root_vec->0@[i]
                    &&& ds[i].commitment_hash == w.commitments[i].1
                    &&& ds[i].proof_valid
                    &&& w.mps[i].lemma[0] == ds[i].leaf_hash
                }
        }
    }

    /// Every share of the batch passes its checks (a message without a batch
    /// has nothing to check).
    pub open spec fn proofs_hold(self, ds: Seq<ShareDigest>) -> bool {
        match self.wss {
            None => true,
            Some(w) => forall|i: int|
                0 <= i < w@.secrets.len() ==> share_accepted(w@, opt_hashes_view(self.root_vec), ds, i),
        }
    }

    /// Checks the share batch of the message against its commitments and
    /// roots, given the digests of each share (`digests[i]` for share `i`).
    /// Share `i` passes when its commitment hash is the one committed, its
    /// Merkle proof validates, the proof's leaf is the Merkle leaf of the
    /// commitment hash, and the proof's root is root `i`. A message without a
    /// batch passes.
    pub fn verify_proofs(&self, digests: &Vec<ShareDigest>) -> (ok: bool)
        requires
            self.wss matches Some(w) ==> batch_checkable(w@, opt_hashes_view(self.root_vec), digests@),
        ensures
            ok == self.proofs_hold(digests@),
            ok == self.shares_match(digests@),
    {
        proof {
            lemma_proofs_hold_iff(*self, digests@);
        }
        match &self.wss {
            None => true,
            Some(w) => {
                let ghost rv = opt_hashes_view(self.root_vec);
                let n = w.secrets.len();
                for i in 0..n
                    invariant
                        n == w@.secrets.len(),
                        self.wss == Some(*w),
                        rv == opt_hashes_view(self.root_vec),
                        batch_checkable(w@, rv, digests@),
                        forall|j: int| 0 <= j < i ==> share_accepted(w@, rv, digests@, j),
                {
                    assert(shares_accepted_before(w@, rv, digests@, i as int));
                    assert(share_checkable(w@, rv, digests@, i as int));
                    let d = &digests[i];
                    let mp = &w.mps[i];
                    assert(w@.mps[i as int] == mp@);
                    if !digest_eq(&d.commitment_hash, &w.commitments[i].1) || !d.proof_valid
                        || !digest_eq(&mp.item(), &d.leaf_hash) {
                        assert(!share_accepted(w@, rv, digests@, i as int));
                        assert(self.wss->0 == *w);
                        assert(!self.proofs_hold(digests@));
                        proof {
                            lemma_proofs_hold_iff(*self, digests@);
                        }
                        return false;
                    }
                    match &self.root_vec {
                        None => {
                            assert(self.wss->0 == *w);
                            assert(self.wss->0@.secrets.len() > 0);
                            proof {
                                lemma_proofs_hold_iff(*self, digests@);
                            }
                            return false;
                        },
                        Some(root_vec) => {
                            if !digest_eq(&mp.root(), &root_vec[i]) {
                                assert(!share_accepted(w@, rv, digests@, i as int));
                                assert(self.wss->0 == *w);
                                assert(!self.proofs_hold(digests@));
                                proof {
                                    lemma_proofs_hold_iff(*self, digests@);
                                }
                                return false;
                            }
                        },
                    }
                }
                true
            },
        }
    }
}

/// A reliable-broadcast message: one erasure-coded shard of the broadcast
/// bytes with its Merkle proof.
#[derive(Debug)]
pub struct CTRBCMsg {
    pub shard: Val,
    pub mp: MerkleProof,
    pub round: u32,
    pub origin: Replica,
}

/// The mathematical content of a [`CTRBCMsg`].
pub struct CTRBCView {
    pub shard: Seq<u8>,
    pub mp: MerkleProofView,
    pub round: u32,
    pub origin: Replica,
}

impl View for CTRBCMsg {
    type V = CTRBCView;

    open spec fn view(&self) -> CTRBCView {
        CTRBCView { shard: self.shard@, mp: self.mp@, round: self.round, origin: self.origin }
    }
}

impl CTRBCMsg {
    /// A shard message with the given parts.
    pub fn new(shard: Val, mp: MerkleProof, round: u32, origin: Replica) -> (msg: Self)
        ensures
            msg.shard == shard,
            msg.mp == mp,
            msg.round == round,
            msg.origin == origin,
    {
        CTRBCMsg { shard: shard, mp: mp, round: round, origin: origin }
    }

    /// Checks the shard against its Merkle proof: hands this message's proof
    /// and shard to `verify_merkle_proof` and returns its verdict.
    pub fn verify_mr_proof<F: Fn(&MerkleProof, &Val) -> bool>(&self, verify_merkle_proof: F) -> (ok: bool)
        requires
            verify_merkle_proof.requires((&self.mp, &self.shard)),
        ensures
            verify_merkle_proof.ensures((&self.mp, &self.shard), ok),
    {
        if !verify_merkle_proof(&self.mp, &self.shard) {
            return false;
        }
        true
    }
}

/// The set of nodes a node has heard from.
#[derive(Debug)]
pub struct GatherMsg {
    pub nodes: Vec<Replica>,
}

/// The protocol messages of the beacon.
#[derive(Debug)]
pub enum CoinMsg {
    CTRBCInit(BeaconMsg, CTRBCMsg),
    CTRBCEcho(CTRBCMsg, Digest, Replica),
    CTRBCReady(CTRBCMsg, Digest, Replica),
    CTRBCReconstruct(CTRBCMsg, Digest, Replica),
    GatherEcho(GatherMsg, Replica, Round),
    GatherEcho2(GatherMsg, Replica, Round),
    BinaryAAEcho(RoundVals, Replica, Round),
    BinaryAAEcho2(RoundVals, Replica, Round),
    /// The shares of a beacon: the shares, the sender, the coin index in the
    /// batch and the round of the batch.
    BeaconConstruct(Vec<WSSMsg>, Replica, Replica, Round),
    BeaconValue(Round, Replica, u128),
}

/// A protocol message on the wire, with its sender, round and the MAC of the
/// message under the key shared with the receiver.
#[derive(Debug)]
pub struct WrapperMsg {
    pub protmsg: CoinMsg,
    pub sender: Replica,
    pub mac: Digest,
    pub round: Round,
}

impl WrapperMsg {
    /// Wraps `msg` from `sender` for `round`, with `mac` the MAC of the
    /// serialized message.
    pub fn new(msg: CoinMsg, sender: Replica, mac: Digest, round: Round) -> (wrapped: Self)
        ensures
            wrapped.protmsg == msg,
            wrapped.sender == sender,
            wrapped.mac == mac,
            wrapped.round == round,
    {
        WrapperMsg { protmsg: msg, mac: mac, sender: sender, round: round }
    }

    /// The message itself, as it came off the wire.
    pub fn init(self) -> (msg: Self)
        ensures
            msg == self,
    {
        self
    }
}

} // verus!
