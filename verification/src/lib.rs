//! Core logic of a batched, hash-based random beacon: the message types that the
//! nodes exchange, the byte-level hash used on pairs of digests, and the round and
//! reconstruction decisions of a node.
pub mod codec;
pub mod hash;
pub mod msg;
pub mod node;

pub use codec::commitment_preimage;
pub use hash::HashState;
pub use msg::{
    BatchWSSMsg, BeaconMsg, CTRBCMsg, CoinMsg, Digest, GatherMsg, MerkleProof, Replica, Round,
    RoundVals, ShareDigest, Val, WSSMsg, WrapperMsg,
};
pub use node::{CoinCheckPlan, Context, RbcInit, ReconstructPlan, RoundPlan, ShareOutcome, SharePackage, ShareStep};
