use vstd::prelude::*;

use aes::cipher::generic_array::GenericArray;
use aes::cipher::{BlockEncrypt, KeyInit};
use aes::Aes128Enc;

verus! {

#[verifier::external_type_specification]
#[verifier::external_body]
pub struct ExAes128Enc(Aes128Enc);

/// The AES-128 key that an encryption state was expanded from. The state's own
/// layout (hardware or software round keys) is left unnamed; only the key it
/// holds is.
pub uninterp spec fn aes128_key_of(state: Aes128Enc) -> Seq<u8>;

/// `Aes128Enc::new` of the `aes` crate: expands a 16-byte key into an AES-128
/// encryption state. Claimed: the state holds that key. Nothing else is stated
/// of the state.
#[verifier::external_body]
fn aes128_from_key(key: [u8; 16]) -> (state: Aes128Enc)
    ensures
        aes128_key_of(state) == key@,
{
    Aes128Enc::new(&GenericArray::from(key))
}

/// `BlockEncrypt::encrypt_blocks` of the `aes` crate, applied to a scratch pair of
/// blocks built from `first` and `second`. The caller's blocks are passed by value,
/// so they keep their plaintext; the ciphertext is dropped with the scratch pair.
#[verifier::external_body]
fn aes128_encrypt_scratch_pair(cipher: &Aes128Enc, first: [u8; 16], second: [u8; 16]) {
    cipher.encrypt_blocks(&mut [GenericArray::from(first), GenericArray::from(second)]);
}

/// First round of the mix on one byte lane: `a + 2b`, modulo 256.
pub open spec fn round_one(a: u8, b: u8) -> int {
    (a + 2 * b) % 256
}

/// Second round: `2a + 2b + x1`, modulo 256.
pub open spec fn round_two(a: u8, b: u8) -> int {
    (2 * a + 2 * b + round_one(a, b)) % 256
}

/// Third round: `2a + b + x2`, modulo 256.
pub open spec fn round_three(a: u8, b: u8) -> int {
    (2 * a + b + round_two(a, b)) % 256
}

/// Output byte of one lane: `a + x1 + x2 + 2 x3`, modulo 256.
pub open spec fn lane_output(a: u8, b: u8) -> int {
    (a + round_one(a, b) + round_two(a, b) + 2 * round_three(a, b)) % 256
}

/// The digest of `hash_two` on two 32-byte inputs: lane `j` of the output is
/// computed from lane `j` of each input alone.
pub open spec fn hash_two_spec(one: Seq<u8>, two: Seq<u8>) -> Seq<u8> {
    Seq::new(32, |j: int| lane_output(one[j], two[j]) as u8)
}

/// Every output lane is `15 a + 16 b` modulo 256, where `a` and `b` are the
/// input bytes in that lane.
pub proof fn lemma_lane_output_closed_form(a: u8, b: u8)
    ensures
        lane_output(a, b) == (15 * a + 16 * b) % 256,
{
    let x1 = round_one(a, b);
    let x2 = round_two(a, b);
    let x3 = round_three(a, b);
    assert(lane_output(a, b) == (15 * a + 16 * b) % 256) by (nonlinear_arith)
        requires
            x1 == (a + 2 * b) % 256,
            x2 == (2 * a + 2 * b + x1) % 256,
            x3 == (2 * a + b + x2) % 256,
            lane_output(a, b) == (a + x1 + x2 + 2 * x3) % 256,
    ;
}

/// Every byte of the pair hash is `15 a + 16 b` modulo 256, where `a` and `b`
/// are the bytes of the two inputs at the same position.
pub proof fn lemma_hash_two_closed_form(one: Seq<u8>, two: Seq<u8>)
    ensures
        forall|j: int|
            0 <= j < 32 ==> #[trigger] hash_two_spec(one, two)[j] == (15 * one[j] + 16 * two[j]) % 256,
{
    assert forall|j: int| 0 <= j < 32 implies #[trigger] hash_two_spec(one, two)[j] == (15 * one[j] + 16
        * two[j]) % 256 by {
        lemma_lane_output_closed_form(one[j], two[j]);
    }
}

/// Three AES-128 encryption states, one per round of the pair hash.
pub struct HashState {
    pub aes0: Aes128Enc,
    pub aes1: Aes128Enc,
    pub aes2: Aes128Enc,
}

fn lane_round_one(a: u8, b: u8) -> (x: u8)
    ensures
        x == round_one(a, b),
{
    ((a as u16 + 2 * (b as u16)) % 256) as u8
}

fn lane_round_two(a: u8, b: u8, x1: u8) -> (x: u8)
    requires
        x1 == round_one(a, b),
    ensures
        x == round_two(a, b),
{
    ((2 * (a as u16) + 2 * (b as u16) + x1 as u16) % 256) as u8
}

fn lane_round_three(a: u8, b: u8, x2: u8) -> (x: u8)
    requires
        x2 == round_two(a, b),
    ensures
        x == round_three(a, b),
{
    ((2 * (a as u16) + b as u16 + x2 as u16) % 256) as u8
}

fn lane_finish(a: u8, b: u8, x1: u8, x2: u8, x3: u8) -> (w: u8)
    requires
        x1 == round_one(a, b),
        x2 == round_two(a, b),
        x3 == round_three(a, b),
    ensures
        w == lane_output(a, b),
{
    ((a as u16 + x1 as u16 + x2 as u16 + 2 * (x3 as u16)) % 256) as u8
}

impl HashState {
    /// Builds the three encryption states from three 16-byte keys: round one's
    /// state from `key0`, round two's from `key1`, round three's from `key2`.
    pub fn new(key0: [u8; 16], key1: [u8; 16], key2: [u8; 16]) -> (state: HashState)
        ensures
            aes128_key_of(state.aes0) == key0@,
            aes128_key_of(state.aes1) == key1@,
            aes128_key_of(state.aes2) == key2@,
    {
        HashState {
            aes0: aes128_from_key(key0),
            aes1: aes128_from_key(key1),
            aes2: aes128_from_key(key2),
        }
    }

    /// Hashes two 32-byte values into one. The two halves of the inputs go
    /// through three rounds of byte-wise mixing; after each round the round's
    /// blocks are also encrypted, in a scratch copy, under that round's state.
    /// The digest is computed from the plaintext blocks, so it depends on `one`
    /// and `two` alone and not on the keys.
    pub fn hash_two(&self, one: [u8; 32], two: [u8; 32]) -> (digest: [u8; 32])
        ensures
            digest@ == hash_two_spec(one@, two@),
    {
        let mut x_11 = [0u8; 16];
        let mut x_12 = [0u8; 16];
        for i in 0..16
            invariant
                forall|k: int| 0 <= k < i ==> x_11[k] == round_one(one[k], two[k]),
                forall|k: int| 0 <= k < i ==> x_12[k] == round_one(one[16 + k], two[16 + k]),
        {
            x_11[i] = lane_round_one(one[i], two[i]);
            x_12[i] = lane_round_one(one[16 + i], two[16 + i]);
        }
        aes128_encrypt_scratch_pair(&self.aes0, x_11, x_12);

        let mut x_21 = [0u8; 16];
        let mut x_22 = [0u8; 16];
        for i in 0..16
            invariant
                forall|k: int| 0 <= k < 16 ==> x_11[k] == round_one(one[k], two[k]),
                forall|k: int| 0 <= k < 16 ==> x_12[k] == round_one(one[16 + k], two[16 + k]),
                forall|k: int| 0 <= k < i ==> x_21[k] == round_two(one[k], two[k]),
                forall|k: int| 0 <= k < i ==> x_22[k] == round_two(one[16 + k], two[16 + k]),
        {
            x_21[i] = lane_round_two(one[i], two[i], x_11[i]);
            x_22[i] = lane_round_two(one[16 + i], two[16 + i], x_12[i]);
        }
        aes128_encrypt_scratch_pair(&self.aes1, x_21, x_22);

        let mut x_31 = [0u8; 16];
        let mut x_32 = [0u8; 16];
        for i in 0..16
            invariant
                forall|k: int| 0 <= k < 16 ==> x_21[k] == round_two(one[k], two[k]),
                forall|k: int| 0 <= k < 16 ==> x_22[k] == round_two(one[16 + k], two[16 + k]),
                forall|k: int| 0 <= k < i ==> x_31[k] == round_three(one[k], two[k]),
                forall|k: int| 0 <= k < i ==> x_32[k] == round_three(one[16 + k], two[16 + k]),
        {
            x_31[i] = lane_round_three(one[i], two[i], x_21[i]);
            x_32[i] = lane_round_three(one[16 + i], two[16 + i], x_22[i]);
        }
        aes128_encrypt_scratch_pair(&self.aes2, x_31, x_32);

        let mut w_1 = [0u8; 32];
        for i in 0..16
            invariant
                forall|k: int| 0 <= k < 16 ==> x_11[k] == round_one(one[k], two[k]),
                forall|k: int| 0 <= k < 16 ==> x_12[k] == round_one(one[16 + k], two[16 + k]),
                forall|k: int| 0 <= k < 16 ==> x_21[k] == round_two(one[k], two[k]),
                forall|k: int| 0 <= k < 16 ==> x_22[k] == round_two(one[16 + k], two[16 + k]),
                forall|k: int| 0 <= k < 16 ==> x_31[k] == round_three(one[k], two[k]),
                forall|k: int| 0 <= k < 16 ==> x_32[k] == round_three(one[16 + k], two[16 + k]),
                forall|k: int| 0 <= k < i ==> w_1[k] == lane_output(one[k], two[k]),
        {
            w_1[i] = lane_finish(one[i], two[i], x_11[i], x_21[i], x_31[i]);
        }
        for i in 0..16
            invariant
                forall|k: int| 0 <= k < 16 ==> x_12[k] == round_one(one[16 + k], two[16 + k]),
                forall|k: int| 0 <= k < 16 ==> x_22[k] == round_two(one[16 + k], two[16 + k]),
                forall|k: int| 0 <= k < 16 ==> x_32[k] == round_three(one[16 + k], two[16 + k]),
                forall|k: int| 0 <= k < 16 ==> w_1[k] == lane_output(one[k], two[k]),
                forall|k: int| 16 <= k < 16 + i ==> w_1[k] == lane_output(one[k], two[k]),
        {
            w_1[16 + i] = lane_finish(one[16 + i], two[16 + i], x_12[i], x_22[i], x_32[i]);
        }
        assert(w_1@ =~= hash_two_spec(one@, two@));
        w_1
    }
}

} // verus!
