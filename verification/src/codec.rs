use vstd::prelude::*;

use num_bigint::BigInt;

use crate::msg::{Digest, Replica, Round, RoundVals};

verus! {

/// Value of a byte string read as an unsigned big-endian number.
pub open spec fn unsigned_be(s: Seq<u8>) -> nat
    decreases s.len(),
{
    if s.len() == 0 {
        0
    } else {
        unsigned_be(s.drop_last()) * 256 + s.last() as nat
    }
}

/// `256` to the power `n`.
pub open spec fn pow256(n: nat) -> nat
    decreases n,
{
    if n == 0 {
        1
    } else {
        256 * pow256((n - 1) as nat)
    }
}

/// Value of a byte string read as a two's-complement big-endian number
/// (the empty string reads as zero).
pub open spec fn signed_be(s: Seq<u8>) -> int {
    if s.len() > 0 && s[0] >= 128 {
        unsigned_be(s) - pow256(s.len())
    } else {
        unsigned_be(s) as int
    }
}

/// The shortest two's-complement big-endian form: at least one byte, and no
/// leading byte that only repeats the sign of the next one.
pub open spec fn is_shortest_signed_be(s: Seq<u8>) -> bool {
    &&& s.len() >= 1
    &&& s.len() >= 2 ==> !(s[0] == 0 && s[1] < 128) && !(s[0] == 255 && s[1] >= 128)
}

/// `pow256` grows with its exponent and is positive.
pub proof fn lemma_pow256_monotone(a: nat, b: nat)
    requires
        a <= b,
    ensures
        1 <= pow256(a) <= pow256(b),
    decreases b,
{
    if b > a {
        lemma_pow256_monotone(a, (b - 1) as nat);
    } else {
        lemma_pow256_positive(a);
    }
}

/// `pow256` is positive.
pub proof fn lemma_pow256_positive(n: nat)
    ensures
        pow256(n) >= 1,
    decreases n,
{
    if n > 0 {
        lemma_pow256_positive((n - 1) as nat);
    }
}

/// A byte string of length `n` reads as less than `256^n`.
pub proof fn lemma_unsigned_be_bound(s: Seq<u8>)
    ensures
        unsigned_be(s) < pow256(s.len()),
    decreases s.len(),
{
    if s.len() > 0 {
        lemma_unsigned_be_bound(s.drop_last());
    }
}

/// Reading a byte string of length `n >= 1` from its first byte:
/// `s[0] * 256^(n-1)` plus the rest.
pub proof fn lemma_unsigned_be_first(s: Seq<u8>)
    requires
        s.len() >= 1,
    ensures
        unsigned_be(s) == s[0] * pow256((s.len() - 1) as nat) + unsigned_be(s.drop_first()),
    decreases s.len(),
{
    if s.len() > 1 {
        let p = s.drop_last();
        lemma_unsigned_be_first(p);
        assert(p.drop_first() =~= s.drop_first().drop_last());
        let e = (s.len() - 2) as nat;
        assert(pow256((s.len() - 1) as nat) == 256 * pow256(e));
        assert(unsigned_be(p) * 256 == s[0] * (256 * pow256(e)) + unsigned_be(p.drop_first()) * 256) by (nonlinear_arith)
            requires
                unsigned_be(p) == p[0] * pow256(e) + unsigned_be(p.drop_first()),
                p[0] == s[0],
        ;
        let r = s.drop_first();
        assert(r.len() > 0);
        assert(unsigned_be(r) == unsigned_be(r.drop_last()) * 256 + r.last() as nat);
        assert(r.last() == s.last());
        assert(unsigned_be(s) == unsigned_be(p) * 256 + s.last() as nat);
        assert(r.drop_last() == p.drop_first());
        assert(unsigned_be(s) == s[0] * (256 * pow256(e)) + unsigned_be(r));
        assert(s[0] * (256 * pow256(e)) == s[0] * pow256((s.len() - 1) as nat));
    } else {
        assert(s.drop_last().len() == 0);
        assert(s.drop_first().len() == 0);
        assert(unsigned_be(s.drop_last()) == 0);
        assert(unsigned_be(s.drop_first()) == 0);
        assert(pow256(0) == 1);
        assert(pow256((s.len() - 1) as nat) == 1);
        assert(s.last() == s[0]);
        assert(unsigned_be(s) == s[0] as nat);
        assert(s[0] * pow256((s.len() - 1) as nat) == s[0]) by (nonlinear_arith)
            requires
                pow256((s.len() - 1) as nat) == 1,
        ;
    }
}

/// Byte strings of one length that read as the same number are equal.
pub proof fn lemma_unsigned_be_injective(s: Seq<u8>, t: Seq<u8>)
    requires
        s.len() == t.len(),
        unsigned_be(s) == unsigned_be(t),
    ensures
        s == t,
    decreases s.len(),
{
    if s.len() > 0 {
        let a = unsigned_be(s.drop_last());
        let b = unsigned_be(t.drop_last());
        assert(a == b && s.last() == t.last()) by (nonlinear_arith)
            requires
                a * 256 + s.last() == b * 256 + t.last(),
                0 <= s.last() < 256,
                0 <= t.last() < 256,
                a >= 0,
                b >= 0,
        ;
        lemma_unsigned_be_injective(s.drop_last(), t.drop_last());
        assert(s =~= t.drop_last().push(t.last()));
        assert(t =~= t.drop_last().push(t.last()));
    } else {
        assert(s =~= t);
    }
}

/// A shortest form of length `n` reads as a number in `[-128 * 256^(n-1),
/// 128 * 256^(n-1))`, and, when `n >= 2`, outside `[-128 * 256^(n-2),
/// 128 * 256^(n-2))`; it reads as non-negative exactly when its first byte is
/// below 128.
pub proof fn lemma_shortest_signed_be_range(s: Seq<u8>)
    requires
        is_shortest_signed_be(s),
    ensures
        -128 * pow256((s.len() - 1) as nat) <= signed_be(s) < 128 * pow256((s.len() - 1) as nat),
        s.len() >= 2 ==> !(-128 * pow256((s.len() - 2) as nat) <= signed_be(s) < 128 * pow256(
            (s.len() - 2) as nat,
        )),
        (signed_be(s) >= 0) == (s[0] < 128),
{
    let n = s.len();
    let p = pow256((n - 1) as nat);
    let rest = s.drop_first();
    lemma_unsigned_be_first(s);
    lemma_unsigned_be_bound(rest);
    assert(rest.len() == n - 1);
    let u = unsigned_be(rest);
    assert(pow256(n as nat) == 256 * p);
    let s0 = s[0] as int;
    if s0 < 128 {
        assert(0 <= s0 * p + u < 128 * p) by (nonlinear_arith)
            requires
                0 <= s0 < 128,
                0 <= u < p,
        ;
    } else {
        assert(-128 * p <= s0 * p + u - 256 * p < 0) by (nonlinear_arith)
            requires
                128 <= s0 < 256,
                0 <= u < p,
        ;
    }
    if n >= 2 {
        let q = pow256((n - 2) as nat);
        assert(p == 256 * q);
        let rest2 = rest.drop_first();
        lemma_unsigned_be_first(rest);
        lemma_unsigned_be_bound(rest2);
        let u2 = unsigned_be(rest2);
        let s1 = s[1] as int;
        assert(rest[0] == s[1]);
        assert(u == s1 * q + u2);
        if s0 == 0 {
            assert(s1 >= 128);
            assert(s1 * q >= 128 * q) by (nonlinear_arith)
                requires
                    s1 >= 128,
                    q >= 0,
            ;
        } else if s0 < 128 {
            assert(s0 * p >= p) by (nonlinear_arith)
                requires
                    s0 >= 1,
                    p >= 0,
            ;
        } else if s0 == 255 {
            assert(s1 < 128);
            assert(s1 * q + u2 < 128 * q) by (nonlinear_arith)
                requires
                    0 <= s1 < 128,
                    0 <= u2 < q,
            ;
            assert(s0 * p + u - 256 * p == u - p);
        } else {
            assert(s0 * p + u - 256 * p < -p) by (nonlinear_arith)
                requires
                    128 <= s0 <= 254,
                    0 <= u < p,
            ;
        }
    }
}

/// Shortest forms that read as the same number are the same bytes.
pub proof fn lemma_shortest_signed_be_unique(s: Seq<u8>, t: Seq<u8>)
    requires
        is_shortest_signed_be(s),
        is_shortest_signed_be(t),
        signed_be(s) == signed_be(t),
    ensures
        s == t,
{
    lemma_shortest_signed_be_range(s);
    lemma_shortest_signed_be_range(t);
    if s.len() < t.len() {
        lemma_pow256_monotone((s.len() - 1) as nat, (t.len() - 2) as nat);
    } else if t.len() < s.len() {
        lemma_pow256_monotone((t.len() - 1) as nat, (s.len() - 2) as nat);
    }
    assert(s.len() == t.len());
    assert(unsigned_be(s) == unsigned_be(t));
    lemma_unsigned_be_injective(s, t);
}

/// The commitment preimage depends on the sum alone: the bytes that a node
/// recomputes from a share and its nonce (`share + nonce`) are the bytes that
/// the dealer hashed (`nonce + share`).
pub proof fn lemma_commitment_preimage_symmetric(share: Seq<u8>, nonce: Seq<u8>, p: Seq<u8>, q: Seq<u8>)
    requires
        signed_be(p) == signed_be(share) + signed_be(nonce),
        is_shortest_signed_be(p),
        signed_be(q) == signed_be(nonce) + signed_be(share),
        is_shortest_signed_be(q),
    ensures
        p == q,
{
    lemma_shortest_signed_be_unique(p, q);
}

/// `BigInt::from_signed_bytes_be` on both inputs, `+` on the two `BigInt`s, and
/// `BigInt::to_signed_bytes_be` on the sum (num-bigint). Claimed: the output reads
/// as the sum of what the inputs read as, and it is the shortest form of that
/// sum (zero comes out as the single byte `0`).
#[verifier::external_body]
fn signed_be_sum(a: &[u8], b: &[u8]) -> (sum: Vec<u8>)
    ensures
        signed_be(sum@) == signed_be(a@) + signed_be(b@),
        is_shortest_signed_be(sum@),
{
    (BigInt::from_signed_bytes_be(a) + BigInt::from_signed_bytes_be(b)).to_signed_bytes_be()
}

/// The bytes whose hash commits to a secret share: the share and its nonce,
/// both read as two's-complement big-endian integers, added, and written back
/// in the shortest two's-complement big-endian form.
pub fn commitment_preimage(secret: &[u8], nonce: &[u8]) -> (preimage: Vec<u8>)
    ensures
        signed_be(preimage@) == signed_be(secret@) + signed_be(nonce@),
        is_shortest_signed_be(preimage@),
{
    signed_be_sum(secret, nonce)
}

/// `x` as `n` little-endian bytes (the low `n` bytes of `x`).
pub open spec fn le_bytes(x: nat, n: nat) -> Seq<u8>
    decreases n,
{
    if n == 0 {
        seq![]
    } else {
        seq![(x % 256) as u8] + le_bytes(x / 256, (n - 1) as nat)
    }
}

/// A length, a `u64` or a `usize` in the encoding: eight little-endian bytes.
pub open spec fn enc_u64(x: nat) -> Seq<u8> {
    le_bytes(x, 8)
}

/// A `u32` in the encoding: four little-endian bytes.
pub open spec fn enc_u32(x: u32) -> Seq<u8> {
    le_bytes(x as nat, 4)
}

/// A byte vector: its length, then its bytes.
pub open spec fn enc_bytes(s: Seq<u8>) -> Seq<u8> {
    enc_u64(s.len()) + s
}

/// The items of a vector of digests, each as its 32 bytes.
pub open spec fn enc_hash_items(s: Seq<Digest>) -> Seq<u8>
    decreases s.len(),
{
    if s.len() == 0 {
        seq![]
    } else {
        enc_hash_items(s.drop_last()) + s.last()@
    }
}

/// One `(replica, value)` pair: the replica, then the value's bytes.
pub open spec fn enc_value_item(p: (Replica, Seq<u8>)) -> Seq<u8> {
    enc_u64(p.0 as nat) + enc_bytes(p.1)
}

/// The items of a vector of `(replica, value)` pairs.
pub open spec fn enc_value_items(s: Seq<(Replica, Seq<u8>)>) -> Seq<u8>
    decreases s.len(),
{
    if s.len() == 0 {
        seq![]
    } else {
        enc_value_items(s.drop_last()) + enc_value_item(s.last())
    }
}

/// One `(round, values)` entry: the round, the number of values, the values.
pub open spec fn enc_round_item(r: (Round, Seq<(Replica, Seq<u8>)>)) -> Seq<u8> {
    enc_u32(r.0) + enc_u64(r.1.len()) + enc_value_items(r.1)
}

/// The items of a vector of `(round, values)` entries.
pub open spec fn enc_round_items(s: Seq<(Round, Seq<(Replica, Seq<u8>)>)>) -> Seq<u8>
    decreases s.len(),
{
    if s.len() == 0 {
        seq![]
    } else {
        enc_round_items(s.drop_last()) + enc_round_item(s.last())
    }
}

/// An optional vector of digests: `0`, or `1` then the length and the items.
pub open spec fn enc_opt_hashes(o: Option<Seq<Digest>>) -> Seq<u8> {
    match o {
        None => seq![0u8],
        Some(s) => seq![1u8] + enc_u64(s.len()) + enc_hash_items(s),
    }
}

/// An optional vector of `(round, values)` entries.
pub open spec fn enc_opt_rounds(o: Option<Seq<(Round, Seq<(Replica, Seq<u8>)>)>>) -> Seq<u8> {
    match o {
        None => seq![0u8],
        Some(s) => seq![1u8] + enc_u64(s.len()) + enc_round_items(s),
    }
}

/// The view of an optional vector of digests.
pub open spec fn opt_hashes_view(o: Option<Vec<Digest>>) -> Option<Seq<Digest>> {
    match o {
        None => None,
        Some(v) => Some(v@),
    }
}

/// The bytes of a beacon message whose share batch is absent, field by field:
/// origin, round, the absent batch (`0`), the root vector and the agreement values.
pub open spec fn ctrbc_encoding(
    origin: Replica,
    round: Round,
    root_vec: Option<Seq<Digest>>,
    appx_con: Option<Seq<(Round, Seq<(Replica, Seq<u8>)>)>>,
) -> Seq<u8> {
    enc_u64(origin as nat) + enc_u32(round) + seq![0u8] + enc_opt_hashes(root_vec) + enc_opt_rounds(
        appx_con,
    )
}

/// `2^64`: lengths and `usize` values below it fit the eight-byte fields.
pub open spec fn two_pow_64() -> nat {
    0x1_0000_0000_0000_0000nat
}

/// Every length inside the fields of a broadcast header fits eight bytes.
pub open spec fn ctrbc_fields_bounded(
    root_vec: Option<Seq<Digest>>,
    appx_con: Option<Seq<(Round, Seq<(Replica, Seq<u8>)>)>>,
) -> bool {
    &&& root_vec matches Some(v) ==> v.len() < two_pow_64()
    &&& appx_con matches Some(a) ==> rounds_bounded(a)
}

/// The entries, their value lists and their values all have lengths below `2^64`.
pub open spec fn rounds_bounded(a: Seq<(Round, Seq<(Replica, Seq<u8>)>)>) -> bool {
    &&& a.len() < two_pow_64()
    &&& forall|i: int| 0 <= i < a.len() ==> #[trigger] values_bounded(a[i].1)
}

/// The list and its values have lengths below `2^64`.
pub open spec fn values_bounded(v: Seq<(Replica, Seq<u8>)>) -> bool {
    &&& v.len() < two_pow_64()
    &&& forall|j: int| 0 <= j < v.len() ==> (#[trigger] v[j]).1.len() < two_pow_64()
}

proof fn lemma_concat_split<T>(a: Seq<T>, b: Seq<T>, c: Seq<T>, d: Seq<T>)
    requires
        a + b == c + d,
        a.len() == c.len(),
    ensures
        a == c,
        b == d,
{
    assert(a =~= (a + b).subrange(0, a.len() as int));
    assert(c =~= (c + d).subrange(0, c.len() as int));
    assert(b =~= (a + b).subrange(a.len() as int, (a + b).len() as int));
    assert(d =~= (c + d).subrange(c.len() as int, (c + d).len() as int));
}

proof fn lemma_le_bytes_len(x: nat, n: nat)
    ensures
        le_bytes(x, n).len() == n,
    decreases n,
{
    if n > 0 {
        lemma_le_bytes_len(x / 256, (n - 1) as nat);
    }
}

proof fn lemma_le_bytes_injective(x: nat, y: nat, n: nat)
    requires
        x < pow256(n),
        y < pow256(n),
        le_bytes(x, n) == le_bytes(y, n),
    ensures
        x == y,
    decreases n,
{
    if n > 0 {
        let m = (n - 1) as nat;
        lemma_concat_split(seq![(x % 256) as u8], le_bytes(x / 256, m), seq![(y % 256) as u8], le_bytes(y / 256, m));
        assert(seq![(x % 256) as u8][0] == seq![(y % 256) as u8][0]);
        assert(x / 256 < pow256(m));
        assert(y / 256 < pow256(m));
        lemma_le_bytes_injective(x / 256, y / 256, m);
    }
}

proof fn lemma_pow256_values()
    ensures
        pow256(4) == 0x1_0000_0000nat,
        pow256(8) == two_pow_64(),
{
    reveal_with_fuel(pow256, 9);
}

proof fn lemma_enc_u64_injective(x: nat, y: nat)
    requires
        x < two_pow_64(),
        y < two_pow_64(),
        enc_u64(x) == enc_u64(y),
    ensures
        x == y,
{
    lemma_pow256_values();
    lemma_le_bytes_injective(x, y, 8);
}

proof fn lemma_value_items_front(s: Seq<(Replica, Seq<u8>)>)
    requires
        s.len() > 0,
    ensures
        enc_value_items(s) == enc_value_item(s[0]) + enc_value_items(s.drop_first()),
    decreases s.len(),
{
    if s.len() == 1 {
        assert(s.drop_last().len() == 0);
        assert(s.drop_first().len() == 0);
        assert(enc_value_items(s.drop_last()) == Seq::<u8>::empty());
        assert(enc_value_items(s.drop_first()) == Seq::<u8>::empty());
        assert(s.last() == s[0]);
        assert(enc_value_items(s) =~= enc_value_item(s[0]) + enc_value_items(s.drop_first()));
    } else {
        lemma_value_items_front(s.drop_last());
        let d = s.drop_first();
        assert(s.drop_last().drop_first() =~= d.drop_last());
        assert(d.last() == s.last());
        assert(s.drop_last()[0] == s[0]);
        assert(enc_value_items(d) == enc_value_items(d.drop_last()) + enc_value_item(d.last()));
        assert(enc_value_items(s) == enc_value_items(s.drop_last()) + enc_value_item(s.last()));
        assert(enc_value_items(s) =~= enc_value_item(s[0]) + enc_value_items(s.drop_first()));
    }
}

proof fn lemma_round_items_front(s: Seq<(Round, Seq<(Replica, Seq<u8>)>)>)
    requires
        s.len() > 0,
    ensures
        enc_round_items(s) == enc_round_item(s[0]) + enc_round_items(s.drop_first()),
    decreases s.len(),
{
    if s.len() == 1 {
        assert(s.drop_last().len() == 0);
        assert(s.drop_first().len() == 0);
        assert(enc_round_items(s.drop_last()) == Seq::<u8>::empty());
        assert(enc_round_items(s.drop_first()) == Seq::<u8>::empty());
        assert(s.last() == s[0]);
        assert(enc_round_items(s) =~= enc_round_item(s[0]) + enc_round_items(s.drop_first()));
    } else {
        lemma_round_items_front(s.drop_last());
        let d = s.drop_first();
        assert(s.drop_last().drop_first() =~= d.drop_last());
        assert(d.last() == s.last());
        assert(s.drop_last()[0] == s[0]);
        assert(enc_round_items(d) == enc_round_items(d.drop_last()) + enc_round_item(d.last()));
        assert(enc_round_items(s) == enc_round_items(s.drop_last()) + enc_round_item(s.last()));
        assert(enc_round_items(s) =~= enc_round_item(s[0]) + enc_round_items(s.drop_first()));
    }
}

proof fn lemma_value_item_parse(p: (Replica, Seq<u8>), q: (Replica, Seq<u8>), r1: Seq<u8>, r2: Seq<u8>)
    requires
        p.1.len() < two_pow_64(),
        q.1.len() < two_pow_64(),
        enc_value_item(p) + r1 == enc_value_item(q) + r2,
    ensures
        p == q,
        r1 == r2,
{
    lemma_le_bytes_len(p.0 as nat, 8);
    lemma_le_bytes_len(q.0 as nat, 8);
    lemma_le_bytes_len(p.1.len(), 8);
    lemma_le_bytes_len(q.1.len(), 8);
    assert(enc_value_item(p) + r1 =~= enc_u64(p.0 as nat) + (enc_u64(p.1.len()) + (p.1 + r1)));
    assert(enc_value_item(q) + r2 =~= enc_u64(q.0 as nat) + (enc_u64(q.1.len()) + (q.1 + r2)));
    lemma_concat_split(enc_u64(p.0 as nat), enc_u64(p.1.len()) + (p.1 + r1), enc_u64(q.0 as nat), enc_u64(q.1.len()) + (q.1 + r2));
    lemma_enc_u64_injective(p.0 as nat, q.0 as nat);
    lemma_concat_split(enc_u64(p.1.len()), p.1 + r1, enc_u64(q.1.len()), q.1 + r2);
    lemma_enc_u64_injective(p.1.len(), q.1.len());
    lemma_concat_split(p.1, r1, q.1, r2);
}

proof fn lemma_value_items_parse(a: Seq<(Replica, Seq<u8>)>, b: Seq<(Replica, Seq<u8>)>, r1: Seq<u8>, r2: Seq<u8>)
    requires
        a.len() == b.len(),
        values_bounded(a),
        values_bounded(b),
        enc_value_items(a) + r1 == enc_value_items(b) + r2,
    ensures
        a == b,
        r1 == r2,
    decreases a.len(),
{
    if a.len() == 0 {
        assert(enc_value_items(a) + r1 =~= r1);
        assert(enc_value_items(b) + r2 =~= r2);
        assert(a =~= b);
    } else {
        lemma_value_items_front(a);
        lemma_value_items_front(b);
        let ta = enc_value_items(a.drop_first()) + r1;
        let tb = enc_value_items(b.drop_first()) + r2;
        assert(enc_value_items(a) + r1 =~= enc_value_item(a[0]) + ta);
        assert(enc_value_items(b) + r2 =~= enc_value_item(b[0]) + tb);
        assert(a[0].1.len() < two_pow_64());
        assert(b[0].1.len() < two_pow_64());
        lemma_value_item_parse(a[0], b[0], ta, tb);
        assert forall|j: int| 0 <= j < a.drop_first().len() implies (#[trigger] a.drop_first()[j]).1.len()
            < two_pow_64() by {
            assert(a.drop_first()[j] == a[j + 1]);
        }
        assert forall|j: int| 0 <= j < b.drop_first().len() implies (#[trigger] b.drop_first()[j]).1.len()
            < two_pow_64() by {
            assert(b.drop_first()[j] == b[j + 1]);
        }
        lemma_value_items_parse(a.drop_first(), b.drop_first(), r1, r2);
        assert forall|i: int| 0 <= i < a.len() implies a[i] == b[i] by {
            if i > 0 {
                assert(a[i] == a.drop_first()[i - 1]);
                assert(b[i] == b.drop_first()[i - 1]);
            }
        }
        assert(a =~= b);
    }
}

proof fn lemma_round_item_parse(
    p: (Round, Seq<(Replica, Seq<u8>)>),
    q: (Round, Seq<(Replica, Seq<u8>)>),
    r1: Seq<u8>,
    r2: Seq<u8>,
)
    requires
        values_bounded(p.1),
        values_bounded(q.1),
        enc_round_item(p) + r1 == enc_round_item(q) + r2,
    ensures
        p == q,
        r1 == r2,
{
    lemma_le_bytes_len(p.0 as nat, 4);
    lemma_le_bytes_len(q.0 as nat, 4);
    lemma_le_bytes_len(p.1.len(), 8);
    lemma_le_bytes_len(q.1.len(), 8);
    assert(enc_round_item(p) + r1 =~= enc_u32(p.0) + (enc_u64(p.1.len()) + (enc_value_items(p.1) + r1)));
    assert(enc_round_item(q) + r2 =~= enc_u32(q.0) + (enc_u64(q.1.len()) + (enc_value_items(q.1) + r2)));
    lemma_concat_split(
        enc_u32(p.0),
        enc_u64(p.1.len()) + (enc_value_items(p.1) + r1),
        enc_u32(q.0),
        enc_u64(q.1.len()) + (enc_value_items(q.1) + r2),
    );
    lemma_pow256_values();
    lemma_le_bytes_injective(p.0 as nat, q.0 as nat, 4);
    lemma_concat_split(enc_u64(p.1.len()), enc_value_items(p.1) + r1, enc_u64(q.1.len()), enc_value_items(q.1) + r2);
    lemma_enc_u64_injective(p.1.len(), q.1.len());
    lemma_value_items_parse(p.1, q.1, r1, r2);
}

proof fn lemma_round_items_parse(
    a: Seq<(Round, Seq<(Replica, Seq<u8>)>)>,
    b: Seq<(Round, Seq<(Replica, Seq<u8>)>)>,
    r1: Seq<u8>,
    r2: Seq<u8>,
)
    requires
        a.len() == b.len(),
        rounds_bounded(a),
        rounds_bounded(b),
        enc_round_items(a) + r1 == enc_round_items(b) + r2,
    ensures
        a == b,
        r1 == r2,
    decreases a.len(),
{
    if a.len() == 0 {
        assert(enc_round_items(a) + r1 =~= r1);
        assert(enc_round_items(b) + r2 =~= r2);
        assert(a =~= b);
    } else {
        lemma_round_items_front(a);
        lemma_round_items_front(b);
        let ta = enc_round_items(a.drop_first()) + r1;
        let tb = enc_round_items(b.drop_first()) + r2;
        assert(enc_round_items(a) + r1 =~= enc_round_item(a[0]) + ta);
        assert(enc_round_items(b) + r2 =~= enc_round_item(b[0]) + tb);
        assert(values_bounded(a[0].1));
        assert(values_bounded(b[0].1));
        lemma_round_item_parse(a[0], b[0], ta, tb);
        assert forall|j: int| 0 <= j < a.drop_first().len() implies #[trigger] values_bounded(
            a.drop_first()[j].1,
        ) by {
            assert(a.drop_first()[j] == a[j + 1]);
        }
        assert forall|j: int| 0 <= j < b.drop_first().len() implies #[trigger] values_bounded(
            b.drop_first()[j].1,
        ) by {
            assert(b.drop_first()[j] == b[j + 1]);
        }
        lemma_round_items_parse(a.drop_first(), b.drop_first(), r1, r2);
        assert forall|i: int| 0 <= i < a.len() implies a[i] == b[i] by {
            if i > 0 {
                assert(a[i] == a.drop_first()[i - 1]);
                assert(b[i] == b.drop_first()[i - 1]);
            }
        }
        assert(a =~= b);
    }
}

proof fn lemma_hash_items_len(s: Seq<Digest>)
    ensures
        enc_hash_items(s).len() == 32 * s.len(),
    decreases s.len(),
{
    broadcast use vstd::array::group_array_axioms;

    if s.len() > 0 {
        lemma_hash_items_len(s.drop_last());
        assert(s.last()@.len() == 32);
    }
}

proof fn lemma_hash_items_injective(a: Seq<Digest>, b: Seq<Digest>)
    requires
        a.len() == b.len(),
        enc_hash_items(a) == enc_hash_items(b),
    ensures
        a == b,
    decreases a.len(),
{
    broadcast use vstd::array::group_array_axioms;

    if a.len() > 0 {
        lemma_hash_items_len(a.drop_last());
        lemma_hash_items_len(b.drop_last());
        lemma_concat_split(enc_hash_items(a.drop_last()), a.last()@, enc_hash_items(b.drop_last()), b.last()@);
        lemma_hash_items_injective(a.drop_last(), b.drop_last());
        assert(a.last() =~= b.last());
        assert(a =~= b.drop_last().push(b.last()));
        assert(b =~= b.drop_last().push(b.last()));
    } else {
        assert(a =~= b);
    }
}

/// Byte `k` of `x` as `n` little-endian bytes is digit `k` of `x` in base
/// 256, the least significant first.
pub proof fn lemma_le_bytes_digit(x: nat, n: nat, k: int)
    requires
        0 <= k < n,
    ensures
        le_bytes(x, n).len() == n,
        le_bytes(x, n)[k] == (x / pow256(k as nat)) % 256,
    decreases n,
{
    lemma_le_bytes_len(x, n);
    lemma_le_bytes_len(x / 256, (n - 1) as nat);
    if k > 0 {
        lemma_le_bytes_digit(x / 256, (n - 1) as nat, k - 1);
        lemma_pow256_positive((k - 1) as nat);
        vstd::arithmetic::div_mod::lemma_div_denominator(x as int, 256, pow256((k - 1) as nat) as int);
        assert(le_bytes(x, n)[k] == le_bytes(x / 256, (n - 1) as nat)[k - 1]);
        assert(pow256(k as nat) == 256 * pow256((k - 1) as nat));
        assert((x / 256) / pow256((k - 1) as nat) == x / pow256(k as nat));
    } else {
        assert(pow256(0) == 1);
        assert(x / 1 == x);
        assert(le_bytes(x, n)[0] == (x % 256) as u8);
    }
}

/// The head of the broadcast bytes: the origin as eight little-endian bytes,
/// the round as four, a `0` for the absent share batch, then the root vector's
/// tag (`1` when it is present, followed by its length as eight
/// little-endian bytes).
pub proof fn lemma_ctrbc_head(
    origin: Replica,
    round: Round,
    root_vec: Option<Seq<Digest>>,
    appx_con: Option<Seq<(Round, Seq<(Replica, Seq<u8>)>)>>,
)
    ensures
        ({
            let e = ctrbc_encoding(origin, round, root_vec, appx_con);
            &&& e.len() >= 14
            &&& forall|k: int| 0 <= k < 8 ==> #[trigger] e[k] == (origin as nat / pow256(k as nat)) % 256
            &&& forall|k: int| 0 <= k < 4 ==> #[trigger] e[8 + k] == (round as nat / pow256(k as nat)) % 256
            &&& e[12] == 0
            &&& e[13] == if root_vec is Some { 1u8 } else { 0u8 }
            &&& root_vec matches Some(v) ==> e.len() >= 22 && forall|k: int|
                0 <= k < 8 ==> #[trigger] e[14 + k] == (v.len() / pow256(k as nat)) % 256
        }),
{
    lemma_le_bytes_len(origin as nat, 8);
    lemma_le_bytes_len(round as nat, 4);
    let e = ctrbc_encoding(origin, round, root_vec, appx_con);
    let a = enc_u64(origin as nat);
    let b = enc_u32(round);
    let tail = enc_opt_hashes(root_vec) + enc_opt_rounds(appx_con);
    assert(e =~= a + (b + (seq![0u8] + tail)));
    assert forall|k: int| 0 <= k < 8 implies #[trigger] e[k] == (origin as nat / pow256(k as nat)) % 256 by {
        lemma_le_bytes_digit(origin as nat, 8, k);
    }
    assert forall|k: int| 0 <= k < 4 implies #[trigger] e[8 + k] == (round as nat / pow256(k as nat)) % 256 by {
        lemma_le_bytes_digit(round as nat, 4, k);
        assert(e[8 + k] == b[k]);
    }
    assert(e[12] == 0);
    assert(e[13] == enc_opt_hashes(root_vec)[0]);
    if root_vec is Some {
        let v = root_vec->0;
        lemma_le_bytes_len(v.len(), 8);
        assert(enc_opt_hashes(root_vec) =~= seq![1u8] + (enc_u64(v.len()) + enc_hash_items(v)));
        assert forall|k: int| 0 <= k < 8 implies #[trigger] e[14 + k] == (v.len() / pow256(k as nat)) % 256 by {
            lemma_le_bytes_digit(v.len(), 8, k);
            assert(e[14 + k] == enc_u64(v.len())[k]);
        }
    }
}

/// The encoded digests come in their own order: bytes `32k .. 32k + 32` of
/// the items are digest `k`.
pub proof fn lemma_hash_items_in_order(s: Seq<Digest>)
    ensures
        enc_hash_items(s).len() == 32 * s.len(),
        forall|k: int|
            0 <= k < s.len() ==> #[trigger] enc_hash_items(s).subrange(32 * k, 32 * k + 32) == s[k]@,
    decreases s.len(),
{
    broadcast use vstd::array::group_array_axioms;

    lemma_hash_items_len(s);
    if s.len() > 0 {
        let front = s.drop_last();
        lemma_hash_items_in_order(front);
        let e = enc_hash_items(s);
        assert(e == enc_hash_items(front) + s.last()@);
        assert forall|k: int| 0 <= k < s.len() implies #[trigger] e.subrange(32 * k, 32 * k + 32)
            == s[k]@ by {
            if k < s.len() - 1 {
                assert(front[k] == s[k]);
                assert(enc_hash_items(front).subrange(32 * k, 32 * k + 32) == front[k]@);
                assert(e.subrange(32 * k, 32 * k + 32) =~= enc_hash_items(front).subrange(
                    32 * k,
                    32 * k + 32,
                ));
            } else {
                assert(s.last()@.len() == 32);
                assert(e.subrange(32 * k, 32 * k + 32) =~= s.last()@);
            }
        }
    }
}

/// In the broadcast bytes of a message with a root vector, the roots follow
/// the 22 bytes of origin, round, absent batch, `Some` tag and length, each
/// as its 32 bytes, in the vector's order.
pub proof fn lemma_ctrbc_roots_in_order(
    origin: Replica,
    round: Round,
    roots: Seq<Digest>,
    appx_con: Option<Seq<(Round, Seq<(Replica, Seq<u8>)>)>>,
)
    ensures
        forall|k: int|
            0 <= k < roots.len() ==> #[trigger] ctrbc_encoding(origin, round, Some(roots), appx_con).subrange(
                22 + 32 * k,
                22 + 32 * k + 32,
            ) == roots[k]@,
{
    lemma_le_bytes_len(origin as nat, 8);
    lemma_le_bytes_len(round as nat, 4);
    lemma_le_bytes_len(roots.len(), 8);
    lemma_hash_items_in_order(roots);
    let head = enc_u64(origin as nat) + enc_u32(round) + seq![0u8] + seq![1u8] + enc_u64(roots.len());
    let items = enc_hash_items(roots);
    let tail = enc_opt_rounds(appx_con);
    let e = ctrbc_encoding(origin, round, Some(roots), appx_con);
    assert(head.len() == 22);
    assert(e =~= head + items + tail);
    assert forall|k: int| 0 <= k < roots.len() implies #[trigger] e.subrange(22 + 32 * k, 22 + 32 * k + 32)
        == roots[k]@ by {
        assert(items.subrange(32 * k, 32 * k + 32) == roots[k]@);
        assert(e.subrange(22 + 32 * k, 22 + 32 * k + 32) =~= items.subrange(32 * k, 32 * k + 32));
    }
}

proof fn lemma_opt_hashes_parse(o1: Option<Seq<Digest>>, o2: Option<Seq<Digest>>, r1: Seq<u8>, r2: Seq<u8>)
    requires
        o1 matches Some(v) ==> v.len() < two_pow_64(),
        o2 matches Some(v) ==> v.len() < two_pow_64(),
        enc_opt_hashes(o1) + r1 == enc_opt_hashes(o2) + r2,
    ensures
        o1 == o2,
        r1 == r2,
{
    assert((enc_opt_hashes(o1) + r1)[0] == enc_opt_hashes(o1)[0]);
    assert((enc_opt_hashes(o2) + r2)[0] == enc_opt_hashes(o2)[0]);
    match (o1, o2) {
        (None, None) => {
            lemma_concat_split(seq![0u8], r1, seq![0u8], r2);
        },
        (Some(v1), Some(v2)) => {
            lemma_le_bytes_len(v1.len(), 8);
            lemma_le_bytes_len(v2.len(), 8);
            assert(enc_opt_hashes(o1) + r1 =~= seq![1u8] + (enc_u64(v1.len()) + (enc_hash_items(v1) + r1)));
            assert(enc_opt_hashes(o2) + r2 =~= seq![1u8] + (enc_u64(v2.len()) + (enc_hash_items(v2) + r2)));
            lemma_concat_split(seq![1u8], enc_u64(v1.len()) + (enc_hash_items(v1) + r1), seq![1u8], enc_u64(v2.len()) + (enc_hash_items(v2) + r2));
            lemma_concat_split(enc_u64(v1.len()), enc_hash_items(v1) + r1, enc_u64(v2.len()), enc_hash_items(v2) + r2);
            lemma_enc_u64_injective(v1.len(), v2.len());
            lemma_hash_items_len(v1);
            lemma_hash_items_len(v2);
            lemma_concat_split(enc_hash_items(v1), r1, enc_hash_items(v2), r2);
            lemma_hash_items_injective(v1, v2);
        },
        (None, Some(v2)) => {
            assert(enc_opt_hashes(o2)[0] == 1u8);
        },
        (Some(v1), None) => {
            assert(enc_opt_hashes(o1)[0] == 1u8);
        },
    }
}

proof fn lemma_opt_rounds_injective(
    o1: Option<Seq<(Round, Seq<(Replica, Seq<u8>)>)>>,
    o2: Option<Seq<(Round, Seq<(Replica, Seq<u8>)>)>>,
)
    requires
        o1 matches Some(a) ==> rounds_bounded(a),
        o2 matches Some(a) ==> rounds_bounded(a),
        enc_opt_rounds(o1) == enc_opt_rounds(o2),
    ensures
        o1 == o2,
{
    match (o1, o2) {
        (None, None) => {},
        (Some(a1), Some(a2)) => {
            lemma_le_bytes_len(a1.len(), 8);
            lemma_le_bytes_len(a2.len(), 8);
            let e: Seq<u8> = seq![];
            assert(enc_opt_rounds(o1) =~= seq![1u8] + (enc_u64(a1.len()) + (enc_round_items(a1) + e)));
            assert(enc_opt_rounds(o2) =~= seq![1u8] + (enc_u64(a2.len()) + (enc_round_items(a2) + e)));
            lemma_concat_split(seq![1u8], enc_u64(a1.len()) + (enc_round_items(a1) + e), seq![1u8], enc_u64(a2.len()) + (enc_round_items(a2) + e));
            lemma_concat_split(enc_u64(a1.len()), enc_round_items(a1) + e, enc_u64(a2.len()), enc_round_items(a2) + e);
            lemma_enc_u64_injective(a1.len(), a2.len());
            lemma_round_items_parse(a1, a2, e, e);
        },
        (None, Some(a2)) => {
            assert(enc_opt_rounds(o1)[0] == 0u8);
            assert(enc_opt_rounds(o2)[0] == 1u8);
        },
        (Some(a1), None) => {
            assert(enc_opt_rounds(o1)[0] == 1u8);
            assert(enc_opt_rounds(o2)[0] == 0u8);
        },
    }
}

/// The broadcast encoding can be read back: when every length in the fields
/// fits eight bytes, equal encodings have equal origins, rounds, root vectors
/// and agreement values.
pub proof fn lemma_ctrbc_encoding_injective(
    origin1: Replica,
    round1: Round,
    root_vec1: Option<Seq<Digest>>,
    appx_con1: Option<Seq<(Round, Seq<(Replica, Seq<u8>)>)>>,
    origin2: Replica,
    round2: Round,
    root_vec2: Option<Seq<Digest>>,
    appx_con2: Option<Seq<(Round, Seq<(Replica, Seq<u8>)>)>>,
)
    requires
        ctrbc_fields_bounded(root_vec1, appx_con1),
        ctrbc_fields_bounded(root_vec2, appx_con2),
        ctrbc_encoding(origin1, round1, root_vec1, appx_con1) == ctrbc_encoding(
            origin2,
            round2,
            root_vec2,
            appx_con2,
        ),
    ensures
        origin1 == origin2,
        round1 == round2,
        root_vec1 == root_vec2,
        appx_con1 == appx_con2,
{
    lemma_le_bytes_len(origin1 as nat, 8);
    lemma_le_bytes_len(origin2 as nat, 8);
    lemma_le_bytes_len(round1 as nat, 4);
    lemma_le_bytes_len(round2 as nat, 4);
    let h1 = enc_opt_hashes(root_vec1) + enc_opt_rounds(appx_con1);
    let h2 = enc_opt_hashes(root_vec2) + enc_opt_rounds(appx_con2);
    assert(ctrbc_encoding(origin1, round1, root_vec1, appx_con1) =~= enc_u64(origin1 as nat) + (enc_u32(
        round1,
    ) + (seq![0u8] + h1)));
    assert(ctrbc_encoding(origin2, round2, root_vec2, appx_con2) =~= enc_u64(origin2 as nat) + (enc_u32(
        round2,
    ) + (seq![0u8] + h2)));
    lemma_concat_split(enc_u64(origin1 as nat), enc_u32(round1) + (seq![0u8] + h1), enc_u64(origin2 as nat), enc_u32(round2) + (seq![0u8] + h2));
    lemma_enc_u64_injective(origin1 as nat, origin2 as nat);
    lemma_concat_split(enc_u32(round1), seq![0u8] + h1, enc_u32(round2), seq![0u8] + h2);
    lemma_pow256_values();
    lemma_le_bytes_injective(round1 as nat, round2 as nat, 4);
    lemma_concat_split(seq![0u8], h1, seq![0u8], h2);
    lemma_opt_hashes_parse(root_vec1, root_vec2, enc_opt_rounds(appx_con1), enc_opt_rounds(appx_con2));
    lemma_opt_rounds_injective(appx_con1, appx_con2);
}

/// `bincode::serialize` (bincode 1, whose default writes integers as fixed-width
/// little-endian, `usize` and lengths as `u64`, `None` as `0` and `Some` as `1`
/// before the value, vectors as their length then their items, arrays as their
/// items, tuples as their fields in order) of the tuple
/// `(origin, round, batch, root_vec, appx_con)`, where `batch` is the absent
/// share batch. Claimed: the bytes are `ctrbc_encoding` of the arguments;
/// serializing these types does not fail.
#[verifier::external_body]
pub(crate) fn bincode_ctrbc(
    origin: Replica,
    round: Round,
    batch: &Option<()>,
    root_vec: &Option<Vec<Digest>>,
    appx_con: &Option<RoundVals>,
) -> (bytes: Vec<u8>)
    requires
        batch is None,
    ensures
        bytes@ == ctrbc_encoding(origin, round, opt_hashes_view(*root_vec), appx_con.deep_view()),
{
    bincode::serialize(&(origin, round, batch, root_vec, appx_con)).expect("Serialization failed")
}

} // verus!
