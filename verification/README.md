# beacon

The verified core of a batched, hash-based random beacon node.

- `src/hash.rs`: the pair hash `HashState::hash_two` over 32-byte values, with its
  byte-level specification (each output byte is `15 a + 16 b` modulo 256) and the AES
  states it carries.
- `src/codec.rs`: the bytes that go into reliable broadcast (the bincode encoding of a
  beacon message without its share batch) and the commitment preimage of a share
  (signed big-endian addition), with the proof that the shortest signed encoding of a
  value is unique.
- `src/msg.rs`: the protocol messages, their views, constructors, and the check of a
  share batch against its commitments and Merkle roots.
- `src/node.rs`: the decisions of a node: how a round starts, which beacon messages
  and reliable-broadcast shards go to which node, which coins to reconstruct, what a
  received share or a reconstructed coin leads to, and the committee round.
- `app/`: the node's asynchronous handlers and the serde forms of the messages; they
  perform randomness, secret sharing, hashing, Merkle trees, erasure coding and
  networking. They take the round, dealing, routing and reconstruction decisions from
  the library; what follows from the node's per-round state (setting an elected
  committee on a later round's state, starting agreement once that round has begun)
  stays with that state in `app/`.
