# lau-distributed-systems

Distributed-systems algorithms as a Verus-verified library: vector clocks,
Paxos and Raft, consistency models, quorum replication, push-pull gossip,
consistent hashing, bully and ring leader election, and a fleet of agents
coordinated through Raft.

- `src/` is the verified library. Each module models its state as spec
  values (views over `Seq`, `Map` and `Set`), every public function states its
  result over them, and the module's laws stand as public `law_*` proof
  functions (for example read-your-write under R + W > N in `quorum`, the
  log matching property in `consensus::raft`, and rumor preservation in
  `gossip`).
- `tests/` runs the library on concrete clusters.
- `app/` holds what computes in floating point (the CAP simulation, latency
  matrices, the gossip convergence ratio) and serializable copies of the
  library's plain types.
