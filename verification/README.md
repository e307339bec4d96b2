# rsm_raft

A Raft consensus core whose behaviour is stated in contracts and proved with Verus.

- `src/raft_storage.rs`: log entries, the `Storage` trait with its model over a
  sequence of entries, and `VecStorage`, an in-memory storage.
- `src/raft_spec.rs`: the model of a node (`RaftView`) and its transitions: the
  term step, append requests and responses, vote requests and responses,
  elections, client requests, and applying committed entries.
- `src/raft_state.rs`: messages, peer bookkeeping (`PeerInfos`) and `RaftState`,
  whose operations return the actions for the network (`NetAction`) and are
  proved to follow the model.
- `src/raft_properties.rs`: properties of the model (terms never go down, every
  step keeps the state well formed, leaders only append, leaders commit only
  entries of their term, leadership needs a majority, votes go only to
  up-to-date candidates).
- `src/utils.rs`: the index a majority of peers has reached, proved to be the
  upper median of the match indexes.
- `src/raft_network.rs`, `src/raft_state_machine.rs`: the traits users implement,
  and `NetworkLink` and `Applier`, which keep, as ghost state, what the library asked
  of the network and what it handed to the state machine.
- `src/node.rs`: a node driving its state through a user-supplied `RaftNetwork`;
  its contracts say what each round asked of the network.
- `app/`: a channel-based network (crossbeam) and a key-value demo program.
