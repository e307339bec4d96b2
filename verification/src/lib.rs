pub mod node;
pub mod raft_network;
pub mod raft_properties;
pub mod raft_spec;
pub mod raft_state;
pub mod raft_state_machine;
pub mod raft_storage;
pub mod utils;

pub use node::Node;
pub use raft_network::RaftNetwork;
pub use raft_state::{PeerConfig, RaftRole, Suffrage};
pub use raft_state_machine::StateMachine;
pub use raft_storage::{LogEntry, Storage};
