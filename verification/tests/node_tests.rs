use std::cell::RefCell;
use std::collections::VecDeque;
use std::rc::Rc;
use std::time::Duration;

use rsm_raft::raft_network::{NetworkLink, SelectedAction, TimerKind};
use rsm_raft::raft_state::{AppendEntriesResponse, Msg, RequestVoteResponse};
use rsm_raft::raft_state_machine::Applier;
use rsm_raft::raft_storage::VecStorage;
use rsm_raft::{LogEntry, Node, PeerConfig, RaftNetwork, RaftRole, StateMachine, Suffrage};

struct Recorder {
    events: Vec<u64>,
}

impl StateMachine for Recorder {
    type Snapshot = Vec<u64>;
    type Event = u64;

    fn new() -> Self {
        Recorder { events: Vec::new() }
    }

    fn from_snapshot(snapshot: Vec<u64>) -> Self {
        Recorder { events: snapshot }
    }

    fn execute(&mut self, event: &u64) {
        self.events.push(*event);
    }
}

#[derive(Default)]
struct Wire {
    sent: Vec<(u64, String)>,
    resets: Vec<TimerKind>,
    script: VecDeque<Vec<SelectedAction<u64>>>,
}

struct ScriptedNetwork {
    wire: Rc<RefCell<Wire>>,
}

impl RaftNetwork for ScriptedNetwork {
    type Event = u64;

    fn send(&mut self, peer_id: u64, msg: Msg<u64>) -> Result<(), ()> {
        let kind = match msg {
            Msg::AppendEntries(a) => format!("append:{}", a.entries.len()),
            Msg::AppendEntriesResponse(_) => "append-response".to_string(),
            Msg::RequestVote(_) => "vote".to_string(),
            Msg::RequestVoteResponse(_) => "vote-response".to_string(),
        };
        self.wire.borrow_mut().sent.push((peer_id, kind));
        Ok(())
    }

    fn timer_reset(&mut self, timer_kind: TimerKind) {
        self.wire.borrow_mut().resets.push(timer_kind);
    }

    fn select_actions(
        &mut self,
        buf: &mut Vec<SelectedAction<u64>>,
        max_actions: usize,
        _max_wait_time: Duration,
    ) -> bool {
        let next = self.wire.borrow_mut().script.pop_front().unwrap_or_default();
        for action in next.into_iter().take(max_actions) {
            buf.push(action);
        }
        true
    }
}

fn cluster_node() -> (Node<Recorder, VecStorage<u64>, ScriptedNetwork>, Rc<RefCell<Wire>>) {
    let wire = Rc::new(RefCell::new(Wire::default()));
    let network = ScriptedNetwork { wire: wire.clone() };
    let topology = (1..=3).map(|id| PeerConfig { id, suffrage: Suffrage::Voter }).collect();
    let node = Node::new(1, Recorder::new(), VecStorage::new(), NetworkLink::new(network), topology);
    (node, wire)
}

fn tick(node: &mut Node<Recorder, VecStorage<u64>, ScriptedNetwork>, wire: &Rc<RefCell<Wire>>, actions: Vec<SelectedAction<u64>>) -> bool {
    wire.borrow_mut().script.push_back(actions);
    node.test_tick(100, Duration::from_millis(1))
}

#[test]
fn new_node_starts_election_timer() {
    let (node, wire) = cluster_node();
    assert_eq!(RaftRole::Follower, node.role());
    assert_eq!(vec![TimerKind::Election], wire.borrow().resets);
}

#[test]
fn node_elects_itself_and_replicates() {
    let (mut node, wire) = cluster_node();
    assert!(tick(&mut node, &wire, vec![SelectedAction::Timer(TimerKind::Election)]));
    assert_eq!(RaftRole::Candidate, node.role());
    assert_eq!(
        vec![(2, "vote".to_string()), (3, "vote".to_string())],
        wire.borrow().sent
    );
    let granted = Msg::RequestVoteResponse(RequestVoteResponse { term: 1, vote_granted: true });
    assert!(tick(&mut node, &wire, vec![SelectedAction::Peer(2, granted)]));
    assert_eq!(RaftRole::Leader, node.role());
    assert_eq!(Some(&TimerKind::Heartbeat), wire.borrow().resets.last());
    wire.borrow_mut().sent.clear();
    assert!(tick(&mut node, &wire, vec![SelectedAction::Client(42)]));
    assert!(wire.borrow().sent.is_empty());
    // the next round sends the new entry to both peers
    assert!(!tick(&mut node, &wire, vec![]));
    assert_eq!(
        vec![(2, "append:1".to_string()), (3, "append:1".to_string())],
        wire.borrow().sent
    );
    wire.borrow_mut().sent.clear();
    assert!(tick(&mut node, &wire, vec![SelectedAction::Timer(TimerKind::Heartbeat)]));
    assert_eq!(Some(&TimerKind::Heartbeat), wire.borrow().resets.last());
}

#[test]
fn node_drops_message_it_cannot_handle() {
    let (mut node, wire) = cluster_node();
    tick(&mut node, &wire, vec![SelectedAction::Timer(TimerKind::Election)]);
    let granted = Msg::RequestVoteResponse(RequestVoteResponse { term: 1, vote_granted: true });
    tick(&mut node, &wire, vec![SelectedAction::Peer(2, granted)]);
    assert_eq!(RaftRole::Leader, node.role());
    tick(&mut node, &wire, vec![SelectedAction::Client(5)]);
    tick(&mut node, &wire, vec![]);
    wire.borrow_mut().sent.clear();
    // a peer claims entries the leader does not have
    let claim = Msg::AppendEntriesResponse(AppendEntriesResponse { last_index: 9, term: 1, success: false });
    assert!(tick(&mut node, &wire, vec![SelectedAction::Peer(3, claim)]));
    assert_eq!(RaftRole::Leader, node.role());
    // only the pending entry went out at the start of the round; the claim
    // got no retry
    assert_eq!(
        vec![(2, "append:1".to_string()), (3, "append:1".to_string())],
        wire.borrow().sent
    );
    // a successful append claiming too much is recorded; the rounds that
    // would send from past the end of the log send nothing
    let claim = Msg::AppendEntriesResponse(AppendEntriesResponse { last_index: 9, term: 1, success: true });
    assert!(tick(&mut node, &wire, vec![SelectedAction::Peer(3, claim)]));
    wire.borrow_mut().sent.clear();
    assert!(tick(&mut node, &wire, vec![SelectedAction::Timer(TimerKind::Heartbeat)]));
    assert!(wire.borrow().sent.is_empty());
    assert_eq!(RaftRole::Leader, node.role());
}

#[test]
fn follower_client_request_is_dropped() {
    let (mut node, wire) = cluster_node();
    assert!(tick(&mut node, &wire, vec![SelectedAction::Client(1)]));
    assert!(!tick(&mut node, &wire, vec![]));
    assert_eq!(RaftRole::Follower, node.role());
    assert!(wire.borrow().sent.is_empty());
}

struct FailingAfter {
    accepted: usize,
    sent: Rc<RefCell<Vec<u64>>>,
}

impl RaftNetwork for FailingAfter {
    type Event = u64;

    fn send(&mut self, peer_id: u64, _msg: Msg<u64>) -> Result<(), ()> {
        if self.sent.borrow().len() >= self.accepted {
            return Err(());
        }
        self.sent.borrow_mut().push(peer_id);
        Ok(())
    }

    fn timer_reset(&mut self, _timer_kind: TimerKind) {}

    fn select_actions(
        &mut self,
        _buf: &mut Vec<SelectedAction<u64>>,
        _max_actions: usize,
        _max_wait_time: Duration,
    ) -> bool {
        true
    }
}

#[test]
fn send_all_stops_at_first_failure() {
    let vote = |term| Msg::RequestVoteResponse(RequestVoteResponse { term, vote_granted: true });
    let sent = Rc::new(RefCell::new(Vec::new()));
    let mut net = NetworkLink::new(FailingAfter { accepted: 1, sent: sent.clone() });
    assert!(net.send_all(vec![(2, vote(1)), (3, vote(1)), (4, vote(1))]).is_err());
    assert_eq!(vec![2], *sent.borrow());
    let sent = Rc::new(RefCell::new(Vec::new()));
    let mut net = NetworkLink::new(FailingAfter { accepted: 5, sent: sent.clone() });
    assert!(net.send_all(vec![(2, vote(1)), (3, vote(1))]).is_ok());
    assert_eq!(vec![2, 3], *sent.borrow());
}

#[test]
fn execute_batch_executes_in_order() {
    let mut sm = Applier::new(Recorder::new());
    let entries = vec![
        LogEntry { index: 1, term: 1, data: 5 },
        LogEntry { index: 2, term: 1, data: 6 },
    ];
    sm.execute_batch(&entries);
    assert_eq!(vec![5, 6], sm.machine().events);
    let sm = Recorder::from_snapshot(vec![1]);
    assert_eq!(vec![1], sm.events);
}
