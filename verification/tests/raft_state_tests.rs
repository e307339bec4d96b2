use rsm_raft::raft_network::TimerKind;
use rsm_raft::raft_state::{
    update_peer_request, AppendEntries, AppendEntriesResponse, Msg, NetAction, PeerConfig,
    PeerInfos, RaftRole, RaftState, RequestVote, RequestVoteResponse, RoleState, Suffrage,
};
use rsm_raft::raft_storage::{LogEntry, Storage, VecStorage};
use rsm_raft::StateMachine;

struct Recorder {
    events: Vec<u64>,
}

impl StateMachine for Recorder {
    type Snapshot = Vec<u64>;
    type Event = u64;

    fn new() -> Self {
        Recorder { events: Vec::new() }
    }

    fn from_snapshot(snapshot: Vec<u64>) -> Self {
        Recorder { events: snapshot }
    }

    fn execute(&mut self, event: &u64) {
        self.events.push(*event);
    }
}

fn peers(ids: &[u64]) -> Vec<PeerConfig> {
    ids.iter()
        .map(|id| PeerConfig { id: *id, suffrage: Suffrage::Voter })
        .collect()
}

fn node(id: u64) -> RaftState<Recorder, VecStorage<u64>> {
    RaftState::new(id, Recorder::new(), VecStorage::new(), peers(&[1, 2, 3]))
}

fn entry(index: u64, term: u64, data: u64) -> LogEntry<u64> {
    LogEntry { index, term, data }
}

fn granted(term: u64) -> Msg<u64> {
    Msg::RequestVoteResponse(RequestVoteResponse { term, vote_granted: true })
}

fn ack(last_index: u64, term: u64, success: bool) -> Msg<u64> {
    Msg::AppendEntriesResponse(AppendEntriesResponse { last_index, term, success })
}

fn is_reset(action: &NetAction<u64>, kind: TimerKind) -> bool {
    matches!(action, NetAction::ResetTimer(k) if *k == kind)
}

/// Makes node 1 leader of term 1 with the vote of node 2.
fn leader() -> RaftState<Recorder, VecStorage<u64>> {
    let mut state = node(1);
    state.election_timeout();
    let acts = state.handle_rpc(2, granted(1)).unwrap();
    assert_eq!(1, acts.len());
    state
}

#[test]
fn new_state_is_follower_at_term_zero() {
    let state = node(1);
    assert_eq!(RaftRole::Follower, state.role());
    assert_eq!(0, state.curr_term);
    assert_eq!(None, state.voted_for);
    assert_eq!(0, state.commit_index);
    assert_eq!(0, state.last_applied);
    assert!(!state.is_leader());
}

#[test]
fn election_timeout_requests_votes_from_other_peers() {
    let mut state = node(1);
    let acts = state.election_timeout();
    assert_eq!(1, state.curr_term);
    assert_eq!(Some(1), state.voted_for);
    assert_eq!(RaftRole::Candidate, state.role());
    assert_eq!(3, acts.len());
    let expected = RequestVote { term: 1, candidate_id: 1, last_log_index: 0, last_log_term: 0 };
    for (i, peer) in [2u64, 3].iter().enumerate() {
        match &acts[i] {
            NetAction::Send(p, Msg::RequestVote(rv)) => {
                assert_eq!(*peer, *p);
                assert_eq!(expected, *rv);
            },
            _ => panic!("expected a vote request"),
        }
    }
    assert!(is_reset(&acts[2], TimerKind::Election));
    match &state.role_state {
        RoleState::Candidate { votes } => {
            assert_eq!(vec![1], votes.keys());
            assert_eq!(vec![true], votes.values());
        },
        _ => panic!("expected a candidate"),
    }
}

#[test]
fn candidate_becomes_leader_with_majority() {
    let mut state = node(1);
    state.election_timeout();
    // a refused vote counts nothing
    let acts = state
        .handle_rpc(3, Msg::RequestVoteResponse(RequestVoteResponse { term: 1, vote_granted: false }))
        .unwrap();
    assert!(acts.is_empty());
    assert_eq!(RaftRole::Candidate, state.role());
    let acts = state.handle_rpc(2, granted(1)).unwrap();
    assert_eq!(RaftRole::Leader, state.role());
    assert_eq!(1, acts.len());
    assert!(is_reset(&acts[0], TimerKind::Heartbeat));
    match &state.role_state {
        RoleState::Leader { next_indexes, match_indexes } => {
            assert_eq!(vec![1, 2, 3], next_indexes.keys());
            assert_eq!(vec![1, 1, 1], next_indexes.values());
            assert_eq!(vec![0, 0, 0], match_indexes.values());
        },
        _ => panic!("expected a leader"),
    }
}

#[test]
fn candidate_of_five_needs_three_votes() {
    let mut state: RaftState<Recorder, VecStorage<u64>> =
        RaftState::new(1, Recorder::new(), VecStorage::new(), peers(&[1, 2, 3, 4, 5]));
    state.election_timeout();
    state.handle_rpc(2, granted(1)).unwrap();
    assert_eq!(RaftRole::Candidate, state.role());
    // the same peer twice counts once
    state.handle_rpc(2, granted(1)).unwrap();
    assert_eq!(RaftRole::Candidate, state.role());
    state.handle_rpc(3, granted(1)).unwrap();
    assert_eq!(RaftRole::Leader, state.role());
}

#[test]
fn larger_term_makes_follower() {
    let mut state = leader();
    let acts = state.handle_rpc(3, ack(0, 5, true)).unwrap();
    assert_eq!(5, state.curr_term);
    assert_eq!(RaftRole::Follower, state.role());
    assert_eq!(1, acts.len());
    assert!(is_reset(&acts[0], TimerKind::Election));
}

#[test]
fn leader_proposes_and_replicates() {
    let mut state = leader();
    state.propose(7);
    assert_eq!(1, state.log.last_index());
    assert_eq!(1, state.log.last_term());
    let acts = state.update_peers(false).unwrap();
    assert_eq!(2, acts.len());
    for (i, peer) in [2u64, 3].iter().enumerate() {
        match &acts[i] {
            NetAction::Send(p, Msg::AppendEntries(a)) => {
                assert_eq!(*peer, *p);
                assert_eq!(1, a.term);
                assert_eq!(1, a.leader_id);
                assert_eq!(0, a.prev_log_index);
                assert_eq!(0, a.prev_log_term);
                assert_eq!(0, a.leader_commit);
                assert_eq!(1, a.entries.len());
                assert_eq!((1, 1, 7), (a.entries[0].index, a.entries[0].term, a.entries[0].data));
            },
            _ => panic!("expected an append request"),
        }
    }
}

#[test]
fn update_peers_without_news_sends_nothing_but_heartbeats() {
    let state = leader();
    assert_eq!(0, state.update_peers(false).unwrap().len());
    let beats = state.update_peers(true).unwrap();
    assert_eq!(2, beats.len());
    match &beats[0] {
        NetAction::Send(2, Msg::AppendEntries(a)) => assert!(a.entries.is_empty()),
        _ => panic!("expected a heartbeat"),
    }
    let acts = state.heartbeat_timeout();
    assert_eq!(3, acts.len());
    assert!(is_reset(&acts[2], TimerKind::Heartbeat));
}

#[test]
fn update_peers_is_refused_when_not_leader() {
    let state = node(1);
    assert!(state.update_peers(true).is_err());
    assert!(state.heartbeat_timeout().is_empty());
}

#[test]
fn follower_drops_client_requests() {
    let mut state = node(2);
    state.propose(9);
    assert_eq!(0, state.log.last_index());
}

#[test]
fn leader_commits_with_majority_of_peers_and_applies() {
    let mut state = leader();
    state.propose(7);
    state.propose(8);
    // the leader's own match index is not counted: two peers must agree
    state.handle_rpc(2, ack(2, 1, true)).unwrap();
    assert_eq!(0, state.commit_index);
    state.handle_rpc(3, ack(1, 1, true)).unwrap();
    assert_eq!(1, state.commit_index);
    assert!(state.apply_ready());
    assert!(state.apply_committed());
    assert_eq!(1, state.last_applied);
    assert_eq!(vec![7], state.sm.machine().events);
    assert!(!state.apply_committed());
    state.handle_rpc(3, ack(2, 1, true)).unwrap();
    assert_eq!(2, state.commit_index);
    assert!(state.apply_committed());
    assert_eq!(vec![7, 8], state.sm.machine().events);
}

#[test]
fn leader_does_not_commit_entry_of_older_term() {
    let mut state = node(1);
    // a log with one entry of term 1
    state
        .handle_rpc(2, Msg::AppendEntries(AppendEntries {
            term: 1,
            leader_id: 2,
            prev_log_index: 0,
            prev_log_term: 0,
            entries: vec![entry(1, 1, 5)],
            leader_commit: 0,
        }))
        .unwrap();
    state.election_timeout();
    assert_eq!(2, state.curr_term);
    state.handle_rpc(2, granted(2)).unwrap();
    assert!(state.is_leader());
    state.handle_rpc(2, ack(1, 2, true)).unwrap();
    state.handle_rpc(3, ack(1, 2, true)).unwrap();
    assert_eq!(0, state.commit_index);
}

#[test]
fn leader_retries_failed_append_from_new_next_index() {
    let mut state = leader();
    state.propose(7);
    state.propose(8);
    let acts = state.handle_rpc(2, ack(1, 1, false)).unwrap();
    assert_eq!(1, acts.len());
    match &acts[0] {
        NetAction::Send(2, Msg::AppendEntries(a)) => {
            assert_eq!(1, a.prev_log_index);
            assert_eq!(1, a.prev_log_term);
            assert_eq!(1, a.entries.len());
            assert_eq!(8, a.entries[0].data);
        },
        _ => panic!("expected an append request"),
    }
    match &state.role_state {
        RoleState::Leader { next_indexes, match_indexes } => {
            assert_eq!(2, next_indexes.get(2));
            assert_eq!(1, match_indexes.get(2));
        },
        _ => panic!("expected a leader"),
    }
}

#[test]
fn leader_refuses_append_request() {
    let mut state = leader();
    let result = state.handle_rpc(2, Msg::AppendEntries(AppendEntries {
        term: 1,
        leader_id: 2,
        prev_log_index: 0,
        prev_log_term: 0,
        entries: vec![],
        leader_commit: 0,
    }));
    assert!(result.is_err());
    assert!(state.is_leader());
}

#[test]
fn follower_appends_and_follows_commit() {
    let mut state = node(2);
    let acts = state
        .handle_rpc(1, Msg::AppendEntries(AppendEntries {
            term: 1,
            leader_id: 1,
            prev_log_index: 0,
            prev_log_term: 0,
            entries: vec![entry(1, 1, 7), entry(2, 1, 8)],
            leader_commit: 5,
        }))
        .unwrap();
    assert_eq!(1, state.curr_term);
    assert_eq!(2, state.log.last_index());
    // the commit index follows the leader, up to the last entry
    assert_eq!(2, state.commit_index);
    assert_eq!(3, acts.len());
    assert!(is_reset(&acts[0], TimerKind::Election));
    assert!(is_reset(&acts[1], TimerKind::Election));
    match &acts[2] {
        NetAction::Send(1, Msg::AppendEntriesResponse(r)) => {
            // the response carries the last index from before the append
            assert_eq!(AppendEntriesResponse { last_index: 0, term: 1, success: true }, *r);
        },
        _ => panic!("expected a response"),
    }
}

#[test]
fn follower_rejects_stale_and_mismatched_appends() {
    let mut state = node(2);
    state
        .handle_rpc(1, Msg::AppendEntries(AppendEntries {
            term: 2,
            leader_id: 1,
            prev_log_index: 0,
            prev_log_term: 0,
            entries: vec![entry(1, 1, 7), entry(2, 2, 8)],
            leader_commit: 0,
        }))
        .unwrap();
    // a stale term
    let acts = state
        .handle_rpc(1, Msg::AppendEntries(AppendEntries {
            term: 1,
            leader_id: 1,
            prev_log_index: 2,
            prev_log_term: 2,
            entries: vec![],
            leader_commit: 0,
        }))
        .unwrap();
    match &acts[..] {
        [NetAction::Send(1, Msg::AppendEntriesResponse(r))] => {
            assert_eq!(AppendEntriesResponse { last_index: 2, term: 2, success: false }, *r)
        },
        _ => panic!("expected one refusal"),
    }
    // a conflicting entry is dropped with what follows it
    let acts = state
        .handle_rpc(1, Msg::AppendEntries(AppendEntries {
            term: 2,
            leader_id: 1,
            prev_log_index: 2,
            prev_log_term: 3,
            entries: vec![],
            leader_commit: 0,
        }))
        .unwrap();
    assert_eq!(1, state.log.last_index());
    match &acts[..] {
        [NetAction::Send(1, Msg::AppendEntriesResponse(r))] => {
            assert_eq!(AppendEntriesResponse { last_index: 1, term: 2, success: false }, *r)
        },
        _ => panic!("expected one refusal"),
    }
}

#[test]
fn vote_granted_to_up_to_date_candidate_once_voted_for() {
    let mut state = node(3);
    let acts = state
        .handle_rpc(1, Msg::RequestVote(RequestVote {
            term: 1,
            candidate_id: 1,
            last_log_index: 0,
            last_log_term: 0,
        }))
        .unwrap();
    assert_eq!(3, acts.len());
    assert!(is_reset(&acts[0], TimerKind::Election));
    assert!(is_reset(&acts[1], TimerKind::Election));
    match &acts[2] {
        NetAction::Send(1, Msg::RequestVoteResponse(r)) => {
            assert_eq!(RequestVoteResponse { term: 1, vote_granted: true }, *r)
        },
        _ => panic!("expected a response"),
    }
}

#[test]
fn vote_refused_for_stale_term_other_candidate_or_old_log() {
    let mut state = node(3);
    state.election_timeout();
    state.election_timeout();
    assert_eq!(2, state.curr_term);
    let refused = |acts: Vec<NetAction<u64>>| match &acts[..] {
        [NetAction::Send(_, Msg::RequestVoteResponse(r))] => !r.vote_granted,
        _ => false,
    };
    // stale term
    let acts = state
        .handle_rpc(1, Msg::RequestVote(RequestVote {
            term: 1,
            candidate_id: 1,
            last_log_index: 9,
            last_log_term: 9,
        }))
        .unwrap();
    assert!(refused(acts));
    // voted for itself already
    let acts = state
        .handle_rpc(1, Msg::RequestVote(RequestVote {
            term: 2,
            candidate_id: 1,
            last_log_index: 9,
            last_log_term: 9,
        }))
        .unwrap();
    assert!(refused(acts));
    // a log behind this one
    let mut state = node(3);
    state
        .handle_rpc(2, Msg::AppendEntries(AppendEntries {
            term: 2,
            leader_id: 2,
            prev_log_index: 0,
            prev_log_term: 0,
            entries: vec![entry(1, 2, 1)],
            leader_commit: 0,
        }))
        .unwrap();
    let acts = state
        .handle_rpc(1, Msg::RequestVote(RequestVote {
            term: 3,
            candidate_id: 1,
            last_log_index: 5,
            last_log_term: 1,
        }))
        .unwrap();
    match &acts[..] {
        [NetAction::ResetTimer(_), NetAction::Send(1, Msg::RequestVoteResponse(r))] => {
            assert_eq!(RequestVoteResponse { term: 3, vote_granted: false }, *r)
        },
        _ => panic!("expected a refusal after the term step"),
    }
}

#[test]
fn rpc_ready_refuses_out_of_bounds_response() {
    let mut state = leader();
    // on an empty log any next index can be served
    assert!(state.rpc_ready(2, &ack(3, 1, false)));
    state.propose(7);
    // a failed append claiming more entries than the leader has
    assert!(!state.rpc_ready(2, &ack(3, 1, false)));
    assert!(state.rpc_ready(2, &ack(1, 1, false)));
    assert!(state.rpc_ready(2, &ack(3, 1, true)));
    assert!(!state.rpc_ready(2, &ack(u64::MAX, 1, true)));
    // a larger term makes a follower, which ignores the response
    assert!(state.rpc_ready(2, &ack(3, 2, false)));
}

#[test]
fn updates_ready_refuses_next_index_past_log() {
    let mut state = leader();
    state.propose(7);
    assert!(state.updates_ready());
    // a successful append claiming more than the leader has
    state.handle_rpc(2, ack(3, 1, true)).unwrap();
    assert!(!state.updates_ready());
    assert!(node(1).updates_ready());
}

#[test]
fn apply_ready_refuses_commit_past_log() {
    let mut state = node(2);
    state
        .handle_rpc(1, Msg::AppendEntries(AppendEntries {
            term: 1,
            leader_id: 1,
            prev_log_index: 0,
            prev_log_term: 0,
            entries: vec![entry(1, 1, 7), entry(2, 1, 8)],
            leader_commit: 2,
        }))
        .unwrap();
    // a conflict drops the committed entry 2
    state
        .handle_rpc(1, Msg::AppendEntries(AppendEntries {
            term: 1,
            leader_id: 1,
            prev_log_index: 2,
            prev_log_term: 5,
            entries: vec![],
            leader_commit: 2,
        }))
        .unwrap();
    assert_eq!(1, state.log.last_index());
    assert_eq!(2, state.commit_index);
    assert!(!state.apply_ready());
}

#[test]
fn update_peer_request_copies_entries_from_next_index() {
    let mut log: VecStorage<u64> = VecStorage::new();
    log.push(1, 10);
    log.push(2, 20);
    log.push(2, 30);
    let mut next = PeerInfos::new();
    next.insert(5, 2);
    let a = update_peer_request(&log, 1, 3, 1, &next, 5);
    assert_eq!((3, 1, 1), (a.term, a.leader_id, a.leader_commit));
    assert_eq!((1, 1), (a.prev_log_index, a.prev_log_term));
    let copied: Vec<(u64, u64, u64)> = a.entries.iter().map(|e| (e.index, e.term, e.data)).collect();
    assert_eq!(vec![(2, 2, 20), (3, 2, 30)], copied);
}

#[test]
fn peer_infos_insert_replaces_in_place() {
    let mut infos = PeerInfos::new();
    infos.insert(3, 30u64);
    infos.insert(1, 10);
    infos.insert(3, 31);
    assert_eq!(vec![3, 1], infos.keys());
    assert_eq!(vec![31, 10], infos.values());
    assert_eq!(31, infos.get(3));
    let mut votes = PeerInfos::new();
    votes.insert(1, true);
    votes.insert(2, false);
    votes.insert(3, true);
    assert_eq!(1, votes.granted_except(1));
    assert_eq!(2, votes.granted_except(2));
}

#[test]
fn msg_term_is_the_senders_term() {
    assert_eq!(4, ack(0, 4, true).term());
    assert_eq!(6, granted(6).term());
}

#[test]
fn grant_is_not_recorded_as_vote() {
    let mut state = node(3);
    let ask = |candidate_id| {
        Msg::RequestVote(RequestVote { term: 1, candidate_id, last_log_index: 0, last_log_term: 0 })
    };
    let first = state.handle_rpc(1, ask(1)).unwrap();
    let second = state.handle_rpc(2, ask(2)).unwrap();
    assert!(matches!(first.last(), Some(NetAction::Send(1, Msg::RequestVoteResponse(r))) if r.vote_granted));
    assert!(matches!(second.last(), Some(NetAction::Send(2, Msg::RequestVoteResponse(r))) if r.vote_granted));
    assert_eq!(None, state.voted_for);
}

#[test]
fn leader_retries_from_signed_negative_next_index() {
    let mut state = leader();
    state.propose(7);
    let claim = ack(u64::MAX - 1, 1, false);
    assert!(state.rpc_ready(2, &claim));
    let acts = state.handle_rpc(2, claim).unwrap();
    match &acts[..] {
        [NetAction::Send(2, Msg::AppendEntries(a))] => {
            assert!(a.entries.is_empty());
            assert_eq!((0, 0), (a.prev_log_index, a.prev_log_term));
        },
        _ => panic!("expected one append request"),
    }
    assert!(state.updates_ready());
}

#[test]
fn repeated_vote_of_one_peer_counts_once() {
    let mut state: RaftState<Recorder, VecStorage<u64>> =
        RaftState::new(1, Recorder::new(), VecStorage::new(), peers(&[1, 2, 3, 4, 5]));
    state.election_timeout();
    assert!(state.request_vote_response(2, RequestVoteResponse { term: 1, vote_granted: true }).is_empty());
    assert!(state.request_vote_response(2, RequestVoteResponse { term: 1, vote_granted: true }).is_empty());
    match &state.role_state {
        RoleState::Candidate { votes } => {
            assert_eq!(vec![1, 2], votes.keys());
            assert_eq!(vec![true, true], votes.values());
        },
        _ => panic!("expected a candidate"),
    }
}

#[test]
fn second_apply_executes_nothing() {
    let mut state = leader();
    state.propose(7);
    state.handle_rpc(2, ack(1, 1, true)).unwrap();
    state.handle_rpc(3, ack(1, 1, true)).unwrap();
    assert!(state.apply_committed());
    assert!(!state.apply_committed());
    assert_eq!(vec![7], state.sm.machine().events);
}

#[test]
fn stored_hard_state_is_left_alone() {
    let mut log: VecStorage<u64> = VecStorage::new();
    log.set_current_term(4);
    log.set_voted_for(Some(9));
    let mut state = RaftState::new(2, Recorder::new(), log, peers(&[1, 2, 3]));
    state
        .handle_rpc(1, Msg::AppendEntries(AppendEntries {
            term: 6,
            leader_id: 1,
            prev_log_index: 0,
            prev_log_term: 0,
            entries: vec![entry(1, 6, 7)],
            leader_commit: 1,
        }))
        .unwrap();
    state.election_timeout();
    state.apply_committed();
    assert_eq!(4, state.log.current_term());
    assert_eq!(Some(9), state.log.voted_for());
}
