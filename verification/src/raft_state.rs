use crate::raft_network::TimerKind;
use crate::raft_spec::{
    count_granted, count_granted_except, entries_copied, fill_infos, is_update_request,
    lemma_count_granted_insert, lemma_fill_infos, other_peer_ids, sends_update, sends_updates,
    update_targets, RaftView, RoleView,
};
use crate::raft_state_machine::{Applier, StateMachine};
use crate::raft_storage::{
    as_signed, signed, slice_to_end_in_bounds, try_append_in_bounds, LogEntry, Storage,
};
use crate::utils::quorum_match_index;
use vstd::prelude::*;

verus! {

/// A leader's request to append entries after the entry at
/// `prev_log_index`, which has term `prev_log_term`.
#[derive(Debug)]
pub struct AppendEntries<E> {
    pub term: u64,
    pub leader_id: u64,
    pub prev_log_index: u64,
    pub prev_log_term: u64,
    pub entries: Vec<LogEntry<E>>,
    pub leader_commit: u64,
}

/// The answer to an append request, with the last index of the follower.
#[derive(Clone, Copy, PartialEq, Eq, Debug, Structural)]
pub struct AppendEntriesResponse {
    pub last_index: u64,
    pub term: u64,
    pub success: bool,
}

/// A candidate's request for a vote, with the end of its log.
#[derive(Clone, Copy, PartialEq, Eq, Debug, Structural)]
pub struct RequestVote {
    pub term: u64,
    pub candidate_id: u64,
    pub last_log_index: u64,
    pub last_log_term: u64,
}

/// The answer to a vote request.
#[derive(Clone, Copy, PartialEq, Eq, Debug, Structural)]
pub struct RequestVoteResponse {
    pub term: u64,
    pub vote_granted: bool,
}

/// A message between two nodes.
#[derive(Debug)]
pub enum Msg<E> {
    AppendEntries(AppendEntries<E>),
    AppendEntriesResponse(AppendEntriesResponse),
    RequestVote(RequestVote),
    RequestVoteResponse(RequestVoteResponse),
}

impl<E> Msg<E> {
    /// The term the sender was in.
    pub open spec fn spec_term(&self) -> u64 {
        match self {
            Msg::AppendEntries(a) => a.term,
            Msg::AppendEntriesResponse(a) => a.term,
            Msg::RequestVote(a) => a.term,
            Msg::RequestVoteResponse(a) => a.term,
        }
    }

    pub fn term(&self) -> (r: u64)
        ensures
            r == self.spec_term(),
    {
        match self {
            Msg::AppendEntries(a) => a.term,
            Msg::AppendEntriesResponse(a) => a.term,
            Msg::RequestVote(a) => a.term,
            Msg::RequestVoteResponse(a) => a.term,
        }
    }
}

/// No peer occurs twice.
pub open spec fn keys_unique<T>(s: Seq<(u64, T)>) -> bool {
    forall|i: int, j: int| 0 <= i < j < s.len() ==> s[i].0 != s[j].0
}

/// Position of the first pair with the given peer.
pub open spec fn key_position<T>(s: Seq<(u64, T)>, peer_id: u64) -> Option<int>
    decreases s.len(),
{
    if s.len() == 0 {
        None
    } else {
        match key_position(s.drop_last(), peer_id) {
            Some(i) => Some(i),
            None => if s.last().0 == peer_id {
                Some(s.len() - 1)
            } else {
                None
            },
        }
    }
}

/// The value stored for a peer.
pub open spec fn info_get<T>(s: Seq<(u64, T)>, peer_id: u64) -> T {
    s[key_position(s, peer_id)->0].1
}

/// The pairs after storing `data` for `peer_id`: the pair of that peer is
/// replaced in place, or a new pair is added at the end.
pub open spec fn info_insert<T>(s: Seq<(u64, T)>, peer_id: u64, data: T) -> Seq<(u64, T)> {
    match key_position(s, peer_id) {
        Some(i) => s.update(i, (peer_id, data)),
        None => s.push((peer_id, data)),
    }
}

pub proof fn lemma_key_position<T>(s: Seq<(u64, T)>, peer_id: u64)
    ensures
        match key_position(s, peer_id) {
            Some(i) => 0 <= i < s.len() && s[i].0 == peer_id && forall|j: int|
                0 <= j < i ==> s[j].0 != peer_id,
            None => forall|j: int| 0 <= j < s.len() ==> s[j].0 != peer_id,
        },
    decreases s.len(),
{
    if s.len() > 0 {
        lemma_key_position(s.drop_last(), peer_id);
        assert forall|j: int| 0 <= j < s.len() - 1 implies s[j] == s.drop_last()[j] by {}
    }
}

/// What storing `data` for `peer_id` does: that peer is present with
/// `data`, every peer present stays present, each pair is either the new one
/// or the one that stood at its position, and no peer comes to occur twice.
pub proof fn lemma_info_insert<T>(s: Seq<(u64, T)>, peer_id: u64, data: T)
    ensures
        ({
            let ins = info_insert(s, peer_id, data);
            &&& ins.len() >= 1
            &&& ins.len() >= s.len()
            &&& key_position(ins, peer_id) is Some
            &&& info_get(ins, peer_id) == data
            &&& forall|k: u64| key_position(s, k) is Some ==> #[trigger] key_position(ins, k) is Some
            &&& forall|i: int|
                0 <= i < ins.len() ==> #[trigger] ins[i] == (peer_id, data) || (i < s.len()
                    && ins[i] == s[i])
            &&& keys_unique(s) ==> keys_unique(ins)
        }),
{
    let ins = info_insert(s, peer_id, data);
    lemma_key_position(s, peer_id);
    lemma_key_position(ins, peer_id);
    if key_position(s, peer_id) is Some {
        let q = key_position(s, peer_id)->0;
        assert(ins[q] == (peer_id, data));
    } else {
        assert(ins[s.len() as int] == (peer_id, data));
    }
    assert(key_position(ins, peer_id) is Some);
    assert forall|k: u64| key_position(s, k) is Some implies #[trigger] key_position(ins, k) is Some by {
        lemma_key_position(s, k);
        lemma_key_position(ins, k);
        let i = key_position(s, k)->0;
        if k != peer_id {
            if key_position(s, peer_id) is Some {
                let q = key_position(s, peer_id)->0;
                assert(i != q);
                assert(ins[i] == s[i]);
            } else {
                assert(ins[i] == s[i]);
            }
            assert(ins[i].0 == k);
        }
    }
}

/// Something known of each peer, in the order the peers were first stored.
#[derive(Debug)]
pub struct PeerInfos<T: Copy>(Vec<(u64, T)>);

pub type PeerIndexes = PeerInfos<u64>;

impl<T: Copy> View for PeerInfos<T> {
    type V = Seq<(u64, T)>;

    closed spec fn view(&self) -> Seq<(u64, T)> {
        self.0@
    }
}

impl<T: Copy> PeerInfos<T> {
    pub fn new() -> (r: Self)
        ensures
            r@ == Seq::<(u64, T)>::empty(),
    {
        PeerInfos(Vec::new())
    }

    pub fn insert(&mut self, peer_id: u64, data: T)
        ensures
            final(self)@ == info_insert(old(self)@, peer_id, data),
            keys_unique(old(self)@) ==> keys_unique(final(self)@),
    {
        proof {
            lemma_key_position(self@, peer_id);
        }
        let mut i: usize = 0;
        while i < self.0.len()
            invariant
                i <= self.0@.len(),
                self@ == old(self)@,
                forall|j: int| 0 <= j < i ==> self@[j].0 != peer_id,
            decreases self.0.len() - i,
        {
            if self.0[i].0 == peer_id {
                proof {
                    lemma_key_position(self@, peer_id);
                }
                self.0.set(i, (peer_id, data));
                return;
            }
            i += 1;
        }
        self.0.push((peer_id, data));
    }

    pub fn keys(&self) -> (r: Vec<u64>)
        ensures
            r@ == self@.map_values(|p: (u64, T)| p.0),
    {
        let mut r: Vec<u64> = Vec::new();
        let mut i: usize = 0;
        while i < self.0.len()
            invariant
                i <= self@.len(),
                r@ == self@.take(i as int).map_values(|p: (u64, T)| p.0),
            decreases self.0.len() - i,
        {
            r.push(self.0[i].0);
            proof {
                assert(self@.take(i + 1) =~= self@.take(i as int).push(self@[i as int]));
            }
            i += 1;
        }
        proof {
            assert(self@.take(self@.len() as int) =~= self@);
        }
        r
    }

    pub fn values(&self) -> (r: Vec<T>)
        ensures
            r@ == self@.map_values(|p: (u64, T)| p.1),
    {
        let mut r: Vec<T> = Vec::new();
        let mut i: usize = 0;
        while i < self.0.len()
            invariant
                i <= self@.len(),
                r@ == self@.take(i as int).map_values(|p: (u64, T)| p.1),
            decreases self.0.len() - i,
        {
            r.push(self.0[i].1);
            proof {
                assert(self@.take(i + 1) =~= self@.take(i as int).push(self@[i as int]));
            }
            i += 1;
        }
        proof {
            assert(self@.take(self@.len() as int) =~= self@);
        }
        r
    }

    /// The value stored for a peer that is present.
    pub fn get(&self, peer_id: u64) -> (r: T)
        requires
            key_position(self@, peer_id) is Some,
        ensures
            r == info_get(self@, peer_id),
    {
        proof {
            lemma_key_position(self@, peer_id);
        }
        let mut i: usize = 0;
        while i < self.0.len()
            invariant
                i <= self@.len(),
                forall|j: int| 0 <= j < i ==> self@[j].0 != peer_id,
                key_position(self@, peer_id) is Some,
                0 <= key_position(self@, peer_id)->0 < self@.len(),
                self@[key_position(self@, peer_id)->0].0 == peer_id,
                forall|j: int| 0 <= j < key_position(self@, peer_id)->0 ==> self@[j].0 != peer_id,
            decreases self.0.len() - i,
        {
            if self.0[i].0 == peer_id {
                return self.0[i].1;
            }
            i += 1;
        }
        self.0[0].1
    }
}

impl PeerInfos<bool> {
    /// Number of granted votes of peers other than `peer_id`.
    pub fn granted_except(&self, peer_id: u64) -> (r: usize)
        ensures
            r == count_granted_except(self@, peer_id),
    {
        let mut count: usize = 0;
        let mut i: usize = 0;
        while i < self.0.len()
            invariant
                i <= self@.len(),
                count == count_granted_except(self@.take(i as int), peer_id),
                count <= i,
            decreases self.0.len() - i,
        {
            proof {
                assert(self@.take(i + 1).drop_last() =~= self@.take(i as int));
            }
            if self.0[i].0 != peer_id && self.0[i].1 {
                count += 1;
            }
            i += 1;
        }
        proof {
            assert(self@.take(self@.len() as int) =~= self@);
        }
        count
    }
}

/// What a node asks of the network after a step.
#[derive(Debug)]
pub enum NetAction<E> {
    Send(u64, Msg<E>),
    ResetTimer(TimerKind),
}

#[derive(Clone, Copy, PartialEq, Eq, Debug, Structural)]
pub enum Suffrage {
    Voter,
    Nonvoter,
    Staging,
}

#[derive(Clone, Copy, PartialEq, Eq, Debug, Structural)]
pub struct PeerConfig {
    pub id: u64,
    pub suffrage: Suffrage,
}

#[derive(Debug)]
pub struct Configuration {
    pub peers: Vec<PeerConfig>,
}

#[derive(Debug)]
pub enum RoleState {
    Follower,
    Leader { next_indexes: PeerIndexes, match_indexes: PeerIndexes },
    Candidate {
        /// The votes of the peers.
        votes: PeerInfos<bool>,
    },
}

impl View for RoleState {
    type V = RoleView;

    open spec fn view(&self) -> RoleView {
        match self {
            RoleState::Follower => RoleView::Follower,
            RoleState::Leader { next_indexes, match_indexes } => RoleView::Leader {
                next_indexes: next_indexes@,
                match_indexes: match_indexes@,
            },
            RoleState::Candidate { votes } => RoleView::Candidate { votes: votes@ },
        }
    }
}

#[derive(Clone, Copy, PartialEq, Eq, Debug, Structural)]
pub enum RaftRole {
    Follower,
    Candidate,
    Leader,
}

/// The role of a role state.
pub open spec fn role_of(role: RoleView) -> RaftRole {
    match role {
        RoleView::Follower => RaftRole::Follower,
        RoleView::Leader { .. } => RaftRole::Leader,
        RoleView::Candidate { .. } => RaftRole::Candidate,
    }
}

/// The consensus state of one node.
pub struct RaftState<SM, L> where SM: StateMachine, L: Storage<Event = SM::Event> {
    pub id: u64,
    pub configuration: Configuration,
    // Persistent state
    pub curr_term: u64,
    pub voted_for: Option<u64>,
    pub log: L,
    pub sm: Applier<SM>,
    // Volatile state
    pub commit_index: u64,
    pub last_applied: u64,
    pub role_state: RoleState,
}

impl<SM, L> View for RaftState<SM, L> where SM: StateMachine, L: Storage<Event = SM::Event> {
    type V = RaftView<SM::Event>;

    open spec fn view(&self) -> RaftView<SM::Event> {
        RaftView {
            id: self.id,
            peers: self.configuration.peers@,
            curr_term: self.curr_term,
            voted_for: self.voted_for,
            log: self.log.entries(),
            stored_term: self.log.stored_term(),
            stored_vote: self.log.stored_vote(),
            applied: self.sm.handed(),
            commit_index: self.commit_index,
            last_applied: self.last_applied,
            role: self.role_state@,
        }
    }
}

/// The append request a leader sends to `peer_id`: the entry before the
/// peer's next index, and copies of all entries from that index on.
pub fn update_peer_request<L, E>(
    log: &L,
    id: u64,
    curr_term: u64,
    commit_index: u64,
    next_indexes: &PeerIndexes,
    peer_id: u64,
) -> (r: AppendEntries<E>) where L: Storage<Event = E>, E: Clone
    requires
        key_position(next_indexes@, peer_id) is Some,
        info_get(next_indexes@, peer_id) >= 1,
        slice_to_end_in_bounds(log.entries(), info_get(next_indexes@, peer_id)),
    ensures
        is_update_request(
            r,
            log.entries(),
            id,
            curr_term,
            commit_index,
            info_get(next_indexes@, peer_id),
        ),
{
    let next_index: u64 = next_indexes.get(peer_id);
    let to_send = log.slice_to_end(next_index);
    let mut entries: Vec<LogEntry<E>> = Vec::new();
    let mut i: usize = 0;
    while i < to_send.len()
        invariant
            i <= to_send@.len(),
            entries_copied(to_send@.take(i as int), entries@),
        decreases to_send.len() - i,
    {
        entries.push(to_send[i].clone());
        i += 1;
    }
    proof {
        assert(to_send@.take(to_send@.len() as int) =~= to_send@);
    }
    let (prev_log_index, prev_log_term) = match log.at(next_index - 1) {
        Some(e) => (e.index, e.term),
        None => (0, 0),
    };
    AppendEntries {
        term: curr_term,
        leader_id: id,
        prev_log_index,
        prev_log_term,
        entries,
        leader_commit: commit_index,
    }
}

impl<SM, L> RaftState<SM, L> where SM: StateMachine, L: Storage<Event = SM::Event> {
    /// A follower at term 0 that has not voted, with nothing committed.
    pub fn new(id: u64, sm: SM, log: L, peers: Vec<PeerConfig>) -> (r: Self)
        ensures
            r@ == (RaftView {
                id,
                peers: peers@,
                curr_term: 0,
                voted_for: None,
                log: log.entries(),
                stored_term: log.stored_term(),
                stored_vote: log.stored_vote(),
                applied: Seq::empty(),
                commit_index: 0,
                last_applied: 0,
                role: RoleView::Follower,
            }),
            r@.wf(),
            r.sm.machine_value() == sm,
            r.log == log,
    {
        RaftState {
            id,
            curr_term: 0,
            voted_for: None,
            log,
            commit_index: 0,
            last_applied: 0,
            sm: Applier::new(sm),
            role_state: RoleState::Follower,
            configuration: Configuration { peers },
        }
    }

    pub fn is_leader(&self) -> (r: bool)
        ensures
            r == self@.is_leader(),
    {
        match self.role_state {
            RoleState::Leader { .. } => true,
            _ => false,
        }
    }

    pub fn role(&self) -> (r: RaftRole)
        ensures
            r == role_of(self@.role),
    {
        match self.role_state {
            RoleState::Leader { .. } => RaftRole::Leader,
            RoleState::Follower => RaftRole::Follower,
            RoleState::Candidate { .. } => RaftRole::Candidate,
        }
    }

    /// Appends a client request to the log of a leader; other roles drop it.
    pub fn propose(&mut self, request: SM::Event)
        requires
            old(self)@.wf(),
            old(self)@.is_leader() ==> old(self)@.last_index() < u64::MAX,
        ensures
            final(self)@ == old(self)@.propose_next(request),
            final(self)@.wf(),
            final(self).sm == old(self).sm,
    {
        if self.is_leader() {
            self.log.push(self.curr_term, request);
        }
    }

    /// The append requests of a leader: to every other configured peer
    /// when it is a heartbeat, otherwise to those that miss entries. `Err`
    /// where this node is not the leader.
    pub fn update_peers(&self, is_heartbeat: bool) -> (r: Result<Vec<NetAction<SM::Event>>, ()>)
        requires
            self@.wf(),
            self@.updates_in_bounds(),
        ensures
            match self@.role {
                RoleView::Leader { next_indexes, .. } => r is Ok && sends_updates(
                    r->Ok_0@,
                    self@,
                    next_indexes,
                    is_heartbeat,
                ),
                _ => r is Err,
            },
    {
        match &self.role_state {
            RoleState::Leader { next_indexes, .. } => {
                let ghost targets_all = update_targets(
                    self@.peers,
                    self@.id,
                    self@.log,
                    next_indexes@,
                    is_heartbeat,
                );
                let mut acts: Vec<NetAction<SM::Event>> = Vec::new();
                let mut k: usize = 0;
                while k < self.configuration.peers.len()
                    invariant
                        self@.wf(),
                        self@.updates_in_bounds(),
                        self@.role == (RoleView::Leader { next_indexes: next_indexes@, match_indexes: self@.role->match_indexes }),
                        k <= self@.peers.len(),
                        ({
                            let targets = update_targets(
                                self@.peers.take(k as int),
                                self@.id,
                                self@.log,
                                next_indexes@,
                                is_heartbeat,
                            );
                            &&& acts@.len() == targets.len()
                            &&& forall|i: int|
                                0 <= i < targets.len() ==> sends_update(
                                    #[trigger] acts@[i],
                                    self@,
                                    targets[i],
                                    info_get(next_indexes@, targets[i]),
                                )
                        }),
                    decreases self.configuration.peers.len() - k,
                {
                    let peer_id: u64 = self.configuration.peers[k].id;
                    proof {
                        assert(self@.peers.take(k + 1).drop_last() =~= self@.peers.take(k as int));
                    }
                    if peer_id != self.id {
                        proof {
                            lemma_key_position(next_indexes@, peer_id);
                            assert(self@.peers[k as int].id == peer_id);
                        }
                        let append = update_peer_request(
                            &self.log,
                            self.id,
                            self.curr_term,
                            self.commit_index,
                            next_indexes,
                            peer_id,
                        );
                        if append.entries.len() > 0 || is_heartbeat {
                            acts.push(NetAction::Send(peer_id, Msg::AppendEntries(append)));
                        }
                    }
                    k += 1;
                }
                proof {
                    assert(self@.peers.take(self@.peers.len() as int) =~= self@.peers);
                }
                Ok(acts)
            },
            _ => Err(()),
        }
    }

    /// Starts an election: a new term, a vote for itself, candidacy; vote
    /// requests to every other configured peer, then a new election timer.
    pub fn election_timeout(&mut self) -> (acts: Vec<NetAction<SM::Event>>)
        requires
            old(self)@.wf(),
            old(self)@.curr_term < u64::MAX,
        ensures
            final(self)@ == old(self)@.election_next(),
            acts@ == old(self)@.election_actions(),
            final(self)@.wf(),
            final(self).sm == old(self).sm,
    {
        let ghost old_view = self@;
        self.curr_term = self.curr_term + 1;
        let mut votes: PeerInfos<bool> = PeerInfos::new();
        self.voted_for = Some(self.id);
        votes.insert(self.id, true);
        proof {
            lemma_key_position(Seq::<(u64, bool)>::empty(), self.id);
            assert(votes@ =~= seq![(self.id, true)]);
        }
        self.role_state = RoleState::Candidate { votes };
        let request = RequestVote {
            term: self.curr_term,
            candidate_id: self.id,
            last_log_index: self.log.last_index(),
            last_log_term: self.log.last_term(),
        };
        let ghost to_send = |peer_id: u64| NetAction::Send(peer_id, Msg::<SM::Event>::RequestVote(request));
        let mut acts: Vec<NetAction<SM::Event>> = Vec::new();
        let mut k: usize = 0;
        while k < self.configuration.peers.len()
            invariant
                k <= self@.peers.len(),
                self@.peers == old_view.peers,
                self.id == old_view.id,
                forall|p: u64| #[trigger] to_send(p) == NetAction::Send(p, Msg::<SM::Event>::RequestVote(request)),
                acts@ == other_peer_ids(self@.peers.take(k as int), self.id).map_values(to_send),
            decreases self.configuration.peers.len() - k,
        {
            let peer_id: u64 = self.configuration.peers[k].id;
            proof {
                assert(self@.peers.take(k + 1).drop_last() =~= self@.peers.take(k as int));
                assert(self@.peers.take(k + 1).last().id == peer_id);
            }
            if peer_id != self.id {
                acts.push(NetAction::Send(peer_id, Msg::RequestVote(request)));
                proof {
                    let before = other_peer_ids(self@.peers.take(k as int), self.id);
                    assert(before.push(peer_id).map_values(to_send) =~= before.map_values(
                        to_send,
                    ).push(to_send(peer_id)));
                    assert(other_peer_ids(self@.peers.take(k + 1), self.id) == before.push(peer_id));
                    assert(acts@ =~= before.map_values(to_send).push(to_send(peer_id)));
                }
            } else {
                assert(other_peer_ids(self@.peers.take(k + 1), self.id) == other_peer_ids(self@.peers.take(k as int), self.id));
            }
            k += 1;
        }
        proof {
            assert(self@.peers.take(self@.peers.len() as int) =~= self@.peers);
        }
        acts.push(NetAction::ResetTimer(TimerKind::Election));
        acts
    }

    /// A leader sends append requests to every other peer and restarts its
    /// heartbeat timer; other roles do nothing.
    pub fn heartbeat_timeout(&self) -> (acts: Vec<NetAction<SM::Event>>)
        requires
            self@.wf(),
            self@.updates_in_bounds(),
        ensures
            match self@.role {
                RoleView::Leader { next_indexes, .. } => {
                    &&& acts@.len() > 0
                    &&& sends_updates(acts@.drop_last(), self@, next_indexes, true)
                    &&& acts@.last() == NetAction::<SM::Event>::ResetTimer(TimerKind::Heartbeat)
                },
                _ => acts@.len() == 0,
            },
    {
        match self.update_peers(true) {
            Ok(sends) => {
                let mut acts = sends;
                acts.push(NetAction::ResetTimer(TimerKind::Heartbeat));
                proof {
                    assert(acts@.drop_last() =~= sends@);
                }
                acts
            },
            Err(()) => Vec::new(),
        }
    }

    /// Handles a message from `peer_id`: a larger term is adopted first,
    /// making this node a follower; then the message is handled. `Err`
    /// where an append request reaches a leader.
    pub fn handle_rpc(&mut self, peer_id: u64, msg: Msg<SM::Event>) -> (r: Result<
        Vec<NetAction<SM::Event>>,
        (),
    >)
        requires
            old(self)@.wf(),
            old(self)@.rpc_in_bounds(peer_id, msg),
        ensures
            final(self)@ == old(self)@.rpc_next(peer_id, msg),
            final(self)@.wf(),
            final(self).sm == old(self).sm,
            r is Err <==> old(self)@.rpc_refused(msg),
            r is Ok ==> old(self)@.rpc_actions(peer_id, msg, r->Ok_0@),
    {
        let mut acts: Vec<NetAction<SM::Event>> = Vec::new();
        let term: u64 = msg.term();
        if term > self.curr_term {
            self.curr_term = term;
            self.role_state = RoleState::Follower;
            acts.push(NetAction::ResetTimer(TimerKind::Election));
        }
        proof {
            assert(acts@ =~= old(self)@.observe_term_actions(term));
            assert(self@ == old(self)@.observe_term(term));
        }
        let mut more = match msg {
            Msg::AppendEntries(a) => match self.append_entries(peer_id, a) {
                Ok(more) => more,
                Err(()) => {
                    return Err(());
                },
            },
            Msg::AppendEntriesResponse(a) => self.append_entries_response(peer_id, a),
            Msg::RequestVote(a) => self.request_vote(peer_id, a),
            Msg::RequestVoteResponse(a) => self.request_vote_response(peer_id, a),
        };
        let ghost pre = acts@;
        let ghost rest = more@;
        acts.append(&mut more);
        proof {
            assert(acts@ == pre + rest);
            if acts@.len() == pre.len() + 1 {
                assert(acts@.drop_last() =~= pre);
            }
        }
        Ok(acts)
    }

    pub fn append_entries(&mut self, peer_id: u64, append_entries: AppendEntries<SM::Event>) -> (r:
        Result<Vec<NetAction<SM::Event>>, ()>)
        requires
            old(self)@.wf(),
            (!old(self)@.is_leader() && append_entries.term >= old(self)@.curr_term)
                ==> try_append_in_bounds(
                old(self)@.log,
                append_entries.prev_log_term,
                append_entries.prev_log_index,
            ),
        ensures
            final(self)@ == old(self)@.append_entries_next(append_entries),
            final(self)@.wf(),
            final(self).sm == old(self).sm,
            r is Err <==> old(self)@.is_leader(),
            r is Ok ==> r->Ok_0@ == old(self)@.append_entries_actions(peer_id, append_entries),
    {
        if self.is_leader() {
            return Err(());
        }
        let mut resp = AppendEntriesResponse {
            last_index: self.log.last_index(),
            term: self.curr_term,
            success: false,
        };
        let mut acts: Vec<NetAction<SM::Event>> = Vec::new();
        if append_entries.term >= self.curr_term {
            match self.log.try_append(
                append_entries.prev_log_term,
                append_entries.prev_log_index,
                append_entries.entries,
            ) {
                Err(last_index) => {
                    resp.last_index = last_index;
                },
                Ok(last_index) => {
                    if append_entries.leader_commit > self.commit_index {
                        self.commit_index =
                        if append_entries.leader_commit <= last_index {
                            append_entries.leader_commit
                        } else {
                            last_index
                        };
                    }
                    resp.success = true;
                    acts.push(NetAction::ResetTimer(TimerKind::Election));
                },
            }
        }
        acts.push(NetAction::Send(peer_id, Msg::AppendEntriesResponse(resp)));
        Ok(acts)
    }

    pub fn append_entries_response(&mut self, peer_id: u64, append_entries_response: AppendEntriesResponse) -> (acts: Vec<NetAction<SM::Event>>)
        requires
            old(self)@.wf(),
            old(self)@.is_leader() ==> (append_entries_response.last_index < u64::MAX && (
            !append_entries_response.success ==> slice_to_end_in_bounds(
                old(self)@.log,
                (append_entries_response.last_index + 1) as u64,
            ))),
        ensures
            final(self)@ == old(self)@.append_entries_response_next(peer_id, append_entries_response),
            final(self)@.wf(),
            final(self).sm == old(self).sm,
            if old(self)@.is_leader() && !append_entries_response.success {
                &&& acts@.len() == 1
                &&& sends_update(acts@[0], old(self)@, peer_id, (append_entries_response.last_index + 1) as u64)
            } else {
                acts@.len() == 0
            },
    {
        let mut role = RoleState::Follower;
        std::mem::swap(&mut role, &mut self.role_state);
        match role {
            RoleState::Leader { mut next_indexes, mut match_indexes } => {
                let ghost old_next = next_indexes@;
                let ghost old_match = match_indexes@;
                next_indexes.insert(peer_id, append_entries_response.last_index + 1);
                match_indexes.insert(peer_id, append_entries_response.last_index);
                proof {
                    lemma_info_insert(old_next, peer_id, (append_entries_response.last_index + 1) as u64);
                    lemma_info_insert(old_match, peer_id, append_entries_response.last_index);
                }
                if append_entries_response.success {
                    // success means the log is saved on the peer
                    let matched = match_indexes.values();
                    let quorum_match_index: u64 = quorum_match_index(matched.as_slice());
                    let commits = match self.log.at(quorum_match_index) {
                        Some(entry) => entry.term == self.curr_term,
                        None => false,
                    };
                    if commits {
                        self.commit_index = quorum_match_index;
                    }
                    self.role_state = RoleState::Leader { next_indexes, match_indexes };
                    Vec::new()
                } else {
                    // retry with the entries from the new next index on
                    let append = update_peer_request(
                        &self.log,
                        self.id,
                        self.curr_term,
                        self.commit_index,
                        &next_indexes,
                        peer_id,
                    );
                    self.role_state = RoleState::Leader { next_indexes, match_indexes };
                    vec![NetAction::Send(peer_id, Msg::AppendEntries(append))]
                }
            },
            other => {
                self.role_state = other;
                Vec::new()
            },
        }
    }

    pub fn request_vote(&self, peer_id: u64, request_vote: RequestVote) -> (acts: Vec<NetAction<SM::Event>>)
        ensures
            acts@ == self@.request_vote_actions(peer_id, request_vote),
    {
        let vote_granted = if request_vote.term < self.curr_term {
            false
        } else {
            match self.voted_for {
                Some(id) if id != request_vote.candidate_id => false,
                _ => {
                    let last_term: u64 = self.log.last_term();
                    let last_index: u64 = self.log.last_index();
                    request_vote.last_log_term > last_term || (request_vote.last_log_term
                        == last_term && request_vote.last_log_index >= last_index)
                },
            }
        };
        let resp = RequestVoteResponse { term: self.curr_term, vote_granted };
        let mut acts: Vec<NetAction<SM::Event>> = Vec::new();
        if vote_granted {
            acts.push(NetAction::ResetTimer(TimerKind::Election));
        }
        acts.push(NetAction::Send(peer_id, Msg::RequestVoteResponse(resp)));
        acts
    }

    pub fn request_vote_response(&mut self, peer_id: u64, request_vote_response: RequestVoteResponse) -> (acts: Vec<NetAction<SM::Event>>)
        requires
            old(self)@.wf(),
            (old(self)@.wins_with(peer_id, request_vote_response) && old(self)@.peers.len() > 0)
                ==> old(self)@.last_index() < u64::MAX,
        ensures
            final(self)@ == old(self)@.request_vote_response_next(peer_id, request_vote_response),
            final(self)@.wf(),
            final(self).sm == old(self).sm,
            acts@ == if old(self)@.wins_with(peer_id, request_vote_response) {
                seq![NetAction::<SM::Event>::ResetTimer(TimerKind::Heartbeat)]
            } else {
                seq![]
            },
    {
        let mut role = RoleState::Follower;
        std::mem::swap(&mut role, &mut self.role_state);
        match role {
            RoleState::Candidate { mut votes } => {
                if !request_vote_response.vote_granted {
                    self.role_state = RoleState::Candidate { votes };
                    return Vec::new();
                }
                let ghost old_votes = votes@;
                votes.insert(peer_id, true);
                proof {
                    lemma_info_insert(old_votes, peer_id, true);
                }
                let granted = votes.values();
                let mut vote_count: usize = 0;
                let mut i: usize = 0;
                while i < granted.len()
                    invariant
                        granted@ == votes@.map_values(|p: (u64, bool)| p.1),
                        i <= granted@.len(),
                        vote_count == count_granted(votes@.take(i as int)),
                        vote_count <= i,
                    decreases granted.len() - i,
                {
                    proof {
                        assert(votes@.take(i + 1).drop_last() =~= votes@.take(i as int));
                    }
                    if granted[i] {
                        vote_count += 1;
                    }
                    i += 1;
                }
                proof {
                    assert(votes@.take(votes@.len() as int) =~= votes@);
                }
                let quorum: usize = self.configuration.peers.len() / 2 + 1;
                if vote_count >= quorum {
                    let ghost next_index = (self@.last_index() + 1) as u64;
                    let mut next_indexes: PeerIndexes = PeerInfos::new();
                    let mut match_indexes: PeerIndexes = PeerInfos::new();
                    let mut k: usize = 0;
                    while k < self.configuration.peers.len()
                        invariant
                            k <= self@.peers.len(),
                            self@.peers.len() > 0 ==> self@.last_index() < u64::MAX,
                            next_index == (self@.last_index() + 1) as u64,
                            next_indexes@ == fill_infos(self@.peers.take(k as int), next_index),
                            match_indexes@ == fill_infos(self@.peers.take(k as int), 0u64),
                        decreases self.configuration.peers.len() - k,
                    {
                        let peer_id: u64 = self.configuration.peers[k].id;
                        proof {
                            assert(self@.peers.take(k + 1).drop_last() =~= self@.peers.take(k as int));
                        }
                        next_indexes.insert(peer_id, self.log.last_index() + 1);
                        match_indexes.insert(peer_id, 0);
                        k += 1;
                    }
                    proof {
                        assert(self@.peers.take(self@.peers.len() as int) =~= self@.peers);
                        lemma_fill_infos(self@.peers, next_index);
                        lemma_fill_infos(self@.peers, 0u64);
                    }
                    self.role_state = RoleState::Leader { next_indexes, match_indexes };
                    vec![NetAction::ResetTimer(TimerKind::Heartbeat)]
                } else {
                    self.role_state = RoleState::Candidate { votes };
                    Vec::new()
                }
            },
            other => {
                self.role_state = other;
                Vec::new()
            },
        }
    }

    /// Whether `apply_committed` can be carried out.
    pub fn apply_ready(&self) -> (r: bool)
        ensures
            r == self@.apply_in_bounds(),
    {
        if self.commit_index <= self.last_applied {
            return true;
        }
        if self.commit_index == u64::MAX {
            return false;
        }
        if self.log_is_empty() {
            return true;
        }
        let last: i128 = signed(self.log.last_index());
        let from: i128 = signed(self.last_applied + 1);
        let to: i128 = signed(self.commit_index + 1);
        // an index has a position where it lies past the last entry or can
        // be read
        let from_placed = from > last || self.log.at(self.last_applied + 1).is_some();
        let to_placed = to > last || self.log.at(self.commit_index + 1).is_some();
        !(from_placed && to_placed) || (from <= to && to <= last + 1)
    }

    /// Whether the log holds no entry.
    pub fn log_is_empty(&self) -> (r: bool)
        ensures
            r == (self@.log.len() == 0),
    {
        // an entry at position 0 would be found at index 0 where it is last
        self.log.last_index() == 0 && self.log.at(0).is_none()
    }

    /// Whether `update_peers` can be carried out.
    pub fn updates_ready(&self) -> (r: bool)
        requires
            self@.wf(),
        ensures
            r == self@.updates_in_bounds(),
    {
        match &self.role_state {
            RoleState::Leader { next_indexes, .. } => {
                if self.log_is_empty() {
                    return true;
                }
                let last: i128 = signed(self.log.last_index());
                let mut k: usize = 0;
                while k < self.configuration.peers.len()
                    invariant
                        self@.wf(),
                        self@.log.len() > 0,
                        last == as_signed(self@.last_index()),
                        self@.role == (RoleView::Leader { next_indexes: next_indexes@, match_indexes: self@.role->match_indexes }),
                        k <= self@.peers.len(),
                        forall|p: int|
                            0 <= p < k && self@.peers[p].id != self@.id ==> slice_to_end_in_bounds(
                                self@.log,
                                info_get(next_indexes@, #[trigger] self@.peers[p].id),
                            ),
                    decreases self.configuration.peers.len() - k,
                {
                    let peer_id: u64 = self.configuration.peers[k].id;
                    if peer_id != self.id {
                        proof {
                            assert(self@.peers[k as int].id == peer_id);
                        }
                        let next: u64 = next_indexes.get(peer_id);
                        if signed(next) > last + 1 {
                            return false;
                        }
                    }
                    k += 1;
                }
                true
            },
            _ => true,
        }
    }

    /// Whether `handle_rpc` can be carried out on this message.
    pub fn rpc_ready(&self, peer_id: u64, msg: &Msg<SM::Event>) -> (r: bool)
        requires
            self@.wf(),
        ensures
            r == self@.rpc_in_bounds(peer_id, *msg),
    {
        let term: u64 = msg.term();
        let steps_down = term > self.curr_term;
        let leader_after = !steps_down && self.is_leader();
        let term_after: u64 = if steps_down {
            term
        } else {
            self.curr_term
        };
        match msg {
            Msg::AppendEntries(a) => {
                if leader_after || a.term < term_after {
                    true
                } else if (a.prev_log_index == 0 && a.prev_log_term == 0) || a.prev_log_index
                    < u64::MAX {
                    true
                } else {
                    match self.log.at(a.prev_log_index) {
                        Some(e) => e.term != a.prev_log_term,
                        None => true,
                    }
                }
            },
            Msg::AppendEntriesResponse(resp) => !leader_after || (resp.last_index < u64::MAX && (
            resp.success || self.log_is_empty() || signed(resp.last_index + 1) <= signed(
                self.log.last_index(),
            ) + 1)),
            Msg::RequestVote(_) => true,
            Msg::RequestVoteResponse(resp) => {
                if steps_down || !resp.vote_granted || self.configuration.peers.len() == 0
                    || self.log.last_index() < u64::MAX {
                    true
                } else {
                    match &self.role_state {
                        RoleState::Candidate { votes } => {
                            proof {
                                lemma_count_granted_insert(votes@, peer_id);
                            }
                            let others: usize = votes.granted_except(peer_id);
                            let quorum: usize = self.configuration.peers.len() / 2 + 1;
                            others < quorum - 1
                        },
                        _ => true,
                    }
                }
            },
        }
    }

    /// Applies the committed entries that were not applied yet, and says
    /// whether there were any.
    pub fn apply_committed(&mut self) -> (r: bool)
        requires
            old(self)@.wf(),
            old(self)@.apply_in_bounds(),
        ensures
            r == (old(self)@.commit_index > old(self)@.last_applied),
            final(self)@ == old(self)@.apply_next(),
            final(self)@.wf(),
            !r ==> final(self).sm == old(self).sm,
    {
        if self.commit_index > self.last_applied {
            let events = self.log.slice(self.last_applied + 1, self.commit_index + 1);
            self.sm.execute_batch(events);
            self.last_applied = self.commit_index;
            true
        } else {
            false
        }
    }
}

} // verus!
