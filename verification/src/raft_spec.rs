use crate::raft_network::{NetEvent, SelectedAction, TimerKind};
use crate::raft_state::{
    info_get, info_insert, key_position, keys_unique, lemma_info_insert, lemma_key_position, AppendEntries, AppendEntriesResponse, Msg,
    NetAction, PeerConfig, RequestVote, RequestVoteResponse,
};
use crate::raft_storage::{
    log_entry_at, log_last_index, log_last_term, log_push, log_slice, log_slice_to_end, log_try_append,
    slice_in_bounds, slice_to_end_in_bounds, try_append_in_bounds, LogEntry,
};
use crate::utils::upper_median;
use std::time::Duration;
use vstd::prelude::*;

verus! {

/// The role of a node, with what the node keeps for that role.
pub enum RoleView {
    Follower,
    Leader { next_indexes: Seq<(u64, u64)>, match_indexes: Seq<(u64, u64)> },
    Candidate { votes: Seq<(u64, bool)> },
}

/// The state of one node, as the transitions below speak of it.
pub struct RaftView<E> {
    pub id: u64,
    pub peers: Seq<PeerConfig>,
    pub curr_term: u64,
    pub voted_for: Option<u64>,
    pub log: Seq<LogEntry<E>>,
    /// The current term kept in the storage.
    pub stored_term: u64,
    /// The vote kept in the storage.
    pub stored_vote: Option<u64>,
    /// The events handed to the state machine, in order.
    pub applied: Seq<E>,
    pub commit_index: u64,
    pub last_applied: u64,
    pub role: RoleView,
}

/// The ids of the configured peers other than `id`, in order.
pub open spec fn other_peer_ids(peers: Seq<PeerConfig>, id: u64) -> Seq<u64>
    decreases peers.len(),
{
    if peers.len() == 0 {
        Seq::empty()
    } else {
        let rest = other_peer_ids(peers.drop_last(), id);
        if peers.last().id != id {
            rest.push(peers.last().id)
        } else {
            rest
        }
    }
}

/// The peers a leader sends append requests to: every other configured
/// peer, in order, when it is a heartbeat; otherwise those that miss
/// entries.
pub open spec fn update_targets<E>(
    peers: Seq<PeerConfig>,
    id: u64,
    log: Seq<LogEntry<E>>,
    next_indexes: Seq<(u64, u64)>,
    is_heartbeat: bool,
) -> Seq<u64>
    decreases peers.len(),
{
    if peers.len() == 0 {
        Seq::empty()
    } else {
        let rest = update_targets(peers.drop_last(), id, log, next_indexes, is_heartbeat);
        let peer_id = peers.last().id;
        if peer_id != id && (is_heartbeat || log_slice_to_end(log, info_get(next_indexes, peer_id)).len() > 0) {
            rest.push(peer_id)
        } else {
            rest
        }
    }
}

/// The peer infos after storing `val` for every configured peer, in order.
pub open spec fn fill_infos<T>(peers: Seq<PeerConfig>, val: T) -> Seq<(u64, T)>
    decreases peers.len(),
{
    if peers.len() == 0 {
        Seq::empty()
    } else {
        info_insert(fill_infos(peers.drop_last(), val), peers.last().id, val)
    }
}

/// Storing the same value for every configured peer gives each of them
/// that value, once.
pub proof fn lemma_fill_infos<T>(peers: Seq<PeerConfig>, val: T)
    ensures
        ({
            let f = fill_infos(peers, val);
            &&& keys_unique(f)
            &&& forall|p: int| 0 <= p < peers.len() ==> key_position(f, #[trigger] peers[p].id) is Some
            &&& forall|i: int| 0 <= i < f.len() ==> (#[trigger] f[i]).1 == val
        }),
    decreases peers.len(),
{
    if peers.len() > 0 {
        let rest = fill_infos(peers.drop_last(), val);
        lemma_fill_infos(peers.drop_last(), val);
        lemma_info_insert(rest, peers.last().id, val);
        let f = fill_infos(peers, val);
        assert forall|p: int| 0 <= p < peers.len() implies key_position(f, #[trigger] peers[p].id) is Some by {
            if p < peers.len() - 1 {
                assert(peers[p] == peers.drop_last()[p]);
            }
        }
    }
}

/// Number of peers whose vote is granted.
pub open spec fn count_granted(votes: Seq<(u64, bool)>) -> nat
    decreases votes.len(),
{
    if votes.len() == 0 {
        0
    } else {
        count_granted(votes.drop_last()) + if votes.last().1 { 1nat } else { 0nat }
    }
}

/// Number of granted votes of peers other than `peer_id`.
pub open spec fn count_granted_except(votes: Seq<(u64, bool)>, peer_id: u64) -> nat
    decreases votes.len(),
{
    if votes.len() == 0 {
        0
    } else {
        count_granted_except(votes.drop_last(), peer_id) + if votes.last().0 != peer_id
            && votes.last().1 {
            1nat
        } else {
            0nat
        }
    }
}

proof fn lemma_count_granted_split(votes: Seq<(u64, bool)>, peer_id: u64)
    requires
        keys_unique(votes),
    ensures
        count_granted(votes) == count_granted_except(votes, peer_id) + if key_position(
            votes,
            peer_id,
        ) is Some && info_get(votes, peer_id) {
            1nat
        } else {
            0nat
        },
    decreases votes.len(),
{
    if votes.len() > 0 {
        let r = votes.drop_last();
        assert(keys_unique(r));
        lemma_count_granted_split(r, peer_id);
        lemma_key_position(r, peer_id);
        lemma_key_position(votes, peer_id);
        if votes.last().0 == peer_id {
            assert forall|j: int| 0 <= j < r.len() implies r[j].0 != peer_id by {
                assert(votes[j] == r[j]);
            }
            assert(key_position(r, peer_id) is None);
        } else {
            if key_position(r, peer_id) is Some {
                let i = key_position(r, peer_id)->0;
                assert(votes[i] == r[i]);
            }
        }
    }
}

proof fn lemma_count_granted_except_update(votes: Seq<(u64, bool)>, peer_id: u64, q: int, val: bool)
    requires
        0 <= q < votes.len(),
        votes[q].0 == peer_id,
    ensures
        count_granted_except(votes.update(q, (peer_id, val)), peer_id) == count_granted_except(
            votes,
            peer_id,
        ),
    decreases votes.len(),
{
    let u = votes.update(q, (peer_id, val));
    if q == votes.len() - 1 {
        assert(u.drop_last() =~= votes.drop_last());
    } else {
        assert(u.drop_last() =~= votes.drop_last().update(q, (peer_id, val)));
        lemma_count_granted_except_update(votes.drop_last(), peer_id, q, val);
    }
}

/// With no peer twice, a granted vote of `peer_id` counts once, besides the
/// granted votes of the other peers.
pub proof fn lemma_count_granted_insert(votes: Seq<(u64, bool)>, peer_id: u64)
    requires
        keys_unique(votes),
    ensures
        count_granted(info_insert(votes, peer_id, true)) == count_granted_except(votes, peer_id)
            + 1,
{
    let ins = info_insert(votes, peer_id, true);
    lemma_info_insert(votes, peer_id, true);
    lemma_key_position(votes, peer_id);
    lemma_count_granted_split(ins, peer_id);
    match key_position(votes, peer_id) {
        Some(q) => {
            lemma_count_granted_except_update(votes, peer_id, q, true);
        },
        None => {
            assert(ins.drop_last() =~= votes);
        },
    }
}

/// The stored values, in order.
pub open spec fn info_values<T>(s: Seq<(u64, T)>) -> Seq<T> {
    s.map_values(|p: (u64, T)| p.1)
}

/// A log ending in (`last_term`, `last_index`) is at least as up to date as
/// one ending in (`term`, `index`): pairs compared term first.
pub open spec fn log_up_to_date(last_term: u64, last_index: u64, term: u64, index: u64) -> bool {
    last_term > term || (last_term == term && last_index >= index)
}

/// `dst` holds copies of the entries of `src`: same index and term, and a
/// clone of the data.
pub open spec fn entries_copied<E: Clone>(src: Seq<LogEntry<E>>, dst: Seq<LogEntry<E>>) -> bool {
    &&& src.len() == dst.len()
    &&& forall|i: int|
        0 <= i < src.len() ==> {
            &&& #[trigger] dst[i].index == src[i].index
            &&& dst[i].term == src[i].term
            &&& cloned(src[i].data, dst[i].data)
        }
}

/// The append request a leader sends to a peer whose next index is
/// `next_index`: the entry before it, and copies of all entries from it on.
pub open spec fn is_update_request<E: Clone>(
    a: AppendEntries<E>,
    log: Seq<LogEntry<E>>,
    id: u64,
    term: u64,
    commit_index: u64,
    next_index: u64,
) -> bool {
    let prev = log_entry_at(log, (next_index - 1) as u64);
    &&& a.term == term
    &&& a.leader_id == id
    &&& a.leader_commit == commit_index
    &&& a.prev_log_index == (match prev {
        Some(e) => e.index,
        None => 0,
    })
    &&& a.prev_log_term == (match prev {
        Some(e) => e.term,
        None => 0,
    })
    &&& entries_copied(log_slice_to_end(log, next_index), a.entries@)
}

/// `act` sends to `peer_id` the append request for next index `next_index`.
pub open spec fn sends_update<E: Clone>(act: NetAction<E>, v: RaftView<E>, peer_id: u64, next_index: u64) -> bool {
    match act {
        NetAction::Send(p, Msg::AppendEntries(a)) => p == peer_id && is_update_request(
            a,
            v.log,
            v.id,
            v.curr_term,
            v.commit_index,
            next_index,
        ),
        _ => false,
    }
}

/// `acts` are the append requests of a leader with next indexes
/// `next_indexes`, one to each target, in order.
pub open spec fn sends_updates<E: Clone>(
    acts: Seq<NetAction<E>>,
    v: RaftView<E>,
    next_indexes: Seq<(u64, u64)>,
    is_heartbeat: bool,
) -> bool {
    let targets = update_targets(v.peers, v.id, v.log, next_indexes, is_heartbeat);
    &&& acts.len() == targets.len()
    &&& forall|i: int|
        0 <= i < targets.len() ==> sends_update(
            #[trigger] acts[i],
            v,
            targets[i],
            info_get(next_indexes, targets[i]),
        )
}

/// Some message failed to go out.
pub open spec fn sends_failed<E>(events: Seq<NetEvent<E>>) -> bool
    decreases events.len(),
{
    if events.len() == 0 {
        false
    } else {
        sends_failed(events.drop_last()) || events.last() matches NetEvent::Sent(_, _, false)
    }
}

/// `events` is what the network is asked when the actions are carried out
/// in order: timers are always reset, and messages are sent until one
/// fails to go out, after which the remaining messages are skipped.
pub open spec fn performs<E>(actions: Seq<NetAction<E>>, events: Seq<NetEvent<E>>) -> bool
    decreases actions.len(),
{
    if actions.len() == 0 {
        events.len() == 0
    } else {
        let rest = actions.drop_last();
        match actions.last() {
            NetAction::ResetTimer(k) => {
                &&& events.len() > 0
                &&& events.last() == NetEvent::<E>::TimerReset(k)
                &&& performs(rest, events.drop_last())
            },
            NetAction::Send(p, m) => {
                ||| sends_failed(events) && performs(rest, events)
                ||| {
                    &&& events.len() > 0
                    &&& !sends_failed(events.drop_last())
                    &&& events.last() matches NetEvent::Sent(q, n, _) && q == p && n == m
                    &&& performs(rest, events.drop_last())
                }
            },
        }
    }
}

/// Each target as a message to send.
pub open spec fn send_actions<E>(targets: Seq<(u64, Msg<E>)>) -> Seq<NetAction<E>> {
    targets.map_values(|t: (u64, Msg<E>)| NetAction::Send(t.0, t.1))
}

/// Once a message failed to go out, further messages are skipped.
pub proof fn lemma_sends_skipped_after_failure<E>(
    done: Seq<NetAction<E>>,
    rest: Seq<NetAction<E>>,
    events: Seq<NetEvent<E>>,
)
    requires
        performs(done, events),
        sends_failed(events),
        forall|i: int| 0 <= i < rest.len() ==> #[trigger] rest[i] is Send,
    ensures
        performs(done + rest, events),
    decreases rest.len(),
{
    if rest.len() == 0 {
        assert(done + rest =~= done);
    } else {
        let shorter = rest.drop_last();
        assert forall|i: int| 0 <= i < shorter.len() implies #[trigger] shorter[i] is Send by {
            assert(shorter[i] == rest[i]);
        }
        lemma_sends_skipped_after_failure(done, shorter, events);
        assert((done + rest).drop_last() =~= done + shorter);
        assert((done + rest).last() == rest.last());
        assert(rest[rest.len() - 1] is Send);
    }
}

/// The events `later` added to what the network was asked in `earlier`.
pub open spec fn added_events<E>(earlier: Seq<NetEvent<E>>, later: Seq<NetEvent<E>>) -> Seq<
    NetEvent<E>,
> {
    later.subrange(earlier.len() as int, later.len() as int)
}

/// Handling one more action adds its events after those of the earlier ones.
pub proof fn lemma_steps_events_push<E: Clone>(
    v: RaftView<E>,
    actions: Seq<SelectedAction<E>>,
    action: SelectedAction<E>,
    events: Seq<NetEvent<E>>,
    step: Seq<NetEvent<E>>,
)
    requires
        v.steps_events(actions, events),
        v.node_steps(actions).step_events(action, step),
    ensures
        v.steps_events(actions.push(action), events + step),
{
    let parts = choose|parts: Seq<Seq<NetEvent<E>>>|
        {
            &&& #[trigger] parts.flatten_alt() == events
            &&& parts.len() == actions.len()
            &&& forall|i: int|
                0 <= i < actions.len() ==> v.node_steps(actions.take(i)).step_events(
                    actions[i],
                    #[trigger] parts[i],
                )
        };
    let all = actions.push(action);
    let parts2 = parts.push(step);
    assert(parts2.drop_last() =~= parts);
    assert(parts2.flatten_alt() == events + step);
    assert forall|i: int| 0 <= i < all.len() implies v.node_steps(all.take(i)).step_events(
        all[i],
        #[trigger] parts2[i],
    ) by {
        if i < actions.len() {
            assert(all.take(i) =~= actions.take(i));
        } else {
            assert(all.take(i) =~= actions);
        }
    }
}

/// One round took a node from `v0` to `v` while its network was asked
/// `h0` and then `h`: the committed entries were applied, a leader's pending
/// append requests were sent, the network was asked to select at most
/// `max_actions` actions within `timeout`, and every action it left in the
/// buffer was handled, in order. `r` says whether there was any.
pub open spec fn is_round<E: Clone>(
    v0: RaftView<E>,
    h0: Seq<NetEvent<E>>,
    v: RaftView<E>,
    h: Seq<NetEvent<E>>,
    max_actions: usize,
    timeout: Duration,
    r: bool,
) -> bool {
    let v1 = v0.apply_step();
    &&& h0.is_prefix_of(h)
    &&& exists|k: int|
        #![trigger h[k]]
        {
            &&& h0.len() <= k < h.len()
            &&& v1.round_start_events(h.subrange(h0.len() as int, k))
            &&& h[k] matches NetEvent::Selected(m, t, selected) && m == max_actions && t
                == timeout && v1.steps_events(selected, h.skip(k + 1)) && v == v1.node_steps(
                selected,
            ) && r == (selected.len() > 0)
        }
}

impl<E> RaftView<E> {
    pub open spec fn last_index(self) -> u64 {
        log_last_index(self.log)
    }

    pub open spec fn last_term(self) -> u64 {
        log_last_term(self.log)
    }

    pub open spec fn is_leader(self) -> bool {
        self.role is Leader
    }

    /// What the role keeps is consistent: no peer twice, every other
    /// configured peer has a next index, and every next index is at least 1.
    pub open spec fn wf(self) -> bool {
        match self.role {
            RoleView::Leader { next_indexes, match_indexes } => {
                &&& keys_unique(next_indexes)
                &&& keys_unique(match_indexes)
                &&& forall|p: int|
                    0 <= p < self.peers.len() && self.peers[p].id != self.id ==> key_position(
                        next_indexes,
                        #[trigger] self.peers[p].id,
                    ) is Some
                &&& forall|i: int|
                    0 <= i < next_indexes.len() ==> 1 <= #[trigger] next_indexes[i].1
            },
            RoleView::Candidate { votes } => keys_unique(votes),
            RoleView::Follower => true,
        }
    }

    /// The append requests of a leader can be built: the next index of
    /// every other configured peer lies at most one past the last entry.
    pub open spec fn updates_in_bounds(self) -> bool {
        match self.role {
            RoleView::Leader { next_indexes, .. } => forall|p: int|
                0 <= p < self.peers.len() && self.peers[p].id != self.id ==> slice_to_end_in_bounds(
                    self.log,
                    info_get(next_indexes, #[trigger] self.peers[p].id),
                ),
            _ => true,
        }
    }

    /// The state after seeing a message of term `term`: a larger term is
    /// adopted, and the node becomes a follower.
    pub open spec fn observe_term(self, term: u64) -> RaftView<E> {
        if term > self.curr_term {
            RaftView { curr_term: term, role: RoleView::Follower, ..self }
        } else {
            self
        }
    }

    /// The actions of seeing a message of term `term`.
    pub open spec fn observe_term_actions(self, term: u64) -> Seq<NetAction<E>> {
        if term > self.curr_term {
            seq![NetAction::ResetTimer(TimerKind::Election)]
        } else {
            seq![]
        }
    }

    /// The state after an append request, seen after the term step.
    pub open spec fn append_entries_next(self, a: AppendEntries<E>) -> RaftView<E> {
        if self.is_leader() || a.term < self.curr_term {
            self
        } else {
            let (log2, res) = log_try_append(self.log, a.prev_log_term, a.prev_log_index, a.entries@);
            match res {
                Ok(last) => RaftView {
                    log: log2,
                    commit_index: if a.leader_commit > self.commit_index {
                        if a.leader_commit <= last {
                            a.leader_commit
                        } else {
                            last
                        }
                    } else {
                        self.commit_index
                    },
                    ..self
                },
                Err(_) => RaftView { log: log2, ..self },
            }
        }
    }

    /// The actions of an append request, seen after the term step.
    pub open spec fn append_entries_actions(self, peer_id: u64, a: AppendEntries<E>) -> Seq<
        NetAction<E>,
    > {
        if a.term < self.curr_term {
            seq![
                NetAction::Send(
                    peer_id,
                    Msg::AppendEntriesResponse(
                        AppendEntriesResponse {
                            last_index: self.last_index(),
                            term: self.curr_term,
                            success: false,
                        },
                    ),
                ),
            ]
        } else {
            let (_log2, res) = log_try_append(self.log, a.prev_log_term, a.prev_log_index, a.entries@);
            match res {
                Ok(_) => seq![
                    NetAction::ResetTimer(TimerKind::Election),
                    NetAction::Send(
                        peer_id,
                        Msg::AppendEntriesResponse(
                            AppendEntriesResponse {
                                last_index: self.last_index(),
                                term: self.curr_term,
                                success: true,
                            },
                        ),
                    ),
                ],
                Err(last) => seq![
                    NetAction::Send(
                        peer_id,
                        Msg::AppendEntriesResponse(
                            AppendEntriesResponse { last_index: last, term: self.curr_term, success: false },
                        ),
                    ),
                ],
            }
        }
    }

    /// The state after a response to an append request, seen after the term
    /// step. A leader records the peer's progress, and commits the index a
    /// majority has reached when its entry is of the current term.
    pub open spec fn append_entries_response_next(self, peer_id: u64, r: AppendEntriesResponse) -> RaftView<E> {
        match self.role {
            RoleView::Leader { next_indexes, match_indexes } => {
                let next2 = info_insert(next_indexes, peer_id, (r.last_index + 1) as u64);
                let match2 = info_insert(match_indexes, peer_id, r.last_index);
                let role2 = RoleView::Leader { next_indexes: next2, match_indexes: match2 };
                if r.success {
                    let q = upper_median(info_values(match2));
                    let commit2 = match log_entry_at(self.log, q) {
                        Some(e) => if e.term == self.curr_term {
                            q
                        } else {
                            self.commit_index
                        },
                        None => self.commit_index,
                    };
                    RaftView { role: role2, commit_index: commit2, ..self }
                } else {
                    RaftView { role: role2, ..self }
                }
            },
            _ => self,
        }
    }

    /// Whether a vote request is granted: its term is not behind, this node
    /// has not voted for another candidate, and the candidate's log is at
    /// least as up to date.
    pub open spec fn grants_vote(self, rv: RequestVote) -> bool {
        &&& rv.term >= self.curr_term
        &&& match self.voted_for {
            Some(c) => c == rv.candidate_id,
            None => true,
        }
        &&& log_up_to_date(rv.last_log_term, rv.last_log_index, self.last_term(), self.last_index())
    }

    /// The actions of a vote request, seen after the term step.
    pub open spec fn request_vote_actions(self, peer_id: u64, rv: RequestVote) -> Seq<NetAction<E>> {
        let granted = self.grants_vote(rv);
        let reply = NetAction::Send(
            peer_id,
            Msg::RequestVoteResponse(RequestVoteResponse { term: self.curr_term, vote_granted: granted }),
        );
        if granted {
            seq![NetAction::ResetTimer(TimerKind::Election), reply]
        } else {
            seq![reply]
        }
    }

    /// The number of granted votes that makes a candidate leader.
    pub open spec fn quorum(self) -> nat {
        self.peers.len() / 2 + 1
    }

    /// Whether a granted vote makes this candidate leader.
    pub open spec fn wins_with(self, peer_id: u64, r: RequestVoteResponse) -> bool {
        match self.role {
            RoleView::Candidate { votes } => r.vote_granted && count_granted(
                info_insert(votes, peer_id, true),
            ) >= self.quorum(),
            _ => false,
        }
    }

    /// The state after a response to a vote request, seen after the term
    /// step. A candidate records a granted vote and becomes leader with a
    /// majority of the configuration.
    pub open spec fn request_vote_response_next(self, peer_id: u64, r: RequestVoteResponse) -> RaftView<E> {
        match self.role {
            RoleView::Candidate { votes } => if r.vote_granted {
                if self.wins_with(peer_id, r) {
                    RaftView {
                        role: RoleView::Leader {
                            next_indexes: fill_infos(self.peers, (self.last_index() + 1) as u64),
                            match_indexes: fill_infos(self.peers, 0u64),
                        },
                        ..self
                    }
                } else {
                    RaftView {
                        role: RoleView::Candidate { votes: info_insert(votes, peer_id, true) },
                        ..self
                    }
                }
            } else {
                self
            },
            _ => self,
        }
    }

    /// The state after a message from `peer_id`.
    pub open spec fn rpc_next(self, peer_id: u64, msg: Msg<E>) -> RaftView<E> {
        let w = self.observe_term(msg.spec_term());
        match msg {
            Msg::AppendEntries(a) => w.append_entries_next(a),
            Msg::AppendEntriesResponse(r) => w.append_entries_response_next(peer_id, r),
            Msg::RequestVote(_) => w,
            Msg::RequestVoteResponse(r) => w.request_vote_response_next(peer_id, r),
        }
    }

    /// A message is refused, with no action: an append request reaching a
    /// leader.
    pub open spec fn rpc_refused(self, msg: Msg<E>) -> bool {
        msg is AppendEntries && self.observe_term(msg.spec_term()).is_leader()
    }

    /// The message can be handled: where handling it computes an index past
    /// the last representable one, or a next index past the end of the log,
    /// it is out of bounds.
    pub open spec fn rpc_in_bounds(self, peer_id: u64, msg: Msg<E>) -> bool {
        let w = self.observe_term(msg.spec_term());
        match msg {
            Msg::AppendEntries(a) => (!w.is_leader() && a.term >= w.curr_term) ==> try_append_in_bounds(
                w.log,
                a.prev_log_term,
                a.prev_log_index,
            ),
            Msg::AppendEntriesResponse(r) => w.is_leader() ==> (r.last_index < u64::MAX && (
            !r.success ==> slice_to_end_in_bounds(w.log, (r.last_index + 1) as u64))),
            Msg::RequestVote(_) => true,
            Msg::RequestVoteResponse(r) => (w.wins_with(peer_id, r) && w.peers.len() > 0) ==> w.last_index()
                < u64::MAX,
        }
    }

    /// `acts` are the actions of a message from `peer_id`: those of the
    /// term step, then those of the message. A leader that learns a
    /// failed append answers with the append request for the peer's new
    /// next index.
    pub open spec fn rpc_actions(self, peer_id: u64, msg: Msg<E>, acts: Seq<NetAction<E>>) -> bool
        where E: Clone
    {
        let w = self.observe_term(msg.spec_term());
        let pre = self.observe_term_actions(msg.spec_term());
        match msg {
            Msg::AppendEntries(a) => acts == pre + w.append_entries_actions(peer_id, a),
            Msg::AppendEntriesResponse(r) => if w.is_leader() && !r.success {
                &&& acts.len() == pre.len() + 1
                &&& acts.drop_last() == pre
                &&& sends_update(acts.last(), w, peer_id, (r.last_index + 1) as u64)
            } else {
                acts == pre
            },
            Msg::RequestVote(rv) => acts == pre + w.request_vote_actions(peer_id, rv),
            Msg::RequestVoteResponse(r) => acts == pre + if w.wins_with(peer_id, r) {
                seq![NetAction::ResetTimer(TimerKind::Heartbeat)]
            } else {
                seq![]
            },
        }
    }

    /// The state after one action the network handed over. An action that
    /// cannot be handled is dropped: a client request that would need an
    /// index past the last representable one, an election that would need
    /// a term past it, a message out of bounds.
    pub open spec fn node_step(self, action: SelectedAction<E>) -> RaftView<E> {
        match action {
            SelectedAction::Client(event) => if self.is_leader() && self.last_index() == u64::MAX {
                self
            } else {
                self.propose_next(event)
            },
            SelectedAction::Timer(TimerKind::Election) => if self.curr_term == u64::MAX {
                self
            } else {
                self.election_next()
            },
            SelectedAction::Timer(TimerKind::Heartbeat) => self,
            SelectedAction::Peer(peer_id, msg) => if self.rpc_in_bounds(peer_id, msg) {
                self.rpc_next(peer_id, msg)
            } else {
                self
            },
        }
    }

    /// `acts` are the network actions of one step: those of the state
    /// operation that handles the action, none where it is dropped or
    /// refused.
    pub open spec fn step_actions(self, action: SelectedAction<E>, acts: Seq<NetAction<E>>) -> bool
        where E: Clone
    {
        match action {
            SelectedAction::Client(_) => acts.len() == 0,
            SelectedAction::Timer(TimerKind::Election) => if self.curr_term == u64::MAX {
                acts.len() == 0
            } else {
                acts == self.election_actions()
            },
            SelectedAction::Timer(TimerKind::Heartbeat) => if self.updates_in_bounds() {
                match self.role {
                    RoleView::Leader { next_indexes, .. } => {
                        &&& acts.len() > 0
                        &&& sends_updates(acts.drop_last(), self, next_indexes, true)
                        &&& acts.last() == NetAction::<E>::ResetTimer(TimerKind::Heartbeat)
                    },
                    _ => acts.len() == 0,
                }
            } else {
                acts.len() == 0
            },
            SelectedAction::Peer(peer_id, msg) => if self.rpc_in_bounds(peer_id, msg)
                && !self.rpc_refused(msg) {
                self.rpc_actions(peer_id, msg, acts)
            } else {
                acts.len() == 0
            },
        }
    }

    /// `events` is what the network is asked in one step.
    pub open spec fn step_events(self, action: SelectedAction<E>, events: Seq<NetEvent<E>>) -> bool
        where E: Clone
    {
        exists|acts: Seq<NetAction<E>>| #[trigger]
            self.step_actions(action, acts) && performs(acts, events)
    }

    /// `events` is what the network is asked over the steps, in order: the
    /// events of each step, one after the other.
    pub open spec fn steps_events(self, actions: Seq<SelectedAction<E>>, events: Seq<NetEvent<E>>) -> bool
        where E: Clone
    {
        exists|parts: Seq<Seq<NetEvent<E>>>|
            {
                &&& #[trigger] parts.flatten_alt() == events
                &&& parts.len() == actions.len()
                &&& forall|i: int|
                    0 <= i < actions.len() ==> self.node_steps(actions.take(i)).step_events(
                        actions[i],
                        #[trigger] parts[i],
                    )
            }
    }

    /// `events` is what the network is asked at the start of a round: a
    /// leader's append requests for the peers that miss entries, where they
    /// can be built.
    pub open spec fn round_start_events(self, events: Seq<NetEvent<E>>) -> bool
        where E: Clone
    {
        match self.role {
            RoleView::Leader { next_indexes, .. } => if self.updates_in_bounds() {
                exists|acts: Seq<NetAction<E>>| #[trigger]
                    sends_updates(acts, self, next_indexes, false) && performs(acts, events)
            } else {
                events.len() == 0
            },
            _ => events.len() == 0,
        }
    }

    /// The state after the actions, in order.
    pub open spec fn node_steps(self, actions: Seq<SelectedAction<E>>) -> RaftView<E>
        decreases actions.len(),
    {
        if actions.len() == 0 {
            self
        } else {
            self.node_steps(actions.drop_last()).node_step(actions.last())
        }
    }

    /// The state after applying what is committed, where that can be done.
    pub open spec fn apply_step(self) -> RaftView<E> {
        if self.apply_in_bounds() {
            self.apply_next()
        } else {
            self
        }
    }

    /// The state after the election timer expired: a new term, a vote for
    /// itself, and candidacy.
    pub open spec fn election_next(self) -> RaftView<E> {
        RaftView {
            curr_term: (self.curr_term + 1) as u64,
            voted_for: Some(self.id),
            role: RoleView::Candidate { votes: seq![(self.id, true)] },
            ..self
        }
    }

    /// The actions after the election timer expired: a vote request to every
    /// other configured peer, then a new election timer.
    pub open spec fn election_actions(self) -> Seq<NetAction<E>> {
        let rv = RequestVote {
            term: (self.curr_term + 1) as u64,
            candidate_id: self.id,
            last_log_index: self.last_index(),
            last_log_term: self.last_term(),
        };
        other_peer_ids(self.peers, self.id).map_values(
            |peer_id: u64| NetAction::Send(peer_id, Msg::RequestVote(rv)),
        ).push(NetAction::ResetTimer(TimerKind::Election))
    }

    /// The state after a client request: a leader appends it to its log.
    pub open spec fn propose_next(self, event: E) -> RaftView<E> {
        if self.is_leader() {
            RaftView { log: log_push(self.log, self.curr_term, event), ..self }
        } else {
            self
        }
    }

    /// Committed entries can be applied: the indexes involved are
    /// representable and lie in the log.
    pub open spec fn apply_in_bounds(self) -> bool {
        self.commit_index > self.last_applied ==> {
            &&& self.commit_index < u64::MAX
            &&& slice_in_bounds(
                self.log,
                (self.last_applied + 1) as u64,
                (self.commit_index + 1) as u64,
            )
        }
    }

    /// The state after applying what is committed: the events of the
    /// entries after the last applied one, up to the committed one, are
    /// handed to the state machine.
    pub open spec fn apply_next(self) -> RaftView<E> {
        if self.commit_index > self.last_applied {
            RaftView {
                last_applied: self.commit_index,
                applied: self.applied + log_slice(
                    self.log,
                    (self.last_applied + 1) as u64,
                    (self.commit_index + 1) as u64,
                ).map_values(|e: LogEntry<E>| e.data),
                ..self
            }
        } else {
            self
        }
    }
}

} // verus!
