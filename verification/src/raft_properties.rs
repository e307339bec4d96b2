use crate::raft_network::{SelectedAction, TimerKind};
use crate::raft_spec::{
    count_granted, fill_infos, lemma_fill_infos, log_up_to_date, other_peer_ids, RaftView, RoleView,
};
use crate::raft_state::{
    info_insert, key_position, lemma_info_insert, lemma_key_position, AppendEntries, Msg, NetAction,
    PeerConfig, RequestVote, RequestVoteResponse,
};
use crate::raft_storage::{
    log_entry_at, log_last_index, log_last_term, try_append_succeeds_only_after_matching_entry,
    LogEntry,
};
use vstd::prelude::*;

verus! {

/// The term of a node is the larger of its term and that of the message.
pub proof fn rpc_adopts_larger_term<E>(v: RaftView<E>, peer_id: u64, msg: Msg<E>)
    ensures
        v.rpc_next(peer_id, msg).curr_term == if msg.spec_term() > v.curr_term {
            msg.spec_term()
        } else {
            v.curr_term
        },
{
}

/// A message of a larger term makes the node, whatever its role, a
/// follower in that term.
pub proof fn larger_term_makes_follower<E>(v: RaftView<E>, peer_id: u64, msg: Msg<E>)
    requires
        msg.spec_term() > v.curr_term,
    ensures
        v.rpc_next(peer_id, msg).role == RoleView::Follower,
        v.rpc_next(peer_id, msg).curr_term == msg.spec_term(),
{
}

/// No step lowers the term of a node.
pub proof fn node_step_never_lowers_term<E>(v: RaftView<E>, action: SelectedAction<E>)
    ensures
        v.node_step(action).curr_term >= v.curr_term,
{
}

/// Over any run, the term of a node never goes down.
pub proof fn node_steps_never_lower_term<E>(v: RaftView<E>, actions: Seq<SelectedAction<E>>)
    ensures
        v.node_steps(actions).curr_term >= v.curr_term,
    decreases actions.len(),
{
    if actions.len() > 0 {
        node_steps_never_lower_term(v, actions.drop_last());
        node_step_never_lowers_term(v.node_steps(actions.drop_last()), actions.last());
    }
}

proof fn rpc_keeps_wf<E>(v: RaftView<E>, peer_id: u64, msg: Msg<E>)
    requires
        v.wf(),
        v.rpc_in_bounds(peer_id, msg),
    ensures
        v.rpc_next(peer_id, msg).wf(),
{
    let w = v.observe_term(msg.spec_term());
    assert(w.wf());
    match msg {
        Msg::AppendEntriesResponse(r) => {
            match w.role {
                RoleView::Leader { next_indexes, match_indexes } => {
                    lemma_info_insert(next_indexes, peer_id, (r.last_index + 1) as u64);
                    lemma_info_insert(match_indexes, peer_id, r.last_index);
                    let next2 = info_insert(next_indexes, peer_id, (r.last_index + 1) as u64);
                    assert forall|p: int|
                        0 <= p < w.peers.len() && w.peers[p].id != w.id implies key_position(
                        next2,
                        #[trigger] w.peers[p].id,
                    ) is Some by {
                        assert(key_position(next_indexes, w.peers[p].id) is Some);
                    }
                },
                _ => {},
            }
        },
        Msg::RequestVoteResponse(r) => {
            match w.role {
                RoleView::Candidate { votes } => {
                    lemma_info_insert(votes, peer_id, true);
                    lemma_fill_infos(w.peers, (w.last_index() + 1) as u64);
                    lemma_fill_infos(w.peers, 0u64);
                },
                _ => {},
            }
        },
        _ => {},
    }
}

/// Every step keeps the state of a node well formed.
pub proof fn node_step_keeps_wf<E>(v: RaftView<E>, action: SelectedAction<E>)
    requires
        v.wf(),
    ensures
        v.node_step(action).wf(),
{
    match action {
        SelectedAction::Peer(peer_id, msg) => {
            if v.rpc_in_bounds(peer_id, msg) {
                rpc_keeps_wf(v, peer_id, msg);
            }
        },
        _ => {},
    }
}

/// Over any run, the state of a node stays well formed.
pub proof fn node_steps_keep_wf<E>(v: RaftView<E>, actions: Seq<SelectedAction<E>>)
    requires
        v.wf(),
    ensures
        v.node_steps(actions).wf(),
    decreases actions.len(),
{
    if actions.len() > 0 {
        node_steps_keep_wf(v, actions.drop_last());
        node_step_keeps_wf(v.node_steps(actions.drop_last()), actions.last());
    }
}

/// A node that is leader before and after a step only ever adds to the end
/// of its log.
pub proof fn leader_log_only_grows<E>(v: RaftView<E>, action: SelectedAction<E>)
    requires
        v.is_leader(),
        v.node_step(action).is_leader(),
    ensures
        v.log.is_prefix_of(v.node_step(action).log),
{
    let w = v.node_step(action);
    match action {
        SelectedAction::Client(e) => {
            if w.log != v.log {
                assert(w.log.subrange(0, v.log.len() as int) =~= v.log);
            }
        },
        _ => {},
    }
}

/// A leader that handles a message without stepping down moves its commit
/// index only to an entry of its current term.
pub proof fn leader_commits_only_current_term<E>(v: RaftView<E>, peer_id: u64, msg: Msg<E>)
    requires
        v.is_leader(),
        msg.spec_term() <= v.curr_term,
    ensures
        ({
            let w = v.rpc_next(peer_id, msg);
            w.commit_index != v.commit_index ==> match log_entry_at(w.log, w.commit_index) {
                Some(e) => e.term == w.curr_term,
                None => false,
            }
        }),
{
}

/// A node becomes leader only as a candidate that counts a granted vote
/// making a majority of the configured peers, in a message that does not
/// raise its term.
pub proof fn leader_only_with_majority<E>(v: RaftView<E>, peer_id: u64, msg: Msg<E>)
    requires
        !v.is_leader(),
        v.rpc_next(peer_id, msg).is_leader(),
    ensures
        msg.spec_term() <= v.curr_term,
        msg matches Msg::RequestVoteResponse(r) && r.vote_granted,
        v.role matches RoleView::Candidate { votes } && count_granted(
            info_insert(votes, peer_id, true),
        ) >= v.quorum(),
{
}

/// A new leader believes every configured peer misses everything after its
/// last entry, and that none has any entry.
pub proof fn new_leader_starts_after_its_log<E>(v: RaftView<E>, peer_id: u64, msg: Msg<E>)
    requires
        !v.is_leader(),
        v.rpc_next(peer_id, msg).is_leader(),
    ensures
        v.rpc_next(peer_id, msg).role == (RoleView::Leader {
            next_indexes: fill_infos(v.peers, (v.last_index() + 1) as u64),
            match_indexes: fill_infos(v.peers, 0u64),
        }),
{
}

/// A vote request is answered last, with the current term; a vote is
/// granted only where the request's term is not behind, the node has voted
/// for no other candidate, and the candidate's log is at least as up to date.
pub proof fn vote_granted_only_to_up_to_date<E: Clone>(
    v: RaftView<E>,
    peer_id: u64,
    rv: RequestVote,
    acts: Seq<NetAction<E>>,
)
    requires
        v.rpc_actions(peer_id, Msg::RequestVote(rv), acts),
    ensures
        acts.len() > 0,
        ({
            let term = if rv.term > v.curr_term {
                rv.term
            } else {
                v.curr_term
            };
            acts.last() matches NetAction::Send(p, Msg::RequestVoteResponse(resp)) && p == peer_id
                && resp.term == term && (resp.vote_granted ==> {
                &&& rv.term >= v.curr_term
                &&& (v.voted_for is None || v.voted_for == Some(rv.candidate_id))
                &&& log_up_to_date(rv.last_log_term, rv.last_log_index, v.last_term(), v.last_index())
            })
        }),
{
    let w = v.observe_term(rv.term);
    let pre = v.observe_term_actions(rv.term);
    assert(acts.last() == w.request_vote_actions(peer_id, rv).last());
}

/// A follower's commit index moves only where the leader's commit index is
/// ahead of it, and then to at most the leader's commit index and the index
/// of its new last entry.
pub proof fn follower_commit_follows_leader<E>(v: RaftView<E>, a: AppendEntries<E>)
    ensures
        ({
            let w = v.append_entries_next(a);
            w.commit_index != v.commit_index ==> {
                &&& a.leader_commit > v.commit_index
                &&& w.commit_index <= a.leader_commit
                &&& w.commit_index <= log_last_index(w.log)
            }
        }),
{
}

/// A vote request changes nothing but the term step: the node's log,
/// commit index, applied entries, vote and role stay as they are.
pub proof fn vote_request_changes_only_term<E>(v: RaftView<E>, peer_id: u64, rv: RequestVote)
    ensures
        v.rpc_next(peer_id, Msg::RequestVote(rv)) == v.observe_term(rv.term),
{
}

/// A vote granted again by the same peer counts once: where a granted
/// vote leaves a candidate a candidate, the same vote again changes
/// nothing.
pub proof fn repeated_vote_counts_once<E>(v: RaftView<E>, peer_id: u64, r: RequestVoteResponse)
    requires
        v.wf(),
        v.role is Candidate,
        r.vote_granted,
        !v.wins_with(peer_id, r),
    ensures
        ({
            let w = v.request_vote_response_next(peer_id, r);
            &&& w.role is Candidate
            &&& w.request_vote_response_next(peer_id, r) == w
        }),
{
    let votes = v.role->votes;
    let once = info_insert(votes, peer_id, true);
    lemma_info_insert(votes, peer_id, true);
    lemma_key_position(once, peer_id);
    let q = key_position(once, peer_id)->0;
    assert(once[q] == (peer_id, true));
    assert(info_insert(once, peer_id, true) =~= once);
}

/// A node that is not leader in the term of an append request whose
/// previous entry matches its log takes the request: the new entries end
/// its log, and where the leader's commit index is ahead of its own, its
/// commit index becomes the smaller of the leader's and its new last index,
/// whether or not the request carries entries.
pub proof fn follower_commit_after_matching_append<E>(v: RaftView<E>, peer_id: u64, a: AppendEntries<E>)
    requires
        a.term >= v.curr_term,
        a.term > v.curr_term || !v.is_leader(),
        (a.prev_log_index == 0 && a.prev_log_term == 0) || (log_entry_at(v.log, a.prev_log_index) matches Some(e)
            && e.term == a.prev_log_term),
    ensures
        ({
            let w = v.rpc_next(peer_id, Msg::AppendEntries(a));
            &&& w.log.len() >= a.entries@.len()
            &&& w.log.skip(w.log.len() - a.entries@.len()) == a.entries@
            &&& a.leader_commit > v.commit_index ==> w.commit_index == if a.leader_commit
                <= log_last_index(w.log) {
                a.leader_commit
            } else {
                log_last_index(w.log)
            }
            &&& a.leader_commit <= v.commit_index ==> w.commit_index == v.commit_index
        }),
{
    try_append_succeeds_only_after_matching_entry(
        v.log,
        a.prev_log_term,
        a.prev_log_index,
        a.entries@,
    );
}

/// A vote request is answered last, to its sender, with the vote granted
/// exactly when the request's term is not behind, the node has voted for no
/// other candidate, and the candidate's last entry is at least as up to
/// date: a later last term, or the same last term and a last index at least
/// as large. A granted vote restarts the election timer just before.
pub proof fn vote_granted_exactly_to_up_to_date<E: Clone>(
    v: RaftView<E>,
    peer_id: u64,
    rv: RequestVote,
    acts: Seq<NetAction<E>>,
)
    requires
        v.rpc_actions(peer_id, Msg::RequestVote(rv), acts),
    ensures
        acts.len() > 0,
        acts.last() matches NetAction::Send(p, Msg::RequestVoteResponse(resp)) && p == peer_id && (
        resp.vote_granted <==> {
            &&& rv.term >= v.curr_term
            &&& (v.voted_for is None || v.voted_for == Some(rv.candidate_id))
            &&& (rv.last_log_term > log_last_term(v.log) || (rv.last_log_term == log_last_term(v.log)
                && rv.last_log_index >= log_last_index(v.log)))
        }) && (resp.vote_granted ==> acts.len() >= 2 && acts[acts.len() - 2] == NetAction::<
            E,
        >::ResetTimer(TimerKind::Election)),
{
    let w = v.observe_term(rv.term);
    let pre = v.observe_term_actions(rv.term);
    assert(acts.last() == w.request_vote_actions(peer_id, rv).last());
    if w.grants_vote(rv) {
        assert(acts[acts.len() - 2] == w.request_vote_actions(peer_id, rv)[0]);
    }
}

proof fn lemma_other_peer_ids(peers: Seq<PeerConfig>, id: u64)
    ensures
        forall|i: int|
            0 <= i < other_peer_ids(peers, id).len() ==> #[trigger] other_peer_ids(peers, id)[i] != id
                && exists|q: int| 0 <= q < peers.len() && peers[q].id == other_peer_ids(peers, id)[i],
        forall|q: int|
            0 <= q < peers.len() && #[trigger] peers[q].id != id ==> other_peer_ids(peers, id).contains(
                peers[q].id,
            ),
    decreases peers.len(),
{
    if peers.len() > 0 {
        let init = peers.drop_last();
        lemma_other_peer_ids(init, id);
        let rest = other_peer_ids(init, id);
        let ids = other_peer_ids(peers, id);
        assert forall|i: int| 0 <= i < ids.len() implies #[trigger] ids[i] != id && exists|q: int|
            0 <= q < peers.len() && peers[q].id == ids[i] by {
            if i < rest.len() {
                assert(ids[i] == rest[i]);
                let q = choose|q: int| 0 <= q < init.len() && init[q].id == rest[i];
                assert(peers[q] == init[q]);
            } else {
                assert(peers[peers.len() - 1].id == ids[i]);
            }
        }
        assert forall|q: int| 0 <= q < peers.len() && #[trigger] peers[q].id != id implies ids.contains(
            peers[q].id,
        ) by {
            if q < peers.len() - 1 {
                assert(init[q] == peers[q]);
                assert(rest.contains(peers[q].id));
                let i = choose|i: int| 0 <= i < rest.len() && rest[i] == peers[q].id;
                assert(ids[i] == rest[i]);
            } else {
                assert(ids[ids.len() - 1] == peers[q].id);
            }
        }
    }
}

/// On an election timeout a node moves to the next term as a candidate
/// that voted for itself, its log and commit index unchanged. It sends
/// every other configured peer, and no one else, a vote request of that
/// term that names it as candidate and carries the index and term of its
/// last log entry, then restarts its election timer.
pub proof fn election_requests_carry_last_entry<E>(v: RaftView<E>)
    requires
        v.curr_term < u64::MAX,
    ensures
        ({
            let w = v.election_next();
            &&& w.curr_term == v.curr_term + 1
            &&& w.voted_for == Some(v.id)
            &&& w.role == RoleView::Candidate { votes: seq![(v.id, true)] }
            &&& w.log == v.log
            &&& w.commit_index == v.commit_index
        }),
        ({
            let acts = v.election_actions();
            let rv = RequestVote {
                term: (v.curr_term + 1) as u64,
                candidate_id: v.id,
                last_log_index: log_last_index(v.log),
                last_log_term: log_last_term(v.log),
            };
            &&& acts.len() >= 1
            &&& acts.last() == NetAction::<E>::ResetTimer(TimerKind::Election)
            &&& forall|i: int|
                0 <= i < acts.len() - 1 ==> (#[trigger] acts[i] matches NetAction::Send(p, m) && m
                    == Msg::<E>::RequestVote(rv) && p != v.id && exists|q: int|
                    0 <= q < v.peers.len() && v.peers[q].id == p)
            &&& forall|q: int|
                0 <= q < v.peers.len() && #[trigger] v.peers[q].id != v.id ==> exists|i: int|
                    0 <= i < acts.len() - 1 && acts[i] == NetAction::<E>::Send(
                        v.peers[q].id,
                        Msg::RequestVote(rv),
                    )
        }),
{
    let acts = v.election_actions();
    let ids = other_peer_ids(v.peers, v.id);
    lemma_other_peer_ids(v.peers, v.id);
    let rv = RequestVote {
        term: (v.curr_term + 1) as u64,
        candidate_id: v.id,
        last_log_index: log_last_index(v.log),
        last_log_term: log_last_term(v.log),
    };
    assert forall|i: int| 0 <= i < acts.len() - 1 implies (#[trigger] acts[i] matches NetAction::Send(
        p,
        m,
    ) && m == Msg::<E>::RequestVote(rv) && p != v.id && exists|q: int|
        0 <= q < v.peers.len() && v.peers[q].id == p) by {
        assert(acts[i] == NetAction::<E>::Send(ids[i], Msg::RequestVote(rv)));
        assert(ids[i] != v.id);
    }
    assert forall|q: int| 0 <= q < v.peers.len() && #[trigger] v.peers[q].id != v.id implies exists|i: int|
        0 <= i < acts.len() - 1 && acts[i] == NetAction::<E>::Send(v.peers[q].id, Msg::RequestVote(rv)) by {
        assert(ids.contains(v.peers[q].id));
        let i = choose|i: int| 0 <= i < ids.len() && ids[i] == v.peers[q].id;
        assert(acts[i] == NetAction::<E>::Send(ids[i], Msg::RequestVote(rv)));
    }
}

/// A client request changes nothing at a node that is not leader; a leader
/// appends it to its log as an entry of its current term whose index
/// follows its last one, and changes nothing else.
pub proof fn only_leader_appends_request<E>(v: RaftView<E>, event: E)
    ensures
        !v.is_leader() ==> v.propose_next(event) == v,
        !v.is_leader() ==> v.node_step(SelectedAction::Client(event)) == v,
        v.is_leader() ==> v.propose_next(event) == (RaftView {
            log: v.log.push(
                LogEntry { index: (log_last_index(v.log) + 1) as u64, term: v.curr_term, data: event },
            ),
            ..v
        }),
{
}

} // verus!
