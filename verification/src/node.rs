use crate::raft_network::{NetEvent, NetworkLink, RaftNetwork, SelectedAction, TimerKind};
use crate::raft_spec::{
    added_events, is_round, lemma_steps_events_push, performs, sends_failed, RaftView, RoleView,
};
use crate::raft_state::{role_of, Msg, NetAction, PeerConfig, RaftRole, RaftState};
use crate::raft_state_machine::StateMachine;
use crate::raft_storage::Storage;
use std::time::Duration;
use vstd::prelude::*;

verus! {

/// Hands the actions of a step to the network, in order. After a message
/// fails to go out, the following messages are not sent; timers are still
/// reset. `Err` where a message failed: with no message to send it succeeds.
fn perform<N: RaftNetwork>(net: &mut NetworkLink<N>, actions: Vec<NetAction<N::Event>>) -> (r: Result<(), ()>)
    ensures
        old(net).history().is_prefix_of(final(net).history()),
        performs(actions@, added_events(old(net).history(), final(net).history())),
        r is Err <==> sends_failed(added_events(old(net).history(), final(net).history())),
        (forall|i: int| 0 <= i < actions@.len() ==> #[trigger] actions@[i] is ResetTimer) ==> r is Ok,
{
    let ghost all = actions@;
    let ghost start = net.history();
    assert(all.len() <= usize::MAX) by {
        assert(actions@.len() == actions.len());
    }
    let mut actions = actions;
    let mut failed = false;
    let mut done: usize = 0;
    proof {
        assert(added_events(start, net.history()) =~= Seq::<NetEvent<N::Event>>::empty());
        assert(all.take(0) =~= Seq::<NetAction<N::Event>>::empty());
    }
    while actions.len() > 0
        invariant
            done <= all.len(),
            all.len() <= usize::MAX,
            actions@ == all.skip(done as int),
            start.is_prefix_of(net.history()),
            performs(all.take(done as int), added_events(start, net.history())),
            failed == sends_failed(added_events(start, net.history())),
            (forall|i: int| 0 <= i < all.len() ==> #[trigger] all[i] is ResetTimer) ==> !failed,
        decreases actions.len(),
    {
        let ghost before = added_events(start, net.history());
        proof {
            assert(actions@[0] == all[done as int]);
            assert(actions@.remove(0) =~= all.skip(done + 1));
            assert(all.take(done + 1).drop_last() =~= all.take(done as int));
            assert(all.take(done + 1).last() == all[done as int]);
        }
        match actions.remove(0) {
            NetAction::Send(peer_id, msg) => {
                if !failed {
                    let sent = net.send(peer_id, msg);
                    proof {
                        let after = added_events(start, net.history());
                        assert(after.drop_last() =~= before);
                    }
                    if sent.is_err() {
                        failed = true;
                    }
                }
            },
            NetAction::ResetTimer(timer_kind) => {
                net.timer_reset(timer_kind);
                proof {
                    let after = added_events(start, net.history());
                    assert(after.drop_last() =~= before);
                }
            },
        }
        done += 1;
    }
    proof {
        assert(all.take(done as int) =~= all);
    }
    if failed {
        Err(())
    } else {
        Ok(())
    }
}

/// One node of a cluster: its consensus state and its network.
pub struct Node<SM, L, N> where
    SM: StateMachine,
    L: Storage<Event = SM::Event>,
    N: RaftNetwork<Event = SM::Event>,
 {
    id: u64,
    state: RaftState<SM, L>,
    network: NetworkLink<N>,
}

impl<SM, L, N> View for Node<SM, L, N> where
    SM: StateMachine,
    L: Storage<Event = SM::Event>,
    N: RaftNetwork<Event = SM::Event>,
 {
    type V = RaftView<SM::Event>;

    closed spec fn view(&self) -> RaftView<SM::Event> {
        self.state@
    }
}

impl<SM, L, N> Node<SM, L, N> where
    SM: StateMachine,
    L: Storage<Event = SM::Event>,
    N: RaftNetwork<Event = SM::Event>,
 {
    /// The consensus state is well formed.
    pub closed spec fn wf(&self) -> bool {
        &&& self.state@.wf()
        &&& self.state.id == self.id
    }

    /// What the network was asked so far, in order.
    pub closed spec fn history(&self) -> Seq<NetEvent<SM::Event>> {
        self.network.history()
    }

    /// The state machine.
    pub closed spec fn machine_value(&self) -> SM {
        self.state.sm.machine_value()
    }

    /// A follower at term 0, with its election timer started. The network
    /// comes with what it was asked before, so that every call on it is on
    /// record.
    pub fn new(node_id: u64, sm: SM, log: L, network: NetworkLink<N>, topology: Vec<PeerConfig>) -> (r: Self)
        ensures
            r@ == (RaftView {
                id: node_id,
                peers: topology@,
                curr_term: 0,
                voted_for: None,
                log: log.entries(),
                stored_term: log.stored_term(),
                stored_vote: log.stored_vote(),
                applied: Seq::empty(),
                commit_index: 0,
                last_applied: 0,
                role: RoleView::Follower,
            }),
            r.wf(),
            r.machine_value() == sm,
            r.history() == network.history().push(NetEvent::TimerReset(TimerKind::Election)),
    {
        let mut network = network;
        network.timer_reset(TimerKind::Election);
        let state = RaftState::new(node_id, sm, log, topology);
        Node { id: node_id, state, network }
    }

    pub fn role(&self) -> (r: RaftRole)
        ensures
            r == role_of(self@.role),
    {
        self.state.role()
    }

    fn handle_client(&mut self, client_event: SM::Event)
        requires
            old(self).wf(),
        ensures
            final(self).wf(),
            final(self)@ == old(self)@.node_step(SelectedAction::Client(client_event)),
            final(self).history() == old(self).history(),
    {
        if self.state.is_leader() && self.state.log.last_index() == u64::MAX {
            // no index is left for the request
            return ;
        }
        self.state.propose(client_event);
    }

    fn handle_timer(&mut self, timer_kind: TimerKind)
        requires
            old(self).wf(),
        ensures
            final(self).wf(),
            final(self)@ == old(self)@.node_step(SelectedAction::Timer(timer_kind)),
            old(self).history().is_prefix_of(final(self).history()),
            old(self)@.step_events(
                SelectedAction::Timer(timer_kind),
                added_events(old(self).history(), final(self).history()),
            ),
    {
        let ghost v = self@;
        let ghost h0 = self.history();
        match timer_kind {
            TimerKind::Election => {
                if self.state.curr_term == u64::MAX {
                    // no term is left for an election
                    proof {
                        assert(added_events(h0, self.history()) =~= Seq::<NetEvent<SM::Event>>::empty());
                        assert(v.step_actions(SelectedAction::Timer(timer_kind), Seq::empty()));
                    }
                    return ;
                }
                let actions = self.state.election_timeout();
                let ghost acts = actions@;
                let _ = perform(&mut self.network, actions);
                proof {
                    assert(v.step_actions(SelectedAction::Timer(timer_kind), acts));
                }
            },
            TimerKind::Heartbeat => {
                if !self.state.updates_ready() {
                    // a next index lies past the end of the log
                    proof {
                        assert(added_events(h0, self.history()) =~= Seq::<NetEvent<SM::Event>>::empty());
                        assert(v.step_actions(SelectedAction::Timer(timer_kind), Seq::empty()));
                    }
                    return ;
                }
                let actions = self.state.heartbeat_timeout();
                let ghost acts = actions@;
                let _ = perform(&mut self.network, actions);
                proof {
                    assert(v.step_actions(SelectedAction::Timer(timer_kind), acts));
                }
            },
        }
    }

    fn handle_peer(&mut self, peer_id: u64, peer_msg: Msg<SM::Event>)
        requires
            old(self).wf(),
        ensures
            final(self).wf(),
            final(self)@ == old(self)@.node_step(SelectedAction::Peer(peer_id, peer_msg)),
            old(self).history().is_prefix_of(final(self).history()),
            old(self)@.step_events(
                SelectedAction::Peer(peer_id, peer_msg),
                added_events(old(self).history(), final(self).history()),
            ),
    {
        let ghost v = self@;
        let ghost h0 = self.history();
        let ghost action = SelectedAction::Peer(peer_id, peer_msg);
        if !self.state.rpc_ready(peer_id, &peer_msg) {
            // the message cannot be handled
            proof {
                assert(added_events(h0, self.history()) =~= Seq::<NetEvent<SM::Event>>::empty());
                assert(v.step_actions(action, Seq::empty()));
            }
            return ;
        }
        match self.state.handle_rpc(peer_id, peer_msg) {
            Ok(actions) => {
                let ghost acts = actions@;
                let _ = perform(&mut self.network, actions);
                proof {
                    assert(v.step_actions(action, acts));
                }
            },
            Err(()) => {
                proof {
                    assert(added_events(h0, self.history()) =~= Seq::<NetEvent<SM::Event>>::empty());
                    assert(v.step_actions(action, Seq::empty()));
                }
            },
        }
    }

    fn handle_action(&mut self, action: SelectedAction<SM::Event>)
        requires
            old(self).wf(),
        ensures
            final(self).wf(),
            final(self)@ == old(self)@.node_step(action),
            old(self).history().is_prefix_of(final(self).history()),
            old(self)@.step_events(action, added_events(old(self).history(), final(self).history())),
    {
        let ghost v = self@;
        let ghost h0 = self.history();
        match action {
            SelectedAction::Timer(timer_kind) => self.handle_timer(timer_kind),
            SelectedAction::Client(event) => {
                self.handle_client(event);
                proof {
                    assert(added_events(h0, self.history()) =~= Seq::<NetEvent<SM::Event>>::empty());
                    assert(v.step_actions(action, Seq::empty()));
                }
            },
            SelectedAction::Peer(id, msg) => self.handle_peer(id, msg),
        }
    }

    /// One round: applies what is committed, sends a leader's pending
    /// entries, waits for actions, then handles every action in the buffer,
    /// in order. Says whether there was any.
    fn tick(
        &mut self,
        action_buf: &mut Vec<SelectedAction<SM::Event>>,
        max_actions: usize,
        timeout: Duration,
    ) -> (r: bool)
        requires
            old(self).wf(),
        ensures
            final(self).wf(),
            final(action_buf)@.len() == 0,
            old(self).history().is_prefix_of(final(self).history()),
            is_round(
                old(self)@,
                old(self).history(),
                final(self)@,
                final(self).history(),
                max_actions,
                timeout,
                r,
            ),
    {
        let ghost h0 = self.history();
        if self.state.apply_ready() {
            self.state.apply_committed();
        }
        let ghost v1 = self@;
        if self.state.updates_ready() {
            match self.state.update_peers(false) {
                Ok(actions) => {
                    let ghost acts = actions@;
                    let _ = perform(&mut self.network, actions);
                    proof {
                        assert(performs(acts, added_events(h0, self.history())));
                        assert(v1.round_start_events(added_events(h0, self.history())));
                    }
                },
                Err(()) => {
                    proof {
                        assert(added_events(h0, self.history()) =~= Seq::<NetEvent<SM::Event>>::empty());
                    }
                },
            }
        } else {
            proof {
                assert(added_events(h0, self.history()) =~= Seq::<NetEvent<SM::Event>>::empty());
            }
        }
        let ghost k = self.history().len() as int;
        let ghost start_events = added_events(h0, self.history());
        let ghost before_select = self.history();
        self.network.select_actions(action_buf, max_actions, timeout);
        let ghost selected = action_buf@;
        let ghost base = self.history();
        assert(selected.len() <= usize::MAX) by {
            assert(action_buf@.len() == action_buf.len());
        }
        let mut has_event = false;
        let mut handled: usize = 0;
        proof {
            assert(added_events(base, self.history()) =~= Seq::<NetEvent<SM::Event>>::empty());
            assert(selected.take(0) =~= Seq::<SelectedAction<SM::Event>>::empty());
            let no_parts = Seq::<Seq<NetEvent<SM::Event>>>::empty();
            assert(no_parts.flatten_alt() == added_events(base, self.history()));
            assert(v1.steps_events(selected.take(0), added_events(base, self.history())));
            assert(base.subrange(h0.len() as int, k) =~= start_events);
            assert(h0.is_prefix_of(base)) by {
                assert(base.subrange(0, h0.len() as int) =~= before_select.subrange(0, h0.len() as int));
            }
        }
        while action_buf.len() > 0
            invariant
                handled <= selected.len(),
                selected.len() <= usize::MAX,
                action_buf@ == selected.skip(handled as int),
                self.wf(),
                self@ == v1.node_steps(selected.take(handled as int)),
                base.is_prefix_of(self.history()),
                v1.steps_events(selected.take(handled as int), added_events(base, self.history())),
                has_event == (handled > 0),
                h0.len() <= k,
                base.len() == k + 1,
                base[k] == NetEvent::Selected(max_actions, timeout, selected),
                h0.is_prefix_of(base),
                base.subrange(h0.len() as int, k) == start_events,
                v1.round_start_events(start_events),
            decreases action_buf.len(),
        {
            let action = action_buf.remove(0);
            let ghost before = added_events(base, self.history());
            let ghost h_before = self.history();
            proof {
                assert(selected.take(handled + 1).drop_last() =~= selected.take(handled as int));
                assert(selected.take(handled + 1).last() == action);
                assert(action_buf@ =~= selected.skip(handled + 1));
            }
            self.handle_action(action);
            proof {
                let after = added_events(base, self.history());
                let step = added_events(h_before, self.history());
                assert(after =~= before + step);
                lemma_steps_events_push(v1, selected.take(handled as int), action, before, step);
                assert(selected.take(handled as int).push(action) =~= selected.take(handled + 1));
            }
            has_event = true;
            handled += 1;
        }
        proof {
            assert(selected.take(handled as int) =~= selected);
            let h = self.history();
            assert(h.subrange(h0.len() as int, k) =~= base.subrange(h0.len() as int, k));
            assert(h[k] == base[k]);
            assert(h0.is_prefix_of(h)) by {
                assert(h.subrange(0, h0.len() as int) =~= base.subrange(0, h0.len() as int));
            }
            assert(h.skip(k + 1) =~= added_events(base, h));
            assert(is_round(old(self)@, h0, self@, h, max_actions, timeout, handled > 0));
        }
        has_event
    }

    /// One round with a buffer of its own.
    pub fn test_tick(&mut self, max_actions: usize, timeout: Duration) -> (r: bool)
        requires
            old(self).wf(),
        ensures
            final(self).wf(),
            old(self).history().is_prefix_of(final(self).history()),
            is_round(
                old(self)@,
                old(self).history(),
                final(self)@,
                final(self).history(),
                max_actions,
                timeout,
                r,
            ),
    {
        let mut buf: Vec<SelectedAction<SM::Event>> = Vec::new();
        self.tick(&mut buf, max_actions, timeout)
    }
}

} // verus!
