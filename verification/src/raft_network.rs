use crate::raft_spec::{
    added_events, lemma_sends_skipped_after_failure, performs, send_actions, sends_failed,
};
use crate::raft_state::{Msg, NetAction};
use std::time::Duration;
use vstd::prelude::*;

verus! {

/// What the network handed to a node: a client request, a message from a
/// peer, or an expired timer.
#[derive(Debug)]
pub enum SelectedAction<E> {
    Client(E),
    Peer(u64, Msg<E>),
    Timer(TimerKind),
}

#[derive(Copy, Clone, PartialEq, Eq, Debug, Structural)]
pub enum TimerKind {
    Heartbeat,
    Election,
}

/// The transport between the nodes of a cluster, with the timers of one
/// node. Users implement it; nothing is assumed of what its methods do.
pub trait RaftNetwork {
    type Event;

    fn send(&mut self, peer_id: u64, msg: Msg<Self::Event>) -> Result<(), ()>;

    fn timer_reset(&mut self, timer_kind: TimerKind);

    /// Waits at most `max_wait_time` and pushes at most `max_actions`
    /// actions onto `buf`.
    fn select_actions(
        &mut self,
        buf: &mut Vec<SelectedAction<Self::Event>>,
        max_actions: usize,
        max_wait_time: Duration,
    ) -> bool;
}

/// One thing a node asked of its network.
pub enum NetEvent<E> {
    /// A message to a peer, and whether sending it succeeded.
    Sent(u64, Msg<E>, bool),
    TimerReset(TimerKind),
    /// A wait for actions, with its limits and the buffer it left.
    Selected(usize, Duration, Seq<SelectedAction<E>>),
}

/// A network together with what it was asked, in order. The record is
/// kept by the methods below, each of which makes one call on the network
/// and records it; nothing checks the network's own side of those calls.
pub struct NetworkLink<N: RaftNetwork> {
    net: N,
    history: Ghost<Seq<NetEvent<N::Event>>>,
}

impl<N: RaftNetwork> NetworkLink<N> {
    /// What the network was asked so far, in order.
    pub closed spec fn history(&self) -> Seq<NetEvent<N::Event>> {
        self.history@
    }

    /// A network that has been asked nothing yet.
    pub fn new(net: N) -> (r: Self)
        ensures
            r.history() == Seq::<NetEvent<N::Event>>::empty(),
    {
        NetworkLink { net, history: Ghost(Seq::empty()) }
    }

    /// Sends a message, and records it with whether it went out.
    pub fn send(&mut self, peer_id: u64, msg: Msg<N::Event>) -> (r: Result<(), ()>)
        ensures
            final(self).history() == old(self).history().push(NetEvent::Sent(peer_id, msg, r is Ok)),
    {
        let ghost sent_msg = msg;
        let r = self.net.send(peer_id, msg);
        proof {
            self.history@ = self.history@.push(NetEvent::Sent(peer_id, sent_msg, r is Ok));
        }
        r
    }

    /// Resets a timer, and records it.
    pub fn timer_reset(&mut self, timer_kind: TimerKind)
        ensures
            final(self).history() == old(self).history().push(NetEvent::TimerReset(timer_kind)),
    {
        self.net.timer_reset(timer_kind);
        proof {
            self.history@ = self.history@.push(NetEvent::TimerReset(timer_kind));
        }
    }

    /// Lets the network select actions into `buf`, and records the limits
    /// and the buffer it left.
    pub fn select_actions(
        &mut self,
        buf: &mut Vec<SelectedAction<N::Event>>,
        max_actions: usize,
        max_wait_time: Duration,
    ) -> (r: bool)
        ensures
            final(self).history() == old(self).history().push(
                NetEvent::Selected(max_actions, max_wait_time, final(buf)@),
            ),
    {
        let r = self.net.select_actions(buf, max_actions, max_wait_time);
        proof {
            self.history@ = self.history@.push(
                NetEvent::Selected(max_actions, max_wait_time, buf@),
            );
        }
        r
    }
}

impl<N: RaftNetwork> NetworkLink<N> {
    /// Sends the messages in order, stopping at the first that fails to go
    /// out. `Err` exactly when one failed.
    pub fn send_all(&mut self, targets: Vec<(u64, Msg<N::Event>)>) -> (r: Result<(), ()>)
        ensures
            old(self).history().is_prefix_of(final(self).history()),
            performs(
                send_actions(targets@),
                added_events(old(self).history(), final(self).history()),
            ),
            r is Err <==> sends_failed(added_events(old(self).history(), final(self).history())),
    {
        let ghost all = send_actions(targets@);
        let ghost start = self.history();
        assert(all.len() <= usize::MAX) by {
            assert(targets@.len() == targets.len());
        }
        let mut pending = targets;
        let mut done: usize = 0;
        proof {
            assert(added_events(start, self.history()) =~= Seq::<NetEvent<N::Event>>::empty());
            assert(all.take(0) =~= Seq::<NetAction<N::Event>>::empty());
        }
        while pending.len() > 0
            invariant
                all.len() == done + pending@.len(),
                all.len() <= usize::MAX,
                start == old(self).history(),
                all == send_actions(targets@),
                send_actions(pending@) == all.skip(done as int),
                start.is_prefix_of(self.history()),
                performs(all.take(done as int), added_events(start, self.history())),
                !sends_failed(added_events(start, self.history())),
            decreases pending.len(),
        {
            let ghost before = added_events(start, self.history());
            let ghost old_pending = pending@;
            let (peer_id, msg) = pending.remove(0);
            proof {
                assert(send_actions(old_pending)[0] == all.skip(done as int)[0]);
                assert(all[done as int] == NetAction::Send(peer_id, msg));
                assert(pending@ =~= old_pending.drop_first());
                assert(send_actions(pending@) =~= send_actions(old_pending).drop_first());
                assert(send_actions(pending@) =~= all.skip(done + 1));
                assert(all.take(done + 1).drop_last() =~= all.take(done as int));
            }
            let sent = self.send(peer_id, msg);
            proof {
                let after = added_events(start, self.history());
                assert(after.drop_last() =~= before);
                assert(self.history().subrange(0, start.len() as int) =~= start);
            }
            done += 1;
            if sent.is_err() {
                proof {
                    let after = added_events(start, self.history());
                    assert(performs(all.take(done as int), after));
                    assert forall|i: int| 0 <= i < all.skip(done as int).len() implies #[trigger] all.skip(
                        done as int,
                    )[i] is Send by {
                        assert(all.skip(done as int)[i] == all[done + i]);
                    }
                    lemma_sends_skipped_after_failure(
                        all.take(done as int),
                        all.skip(done as int),
                        added_events(start, self.history()),
                    );
                    assert(all.take(done as int) + all.skip(done as int) =~= all);
                }
                return Err(());
            }
        }
        proof {
            assert(all.take(done as int) =~= all);
        }
        Ok(())
    }
}

} // verus!
