use crate::raft_storage::LogEntry;
use vstd::prelude::*;

verus! {

/// The replicated state machine that committed entries are applied to.
/// Users implement it; nothing is assumed of what its methods do.
pub trait StateMachine: Sized {
    type Snapshot;
    type Event: Clone;

    /// An empty state machine.
    fn new() -> Self;

    fn from_snapshot(snapshot: Self::Snapshot) -> Self;

    fn execute(&mut self, event: &Self::Event);
}

/// A state machine together with the events handed to it, in order. The
/// record is kept by `execute_batch`, which records each event as it calls
/// `execute` with it; nothing checks the state machine's own side of those
/// calls.
pub struct Applier<SM: StateMachine> {
    machine: SM,
    handed: Ghost<Seq<SM::Event>>,
}

impl<SM: StateMachine> Applier<SM> {
    /// The events handed to the state machine so far, in order.
    pub closed spec fn handed(&self) -> Seq<SM::Event> {
        self.handed@
    }

    /// The state machine.
    pub closed spec fn machine_value(&self) -> SM {
        self.machine
    }

    /// A state machine that has been handed nothing yet.
    pub fn new(machine: SM) -> (r: Self)
        ensures
            r.handed() == Seq::<SM::Event>::empty(),
            r.machine_value() == machine,
    {
        Applier { machine, handed: Ghost(Seq::empty()) }
    }

    pub fn machine(&self) -> (r: &SM)
        ensures
            *r == self.machine_value(),
    {
        &self.machine
    }

    /// Executes the events of the entries, in order, recording each.
    pub fn execute_batch(&mut self, entries: &[LogEntry<SM::Event>])
        ensures
            final(self).handed() == old(self).handed() + entries@.map_values(
                |e: LogEntry<SM::Event>| e.data,
            ),
    {
        let ghost start = self.handed@;
        let mut i: usize = 0;
        while i < entries.len()
            invariant
                i <= entries@.len(),
                self.handed@ == start + entries@.take(i as int).map_values(
                    |e: LogEntry<SM::Event>| e.data,
                ),
            decreases entries.len() - i,
        {
            self.machine.execute(&entries[i].data);
            proof {
                self.handed@ = self.handed@.push(entries@[i as int].data);
                assert(entries@.take(i + 1) =~= entries@.take(i as int).push(entries@[i as int]));
                assert(entries@.take(i + 1).map_values(|e: LogEntry<SM::Event>| e.data)
                    =~= entries@.take(i as int).map_values(|e: LogEntry<SM::Event>| e.data).push(
                    entries@[i as int].data,
                ));
            }
            i += 1;
        }
        proof {
            assert(entries@.take(entries@.len() as int) =~= entries@);
        }
    }
}

} // verus!
