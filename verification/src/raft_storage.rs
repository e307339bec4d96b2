use vstd::prelude::*;

verus! {

/// One entry of the replicated log.
#[derive(Debug)]
pub struct LogEntry<E> {
    pub index: u64,
    pub term: u64,
    pub data: E,
}

impl<E: Clone> Clone for LogEntry<E> {
    fn clone(&self) -> (res: Self)
        ensures
            res.index == self.index,
            res.term == self.term,
            cloned(self.data, res.data),
    {
        LogEntry { index: self.index, term: self.term, data: self.data.clone() }
    }
}

/// Index of the last entry of the log, 0 for an empty log.
pub open spec fn log_last_index<E>(s: Seq<LogEntry<E>>) -> u64 {
    if s.len() == 0 {
        0
    } else {
        s.last().index
    }
}

/// Term of the last entry of the log, 0 for an empty log.
pub open spec fn log_last_term<E>(s: Seq<LogEntry<E>>) -> u64 {
    if s.len() == 0 {
        0
    } else {
        s.last().term
    }
}

/// A log index read as a 64-bit signed integer, as positions are computed.
pub open spec fn as_signed(x: u64) -> int {
    if x < 0x8000_0000_0000_0000 {
        x as int
    } else {
        x - 0x1_0000_0000_0000_0000
    }
}

/// The signed reading of a log index.
pub fn signed(x: u64) -> (r: i128)
    ensures
        r == as_signed(x),
{
    if x < 0x8000_0000_0000_0000 {
        x as i128
    } else {
        x as i128 - 0x1_0000_0000_0000_0000i128
    }
}

/// Position in the sequence at which a log index lies, counted back from the
/// last entry, whose position is fixed by its own index, both indexes read
/// as 64-bit signed integers; `None` where that position would lie before
/// the start, or where the log is empty.
pub open spec fn log_position<E>(s: Seq<LogEntry<E>>, index: u64) -> Option<int> {
    if s.len() == 0 {
        None
    } else {
        let v: int = (s.len() - 1) - (as_signed(s.last().index) - as_signed(index));
        if v >= 0 {
            Some(v)
        } else {
            None
        }
    }
}

/// The entry stored at a log index, if there is one.
pub open spec fn log_entry_at<E>(s: Seq<LogEntry<E>>, index: u64) -> Option<LogEntry<E>> {
    match log_position(s, index) {
        Some(v) => if v < s.len() {
            Some(s[v])
        } else {
            None
        },
        None => None,
    }
}

/// The log with the entry at `index` and everything after it removed; the
/// log unchanged where no entry is stored at `index`.
pub open spec fn log_clear_from<E>(s: Seq<LogEntry<E>>, index: u64) -> Seq<LogEntry<E>> {
    match log_position(s, index) {
        Some(v) => if v < s.len() {
            s.take(v)
        } else {
            s
        },
        None => s,
    }
}

/// `try_append` can be carried out: where the entry before the new ones
/// matches, the index after it is representable.
pub open spec fn try_append_in_bounds<E>(s: Seq<LogEntry<E>>, prev_term: u64, prev_index: u64) -> bool {
    (prev_index == 0 && prev_term == 0) || prev_index < u64::MAX || match log_entry_at(s, prev_index) {
        Some(e) => e.term != prev_term,
        None => true,
    }
}

/// The log after `try_append`, with its result: `Ok` with the new last index
/// when the entry at `prev_index` has `prev_term` (or both are 0), after
/// dropping what followed that entry and appending `entries`; `Err` with the
/// last index otherwise, after dropping the conflicting entry and what
/// followed it.
pub open spec fn log_try_append<E>(
    s: Seq<LogEntry<E>>,
    prev_term: u64,
    prev_index: u64,
    entries: Seq<LogEntry<E>>,
) -> (Seq<LogEntry<E>>, Result<u64, u64>) {
    if prev_index == 0 && prev_term == 0 {
        (s + entries, Ok(log_last_index(s + entries)))
    } else {
        match log_entry_at(s, prev_index) {
            Some(e) => if e.term == prev_term {
                let kept = log_clear_from(s, (prev_index + 1) as u64);
                (kept + entries, Ok(log_last_index(kept + entries)))
            } else {
                let kept = log_clear_from(s, prev_index);
                (kept, Err(log_last_index(kept)))
            },
            None => (s, Err(log_last_index(s))),
        }
    }
}

/// The log after `push`: one more entry, whose index follows the last one.
pub open spec fn log_push<E>(s: Seq<LogEntry<E>>, term: u64, event: E) -> Seq<LogEntry<E>> {
    s.push(LogEntry { index: (log_last_index(s) + 1) as u64, term, data: event })
}

/// `slice_to_end` can be carried out: the start lies at most one past the end.
pub open spec fn slice_to_end_in_bounds<E>(s: Seq<LogEntry<E>>, from_index: u64) -> bool {
    match log_position(s, from_index) {
        Some(v) => v <= s.len(),
        None => true,
    }
}

/// The entries from `from_index` to the end; empty where `from_index` lies
/// before the start of the log.
pub open spec fn log_slice_to_end<E>(s: Seq<LogEntry<E>>, from_index: u64) -> Seq<LogEntry<E>> {
    match log_position(s, from_index) {
        Some(v) => s.subrange(v, s.len() as int),
        None => Seq::empty(),
    }
}

/// `slice` can be carried out: where both ends lie in the log, they are in
/// order and the end lies at most one past the last entry.
pub open spec fn slice_in_bounds<E>(s: Seq<LogEntry<E>>, from_index: u64, to_index: u64) -> bool {
    match (log_position(s, from_index), log_position(s, to_index)) {
        (Some(f), Some(t)) => f <= t <= s.len(),
        _ => true,
    }
}

/// The entries with indexes in `[from_index, to_index)`; empty where either
/// end lies before the start of the log.
pub open spec fn log_slice<E>(s: Seq<LogEntry<E>>, from_index: u64, to_index: u64) -> Seq<LogEntry<E>> {
    match (log_position(s, from_index), log_position(s, to_index)) {
        (Some(f), Some(t)) => s.subrange(f, t),
        _ => Seq::empty(),
    }
}

/// After a push, the last entry is the pushed one: its index follows the
/// old last index, its term and data are those pushed, and reading at its
/// index gives it back.
pub proof fn push_then_read<E>(s: Seq<LogEntry<E>>, term: u64, event: E)
    requires
        log_last_index(s) < u64::MAX,
    ensures
        ({
            let s2 = log_push(s, term, event);
            let index = (log_last_index(s) + 1) as u64;
            &&& log_last_index(s2) == index
            &&& log_last_term(s2) == term
            &&& log_entry_at(s2, index) == Some(LogEntry { index, term, data: event })
            &&& s2.drop_last() == s
        }),
{
    let s2 = log_push(s, term, event);
    assert(s2.drop_last() =~= s);
}

/// The indexes of the entries increase one by one up to the last entry.
pub open spec fn indexes_consecutive<E>(s: Seq<LogEntry<E>>) -> bool {
    forall|i: int| 0 <= i < s.len() ==> #[trigger] s[i].index == s.last().index - (s.len() - 1 - i)
}

/// In a log whose indexes increase one by one and stay below 2^63, reading
/// at an index gives the entry with that index, and every index from the
/// first entry's to the last entry's can be read.
pub proof fn entry_at_has_index<E>(s: Seq<LogEntry<E>>, index: u64)
    requires
        indexes_consecutive(s),
        log_last_index(s) < 0x8000_0000_0000_0000,
    ensures
        log_entry_at(s, index) matches Some(e) ==> e.index == index,
        s.len() > 0 && s[0].index <= index <= s.last().index ==> log_entry_at(s, index) is Some,
{
}

/// Pushing keeps the indexes increasing one by one.
pub proof fn push_keeps_indexes_consecutive<E>(s: Seq<LogEntry<E>>, term: u64, event: E)
    requires
        indexes_consecutive(s),
        log_last_index(s) < u64::MAX,
    ensures
        indexes_consecutive(log_push(s, term, event)),
{
    let s2 = log_push(s, term, event);
    assert forall|i: int| 0 <= i < s2.len() implies #[trigger] s2[i].index == s2.last().index - (
    s2.len() - 1 - i) by {
        if i < s.len() {
            assert(s2[i] == s[i]);
        }
    }
}

proof fn lemma_filter_prefix<A>(s: Seq<A>, pred: spec_fn(A) -> bool, j: int)
    requires
        0 <= j <= s.len(),
        forall|i: int| 0 <= i < j ==> #[trigger] pred(s[i]),
        forall|i: int| j <= i < s.len() ==> !#[trigger] pred(s[i]),
    ensures
        s.filter(pred) == s.take(j),
    decreases s.len(),
{
    reveal(Seq::filter);
    if s.len() == 0 {
        assert(s.take(j) =~= s);
    } else if s.len() > j {
        lemma_filter_prefix(s.drop_last(), pred, j);
        assert(s.drop_last().take(j) =~= s.take(j));
        assert(!pred(s[s.len() - 1]));
    } else {
        lemma_filter_prefix(s.drop_last(), pred, j - 1);
        assert(s.drop_last().take(j - 1) =~= s.drop_last());
        assert(pred(s[s.len() - 1]));
        assert(s.drop_last().push(s.last()) =~= s);
        assert(s.take(j) =~= s);
    }
}

/// `try_append` succeeds exactly when `prev_index` and `prev_term` are both
/// 0 or the entry stored at `prev_index` has term `prev_term`. On success
/// the new entries end the log, after the entries up to the matching one
/// (after the whole log where both are 0), and the result is the new last
/// index. Where the entry at `prev_index` has another term, it and all
/// entries after it are dropped and the result is `Err` with the new last
/// index; where no entry is stored there, the log stays as it is.
pub proof fn try_append_succeeds_only_after_matching_entry<E>(
    s: Seq<LogEntry<E>>,
    prev_term: u64,
    prev_index: u64,
    entries: Seq<LogEntry<E>>,
)
    ensures
        ({
            let (s2, res) = log_try_append(s, prev_term, prev_index, entries);
            let start = prev_index == 0 && prev_term == 0;
            &&& res is Ok <==> (start || (log_entry_at(s, prev_index) matches Some(e)
                && e.term == prev_term))
            &&& res is Ok ==> {
                &&& res->Ok_0 == log_last_index(s2)
                &&& s2.len() >= entries.len()
                &&& s2.skip(s2.len() - entries.len()) == entries
            }
            &&& start ==> s2 == s + entries
            &&& (!start && res is Ok && prev_index < u64::MAX && prev_index != 0x7fff_ffff_ffff_ffff)
                ==> s2 == s.take(log_position(s, prev_index)->0 + 1) + entries
            &&& (!start && (log_entry_at(s, prev_index) matches Some(e) && e.term != prev_term)) ==> {
                &&& s2 == s.take(log_position(s, prev_index)->0)
                &&& res == Err::<u64, u64>(log_last_index(s2))
            }
            &&& (!start && log_entry_at(s, prev_index) is None) ==> {
                &&& s2 == s
                &&& res == Err::<u64, u64>(log_last_index(s))
            }
        }),
{
    let (s2, res) = log_try_append(s, prev_term, prev_index, entries);
    if res is Ok {
        assert(s2.skip(s2.len() - entries.len()) =~= entries);
        if !(prev_index == 0 && prev_term == 0) && prev_index < u64::MAX && prev_index
            != 0x7fff_ffff_ffff_ffff {
            let p = log_position(s, prev_index)->0;
            let kept = log_clear_from(s, (prev_index + 1) as u64);
            if p + 1 < s.len() {
                assert(log_position(s, (prev_index + 1) as u64) == Some(p + 1));
                assert(kept == s.take(p + 1));
            } else {
                assert(s.take(p + 1) =~= s);
                assert(log_position(s, (prev_index + 1) as u64) == Some(p + 1));
                assert(kept == s);
            }
        }
    }
}

/// On a log whose indexes increase one by one, a successful `try_append`
/// keeps the entries with indexes up to `prev_index` (all of them where
/// `prev_index` and `prev_term` are both 0), appends the new entries after
/// them, and returns the new last index.
pub proof fn try_append_success_on_consecutive_log<E>(
    s: Seq<LogEntry<E>>,
    prev_term: u64,
    prev_index: u64,
    entries: Seq<LogEntry<E>>,
)
    requires
        indexes_consecutive(s),
        try_append_in_bounds(s, prev_term, prev_index),
        log_try_append(s, prev_term, prev_index, entries).1 is Ok,
    ensures
        ({
            let (s2, res) = log_try_append(s, prev_term, prev_index, entries);
            &&& res->Ok_0 == log_last_index(s2)
            &&& s2 == if prev_index == 0 && prev_term == 0 {
                s
            } else {
                s.filter(|e: LogEntry<E>| e.index <= prev_index)
            } + entries
        }),
{
    if !(prev_index == 0 && prev_term == 0) {
        let p = log_position(s, prev_index)->0;
        assert(s[p].index == s.last().index - (s.len() - 1 - p));
        assert(s[p].index == prev_index);
        let pred = |e: LogEntry<E>| e.index <= prev_index;
        assert forall|i: int| 0 <= i < p + 1 implies #[trigger] pred(s[i]) by {
            assert(s[i].index == s.last().index - (s.len() - 1 - i));
        }
        assert forall|i: int| p + 1 <= i < s.len() implies !#[trigger] pred(s[i]) by {
            assert(s[i].index == s.last().index - (s.len() - 1 - i));
        }
        lemma_filter_prefix(s, pred, p + 1);
        let kept = log_clear_from(s, (prev_index + 1) as u64);
        if p + 1 < s.len() {
            assert(s[p + 1].index == s.last().index - (s.len() - 1 - (p + 1)));
            assert(log_position(s, (prev_index + 1) as u64) == Some(p + 1));
            assert(kept == s.take(p + 1));
        } else {
            assert(s.take(p + 1) =~= s);
            assert(s.last().index == prev_index);
            if prev_index == 0x7fff_ffff_ffff_ffff {
                assert(s[0].index == s.last().index - (s.len() - 1));
                assert(log_position(s, (prev_index + 1) as u64) is None);
            } else {
                assert(log_position(s, (prev_index + 1) as u64) == Some(s.len() as int));
            }
            assert(kept == s);
        }
    }
}

/// On a log whose indexes increase one by one, a failed `try_append`
/// appends nothing and returns the new last index: with no entry at
/// `prev_index` the log is unchanged; with a conflicting one, only the
/// entries before `prev_index` are kept.
pub proof fn try_append_failure_on_consecutive_log<E>(
    s: Seq<LogEntry<E>>,
    prev_term: u64,
    prev_index: u64,
    entries: Seq<LogEntry<E>>,
)
    requires
        indexes_consecutive(s),
        log_try_append(s, prev_term, prev_index, entries).1 is Err,
    ensures
        ({
            let (s2, res) = log_try_append(s, prev_term, prev_index, entries);
            &&& res->Err_0 == log_last_index(s2)
            &&& s2.is_prefix_of(s)
            &&& log_entry_at(s, prev_index) is None ==> s2 == s
            &&& log_entry_at(s, prev_index) is Some ==> s2 == s.filter(
                |e: LogEntry<E>| e.index < prev_index,
            )
        }),
{
    if log_entry_at(s, prev_index) is Some {
        let p = log_position(s, prev_index)->0;
        assert(s[p].index == s.last().index - (s.len() - 1 - p));
        assert(s[p].index == prev_index);
        let pred = |e: LogEntry<E>| e.index < prev_index;
        assert forall|i: int| 0 <= i < p implies #[trigger] pred(s[i]) by {
            assert(s[i].index == s.last().index - (s.len() - 1 - i));
        }
        assert forall|i: int| p <= i < s.len() implies !#[trigger] pred(s[i]) by {
            assert(s[i].index == s.last().index - (s.len() - 1 - i));
        }
        lemma_filter_prefix(s, pred, p);
    }
}

/// On a log whose indexes increase one by one and stay below 2^63, a
/// successful append of entries that follow `prev_index` one by one, and
/// stay below 2^63 too, changes nothing when it comes again: the same result, the same log.
pub proof fn try_append_retransmission_changes_nothing<E>(
    s: Seq<LogEntry<E>>,
    prev_term: u64,
    prev_index: u64,
    entries: Seq<LogEntry<E>>,
)
    requires
        indexes_consecutive(s),
        log_last_index(s) < 0x8000_0000_0000_0000,
        !(prev_index == 0 && prev_term == 0),
        try_append_in_bounds(s, prev_term, prev_index),
        forall|i: int| 0 <= i < entries.len() ==> #[trigger] entries[i].index == prev_index + 1 + i,
        prev_index + entries.len() < 0x8000_0000_0000_0000,
        log_try_append(s, prev_term, prev_index, entries).1 is Ok,
    ensures
        ({
            let (s2, r1) = log_try_append(s, prev_term, prev_index, entries);
            &&& try_append_in_bounds(s2, prev_term, prev_index)
            &&& log_try_append(s2, prev_term, prev_index, entries) == (s2, r1)
        }),
{
    let (s2, r1) = log_try_append(s, prev_term, prev_index, entries);
    let p = log_position(s, prev_index)->0;
    assert(s[0].index == s.last().index - (s.len() - 1));
    assert(prev_index < 0x8000_0000_0000_0000);
    let kept = s.take(p + 1);
    if p + 1 == s.len() {
        assert(s.take(p + 1) =~= s);
    }
    assert(s2 == kept + entries);
    assert(s2[p] == s[p]);
    assert(log_position(s2, prev_index) == Some(p));
    assert(log_entry_at(s2, prev_index) == Some(s[p]));
    let kept2 = log_clear_from(s2, (prev_index + 1) as u64);
    if entries.len() > 0 {
        assert(log_position(s2, (prev_index + 1) as u64) == Some(p + 1));
        assert(kept2 =~= kept);
    } else {
        assert(kept2 =~= kept);
    }
    assert(kept2 + entries =~= s2);
}

/// What `try_append` keeps: the index it returns is the new last index; on
/// success the new log is a prefix of the old one followed by the new
/// entries; on failure it is a prefix of the old log.
pub proof fn try_append_keeps_prefix<E>(
    s: Seq<LogEntry<E>>,
    prev_term: u64,
    prev_index: u64,
    entries: Seq<LogEntry<E>>,
)
    requires
        try_append_in_bounds(s, prev_term, prev_index),
    ensures
        ({
            let (s2, res) = log_try_append(s, prev_term, prev_index, entries);
            match res {
                Ok(last) => {
                    &&& last == log_last_index(s2)
                    &&& s2.len() >= entries.len()
                    &&& s2.subrange(0, s2.len() - entries.len()).is_prefix_of(s)
                    &&& s2.subrange(s2.len() - entries.len(), s2.len() as int) == entries
                },
                Err(last) => {
                    &&& last == log_last_index(s2)
                    &&& s2.is_prefix_of(s)
                },
            }
        }),
{
    let (s2, res) = log_try_append(s, prev_term, prev_index, entries);
    match res {
        Ok(_) => {
            let kept = s2.subrange(0, s2.len() - entries.len());
            assert(s2.subrange(s2.len() - entries.len(), s2.len() as int) =~= entries);
            if prev_index == 0 && prev_term == 0 {
                assert(kept =~= s);
            } else {
                let k = log_clear_from(s, (prev_index + 1) as u64);
                assert(kept =~= k);
            }
        },
        Err(_) => {},
    }
}

/// Durable storage of the log and of the hard state of a node.
pub trait Storage {
    type Event;

    /// The stored entries, in order.
    spec fn entries(&self) -> Seq<LogEntry<Self::Event>>;

    /// The stored current term.
    spec fn stored_term(&self) -> u64;

    /// The stored vote.
    spec fn stored_vote(&self) -> Option<u64>;

    fn at(&self, index: u64) -> (r: Option<&LogEntry<Self::Event>>)
        ensures
            match r {
                Some(e) => log_entry_at(self.entries(), index) == Some(*e),
                None => log_entry_at(self.entries(), index).is_none(),
            },
    ;

    fn last_term(&self) -> (r: u64)
        ensures
            r == log_last_term(self.entries()),
    ;

    fn last_index(&self) -> (r: u64)
        ensures
            r == log_last_index(self.entries()),
    ;

    fn try_append(
        &mut self,
        prev_term: u64,
        prev_index: u64,
        entries: Vec<LogEntry<Self::Event>>,
    ) -> (r: Result<u64, u64>)
        requires
            try_append_in_bounds(old(self).entries(), prev_term, prev_index),
        ensures
            (final(self).entries(), r) == log_try_append(
                old(self).entries(),
                prev_term,
                prev_index,
                entries@,
            ),
            final(self).stored_term() == old(self).stored_term(),
            final(self).stored_vote() == old(self).stored_vote(),
    ;

    fn push(&mut self, term: u64, event: Self::Event)
        requires
            log_last_index(old(self).entries()) < u64::MAX,
        ensures
            final(self).entries() == log_push(old(self).entries(), term, event),
            final(self).stored_term() == old(self).stored_term(),
            final(self).stored_vote() == old(self).stored_vote(),
    ;

    fn slice(&self, from_index: u64, to_index: u64) -> (r: &[LogEntry<Self::Event>])
        requires
            slice_in_bounds(self.entries(), from_index, to_index),
        ensures
            r@ == log_slice(self.entries(), from_index, to_index),
    ;

    fn slice_to_end(&self, from_index: u64) -> (r: &[LogEntry<Self::Event>])
        requires
            slice_to_end_in_bounds(self.entries(), from_index),
        ensures
            r@ == log_slice_to_end(self.entries(), from_index),
    ;

    fn current_term(&self) -> (r: u64)
        ensures
            r == self.stored_term(),
    ;

    fn voted_for(&self) -> (r: Option<u64>)
        ensures
            r == self.stored_vote(),
    ;

    fn set_current_term(&mut self, current_term: u64)
        ensures
            final(self).stored_term() == current_term,
            final(self).stored_vote() == old(self).stored_vote(),
            final(self).entries() == old(self).entries(),
    ;

    fn set_voted_for(&mut self, voted_for: Option<u64>)
        ensures
            final(self).stored_vote() == voted_for,
            final(self).stored_term() == old(self).stored_term(),
            final(self).entries() == old(self).entries(),
    ;
}

/// A `Storage` that keeps everything in memory.
pub struct VecStorage<E> {
    current_term: u64,
    voted_for: Option<u64>,
    data: Vec<LogEntry<E>>,
}

impl<E> Storage for VecStorage<E> {
    type Event = E;

    closed spec fn entries(&self) -> Seq<LogEntry<E>> {
        self.data@
    }

    closed spec fn stored_term(&self) -> u64 {
        self.current_term
    }

    closed spec fn stored_vote(&self) -> Option<u64> {
        self.voted_for
    }

    fn at(&self, index: u64) -> (r: Option<&LogEntry<E>>) {
        match self.to_vec_index(index) {
            Some(vec_index) => if vec_index < self.data.len() {
                Some(&self.data[vec_index])
            } else {
                None
            },
            None => None,
        }
    }

    fn last_term(&self) -> (r: u64) {
        if self.data.len() == 0 {
            0
        } else {
            self.data[self.data.len() - 1].term
        }
    }

    fn last_index(&self) -> (r: u64) {
        if self.data.len() == 0 {
            0
        } else {
            self.data[self.data.len() - 1].index
        }
    }

    fn try_append(&mut self, prev_term: u64, prev_index: u64, entries: Vec<LogEntry<E>>) -> (r:
        Result<u64, u64>) {
        let mut entries = entries;
        if prev_index == 0 && prev_term == 0 {
            self.data.append(&mut entries);
            return Ok(self.last_index());
        }
        let matches = match self.at(prev_index) {
            Some(entry) => Some(entry.term == prev_term),
            None => None,
        };
        match matches {
            Some(true) => {
                self.clear_from_index(prev_index + 1);
                self.data.append(&mut entries);
                Ok(self.last_index())
            },
            Some(false) => {
                self.clear_from_index(prev_index);
                Err(self.last_index())
            },
            None => Err(self.last_index()),
        }
    }

    fn push(&mut self, term: u64, event: E) {
        let index: u64 = self.last_index() + 1;
        self.data.push(LogEntry { index, term, data: event });
    }

    fn slice_to_end(&self, from_index: u64) -> (r: &[LogEntry<E>]) {
        match self.to_vec_index(from_index) {
            Some(vec_index) => {
                let all = self.data.as_slice();
                &all[vec_index..all.len()]
            },
            None => {
                let all = self.data.as_slice();
                &all[0..0]
            },
        }
    }

    fn slice(&self, from_index: u64, to_index: u64) -> (r: &[LogEntry<E>]) {
        let all = self.data.as_slice();
        let _len: usize = all.len();
        let none = &all[0..0];
        assert(none@ =~= Seq::<LogEntry<E>>::empty());
        match self.to_vec_index(from_index) {
            Some(from) => match self.to_vec_index(to_index) {
                Some(to) => &all[from..to],
                None => none,
            },
            None => none,
        }
    }

    fn current_term(&self) -> (r: u64) {
        self.current_term
    }

    fn voted_for(&self) -> (r: Option<u64>) {
        self.voted_for
    }

    fn set_current_term(&mut self, current_term: u64) {
        self.current_term = current_term;
    }

    fn set_voted_for(&mut self, voted_for: Option<u64>) {
        self.voted_for = voted_for;
    }
}

impl<E> VecStorage<E> {
    /// An empty log, at term 0, with no vote.
    pub fn new() -> (r: Self)
        ensures
            r.entries() == Seq::<LogEntry<E>>::empty(),
            r.stored_term() == 0,
            r.stored_vote() == None::<u64>,
    {
        VecStorage { data: Vec::new(), current_term: 0, voted_for: None }
    }

    fn clear_from_index(&mut self, index: u64)
        ensures
            final(self).data@ == log_clear_from(old(self).data@, index),
            final(self).current_term == old(self).current_term,
            final(self).voted_for == old(self).voted_for,
    {
        if let Some(vec_index) = self.to_vec_index(index) {
            self.data.truncate(vec_index);
        }
    }

    /// Converts a log index to a position in `data`; the position is capped
    /// at `usize::MAX`.
    fn to_vec_index(&self, index: u64) -> (r: Option<usize>)
        ensures
            match log_position(self.data@, index) {
                Some(v) => r == Some(if v <= usize::MAX { v as usize } else { usize::MAX }),
                None => r.is_none(),
            },
    {
        if self.data.len() == 0 {
            return None;
        }
        let last_index: u64 = self.data[self.data.len() - 1].index;
        let last_vec_index: usize = self.data.len() - 1;
        let vec_index: i128 = last_vec_index as i128 - (signed(last_index) - signed(index));
        if vec_index >= 0 {
            if vec_index <= usize::MAX as i128 {
                Some(vec_index as usize)
            } else {
                Some(usize::MAX)
            }
        } else {
            None
        }
    }
}

} // verus!
