//! A turn scheduler: a priority queue of timed events with ticket-based
//! cancellation.
//!
//! Events are ordered by absolute time, ties broken by insertion sequence
//! number. `next` pops the earliest event still valid, consuming one
//! invalidation marker per cancelled event it skips; its outcome is
//! specified exactly by `next_outcome`.

use vstd::prelude::*;
use crate::model::{lemma_no_dup_remove, lemma_push_contains};

verus! {

/// One queued entry: the value, its absolute due time, the relative delay
/// it was queued with, and its ticket's sequence number.
pub struct ScheduleEntry<T> {
    pub value: T,
    pub abs_time: u64,
    pub rel_time: u64,
    pub seq: u64,
}

/// A popped event: the value plus its timing data.
#[derive(Debug)]
pub struct ScheduleEvent<T> {
    pub event: T,
    pub time_delta: u64,
    pub time_queued: u64,
    pub absolute_time: u64,
}

/// A handle for a queued entry, usable to cancel it or to requeue under the
/// same sequence number.
#[derive(Clone, Copy, Debug)]
pub struct ScheduleTicket {
    pub seq: u64,
}

/// Priority order: earlier absolute time first, lower sequence number on
/// ties.
pub open spec fn entry_le<T>(a: ScheduleEntry<T>, b: ScheduleEntry<T>) -> bool {
    a.abs_time < b.abs_time || (a.abs_time == b.abs_time && a.seq <= b.seq)
}

/// Strictly earlier in the priority order.
pub open spec fn entry_lt<T>(a: ScheduleEntry<T>, b: ScheduleEntry<T>) -> bool {
    a.abs_time < b.abs_time || (a.abs_time == b.abs_time && a.seq < b.seq)
}

/// The index of the entry popped next: the first minimal one in priority
/// order.
pub open spec fn min_entry_index<T>(s: Seq<ScheduleEntry<T>>) -> int
    decreases s.len(),
{
    if s.len() <= 1 {
        0
    } else {
        let m = min_entry_index(s.drop_last());
        if entry_lt(s.last(), s[m]) {
            s.len() - 1
        } else {
            m
        }
    }
}

/// The popped-next index is in range and minimal.
pub proof fn lemma_min_entry<T>(s: Seq<ScheduleEntry<T>>)
    requires
        s.len() > 0,
    ensures
        0 <= min_entry_index(s) < s.len(),
        forall|j: int| 0 <= j < s.len() ==> entry_le(s[min_entry_index(s)], s[j]),
    decreases s.len(),
{
    if s.len() > 1 {
        lemma_min_entry(s.drop_last());
        let m0 = min_entry_index(s.drop_last());
        let m = min_entry_index(s);
        assert(forall|j: int| 0 <= j < s.len() - 1 ==> s.drop_last()[j] == s[j]);
        assert(s[s.len() - 1] == s.last());
        assert forall|j: int| 0 <= j < s.len() implies entry_le(s[m], s[j]) by {
            if j < s.len() - 1 {
                assert(entry_le(s.drop_last()[m0], s.drop_last()[j]));
            }
        }
    }
}

/// What `next` does, given the queued entries and the pending invalidation
/// markers: pop minimal entries, dropping each whose sequence number has a
/// marker (consuming the marker), until a valid one is found or the queue
/// runs out. Yields the returned entry, the remaining entries, and the
/// remaining markers.
pub open spec fn next_outcome<T>(s: Seq<ScheduleEntry<T>>, invalid: Set<u64>) -> (
    Option<ScheduleEntry<T>>,
    Seq<ScheduleEntry<T>>,
    Set<u64>,
)
    decreases s.len(),
    via next_outcome_decreases::<T>
{
    if s.len() == 0 {
        (None, s, invalid)
    } else {
        let m = min_entry_index(s);
        let e = s[m];
        if invalid.contains(e.seq) {
            next_outcome(s.remove(m), invalid.remove(e.seq))
        } else {
            (Some(e), s.remove(m), invalid)
        }
    }
}

#[via_fn]
proof fn next_outcome_decreases<T>(s: Seq<ScheduleEntry<T>>, invalid: Set<u64>) {
    if s.len() > 0 {
        lemma_min_entry(s);
    }
}

/// The priority-queue reading of `next_outcome`: a returned entry is one of
/// the queued entries, and no entry left in the queue is due strictly
/// earlier.
pub proof fn lemma_next_outcome_minimal<T>(s: Seq<ScheduleEntry<T>>, invalid: Set<u64>)
    ensures
        ({
            let (oe, es, inv) = next_outcome(s, invalid);
            oe matches Some(e) ==> {
                &&& s.contains(e)
                &&& forall|j: int| 0 <= j < es.len() ==> entry_le(e, #[trigger] es[j])
            }
        }),
    decreases s.len(),
{
    if s.len() > 0 {
        let m = min_entry_index(s);
        lemma_min_entry(s);
        let rest = s.remove(m);
        assert(forall|j: int| 0 <= j < m ==> rest[j] == s[j]);
        assert(forall|j: int| m <= j < rest.len() ==> rest[j] == s[j + 1]);
        if invalid.contains(s[m].seq) {
            lemma_next_outcome_minimal(rest, invalid.remove(s[m].seq));
            let (oe, es, inv) = next_outcome(rest, invalid.remove(s[m].seq));
            if oe is Some {
                let e = oe->Some_0;
                assert(rest.contains(e));
                let j = choose|j: int| 0 <= j < rest.len() && rest[j] == e;
                if j < m {
                    assert(s[j] == e);
                } else {
                    assert(s[j + 1] == e);
                }
            }
        } else {
            assert(s.contains(s[m]));
        }
    }
}

/// The scheduler. Entries live in an unordered vector; `next` selects the
/// minimum in priority order.
pub struct Schedule<T> {
    pub entries: Vec<ScheduleEntry<T>>,
    pub invalid: Vec<u64>,
    pub abs_time: u64,
    pub seq: u64,
}

/// The persistable form of a schedule: the same data as plain vectors.
pub struct SerializableSchedule<T> {
    pub entries: Vec<ScheduleEntry<T>>,
    pub invalid: Vec<u64>,
    pub abs_time: u64,
    pub seq: u64,
}

impl<T> From<Schedule<T>> for SerializableSchedule<T> {
    fn from(schedule: Schedule<T>) -> (r: SerializableSchedule<T>) {
        let Schedule { entries, invalid, abs_time, seq } = schedule;
        SerializableSchedule { entries, invalid, abs_time, seq }
    }
}

impl<T> vstd::std_specs::convert::FromSpecImpl<Schedule<T>> for SerializableSchedule<T> {
    open spec fn obeys_from_spec() -> bool {
        true
    }

    open spec fn from_spec(s: Schedule<T>) -> SerializableSchedule<T> {
        SerializableSchedule {
            entries: s.entries,
            invalid: s.invalid,
            abs_time: s.abs_time,
            seq: s.seq,
        }
    }
}

impl<T> From<SerializableSchedule<T>> for Schedule<T> {
    fn from(schedule: SerializableSchedule<T>) -> (r: Schedule<T>) {
        let SerializableSchedule { entries, invalid, abs_time, seq } = schedule;
        Schedule { entries, invalid, abs_time, seq }
    }
}

impl<T> vstd::std_specs::convert::FromSpecImpl<SerializableSchedule<T>> for Schedule<T> {
    open spec fn obeys_from_spec() -> bool {
        true
    }

    open spec fn from_spec(s: SerializableSchedule<T>) -> Schedule<T> {
        Schedule { entries: s.entries, invalid: s.invalid, abs_time: s.abs_time, seq: s.seq }
    }
}

impl<T> Schedule<T> {
    /// No entry is due before the current time, every handed-out sequence
    /// number is below the counter, and invalidation markers are unique.
    pub open spec fn wf(self) -> bool {
        &&& forall|i: int|
            0 <= i < self.entries@.len() ==> (#[trigger] self.entries@[i]).abs_time
                >= self.abs_time
        &&& forall|i: int|
            0 <= i < self.entries@.len() ==> (#[trigger] self.entries@[i]).seq < self.seq
        &&& self.invalid@.no_duplicates()
    }

    /// An empty schedule at time zero.
    pub fn new() -> (r: Schedule<T>)
        ensures
            r.wf(),
            r.entries@.len() == 0,
            r.invalid@.len() == 0,
            r.abs_time == 0,
            r.seq == 0,
    {
        Schedule { entries: Vec::new(), invalid: Vec::new(), abs_time: 0, seq: 0 }
    }

    /// Queues `value` to come due `rel_time` after the current time, under
    /// a fresh ticket.
    pub fn insert(&mut self, value: T, rel_time: u64) -> (t: ScheduleTicket)
        requires
            old(self).wf(),
            old(self).abs_time + rel_time <= u64::MAX,
            old(self).seq < u64::MAX,
        ensures
            final(self).wf(),
            t.seq == old(self).seq,
            final(self).seq == old(self).seq + 1,
            final(self).abs_time == old(self).abs_time,
            final(self).invalid@ == old(self).invalid@,
            final(self).entries@ == old(self).entries@.push(
                ScheduleEntry {
                    value,
                    abs_time: (old(self).abs_time + rel_time) as u64,
                    rel_time,
                    seq: old(self).seq,
                },
            ),
    {
        let seq = self.seq;
        let abs_time = self.abs_time + rel_time;
        let entry = ScheduleEntry { value, abs_time, rel_time, seq };
        self.entries.push(entry);
        self.seq = self.seq + 1;
        ScheduleTicket { seq }
    }

    /// Queues `value` under an already handed-out ticket, reusing its
    /// sequence number. The ticket must have been issued by this schedule.
    pub fn insert_with_ticket(&mut self, value: T, rel_time: u64, ticket: ScheduleTicket) -> (t:
        ScheduleTicket)
        requires
            old(self).wf(),
            old(self).abs_time + rel_time <= u64::MAX,
            ticket.seq < old(self).seq,
        ensures
            final(self).wf(),
            t == ticket,
            final(self).seq == old(self).seq,
            final(self).abs_time == old(self).abs_time,
            final(self).invalid@ == old(self).invalid@,
            final(self).entries@ == old(self).entries@.push(
                ScheduleEntry {
                    value,
                    abs_time: (old(self).abs_time + rel_time) as u64,
                    rel_time,
                    seq: ticket.seq,
                },
            ),
    {
        let abs_time = self.abs_time + rel_time;
        let entry = ScheduleEntry { value, abs_time, rel_time, seq: ticket.seq };
        self.entries.push(entry);
        ScheduleTicket { seq: ticket.seq }
    }

    /// The index of the entry popped next.
    fn find_min_index(&self) -> (m: usize)
        requires
            self.entries@.len() > 0,
        ensures
            m as int == min_entry_index(self.entries@),
            m < self.entries@.len(),
    {
        let s = &self.entries;
        let mut best: usize = 0;
        let mut k: usize = 1;
        assert(s@.take(1).len() == 1);
        assert(min_entry_index(s@.take(1)) == 0);
        assert(s@.take(1)[0] == s@[0]);
        while k < s.len()
            invariant
                1 <= k <= s@.len(),
                0 <= best < k,
                best as int == min_entry_index(s@.take(k as int)),
                s@.len() > 0,
            decreases s@.len() - k,
        {
            proof {
                let t = s@.take(k as int + 1);
                assert(t.drop_last() =~= s@.take(k as int));
                assert(t.last() == s@[k as int]);
                assert(t[best as int] == s@[best as int]);
                lemma_min_entry(s@.take(k as int));
            }
            let cur_abs = s[k].abs_time;
            let cur_seq = s[k].seq;
            let best_abs = s[best].abs_time;
            let best_seq = s[best].seq;
            if cur_abs < best_abs || (cur_abs == best_abs && cur_seq < best_seq) {
                best = k;
            }
            k += 1;
        }
        assert(s@.take(s@.len() as int) =~= s@);
        best
    }

    /// Pops the earliest valid event, consuming invalidation markers of the
    /// cancelled entries it skips. Advances the current time to the popped
    /// event's due time; time never moves backwards.
    pub fn next(&mut self) -> (r: Option<ScheduleEvent<T>>)
        requires
            old(self).wf(),
        ensures
            final(self).wf(),
            final(self).seq == old(self).seq,
            final(self).abs_time >= old(self).abs_time,
            ({
                let (oe, es, inv) = next_outcome(
                    old(self).entries@,
                    old(self).invalid@.to_set(),
                );
                &&& final(self).entries@ == es
                &&& final(self).invalid@.to_set() == inv
                &&& match (r, oe) {
                    (Some(ev), Some(e)) => {
                        &&& ev.event == e.value
                        &&& ev.time_delta == e.abs_time - old(self).abs_time
                        &&& ev.time_queued == e.rel_time
                        &&& ev.absolute_time == e.abs_time
                        &&& final(self).abs_time == e.abs_time
                    },
                    (None, None) => final(self).abs_time == old(self).abs_time,
                    _ => false,
                }
            }),
    {
        loop
            invariant
                self.wf(),
                self.seq == old(self).seq,
                self.abs_time == old(self).abs_time,
                next_outcome(self.entries@, self.invalid@.to_set()) == next_outcome(
                    old(self).entries@,
                    old(self).invalid@.to_set(),
                ),
            decreases self.entries@.len(),
        {
            if self.entries.len() == 0 {
                return None;
            }
            let ghost pre_entries = self.entries@;
            let ghost pre_invalid = self.invalid@;
            let m = self.find_min_index();
            proof {
                lemma_min_entry(pre_entries);
            }
            let entry = self.entries.remove(m);
            let e_seq = entry.seq;
            match find_marker(&self.invalid, e_seq) {
                Some(k) => {
                    proof {
                        lemma_no_dup_remove(pre_invalid, k as int);
                    }
                    self.invalid.remove(k);
                    proof {
                        assert(pre_invalid.to_set().contains(e_seq)) by {
                            assert(pre_invalid.contains(e_seq));
                        }
                        assert(self.invalid@.to_set() =~= pre_invalid.to_set().remove(e_seq));
                    }
                }
                None => {
                    proof {
                        assert(!pre_invalid.to_set().contains(e_seq));
                        assert forall|i2: int|
                            0 <= i2 < self.entries@.len() implies (
                        #[trigger] self.entries@[i2]).abs_time >= entry.abs_time
                            && self.entries@[i2].seq < self.seq by {
                            if i2 < m as int {
                                assert(self.entries@[i2] == pre_entries[i2]);
                                assert(entry_le(pre_entries[m as int], pre_entries[i2]));
                            } else {
                                assert(self.entries@[i2] == pre_entries[i2 + 1]);
                                assert(entry_le(pre_entries[m as int], pre_entries[i2 + 1]));
                            }
                        }
                    }
                    let time_delta = entry.abs_time - self.abs_time;
                    self.abs_time = entry.abs_time;
                    return Some(
                        ScheduleEvent {
                            event: entry.value,
                            time_delta,
                            time_queued: entry.rel_time,
                            absolute_time: entry.abs_time,
                        },
                    );
                }
            }
        }
    }

    /// Empties the queue and rewinds the clock and the ticket counter.
    /// Pending invalidation markers are kept.
    pub fn reset(&mut self)
        requires
            old(self).wf(),
        ensures
            final(self).wf(),
            final(self).entries@.len() == 0,
            final(self).abs_time == 0,
            final(self).seq == 0,
            final(self).invalid@ == old(self).invalid@,
    {
        self.entries.clear();
        self.abs_time = 0;
        self.seq = 0;
    }

    /// The current time: the due time of the last event popped.
    pub fn time(&self) -> (t: u64)
        ensures
            t == self.abs_time,
    {
        self.abs_time
    }

    /// Cancels the entry queued under `ticket`: the next pop of an entry
    /// with that sequence number is skipped.
    pub fn invalidate(&mut self, ticket: ScheduleTicket)
        requires
            old(self).wf(),
        ensures
            final(self).wf(),
            final(self).entries@ == old(self).entries@,
            final(self).abs_time == old(self).abs_time,
            final(self).seq == old(self).seq,
            final(self).invalid@.to_set() == old(self).invalid@.to_set().insert(ticket.seq),
    {
        let present = match find_marker(&self.invalid, ticket.seq) {
            Some(_) => true,
            None => false,
        };
        if !present {
            proof {
                lemma_push_contains(self.invalid@, ticket.seq);
                assert(forall|j: int|
                    0 <= j < self.invalid@.len() ==> self.invalid@.push(ticket.seq)[j]
                        == self.invalid@[j]);
                assert forall|a: int, b: int|
                    0 <= a < b < self.invalid@.push(ticket.seq).len() implies self.invalid@.push(
                    ticket.seq,
                )[a] != self.invalid@.push(ticket.seq)[b] by {
                    if b == self.invalid@.len() as int {
                        assert(self.invalid@.contains(self.invalid@[a]));
                    }
                }
            }
            self.invalid.push(ticket.seq);
            proof {
                assert(self.invalid@.to_set() =~= old(self).invalid@.to_set().insert(ticket.seq));
            }
        } else {
            proof {
                assert(self.invalid@.contains(ticket.seq));
                assert(self.invalid@.to_set() =~= old(self).invalid@.to_set().insert(ticket.seq));
            }
        }
    }

    /// How many entries are queued, cancelled ones included.
    pub fn len(&self) -> (n: usize)
        ensures
            n == self.entries@.len(),
    {
        self.entries.len()
    }
}

/// Scans the invalidation markers for `x`.
fn find_marker(v: &Vec<u64>, x: u64) -> (r: Option<usize>)
    ensures
        r matches Some(k) ==> k < v@.len() && v@[k as int] == x,
        r is None ==> !v@.contains(x),
{
    let mut k: usize = 0;
    while k < v.len()
        invariant
            0 <= k <= v@.len(),
            forall|j: int| 0 <= j < k ==> v@[j] != x,
        decreases v@.len() - k,
    {
        if v[k] == x {
            return Some(k);
        }
        k += 1;
    }
    proof {
        if v@.contains(x) {
            let i = choose|i: int| 0 <= i < v@.len() && v@[i] == x;
            assert(false);
        }
    }
    None
}

} // verus!
