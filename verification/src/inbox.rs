//! The inbox of the simulation: the inputs that are waiting to be delivered,
//! each at an instant of its own.

use crate::net::{NodeId, PeerId};
use crate::protocol::Input;
use crate::time::{LocalTime, MIN_LATENCY};
use std::collections::BTreeMap;
use vstd::prelude::*;
use vstd::set_lib::lemma_len_subset;
use vstd::std_specs::cmp::OrdSpec;
use vstd::std_specs::iter::IteratorSpec;

verus! {

/// A scheduled protocol input.
#[derive(Clone, Debug, PartialEq, Eq)]
pub struct Scheduled {
    /// The node for which this input is scheduled.
    pub node: NodeId,
    /// The remote peer from which this input originates; `0.0.0.0:0` where
    /// it originates from the node itself.
    pub remote: PeerId,
    /// The input being scheduled.
    pub input: Input,
}

/// Inbox of scheduled state machine inputs to be delivered to the simulated
/// nodes, ordered by delivery time.
#[derive(Debug)]
pub struct Inbox {
    messages: BTreeMap<LocalTime, Scheduled>,
}

/// The instants at or after `time` that hold an entry of `m`.
pub open spec fn taken_from(m: Map<LocalTime, Scheduled>, time: int) -> Set<LocalTime> {
    m.dom().filter(|k: LocalTime| k >= time)
}

/// The instant at which an input asked for at `time` comes to stand in `m`:
/// `time` itself where that is free, else the first free instant that is a
/// whole number of minimum latencies later.
pub open spec fn slot(m: Map<LocalTime, Scheduled>, time: int) -> int
    decreases taken_from(m, time).len(),
    when m.dom().finite()
    via slot_decreases
{
    if 0 <= time <= u128::MAX && m.contains_key(time as u128) {
        slot(m, time + MIN_LATENCY)
    } else {
        time
    }
}

#[via_fn]
proof fn slot_decreases(m: Map<LocalTime, Scheduled>, time: int) {
    if 0 <= time <= u128::MAX && m.contains_key(time as u128) {
        lemma_taken_shrinks(m, time);
    }
}

/// Past a taken instant there are fewer taken instants left.
pub proof fn lemma_taken_shrinks(m: Map<LocalTime, Scheduled>, time: int)
    requires
        m.dom().finite(),
        0 <= time <= u128::MAX,
        m.contains_key(time as u128),
    ensures
        taken_from(m, time).finite(),
        taken_from(m, time + MIN_LATENCY).len() < taken_from(m, time).len(),
{
    let here = taken_from(m, time);
    let after = taken_from(m, time + MIN_LATENCY);
    m.dom().lemma_len_filter(|k: LocalTime| k >= time);
    assert(here.contains(time as u128));
    assert(after.subset_of(here.remove(time as u128)));
    lemma_len_subset(after, here.remove(time as u128));
}

/// Where `slot` lands: at or after `time`, a whole number of minimum
/// latencies away, on a free instant, with every instant that it passed over
/// taken, and no further away than there are taken instants.
pub proof fn lemma_slot(m: Map<LocalTime, Scheduled>, time: int)
    requires
        m.dom().finite(),
        0 <= time,
    ensures
        time <= slot(m, time) <= time + taken_from(m, time).len() * MIN_LATENCY,
        (slot(m, time) - time) % (MIN_LATENCY as int) == 0,
        slot(m, time) <= u128::MAX ==> !m.contains_key(slot(m, time) as u128),
        forall|k: int|
            time <= k < slot(m, time) && (k - time) % (MIN_LATENCY as int) == 0
                ==> #[trigger] m.contains_key(k as u128),
    decreases taken_from(m, time).len(),
{
    if time <= u128::MAX && m.contains_key(time as u128) {
        lemma_taken_shrinks(m, time);
        lemma_slot(m, time + MIN_LATENCY);
    }
}

/// The inbox after an input was put in that was asked for at `time`.
pub open spec fn put(inbox: Map<LocalTime, Scheduled>, time: int, entry: Scheduled) -> Map<
    LocalTime,
    Scheduled,
> {
    inbox.insert(slot(inbox, time) as u128, entry)
}

/// Putting an input in makes the inbox one longer and overwrites nothing;
/// the input comes to stand no earlier than it was asked for.
pub proof fn lemma_put(inbox: Map<LocalTime, Scheduled>, time: int, entry: Scheduled)
    requires
        inbox.dom().finite(),
        0 <= time,
        time + inbox.len() * MIN_LATENCY <= u128::MAX,
    ensures
        time <= slot(inbox, time) <= time + inbox.len() * MIN_LATENCY,
        !inbox.contains_key(slot(inbox, time) as u128),
        put(inbox, time, entry).dom().finite(),
        put(inbox, time, entry).len() == inbox.len() + 1,
        put(inbox, time, entry)[slot(inbox, time) as u128] == entry,
        forall|t: LocalTime| inbox.contains_key(t) ==> put(inbox, time, entry).contains_key(t)
            && put(inbox, time, entry)[t] == inbox[t],
{
    lemma_slot(inbox, time);
    inbox.dom().lemma_len_filter(|k: LocalTime| k >= time);
}

/// Whether the instants stand in order, each before the next.
pub open spec fn ascending(times: Seq<LocalTime>) -> bool {
    forall|i: int, j: int| 0 <= i < j < times.len() ==> times[i] < times[j]
}

/// Whether `entries` are the inputs that wait in `inbox`, all of them and
/// in the order of their times.
pub open spec fn in_order(inbox: Map<LocalTime, Scheduled>, entries: Seq<Scheduled>) -> bool {
    exists|times: Seq<LocalTime>|
        {
            &&& ascending(times)
            &&& #[trigger] times.to_set() == inbox.dom()
            &&& times.len() == entries.len()
            &&& forall|i: int| 0 <= i < times.len() ==> entries[i] == inbox[times[i]]
        }
}

/// Whether `time` is the earliest instant at which an input waits in `inbox`.
pub open spec fn earliest(inbox: Map<LocalTime, Scheduled>, time: LocalTime) -> bool {
    &&& inbox.contains_key(time)
    &&& forall|t: LocalTime| inbox.contains_key(t) ==> time <= t
}

/// The inbox after the inputs `entries` were put in one after another, each
/// asked for at `time`.
pub open spec fn put_all(inbox: Map<LocalTime, Scheduled>, time: int, entries: Seq<Scheduled>) -> Map<
    LocalTime,
    Scheduled,
>
    decreases entries.len(),
{
    if entries.len() == 0 {
        inbox
    } else {
        put(put_all(inbox, time, entries.drop_last()), time, entries.last())
    }
}

/// The instant at which the input at place `i` of `entries` comes to stand
/// when they are put in one after another, each asked for at `time`.
pub open spec fn slot_of(
    inbox: Map<LocalTime, Scheduled>,
    time: int,
    entries: Seq<Scheduled>,
    i: int,
) -> int {
    slot(put_all(inbox, time, entries.take(i)), time)
}

/// No input is dropped on a collision. When inputs are put into an inbox
/// one after another, all asked for at one time, each comes to stand at an
/// instant of its own, at or after the time asked for and a whole number of
/// minimum latencies away from it; an input that was put in earlier stands
/// earlier; what the inbox held before is all there still, and so is every
/// one of the new inputs.
pub proof fn law_no_drop(inbox: Map<LocalTime, Scheduled>, time: int, entries: Seq<Scheduled>)
    requires
        inbox.dom().finite(),
        0 <= time,
        time + (inbox.len() + entries.len()) * MIN_LATENCY <= u128::MAX,
    ensures
        put_all(inbox, time, entries).dom().finite(),
        put_all(inbox, time, entries).len() == inbox.len() + entries.len(),
        forall|i: int, t: LocalTime|
            0 <= i <= entries.len() && #[trigger] put_all(
                inbox,
                time,
                entries.take(i),
            ).contains_key(t) ==> put_all(inbox, time, entries).contains_key(t) && put_all(
                inbox,
                time,
                entries,
            )[t] == put_all(inbox, time, entries.take(i))[t],
        forall|t: LocalTime| #[trigger]
            inbox.contains_key(t) ==> put_all(inbox, time, entries).contains_key(t) && put_all(
                inbox,
                time,
                entries,
            )[t] == inbox[t],
        forall|i: int|
            0 <= i < entries.len() ==> {
                let at = #[trigger] slot_of(inbox, time, entries, i);
                &&& time <= at <= u128::MAX
                &&& (at - time) % (MIN_LATENCY as int) == 0
                &&& !inbox.contains_key(at as u128)
                &&& put_all(inbox, time, entries).contains_key(at as u128)
                &&& put_all(inbox, time, entries)[at as u128] == entries[i]
            },
        forall|i: int, j: int|
            0 <= i < j < entries.len() ==> #[trigger] slot_of(inbox, time, entries, i)
                < #[trigger] slot_of(inbox, time, entries, j),
    decreases entries.len(),
{
    let n = entries.len() as int;
    assert(entries.take(0) =~= Seq::<Scheduled>::empty());
    assert(entries.take(n) =~= entries);
    if n > 0 {
        let init = entries.drop_last();
        let before = put_all(inbox, time, init);
        let after = put_all(inbox, time, entries);
        let at = slot(before, time);
        law_no_drop(inbox, time, init);
        lemma_put(before, time, entries.last());
        lemma_slot(before, time);
        assert(entries.take(n - 1) =~= init);
        assert forall|i: int| 0 <= i < n implies entries.take(i) == init.take(i) by {
            assert(entries.take(i) =~= init.take(i));
        }
        assert(init.take(n - 1) =~= init);
        assert(init.take(0) =~= Seq::<Scheduled>::empty());
        assert forall|t: LocalTime| #[trigger] inbox.contains_key(t) implies after.contains_key(t)
            && after[t] == inbox[t] by {
            assert(put_all(inbox, time, init.take(0)).contains_key(t));
            assert(before.contains_key(t));
        }
        assert forall|i: int| 0 <= i < n - 1 implies #[trigger] slot_of(inbox, time, entries, i)
            < at by {
            let earlier = put_all(inbox, time, init.take(i));
            let mine = slot_of(inbox, time, init, i);
            assert(slot_of(inbox, time, entries, i) == mine);
            law_no_drop(inbox, time, init.take(i));
            lemma_slot(earlier, time);
            assert(before.contains_key(mine as u128));
            if at < mine {
                assert(earlier.contains_key(at as u128));
            }
        }
        assert forall|i: int| 0 <= i < n implies {
            let mine = #[trigger] slot_of(inbox, time, entries, i);
            &&& time <= mine <= u128::MAX
            &&& (mine - time) % (MIN_LATENCY as int) == 0
            &&& !inbox.contains_key(mine as u128)
            &&& after.contains_key(mine as u128)
            &&& after[mine as u128] == entries[i]
        } by {
            if i < n - 1 {
                let mine = slot_of(inbox, time, init, i);
                assert(slot_of(inbox, time, entries, i) == mine);
                assert(entries[i] == init[i]);
                assert(before.contains_key(mine as u128));
                assert(after.contains_key(mine as u128));
            } else {
                assert(slot_of(inbox, time, entries, i) == at);
                if inbox.contains_key(at as u128) {
                    assert(before.contains_key(at as u128));
                }
            }
        }
        assert forall|i: int, j: int| 0 <= i < j < n implies #[trigger] slot_of(
            inbox,
            time,
            entries,
            i,
        ) < #[trigger] slot_of(inbox, time, entries, j) by {
            if j < n - 1 {
                assert(slot_of(inbox, time, entries, i) == slot_of(inbox, time, init, i));
                assert(slot_of(inbox, time, entries, j) == slot_of(inbox, time, init, j));
            } else {
                assert(slot_of(inbox, time, entries, j) == at);
            }
        }
        assert forall|i: int, t: LocalTime|
            0 <= i <= n && #[trigger] put_all(inbox, time, entries.take(i)).contains_key(
                t,
            ) implies after.contains_key(t) && after[t] == put_all(inbox, time, entries.take(i))[t] by {
            if i < n {
                assert(entries.take(i) == init.take(i));
                assert(before.contains_key(t));
            }
        }
    } else {
        assert(put_all(inbox, time, entries) == inbox);
    }
}

impl View for Inbox {
    type V = Map<LocalTime, Scheduled>;

    closed spec fn view(&self) -> Map<LocalTime, Scheduled> {
        self.messages@
    }
}

impl Inbox {
    /// An inbox that holds nothing.
    pub fn new() -> (inbox: Inbox)
        ensures
            inbox@ == Map::<LocalTime, Scheduled>::empty(),
            inbox@.dom().finite(),
    {
        Inbox { messages: BTreeMap::new() }
    }

    /// The number of inputs that wait.
    pub fn len(&self) -> (n: usize)
        ensures
            n == self@.len(),
            self@.dom().finite(),
    {
        self.messages.len()
    }

    /// All scheduled inputs, in the order in which they are due.
    pub fn iter(&self) -> (entries: Vec<&Scheduled>)
        ensures
            in_order(self@, entries@.map_values(|entry: &Scheduled| *entry)),
    {
        let mut entries: Vec<&Scheduled> = Vec::new();
        for kv in it: self.messages.iter()
            invariant
                entries.len() == it.index(),
                forall|i: int| 0 <= i < it.index() ==> entries@[i] == it.seq()[i].1,
        {
            entries.push(kv.1);
        }
        proof {
            let all = self.messages.iter().remaining();
            let times = all.map_values(|kv: (&LocalTime, &Scheduled)| *kv.0);
            let found = entries@.map_values(|entry: &Scheduled| *entry);
            assert forall|i: int, j: int| 0 <= i < j < times.len() implies times[i] < times[j] by {
                assert(times[i].cmp_spec(&times[j]) is Less);
            }
            assert forall|t: LocalTime| times.to_set().contains(t) <==> self@.dom().contains(
                t,
            ) by {
                if times.to_set().contains(t) {
                    let i = choose|i: int| 0 <= i < times.len() && times[i] == t;
                    assert(self@.contains_key(*all[i].0));
                }
                if self@.dom().contains(t) {
                    assert(all.contains((&t, &self@[t])));
                    let i = choose|i: int| 0 <= i < all.len() && all[i] == (&t, &self@[t]);
                    assert(times[i] == t);
                }
            }
            assert(times.to_set() =~= self@.dom());
            assert forall|i: int| 0 <= i < times.len() implies found[i] == self@[times[i]] by {
                assert(self@.contains_key(*all[i].0));
            }
        }
        entries
    }

    /// Add a scheduled input to the inbox, at `time` or, where another input
    /// waits there already, at the first free instant after it: no input is
    /// ever overwritten. The clock must be able to tell that instant.
    pub fn insert(&mut self, time: LocalTime, msg: Scheduled)
        requires
            slot(old(self)@, time as int) <= u128::MAX,
        ensures
            final(self)@ == put(old(self)@, time as int, msg),
            final(self)@.dom().finite(),
    {
        let ghost m = self@;
        let mut at = time;
        while self.messages.contains_key(&at)
            invariant
                self@ == m,
                m.dom().finite(),
                slot(m, at as int) == slot(m, time as int),
                slot(m, time as int) <= u128::MAX,
            decreases taken_from(m, at as int).len(),
        {
            proof {
                lemma_taken_shrinks(m, at as int);
                lemma_slot(m, at + MIN_LATENCY);
            }
            at = at + MIN_LATENCY;
        }
        self.messages.insert(at, msg);
    }

    /// Get the next scheduled input to be delivered: the one with the
    /// earliest time. It stays in the inbox.
    pub fn next(&self) -> (first: Option<(LocalTime, &Scheduled)>)
        ensures
            match first {
                Some((time, entry)) => earliest(self@, time) && *entry == self@[time],
                None => self@ == Map::<LocalTime, Scheduled>::empty(),
            },
    {
        let mut first: Option<(LocalTime, &Scheduled)> = None;
        for kv in it: self.messages.iter()
            invariant_except_break
                first is None,
                it.index() == 0,
            ensures
                match first {
                    Some((time, entry)) => it.seq().len() > 0 && it.seq()[0] == (&time, entry),
                    None => it.seq().len() == 0,
                },
        {
            first = Some((*kv.0, kv.1));
            break ;
        }
        proof {
            let all = self.messages.iter().remaining();
            match first {
                Some((time, entry)) => {
                    let keys = all.map_values(|kv: (&LocalTime, &Scheduled)| *kv.0);
                    assert(self@.contains_key(*all[0].0));
                    assert forall|t: LocalTime| self@.contains_key(t) implies time <= t by {
                        assert(all.contains((&t, &self@[t])));
                        let j = choose|j: int| 0 <= j < all.len() && all[j] == (&t, &self@[t]);
                        assert(keys[j] == t);
                        assert(keys[0] == time);
                        if j > 0 {
                            assert(keys[0].cmp_spec(&keys[j]) is Less);
                        }
                    }
                },
                None => {
                    assert(self@.dom().len() == 0);
                    assert(self@.dom() =~= Set::empty());
                    assert(self@ =~= Map::empty());
                },
            }
        }
        first
    }

    /// Take the input that waits at `time` out of the inbox.
    pub fn remove(&mut self, time: LocalTime) -> (entry: Option<Scheduled>)
        ensures
            final(self)@ == old(self)@.remove(time),
            final(self)@.dom().finite(),
            entry == if old(self)@.contains_key(time) {
                Some(old(self)@[time])
            } else {
                None
            },
    {
        self.messages.remove(&time)
    }

    /// Whether every input that waits is a tick of a timer.
    pub fn only_ticks(&self) -> (only: bool)
        ensures
            only == (forall|t: LocalTime| self@.contains_key(t) ==> self@[t].input is Tick),
    {
        let mut only = true;
        for kv in it: self.messages.iter()
            invariant
                only == (forall|i: int| 0 <= i < it.index() ==> (*it.seq()[i].1).input is Tick),
        {
            match kv.1.input {
                Input::Tick => {},
                _ => {
                    only = false;
                },
            }
        }
        proof {
            let all = self.messages.iter().remaining();
            if only {
                assert forall|t: LocalTime| self@.contains_key(t) implies self@[t].input is Tick by {
                    assert(all.contains((&t, &self@[t])));
                }
            } else {
                let i = choose|i: int| 0 <= i < all.len() && !((*all[i].1).input is Tick);
                assert(self@.contains_key(*all[i].0));
            }
        }
        only
    }

    /// Whether nothing waits.
    pub fn is_empty(&self) -> (b: bool)
        ensures
            b == (self@ == Map::<LocalTime, Scheduled>::empty()),
    {
        proof {
            if self@.is_empty() {
                assert(self@ =~= Map::empty());
            }
        }
        self.messages.is_empty()
    }

    /// Whether an input waits at `time`.
    pub fn contains(&self, time: LocalTime) -> (b: bool)
        ensures
            b == self@.contains_key(time),
    {
        self.messages.contains_key(&time)
    }
}

} // verus!
