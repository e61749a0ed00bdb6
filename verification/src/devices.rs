//! The list of discovered devices: when each device was last seen, indexed
//! both by address and by time, so that stale devices can be dropped in the
//! order in which they were last seen.
//!
//! Times are nanoseconds on a monotonic clock whose origin the caller picks;
//! addresses are the 48-bit keys of `crate::address`.

use vstd::prelude::*;
use std::collections::{BTreeMap, HashSet};
use vstd::std_specs::iter::IteratorSpec;

verus! {

/// A device that has not been seen for this long is dropped.
pub const REMOVE_DISCOVERED_DEVICE_AFTER: u64 = 15_000_000_000;

/// A cleanup runs this long after the oldest device turns stale.
pub const CLEANUP_MARGIN: u64 = 1_000_000;

/// Delay from the moment a device is last seen to its cleanup.
pub const CLEANUP_DELAY: u64 = REMOVE_DISCOVERED_DEVICE_AFTER + CLEANUP_MARGIN;

/// The latest time that the list accepts, so that a cleanup time always fits.
pub const MAX_TIME: u64 = u64::MAX - CLEANUP_DELAY;

/// What the device list reports to whoever follows the scan.
#[derive(Debug)]
pub enum ScanEvent<Id> {
    /// A device with this address was seen for the first time; `Id` is how
    /// the platform refers to it.
    Found(u64, Id),
    /// The device with this address is gone from the list.
    Lost(u64),
}

/// Discovered devices, by address and by the time they were last seen.
pub struct Devices {
    by_time: BTreeMap<u64, HashSet<u64>>,
    by_addr: BTreeMap<u64, u64>,
}

/// `t` is when the next cleanup of `seen` is due: the cleanup delay after
/// the earliest last-seen time.
pub open spec fn is_next_cleanup(seen: Map<u64, u64>, t: int) -> bool {
    &&& exists|a: u64| #[trigger] seen.contains_key(a) && t == seen[a] + CLEANUP_DELAY
    &&& forall|a: u64| #[trigger] seen.contains_key(a) ==> t <= seen[a] + CLEANUP_DELAY
}

/// A device last seen at `seen_at` is still fresh at `now`.
pub open spec fn is_fresh(seen_at: u64, now: u64) -> bool {
    seen_at + REMOVE_DISCOVERED_DEVICE_AFTER >= now
}

/// The devices of `seen` that are still fresh at `now`.
pub open spec fn fresh_part(seen: Map<u64, u64>, now: u64) -> Map<u64, u64> {
    seen.restrict(Set::new(|a: u64| seen.contains_key(a) && is_fresh(seen[a], now)))
}

/// The addresses of `events`, each of which is `Lost`.
pub open spec fn lost_addrs<Id>(events: Seq<ScanEvent<Id>>) -> Seq<u64> {
    events.map_values(|e: ScanEvent<Id>| e->Lost_0)
}

/// Every event of `events` is `Lost`.
pub open spec fn all_lost<Id>(events: Seq<ScanEvent<Id>>) -> bool {
    forall|i: int| 0 <= i < events.len() ==> #[trigger] events[i] is Lost
}

/// The events that `events` holds past its first `start` entries.
pub open spec fn appended<T>(events: Seq<T>, start: Seq<T>) -> Seq<T> {
    events.skip(start.len() as int)
}

/// `events` starts with `start`.
pub open spec fn extends<T>(events: Seq<T>, start: Seq<T>) -> bool {
    &&& start.len() <= events.len()
    &&& events.take(start.len() as int) == start
}

/// The addresses of `s` strictly increase.
pub open spec fn strictly_increasing(s: Seq<u64>) -> bool {
    forall|i: int, j: int| 0 <= i < j < s.len() ==> s[i] < s[j]
}

/// Calls `BTreeMap::first_key_value`, which returns the entry with the
/// smallest key, or `None` for an empty map; only the key is kept.
#[verifier::external_body]
fn first_time<V>(m: &BTreeMap<u64, V>) -> (first: Option<u64>)
    ensures
        match first {
            None => m@.dom().is_empty(),
            Some(k) => m@.contains_key(k) && forall|j: u64| #[trigger] m@.contains_key(j) ==> k <= j,
        },
{
    m.first_key_value().map(|(k, _)| *k)
}

/// Calls `BTreeMap::split_off`, which leaves the keys below `at` in `m` and
/// returns the entries with keys at or above `at`.
#[verifier::external_body]
fn split_off_at<V>(m: &mut BTreeMap<u64, V>, at: u64) -> (upper: BTreeMap<u64, V>)
    ensures
        final(m)@ == old(m)@.restrict(Set::new(|k: u64| k < at)),
        upper@ == old(m)@.restrict(Set::new(|k: u64| k >= at)),
{
    m.split_off(&at)
}

/// Calls `BTreeMap::pop_first`, which removes and returns the entry with the
/// smallest key, or `None` for an empty map.
#[verifier::external_body]
fn pop_first_entry<V>(m: &mut BTreeMap<u64, V>) -> (first: Option<(u64, V)>)
    ensures
        match first {
            None => old(m)@.dom().is_empty() && final(m)@ == old(m)@,
            Some((k, v)) => {
                &&& old(m)@.contains_key(k)
                &&& old(m)@[k] == v
                &&& forall|j: u64| #[trigger] old(m)@.contains_key(j) ==> k <= j
                &&& final(m)@ == old(m)@.remove(k)
            },
        },
{
    m.pop_first()
}

/// `by_addr` and `by_time` index the same devices: each device stands in
/// exactly the bucket of its last-seen time, no bucket is empty, and no time
/// is past `MAX_TIME`.
pub closed spec fn indexes_agree(by_addr: Map<u64, u64>, by_time: Map<u64, HashSet<u64>>) -> bool {
    &&& forall|a: u64| #[trigger]
        by_addr.contains_key(a) ==> {
            &&& by_time.contains_key(by_addr[a])
            &&& by_time[by_addr[a]]@.contains(a)
            &&& by_addr[a] <= MAX_TIME
        }
    &&& forall|t: u64, a: u64| #[trigger]
        by_time[t]@.contains(a) && by_time.contains_key(t) ==> {
            &&& by_addr.contains_key(a)
            &&& by_addr[a] == t
        }
    &&& forall|t: u64| #[trigger]
        by_time.contains_key(t) ==> exists|a: u64| #[trigger] by_time[t]@.contains(a)
}

impl View for Devices {
    /// For each known address, when it was last seen.
    type V = Map<u64, u64>;

    closed spec fn view(&self) -> Map<u64, u64> {
        self.by_addr@
    }
}

impl Devices {
    /// The two indexes agree: each device stands in exactly the time bucket
    /// of its last-seen time, no bucket is empty, and no time is too late.
    pub closed spec fn wf(&self) -> bool {
        indexes_agree(self.by_addr@, self.by_time@)
    }

    /// An empty list.
    pub fn new() -> (devices: Self)
        ensures
            devices.wf(),
            devices@ == Map::<u64, u64>::empty(),
    {
        Devices { by_time: BTreeMap::new(), by_addr: BTreeMap::new() }
    }

    /// When the next cleanup is due: the cleanup delay after the earliest
    /// last-seen time, or `None` when the list is empty.
    pub fn clean_stale_at(&self) -> (next: Option<u64>)
        requires
            self.wf(),
        ensures
            match next {
                None => self@.dom().is_empty(),
                Some(t) => is_next_cleanup(self@, t as int),
            },
    {
        match first_time(&self.by_time) {
            None => {
                proof {
                    assert forall|a: u64| !self.by_addr@.contains_key(a) by {
                        if self.by_addr@.contains_key(a) {
                            assert(self.by_time@.contains_key(self.by_addr@[a]));
                        }
                    }
                    assert(self@.dom() =~= Set::<u64>::empty());
                }
                None
            },
            Some(t) => {
                proof {
                    let a = choose|a: u64| #[trigger] self.by_time@[t]@.contains(a);
                    assert(self.by_time@[t]@.contains(a));
                    assert(self.by_addr@.contains_key(a));
                    assert(self.by_addr@[a] == t);
                    assert forall|b: u64| #[trigger]
                        self@.contains_key(b) implies t + CLEANUP_DELAY <= self@[b]
                        + CLEANUP_DELAY by {
                        assert(self.by_time@.contains_key(self.by_addr@[b]));
                    }
                }
                Some(t + CLEANUP_DELAY)
            },
        }
    }

    /// Records that the device `addr` (known to the platform as `id`) was
    /// seen at `now`. With `only_existing`, a device that is not in the list
    /// is left out and `None` comes back. Otherwise the device's last-seen
    /// time becomes `now`, a `Found` event is appended to `events` if the
    /// device was new, and the time of the next cleanup comes back.
    pub fn touch<Id>(
        &mut self,
        id: Id,
        addr: u64,
        now: u64,
        only_existing: bool,
        events: &mut Vec<ScanEvent<Id>>,
    ) -> (next: Option<u64>)
        requires
            old(self).wf(),
            now <= MAX_TIME,
        ensures
            final(self).wf(),
            history_matches(old(self)@, old(events)@) ==> history_matches(final(self)@, final(events)@),
            if only_existing && !old(self)@.contains_key(addr) {
                &&& next is None
                &&& final(self)@ == old(self)@
                &&& final(events)@ == old(events)@
            } else {
                &&& final(self)@ == old(self)@.insert(addr, now)
                &&& next matches Some(t) && is_next_cleanup(final(self)@, t as int)
                &&& if old(self)@.contains_key(addr) {
                    final(events)@ == old(events)@
                } else {
                    final(events)@ == old(events)@.push(ScanEvent::Found(addr, id))
                }
            },
    {
        if only_existing && !self.by_addr.contains_key(&addr) {
            return None;
        }
        let ghost old_addr = self.by_addr@;
        let ghost old_time = self.by_time@;
        let ghost old_events = events@;
        match self.by_addr.insert(addr, now) {
            Some(last_seen) => {
                let mut bucket = self.by_time.remove(&last_seen).unwrap();
                let ghost old_bucket = bucket@;
                bucket.remove(&addr);
                if !bucket.is_empty() {
                    proof {
                        let b = choose|b: u64| old_bucket.contains(b) && b != addr;
                        assert(bucket@.contains(b));
                    }
                    self.by_time.insert(last_seen, bucket);
                }
            },
            None => {
                events.push(ScanEvent::Found(addr, id));
            },
        }
        let ghost mid_time = self.by_time@;
        // Here `addr` stands in no bucket; every other device is in place.
        proof {
            assert forall|t: u64, a: u64| #[trigger]
                mid_time[t]@.contains(a) && mid_time.contains_key(t) implies a != addr
                && old_addr.contains_key(a) && old_addr[a] == t by {
                assert(old_time.contains_key(t));
                assert(old_time[t]@.contains(a));
            }
            assert forall|a: u64| #[trigger]
                old_addr.contains_key(a) && a != addr implies mid_time.contains_key(old_addr[a])
                && mid_time[old_addr[a]]@.contains(a) by {
                assert(old_time.contains_key(old_addr[a]));
                assert(old_time[old_addr[a]]@.contains(a));
            }
            assert forall|t: u64| #[trigger] mid_time.contains_key(t) implies exists|a: u64| #[trigger]
                mid_time[t]@.contains(a) by {
                assert(old_time.contains_key(t));
                let a = choose|a: u64| #[trigger] old_time[t]@.contains(a);
                assert(old_time[t]@.contains(a));
            }
        }
        let bucket = match self.by_time.remove(&now) {
            Some(mut bucket) => {
                bucket.insert(addr);
                bucket
            },
            None => {
                let mut bucket = HashSet::new();
                bucket.insert(addr);
                bucket
            },
        };
        let ghost new_bucket = bucket@;
        proof {
            assert(new_bucket.contains(addr));
            assert forall|a: u64| #[trigger] new_bucket.contains(a) && a != addr implies
                mid_time.contains_key(now) && mid_time[now]@.contains(a) by {}
        }
        self.by_time.insert(now, bucket);
        proof {
            let new_addr = self.by_addr@;
            let new_time = self.by_time@;
            assert forall|a: u64| #[trigger] new_addr.contains_key(a) implies {
                &&& new_time.contains_key(new_addr[a])
                &&& new_time[new_addr[a]]@.contains(a)
                &&& new_addr[a] <= MAX_TIME
            } by {
                if a != addr {
                    assert(old_addr.contains_key(a));
                    assert(mid_time.contains_key(old_addr[a]));
                    assert(mid_time[old_addr[a]]@.contains(a));
                }
            }
            assert forall|t: u64, a: u64| #[trigger]
                new_time[t]@.contains(a) && new_time.contains_key(t) implies new_addr.contains_key(a)
                && new_addr[a] == t by {
                if t != now {
                    assert(mid_time.contains_key(t));
                    assert(mid_time[t]@.contains(a));
                }
            }
            assert forall|t: u64| #[trigger] new_time.contains_key(t) implies exists|a: u64| #[trigger]
                new_time[t]@.contains(a) by {
                if t == now {
                    assert(new_time[t]@.contains(addr));
                } else {
                    assert(mid_time.contains_key(t));
                    let a = choose|a: u64| #[trigger] mid_time[t]@.contains(a);
                    assert(new_time[t]@.contains(a));
                }
            }
            assert(self.wf());
            lemma_history_touch(old_addr, old_events, addr, id, now, events@);
        }
        self.clean_stale_at()
    }

    /// Empties the list, appending a `Lost` event for every device to
    /// `events`, in increasing order of address.
    pub fn clear_all<Id>(&mut self, events: &mut Vec<ScanEvent<Id>>)
        requires
            old(self).wf(),
        ensures
            final(self).wf(),
            history_matches(old(self)@, old(events)@) ==> history_matches(final(self)@, final(events)@),
            final(self)@ == Map::<u64, u64>::empty(),
            extends(final(events)@, old(events)@),
            all_lost(appended(final(events)@, old(events)@)),
            strictly_increasing(lost_addrs(appended(final(events)@, old(events)@))),
            lost_addrs(appended(final(events)@, old(events)@)).to_set() == old(self)@.dom(),
    {
        let ghost start = events@;
        let ghost all = self.by_addr@;
        let ghost mut lost: Seq<u64> = Seq::empty();
        proof {
            assert(events@.take(start.len() as int) =~= start);
            assert(appended(events@, start) =~= Seq::<ScanEvent<Id>>::empty());
            assert(lost.to_set() =~= Set::<u64>::empty());
            assert(lost.to_set() + self.by_addr@.dom() =~= all.dom());
        }
        loop
            invariant
                extends(events@, start),
                appended(events@, start) == lost.map_values(|a: u64| ScanEvent::<Id>::Lost(a)),
                strictly_increasing(lost),
                forall|i: int, k: u64|
                    0 <= i < lost.len() && #[trigger] self.by_addr@.contains_key(k) ==> #[trigger] lost[i] < k,
                lost.to_set() + self.by_addr@.dom() == all.dom(),
                self.by_addr@.dom().subset_of(all.dom()),
            ensures
                self.by_addr@.dom().is_empty(),
            decreases self.by_addr@.dom().len(),
        {
            let ghost before = self.by_addr@;
            let ghost before_events = events@;
            match pop_first_entry(&mut self.by_addr) {
                None => {
                    break;
                },
                Some((a, _)) => {
                    events.push(ScanEvent::Lost(a));
                    proof {
                        let l2 = lost.push(a);
                        assert(appended(events@, start) =~= appended(before_events, start).push(ScanEvent::<Id>::Lost(a)));
                        assert(l2.map_values(|a: u64| ScanEvent::<Id>::Lost(a)) =~= lost.map_values(|a: u64| ScanEvent::<Id>::Lost(a)).push(ScanEvent::<Id>::Lost(a)));
                        assert(events@.take(start.len() as int) =~= before_events.take(start.len() as int));
                        assert forall|i: int, k: u64|
                            0 <= i < l2.len() && #[trigger] self.by_addr@.contains_key(k) implies #[trigger] l2[i] < k by {
                            if i < lost.len() {
                                assert(before.contains_key(k));
                            } else {
                                assert(before.contains_key(k));
                            }
                        }
                        assert forall|i: int, j: int| 0 <= i < j < l2.len() implies l2[i] < l2[j] by {
                            if j == lost.len() {
                                assert(before.contains_key(a));
                            }
                        }
                        lost.lemma_push_to_set_commute(a);
                        assert(l2.to_set() =~= lost.to_set().insert(a));
                        assert(l2.to_set() + self.by_addr@.dom() =~= all.dom());
                        lost = l2;
                    }
                },
            }
        }
        self.by_time.clear();
        proof {
            assert(self.by_addr@.dom() =~= Set::<u64>::empty());
            assert(self.by_addr@ =~= Map::<u64, u64>::empty());
            assert(lost.to_set() =~= all.dom());
            assert(lost_addrs(appended(events@, start)) =~= lost);
            let extra = appended(events@, start);
            assert(events@ =~= start + extra);
            assert(lost_addrs(extra).no_duplicates());
            assert forall|i: int| 0 <= i < extra.len() implies all.contains_key(#[trigger] lost_addrs(extra)[i]) by {
                assert(lost.to_set().contains(lost[i]));
            }
            if history_matches(all, start) {
                lemma_history_lost(all, start, extra);
                assert(all.remove_keys(lost_addrs(extra).to_set()) =~= self.by_addr@);
            }
        }
    }

    /// Drops the devices that are no longer fresh at `now`, appending a
    /// `Lost` event for each to `events`, ordered by the time they were last
    /// seen, and returns when the next cleanup is due (`None` when no device
    /// is left).
    pub fn clear_stale<Id>(&mut self, now: u64, events: &mut Vec<ScanEvent<Id>>) -> (next: Option<u64>)
        requires
            old(self).wf(),
        ensures
            final(self).wf(),
            history_matches(old(self)@, old(events)@) ==> history_matches(final(self)@, final(events)@),
            final(self)@ == fresh_part(old(self)@, now),
            extends(final(events)@, old(events)@),
            all_lost(appended(final(events)@, old(events)@)),
            lost_addrs(appended(final(events)@, old(events)@)).no_duplicates(),
            lost_addrs(appended(final(events)@, old(events)@)).to_set() == old(self)@.dom()
                - fresh_part(old(self)@, now).dom(),
            forall|i: int, j: int|
                0 <= i < j < appended(final(events)@, old(events)@).len() ==> old(self)@[
                    #[trigger] lost_addrs(appended(final(events)@, old(events)@))[i]]
                    <= old(self)@[#[trigger] lost_addrs(appended(final(events)@, old(events)@))[j]],
            match next {
                None => final(self)@.dom().is_empty(),
                Some(t) => is_next_cleanup(final(self)@, t as int),
            },
    {
        let oldest: u64 = if now >= REMOVE_DISCOVERED_DEVICE_AFTER {
            now - REMOVE_DISCOVERED_DEVICE_AFTER
        } else {
            0
        };
        let ghost old_addr = self.by_addr@;
        let ghost old_time = self.by_time@;
        let ghost start = events@;
        let mut stale = split_off_at(&mut self.by_time, oldest);
        std::mem::swap(&mut stale, &mut self.by_time);
        let ghost keep = self.by_time@;
        let ghost mut lost: Seq<u64> = Seq::empty();
        proof {
            assert(events@.take(start.len() as int) =~= start);
            assert(appended(events@, start) =~= Seq::<ScanEvent<Id>>::empty());
            assert(self.by_addr@ =~= old_addr.remove_keys(lost.to_set()));
        }
        loop
            invariant
                indexes_agree(old_addr, old_time),
                self.by_time@ == keep,
                keep == old_time.restrict(Set::new(|k: u64| k >= oldest)),
                forall|t: u64| #[trigger]
                    stale@.contains_key(t) ==> old_time.contains_key(t) && stale@[t] == old_time[t]
                        && t < oldest,
                forall|a: u64|
                    lost.contains(a) <==> (#[trigger] old_addr.contains_key(a) && old_addr[a] < oldest
                        && !stale@.contains_key(old_addr[a])),
                self.by_addr@ == old_addr.remove_keys(lost.to_set()),
                lost.no_duplicates(),
                forall|i: int, j: int|
                    0 <= i < j < lost.len() ==> old_addr[#[trigger] lost[i]] <= old_addr[#[trigger] lost[j]],
                forall|i: int, t: u64|
                    0 <= i < lost.len() && #[trigger] stale@.contains_key(t) ==> old_addr[#[trigger] lost[i]] < t,
                extends(events@, start),
                appended(events@, start) == lost.map_values(|a: u64| ScanEvent::<Id>::Lost(a)),
            ensures
                stale@.dom().is_empty(),
            decreases stale@.dom().len(),
        {
            match pop_first_entry(&mut stale) {
                None => {
                    break;
                },
                Some((t, bucket)) => {
                    let ghost lost0 = lost;
                    let ghost keys = vstd::std_specs::hash::spec_hash_keys_iter(&bucket).remaining();
                    proof {
                        assert(old_time.contains_key(t));
                    }
                    for a in it: bucket.iter()
                        invariant
                            indexes_agree(old_addr, old_time),
                            self.by_time@ == keep,
                            old_time.contains_key(t),
                            bucket == old_time[t],
                            it.seq() == keys,
                            keys.unref().to_set() == bucket@,
                            keys.no_duplicates(),
                            lost == lost0 + keys.take(it.index()).unref(),
                            forall|i: int| 0 <= i < lost0.len() ==> old_addr[#[trigger] lost0[i]] < t,
                            lost0.no_duplicates(),
                            self.by_addr@ == old_addr.remove_keys(lost.to_set()),
                            extends(events@, start),
                            appended(events@, start) == lost.map_values(|a: u64| ScanEvent::<Id>::Lost(a)),
                    {
                        let ghost before_events = events@;
                        let ghost before_lost = lost;
                        self.by_addr.remove(a);
                        events.push(ScanEvent::Lost(*a));
                        proof {
                            lost = before_lost.push(*a);
                            assert(keys.take(it.index() + 1).unref() =~= keys.take(it.index()).unref().push(*a));
                            assert(lost =~= lost0 + keys.take(it.index() + 1).unref());
                            before_lost.lemma_push_to_set_commute(*a);
                            assert(lost.to_set() =~= before_lost.to_set().insert(*a));
                            assert(self.by_addr@ =~= old_addr.remove_keys(lost.to_set()));
                            assert(appended(events@, start) =~= appended(before_events, start).push(ScanEvent::<Id>::Lost(*a)));
                            assert(lost.map_values(|a: u64| ScanEvent::<Id>::Lost(a)) =~= before_lost.map_values(|a: u64| ScanEvent::<Id>::Lost(a)).push(ScanEvent::<Id>::Lost(*a)));
                            assert(events@.take(start.len() as int) =~= before_events.take(start.len() as int));
                        }
                    }
                    proof {
                        assert(keys.take(keys.len() as int) =~= keys);
                        let added = keys.unref();
                        assert(lost == lost0 + added);
                        // every added device was last seen at `t`
                        assert forall|k: int| #![trigger added[k]] 0 <= k < added.len() implies old_addr.contains_key(added[k])
                            && old_addr[added[k]] == t by {
                            assert(added.to_set().contains(added[k]));
                            assert(old_time[t]@.contains(added[k]));
                        }
                        assert(added.no_duplicates()) by {
                            assert forall|i: int, j: int| 0 <= i < j < added.len() implies added[i] != added[j] by {
                                assert(keys[i] != keys[j]);
                            }
                        }
                        assert(lost.no_duplicates()) by {
                            assert forall|i: int, j: int| 0 <= i < j < lost.len() implies lost[i] != lost[j] by {
                                if j >= lost0.len() && i < lost0.len() {
                                    assert(old_addr[lost0[i]] < t);
                                    assert(old_addr[added[j - lost0.len()]] == t);
                                } else if i >= lost0.len() {
                                    assert(added[i - lost0.len()] != added[j - lost0.len()]);
                                }
                            }
                        }
                        assert forall|x: u64|
                            lost.contains(x) <==> (#[trigger] old_addr.contains_key(x) && old_addr[x] < oldest
                                && !stale@.contains_key(old_addr[x])) by {
                            if lost.contains(x) {
                                let i = choose|i: int| 0 <= i < lost.len() && lost[i] == x;
                                if i >= lost0.len() {
                                    assert(old_addr[added[i - lost0.len()]] == t);
                                } else {
                                    assert(lost0.contains(x));
                                }
                            }
                            if old_addr.contains_key(x) && old_addr[x] < oldest && !stale@.contains_key(old_addr[x]) {
                                if old_addr[x] == t {
                                    assert(old_time[t]@.contains(x));
                                    assert(added.to_set().contains(x));
                                    let k = choose|k: int| 0 <= k < added.len() && added[k] == x;
                                    assert(lost[lost0.len() + k] == x);
                                } else {
                                    assert(lost0.contains(x));
                                    let i = choose|i: int| 0 <= i < lost0.len() && lost0[i] == x;
                                    assert(lost[i] == x);
                                }
                            }
                        }
                        assert forall|i: int, j: int|
                            0 <= i < j < lost.len() implies old_addr[#[trigger] lost[i]] <= old_addr[#[trigger] lost[j]] by {
                            if j >= lost0.len() {
                                assert(old_addr[added[j - lost0.len()]] == t);
                                if i >= lost0.len() {
                                    assert(old_addr[added[i - lost0.len()]] == t);
                                } else {
                                    assert(old_addr[lost0[i]] < t);
                                }
                            }
                        }
                        assert forall|i: int, t2: u64|
                            0 <= i < lost.len() && #[trigger] stale@.contains_key(t2) implies old_addr[#[trigger] lost[i]] < t2 by {
                            if i >= lost0.len() {
                                assert(old_addr[added[i - lost0.len()]] == t);
                            }
                        }
                    }
                },
            }
        }
        proof {
            assert forall|a: u64| #[trigger] self.by_addr@.contains_key(a) <==> (old_addr.contains_key(a) && is_fresh(old_addr[a], now)) by {
                if old_addr.contains_key(a) && !lost.contains(a) {
                    assert(old_addr[a] >= oldest);
                }
            }
            assert(self.by_addr@ =~= fresh_part(old_addr, now));
            assert(indexes_agree(self.by_addr@, self.by_time@)) by {
                assert forall|t2: u64, a: u64| #[trigger] self.by_time@[t2]@.contains(a) && self.by_time@.contains_key(t2)
                    implies self.by_addr@.contains_key(a) && self.by_addr@[a] == t2 by {
                    assert(old_time[t2]@.contains(a));
                }
                assert forall|t2: u64| #[trigger] self.by_time@.contains_key(t2) implies exists|a: u64| #[trigger]
                    self.by_time@[t2]@.contains(a) by {
                    let a = choose|a: u64| #[trigger] old_time[t2]@.contains(a);
                    assert(self.by_time@[t2]@.contains(a));
                }
            }
            let l = lost_addrs(appended(events@, start));
            assert(l =~= lost);
            assert(lost.to_set() =~= old_addr.dom() - fresh_part(old_addr, now).dom());
            let extra = appended(events@, start);
            assert(events@ =~= start + extra);
            assert forall|i: int| 0 <= i < extra.len() implies old_addr.contains_key(#[trigger] lost_addrs(extra)[i]) by {
                assert(lost.to_set().contains(lost[i]));
            }
            if history_matches(old_addr, start) {
                lemma_history_lost(old_addr, start, extra);
                assert(old_addr.remove_keys(lost_addrs(extra).to_set()) =~= self.by_addr@);
            }
        }
        self.clean_stale_at()
    }
}

/// With a monotonic clock the next cleanup never moves earlier: seeing a
/// device at `now`, no earlier than any recorded time, leaves the next
/// cleanup where it was or later.
pub proof fn lemma_touch_keeps_cleanup_order(seen: Map<u64, u64>, addr: u64, now: u64, before: int, after: int)
    requires
        forall|a: u64| #[trigger] seen.contains_key(a) ==> seen[a] <= now,
        is_next_cleanup(seen, before),
        is_next_cleanup(seen.insert(addr, now), after),
    ensures
        before <= after,
{
    let seen2 = seen.insert(addr, now);
    let b = choose|b: u64| #[trigger] seen2.contains_key(b) && after == seen2[b] + CLEANUP_DELAY;
    let a = choose|a: u64| #[trigger] seen.contains_key(a) && before == seen[a] + CLEANUP_DELAY;
    if b != addr {
        assert(seen.contains_key(b));
    }
}

/// The next cleanup that a cleanup at `now` reports is later than `now`:
/// every device that survives it is fresh.
pub proof fn lemma_cleanup_moves_forward(seen: Map<u64, u64>, now: u64, next: int)
    requires
        is_next_cleanup(fresh_part(seen, now), next),
    ensures
        next > now,
{
    let fresh = fresh_part(seen, now);
    let b = choose|b: u64| #[trigger] fresh.contains_key(b) && next == fresh[b] + CLEANUP_DELAY;
    assert(is_fresh(seen[b], now));
}

/// A cleanup that runs when it is due drops at least the device that was
/// seen earliest.
pub proof fn lemma_due_cleanup_drops_a_device(seen: Map<u64, u64>, due: int, now: u64)
    requires
        is_next_cleanup(seen, due),
        now >= due,
    ensures
        exists|a: u64| #[trigger] seen.contains_key(a) && !fresh_part(seen, now).contains_key(a),
{
    let a = choose|a: u64| #[trigger] seen.contains_key(a) && due == seen[a] + CLEANUP_DELAY;
    assert(!fresh_part(seen, now).contains_key(a));
}

/// A device that was just seen survives a cleanup for as long as it stays
/// fresh, and keeps its time.
pub proof fn lemma_touched_device_stays_fresh(seen: Map<u64, u64>, addr: u64, seen_at: u64, now: u64)
    requires
        seen_at <= now <= seen_at + REMOVE_DISCOVERED_DEVICE_AFTER,
    ensures
        fresh_part(seen.insert(addr, seen_at), now).contains_key(addr),
        fresh_part(seen.insert(addr, seen_at), now)[addr] == seen_at,
{
}

/// The address that an event is about.
pub open spec fn event_addr<Id>(e: ScanEvent<Id>) -> u64 {
    match e {
        ScanEvent::Found(a, _) => a,
        ScanEvent::Lost(a) => a,
    }
}

/// The last event about `a` in `events` is `Found`.
pub open spec fn last_found<Id>(events: Seq<ScanEvent<Id>>, a: u64) -> bool
    decreases events.len(),
{
    if events.len() == 0 {
        false
    } else if event_addr(events.last()) == a {
        events.last() is Found
    } else {
        last_found(events.drop_last(), a)
    }
}

/// The events about `a` alternate `Found`, `Lost`, `Found`, ..., starting
/// with `Found`.
pub open spec fn alternates<Id>(events: Seq<ScanEvent<Id>>, a: u64) -> bool
    decreases events.len(),
{
    if events.len() == 0 {
        true
    } else {
        &&& alternates(events.drop_last(), a)
        &&& event_addr(events.last()) == a ==> (events.last() is Found <==> !last_found(
            events.drop_last(),
            a,
        ))
    }
}

/// `events` is the history of a device list whose devices are `seen`: for
/// every address the events alternate, and an address is in the list exactly
/// when its last event is `Found`.
pub open spec fn history_matches<Id>(seen: Map<u64, u64>, events: Seq<ScanEvent<Id>>) -> bool {
    forall|a: u64|
        #![trigger alternates(events, a)]
        #![trigger last_found(events, a)]
        #![trigger seen.contains_key(a)]
        alternates(events, a) && (seen.contains_key(a) <==> last_found(events, a))
}

/// An empty list has an empty history.
pub proof fn lemma_history_starts_empty<Id>()
    ensures
        history_matches(Map::<u64, u64>::empty(), Seq::<ScanEvent<Id>>::empty()),
{
}

/// Appending one event changes only what is said of its address.
proof fn lemma_history_push<Id>(events: Seq<ScanEvent<Id>>, e: ScanEvent<Id>, a: u64)
    ensures
        last_found(events.push(e), a) == if event_addr(e) == a {
            e is Found
        } else {
            last_found(events, a)
        },
        alternates(events.push(e), a) == (alternates(events, a) && (event_addr(e) == a ==> (
        e is Found <==> !last_found(events, a)))),
{
    assert(events.push(e).drop_last() =~= events);
}

/// A device that was not in the list and is now is announced by `Found`.
proof fn lemma_history_found<Id>(seen: Map<u64, u64>, events: Seq<ScanEvent<Id>>, addr: u64, id: Id, now: u64)
    requires
        history_matches(seen, events),
        !seen.contains_key(addr),
    ensures
        history_matches(seen.insert(addr, now), events.push(ScanEvent::Found(addr, id))),
{
    let e = ScanEvent::Found(addr, id);
    assert forall|a: u64| alternates(events.push(e), a) && (seen.insert(addr, now).contains_key(a) <==> last_found(events.push(e), a)) by {
        lemma_history_push(events, e, a);
        assert(alternates(events, a));
        assert(seen.contains_key(a) <==> last_found(events, a));
    }
}

/// Seeing a listed device again changes nothing in its history.
proof fn lemma_history_retime<Id>(seen: Map<u64, u64>, events: Seq<ScanEvent<Id>>, addr: u64, now: u64)
    requires
        history_matches(seen, events),
        seen.contains_key(addr),
    ensures
        history_matches(seen.insert(addr, now), events),
{
    assert(seen.insert(addr, now).dom() =~= seen.dom());
}

/// Seeing a device keeps the history in step: a `Found` is appended exactly
/// when the device was not listed.
proof fn lemma_history_touch<Id>(
    seen: Map<u64, u64>,
    events: Seq<ScanEvent<Id>>,
    addr: u64,
    id: Id,
    now: u64,
    after: Seq<ScanEvent<Id>>,
)
    requires
        after == if seen.contains_key(addr) {
            events
        } else {
            events.push(ScanEvent::Found(addr, id))
        },
    ensures
        history_matches(seen, events) ==> history_matches(seen.insert(addr, now), after),
{
    if history_matches(seen, events) {
        if seen.contains_key(addr) {
            lemma_history_retime(seen, events, addr, now);
        } else {
            lemma_history_found(seen, events, addr, id, now);
        }
    }
}

/// Appending `Lost` events for distinct listed devices records their removal.
proof fn lemma_history_lost<Id>(seen: Map<u64, u64>, events: Seq<ScanEvent<Id>>, extra: Seq<ScanEvent<Id>>)
    requires
        history_matches(seen, events),
        all_lost(extra),
        lost_addrs(extra).no_duplicates(),
        forall|i: int| 0 <= i < extra.len() ==> seen.contains_key(#[trigger] lost_addrs(extra)[i]),
    ensures
        history_matches(seen.remove_keys(lost_addrs(extra).to_set()), events + extra),
    decreases extra.len(),
{
    if extra.len() == 0 {
        assert(events + extra =~= events);
        assert(seen.remove_keys(lost_addrs(extra).to_set()) =~= seen);
    } else {
        let init = extra.drop_last();
        let e = extra.last();
        let x = lost_addrs(extra).last();
        assert(lost_addrs(init) =~= lost_addrs(extra).drop_last());
        assert(all_lost(init)) by {
            assert forall|i: int| 0 <= i < init.len() implies #[trigger] init[i] is Lost by {
                assert(extra[i] is Lost);
            }
        }
        assert(forall|i: int| 0 <= i < init.len() ==> seen.contains_key(#[trigger] lost_addrs(init)[i])) by {
            assert forall|i: int| 0 <= i < init.len() implies seen.contains_key(#[trigger] lost_addrs(init)[i]) by {
                assert(lost_addrs(init)[i] == lost_addrs(extra)[i]);
            }
        }
        assert(lost_addrs(init).no_duplicates());
        lemma_history_lost(seen, events, init);
        let before = events + init;
        let seen0 = seen.remove_keys(lost_addrs(init).to_set());
        assert(events + extra =~= before.push(e));
        assert(extra[extra.len() - 1] is Lost);
        assert(e == ScanEvent::<Id>::Lost(x));
        assert(!lost_addrs(init).contains(x)) by {
            if lost_addrs(init).contains(x) {
                let k = choose|k: int| 0 <= k < lost_addrs(init).len() && lost_addrs(init)[k] == x;
                assert(lost_addrs(extra)[k] == lost_addrs(extra)[extra.len() - 1]);
            }
        }
        assert(seen.contains_key(lost_addrs(extra)[extra.len() - 1]));
        assert(seen0.contains_key(x));
        lost_addrs(init).lemma_push_to_set_commute(x);
        assert(lost_addrs(extra) =~= lost_addrs(init).push(x));
        let seen1 = seen.remove_keys(lost_addrs(extra).to_set());
        assert(seen1 =~= seen0.remove(x));
        let after = before.push(e);
        assert forall|a: u64|
            #![trigger alternates(after, a)]
            #![trigger last_found(after, a)]
            #![trigger seen1.contains_key(a)]
            alternates(after, a) && (seen1.contains_key(a) <==> last_found(after, a)) by {
            lemma_history_push(before, e, a);
            assert(alternates(before, a));
            assert(seen0.contains_key(a) <==> last_found(before, a));
            if a == x {
                assert(event_addr(e) == x);
                assert(last_found(before, x));
                assert(!seen1.contains_key(x));
            }
        }
        assert(history_matches(seen1, after));
        assert(history_matches(seen1, events + extra));
    }
}

/// An operation on the device list, as a trace of calls records it.
pub enum DeviceOp {
    /// `Devices::touch` of `addr` at `now`.
    Touch { addr: u64, now: u64, only_existing: bool },
    /// `Devices::clear_stale` at `now`.
    ClearStale { now: u64 },
    /// `Devices::clear_all`.
    ClearAll,
}

/// The devices after `op` on a list whose devices are `seen`, as the
/// operation's contract states it.
pub open spec fn op_effect(seen: Map<u64, u64>, op: DeviceOp) -> Map<u64, u64> {
    match op {
        DeviceOp::Touch { addr, now, only_existing } => if only_existing && !seen.contains_key(addr) {
            seen
        } else {
            seen.insert(addr, now)
        },
        DeviceOp::ClearStale { now } => fresh_part(seen, now),
        DeviceOp::ClearAll => Map::empty(),
    }
}

/// `op` on a list whose devices are `seen` reports `t` as the next cleanup,
/// as the operation's contract states it.
pub open spec fn op_reports(seen: Map<u64, u64>, op: DeviceOp, t: int) -> bool {
    match op {
        DeviceOp::Touch { addr, now, only_existing } => !(only_existing && !seen.contains_key(addr))
            && is_next_cleanup(seen.insert(addr, now), t),
        DeviceOp::ClearStale { now } => is_next_cleanup(fresh_part(seen, now), t),
        DeviceOp::ClearAll => false,
    }
}

/// The clock reading that `op` carries, if any.
pub open spec fn op_clock(op: DeviceOp) -> Option<u64> {
    match op {
        DeviceOp::Touch { now, .. } => Some(now),
        DeviceOp::ClearStale { now } => Some(now),
        DeviceOp::ClearAll => None,
    }
}

/// The devices after the first `k` operations of `ops` on a new list.
pub open spec fn seen_after(ops: Seq<DeviceOp>, k: nat) -> Map<u64, u64>
    decreases k,
{
    if k == 0 {
        Map::empty()
    } else {
        op_effect(seen_after(ops, (k - 1) as nat), ops[k - 1])
    }
}

/// The clock readings of `ops` never go back.
pub open spec fn monotonic_clock(ops: Seq<DeviceOp>) -> bool {
    forall|i: int, j: int|
        0 <= i < j < ops.len() && (#[trigger] op_clock(ops[i])) is Some && (#[trigger] op_clock(ops[j])) is Some
            ==> op_clock(ops[i])->0 <= op_clock(ops[j])->0
}

/// The latest clock reading once `op` has run after a reading of `clock`.
pub open spec fn clock_after_op(op: DeviceOp, clock: int) -> int {
    match op_clock(op) {
        Some(t) => t as int,
        None => clock,
    }
}

/// The latest clock reading among the first `k` operations (0 if none).
pub open spec fn clock_after(ops: Seq<DeviceOp>, k: nat) -> int
    decreases k,
{
    if k == 0 {
        0
    } else {
        clock_after_op(ops[k - 1], clock_after(ops, (k - 1) as nat))
    }
}

/// No device was seen after `clock`, and every cleanup time reported so far
/// (`last`) is no later than the cleanup time of any listed device or than
/// the cleanup delay after `clock`.
pub open spec fn cleanup_floor(seen: Map<u64, u64>, last: int, clock: int) -> bool {
    &&& forall|a: u64| #[trigger]
        seen.contains_key(a) ==> last <= seen[a] + CLEANUP_DELAY && seen[a] <= clock
    &&& last <= clock + CLEANUP_DELAY
}

/// One operation at a clock reading no earlier than `clock` keeps the floor
/// of an earlier report, and a report it makes is no earlier than that one.
proof fn lemma_floor_step(seen: Map<u64, u64>, op: DeviceOp, last: int, clock: int)
    requires
        cleanup_floor(seen, last, clock),
        op_clock(op) matches Some(t) ==> clock <= t,
    ensures
        cleanup_floor(op_effect(seen, op), last, clock_after_op(op, clock)),
        forall|t: int| #[trigger] op_reports(seen, op, t) ==> last <= t && cleanup_floor(
            op_effect(seen, op), t, clock_after_op(op, clock)),
{
    match op {
        DeviceOp::Touch { addr, now, only_existing } => {
            let s2 = seen.insert(addr, now);
            assert forall|t: int| #[trigger] op_reports(seen, op, t) implies last <= t && cleanup_floor(s2, t, now as int) by {
                let b = choose|b: u64| #[trigger] s2.contains_key(b) && t == s2[b] + CLEANUP_DELAY;
                if b != addr {
                    assert(seen.contains_key(b));
                }
            }
        },
        DeviceOp::ClearStale { now } => {
            let f = fresh_part(seen, now);
            assert forall|a: u64| #[trigger] f.contains_key(a) implies seen.contains_key(a) && f[a] == seen[a] by {}
            assert forall|t: int| #[trigger] op_reports(seen, op, t) implies last <= t && cleanup_floor(f, t, now as int) by {
                let b = choose|b: u64| #[trigger] f.contains_key(b) && t == f[b] + CLEANUP_DELAY;
                assert(seen.contains_key(b));
            }
        },
        DeviceOp::ClearAll => {},
    }
}

/// With a monotonic clock, the latest reading so far is no later than any
/// reading still to come.
proof fn lemma_clock_le(ops: Seq<DeviceOp>, k: nat, m: int)
    requires
        monotonic_clock(ops),
        k <= m < ops.len(),
        op_clock(ops[m]) is Some,
    ensures
        clock_after(ops, k) <= op_clock(ops[m])->0,
{
    lemma_clock_from_ops(ops, k);
    if clock_after(ops, k) != 0 {
        let e = choose|e: int|
            0 <= e < k && (#[trigger] op_clock(ops[e])) is Some && op_clock(ops[e])->0 == clock_after(ops, k);
        assert(op_clock(ops[e]) is Some);
        assert(op_clock(ops[m]) is Some);
    }
}

/// With a monotonic clock, every listed device was seen no later than the
/// latest clock reading.
proof fn lemma_seen_before_clock(ops: Seq<DeviceOp>, k: nat)
    requires
        monotonic_clock(ops),
        k <= ops.len(),
    ensures
        cleanup_floor(seen_after(ops, k), 0, clock_after(ops, k)),
    decreases k,
{
    if k > 0 {
        let k1 = (k - 1) as nat;
        lemma_seen_before_clock(ops, k1);
        if op_clock(ops[k1 as int]) is Some {
            lemma_clock_le(ops, k1, k1 as int);
        }
        lemma_floor_step(seen_after(ops, k1), ops[k1 as int], 0, clock_after(ops, k1));
    } else {
        assert(seen_after(ops, 0) =~= Map::<u64, u64>::empty());
    }
}

/// With a monotonic clock, a cleanup time reported by operation `i` stays a
/// floor for the list through the later operations.
proof fn lemma_floor_carried(ops: Seq<DeviceOp>, i: nat, ti: int, k: nat)
    requires
        monotonic_clock(ops),
        i < k <= ops.len(),
        op_reports(seen_after(ops, i), ops[i as int], ti),
    ensures
        cleanup_floor(seen_after(ops, k), ti, clock_after(ops, k)),
    decreases k,
{
    let k1 = (k - 1) as nat;
    if op_clock(ops[k1 as int]) is Some {
        lemma_clock_le(ops, k1, k1 as int);
    }
    if k1 == i {
        lemma_seen_before_clock(ops, i);
        lemma_floor_step(seen_after(ops, i), ops[i as int], 0, clock_after(ops, i));
    } else {
        lemma_floor_carried(ops, i, ti, k1);
        lemma_floor_step(seen_after(ops, k1), ops[k1 as int], ti, clock_after(ops, k1));
    }
}

/// With a monotonic clock, the cleanup times that a sequence of operations
/// on a new device list reports never decrease: a report at step `j` is no
/// earlier than one at an earlier step `i`. So a pending cleanup is never
/// asked to move to an earlier time.
pub proof fn lemma_cleanup_times_never_decrease(ops: Seq<DeviceOp>, i: nat, j: nat, ti: int, tj: int)
    requires
        monotonic_clock(ops),
        i < j < ops.len(),
        op_reports(seen_after(ops, i), ops[i as int], ti),
        op_reports(seen_after(ops, j), ops[j as int], tj),
    ensures
        ti <= tj,
{
    lemma_floor_carried(ops, i, ti, j);
    if op_clock(ops[j as int]) is Some {
        lemma_clock_le(ops, j, j as int);
    }
    lemma_floor_step(seen_after(ops, j), ops[j as int], ti, clock_after(ops, j));
}

/// After a cleanup at `now`, the next cleanup is no earlier than it was
/// before: the surviving devices are a part of the old ones.
pub proof fn lemma_cleanup_keeps_cleanup_order(seen: Map<u64, u64>, now: u64, before: int, after: int)
    requires
        is_next_cleanup(seen, before),
        is_next_cleanup(fresh_part(seen, now), after),
    ensures
        before <= after,
{
    let f = fresh_part(seen, now);
    let b = choose|b: u64| #[trigger] f.contains_key(b) && after == f[b] + CLEANUP_DELAY;
    assert(seen.contains_key(b));
}

/// The latest clock reading is 0 or the reading of an earlier operation.
proof fn lemma_clock_from_ops(ops: Seq<DeviceOp>, k: nat)
    requires
        k <= ops.len(),
    ensures
        clock_after(ops, k) == 0 || exists|e: int|
            0 <= e < k && (#[trigger] op_clock(ops[e])) is Some && op_clock(ops[e])->0 == clock_after(ops, k),
        clock_after(ops, k) >= 0,
    decreases k,
{
    if k > 0 {
        lemma_clock_from_ops(ops, (k - 1) as nat);
        if op_clock(ops[k - 1]) is None && clock_after(ops, (k - 1) as nat) != 0 {
            let e = choose|e: int|
                0 <= e < k - 1 && (#[trigger] op_clock(ops[e])) is Some && op_clock(ops[e])->0 == clock_after(ops, (k - 1) as nat);
            assert(op_clock(ops[e])->0 == clock_after(ops, k));
        }
    }
}

} // verus!
