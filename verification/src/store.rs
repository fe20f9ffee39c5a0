//! The state kept between runs: tracked events, initialised sources, source health.

use vstd::prelude::*;
use crate::keyed::{KeyedMap, keys_sorted, map_of, lemma_map_of_sorted};
use crate::text::seq_lt;
use crate::model::{Event, EventView, SourceId, local_day, local_day_of};

verus! {

/// What is kept of a source's recent scans.
#[derive(Debug, PartialEq)]
pub struct Health {
    pub consecutive_failures: u32,
    pub alerted: bool,
    pub last_count: usize,
    pub last_error: Option<String>,
}

impl Clone for Health {
    fn clone(&self) -> (r: Self)
        ensures
            r == *self,
    {
        Health {
            consecutive_failures: self.consecutive_failures,
            alerted: self.alerted,
            last_count: self.last_count,
            last_error: match &self.last_error {
                Some(s) => Some(s.clone()),
                None => None,
            },
        }
    }
}

impl Default for Health {
    fn default() -> (r: Self)
        ensures
            r == Health::empty(),
    {
        Health { consecutive_failures: 0, alerted: false, last_count: 0, last_error: None }
    }
}

impl Health {
    pub open spec fn empty() -> Health {
        Health { consecutive_failures: 0, alerted: false, last_count: 0, last_error: None }
    }
}

/// A tracked event with its comparison prices.
#[derive(Debug)]
pub struct TrackedEvent {
    pub event: Event,
    /// Category -> the price drops are measured from (the last notified or highest seen price).
    pub reference: KeyedMap<i64>,
    /// Days since 1970-01-01 (Turkish date).
    pub first_seen: i64,
    pub last_seen: i64,
}

pub struct TrackedEventView {
    pub event: EventView,
    pub reference: Map<Seq<char>, i64>,
    pub first_seen: i64,
    pub last_seen: i64,
}

impl View for TrackedEvent {
    type V = TrackedEventView;

    open spec fn view(&self) -> TrackedEventView {
        TrackedEventView {
            event: self.event@,
            reference: self.reference.to_map(),
            first_seen: self.first_seen,
            last_seen: self.last_seen,
        }
    }
}

/// The tracked events, keyed by event key, as views.
pub open spec fn tracked_views(m: Map<Seq<char>, TrackedEvent>) -> Map<Seq<char>, TrackedEventView> {
    m.map_values(|t: TrackedEvent| t@)
}

/// The state kept between runs.
#[derive(Debug)]
pub struct State {
    pub events: KeyedMap<TrackedEvent>,
    /// Sources whose first scan is done (a first scan sends no "new event" notifications).
    pub initialized_sources: Vec<SourceId>,
    pub health: Vec<(SourceId, Health)>,
    pub telegram_offset: i64,
    /// The drop percentage set with /esik, in hundredths of a percent.
    pub min_drop_override_basis_points: Option<i64>,
    /// When the repository was last touched to keep scheduled runs alive (UNIX seconds).
    pub keepalive: Option<i64>,
}

impl Default for State {
    fn default() -> (r: Self)
        ensures
            r.events@.len() == 0,
            r.initialized_sources@.len() == 0,
            r.health@.len() == 0,
            r.telegram_offset == 0,
            r.min_drop_override_basis_points is None,
            r.keepalive is None,
    {
        State {
            events: KeyedMap::new(),
            initialized_sources: Vec::new(),
            health: Vec::new(),
            telegram_offset: 0,
            min_drop_override_basis_points: None,
            keepalive: None,
        }
    }
}

/// The event is over (its date, in its own offset, is before `today`) or was not seen for
/// more than 14 days.
pub open spec fn expired(t: TrackedEventView, today: int) -> bool {
    let past = match t.event.date {
        Some(d) => local_day(d) < today,
        None => false,
    };
    past || today - t.last_seen > 14
}

/// The entries that `prune` keeps, in order.
pub open spec fn kept_entries(s: Seq<(Seq<char>, TrackedEvent)>, today: int) -> Seq<(Seq<char>, TrackedEvent)>
    decreases s.len(),
{
    if s.len() == 0 {
        s
    } else if expired(s.last().1@, today) {
        kept_entries(s.drop_last(), today)
    } else {
        kept_entries(s.drop_last(), today).push(s.last())
    }
}

pub proof fn lemma_kept_entries_subseq(s: Seq<(Seq<char>, TrackedEvent)>, today: int)
    ensures
        forall|j: int| 0 <= j < kept_entries(s, today).len() ==> exists|i: int| 0 <= i < s.len() && s[i]
            == #[trigger] kept_entries(s, today)[j],
    decreases s.len(),
{
    if s.len() > 0 {
        lemma_kept_entries_subseq(s.drop_last(), today);
        let k = kept_entries(s.drop_last(), today);
        assert forall|j: int| 0 <= j < kept_entries(s, today).len() implies exists|i: int| 0 <= i < s.len() && s[i]
            == #[trigger] kept_entries(s, today)[j] by {
            if j < k.len() {
                let i = choose|i: int| 0 <= i < s.drop_last().len() && s.drop_last()[i] == k[j];
                assert(s[i] == k[j]);
            } else {
                assert(s[s.len() - 1] == s.last());
            }
        }
    }
}

proof fn lemma_kept_is_filter(s: Seq<(Seq<char>, TrackedEvent)>, today: int)
    ensures
        kept_entries(s, today) == s.filter(|e: (Seq<char>, TrackedEvent)| !expired(e.1@, today)),
    decreases s.len(),
{
    reveal(Seq::filter);
    if s.len() > 0 {
        lemma_kept_is_filter(s.drop_last(), today);
    }
}

proof fn lemma_filter_sorted<T>(s: Seq<(Seq<char>, T)>, f: spec_fn((Seq<char>, T)) -> bool)
    requires
        keys_sorted(s),
    ensures
        keys_sorted(s.filter(f)),
    decreases s.len(),
{
    reveal(Seq::filter);
    if s.len() > 0 {
        let t = s.drop_last();
        let n = s.len() - 1;
        assert(keys_sorted(t)) by {
            assert forall|a: int, b: int| 0 <= a < b < t.len() implies seq_lt(#[trigger] t[a].0, #[trigger] t[b].0) by {
                assert(t[a] == s[a] && t[b] == s[b]);
            }
        }
        lemma_filter_sorted(t, f);
        let r0 = t.filter(f);
        if f(s.last()) {
            let r = r0.push(s.last());
            assert(s.filter(f) == r);
            assert forall|a: int, b: int| 0 <= a < b < r.len() implies seq_lt(#[trigger] r[a].0, #[trigger] r[b].0) by {
                assert(r[a] == r0[a]);
                if b < r0.len() {
                    assert(r[b] == r0[b]);
                } else {
                    t.lemma_filter_contains_rev(f, r0[a]);
                    let i = choose|i: int| 0 <= i < t.len() && t[i] == r0[a];
                    assert(t[i] == s[i]);
                    assert(s[n] == s.last());
                    assert(seq_lt(s[i].0, s[n].0));
                }
            }
        }
    }
}

proof fn lemma_map_of_filter<T>(s: Seq<(Seq<char>, T)>, f: spec_fn((Seq<char>, T)) -> bool)
    requires
        keys_sorted(s),
    ensures
        forall|k: Seq<char>| #[trigger] map_of(s.filter(f)).contains_key(k) == (map_of(s).contains_key(k) && f((k, map_of(s)[k]))),
        forall|k: Seq<char>| #[trigger] map_of(s.filter(f)).contains_key(k) ==> map_of(s.filter(f))[k] == map_of(s)[k],
{
    let r = s.filter(f);
    lemma_filter_sorted(s, f);
    lemma_map_of_sorted(s);
    lemma_map_of_sorted(r);
    assert forall|k: Seq<char>| #[trigger] map_of(r).contains_key(k) == (map_of(s).contains_key(k) && f((k, map_of(s)[k])))
        && (map_of(r).contains_key(k) ==> map_of(r)[k] == map_of(s)[k]) by {
        if map_of(r).contains_key(k) {
            let j = choose|j: int| 0 <= j < r.len() && r[j].0 == k;
            s.lemma_filter_pred(f, j);
            assert(r.contains(r[j]));
            s.lemma_filter_contains_rev(f, r[j]);
            let i = choose|i: int| 0 <= i < s.len() && s[i] == r[j];
            assert(map_of(r)[r[j].0] == r[j].1);
            assert(map_of(s)[s[i].0] == s[i].1);
        }
        if map_of(s).contains_key(k) && f((k, map_of(s)[k])) {
            let i = choose|i: int| 0 <= i < s.len() && s[i].0 == k;
            assert(map_of(s)[s[i].0] == s[i].1);
            assert(s[i] == (k, map_of(s)[k]));
            s.lemma_filter_contains(f, i);
            let j = choose|j: int| 0 <= j < r.len() && r[j] == s[i];
            assert(map_of(r).contains_key(r[j].0));
        }
    }
}

/// Pruning keeps exactly the events that are not over and were seen in the last 14 days,
/// each as it was.
pub proof fn prune_keeps_exactly_the_live(s: Seq<(Seq<char>, TrackedEvent)>, today: int)
    requires
        keys_sorted(s),
    ensures
        forall|k: Seq<char>|
            #[trigger] map_of(kept_entries(s, today)).contains_key(k) == (map_of(s).contains_key(k) && !expired(
                map_of(s)[k]@,
                today,
            )),
        forall|k: Seq<char>|
            #[trigger] map_of(kept_entries(s, today)).contains_key(k) ==> map_of(kept_entries(s, today))[k]
                == map_of(s)[k],
{
    let f = |e: (Seq<char>, TrackedEvent)| !expired(e.1@, today);
    lemma_kept_is_filter(s, today);
    lemma_map_of_filter(s, f);
}

impl State {
    /// Whether the source's first scan is done.
    pub fn is_initialized(&self, src: SourceId) -> (r: bool)
        ensures
            r == self.initialized_sources@.contains(src),
    {
        let mut i: usize = 0;
        while i < self.initialized_sources.len()
            invariant
                0 <= i <= self.initialized_sources@.len(),
                forall|j: int| 0 <= j < i ==> self.initialized_sources@[j] != src,
            decreases self.initialized_sources.len() - i,
        {
            if self.initialized_sources[i] == src {
                return true;
            }
            i = i + 1;
        }
        false
    }

    /// Marks the source's first scan as done.
    pub fn mark_initialized(&mut self, src: SourceId)
        ensures
            forall|x: SourceId| final(self).initialized_sources@.contains(x) <==> (old(self).initialized_sources@.contains(x) || x == src),
            old(self).initialized_sources@.no_duplicates() ==> final(self).initialized_sources@.no_duplicates(),
            final(self).events == old(self).events,
            final(self).health == old(self).health,
            final(self).telegram_offset == old(self).telegram_offset,
            final(self).min_drop_override_basis_points == old(self).min_drop_override_basis_points,
            final(self).keepalive == old(self).keepalive,
    {
        if !self.is_initialized(src) {
            let ghost s = self.initialized_sources@;
            self.initialized_sources.push(src);
            assert forall|x: SourceId| self.initialized_sources@.contains(x) <==> (s.contains(x) || x == src) by {
                if s.contains(x) {
                    let j = choose|j: int| 0 <= j < s.len() && s[j] == x;
                    assert(self.initialized_sources@[j] == x);
                }
                if x == src {
                    assert(self.initialized_sources@[s.len() as int] == x);
                }
                if self.initialized_sources@.contains(x) {
                    let j = choose|j: int| 0 <= j < s.len() + 1 && self.initialized_sources@[j] == x;
                    if j < s.len() {
                        assert(s[j] == x);
                    }
                }
            }
            assert(s.no_duplicates() ==> self.initialized_sources@.no_duplicates());
        }
    }

    /// Removes events that are over or were not seen for more than 14 days.
    pub fn prune(&mut self, today: i64)
        ensures
            final(self).events@ == kept_entries(old(self).events@, today as int),
            final(self).initialized_sources == old(self).initialized_sources,
            final(self).health == old(self).health,
            final(self).telegram_offset == old(self).telegram_offset,
            final(self).min_drop_override_basis_points == old(self).min_drop_override_basis_points,
            final(self).keepalive == old(self).keepalive,
    {
        let mut old_events: KeyedMap<TrackedEvent> = KeyedMap::new();
        std::mem::swap(&mut old_events, &mut self.events);
        let _ = old_events.entries();
        let ghost s = old_events@;
        let mut kept: KeyedMap<TrackedEvent> = KeyedMap::new();
        let n = old_events.len();
        let mut i: usize = 0;
        while i < n
            invariant
                n == s.len(),
                old_events@ == s.skip(i as int),
                0 <= i <= n,
                kept@ == kept_entries(s.take(i as int), today as int),
                crate::keyed::keys_sorted(s),
            decreases n - i,
        {
            let (k, t) = old_events.remove_at(0);
            assert(s.skip(i as int)[0] == s[i as int]);
            assert(s.skip(i as int).remove(0) =~= s.skip(i + 1));
            assert(s.take(i + 1).drop_last() =~= s.take(i as int));
            assert(s.take(i + 1).last() == s[i as int]);
            let past = match &t.event.date {
                Some(d) => local_day_of(d) < today,
                None => false,
            };
            let stale = (today as i128) - (t.last_seen as i128) > 14;
            if !(past || stale) {
                proof {
                    lemma_kept_entries_subseq(s.take(i as int), today as int);
                    let kk = kept_entries(s.take(i as int), today as int);
                    if kk.len() > 0 {
                        let j = choose|j: int| 0 <= j < s.take(i as int).len() && s.take(i as int)[j]
                            == kk[kk.len() - 1];
                        assert(crate::text::seq_lt(s[j].0, s[i as int].0));
                    }
                }
                kept.push_last(k, t);
            }
            i = i + 1;
        }
        assert(s.take(n as int) =~= s);
        self.events = kept;
    }
}

} // verus!
