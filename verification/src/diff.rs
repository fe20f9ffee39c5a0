//! Comparing a source's current events with the stored state.
//!
//! A price drop is measured per category against a reference price: when the price rises the
//! reference rises with it, and when a significant drop is reported the reference becomes the
//! new price. So the same price is not reported twice, and small drops that add up are still
//! caught.

use vstd::prelude::*;
use crate::config::{Thresholds, significant};
use crate::keyed::{KeyedMap, map_of, keys_sorted, lemma_map_of_index, lemma_map_of_sorted};
use crate::model::{Event, EventView, SourceId, event_key, discount_of, triple_view};
use crate::store::{State, TrackedEvent, TrackedEventView, tracked_views};

verus! {

#[derive(Debug, Clone, PartialEq)]
pub enum Change {
    New(Event),
    /// The categories whose price dropped: (category, old price, new price).
    PriceDrop(Event, Vec<(String, i64, i64)>),
    /// The site put a discount on the event (a crossed-out price appeared).
    Discount(Event),
    BackInStock(Event),
}

pub enum ChangeView {
    New(EventView),
    PriceDrop(EventView, Seq<(Seq<char>, i64, i64)>),
    Discount(EventView),
    BackInStock(EventView),
}

impl View for Change {
    type V = ChangeView;

    open spec fn view(&self) -> ChangeView {
        match self {
            Change::New(e) => ChangeView::New(e@),
            Change::PriceDrop(e, d) => ChangeView::PriceDrop(
                e@,
                d@.map_values(|t: (String, i64, i64)| triple_view(t)),
            ),
            Change::Discount(e) => ChangeView::Discount(e@),
            Change::BackInStock(e) => ChangeView::BackInStock(e@),
        }
    }
}

/// Walks the categories in order: a category without a reference takes its price as the
/// reference; a significant drop is reported and becomes the reference; a higher price
/// becomes the reference; otherwise the reference stays. Returns the new references and the
/// reported drops (category, reference, price).
pub open spec fn ref_update(r: Map<Seq<char>, i64>, tiers: Seq<(Seq<char>, i64)>, th: Thresholds) -> (
    Map<Seq<char>, i64>,
    Seq<(Seq<char>, i64, i64)>,
)
    decreases tiers.len(),
{
    if tiers.len() == 0 {
        (r, seq![])
    } else {
        let prev = ref_update(r, tiers.drop_last(), th);
        let r0 = prev.0;
        let d0 = prev.1;
        let k = tiers.last().0;
        let p = tiers.last().1;
        if r0.contains_key(k) {
            let old = r0[k];
            if significant(th, old as int, p as int) {
                (r0.insert(k, p), d0.push((k, old, p)))
            } else if p > old {
                (r0.insert(k, p), d0)
            } else {
                (r0, d0)
            }
        } else {
            (r0.insert(k, p), d0)
        }
    }
}

/// One current event against the tracked events. An unknown event is recorded (with its
/// prices as references) and reported as new, or as discounted if the site shows a discount,
/// unless this is the source's first scan. A known event is reported, in this order of
/// preference, as newly discounted, back in stock, or with its price drops; then its record
/// takes the event, the new references and today's date.
pub open spec fn step(
    m: Map<Seq<char>, TrackedEventView>,
    first: bool,
    ev: EventView,
    th: Thresholds,
    today: i64,
) -> (Map<Seq<char>, TrackedEventView>, Seq<ChangeView>) {
    let key = event_key(ev);
    if !m.contains_key(key) {
        let c = if first {
            Seq::<ChangeView>::empty()
        } else if discount_of(ev) is Some {
            seq![ChangeView::Discount(ev)]
        } else {
            seq![ChangeView::New(ev)]
        };
        (
            m.insert(
                key,
                TrackedEventView {
                    event: ev,
                    reference: map_of(ev.tiers),
                    first_seen: today,
                    last_seen: today,
                },
            ),
            c,
        )
    } else {
        let t = m[key];
        let u = ref_update(t.reference, ev.tiers, th);
        let c = if discount_of(ev) is Some && discount_of(t.event) is None {
            seq![ChangeView::Discount(ev)]
        } else if t.event.sold_out && !ev.sold_out {
            seq![ChangeView::BackInStock(ev)]
        } else if u.1.len() > 0 {
            seq![ChangeView::PriceDrop(ev, u.1)]
        } else {
            Seq::<ChangeView>::empty()
        };
        (
            m.insert(
                key,
                TrackedEventView {
                    event: ev,
                    reference: u.0,
                    first_seen: t.first_seen,
                    last_seen: today,
                },
            ),
            c,
        )
    }
}

/// The events of a scan, one after the other.
pub open spec fn apply_all(
    m: Map<Seq<char>, TrackedEventView>,
    first: bool,
    evs: Seq<EventView>,
    th: Thresholds,
    today: i64,
) -> (Map<Seq<char>, TrackedEventView>, Seq<ChangeView>)
    decreases evs.len(),
{
    if evs.len() == 0 {
        (m, seq![])
    } else {
        let prev = apply_all(m, first, evs.drop_last(), th, today);
        let s = step(prev.0, first, evs.last(), th, today);
        (s.0, prev.1 + s.1)
    }
}

pub open spec fn event_views(evs: Seq<Event>) -> Seq<EventView> {
    evs.map_values(|e: Event| e@)
}

pub open spec fn change_views(cs: Seq<Change>) -> Seq<ChangeView> {
    cs.map_values(|c: Change| c@)
}

fn update_reference(reference: &mut KeyedMap<i64>, tiers: &KeyedMap<i64>, th: &Thresholds) -> (drops: Vec<
    (String, i64, i64),
>)
    ensures
        final(reference).to_map() == ref_update(old(reference).to_map(), tiers@, *th).0,
        drops@.map_values(|t: (String, i64, i64)| triple_view(t)) == ref_update(
            old(reference).to_map(),
            tiers@,
            *th,
        ).1,
{
    let ghost r0 = reference.to_map();
    let es = tiers.entries();
    let mut drops: Vec<(String, i64, i64)> = Vec::new();
    let mut i: usize = 0;
    while i < es.len()
        invariant
            0 <= i <= es@.len(),
            es@.len() == tiers@.len(),
            forall|j: int| 0 <= j < es@.len() ==> (#[trigger] es@[j]).0@ == tiers@[j].0 && es@[j].1
                == tiers@[j].1,
            reference.to_map() == ref_update(r0, tiers@.take(i as int), *th).0,
            drops@.map_values(|t: (String, i64, i64)| triple_view(t)) == ref_update(
                r0,
                tiers@.take(i as int),
                *th,
            ).1,
        decreases es.len() - i,
    {
        let ghost before = drops@;
        assert(tiers@.take(i + 1).drop_last() =~= tiers@.take(i as int));
        assert(tiers@.take(i + 1).last() == tiers@[i as int]);
        let name = &es[i].0;
        let price = es[i].1;
        match reference.get(name) {
            Some(r) => {
                let r = *r;
                if th.is_significant(r, price) {
                    drops.push((name.clone(), r, price));
                    assert(drops@.map_values(|t: (String, i64, i64)| triple_view(t)) =~= before.map_values(
                        |t: (String, i64, i64)| triple_view(t),
                    ).push((name@, r, price)));
                    reference.insert(name.clone(), price);
                } else if price > r {
                    reference.insert(name.clone(), price);
                }
            },
            None => {
                reference.insert(name.clone(), price);
            },
        }
        i = i + 1;
    }
    assert(tiers@.take(i as int) =~= tiers@);
    drops
}

pub proof fn lemma_views_insert(m: Map<Seq<char>, TrackedEvent>, k: Seq<char>, t: TrackedEvent)
    ensures
        tracked_views(m.insert(k, t)) == tracked_views(m).insert(k, t@),
{
    assert(tracked_views(m.insert(k, t)) =~= tracked_views(m).insert(k, t@));
}

pub proof fn lemma_views_remove_insert(m: Map<Seq<char>, TrackedEvent>, k: Seq<char>, t: TrackedEvent)
    ensures
        tracked_views(m.remove(k).insert(k, t)) == tracked_views(m).insert(k, t@),
{
    assert(tracked_views(m.remove(k).insert(k, t)) =~= tracked_views(m).insert(k, t@));
}

/// Compares a source's current events with the state, updates the state and returns the
/// changes worth reporting.
pub fn apply(state: &mut State, source: SourceId, current: Vec<Event>, th: &Thresholds, today: i64) -> (changes:
    Vec<Change>)
    ensures
        tracked_views(final(state).events.to_map()) == apply_all(
            tracked_views(old(state).events.to_map()),
            !old(state).initialized_sources@.contains(source),
            event_views(current@),
            *th,
            today,
        ).0,
        change_views(changes@) == apply_all(
            tracked_views(old(state).events.to_map()),
            !old(state).initialized_sources@.contains(source),
            event_views(current@),
            *th,
            today,
        ).1,
        forall|x: SourceId| #[trigger] final(state).initialized_sources@.contains(x) <==> (old(
            state,
        ).initialized_sources@.contains(x) || x == source),
        old(state).initialized_sources@.no_duplicates() ==> final(state).initialized_sources@.no_duplicates(),
        final(state).health == old(state).health,
        final(state).telegram_offset == old(state).telegram_offset,
        final(state).min_drop_override_basis_points == old(state).min_drop_override_basis_points,
        final(state).keepalive == old(state).keepalive,
{
    let first = !state.is_initialized(source);
    let ghost m0 = tracked_views(state.events.to_map());
    let ghost evs = event_views(current@);
    let ghost init0 = state.initialized_sources@;
    let mut changes: Vec<Change> = Vec::new();
    let mut rest = current;
    let n = rest.len();
    let mut i: usize = 0;
    while rest.len() > 0
        invariant
            n == evs.len(),
            i + rest@.len() == n,
            event_views(rest@) == evs.skip(i as int),
            tracked_views(state.events.to_map()) == apply_all(m0, first, evs.take(i as int), *th, today).0,
            change_views(changes@) == apply_all(m0, first, evs.take(i as int), *th, today).1,
            state.initialized_sources@ == init0,
            first == !init0.contains(source),
            state.health == old(state).health,
            state.telegram_offset == old(state).telegram_offset,
            state.min_drop_override_basis_points == old(state).min_drop_override_basis_points,
            state.keepalive == old(state).keepalive,
        decreases rest.len(),
    {
        let ghost rest_before = rest@;
        let ev = rest.remove(0);
        proof {
            assert(event_views(rest_before)[0] == ev@);
            assert(evs.skip(i as int)[0] == evs[i as int]);
            assert forall|j: int| 0 <= j < rest@.len() implies event_views(rest@)[j] == evs.skip(i + 1)[j] by {
                assert(rest@[j] == rest_before[j + 1]);
                assert(event_views(rest_before)[j + 1] == evs.skip(i as int)[j + 1]);
            }
            assert(event_views(rest@) =~= evs.skip(i + 1));
            assert(evs.take(i + 1).drop_last() =~= evs.take(i as int));
            assert(evs.take(i + 1).last() == evs[i as int]);
        }
        let ghost mprev = tracked_views(state.events.to_map());
        let ghost cprev = change_views(changes@);
        let key = ev.key();
        match state.events.index_of(&key) {
            None => {
                if !first {
                    let c = if ev.discount().is_some() {
                        Change::Discount(ev.clone())
                    } else {
                        Change::New(ev.clone())
                    };
                    changes.push(c);
                    assert(change_views(changes@) =~= cprev.push(c@));
                } else {
                    assert(change_views(changes@) =~= cprev + Seq::<ChangeView>::empty());
                }
                proof {
                    assert(!mprev.contains_key(key@));
                }
                let reference = ev.tiers.clone();
                let ghost evv = ev@;
                let t = TrackedEvent { event: ev, reference: reference, first_seen: today, last_seen: today };
                let ghost ks = key@;
                let ghost mold = state.events.to_map();
                state.events.insert(key, t);
                proof {
                    lemma_views_insert(mold, ks, t);
                    if !first {
                        assert(cprev.push(changes@.last()@) =~= cprev + seq![changes@.last()@]);
                    }
                }
            },
            Some(idx) => {
                let ghost mold = state.events.to_map();
                proof {
                    lemma_map_of_index(state.events@, idx as int);
                }
                let (k, mut t) = state.events.remove_at(idx);
                assert(k@ == key@);
                assert(mprev.contains_key(key@));
                assert(t@ == mprev[key@]);
                let drops = update_reference(&mut t.reference, &ev.tiers, th);
                let ghost u = ref_update(mprev[key@].reference, ev@.tiers, *th);
                if ev.discount().is_some() && t.event.discount().is_none() {
                    changes.push(Change::Discount(ev.clone()));
                    assert(change_views(changes@) =~= cprev + seq![ChangeView::Discount(ev@)]);
                } else if t.event.sold_out && !ev.sold_out {
                    changes.push(Change::BackInStock(ev.clone()));
                    assert(change_views(changes@) =~= cprev + seq![ChangeView::BackInStock(ev@)]);
                } else if drops.len() > 0 {
                    let c = Change::PriceDrop(ev.clone(), drops);
                    changes.push(c);
                    assert(change_views(changes@) =~= cprev + seq![ChangeView::PriceDrop(ev@, u.1)]);
                } else {
                    assert(change_views(changes@) =~= cprev + Seq::<ChangeView>::empty());
                }
                t.event = ev;
                t.last_seen = today;
                let ghost tv = t;
                state.events.insert(k, t);
                proof {
                    lemma_views_remove_insert(mold, key@, tv);
                }
            },
        }
        i = i + 1;
    }
    assert(evs.take(n as int) =~= evs);
    state.mark_initialized(source);
    changes
}

// ---------------------------------------------------------------------------------------------
// Laws
// ---------------------------------------------------------------------------------------------

/// No two events of the scan share a key.
pub open spec fn distinct_keys(evs: Seq<EventView>) -> bool {
    forall|i: int, j: int| 0 <= i < j < evs.len() ==> event_key(#[trigger] evs[i]) != event_key(#[trigger] evs[j])
}

/// Each event's categories are a map (as `Event` keeps them).
pub open spec fn tiers_valid(evs: Seq<EventView>) -> bool {
    forall|i: int| 0 <= i < evs.len() ==> keys_sorted(#[trigger] evs[i].tiers)
}

/// Every category of `tiers` has a reference at or above its price, from which its price is
/// no significant drop.
pub open spec fn settled(r: Map<Seq<char>, i64>, tiers: Seq<(Seq<char>, i64)>, th: Thresholds) -> bool {
    forall|j: int|
        #![trigger tiers[j]]
        0 <= j < tiers.len() ==> r.contains_key(tiers[j].0) && tiers[j].1 <= r[tiers[j].0] && !significant(
            th,
            r[tiers[j].0] as int,
            tiers[j].1 as int,
        )
}

/// A category's new reference, from its old one (if it had one) and its price: the price where
/// there was none, where the price is a significant drop from it, or where it is higher;
/// otherwise the old reference.
pub open spec fn new_reference(old: Option<i64>, p: i64, th: Thresholds) -> i64 {
    match old {
        Some(o) => if significant(th, o as int, p as int) || p > o {
            p
        } else {
            o
        },
        None => p,
    }
}

/// The drop reported for a category: (category, old reference, price), where it had a
/// reference and the price is a significant drop from it.
pub open spec fn drop_of(r: Map<Seq<char>, i64>, t: (Seq<char>, i64), th: Thresholds) -> Option<(Seq<char>, i64, i64)> {
    if r.contains_key(t.0) && significant(th, r[t.0] as int, t.1 as int) {
        Some((t.0, r[t.0], t.1))
    } else {
        None
    }
}

/// The reference rule, category by category, for an event's categories (distinct, as an
/// `Event` keeps them): each category's reference becomes `new_reference` of its old one and
/// its price; a category that the event does not list keeps its reference (or its lack of
/// one); the drops reported are those of `drop_of`, in the categories' order.
pub proof fn references_per_category(r: Map<Seq<char>, i64>, tiers: Seq<(Seq<char>, i64)>, th: Thresholds)
    requires
        keys_sorted(tiers),
    ensures
        forall|j: int|
            0 <= j < tiers.len() ==> ref_update(r, tiers, th).0.contains_key(#[trigger] tiers[j].0)
                && ref_update(r, tiers, th).0[tiers[j].0] == new_reference(
                if r.contains_key(tiers[j].0) {
                    Some(r[tiers[j].0])
                } else {
                    None
                },
                tiers[j].1,
                th,
            ),
        forall|k: Seq<char>|
            (forall|j: int| 0 <= j < tiers.len() ==> #[trigger] tiers[j].0 != k) ==> (
            #[trigger] ref_update(r, tiers, th).0.contains_key(k) == r.contains_key(k) && (r.contains_key(k)
                ==> ref_update(r, tiers, th).0[k] == r[k])),
        ref_update(r, tiers, th).1 == tiers.filter_map(|t: (Seq<char>, i64)| drop_of(r, t, th)),
    decreases tiers.len(),
{
    if tiers.len() > 0 {
        let t0 = tiers.drop_last();
        assert(keys_sorted(t0)) by {
            assert forall|a: int, b: int| 0 <= a < b < t0.len() implies crate::text::seq_lt(#[trigger] t0[a].0, #[trigger] t0[b].0) by {
                assert(t0[a] == tiers[a] && t0[b] == tiers[b]);
            }
        }
        references_per_category(r, t0, th);
        let k = tiers.last().0;
        let p = tiers.last().1;
        let n = tiers.len() - 1;
        assert(tiers[n] == tiers.last());
        assert forall|j: int| 0 <= j < t0.len() implies #[trigger] t0[j].0 != k by {
            assert(t0[j] == tiers[j]);
            assert(crate::text::seq_lt(tiers[j].0, tiers[n].0));
            crate::text::lemma_lt_irreflexive(k);
        }
        let prev = ref_update(r, t0, th);
        let cur = ref_update(r, tiers, th);
        assert(prev.0.contains_key(k) == r.contains_key(k));
        assert forall|j: int| 0 <= j < tiers.len() implies cur.0.contains_key(#[trigger] tiers[j].0)
            && cur.0[tiers[j].0] == new_reference(
            if r.contains_key(tiers[j].0) {
                Some(r[tiers[j].0])
            } else {
                None
            },
            tiers[j].1,
            th,
        ) by {
            if j < n {
                assert(t0[j] == tiers[j]);
                assert(t0[j].0 != k);
            }
        }
        assert forall|k2: Seq<char>|
            (forall|j: int| 0 <= j < tiers.len() ==> #[trigger] tiers[j].0 != k2) implies (
            #[trigger] cur.0.contains_key(k2) == r.contains_key(k2) && (r.contains_key(k2) ==> cur.0[k2]
                == r[k2])) by {
            assert forall|j: int| 0 <= j < t0.len() implies #[trigger] t0[j].0 != k2 by {
                assert(t0[j] == tiers[j]);
            }
            assert(tiers[n].0 != k2);
        }
        let f = |t: (Seq<char>, i64)| drop_of(r, t, th);
        assert(tiers.filter_map(f) == match f(tiers.last()) {
            Some(s) => t0.filter_map(f) + seq![s],
            None => t0.filter_map(f),
        });
        match f(tiers.last()) {
            Some(s) => {
                assert(prev.1.push(s) =~= t0.filter_map(f) + seq![s]);
            },
            None => {},
        }
    }
}

proof fn lemma_apply_all_concat(
    m: Map<Seq<char>, TrackedEventView>,
    first: bool,
    a: Seq<EventView>,
    b: Seq<EventView>,
    th: Thresholds,
    today: i64,
)
    ensures
        apply_all(m, first, a + b, th, today) == (
            apply_all(apply_all(m, first, a, th, today).0, first, b, th, today).0,
            apply_all(m, first, a, th, today).1 + apply_all(apply_all(m, first, a, th, today).0, first, b, th, today).1,
        ),
    decreases b.len(),
{
    let ma = apply_all(m, first, a, th, today);
    if b.len() == 0 {
        assert(a + b =~= a);
        assert(ma.1 + Seq::<ChangeView>::empty() =~= ma.1);
    } else {
        lemma_apply_all_concat(m, first, a, b.drop_last(), th, today);
        assert((a + b).drop_last() =~= a + b.drop_last());
        assert((a + b).last() == b.last());
        let p = apply_all(ma.0, first, b.drop_last(), th, today);
        let s = step(p.0, first, b.last(), th, today);
        assert(ma.1 + p.1 + s.1 =~= ma.1 + (p.1 + s.1));
    }
}

proof fn lemma_apply_all_untouched(
    m: Map<Seq<char>, TrackedEventView>,
    first: bool,
    evs: Seq<EventView>,
    th: Thresholds,
    today: i64,
    k: Seq<char>,
)
    requires
        forall|j: int| 0 <= j < evs.len() ==> event_key(#[trigger] evs[j]) != k,
    ensures
        apply_all(m, first, evs, th, today).0.contains_key(k) == m.contains_key(k),
        m.contains_key(k) ==> apply_all(m, first, evs, th, today).0[k] == m[k],
    decreases evs.len(),
{
    if evs.len() > 0 {
        assert forall|j: int| 0 <= j < evs.drop_last().len() implies event_key(#[trigger] evs.drop_last()[j]) != k by {
            assert(evs.drop_last()[j] == evs[j]);
        }
        assert(evs.last() == evs[evs.len() - 1]);
        lemma_apply_all_untouched(m, first, evs.drop_last(), th, today, k);
    }
}

/// A scan's event that is already tracked: its record takes the event, its categories'
/// references become `ref_update` of their old references (see `references_per_category`),
/// and when it is neither newly discounted nor back in stock but has drops, the scan reports
/// it as a price drop with exactly those drops.
pub proof fn a_known_event_in_a_scan(
    m: Map<Seq<char>, TrackedEventView>,
    first: bool,
    evs: Seq<EventView>,
    th: Thresholds,
    today: i64,
    i: int,
)
    requires
        distinct_keys(evs),
        0 <= i < evs.len(),
        m.contains_key(event_key(evs[i])),
    ensures
        ({
            let k = event_key(evs[i]);
            let t = m[k];
            let u = ref_update(t.reference, evs[i].tiers, th);
            let r = apply_all(m, first, evs, th, today);
            &&& r.0.contains_key(k)
            &&& r.0[k].event == evs[i]
            &&& r.0[k].reference == u.0
            &&& r.0[k].first_seen == t.first_seen
            &&& r.0[k].last_seen == today
            &&& (!(discount_of(evs[i]) is Some && discount_of(t.event) is None) && !(t.event.sold_out && !evs[i].sold_out)
                && u.1.len() > 0) ==> r.1.contains(ChangeView::PriceDrop(evs[i], u.1))
        }),
{
    let k = event_key(evs[i]);
    let a = evs.take(i);
    let b = evs.skip(i + 1);
    let e = evs[i];
    assert(evs =~= a.push(e) + b);
    assert(a.push(e) =~= a + seq![e]);
    assert forall|j: int| 0 <= j < a.len() implies event_key(#[trigger] a[j]) != k by {
        assert(a[j] == evs[j]);
    }
    assert forall|j: int| 0 <= j < b.len() implies event_key(#[trigger] b[j]) != k by {
        assert(b[j] == evs[i + 1 + j]);
    }
    lemma_apply_all_untouched(m, first, a, th, today, k);
    let ma = apply_all(m, first, a, th, today);
    assert(a.push(e).drop_last() =~= a);
    let s = step(ma.0, first, e, th, today);
    assert(apply_all(m, first, a.push(e), th, today) == (s.0, ma.1 + s.1));
    lemma_apply_all_untouched(s.0, first, b, th, today, k);
    lemma_apply_all_concat(m, first, a.push(e), b, th, today);
    let r = apply_all(m, first, evs, th, today);
    let t = m[k];
    let u = ref_update(t.reference, e.tiers, th);
    if !(discount_of(e) is Some && discount_of(t.event) is None) && !(t.event.sold_out && !e.sold_out) && u.1.len() > 0 {
        let c = ChangeView::PriceDrop(e, u.1);
        assert(s.1 == seq![c]);
        let rest = apply_all(s.0, first, b, th, today).1;
        assert(r.1 == ma.1 + s.1 + rest);
        assert(r.1[ma.1.len() as int] == c);
    }
}

/// Every reported drop is significant.
pub proof fn reported_drops_are_significant(r: Map<Seq<char>, i64>, tiers: Seq<(Seq<char>, i64)>, th: Thresholds)
    ensures
        forall|j: int|
            0 <= j < ref_update(r, tiers, th).1.len() ==> significant(
                th,
                (#[trigger] ref_update(r, tiers, th).1[j]).1 as int,
                ref_update(r, tiers, th).1[j].2 as int,
            ),
    decreases tiers.len(),
{
    if tiers.len() > 0 {
        reported_drops_are_significant(r, tiers.drop_last(), th);
        let prev = ref_update(r, tiers.drop_last(), th);
        let cur = ref_update(r, tiers, th);
        assert forall|j: int| 0 <= j < cur.1.len() implies significant(th, (#[trigger] cur.1[j]).1 as int, cur.1[j].2 as int) by {
            if j < prev.1.len() {
                assert(cur.1[j] == prev.1[j]);
            }
        }
    }
}

/// After the update every category's reference is its price or above, without a significant
/// drop left to report.
pub proof fn lemma_ref_update_settles(r: Map<Seq<char>, i64>, tiers: Seq<(Seq<char>, i64)>, th: Thresholds)
    requires
        keys_sorted(tiers),
    ensures
        settled(ref_update(r, tiers, th).0, tiers, th),
    decreases tiers.len(),
{
    if tiers.len() > 0 {
        let t0 = tiers.drop_last();
        assert(keys_sorted(t0)) by {
            assert forall|a: int, b: int| 0 <= a < b < t0.len() implies crate::text::seq_lt(#[trigger] t0[a].0, #[trigger] t0[b].0) by {
                assert(t0[a] == tiers[a] && t0[b] == tiers[b]);
            }
        }
        lemma_ref_update_settles(r, t0, th);
        let r0 = ref_update(r, t0, th).0;
        let r1 = ref_update(r, tiers, th).0;
        let k = tiers.last().0;
        assert forall|j: int| #![trigger tiers[j]] 0 <= j < tiers.len() implies r1.contains_key(tiers[j].0)
            && tiers[j].1 <= r1[tiers[j].0] && !significant(th, r1[tiers[j].0] as int, tiers[j].1 as int) by {
            if j < tiers.len() - 1 {
                assert(t0[j] == tiers[j]);
                assert(crate::text::seq_lt(tiers[j].0, tiers[tiers.len() - 1].0));
                crate::text::lemma_lt_irreflexive(k);
            }
        }
    }
}

/// With references already settled, the update changes nothing and reports nothing.
pub proof fn lemma_ref_update_settled(r: Map<Seq<char>, i64>, tiers: Seq<(Seq<char>, i64)>, th: Thresholds)
    requires
        settled(r, tiers, th),
    ensures
        ref_update(r, tiers, th).0 == r,
        ref_update(r, tiers, th).1.len() == 0,
    decreases tiers.len(),
{
    if tiers.len() > 0 {
        let t0 = tiers.drop_last();
        assert forall|j: int| #![trigger t0[j]] 0 <= j < t0.len() implies r.contains_key(t0[j].0) && t0[j].1
            <= r[t0[j].0] && !significant(th, r[t0[j].0] as int, t0[j].1 as int) by {
            assert(t0[j] == tiers[j]);
        }
        lemma_ref_update_settled(r, t0, th);
        assert(tiers.last() == tiers[tiers.len() - 1]);
    }
}

pub proof fn lemma_map_of_settled(tiers: Seq<(Seq<char>, i64)>, th: Thresholds)
    requires
        keys_sorted(tiers),
    ensures
        settled(map_of(tiers), tiers, th),
{
    lemma_map_of_sorted(tiers);
}

/// The keys tracked after a scan: those tracked before and those of the scan.
pub proof fn lemma_apply_all_keys(
    m: Map<Seq<char>, TrackedEventView>,
    first: bool,
    evs: Seq<EventView>,
    th: Thresholds,
    today: i64,
    k: Seq<char>,
)
    ensures
        apply_all(m, first, evs, th, today).0.contains_key(k) <==> (m.contains_key(k) || exists|i: int|
            0 <= i < evs.len() && event_key(#[trigger] evs[i]) == k),
    decreases evs.len(),
{
    if evs.len() > 0 {
        lemma_apply_all_keys(m, first, evs.drop_last(), th, today, k);
        if exists|i: int| 0 <= i < evs.drop_last().len() && event_key(#[trigger] evs.drop_last()[i]) == k {
            let i = choose|i: int| 0 <= i < evs.drop_last().len() && event_key(#[trigger] evs.drop_last()[i]) == k;
            assert(evs[i] == evs.drop_last()[i]);
        }
        if exists|i: int| 0 <= i < evs.len() && event_key(#[trigger] evs[i]) == k {
            let i = choose|i: int| 0 <= i < evs.len() && event_key(#[trigger] evs[i]) == k;
            if i < evs.len() - 1 {
                assert(evs.drop_last()[i] == evs[i]);
            }
        }
    }
}

/// A source's first scan reports nothing (when its events are new and distinct).
pub proof fn first_scan_is_silent(
    m: Map<Seq<char>, TrackedEventView>,
    evs: Seq<EventView>,
    th: Thresholds,
    today: i64,
)
    requires
        distinct_keys(evs),
        forall|i: int| 0 <= i < evs.len() ==> !m.contains_key(event_key(#[trigger] evs[i])),
    ensures
        apply_all(m, true, evs, th, today).1.len() == 0,
    decreases evs.len(),
{
    if evs.len() > 0 {
        let e0 = evs.drop_last();
        assert forall|i: int, j: int| 0 <= i < j < e0.len() implies event_key(#[trigger] e0[i]) != event_key(#[trigger] e0[j]) by {
            assert(e0[i] == evs[i] && e0[j] == evs[j]);
        }
        assert forall|i: int| 0 <= i < e0.len() implies !m.contains_key(event_key(#[trigger] e0[i])) by {
            assert(e0[i] == evs[i]);
        }
        first_scan_is_silent(m, e0, th, today);
        let k = event_key(evs.last());
        lemma_apply_all_keys(m, true, e0, th, today, k);
        if exists|i: int| 0 <= i < e0.len() && event_key(#[trigger] e0[i]) == k {
            let i = choose|i: int| 0 <= i < e0.len() && event_key(#[trigger] e0[i]) == k;
            assert(e0[i] == evs[i]);
            assert(event_key(evs[i]) != event_key(evs[evs.len() - 1]));
        }
        assert(!m.contains_key(event_key(evs[evs.len() - 1])));
    }
}

/// After a scan, each event of the scan is tracked with its latest data and settled references.
pub proof fn lemma_apply_all_records(
    m: Map<Seq<char>, TrackedEventView>,
    first: bool,
    evs: Seq<EventView>,
    th: Thresholds,
    today: i64,
)
    requires
        distinct_keys(evs),
        tiers_valid(evs),
    ensures
        forall|i: int|
            #![trigger evs[i]]
            0 <= i < evs.len() ==> {
                let mm = apply_all(m, first, evs, th, today).0;
                &&& mm.contains_key(event_key(evs[i]))
                &&& mm[event_key(evs[i])].event == evs[i]
                &&& settled(mm[event_key(evs[i])].reference, evs[i].tiers, th)
            },
    decreases evs.len(),
{
    if evs.len() > 0 {
        let e0 = evs.drop_last();
        assert forall|i: int, j: int| 0 <= i < j < e0.len() implies event_key(#[trigger] e0[i]) != event_key(#[trigger] e0[j]) by {
            assert(e0[i] == evs[i] && e0[j] == evs[j]);
        }
        assert forall|i: int| 0 <= i < e0.len() implies keys_sorted(#[trigger] e0[i].tiers) by {
            assert(e0[i] == evs[i]);
        }
        lemma_apply_all_records(m, first, e0, th, today);
        let prev = apply_all(m, first, e0, th, today).0;
        let ev = evs.last();
        assert(ev == evs[evs.len() - 1]);
        lemma_map_of_settled(ev.tiers, th);
        if prev.contains_key(event_key(ev)) {
            lemma_ref_update_settles(prev[event_key(ev)].reference, ev.tiers, th);
        }
        assert forall|i: int| #![trigger evs[i]] 0 <= i < evs.len() implies {
            let mm = apply_all(m, first, evs, th, today).0;
            &&& mm.contains_key(event_key(evs[i]))
            &&& mm[event_key(evs[i])].event == evs[i]
            &&& settled(mm[event_key(evs[i])].reference, evs[i].tiers, th)
        } by {
            if i < evs.len() - 1 {
                assert(e0[i] == evs[i]);
            }
        }
    }
}

/// A second pass over settled records reports nothing and leaves the records of the
/// events still to come as they were.
pub proof fn lemma_second_pass(
    mm: Map<Seq<char>, TrackedEventView>,
    first: bool,
    evs: Seq<EventView>,
    th: Thresholds,
    today: i64,
    n: int,
)
    requires
        0 <= n <= evs.len(),
        distinct_keys(evs),
        forall|i: int|
            #![trigger evs[i]]
            0 <= i < evs.len() ==> {
                &&& mm.contains_key(event_key(evs[i]))
                &&& mm[event_key(evs[i])].event == evs[i]
                &&& settled(mm[event_key(evs[i])].reference, evs[i].tiers, th)
            },
    ensures
        apply_all(mm, first, evs.take(n), th, today).1.len() == 0,
        forall|j: int|
            #![trigger evs[j]]
            n <= j < evs.len() ==> apply_all(mm, first, evs.take(n), th, today).0.contains_key(event_key(evs[j]))
                && apply_all(mm, first, evs.take(n), th, today).0[event_key(evs[j])] == mm[event_key(evs[j])],
    decreases n,
{
    if n == 0 {
        assert(evs.take(0) =~= Seq::<EventView>::empty());
    } else {
        lemma_second_pass(mm, first, evs, th, today, n - 1);
        assert(evs.take(n).drop_last() =~= evs.take(n - 1));
        assert(evs.take(n).last() == evs[n - 1]);
        let ev = evs[n - 1];
        let t = mm[event_key(ev)];
        lemma_ref_update_settled(t.reference, ev.tiers, th);
        assert forall|j: int| #![trigger evs[j]] n <= j < evs.len() implies event_key(evs[j]) != event_key(ev) by {
            assert(event_key(evs[n - 1]) != event_key(evs[j]));
        }
    }
}

/// Scanning the same events again reports nothing: a price, a discount or a return to sale
/// is reported once.
pub proof fn same_scan_twice_reports_nothing(
    m: Map<Seq<char>, TrackedEventView>,
    first: bool,
    second_first: bool,
    evs: Seq<EventView>,
    th: Thresholds,
    today: i64,
    next_day: i64,
)
    requires
        distinct_keys(evs),
        tiers_valid(evs),
    ensures
        apply_all(apply_all(m, first, evs, th, today).0, second_first, evs, th, next_day).1.len() == 0,
{
    let mm = apply_all(m, first, evs, th, today).0;
    lemma_apply_all_records(m, first, evs, th, today);
    lemma_second_pass(mm, second_first, evs, th, next_day, evs.len() as int);
    assert(evs.take(evs.len() as int) =~= evs);
}

} // verus!
