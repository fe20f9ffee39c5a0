use bilet_takip::config::Thresholds;
use bilet_takip::diff::{apply, Change};
use bilet_takip::keyed::KeyedMap;
use bilet_takip::model::{Event, SourceId};
use bilet_takip::store::State;

/// 2026-09-25, in days since 1970-01-01.
fn day() -> i64 {
    20_721
}

fn th() -> Thresholds {
    Thresholds { min_drop_basis_points: 500, min_drop_kurus: 5_000 }
}

fn ev(id: &str, prices: &[(&str, i64)], sold_out: bool) -> Event {
    let mut tiers = KeyedMap::new();
    for (n, p) in prices {
        tiers.insert(n.to_string(), *p);
    }
    Event {
        source: SourceId::Bubilet,
        id: id.into(),
        title: format!("Etkinlik {id}"),
        venue: "EKM".into(),
        date: None,
        category: "Konser".into(),
        url: format!("https://x/{id}"),
        tiers,
        sold_out,
        list_prices: KeyedMap::new(),
    }
}

fn discounted(id: &str, list: i64, now: i64) -> Event {
    let mut e = ev(id, &[("En uygun bilet", now)], false);
    e.list_prices.insert("En uygun bilet".to_string(), list);
    e
}

fn run(state: &mut State, events: Vec<Event>) -> Vec<Change> {
    apply(state, SourceId::Bubilet, events, &th(), day())
}

#[test]
fn first_scan_is_silent_then_new_events_notify() {
    let mut s = State::default();
    assert!(run(&mut s, vec![ev("a", &[("Tam", 100_000)], false)]).is_empty());
    let c = run(&mut s, vec![ev("a", &[("Tam", 100_000)], false), ev("b", &[("Tam", 50_000)], false)]);
    assert_eq!(c.len(), 1);
    assert!(matches!(&c[0], Change::New(e) if e.id == "b"));
}

#[test]
fn price_drop_notifies_once() {
    let mut s = State::default();
    run(&mut s, vec![ev("a", &[("Tam", 75_000)], false)]);
    let c = run(&mut s, vec![ev("a", &[("Tam", 37_500)], false)]);
    assert_eq!(c, vec![Change::PriceDrop(ev("a", &[("Tam", 37_500)], false), vec![("Tam".into(), 75_000, 37_500)])]);
    assert!(run(&mut s, vec![ev("a", &[("Tam", 37_500)], false)]).is_empty(), "aynı fiyat tekrar bildirilmemeli");
}

#[test]
fn small_changes_ignored_but_accumulate() {
    let mut s = State::default();
    run(&mut s, vec![ev("a", &[("Tam", 100_000)], false)]);
    assert!(run(&mut s, vec![ev("a", &[("Tam", 97_000)], false)]).is_empty()); // 3%, 30 TL
    let c = run(&mut s, vec![ev("a", &[("Tam", 94_000)], false)]); // 6% in all
    assert!(matches!(&c[0], Change::PriceDrop(_, d) if d[0] == ("Tam".into(), 100_000, 94_000)));
}

#[test]
fn rise_then_drop_notifies_again() {
    let mut s = State::default();
    run(&mut s, vec![ev("a", &[("Tam", 50_000)], false)]);
    assert!(run(&mut s, vec![ev("a", &[("Tam", 80_000)], false)]).is_empty());
    let c = run(&mut s, vec![ev("a", &[("Tam", 50_000)], false)]);
    assert!(matches!(&c[0], Change::PriceDrop(_, d) if d[0] == ("Tam".into(), 80_000, 50_000)));
}

#[test]
fn discount_notifies_once_instead_of_price_drop() {
    let mut s = State::default();
    run(&mut s, vec![ev("a", &[("En uygun bilet", 100_000)], false)]);
    let c = run(&mut s, vec![discounted("a", 100_000, 70_000)]);
    assert_eq!(c, vec![Change::Discount(discounted("a", 100_000, 70_000))]);
    assert!(run(&mut s, vec![discounted("a", 100_000, 70_000)]).is_empty(), "aynı indirim tekrar bildirilmemeli");
}

#[test]
fn new_event_already_discounted() {
    let mut s = State::default();
    run(&mut s, vec![ev("a", &[("Tam", 100_000)], false)]);
    let c = run(&mut s, vec![ev("a", &[("Tam", 100_000)], false), discounted("b", 90_000, 45_000)]);
    assert!(matches!(&c[..], [Change::Discount(e)] if e.id == "b"));
}

#[test]
fn back_in_stock() {
    let mut s = State::default();
    run(&mut s, vec![ev("a", &[], true)]);
    let c = run(&mut s, vec![ev("a", &[("Tam", 50_000)], false)]);
    assert!(matches!(&c[0], Change::BackInStock(_)));
}

#[test]
fn the_same_scan_twice_reports_nothing() {
    let mut s = State::default();
    run(&mut s, vec![ev("a", &[("Tam", 100_000)], false)]);
    let scan = || vec![ev("a", &[("Tam", 60_000)], false), discounted("b", 90_000, 45_000), ev("c", &[], true)];
    assert!(!run(&mut s, scan()).is_empty());
    assert!(run(&mut s, scan()).is_empty());
}

#[test]
fn state_records_events_and_sources() {
    let mut s = State::default();
    run(&mut s, vec![ev("a", &[("Tam", 100_000)], false)]);
    assert!(s.is_initialized(SourceId::Bubilet));
    assert!(!s.is_initialized(SourceId::Biletix));
    assert_eq!(s.events.len(), 1);
    let t = s.events.get(&"bubilet:a".to_string()).unwrap();
    assert_eq!(t.first_seen, day());
    assert_eq!(t.reference.get(&"Tam".to_string()), Some(&100_000));
}

#[test]
fn prune_drops_past_and_stale_events() {
    let mut s = State::default();
    run(&mut s, vec![ev("a", &[("Tam", 100_000)], false)]);
    s.prune(day() + 14);
    assert_eq!(s.events.len(), 1);
    s.prune(day() + 15);
    assert_eq!(s.events.len(), 0);
}
