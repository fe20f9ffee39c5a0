use bilet_takip::keyed::KeyedMap;
use bilet_takip::matcher::{normalize, same_event, similar_titles, SIMILAR_BITS};
use bilet_takip::model::{Event, EventDate, SourceId};

fn at(date: &str) -> EventDate {
    let d = chrono::DateTime::parse_from_rfc3339(date).unwrap();
    EventDate { secs: d.timestamp(), nanos: d.timestamp_subsec_nanos(), offset: d.offset().local_minus_utc() }
}

fn ev(source: SourceId, title: &str, date: &str) -> Event {
    Event {
        source,
        id: title.into(),
        title: title.into(),
        venue: String::new(),
        date: Some(at(date)),
        category: String::new(),
        url: String::new(),
        tiers: KeyedMap::new(),
        sold_out: false,
        list_prices: KeyedMap::new(),
    }
}

#[test]
fn matches_across_sites() {
    let a = ev(SourceId::Bubilet, "Poizi Konseri", "2026-10-09T18:00:00+00:00");
    let b = ev(SourceId::Biletix, "Poizi", "2026-10-09T18:00:00Z");
    assert!(same_event(&a, &b));
    let c = ev(SourceId::Biletinial, "Salih Bademci - Sesler", "2026-10-24T20:30:00+03:00");
    let d = ev(SourceId::Bubilet, "Sesler - Salih Bademci", "2026-10-24T17:30:00+00:00");
    assert!(same_event(&c, &d));
    assert!(!same_event(&c, &ev(SourceId::Bubilet, "Poizi", "2026-10-24T17:30:00+00:00")));
}

#[test]
fn different_day_no_match() {
    let a = ev(SourceId::Bubilet, "Grup Abdal", "2026-10-09T16:00:00Z");
    let b = ev(SourceId::Biletix, "Grup Abdal", "2026-10-16T17:30:00Z");
    assert!(!same_event(&a, &b));
}

#[test]
fn same_site_never_matches() {
    let a = ev(SourceId::Bubilet, "Grup Abdal", "2026-10-09T16:00:00Z");
    let b = ev(SourceId::Bubilet, "Grup Abdal", "2026-10-09T16:00:00Z");
    assert!(!same_event(&a, &b));
}

#[test]
fn missing_dates_never_match() {
    let a = ev(SourceId::Bubilet, "Grup Abdal", "2026-10-09T16:00:00Z");
    let mut b = ev(SourceId::Biletix, "Grup Abdal", "2026-10-09T16:00:00Z");
    b.date = None;
    assert!(!same_event(&a, &b));
}

#[test]
fn titles_reduce_to_their_words() {
    assert_eq!(normalize("Poizi Konseri"), "poizi");
    assert_eq!(normalize("  Salih Bademci - Sesler "), "salih bademci sesler");
    assert_eq!(normalize("Konser ve Tiyatro"), "");
}

#[test]
fn the_day_is_the_turkish_day() {
    // 21:30 UTC is already the next day in Turkey.
    let a = ev(SourceId::Bubilet, "Grup Abdal", "2026-10-09T21:30:00Z");
    let b = ev(SourceId::Biletix, "Grup Abdal", "2026-10-10T12:00:00+03:00");
    assert!(same_event(&a, &b));
}

#[test]
fn titles_by_their_similarity() {
    let high = 0.95f64.to_bits();
    let low = 0.5f64.to_bits();
    assert!(similar_titles("poizi", "poizi", low));
    assert!(similar_titles("salih bademci sesler", "salih bademci", low));
    assert!(!similar_titles("abc", "xyz", low));
    assert!(similar_titles("abc", "xyz", high));
    assert!(similar_titles("abc", "xyz", SIMILAR_BITS));
    assert!(!similar_titles("", "abc", high));
    assert!(similar_titles("a b c d e", "e d c b a", low));
    assert_eq!(similar_titles("ab", "abc", low), similar_titles("abc", "ab", low));
    assert_eq!(f64::from_bits(SIMILAR_BITS), 0.9);
}
