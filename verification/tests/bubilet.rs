use bilet_takip::keyed::KeyedMap;
use bilet_takip::model::{Event, SourceId};
use bilet_takip::sources::bubilet::{
    apply_tickets, city_id, events_from_listing, join_payloads, listing_events, listing_tail, rsc_stream,
    session_prefix, sessions_in_city, yes, keep_read, needs_tickets, BbEvent, BbVenue, Session, Ticket,
};

/// The list page's event 14662, before its tickets are read.
fn emir_can() -> Event {
    let mut tiers = KeyedMap::new();
    tiers.insert("En uygun bilet".to_string(), 155_000);
    Event {
        source: SourceId::Bubilet,
        id: "14662".into(),
        title: "Emir Can İğrek".into(),
        venue: "Kadir Has Kongre Merkezi".into(),
        date: None,
        category: "Etkinlik".into(),
        url: "https://www.bubilet.com.tr/kayseri/etkinlik/emir-can-igrek".into(),
        tiers,
        sold_out: false,
        list_prices: KeyedMap::new(),
    }
}

/// A ticket category with prices in kuruş.
fn ticket(name: &str, price: i64, discounted: i64, remaining: i64) -> Ticket {
    Ticket {
        seat_group_name: name.into(),
        price,
        price_positive: price > 0,
        discounted_price: Some(discounted).filter(|p| *p > 0),
        is_free_ticket: false,
        remaining_tickets: remaining,
        is_active: true,
        is_marked_sold_out: false,
    }
}

#[test]
fn sold_out_tickets_skipped_and_sessions_prefixed() {
    let mut ev = emir_can();
    apply_tickets(
        &mut ev,
        &[
            ("26 Eyl 13:00 · ".into(), vec![ticket("Tam Bilet", 60_000, 60_000, 17), ticket("Erken", 40_000, 40_000, 0)]),
            ("4 Eki 16:30 · ".into(), vec![ticket("Tam Bilet", 60_000, 45_000, 21)]),
        ],
    );
    let keys: Vec<&String> = ev.tiers.entries().iter().map(|(k, _)| k).collect();
    assert_eq!(keys, ["26 Eyl 13:00 · Tam Bilet", "4 Eki 16:30 · Tam Bilet"]);
    assert_eq!(ev.discounts(), vec![("4 Eki 16:30 · Tam Bilet".into(), 60_000, 45_000)]);
    assert!(!ev.sold_out);

    apply_tickets(&mut ev, &[(String::new(), vec![ticket("Tam Bilet", 60_000, 60_000, 0)])]);
    assert!(ev.sold_out && ev.tiers.is_empty());
}

#[test]
fn no_tickets_keep_the_list_price() {
    let mut ev = emir_can();
    apply_tickets(&mut ev, &[(String::new(), vec![])]);
    assert_eq!(ev, emir_can());
}

#[test]
fn cheapest_ticket_of_a_name_wins() {
    let mut ev = emir_can();
    apply_tickets(
        &mut ev,
        &[(String::new(), vec![ticket(" VIP ", 90_000, 80_000, 5), ticket("VIP", 90_000, 0, 5), ticket("VIP", 70_000, 0, 5)])],
    );
    assert_eq!(ev.tiers.get(&"VIP".to_string()), Some(&70_000));
    assert!(ev.list_prices.is_empty());
    let mut inactive = ticket("Loca", 10_000, 0, 5);
    inactive.is_active = false;
    let mut free = ticket("Davetiye", 0, 0, 5);
    free.is_free_ticket = true;
    apply_tickets(&mut ev, &[(String::new(), vec![inactive, free])]);
    assert!(ev.tiers.is_empty() && ev.sold_out);
}

fn bb_event(id: i64, name: &str, price: i64, discounted: Option<i64>) -> BbEvent {
    BbEvent {
        id,
        name: name.into(),
        slug: "-blok3-".into(),
        dates: vec!["2026-10-09T18:00:00+03:00".into()],
        price,
        price_positive: price > 0,
        discounted_price: discounted.filter(|p| *p > 0),
        is_free_ticket: false,
        is_sold_out: false,
        is_marked_sold_out: false,
        venues: vec![BbVenue { name: " Kumsmall AVM ".into() }],
    }
}

#[test]
fn list_page_events() {
    let events = events_from_listing(
        &vec![bb_event(7, " Blok3 ", 100_000, Some(70_000)), bb_event(8, "Karsu Konseri", 90_000, Some(0))],
        "kayseri",
    );
    assert_eq!(events.len(), 2);
    let blok3 = &events[0];
    assert_eq!(blok3.id, "7");
    assert_eq!(blok3.title, "Blok3");
    assert_eq!(blok3.venue, "Kumsmall AVM");
    assert_eq!(blok3.url, "https://www.bubilet.com.tr/kayseri/etkinlik/-blok3-");
    assert_eq!(blok3.min_price(), Some(70_000));
    assert_eq!(blok3.discounts(), vec![("En uygun bilet".into(), 100_000, 70_000)]);
    assert!(blok3.date.is_some());
    let karsu = &events[1];
    assert_eq!(karsu.category, "Konser");
    assert_eq!(karsu.min_price(), Some(90_000));
    assert!(karsu.discounts().is_empty());
}

#[test]
fn free_events_have_no_price() {
    let mut e = bb_event(9, "Açık Hava", 0, None);
    e.is_free_ticket = true;
    e.venues.clear();
    e.dates.clear();
    let events = events_from_listing(&vec![e], "kayseri");
    assert!(events[0].tiers.is_empty());
    assert_eq!(events[0].venue, "");
    assert_eq!(events[0].date, None);
}

#[test]
fn the_list_follows_the_city_marker() {
    let stream = r#"x"citySlug":"ankara","events":[1]y"citySlug":"kayseri","events":[{"a":1}]z"#;
    assert_eq!(listing_tail(stream, "kayseri").unwrap(), r#"[{"a":1}]z"#);
    assert_eq!(
        listing_tail(stream, "izmir").unwrap_err(),
        "Bubilet: sayfada etkinlik listesi bulunamadı (site yapısı değişmiş olabilir)"
    );
}

#[test]
fn list_reading_errors() {
    assert_eq!(listing_events(None, "kayseri").unwrap_err(), "Bubilet: etkinlik listesi boş");
    assert_eq!(
        listing_events(Some(Err("expected value at line 1".into())), "kayseri").unwrap_err(),
        "Bubilet: etkinlik listesi çözülemedi: expected value at line 1"
    );
    assert_eq!(listing_events(Some(Ok(vec![])), "kayseri").unwrap().len(), 0);
}

#[test]
fn rsc_pieces_are_decoded_and_joined() {
    let piece = |s: &str| Some(s.to_string());
    assert_eq!(join_payloads(&vec![piece(r#"a\"b"#), piece(r"\n"), piece("c")]).unwrap(), "a\"b\nc");
    let bad = join_payloads(&vec![piece("ok"), piece(r"\x")]).unwrap_err();
    assert!(bad.starts_with("Bubilet: RSC parçası çözülemedi: "), "{bad}");
    assert_eq!(join_payloads(&vec![piece("ok"), None]).unwrap_err(), "Bubilet: RSC parçası çözülemedi");
    let html = r#"<script>self.__next_f.push([1,"abc\n"])</script><p>x</p><script>self.__next_f.push([1,"\"citySlug\":\"kayseri\""])</script>"#;
    assert_eq!(rsc_stream(html).unwrap(), "abc\n\"citySlug\":\"kayseri\"");
    assert_eq!(rsc_stream("<html></html>").unwrap(), "");
}

#[test]
fn city_id_from_the_stream() {
    let stream = r#"{"cityId":6,"cityName":"Ankara","citySlug":"ankara"},{"cityId":38,"cityName":"Kayseri","citySlug":"kayseri"}"#;
    assert_eq!(city_id(stream, "kayseri"), Some(38));
    assert_eq!(city_id(stream, "ankara"), Some(6));
    assert_eq!(city_id(stream, "izmir"), None);
    assert_eq!(city_id(r#""cityId":99999999999999999999,"cityName":"X","citySlug":"x""#, "x"), None);
    let dotted = r#"{"cityId":7,"cityName":"X","citySlug":"a.b"},{"cityId":8,"cityName":"Y","citySlug":"axb"}"#;
    assert_eq!(city_id(dotted, "a.b"), Some(7));
    assert_eq!(city_id(r#"{"cityId":8,"cityName":"Y","citySlug":"axb"}"#, "a.b"), None);
    assert_eq!(city_id(dotted, &"x".repeat(2_000_000)), None);
}

#[test]
fn sessions_of_the_city_and_their_prefixes() {
    let s = |city: &str, date: &str| Session { session_id: 1, city_slug: city.into(), date: date.into() };
    let kept = sessions_in_city(vec![s("kayseri", "a"), s("ankara", "b"), s("", "c")], "kayseri");
    let dates: Vec<&str> = kept.iter().map(|x| x.date.as_str()).collect();
    assert_eq!(dates, ["a", "c"]);
    assert_eq!(session_prefix("2025-11-22T09:30:00Z", true), "22 Kas 12:30 · ");
    assert_eq!(session_prefix("2025-11-22T09:30:00Z", false), "");
    assert_eq!(session_prefix("yarın", true), "");
    assert!(yes());
}

#[test]
fn prices_under_half_a_kurus_still_count() {
    // 0.004 TL rounds to 0 kuruş but is a price above zero.
    let mut tiny = bb_event(10, "Ucuz", 0, None);
    tiny.price_positive = true;
    let events = events_from_listing(&vec![tiny], "kayseri");
    assert_eq!(events[0].min_price(), Some(0));
    let mut zero = bb_event(11, "Sıfır", 0, None);
    zero.price_positive = false;
    assert_eq!(events_from_listing(&vec![zero], "kayseri")[0].min_price(), None);

    let mut ev = emir_can();
    let mut t = ticket("Tam Bilet", 0, 0, 5);
    t.price_positive = true;
    apply_tickets(&mut ev, &[(String::new(), vec![t])]);
    assert_eq!(ev.tiers.get(&"Tam Bilet".to_string()), Some(&0));
    assert!(!ev.sold_out);
}

#[test]
fn events_whose_tickets_failed_are_left_out() {
    let free = bb_event(9, "Açık Hava", 0, None);
    let evs = events_from_listing(&vec![bb_event(7, "A", 100_000, None), free, bb_event(8, "B", 90_000, None)], "kayseri");
    let needs: Vec<bool> = evs.iter().map(needs_tickets).collect();
    assert_eq!(needs, vec![true, false, true]);
    let kept = keep_read(evs, &vec![false, true, true]);
    let ids: Vec<&str> = kept.iter().map(|e| e.id.as_str()).collect();
    assert_eq!(ids, ["9", "8"]);
}
