use bilet_takip::sources::biletinial::{
    add_links, ld_nodes, no_detail_read, LdJson, NO_DETAIL,
    ld_json_blocks, parse_date, parse_detail, parse_list, price_blocks, LdNode, PriceBlock, TicketPrice,
    TicketPrices,
};

fn node(kind: &str) -> LdNode {
    LdNode {
        kind: Some(kind.into()),
        item_urls: vec![],
        name: None,
        start_date: None,
        locality: None,
        venue: None,
        availability: None,
        offer_price: None,
    }
}

fn session(start: &str, city: &str, venue: &str) -> LdNode {
    LdNode {
        name: Some(" Karsu ".into()),
        start_date: Some(start.into()),
        locality: Some(city.into()),
        venue: Some(venue.into()),
        availability: Some("https://schema.org/InStock".into()),
        offer_price: Some(145_000),
        ..node("Event")
    }
}

fn block(when: &str, venue: &str, prices: &[(&str, &str)]) -> PriceBlock {
    PriceBlock {
        when: Some(when.into()),
        prices: Some(TicketPrices {
            venue_name: venue.into(),
            prices: prices.iter().map(|(n, p)| TicketPrice { name: n.to_string(), price: p.to_string() }).collect(),
        }),
    }
}

const URL: &str = "https://biletinial.com/tr-tr/muzik/karsu-konseri";

#[test]
fn list_page_links() {
    let mut list = node("ItemList");
    list.item_urls = vec![Some(URL.into()), None, Some("https://biletinial.com/tr-tr/muzik/poizi".into())];
    let mut other = node("Organization");
    other.item_urls = vec![Some("https://biletinial.com/x".into())];
    let links = parse_list(&vec![other, list]);
    assert_eq!(links, vec![URL.to_string(), "https://biletinial.com/tr-tr/muzik/poizi".to_string()]);
}

#[test]
fn only_the_city_sessions_with_their_prices() {
    let blocks = vec![
        block("2026-11-27T21:00:00", "Kadir Has Kongre Merkezi Kayseri", &[(" VIP ", "₺2.500,00"), ("1. Kategori", "1.450"), ("Protokol", "0")]),
        block("2026-11-28T21:00:00", "Volkswagen Arena İstanbul", &[("VIP", "₺3.000,00")]),
    ];
    let nodes = vec![
        session("2026-11-27T21:00:00+03:00", " KAYSERİ ", "Kadir Has Kongre Merkezi"),
        session("2026-11-28T21:00:00+03:00", "İstanbul", "Volkswagen Arena"),
    ];
    let events = parse_detail(&blocks, &nodes, URL, "muzik", "Kayseri");
    assert_eq!(events.len(), 1, "sadece Kayseri seansı gelmeli");
    let e = &events[0];
    assert_eq!(e.id, "karsu-konseri@2026-11-27T21:00");
    assert_eq!(e.title, "Karsu");
    assert_eq!(e.category, "Konser");
    assert_eq!(e.min_price(), Some(145_000));
    assert_eq!(e.tiers.len(), 2);
    assert_eq!(e.tiers.get(&"VIP".to_string()), Some(&250_000));
    assert!(e.date.is_some());
    assert_eq!(e.url, URL);
}

#[test]
fn offer_price_when_no_block_fits() {
    let nodes = vec![session("2026-11-27T21:00", "Kayseri", "Kadir Has")];
    let events = parse_detail(&vec![], &nodes, "https://biletinial.com/tr-tr/tiyatro/hamlet/", "tiyatro", "Kayseri");
    assert_eq!(events[0].id, "hamlet@2026-11-27T21:00");
    assert_eq!(events[0].category, "Tiyatro");
    assert_eq!(events[0].tiers.get(&"En uygun bilet".to_string()), Some(&145_000));
    let mut sold = session("2026-11-27T21:00", "Kayseri", "Kadir Has");
    sold.availability = Some("https://schema.org/SoldOut".into());
    sold.name = None;
    let events = parse_detail(&vec![], &vec![sold], "https://biletinial.com/tr-tr/tiyatro/hamlet/", "tiyatro", "Kayseri");
    assert!(events[0].sold_out && events[0].tiers.is_empty());
    assert_eq!(events[0].title, "hamlet");
}

#[test]
fn session_dates() {
    let d = parse_date("2026-11-27T21:00:00+03:00").unwrap();
    assert_eq!((d.secs, d.offset), (1_795_802_400, 10_800));
    let n = parse_date("2026-11-27T21:00").unwrap();
    assert_eq!((n.secs, n.offset), (1_795_802_400, 10_800));
    assert_eq!(parse_date("27 Kasım"), None);
}

#[test]
fn overlarge_prices_are_skipped() {
    let blocks = vec![block(
        "2026-11-27T21:00:00",
        "Kadir Has Kongre Merkezi Kayseri",
        &[("VIP", "92233720368547758,08"), ("A", "9223372036854775807"), ("B", "1.450")],
    )];
    let nodes = vec![session("2026-11-27T21:00:00+03:00", "Kayseri", "Kadir Has Kongre Merkezi")];
    let events = parse_detail(&blocks, &nodes, URL, "muzik", "Kayseri");
    assert_eq!(events.len(), 1);
    assert_eq!(events[0].tiers.len(), 1);
    assert_eq!(events[0].tiers.get(&"B".to_string()), Some(&145_000));
}

#[test]
fn page_parts_are_read() {
    let html = r#"<html><head><script type="application/ld+json">{"@type":"ItemList"}</script></head><body>
        <div class="ed-biletler__sehir__gun__fiyat"><meta itemprop="validFrom" content="2026-11-27T21:00:00">
        <a class="ticket_price_tooltip" data-ticketprices='{"venue_name":"X","prices":[]}'>fiyat</a></div>
        <div class="ed-biletler__sehir__gun__fiyat"></div></body></html>"#;
    assert_eq!(ld_json_blocks(html), vec![r#"{"@type":"ItemList"}"#.to_string()]);
    let blocks = price_blocks(html);
    assert_eq!(blocks.len(), 2);
    assert_eq!(blocks[0].0.as_deref(), Some("2026-11-27T21:00:00"));
    assert_eq!(blocks[0].1.as_deref(), Some(r#"{"venue_name":"X","prices":[]}"#));
    assert_eq!(blocks[1], (None, None));
}

#[test]
fn an_offer_under_half_a_kurus_is_kept() {
    let mut n = session("2026-11-27T21:00", "Kayseri", "Kadir Has");
    n.offer_price = Some(0);
    let events = parse_detail(&vec![], &vec![n], "https://biletinial.com/tr-tr/tiyatro/hamlet/", "tiyatro", "Kayseri");
    assert_eq!(events[0].tiers.get(&"En uygun bilet".to_string()), Some(&0));
}

#[test]
fn json_ld_blocks_flattened() {
    let blocks = vec![Some(LdJson::Node(node("ItemList"))), None, Some(LdJson::List(vec![node("Event"), node("Place")]))];
    let kinds: Vec<Option<String>> = ld_nodes(blocks).into_iter().map(|n| n.kind).collect();
    assert_eq!(kinds, vec![Some("ItemList".to_string()), Some("Event".to_string()), Some("Place".to_string())]);
    assert!(ld_nodes(vec![None]).is_empty());
}

#[test]
fn links_once_each_with_their_first_category() {
    let mut links = Vec::new();
    add_links(&mut links, vec!["a".to_string(), "b".to_string(), "a".to_string()], "muzik");
    add_links(&mut links, vec!["b".to_string(), "c".to_string()], "tiyatro");
    assert_eq!(
        links,
        vec![
            ("a".to_string(), "muzik".to_string()),
            ("b".to_string(), "muzik".to_string()),
            ("c".to_string(), "tiyatro".to_string())
        ]
    );
    assert!(no_detail_read(2, 2));
    assert!(!no_detail_read(2, 1));
    assert!(!no_detail_read(0, 0));
    assert_eq!(NO_DETAIL, "Biletinial: hiçbir detay sayfası alınamadı");
}
