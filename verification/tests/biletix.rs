use bilet_takip::sources::biletix::{category, parse_prices, parse_solr, PriceEntry, SolrDoc};

fn doc(kind: &str, id: &str, name: &str) -> SolrDoc {
    SolrDoc {
        doc_type: Some(kind.into()),
        id: Some(id.into()),
        sname: Some(name.into()),
        status: None,
        svenue: Some(" Kadir Has ".into()),
        start: Some("2026-11-27T21:00:00+03:00".into()),
        category: Some("MUSIC".into()),
        subcategory: Some("POP".into()),
    }
}

#[test]
fn solr_documents_become_events() {
    let mut sold = doc("event", "7XX01", "Hamlet");
    sold.status = Some("SOLD_OUT".into());
    sold.category = Some("ART".into());
    let mut nameless = doc("event", "7XX02", "x");
    nameless.sname = None;
    let docs = vec![doc("event", "5MY27", " Karsu "), doc("venue", "V1", "Salon"), sold, nameless];
    let events = parse_solr(&Some(docs)).unwrap();
    assert_eq!(events.len(), 2);
    let karsu = &events[0];
    assert_eq!(karsu.id, "5MY27");
    assert_eq!(karsu.title, "Karsu");
    assert_eq!(karsu.category, "Konser");
    assert_eq!(karsu.venue, "Kadir Has");
    assert_eq!(karsu.url, "https://www.biletix.com/etkinlik/5MY27/TURKIYE/tr");
    assert!(karsu.date.is_some());
    assert!(!karsu.sold_out);
    assert!(karsu.tiers.is_empty());
    assert!(events[1].sold_out);
    assert_eq!(events[1].category, "Tiyatro");
}

#[test]
fn an_answer_without_documents_is_an_error() {
    assert_eq!(parse_solr(&None).unwrap_err(), "Biletix: Solr yanıtında docs yok");
}

#[test]
fn categories_of_the_site() {
    assert_eq!(category("MUSIC", "Stand Up", "Gösteri"), "Stand-up");
    assert_eq!(category("ART", "", "Cem Yılmaz STAND-UP"), "Stand-up");
    assert_eq!(category("FAMILY", "", "Masal"), "Çocuk/Aile");
    assert_eq!(category("SPORT", "", "Maç"), "Spor");
    assert_eq!(category("OTHER", "", "Fuar"), "Etkinlik");
}

fn entry(name: Option<&str>, price: Option<i64>) -> PriceEntry {
    PriceEntry { description: name.map(str::to_string), min_price: price }
}

#[test]
fn prices_keep_the_lowest_per_category() {
    let data = Some(vec![
        Some(vec![entry(Some("VIP "), Some(425_000)), entry(Some("1. Kategori"), Some(300_000)), entry(Some("Bedava"), Some(0))]),
        None,
        Some(vec![entry(Some("VIP"), Some(450_000)), entry(Some("1. Kategori"), Some(250_000)), entry(None, Some(1)), entry(Some("X"), None)]),
    ]);
    let tiers = parse_prices(&data);
    assert_eq!(tiers.get(&"VIP".to_string()), Some(&425_000));
    assert_eq!(tiers.get(&"1. Kategori".to_string()), Some(&250_000));
    assert_eq!(tiers.len(), 2);
    assert!(parse_prices(&None).is_empty());
}
