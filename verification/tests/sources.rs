use bilet_takip::config::{Config, HttpConfig, Notify, Sources, Thresholds};
use bilet_takip::model::SourceId;
use bilet_takip::sources::enabled;

fn config(bubilet: bool, biletinial: bool, biletix: bool) -> Config {
    Config {
        city: "Kayseri".into(),
        city_slug: "kayseri".into(),
        thresholds: Thresholds { min_drop_basis_points: 500, min_drop_kurus: 5_000 },
        notify: Notify { price_drop: true, discount: true, new_event: false, back_in_stock: true },
        sources: Sources { bubilet, biletinial, biletix, biletinial_categories: vec!["muzik".into()] },
        http: HttpConfig { delay_ms: 800, timeout_secs: 30 },
    }
}

#[test]
fn sources_switched_on() {
    assert_eq!(enabled(&config(true, true, true)), vec![SourceId::Bubilet, SourceId::Biletinial, SourceId::Biletix]);
    assert_eq!(enabled(&config(false, true, false)), vec![SourceId::Biletinial]);
    assert!(enabled(&config(false, false, false)).is_empty());
}
