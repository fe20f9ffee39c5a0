use bilet_takip::config::Thresholds;
use bilet_takip::diff::{apply, Change};
use bilet_takip::keyed::KeyedMap;
use bilet_takip::messages::{change, discounts, list, source_down, source_up, status};
use bilet_takip::model::{Event, SourceId};
use bilet_takip::store::{Health, State};

const TODAY: i64 = 20_721;

fn ev(source: SourceId, id: &str, price: i64, list_price: Option<i64>) -> Event {
    let mut tiers = KeyedMap::new();
    tiers.insert("En uygun bilet".to_string(), price);
    let mut list_prices = KeyedMap::new();
    if let Some(l) = list_price {
        list_prices.insert("En uygun bilet".to_string(), l);
    }
    Event {
        source,
        id: id.into(),
        title: format!("Etkinlik {id}"),
        venue: "EKM".into(),
        date: None,
        category: "Konser".into(),
        url: format!("https://x/{id}"),
        tiers,
        sold_out: false,
        list_prices,
    }
}

fn state(events: Vec<Event>) -> State {
    let mut s = State::default();
    apply(&mut s, SourceId::Bubilet, events, &Thresholds { min_drop_basis_points: 500, min_drop_kurus: 5_000 }, TODAY);
    s
}

#[test]
fn source_alerts() {
    assert_eq!(source_up(SourceId::Bubilet), "✅ <b>Bubilet</b> tekrar çalışıyor.");
    let h = Health { consecutive_failures: 3, alerted: true, last_count: 0, last_error: Some("a<b".into()) };
    assert_eq!(
        source_down(SourceId::Biletix, &h),
        "⚠️ <b>Biletix</b> 3 çalıştırmadır veri döndürmüyor.\nSon hata: <code>a&lt;b</code>"
    );
    let none = Health { consecutive_failures: 4, alerted: true, last_count: 2, last_error: None };
    assert!(source_down(SourceId::Bubilet, &none).ends_with("<code>-</code>"));
}

#[test]
fn the_status_of_sources() {
    let mut s = state(vec![ev(SourceId::Bubilet, "a", 100_000, None)]);
    s.health.push((SourceId::Biletix, Health { consecutive_failures: 2, alerted: false, last_count: 7, last_error: None }));
    assert_eq!(
        status(&s, &[SourceId::Bubilet, SourceId::Biletix], 750, 5_000),
        "📊 <b>Durum</b>\n\n✅ Bubilet: son taramada 0 etkinlik, takipte 1\n⚠️ Biletix: son taramada 7 etkinlik, takipte 0 — 2 kez üst üste hata\n\n🔔 Bildirim eşiği: %7.5 ya da 50 ₺ düşüş"
    );
}

#[test]
fn discounts_largest_first() {
    let s = state(vec![
        ev(SourceId::Bubilet, "a", 90_000, Some(100_000)),
        ev(SourceId::Bubilet, "b", 70_000, Some(100_000)),
        ev(SourceId::Bubilet, "c", 50_000, None),
    ]);
    assert_eq!(
        discounts(&s, TODAY),
        "🔥 <b>İndirimdekiler</b> (2)\n\n•  — Etkinlik b — <s>1.000 ₺</s> <a href=\"https://x/b\">700 ₺</a> (−%30, Bubilet)\n•  — Etkinlik a — <s>1.000 ₺</s> <a href=\"https://x/a\">900 ₺</a> (−%10, Bubilet)\n"
    );
    assert_eq!(discounts(&State::default(), TODAY), "Şu an indirimli etkinlik yok.");
}

#[test]
fn the_list_and_a_search() {
    let s = state(vec![ev(SourceId::Bubilet, "a", 100_000, None), ev(SourceId::Bubilet, "b", 50_000, None)]);
    assert_eq!(
        list(&s, TODAY, None),
        "🎫 <b>Yaklaşan etkinlikler</b> (2)\n\n•  — Etkinlik a — <a href=\"https://x/a\">1.000 ₺</a> (Bubilet)\n•  — Etkinlik b — <a href=\"https://x/b\">500 ₺</a> (Bubilet)\n"
    );
    assert_eq!(
        list(&s, TODAY, Some("ETKİNLİK B")),
        "🎫 <b>Yaklaşan etkinlikler</b> (1)\n\n•  — Etkinlik b — <a href=\"https://x/b\">500 ₺</a> (Bubilet)\n"
    );
    assert_eq!(list(&s, TODAY, Some("yok")), "Kayıtlı yaklaşan etkinlik yok.");
}

#[test]
fn a_new_event_message() {
    let s = State::default();
    assert_eq!(
        change(&Change::New(ev(SourceId::Biletinial, "b", 10_000, None)), &s),
        "🆕 <b>Yeni etkinlik</b> — <b>Etkinlik b</b>\n📍 Konser · EKM\n💰 100 ₺'den başlayan fiyatlarla\n🔗 <a href=\"https://x/b\">Biletinial'da aç</a>"
    );
}

#[test]
fn a_price_drop_message() {
    let s = State::default();
    let e = ev(SourceId::Bubilet, "a", 37_500, None);
    assert_eq!(
        change(&Change::PriceDrop(e, vec![("Tam".into(), 75_000, 37_500)]), &s),
        "📉 <b>Fiyat düştü</b> — <b>Etkinlik a</b>\n📍 Konser · EKM\n💸 Tam: <s>750 ₺</s> → <b>375 ₺</b> (−%50)\n🔗 <a href=\"https://x/a\">Bubilet'te aç</a>"
    );
}
