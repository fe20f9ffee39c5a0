use chrono::{Datelike, FixedOffset, TimeZone};
use bilet_takip::keyed::KeyedMap;
use bilet_takip::model::{
    esc, fmt_date, fmt_date_short, fmt_tl, fold, guess_category, parse_i64, parse_tl, parse_u64, Event,
    EventDate, SourceId,
};

fn date(secs: i64, offset: i32) -> EventDate {
    EventDate { secs, nanos: 0, offset }
}

fn event(tiers: &[(&str, i64)], list: &[(&str, i64)], sold_out: bool) -> Event {
    let mut t = KeyedMap::new();
    for (k, v) in tiers {
        t.insert(k.to_string(), *v);
    }
    let mut l = KeyedMap::new();
    for (k, v) in list {
        l.insert(k.to_string(), *v);
    }
    Event {
        source: SourceId::Bubilet,
        id: "a".into(),
        title: "Etkinlik".into(),
        venue: "EKM".into(),
        date: None,
        category: "Konser".into(),
        url: "https://x/a".into(),
        tiers: t,
        sold_out,
        list_prices: l,
    }
}

#[test]
fn tl_parsing() {
    assert_eq!(parse_tl("₺1.350,00"), Some(135_000));
    assert_eq!(parse_tl("1.450,5"), Some(145_050));
    assert_eq!(parse_tl("850"), Some(85_000));
    assert_eq!(parse_tl("₺"), None);
}

#[test]
fn tl_formatting() {
    assert_eq!(fmt_tl(135_000), "1.350 ₺");
    assert_eq!(fmt_tl(37_500), "375 ₺");
    assert_eq!(fmt_tl(145_050), "1.450,50 ₺");
    assert_eq!(fmt_tl(1_234_567_800), "12.345.678 ₺");
}

#[test]
fn folding() {
    assert_eq!(fold("İçimizdeki Şeytan"), "icimizdeki seytan");
    assert_eq!(fold("KAYSERİ"), "kayseri");
}

#[test]
fn tl_parsing_edge_cases() {
    assert_eq!(parse_tl("1,234"), Some(123));
    assert_eq!(parse_tl("12,3a4"), Some(1234));
    assert_eq!(parse_tl("1.2.3"), Some(12_300));
    assert_eq!(parse_tl(",50"), None);
    assert_eq!(parse_tl("5,x"), Some(500));
}

#[test]
fn parse_tl_refuses_overflow() {
    assert_eq!(parse_tl("92233720368547758,07"), Some(i64::MAX));
    assert_eq!(parse_tl("92233720368547758,08"), None);
    assert_eq!(parse_tl("9223372036854775807"), None);
}

#[test]
fn tl_formatting_negative_and_small() {
    assert_eq!(fmt_tl(0), "0 ₺");
    assert_eq!(fmt_tl(5), "0,05 ₺");
    assert_eq!(fmt_tl(-150_050), "-1.500,-50 ₺");
}

#[test]
fn integer_texts() {
    assert_eq!(parse_u64("20"), Some(20));
    assert_eq!(parse_u64("+7"), Some(7));
    assert_eq!(parse_u64("-7"), None);
    assert_eq!(parse_u64(""), None);
    assert_eq!(parse_u64("18446744073709551615"), Some(u64::MAX));
    assert_eq!(parse_u64("18446744073709551616"), None);
    assert_eq!(parse_i64("-9223372036854775808"), Some(i64::MIN));
    assert_eq!(parse_i64("9223372036854775808"), None);
    assert_eq!(parse_i64("38"), Some(38));
    assert_eq!(parse_i64("3a"), None);
}

#[test]
fn categories_from_titles() {
    assert_eq!(guess_category("Cem Yılmaz Stand-Up"), "Stand-up");
    assert_eq!(guess_category("Poizi Konseri"), "Konser");
    assert_eq!(guess_category("Hamlet Tiyatro Oyunu"), "Tiyatro");
    assert_eq!(guess_category("Sergi"), "Etkinlik");
}

#[test]
fn escaping() {
    assert_eq!(esc("a & b <i>\"x\"</i>"), "a &amp; b &lt;i&gt;&quot;x&quot;&lt;/i&gt;");
}

#[test]
fn dates_in_turkish_time() {
    // 2025-10-11T18:00:00Z is 21:00 in Turkey, a Saturday.
    let d = date(1_760_205_600, 0);
    assert_eq!(fmt_date(&d), "11 Ekim Cumartesi 21:00");
    assert_eq!(fmt_date_short(&d), "11 Eki");
    // 22:30 UTC on 31 December is already 1 January in Turkey.
    let n = date(1_767_220_200, 0);
    assert_eq!(fmt_date(&n), "1 Ocak Perşembe 01:30");
}

#[test]
fn source_names_and_keys() {
    assert_eq!(SourceId::Biletinial.name(), "Biletinial");
    let mut e = event(&[], &[], false);
    e.source = SourceId::Biletix;
    e.id = "5MY27".into();
    assert_eq!(e.key(), "biletix:5MY27");
}

#[test]
fn lowest_price_and_discounts() {
    let e = event(&[("A", 50_000), ("B", 30_000), ("C", 40_000)], &[("A", 60_000), ("B", 20_000), ("C", 45_000)], false);
    assert_eq!(e.min_price(), Some(30_000));
    assert_eq!(e.discounts(), vec![("C".to_string(), 45_000, 40_000), ("A".to_string(), 60_000, 50_000)]);
    assert_eq!(e.discount(), Some((45_000, 40_000)));
    let s = event(&[("A", 50_000)], &[("A", 60_000)], true);
    assert!(s.discounts().is_empty());
    assert_eq!(s.discount(), None);
    assert_eq!(event(&[], &[], false).min_price(), None);
}

#[test]
fn written_amounts_read_back() {
    for k in [0, 5, 99, 100, 37_500, 145_050, 1_234_567_800, 999_999_999_999] {
        assert_eq!(parse_tl(&fmt_tl(k)), Some(k), "{k}");
    }
}

#[test]
fn calendar_agrees_with_chrono() {
    const MONTHS: [&str; 12] = ["Oca", "Şub", "Mar", "Nis", "May", "Haz", "Tem", "Ağu", "Eyl", "Eki", "Kas", "Ara"];
    let tr = FixedOffset::east_opt(10_800).unwrap();
    let mut secs: i64 = -8_334_601_315_200 + 86_400;
    while secs <= 8_210_266_876_799 - 86_400 {
        let d = tr.timestamp_opt(secs, 0).unwrap();
        let expected = format!("{} {}", d.day(), MONTHS[d.month0() as usize]);
        assert_eq!(fmt_date_short(&date(secs, 0)), expected, "{secs}");
        secs += 1_234_567_891;
    }
    for secs in [-86_400 * 719_468 - 10_800, -10_800, 0, 951_782_400 - 10_800, 4_107_542_400 - 10_801] {
        let d = tr.timestamp_opt(secs, 0).unwrap();
        let expected = format!("{} {}", d.day(), MONTHS[d.month0() as usize]);
        assert_eq!(fmt_date_short(&date(secs, 0)), expected, "{secs}");
    }
}

#[test]
fn discounts_at_the_same_price_by_name() {
    let e = event(&[("B", 40_000), ("A", 40_000), ("C", 30_000)], &[("A", 50_000), ("B", 45_000), ("C", 30_000)], false);
    assert_eq!(e.discounts(), vec![("A".to_string(), 50_000, 40_000), ("B".to_string(), 45_000, 40_000)]);
}

#[test]
fn escaping_keeps_every_character() {
    assert_eq!(esc("&amp;"), "&amp;amp;");
    assert_eq!(esc("x;"), "x;");
    assert_eq!(esc("\"&lt\""), "&quot;&amp;lt&quot;");
    assert_eq!(fold(&fold("İçimizdeki ŞEYTAN")), fold("İçimizdeki ŞEYTAN"));
    assert_eq!(fold("İçimizdeki ŞEYTAN").chars().count(), "İçimizdeki ŞEYTAN".chars().count());
}

#[test]
fn escaping_is_undone_by_the_replacements() {
    for s in ["a & b <i>\"x\"</i>", "&amp;lt;", "\"&quot;\"", "x;&gt", ""] {
        let e = esc(s);
        assert!(!e.contains('<') && !e.contains('>') && !e.contains('"'));
        let back = e.replace("&quot;", "\"").replace("&gt;", ">").replace("&lt;", "<").replace("&amp;", "&");
        assert_eq!(back, s);
    }
}
