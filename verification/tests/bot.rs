use bilet_takip::bot::{
    accept_update, effective_thresholds, env_assignment, events_dates_ok, flag_minutes, state_dates_ok, notified, outgoing, parse_command, record_fetch, refresh_keepalive, reply_to, answer_updates, loop_secs, listen_secs, next_step, RunStep, POLL_SECS,
    ScanReport,
};
use bilet_takip::config::{Notify, Thresholds};
use bilet_takip::diff::Change;
use bilet_takip::keyed::KeyedMap;
use bilet_takip::messages::HELP;
use bilet_takip::model::{Event, EventDate, SourceId};
use bilet_takip::store::State;
use bilet_takip::telegram::{Chat, Message, Update};

fn args(a: &[&str]) -> Vec<String> {
    a.iter().map(|s| s.to_string()).collect()
}

fn ev(id: &str, price: i64) -> Event {
    let mut tiers = KeyedMap::new();
    tiers.insert("Tam".to_string(), price);
    Event {
        source: SourceId::Bubilet,
        id: id.into(),
        title: format!("Etkinlik {id}"),
        venue: "EKM".into(),
        date: None,
        category: "Konser".into(),
        url: format!("https://x/{id}"),
        tiers,
        sold_out: false,
        list_prices: KeyedMap::new(),
    }
}

fn cfg() -> Thresholds {
    Thresholds { min_drop_basis_points: 500, min_drop_kurus: 5_000 }
}

const TODAY: i64 = 20_721;

#[test]
fn minutes_after_flags() {
    assert_eq!(flag_minutes(&args(&["--loop", "30"]), "--loop"), Some(30));
    assert_eq!(flag_minutes(&args(&["--loop"]), "--loop"), Some(20));
    assert_eq!(flag_minutes(&args(&["--loop", "x"]), "--loop"), Some(20));
    assert_eq!(flag_minutes(&args(&["--dry-run"]), "--loop"), None);
    assert_eq!(flag_minutes(&args(&["--listen", "19", "--loop", "5"]), "--listen"), Some(19));
}

#[test]
fn commands_and_arguments() {
    assert_eq!(parse_command("  /ARA@BiletBot  karsu konseri "), ("/ara".to_string(), Some("karsu konseri".to_string())));
    assert_eq!(parse_command("/liste"), ("/liste".to_string(), None));
    assert_eq!(parse_command("/ara   "), ("/ara".to_string(), None));
    assert_eq!(parse_command(""), (String::new(), None));
}

#[test]
fn only_the_owner_is_answered() {
    let mut s = State::default();
    let u = Update { update_id: 41, message: Some(Message { chat: Chat { id: -100123 }, text: Some("/liste".into()) }) };
    assert_eq!(accept_update(&mut s, &u, "-100123"), Some("/liste".to_string()));
    assert_eq!(s.telegram_offset, 42);
    assert_eq!(accept_update(&mut s, &u, "555"), None);
    let empty = Update { update_id: 50, message: Some(Message { chat: Chat { id: 7 }, text: None }) };
    assert_eq!(accept_update(&mut s, &empty, "7"), Some(String::new()));
    assert_eq!(accept_update(&mut s, &Update { update_id: 60, message: None }, "7"), None);
    assert_eq!(s.telegram_offset, 61);
}

#[test]
fn replies_to_commands() {
    let mut s = State::default();
    let src = [SourceId::Bubilet];
    assert_eq!(reply_to(&mut s, "/yardim", None, None, &src, &cfg(), TODAY), (HELP.to_string(), false));
    assert_eq!(reply_to(&mut s, "/liste", None, None, &src, &cfg(), TODAY).0, "Kayıtlı yaklaşan etkinlik yok.");
    assert_eq!(reply_to(&mut s, "/indirim", None, None, &src, &cfg(), TODAY).0, "Şu an indirimli etkinlik yok.");
    assert_eq!(reply_to(&mut s, "/ara", None, None, &src, &cfg(), TODAY).0, "Kullanım: /ara karsu");
    assert_eq!(
        reply_to(&mut s, "/tara", None, None, &src, &cfg(), TODAY),
        ("🔎 Tarama başlıyor, değişiklik olursa haber vereceğim.".to_string(), true)
    );
    assert_eq!(reply_to(&mut s, "/bilmem", None, None, &src, &cfg(), TODAY).0, "Bilinmeyen komut. /yardim");
    assert_eq!(
        reply_to(&mut s, "/durum", None, None, &src, &cfg(), TODAY).0,
        "📊 <b>Durum</b>\n\n✅ Bubilet: son taramada 0 etkinlik, takipte 0\n\n🔔 Bildirim eşiği: %5 ya da 50 ₺ düşüş"
    );
}

#[test]
fn threshold_command() {
    let mut s = State::default();
    let src = [SourceId::Bubilet];
    let (r, _) = reply_to(&mut s, "/esik", Some("7,5"), Some((750, true)), &src, &cfg(), TODAY);
    assert_eq!(r, "✅ Bildirim eşiği %7.5 olarak ayarlandı (ya da 50 ₺ düşüş).");
    assert_eq!(s.min_drop_override_basis_points, Some(750));
    let (r, _) = reply_to(&mut s, "/esik", Some("95"), Some((9_500, false)), &src, &cfg(), TODAY);
    assert_eq!(r, "Şu anki eşik: %7.5\nKullanım: /esik 10");
    assert_eq!(s.min_drop_override_basis_points, Some(750));
    let (r, _) = reply_to(&mut s, "/esik", None, None, &src, &cfg(), TODAY);
    assert_eq!(r, "Şu anki eşik: %7.5\nKullanım: /esik 10");
    let (r, _) = reply_to(&mut s, "/esik", Some("90.004"), Some((9_000, false)), &src, &cfg(), TODAY);
    assert_eq!(r, "Şu anki eşik: %7.5\nKullanım: /esik 10");
    assert_eq!(s.min_drop_override_basis_points, Some(750));
    let (r, _) = reply_to(&mut s, "/esik", Some("90"), Some((9_000, true)), &src, &cfg(), TODAY);
    assert_eq!(r, "✅ Bildirim eşiği %90 olarak ayarlandı (ya da 50 ₺ düşüş).");
    assert_eq!(s.min_drop_override_basis_points, Some(9_000));
}

#[test]
fn a_failing_source_is_reported_at_the_third_failure() {
    let mut s = State::default();
    let mut r = ScanReport::new();
    for _ in 0..2 {
        record_fetch(&mut s, &mut r, SourceId::Biletix, Err("HTTP 503: https://x".into()), &cfg(), TODAY);
    }
    assert!(r.alerts.is_empty());
    record_fetch(&mut s, &mut r, SourceId::Biletix, Ok(vec![]), &cfg(), TODAY);
    assert_eq!(
        r.alerts,
        vec!["⚠️ <b>Biletix</b> 3 çalıştırmadır veri döndürmüyor.\nSon hata: <code>hiç etkinlik dönmedi (site yapısı değişmiş olabilir)</code>"
            .to_string()]
    );
    record_fetch(&mut s, &mut r, SourceId::Biletix, Err("x".repeat(400)), &cfg(), TODAY);
    assert_eq!(r.alerts.len(), 1);
    let h = &s.health.iter().find(|(src, _)| *src == SourceId::Biletix).unwrap().1;
    assert_eq!(h.consecutive_failures, 4);
    assert_eq!(h.last_error.as_ref().unwrap().chars().count(), 300);

    record_fetch(&mut s, &mut r, SourceId::Biletix, Ok(vec![ev("a", 100_000)]), &cfg(), TODAY);
    assert_eq!(r.alerts.last().unwrap(), "✅ <b>Biletix</b> tekrar çalışıyor.");
    let h = &s.health.iter().find(|(src, _)| *src == SourceId::Biletix).unwrap().1;
    assert_eq!((h.consecutive_failures, h.alerted, h.last_count, h.last_error.clone()), (0, false, 1, None));
    assert_eq!(r.started, vec![(SourceId::Biletix, 1)]);
    assert!(r.changes.is_empty());
}

#[test]
fn a_scan_records_changes_and_the_start() {
    let mut s = State::default();
    let mut r = ScanReport::new();
    record_fetch(&mut s, &mut r, SourceId::Bubilet, Ok(vec![ev("a", 100_000)]), &cfg(), TODAY);
    record_fetch(&mut s, &mut r, SourceId::Biletix, Err("kapalı".into()), &cfg(), TODAY);
    assert_eq!(r.started, vec![(SourceId::Bubilet, 1)]);
    let mut r2 = ScanReport::new();
    record_fetch(&mut s, &mut r2, SourceId::Bubilet, Ok(vec![ev("a", 50_000), ev("b", 10_000)]), &cfg(), TODAY);
    assert!(r2.started.is_empty());
    assert_eq!(r2.changes.len(), 2);
    let quiet = Notify { price_drop: true, discount: true, new_event: false, back_in_stock: true };
    let wanted = notified(&r2.changes, &quiet);
    assert_eq!(wanted.len(), 1);
    assert!(matches!(wanted[0], Change::PriceDrop(..)));
    let msgs = outgoing("Kayseri", &r.started, &wanted, &r.alerts, &s);
    assert_eq!(msgs.len(), 2);
    assert_eq!(
        msgs[0],
        "✅ <b>Takip başladı</b> (Kayseri)\nBubilet: 1 etkinlik\n\nBundan sonra indirimleri, fiyat düşüşlerini ve tekrar satışa çıkan biletleri bildireceğim. /yardim"
    );
    assert!(msgs[1].starts_with("📉 <b>Fiyat düştü</b> — <b>Etkinlik a</b>\n"), "{}", msgs[1]);
}

#[test]
fn at_most_25_change_messages() {
    let mut s = State::default();
    let mut r = ScanReport::new();
    record_fetch(&mut s, &mut r, SourceId::Bubilet, Ok(vec![ev("seed", 1)]), &cfg(), TODAY);
    let mut r = ScanReport::new();
    let evs: Vec<Event> = (0..30).map(|i| ev(&format!("n{i}"), 1_000)).collect();
    record_fetch(&mut s, &mut r, SourceId::Bubilet, Ok(evs), &cfg(), TODAY);
    let all = Notify { price_drop: true, discount: true, new_event: true, back_in_stock: true };
    let wanted = notified(&r.changes, &all);
    assert_eq!(wanted.len(), 30);
    let msgs = outgoing("Kayseri", &r.started, &wanted, &vec!["uyarı".to_string()], &s);
    assert_eq!(msgs.len(), 27);
    assert_eq!(msgs[25], "…ve 5 değişiklik daha. Hepsi için /liste");
    assert_eq!(msgs[26], "uyarı");
}

#[test]
fn keepalive_about_once_a_week() {
    let mut s = State::default();
    refresh_keepalive(&mut s, 1_000_000);
    assert_eq!(s.keepalive, Some(1_000_000));
    refresh_keepalive(&mut s, 1_000_000 + 604_800);
    assert_eq!(s.keepalive, Some(1_000_000));
    refresh_keepalive(&mut s, 1_000_000 + 604_801);
    assert_eq!(s.keepalive, Some(1_604_801));
}

#[test]
fn dotenv_lines() {
    let kv = |k: &str, v: &str| Some((k.to_string(), v.to_string()));
    assert_eq!(env_assignment("TELEGRAM_CHAT_ID=12345"), kv("TELEGRAM_CHAT_ID", "12345"));
    assert_eq!(env_assignment("  TOKEN = \"ab=cd\"  "), kv("TOKEN", "ab=cd"));
    assert_eq!(env_assignment("# TOKEN=x"), None);
    assert_eq!(env_assignment("TOKEN"), None);
    assert_eq!(env_assignment(" =x"), None);
    assert_eq!(env_assignment("A=\"\"\""), kv("A", ""));
}

#[test]
fn thresholds_in_force() {
    let mut s = State::default();
    assert_eq!(effective_thresholds(&s, &cfg()).min_drop_basis_points, 500);
    s.min_drop_override_basis_points = Some(1_000);
    let t = effective_thresholds(&s, &cfg());
    assert_eq!((t.min_drop_basis_points, t.min_drop_kurus), (1_000, 5_000));
}

#[test]
fn dates_are_checked() {
    let mut e = ev("a", 1);
    assert!(events_dates_ok(&vec![e.clone()]));
    e.date = Some(EventDate { secs: 0, nanos: 0, offset: 86_400 });
    assert!(!events_dates_ok(&vec![ev("b", 1), e]));
    let s = State::default();
    assert!(state_dates_ok(&s));
}

#[test]
fn white_space_is_unicode_white_space() {
    for c in (0u32..=0x3100).filter_map(char::from_u32) {
        let (cmd, _) = parse_command(&format!("{c}/x{c}"));
        assert_eq!(cmd == "/x", c.is_whitespace(), "{:x}", c as u32);
    }
}

#[test]
fn run_schedule_steps() {
    assert_eq!(loop_secs(20), 1_200);
    assert_eq!(loop_secs(2), 300);
    assert_eq!(loop_secs(0), 300);
    assert_eq!(listen_secs(19), 1_140);
    // Without flags: one poll without waiting, then the end, /tara or not.
    assert_eq!(next_step(None, None, 0, false, None), RunStep::Poll(0));
    assert_eq!(next_step(None, None, 0, false, Some(true)), RunStep::Stop);
    // --listen 19: polls until the time is over; /tara scans.
    assert_eq!(next_step(None, Some(1_140), 100, false, None), RunStep::Poll(POLL_SECS));
    assert_eq!(next_step(None, Some(1_140), 100, false, Some(true)), RunStep::Scan);
    assert_eq!(next_step(None, Some(1_140), 100, true, Some(false)), RunStep::Poll(20));
    assert_eq!(next_step(None, Some(1_140), 1_140, false, Some(false)), RunStep::Stop);
    assert_eq!(next_step(None, Some(1_140), 1_139, false, None), RunStep::Poll(20));
    // --loop 20: scans when due, never stops.
    assert_eq!(next_step(Some(1_200), None, 5_000, true, Some(false)), RunStep::ScheduledScan);
    assert_eq!(next_step(Some(1_200), None, 5_000, false, Some(false)), RunStep::Poll(20));
    assert_eq!(next_step(Some(1_200), None, 5_000, true, None), RunStep::Poll(20));
    assert_eq!(next_step(Some(1_200), None, 5_000, true, Some(true)), RunStep::Scan);
    // Both: a due scan comes before the end of the listening time.
    assert_eq!(next_step(Some(1_200), Some(600), 700, true, Some(false)), RunStep::ScheduledScan);
    assert_eq!(next_step(Some(1_200), Some(600), 700, false, None), RunStep::Stop);
}

#[test]
fn a_poll_answers_only_the_owner() {
    let msg = |id: i64, chat: i64, text: &str| Update {
        update_id: id,
        message: Some(Message { chat: Chat { id: chat }, text: Some(text.into()) }),
    };
    let mut s = State::default();
    let src = [SourceId::Bubilet];
    let updates = vec![msg(10, 7, "/esik 8"), msg(11, 99, "/tara"), msg(12, 7, "/bilmem"), Update { update_id: 13, message: None }];
    let esiks = vec![Some((800, true)), None, None, None];
    let (replies, tara) = answer_updates(&mut s, &updates, &esiks, "7", &src, &cfg(), TODAY);
    assert_eq!(
        replies,
        vec!["✅ Bildirim eşiği %8 olarak ayarlandı (ya da 50 ₺ düşüş).".to_string(), "Bilinmeyen komut. /yardim".to_string()]
    );
    assert!(!tara);
    assert_eq!(s.telegram_offset, 14);
    assert_eq!(s.min_drop_override_basis_points, Some(800));
    let (replies, tara) = answer_updates(&mut s, &vec![msg(20, 7, "/TARA@bilet_bot")], &vec![None], "7", &src, &cfg(), TODAY);
    assert_eq!(replies.len(), 1);
    assert!(tara);
    let (replies, tara) = answer_updates(&mut s, &vec![], &vec![], "7", &src, &cfg(), TODAY);
    assert!(replies.is_empty() && !tara);
    assert_eq!(s.telegram_offset, 21);
}
