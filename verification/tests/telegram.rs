use bilet_takip::telegram::{after_send, split, SendReply, SendStep, MAX_LEN};

#[test]
fn splits_long_text_on_lines() {
    let text = "satır\n".repeat(2000);
    let parts = split(&text);
    assert!(parts.len() > 1);
    assert!(parts.iter().all(|p| p.chars().count() <= MAX_LEN));
    assert_eq!(parts.concat(), text);
}

#[test]
fn short_text_is_one_part() {
    assert_eq!(split("merhaba\ndünya"), vec!["merhaba\ndünya".to_string()]);
    assert!(split("").is_empty());
}

#[test]
fn a_line_longer_than_the_limit_stays_whole() {
    let long = "x".repeat(MAX_LEN + 10);
    let text = format!("a\n{long}\nb");
    let parts = split(&text);
    assert_eq!(parts, vec!["a\n".to_string(), format!("{long}\n"), "b".to_string()]);
}

#[test]
fn answers_to_sending() {
    assert!(matches!(after_send(SendReply::Sent), SendStep::Done));
    assert!(matches!(after_send(SendReply::RetryAfter(3)), SendStep::Wait(4)));
    match after_send(SendReply::Refused("{\"ok\":false}".into())) {
        SendStep::Fail(m) => assert_eq!(m, "Telegram sendMessage hatası: {\"ok\":false}"),
        _ => panic!("expected a failure"),
    }
}

#[test]
fn parts_are_filled_before_a_new_one_starts() {
    let line = "satır\n";
    let text = line.repeat(2000);
    let parts = split(&text);
    for w in parts.windows(2) {
        assert!(w[1].starts_with(line));
        assert!(w[0].chars().count() + line.chars().count() > MAX_LEN);
    }
}
