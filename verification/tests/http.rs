use bilet_takip::http::page_problem;

#[test]
fn usable_pages_and_problems() {
    assert_eq!(page_problem(200, "200 OK", "<html>ok</html>", "https://x"), None);
    assert_eq!(
        page_problem(403, "403 Forbidden", "<title>Just a moment...</title>", "https://x"),
        Some("Cloudflare bot koruması engelledi (403 Forbidden): https://x".to_string())
    );
    assert_eq!(
        page_problem(200, "200 OK", "<title>Just a moment...</title>", "https://x"),
        Some("Cloudflare bot koruması engelledi (200 OK): https://x".to_string())
    );
    assert_eq!(page_problem(404, "404 Not Found", "yok", "https://x/y"), Some("HTTP 404 Not Found: https://x/y".to_string()));
    assert_eq!(page_problem(299, "299", "", "u"), None);
    assert_eq!(page_problem(300, "300 Multiple Choices", "", "u"), Some("HTTP 300 Multiple Choices: u".to_string()));
}
