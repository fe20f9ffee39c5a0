//! Judging a fetched page before it is read.

use vstd::prelude::*;
use crate::text::{chars_of, string_of, push_str, contains_seq, contains_chars};

verus! {

/// The title of Cloudflare's bot check page.
pub const BOT_CHECK: &'static str = "<title>Just a moment...</title>";

/// Why a fetched page cannot be used: the bot check page, or a status other than 2xx. `status`
/// is the status as written in messages ("403 Forbidden").
pub open spec fn page_problem_spec(code: u16, status: Seq<char>, body: Seq<char>, url: Seq<char>) -> Option<Seq<char>> {
    if contains_seq(body, BOT_CHECK@) {
        Some("Cloudflare bot koruması engelledi ("@ + status + "): "@ + url)
    } else if !(200 <= code <= 299) {
        Some("HTTP "@ + status + ": "@ + url)
    } else {
        None
    }
}

/// The error for a fetched page that cannot be used, if any (see `page_problem_spec`).
pub fn page_problem(code: u16, status: &str, body: &str, url: &str) -> (r: Option<String>)
    ensures
        r matches Some(e) ==> page_problem_spec(code, status@, body@, url@) == Some(e@),
        r is None <==> page_problem_spec(code, status@, body@, url@) is None,
{
    let mut out: Vec<char> = Vec::new();
    if contains_chars(&chars_of(body), &chars_of(BOT_CHECK)) {
        push_str(&mut out, "Cloudflare bot koruması engelledi (");
        push_str(&mut out, status);
        push_str(&mut out, "): ");
        push_str(&mut out, url);
    } else if !(200 <= code && code <= 299) {
        push_str(&mut out, "HTTP ");
        push_str(&mut out, status);
        push_str(&mut out, ": ");
        push_str(&mut out, url);
    } else {
        return None;
    }
    let r = string_of(&out);
    assert(page_problem_spec(code, status@, body@, url@) == Some(r@));
    Some(r)
}

} // verus!
