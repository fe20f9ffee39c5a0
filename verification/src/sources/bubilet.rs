//! Bubilet: the city page (Next.js) carries, in its RSC stream, the list
//! `"citySlug":"<city>","events":[...]`. An event's sessions and each session's ticket
//! categories (with their discounted prices) come from `platform.api.bubilet.com.tr`.
//!
//! Prices here are in kuruş: the site's TL amounts are rounded to kuruş when the answers are
//! read.

use vstd::prelude::*;
use crate::diff::event_views;
use crate::keyed::{KeyedMap, map_of, only_lowers};
use crate::model::{Event, EventView, EventDate, SourceId, rfc3339, parse_rfc3339, guess_category,
    guess_category_spec, fmt_date_short_spec, pad2, push_pad2, push_date_short, tr_second_of_day,
    tr_day_of, TR_OFFSET_SECS, parse_i64, i64_text};
use crate::text::{chars_of, string_of, push_str, push_string, push_chars, push_i64, int_str, trim,
    trim_str, first_occurrence, find_chars, sub_chars, text_is, chars_eq};

verus! {

/// One event of the city page's list.
pub struct BbEvent {
    pub id: i64,
    pub name: String,
    pub slug: String,
    pub dates: Vec<String>,
    /// The list price, in kuruş.
    pub price: i64,
    /// Whether the site's list price is above zero (in lira, before rounding to kuruş).
    pub price_positive: bool,
    /// The discounted price, in kuruş, when the site gives one above zero (in lira).
    pub discounted_price: Option<i64>,
    pub is_free_ticket: bool,
    pub is_sold_out: bool,
    pub is_marked_sold_out: bool,
    pub venues: Vec<BbVenue>,
}

pub struct BbVenue {
    pub name: String,
}

/// One session of an event.
pub struct Session {
    pub session_id: i64,
    /// The city the session is in; empty when the answer does not say.
    pub city_slug: String,
    pub date: String,
}

/// One ticket category of a session.
pub struct Ticket {
    pub seat_group_name: String,
    /// The list price, in kuruş.
    pub price: i64,
    /// Whether the site's list price is above zero (in lira, before rounding to kuruş).
    pub price_positive: bool,
    /// The discounted price, in kuruş, when the site gives one above zero (in lira).
    pub discounted_price: Option<i64>,
    pub is_free_ticket: bool,
    pub remaining_tickets: i64,
    pub is_active: bool,
    pub is_marked_sold_out: bool,
}

/// An event whose ticket categories are read from the site: one with a price on the list
/// page (one without is free or has no price, and stays as the list page gives it).
pub fn needs_tickets(ev: &Event) -> (r: bool)
    ensures
        r == (ev@.tiers.len() > 0),
{
    !ev.tiers.is_empty()
}

/// The events that stay in the scan, in order: those whose tickets were read (`read`); an
/// event whose tickets could not be read is left out rather than compared incomplete.
pub open spec fn kept_events(evs: Seq<Event>, read: Seq<bool>) -> Seq<Event>
    decreases evs.len(),
{
    if evs.len() == 0 || read.len() != evs.len() {
        Seq::empty()
    } else if read.last() {
        kept_events(evs.drop_last(), read.drop_last()).push(evs.last())
    } else {
        kept_events(evs.drop_last(), read.drop_last())
    }
}

/// Keeps the events whose tickets were read (see `kept_events`).
pub fn keep_read(events: Vec<Event>, read: &Vec<bool>) -> (r: Vec<Event>)
    requires
        read@.len() == events@.len(),
    ensures
        r@ == kept_events(events@, read@),
{
    let ghost all = events@;
    assert(all.len() == events.len());
    let mut rest = events;
    let mut out: Vec<Event> = Vec::new();
    let mut i: usize = 0;
    while rest.len() > 0
        invariant
            0 <= i <= all.len(),
            all.len() <= usize::MAX,
            read@.len() == all.len(),
            rest@ == all.skip(i as int),
            out@ == kept_events(all.take(i as int), read@.take(i as int)),
        decreases rest.len(),
    {
        assert(all.take(i + 1).drop_last() =~= all.take(i as int));
        assert(read@.take(i + 1).drop_last() =~= read@.take(i as int));
        assert(all.skip(i as int)[0] == all[i as int]);
        assert(all.take(i + 1).last() == all[i as int]);
        assert(read@.take(i + 1).last() == read@[i as int]);
        let e = rest.remove(0);
        assert(rest@ =~= all.skip(i + 1));
        if read[i] {
            out.push(e);
        }
        i = i + 1;
    }
    assert(all.take(i as int) =~= all);
    assert(read@.take(i as int) =~= read@);
    out
}

/// A ticket category counts as active unless the answer says otherwise.
pub fn yes() -> (r: bool)
    ensures
        r,
{
    true
}

/// The name of the single category of an event read from the list page.
pub const CHEAPEST: &'static str = "En uygun bilet";

/// The price asked now: the discounted price when there is one (above zero), else the list
/// price.
pub open spec fn current_price(price: i64, discounted: Option<i64>) -> i64 {
    match discounted {
        Some(p) => p,
        None => price,
    }
}

fn current_price_exec(price: i64, discounted: Option<i64>) -> (r: i64)
    ensures
        r == current_price(price, discounted),
{
    match discounted {
        Some(p) => p,
        None => price,
    }
}

/// The price asked now is above zero (in lira): a discounted price is given, or the list
/// price is above zero.
pub open spec fn asks_a_price(price_positive: bool, discounted: Option<i64>) -> bool {
    discounted is Some || price_positive
}

// ---------------------------------------------------------------------------------------------
// The city page
// ---------------------------------------------------------------------------------------------

/// The pattern of the page's RSC pieces, `self.__next_f.push([1,"<JSON string>"])`.
pub const RSC_PUSH: &'static str = r#"self\.__next_f\.push\(\[1,"((?:[^"\\]|\\.)*)"\]\)"#;

/// `regex::Regex::new(pattern)`, then `captures_iter(hay)`: for each match, in order, the text
/// of its group 1 (`None` where group 1 takes no part in the match); `Err` with the error's
/// text where the pattern does not compile.
pub uninterp spec fn regex_group1s(pattern: Seq<char>, hay: Seq<char>) -> Result<Seq<Option<Seq<char>>>, Seq<char>>;

/// The text of an optional string.
pub open spec fn opt_text(o: Option<String>) -> Option<Seq<char>> {
    match o {
        Some(s) => Some(s@),
        None => None,
    }
}

/// Compiles `pattern` with `regex::Regex::new` and keeps group 1 of each match of
/// `captures_iter` over `hay`; the compile error is kept as its message. Only the name of the
/// result is stated.
#[verifier::external_body]
fn group1s(pattern: &str, hay: &str) -> (r: Result<Vec<Option<String>>, String>)
    ensures
        match r {
            Ok(v) => regex_group1s(pattern@, hay@) == Ok::<Seq<Option<Seq<char>>>, Seq<char>>(
                v@.map_values(|o: Option<String>| opt_text(o)),
            ),
            Err(e) => regex_group1s(pattern@, hay@) == Err::<Seq<Option<Seq<char>>>, Seq<char>>(e@),
        },
{
    match regex::Regex::new(pattern) {
        Ok(re) => Ok(re.captures_iter(hay).map(|c| c.get(1).map(|m| m.as_str().to_string())).collect()),
        Err(e) => Err(e.to_string()),
    }
}

/// The characters that `regex::escape` puts a backslash before.
pub open spec fn regex_meta(c: char) -> bool {
    c == '\\' || c == '.' || c == '+' || c == '*' || c == '?' || c == '(' || c == ')' || c == '|'
        || c == '[' || c == ']' || c == '{' || c == '}' || c == '^' || c == '$' || c == '#'
        || c == '&' || c == '-' || c == '~'
}

/// The text with a backslash before each of its `regex_meta` characters.
pub open spec fn regex_escaped(s: Seq<char>) -> Seq<char>
    decreases s.len(),
{
    if s.len() == 0 {
        Seq::empty()
    } else {
        regex_escaped(s.drop_last()) + if regex_meta(s.last()) {
            seq!['\\', s.last()]
        } else {
            seq![s.last()]
        }
    }
}

/// Calls `regex::escape`, which puts a backslash before each meta character of the text.
#[verifier::external_body]
fn regex_escape(s: &str) -> (r: String)
    ensures
        r@ == regex_escaped(s@),
{
    regex::escape(s)
}

/// `serde_json::from_str::<String>`: the string that a JSON string literal denotes, or the
/// text of the parser's error.
pub uninterp spec fn json_string_value(text: Seq<char>) -> Result<Seq<char>, Seq<char>>;

/// Calls `serde_json::from_str::<String>`; an error is kept as its message. Only the name of
/// the result is stated.
#[verifier::external_body]
fn json_string(text: &str) -> (r: Result<String, String>)
    ensures
        match r {
            Ok(s) => json_string_value(text@) == Ok::<Seq<char>, Seq<char>>(s@),
            Err(e) => json_string_value(text@) == Err::<Seq<char>, Seq<char>>(e@),
        },
{
    match serde_json::from_str::<String>(text) {
        Ok(s) => Ok(s),
        Err(e) => Err(e.to_string()),
    }
}

/// The error when an RSC piece is not a valid JSON string.
pub const BAD_PIECE: &'static str = "Bubilet: RSC parçası çözülemedi";

/// The pieces decoded as JSON strings and joined; the first piece that does not decode gives
/// the error, followed by the parser's message (a missing piece gives the error alone).
pub open spec fn joined_payloads(ps: Seq<Option<Seq<char>>>) -> Result<Seq<char>, Seq<char>>
    decreases ps.len(),
{
    if ps.len() == 0 {
        Ok(Seq::empty())
    } else {
        match joined_payloads(ps.drop_last()) {
            Err(e) => Err(e),
            Ok(s) => match ps.last() {
                Some(p) => match json_string_value("\""@ + p + "\""@) {
                    Ok(c) => Ok(s + c),
                    Err(e) => Err(BAD_PIECE@ + ": "@ + e),
                },
                None => Err(BAD_PIECE@),
            },
        }
    }
}

/// Decodes the RSC pieces, each as the JSON string `"<piece>"`, and joins them.
pub fn join_payloads(payloads: &Vec<Option<String>>) -> (r: Result<String, String>)
    ensures
        match r {
            Ok(s) => joined_payloads(payloads@.map_values(|p: Option<String>| opt_text(p))) == Ok::<Seq<char>, Seq<char>>(s@),
            Err(e) => joined_payloads(payloads@.map_values(|p: Option<String>| opt_text(p))) == Err::<Seq<char>, Seq<char>>(e@),
        },
{
    let ghost pv = payloads@.map_values(|p: Option<String>| opt_text(p));
    let mut out: Vec<char> = Vec::new();
    let mut i: usize = 0;
    while i < payloads.len()
        invariant
            0 <= i <= payloads@.len(),
            pv == payloads@.map_values(|p: Option<String>| opt_text(p)),
            joined_payloads(pv.take(i as int)) == Ok::<Seq<char>, Seq<char>>(out@),
        decreases payloads.len() - i,
    {
        assert(pv.take(i + 1).drop_last() =~= pv.take(i as int));
        assert(pv.take(i + 1).last() == opt_text(payloads@[i as int]));
        let piece = match &payloads[i] {
            Some(p) => p,
            None => {
                let r = String::from_str(BAD_PIECE);
                assert(joined_payloads(pv.take(i + 1)) == Err::<Seq<char>, Seq<char>>(r@));
                proof {
                    lemma_joined_err(pv, i as int + 1);
                }
                return Err(r);
            },
        };
        let mut q: Vec<char> = Vec::new();
        push_str(&mut q, "\"");
        push_string(&mut q, piece);
        push_str(&mut q, "\"");
        let qs = string_of(&q);
        match json_string(qs.as_str()) {
            Ok(c) => {
                push_string(&mut out, &c);
            },
            Err(e) => {
                let mut m: Vec<char> = Vec::new();
                push_str(&mut m, BAD_PIECE);
                push_str(&mut m, ": ");
                push_string(&mut m, &e);
                let r = string_of(&m);
                assert(joined_payloads(pv.take(i + 1)) == Err::<Seq<char>, Seq<char>>(r@));
                proof {
                    lemma_joined_err(pv, i as int + 1);
                }
                return Err(r);
            },
        }
        i = i + 1;
    }
    assert(pv.take(i as int) =~= pv);
    Ok(string_of(&out))
}

proof fn lemma_joined_err(ps: Seq<Option<Seq<char>>>, k: int)
    requires
        0 <= k <= ps.len(),
        joined_payloads(ps.take(k)) is Err,
    ensures
        joined_payloads(ps) == joined_payloads(ps.take(k)),
    decreases ps.len() - k,
{
    if k < ps.len() {
        assert(ps.take(k + 1).drop_last() =~= ps.take(k));
        lemma_joined_err(ps, k + 1);
    } else {
        assert(ps.take(k) =~= ps);
    }
}

/// The page's RSC stream: its pieces (group 1 of each match of `RSC_PUSH`) decoded and
/// joined; the pattern's compile error, if it had one.
pub open spec fn rsc_stream_spec(html: Seq<char>) -> Result<Seq<char>, Seq<char>> {
    match regex_group1s(RSC_PUSH@, html) {
        Ok(ps) => joined_payloads(ps),
        Err(e) => Err(e),
    }
}

/// The page's RSC stream: its pieces decoded and joined.
pub fn rsc_stream(html: &str) -> (r: Result<String, String>)
    ensures
        match r {
            Ok(s) => rsc_stream_spec(html@) == Ok::<Seq<char>, Seq<char>>(s@),
            Err(e) => rsc_stream_spec(html@) == Err::<Seq<char>, Seq<char>>(e@),
        },
{
    match group1s(RSC_PUSH, html) {
        Ok(ps) => join_payloads(&ps),
        Err(e) => Err(e),
    }
}

/// What precedes the city's id in the stream, as a pattern: `"cityId":` and the digits
/// (group 1), then the city's name.
pub const CITY_ID_HEAD: &'static str = r#""cityId":(\d+),"cityName":"[^"]*","citySlug":""#;

/// The pattern that finds the city's id: `CITY_ID_HEAD`, the slug escaped, and a quote.
pub open spec fn city_pattern(slug: Seq<char>) -> Seq<char> {
    CITY_ID_HEAD@ + regex_escaped(slug) + "\""@
}

/// The digits of the city's id: group 1 of the first match of `city_pattern`, if there is
/// one and the pattern compiles.
pub open spec fn city_id_digits(stream: Seq<char>, slug: Seq<char>) -> Option<Seq<char>> {
    match regex_group1s(city_pattern(slug), stream) {
        Ok(gs) => if gs.len() > 0 {
            gs[0]
        } else {
            None
        },
        Err(_) => None,
    }
}

/// The error when the city's id is not on the page.
pub const NO_CITY_ID: &'static str = "Bubilet: şehir kimliği bulunamadı (site yapısı değişmiş olabilir)";

/// The city's id on the site, read from the stream.
pub fn city_id(stream: &str, city_slug: &str) -> (r: Option<i64>)
    ensures
        r == match city_id_digits(stream@, city_slug@) {
            Some(t) => i64_text(t),
            None => None,
        },
{
    let esc = regex_escape(city_slug);
    let mut p: Vec<char> = Vec::new();
    push_str(&mut p, CITY_ID_HEAD);
    push_string(&mut p, &esc);
    push_str(&mut p, "\"");
    assert(p@ =~= city_pattern(city_slug@));
    let pattern = string_of(&p);
    match group1s(pattern.as_str(), stream) {
        Ok(gs) => if gs.len() > 0 {
            match &gs[0] {
                Some(t) => parse_i64(t.as_str()),
                None => None,
            }
        } else {
            None
        },
        Err(_) => None,
    }
}

/// What precedes the city's event list in the stream.
pub open spec fn listing_marker(slug: Seq<char>) -> Seq<char> {
    "\"citySlug\":\""@ + slug + "\",\"events\":"@
}

/// The error when the stream has no event list for the city.
pub const NO_LIST: &'static str = "Bubilet: sayfada etkinlik listesi bulunamadı (site yapısı değişmiş olabilir)";

/// The stream after the first `listing_marker`, where the city's event list begins.
pub open spec fn listing_tail_spec(stream: Seq<char>, slug: Seq<char>) -> Result<Seq<char>, Seq<char>> {
    match first_occurrence(stream, listing_marker(slug)) {
        Some(i) => Ok(stream.skip(i + listing_marker(slug).len())),
        None => Err(NO_LIST@),
    }
}

proof fn lemma_tail_found(stream: Seq<char>, slug: Seq<char>, i: int)
    requires
        first_occurrence(stream, listing_marker(slug)) == Some(i),
    ensures
        listing_tail_spec(stream, slug) == Ok::<Seq<char>, Seq<char>>(stream.skip(i + listing_marker(slug).len())),
{
}

/// The part of the stream where the city's event list begins.
pub fn listing_tail(stream: &str, city_slug: &str) -> (r: Result<String, String>)
    ensures
        match r {
            Ok(t) => listing_tail_spec(stream@, city_slug@) == Ok::<Seq<char>, Seq<char>>(t@),
            Err(e) => listing_tail_spec(stream@, city_slug@) == Err::<Seq<char>, Seq<char>>(e@),
        },
{
    let mut m: Vec<char> = Vec::new();
    push_str(&mut m, "\"citySlug\":\"");
    push_str(&mut m, city_slug);
    push_str(&mut m, "\",\"events\":");
    assert(m@ =~= listing_marker(city_slug@));
    let s = chars_of(stream);
    let found = find_chars(&s, &m);
    match found {
        Some(i) => {
            let sl = s.len();
            assert(crate::text::occurs_at(s@, m@, i as int));
            let t = sub_chars(&s, i + m.len(), sl);
            assert(t@ =~= stream@.skip(i + m@.len()));
            let r = string_of(&t);
            proof {
                lemma_tail_found(stream@, city_slug@, i as int);
            }
            Ok(r)
        },
        None => {
            let r = String::from_str(NO_LIST);
            Err(r)
        },
    }
}

/// The error when nothing follows the list's marker.
pub const EMPTY_LIST: &'static str = "Bubilet: etkinlik listesi boş";

/// The error when the list does not read as events.
pub const BAD_LIST: &'static str = "Bubilet: etkinlik listesi çözülemedi";

/// The event a list entry describes: one category, "En uygun bilet", at the price asked now
/// (none for a free event or one without a price), with the list price when it is higher.
pub open spec fn listing_event(e: BbEvent, city: Seq<char>) -> EventView {
    let cur = current_price(e.price, e.discounted_price);
    let priced = !e.is_free_ticket && asks_a_price(e.price_positive, e.discounted_price);
    let title = trim(e.name@);
    EventView {
        source: SourceId::Bubilet,
        id: int_str(e.id as int),
        title: title,
        venue: if e.venues@.len() > 0 {
            trim(e.venues@[0].name@)
        } else {
            Seq::empty()
        },
        date: if e.dates@.len() > 0 {
            rfc3339(e.dates@[0]@)
        } else {
            None
        },
        category: guess_category_spec(title),
        url: "https://www.bubilet.com.tr/"@ + city + "/etkinlik/"@ + e.slug@,
        tiers: if priced {
            seq![(CHEAPEST@, cur)]
        } else {
            Seq::empty()
        },
        sold_out: e.is_sold_out || e.is_marked_sold_out,
        list_prices: if priced && e.price > cur {
            seq![(CHEAPEST@, e.price)]
        } else {
            Seq::empty()
        },
    }
}

pub open spec fn listing_events_spec(items: Seq<BbEvent>, city: Seq<char>) -> Seq<EventView> {
    items.map_values(|e: BbEvent| listing_event(e, city))
}

fn one_price(price: i64) -> (m: KeyedMap<i64>)
    ensures
        m@ == seq![(CHEAPEST@, price)],
{
    let mut m: KeyedMap<i64> = KeyedMap::new();
    m.push_last(String::from_str(CHEAPEST), price);
    assert(m@ =~= seq![(CHEAPEST@, price)]);
    m
}

/// An event read from the list page is sold out exactly when the entry is flagged
/// `isSoldOut` or `isMarkedSoldOut` (either one alone is enough).
pub proof fn listing_sold_out_by_either_flag(e: BbEvent, city: Seq<char>)
    ensures
        e.is_sold_out ==> listing_event(e, city).sold_out,
        e.is_marked_sold_out ==> listing_event(e, city).sold_out,
        !e.is_sold_out && !e.is_marked_sold_out ==> !listing_event(e, city).sold_out,
{
}

fn listing_event_exec(e: &BbEvent, city_slug: &str) -> (r: Event)
    ensures
        r@ == listing_event(*e, city_slug@),
{
    let cur = current_price_exec(e.price, e.discounted_price);
    let priced = !e.is_free_ticket && (e.discounted_price.is_some() || e.price_positive);
    let title = string_of(&trim_str(e.name.as_str()));
    let mut id: Vec<char> = Vec::new();
    push_i64(&mut id, e.id);
    let venue: Vec<char> = if e.venues.len() > 0 {
        trim_str(e.venues[0].name.as_str())
    } else {
        Vec::new()
    };
    let date: Option<EventDate> = if e.dates.len() > 0 {
        parse_rfc3339(e.dates[0].as_str())
    } else {
        None
    };
    let mut url: Vec<char> = Vec::new();
    push_str(&mut url, "https://www.bubilet.com.tr/");
    push_str(&mut url, city_slug);
    push_str(&mut url, "/etkinlik/");
    push_string(&mut url, &e.slug);
    let tiers = if priced {
        one_price(cur)
    } else {
        KeyedMap::new()
    };
    let list_prices = if priced && e.price > cur {
        one_price(e.price)
    } else {
        KeyedMap::new()
    };
    let category = guess_category(title.as_str());
    let ev = Event {
        source: SourceId::Bubilet,
        id: string_of(&id),
        title: title,
        venue: string_of(&venue),
        date: date,
        category: category,
        url: string_of(&url),
        tiers: tiers,
        sold_out: e.is_sold_out || e.is_marked_sold_out,
        list_prices: list_prices,
    };
    assert(ev@.tiers =~= listing_event(*e, city_slug@).tiers);
    assert(ev@.list_prices =~= listing_event(*e, city_slug@).list_prices);
    assert(ev@ == listing_event(*e, city_slug@));
    ev
}

/// The events of the city page's list, each with its cheapest price only.
pub fn events_from_listing(items: &Vec<BbEvent>, city_slug: &str) -> (r: Vec<Event>)
    ensures
        event_views(r@) == listing_events_spec(items@, city_slug@),
{
    let mut out: Vec<Event> = Vec::new();
    let mut i: usize = 0;
    while i < items.len()
        invariant
            0 <= i <= items@.len(),
            event_views(out@) == listing_events_spec(items@.take(i as int), city_slug@),
        decreases items.len() - i,
    {
        let e = listing_event_exec(&items[i], city_slug);
        let ghost before = event_views(out@);
        out.push(e);
        assert(listing_events_spec(items@.take(i + 1), city_slug@) =~= listing_events_spec(
            items@.take(i as int),
            city_slug@,
        ).push(listing_event(items@[i as int], city_slug@)));
        assert(event_views(out@) =~= before.push(e@));
        i = i + 1;
    }
    assert(items@.take(i as int) =~= items@);
    out
}

/// The events of the list as it was read after the marker: `None` when nothing followed it,
/// `Err` with the reader's message when it did not read as events.
pub fn listing_events(decoded: Option<Result<Vec<BbEvent>, String>>, city_slug: &str) -> (r: Result<Vec<Event>, String>)
    ensures
        match decoded {
            None => r matches Err(e) && e@ == EMPTY_LIST@,
            Some(Err(m)) => r matches Err(e) && e@ == BAD_LIST@ + ": "@ + m@,
            Some(Ok(items)) => r matches Ok(evs) && event_views(evs@) == listing_events_spec(items@, city_slug@),
        },
{
    match decoded {
        None => Err(String::from_str(EMPTY_LIST)),
        Some(Err(m)) => {
            let mut out: Vec<char> = Vec::new();
            push_str(&mut out, BAD_LIST);
            push_str(&mut out, ": ");
            push_string(&mut out, &m);
            Err(string_of(&out))
        },
        Some(Ok(items)) => Ok(events_from_listing(&items, city_slug)),
    }
}

// ---------------------------------------------------------------------------------------------
// Sessions and tickets
// ---------------------------------------------------------------------------------------------

/// The sessions in the city (a session that names no city counts as in it), in order.
pub open spec fn sessions_in_city_spec(ss: Seq<Session>, slug: Seq<char>) -> Seq<Session>
    decreases ss.len(),
{
    if ss.len() == 0 {
        ss
    } else if ss.last().city_slug@.len() == 0 || ss.last().city_slug@ == slug {
        sessions_in_city_spec(ss.drop_last(), slug).push(ss.last())
    } else {
        sessions_in_city_spec(ss.drop_last(), slug)
    }
}

/// Keeps the sessions in the city.
pub fn sessions_in_city(sessions: Vec<Session>, city_slug: &str) -> (r: Vec<Session>)
    ensures
        r@ == sessions_in_city_spec(sessions@, city_slug@),
{
    let ghost all = sessions@;
    let slug = chars_of(city_slug);
    let mut rest = sessions;
    let mut out: Vec<Session> = Vec::new();
    let n = rest.len();
    let mut i: usize = 0;
    while rest.len() > 0
        invariant
            n == all.len(),
            i + rest@.len() == n,
            rest@ == all.skip(i as int),
            slug@ == city_slug@,
            out@ == sessions_in_city_spec(all.take(i as int), city_slug@),
        decreases rest.len(),
    {
        assert(all.skip(i as int)[0] == all[i as int]);
        assert(all.take(i + 1).drop_last() =~= all.take(i as int));
        assert(all.take(i + 1).last() == all[i as int]);
        let s = rest.remove(0);
        assert(rest@ =~= all.skip(i + 1));
        let c = chars_of(s.city_slug.as_str());
        if c.len() == 0 || chars_eq(&c, &slug) {
            out.push(s);
        }
        i = i + 1;
    }
    assert(all.take(i as int) =~= all);
    out
}

/// What a category's name starts with when an event has several sessions in the city:
/// "22 Kas 12:30 · " (the session's Turkish date and time); nothing for a single session or a
/// session whose date does not read.
pub open spec fn session_prefix_spec(date: Seq<char>, multiple: bool) -> Seq<char> {
    if multiple {
        match rfc3339(date) {
            Some(d) => {
                let sod = tr_second_of_day(d.secs as int);
                fmt_date_short_spec(d) + " "@ + pad2(sod / 3600) + ":"@ + pad2((sod % 3600) / 60) + " · "@
            },
            None => Seq::empty(),
        }
    } else {
        Seq::empty()
    }
}

/// The prefix of a session's category names (see `session_prefix_spec`).
pub fn session_prefix(date: &str, multiple: bool) -> (r: String)
    ensures
        r@ == session_prefix_spec(date@, multiple),
{
    let mut out: Vec<char> = Vec::new();
    if multiple {
        match parse_rfc3339(date) {
            Some(d) => {
                push_date_short(&mut out, &d);
                let day = tr_day_of(&d);
                let t: i128 = d.secs as i128 + TR_OFFSET_SECS as i128 - (day as i128) * 86400;
                assert(t == tr_second_of_day(d.secs as int)) by (nonlinear_arith)
                    requires
                        t == d.secs + TR_OFFSET_SECS - day * 86400,
                        day == (d.secs + TR_OFFSET_SECS) / 86400,
                ;
                push_str(&mut out, " ");
                push_pad2(&mut out, (t / 3600) as i64);
                push_str(&mut out, ":");
                push_pad2(&mut out, ((t % 3600) / 60) as i64);
                push_str(&mut out, " · ");
            },
            None => {},
        }
    }
    let r = string_of(&out);
    assert(r@ =~= session_prefix_spec(date@, multiple));
    r
}

/// A ticket category is on sale: not free, active, not marked sold out, with tickets left and
/// a price above zero.
pub open spec fn ticket_on_sale(t: Ticket) -> bool {
    !t.is_free_ticket && t.is_active && !t.is_marked_sold_out && t.remaining_tickets > 0 && asks_a_price(
        t.price_positive,
        t.discounted_price,
    )
}

/// One ticket's effect on the categories and their list prices: a category on sale is named
/// `prefix` + its trimmed name; the cheapest ticket of a name wins, and its list price is kept
/// only when above the price asked now.
pub open spec fn ticket_step(acc: (Map<Seq<char>, i64>, Map<Seq<char>, i64>), prefix: Seq<char>, t: Ticket) -> (
    Map<Seq<char>, i64>,
    Map<Seq<char>, i64>,
) {
    if !ticket_on_sale(t) {
        acc
    } else {
        let name = prefix + trim(t.seat_group_name@);
        let now = current_price(t.price, t.discounted_price);
        if acc.0.contains_key(name) && acc.0[name] <= now {
            acc
        } else {
            (acc.0.insert(name, now), if t.price > now {
                acc.1.insert(name, t.price)
            } else {
                acc.1.remove(name)
            })
        }
    }
}

pub open spec fn tickets_step(acc: (Map<Seq<char>, i64>, Map<Seq<char>, i64>), prefix: Seq<char>, ts: Seq<Ticket>) -> (
    Map<Seq<char>, i64>,
    Map<Seq<char>, i64>,
)
    decreases ts.len(),
{
    if ts.len() == 0 {
        acc
    } else {
        ticket_step(tickets_step(acc, prefix, ts.drop_last()), prefix, ts.last())
    }
}

/// The categories (name to price now) and list prices of all sessions' tickets, in order.
pub open spec fn session_tickets(ss: Seq<(String, Vec<Ticket>)>) -> (Map<Seq<char>, i64>, Map<Seq<char>, i64>)
    decreases ss.len(),
{
    if ss.len() == 0 {
        (Map::empty(), Map::empty())
    } else {
        tickets_step(session_tickets(ss.drop_last()), ss.last().0@, ss.last().1@)
    }
}

/// Some session has a ticket in its list.
pub open spec fn any_ticket(ss: Seq<(String, Vec<Ticket>)>) -> bool {
    exists|i: int| 0 <= i < ss.len() && (#[trigger] ss[i]).1@.len() > 0
}

fn ticket_name(prefix: &String, t: &Ticket) -> (r: String)
    ensures
        r@ == prefix@ + trim(t.seat_group_name@),
{
    let mut n: Vec<char> = Vec::new();
    push_string(&mut n, prefix);
    push_chars(&mut n, &trim_str(t.seat_group_name.as_str()));
    string_of(&n)
}

/// Turns the sessions' tickets (each session with the prefix of its category names) into the
/// event's categories. When no session lists any ticket, the event keeps what the list page
/// gave; otherwise its categories and list prices are replaced, and it counts as sold out when
/// no category is on sale.
pub fn apply_tickets(ev: &mut Event, sessions: &[(String, Vec<Ticket>)])
    ensures
        !any_ticket(sessions@) ==> *final(ev) == *old(ev),
        any_ticket(sessions@) ==> {
            &&& final(ev).tiers.to_map() == session_tickets(sessions@).0
            &&& final(ev).list_prices.to_map() == session_tickets(sessions@).1
            &&& final(ev).sold_out == (old(ev).sold_out || final(ev).tiers@.len() == 0)
            &&& final(ev).source == old(ev).source
            &&& final(ev).id == old(ev).id
            &&& final(ev).title == old(ev).title
            &&& final(ev).venue == old(ev).venue
            &&& final(ev).date == old(ev).date
            &&& final(ev).category == old(ev).category
            &&& final(ev).url == old(ev).url
        },
{
    let mut tiers: KeyedMap<i64> = KeyedMap::new();
    let mut list: KeyedMap<i64> = KeyedMap::new();
    assert(tiers.to_map() =~= Map::<Seq<char>, i64>::empty());
    assert(list.to_map() =~= Map::<Seq<char>, i64>::empty());
    let mut any = false;
    let mut i: usize = 0;
    while i < sessions.len()
        invariant
            0 <= i <= sessions@.len(),
            (tiers.to_map(), list.to_map()) == session_tickets(sessions@.take(i as int)),
            any == any_ticket(sessions@.take(i as int)),
        decreases sessions.len() - i,
    {
        assert(sessions@.take(i + 1).drop_last() =~= sessions@.take(i as int));
        assert(sessions@.take(i + 1).last() == sessions@[i as int]);
        let prefix = &sessions[i].0;
        let tickets = &sessions[i].1;
        let ghost acc0 = (tiers.to_map(), list.to_map());
        let mut j: usize = 0;
        while j < tickets.len()
            invariant
                0 <= j <= tickets@.len(),
                (tiers.to_map(), list.to_map()) == tickets_step(acc0, prefix@, tickets@.take(j as int)),
            decreases tickets.len() - j,
        {
            assert(tickets@.take(j + 1).drop_last() =~= tickets@.take(j as int));
            assert(tickets@.take(j + 1).last() == tickets@[j as int]);
            let t = &tickets[j];
            let now = current_price_exec(t.price, t.discounted_price);
            if !t.is_free_ticket && t.is_active && !t.is_marked_sold_out && t.remaining_tickets > 0 && (
            t.discounted_price.is_some() || t.price_positive) {
                let name = ticket_name(prefix, t);
                let cheaper_known = match tiers.get(&name) {
                    Some(p) => *p <= now,
                    None => false,
                };
                if !cheaper_known {
                    tiers.insert(name.clone(), now);
                    if t.price > now {
                        list.insert(name, t.price);
                    } else {
                        list.remove(&name);
                    }
                }
            }
            j = j + 1;
        }
        assert(tickets@.take(j as int) =~= tickets@);
        proof {
            let pre = sessions@.take(i as int);
            let post = sessions@.take(i + 1);
            if any_ticket(pre) {
                let k = choose|k: int| 0 <= k < pre.len() && (#[trigger] pre[k]).1@.len() > 0;
                assert(post[k] == pre[k]);
            }
            if tickets@.len() > 0 {
                assert(post[i as int].1@.len() > 0);
            }
            if any_ticket(post) {
                let k = choose|k: int| 0 <= k < post.len() && (#[trigger] post[k]).1@.len() > 0;
                if k < i {
                    assert(pre[k] == post[k]);
                }
            }
        }
        if tickets.len() > 0 {
            any = true;
        }
        i = i + 1;
    }
    assert(sessions@.take(i as int) =~= sessions@);
    if !any {
        return;
    }
    ev.sold_out = ev.sold_out || tiers.is_empty();
    ev.tiers = tiers;
    ev.list_prices = list;
}

// ---------------------------------------------------------------------------------------------
// What the tickets give
// ---------------------------------------------------------------------------------------------

/// Every list price belongs to a category and is above the price asked now.
pub open spec fn lists_only_discounts(acc: (Map<Seq<char>, i64>, Map<Seq<char>, i64>)) -> bool {
    forall|k: Seq<char>| #[trigger] acc.1.contains_key(k) ==> acc.0.contains_key(k) && acc.1[k] > acc.0[k]
}

proof fn lemma_ticket_step(acc: (Map<Seq<char>, i64>, Map<Seq<char>, i64>), prefix: Seq<char>, t: Ticket)
    ensures
        lists_only_discounts(acc) ==> lists_only_discounts(ticket_step(acc, prefix, t)),
        only_lowers(acc.0, ticket_step(acc, prefix, t).0),
        ticket_on_sale(t) ==> ticket_step(acc, prefix, t).0.contains_key(prefix + trim(t.seat_group_name@))
            && ticket_step(acc, prefix, t).0[prefix + trim(t.seat_group_name@)] <= current_price(t.price, t.discounted_price),
{
    let r = ticket_step(acc, prefix, t);
    if ticket_on_sale(t) {
        let name = prefix + trim(t.seat_group_name@);
        let now = current_price(t.price, t.discounted_price);
        if !(acc.0.contains_key(name) && acc.0[name] <= now) {
            if lists_only_discounts(acc) {
                assert forall|k: Seq<char>| #[trigger] r.1.contains_key(k) implies r.0.contains_key(k) && r.1[k] > r.0[k] by {
                    if k != name {
                        assert(acc.1.contains_key(k));
                    }
                }
            }
        }
    }
}

proof fn lemma_tickets_step(acc: (Map<Seq<char>, i64>, Map<Seq<char>, i64>), prefix: Seq<char>, ts: Seq<Ticket>)
    ensures
        lists_only_discounts(acc) ==> lists_only_discounts(tickets_step(acc, prefix, ts)),
        only_lowers(acc.0, tickets_step(acc, prefix, ts).0),
        forall|j: int| 0 <= j < ts.len() && ticket_on_sale(#[trigger] ts[j]) ==> tickets_step(acc, prefix, ts).0.contains_key(
            prefix + trim(ts[j].seat_group_name@),
        ) && tickets_step(acc, prefix, ts).0[prefix + trim(ts[j].seat_group_name@)] <= current_price(
            ts[j].price,
            ts[j].discounted_price,
        ),
    decreases ts.len(),
{
    if ts.len() > 0 {
        let a = tickets_step(acc, prefix, ts.drop_last());
        lemma_tickets_step(acc, prefix, ts.drop_last());
        lemma_ticket_step(a, prefix, ts.last());
        let r = tickets_step(acc, prefix, ts);
        assert forall|j: int| 0 <= j < ts.len() && ticket_on_sale(#[trigger] ts[j]) implies r.0.contains_key(
            prefix + trim(ts[j].seat_group_name@),
        ) && r.0[prefix + trim(ts[j].seat_group_name@)] <= current_price(ts[j].price, ts[j].discounted_price) by {
            if j < ts.len() - 1 {
                assert(ts.drop_last()[j] == ts[j]);
                let k = prefix + trim(ts[j].seat_group_name@);
                assert(a.0.contains_key(k));
            }
        }
    }
}

/// The sessions' tickets give a list price only to a discounted category: every list price
/// belongs to a category and is above the price asked now.
pub proof fn ticket_list_prices_are_discounts(ss: Seq<(String, Vec<Ticket>)>)
    ensures
        lists_only_discounts(session_tickets(ss)),
    decreases ss.len(),
{
    if ss.len() > 0 {
        ticket_list_prices_are_discounts(ss.drop_last());
        lemma_tickets_step(session_tickets(ss.drop_last()), ss.last().0@, ss.last().1@);
    }
}

/// The cheapest ticket of a name wins: every ticket on sale has its category (the session's
/// prefix and its trimmed name) among the categories, at its price now or lower.
pub proof fn ticket_category_is_cheapest(ss: Seq<(String, Vec<Ticket>)>)
    ensures
        forall|i: int, j: int|
            0 <= i < ss.len() && 0 <= j < ss[i].1@.len() && ticket_on_sale(#[trigger] ss[i].1@[j]) ==> {
                let t = ss[i].1@[j];
                let name = ss[i].0@ + trim(t.seat_group_name@);
                session_tickets(ss).0.contains_key(name) && session_tickets(ss).0[name] <= current_price(
                    t.price,
                    t.discounted_price,
                )
            },
    decreases ss.len(),
{
    if ss.len() > 0 {
        let prev = ss.drop_last();
        ticket_category_is_cheapest(prev);
        let a = session_tickets(prev);
        lemma_tickets_step(a, ss.last().0@, ss.last().1@);
        let r = session_tickets(ss);
        assert forall|i: int, j: int|
            0 <= i < ss.len() && 0 <= j < ss[i].1@.len() && ticket_on_sale(#[trigger] ss[i].1@[j]) implies {
                let t = ss[i].1@[j];
                let name = ss[i].0@ + trim(t.seat_group_name@);
                r.0.contains_key(name) && r.0[name] <= current_price(t.price, t.discounted_price)
            } by {
            if i < ss.len() - 1 {
                assert(prev[i] == ss[i]);
                let t = ss[i].1@[j];
                let name = ss[i].0@ + trim(t.seat_group_name@);
                assert(a.0.contains_key(name));
            } else {
                assert(ss[i] == ss.last());
            }
        }
    }
}

/// An event of the city page's list has a list price only for a discounted category.
pub proof fn listing_list_prices_are_discounts(e: BbEvent, city: Seq<char>)
    ensures
        lists_only_discounts((map_of(listing_event(e, city).tiers), map_of(listing_event(e, city).list_prices))),
{
    let v = listing_event(e, city);
    let t = map_of(v.tiers);
    let l = map_of(v.list_prices);
    assert forall|k: Seq<char>| #[trigger] l.contains_key(k) implies t.contains_key(k) && l[k] > t[k] by {
        crate::keyed::lemma_map_of_index(v.list_prices, 0);
        crate::keyed::lemma_map_of_index(v.tiers, 0);
        assert(crate::keyed::has_key(v.list_prices, k));
        assert(v.list_prices[0].0 == k);
    }
}

} // verus!
