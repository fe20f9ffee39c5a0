//! Biletinial: the category and city list page names the events' pages in a JSON-LD
//! `ItemList`; an event's page describes each session (JSON-LD `Event`) and carries each
//! session's category prices (`data-ticketprices`). Only the sessions in the city count.

use vstd::prelude::*;
use chrono::TimeZone;
use crate::diff::event_views;
use crate::keyed::{KeyedMap, map_of, lemma_map_of_empty};
use crate::model::{Event, EventView, EventDate, SourceId, rfc3339, parse_rfc3339, fold_seq, fold_chars,
    contains_str, guess_category, guess_category_spec, tl_value, parse_tl, last_index_of,
    TR_OFFSET_SECS};
use crate::text::{chars_of, string_of, push_str, push_string, push_chars, trim, trim_chars, trim_str,
    contains_seq, contains_chars, ends_with, occurs_at_exec, sub_chars, text_is, chars_eq, copy_chars};

verus! {

// ---------------------------------------------------------------------------------------------
// What the pages hold
// ---------------------------------------------------------------------------------------------

/// `scraper` (with its `deterministic` feature, so that attributes keep the page's order):
/// the page parsed with `Html::parse_document`, the elements that the CSS selector `selector`
/// (parsed with `Selector::parse`) picks, in document order: the inner HTML of each; none
/// where the selector does not parse.
pub uninterp spec fn selected_inner_html(html: Seq<char>, selector: Seq<char>) -> Seq<Seq<char>>;

/// Parses the page with `scraper::Html::parse_document` and the selector with
/// `scraper::Selector::parse`, and keeps the `inner_html` of each element selected (nothing
/// when the selector does not parse). The crate is built with `scraper`'s `deterministic`
/// feature: attributes are held in an `IndexMap` and written in the order the page gives
/// them, so the text depends on the page and the selector alone. Only the name of the result
/// is stated.
#[verifier::external_body]
fn inner_html_of(html: &str, selector: &str) -> (r: Vec<String>)
    ensures
        r@.map_values(|s: String| s@) == selected_inner_html(html@, selector@),
{
    let doc = scraper::Html::parse_document(html);
    match scraper::Selector::parse(selector) {
        Ok(sel) => doc.select(&sel).map(|s| s.inner_html()).collect(),
        Err(_) => Vec::new(),
    }
}

/// The selector of the JSON-LD script elements.
pub const LD_JSON: &'static str = r#"script[type="application/ld+json"]"#;

/// The `<script type="application/ld+json">` elements of a page: their inner HTML, in
/// document order.
pub open spec fn ld_json_scripts(html: Seq<char>) -> Seq<Seq<char>> {
    selected_inner_html(html, LD_JSON@)
}

/// The texts of the page's JSON-LD blocks.
pub fn ld_json_blocks(html: &str) -> (r: Vec<String>)
    ensures
        r@.map_values(|s: String| s@) == ld_json_scripts(html@),
{
    inner_html_of(html, LD_JSON)
}

/// `scraper`: the page parsed with `Html::parse_document`; for each element that the
/// selector `block` picks, in document order, the attribute `attr_a` of the first element
/// inside it that `sel_a` picks, and the attribute `attr_b` of the first that `sel_b` picks
/// (`None` where there is no such element or attribute, or where that selector does not
/// parse); nothing where `block` does not parse. Selectors are parsed with `Selector::parse`.
pub uninterp spec fn first_attrs_in(
    html: Seq<char>,
    block: Seq<char>,
    sel_a: Seq<char>,
    attr_a: Seq<char>,
    sel_b: Seq<char>,
    attr_b: Seq<char>,
) -> Seq<(Option<Seq<char>>, Option<Seq<char>>)>;

pub open spec fn opt_seq(o: Option<String>) -> Option<Seq<char>> {
    match o {
        Some(s) => Some(s@),
        None => None,
    }
}

pub open spec fn attr_views(v: Seq<(Option<String>, Option<String>)>) -> Seq<(Option<Seq<char>>, Option<Seq<char>>)> {
    v.map_values(|p: (Option<String>, Option<String>)| (opt_seq(p.0), opt_seq(p.1)))
}

/// Parses the page with `scraper::Html::parse_document` and the selectors with
/// `scraper::Selector::parse`, and reads, in each element that `block` selects, the two
/// attributes of the first elements that `sel_a` and `sel_b` select. Only the name of the
/// result is stated.
#[verifier::external_body]
fn first_attrs(html: &str, block: &str, sel_a: &str, attr_a: &str, sel_b: &str, attr_b: &str) -> (r: Vec<
    (Option<String>, Option<String>),
>)
    ensures
        attr_views(r@) == first_attrs_in(html@, block@, sel_a@, attr_a@, sel_b@, attr_b@),
{
    let doc = scraper::Html::parse_document(html);
    let (Ok(block), a, b) = (scraper::Selector::parse(block), scraper::Selector::parse(sel_a), scraper::Selector::parse(sel_b)) else {
        return Vec::new();
    };
    let attr = |e: scraper::ElementRef, s: &Result<scraper::Selector, _>, n: &str| {
        s.as_ref().ok().and_then(|s| e.select(s).next()).and_then(|x| x.value().attr(n)).map(str::to_string)
    };
    doc.select(&block).map(|e| (attr(e, &a, attr_a), attr(e, &b, attr_b))).collect()
}

/// The selectors of a detail page's session price blocks, of a block's start and of its
/// price list.
pub const PRICE_BLOCK: &'static str = "div.ed-biletler__sehir__gun__fiyat";
pub const VALID_FROM: &'static str = r#"meta[itemprop="validFrom"]"#;
pub const PRICE_TOOLTIP: &'static str = "a.ticket_price_tooltip";

/// The session price blocks (`PRICE_BLOCK`) of a detail page: for each, the `content` of its
/// first `VALID_FROM` element and the `data-ticketprices` of its first `PRICE_TOOLTIP`, in
/// document order.
pub open spec fn price_block_attrs(html: Seq<char>) -> Seq<(Option<Seq<char>>, Option<Seq<char>>)> {
    first_attrs_in(html, PRICE_BLOCK@, VALID_FROM@, "content"@, PRICE_TOOLTIP@, "data-ticketprices"@)
}

/// The session price blocks of a detail page: each block's start and price list texts.
pub fn price_blocks(html: &str) -> (r: Vec<(Option<String>, Option<String>)>)
    ensures
        attr_views(r@) == price_block_attrs(html@),
{
    first_attrs(html, PRICE_BLOCK, VALID_FROM, "content", PRICE_TOOLTIP, "data-ticketprices")
}

/// One category price of a session, as the page writes it ("₺1.350,00").
pub struct TicketPrice {
    pub name: String,
    pub price: String,
}

/// A session's prices (`data-ticketprices`).
pub struct TicketPrices {
    pub venue_name: String,
    pub prices: Vec<TicketPrice>,
}

/// A price block: the session's start (`validFrom`), and its prices when they read as such.
pub struct PriceBlock {
    pub when: Option<String>,
    pub prices: Option<TicketPrices>,
}

/// A JSON-LD node, as far as it is read. Each text field is there when the node has it as a
/// string.
pub struct LdNode {
    /// `@type`.
    pub kind: Option<String>,
    /// The `url` of each `itemListElement` entry, in order (none when there is no such list).
    pub item_urls: Vec<Option<String>>,
    pub name: Option<String>,
    pub start_date: Option<String>,
    /// `location.address.addressLocality`.
    pub locality: Option<String>,
    /// `location.name`.
    pub venue: Option<String>,
    /// `offers.availability`.
    pub availability: Option<String>,
    /// `offers.price`, in kuruş, when it is a number above zero (in lira).
    pub offer_price: Option<i64>,
}

pub open spec fn or_empty(o: Option<String>) -> Seq<char> {
    match o {
        Some(s) => s@,
        None => Seq::<char>::empty(),
    }
}

fn or_empty_exec(o: &Option<String>) -> (r: Vec<char>)
    ensures
        r@ == or_empty(*o),
{
    match o {
        Some(s) => chars_of(s.as_str()),
        None => Vec::new(),
    }
}

pub open spec fn kind_is(n: LdNode, k: Seq<char>) -> bool {
    n.kind matches Some(t) && t@ == k
}

fn kind_is_exec(n: &LdNode, k: &str) -> (r: bool)
    ensures
        r == kind_is(*n, k@),
{
    match &n.kind {
        Some(t) => text_is(&chars_of(t.as_str()), k),
        None => false,
    }
}

// ---------------------------------------------------------------------------------------------
// The list page
// ---------------------------------------------------------------------------------------------

pub open spec fn present_urls(us: Seq<Option<String>>) -> Seq<Seq<char>>
    decreases us.len(),
{
    if us.len() == 0 {
        Seq::empty()
    } else {
        match us.last() {
            Some(u) => present_urls(us.drop_last()).push(u@),
            None => present_urls(us.drop_last()),
        }
    }
}

/// The event page addresses of the `ItemList` nodes, in order.
pub open spec fn list_urls(nodes: Seq<LdNode>) -> Seq<Seq<char>>
    decreases nodes.len(),
{
    if nodes.len() == 0 {
        Seq::empty()
    } else if kind_is(nodes.last(), "ItemList"@) {
        list_urls(nodes.drop_last()) + present_urls(nodes.last().item_urls@)
    } else {
        list_urls(nodes.drop_last())
    }
}

/// A JSON-LD block of a page as read: one node, or a list of nodes.
pub enum LdJson {
    Node(LdNode),
    List(Vec<LdNode>),
}

/// The nodes of a page's JSON-LD blocks, in order: a block that did not read (`None`) gives
/// none, a list gives each of its nodes.
pub open spec fn flat_nodes(blocks: Seq<Option<LdJson>>) -> Seq<LdNode>
    decreases blocks.len(),
{
    if blocks.len() == 0 {
        Seq::empty()
    } else {
        let rest = flat_nodes(blocks.drop_last());
        match blocks.last() {
            None => rest,
            Some(LdJson::Node(n)) => rest.push(n),
            Some(LdJson::List(v)) => rest + v@,
        }
    }
}

/// The nodes of a page's JSON-LD blocks (see `flat_nodes`).
pub fn ld_nodes(blocks: Vec<Option<LdJson>>) -> (r: Vec<LdNode>)
    ensures
        r@ == flat_nodes(blocks@),
{
    let ghost all = blocks@;
    assert(all.len() == blocks.len());
    let mut rest = blocks;
    let mut out: Vec<LdNode> = Vec::new();
    let mut i: usize = 0;
    while rest.len() > 0
        invariant
            0 <= i <= all.len(),
            all.len() <= usize::MAX,
            rest@ == all.skip(i as int),
            out@ == flat_nodes(all.take(i as int)),
        decreases rest.len(),
    {
        assert(all.take(i + 1).drop_last() =~= all.take(i as int));
        assert(all.skip(i as int)[0] == all[i as int]);
        assert(all.take(i + 1).last() == all[i as int]);
        let b = rest.remove(0);
        assert(rest@ =~= all.skip(i + 1));
        match b {
            None => {},
            Some(LdJson::Node(n)) => {
                out.push(n);
            },
            Some(LdJson::List(v)) => {
                let mut v = v;
                out.append(&mut v);
            },
        }
        i = i + 1;
    }
    assert(all.take(i as int) =~= all);
    out
}

/// The links gathered so far, (page address, site category), with those of another list
/// page added: each address that is not there yet, in order, under the page's category.
pub open spec fn with_links(links: Seq<(Seq<char>, Seq<char>)>, urls: Seq<Seq<char>>, cat: Seq<char>) -> Seq<
    (Seq<char>, Seq<char>),
>
    decreases urls.len(),
{
    if urls.len() == 0 {
        links
    } else {
        let l = with_links(links, urls.drop_last(), cat);
        if exists|i: int| 0 <= i < l.len() && (#[trigger] l[i]).0 == urls.last() {
            l
        } else {
            l.push((urls.last(), cat))
        }
    }
}

pub open spec fn link_views(links: Seq<(String, String)>) -> Seq<(Seq<char>, Seq<char>)> {
    links.map_values(|l: (String, String)| (l.0@, l.1@))
}

/// Adds a list page's links to those gathered so far (see `with_links`).
pub fn add_links(links: &mut Vec<(String, String)>, urls: Vec<String>, cat: &str)
    ensures
        link_views(final(links)@) == with_links(link_views(old(links)@), urls@.map_values(|u: String| u@), cat@),
{
    let ghost uv = urls@.map_values(|u: String| u@);
    let ghost start = link_views(links@);
    let mut j: usize = 0;
    while j < urls.len()
        invariant
            0 <= j <= urls@.len(),
            uv == urls@.map_values(|u: String| u@),
            link_views(links@) == with_links(start, uv.take(j as int), cat@),
        decreases urls.len() - j,
    {
        assert(uv.take(j + 1).drop_last() =~= uv.take(j as int));
        assert(uv.take(j + 1).last() == urls@[j as int]@);
        let u = chars_of(urls[j].as_str());
        let ghost l = link_views(links@);
        let mut k: usize = 0;
        let mut found = false;
        while k < links.len()
            invariant
                0 <= k <= links@.len(),
                l == link_views(links@),
                u@ == urls@[j as int]@,
                found <==> exists|i: int| 0 <= i < k && (#[trigger] l[i]).0 == u@,
            decreases links.len() - k,
        {
            let lk = chars_of(links[k].0.as_str());
            if chars_eq(&lk, &u) {
                found = true;
            }
            assert(l[k as int].0 == links@[k as int].0@);
            k = k + 1;
        }
        if !found {
            let c = String::from_str(cat);
            let s = string_of(&u);
            links.push((s, c));
            assert(link_views(links@) =~= l.push((uv[j as int], cat@)));
        }
        j = j + 1;
    }
    assert(uv.take(j as int) =~= uv);
}

/// The error when no event page of the site could be read.
pub const NO_DETAIL: &'static str = "Biletinial: hiçbir detay sayfası alınamadı";

/// The site failed as a whole: there were event pages to read and none of them could be read.
pub fn no_detail_read(links: usize, failures: usize) -> (r: bool)
    ensures
        r == (links > 0 && failures == links),
{
    links > 0 && failures == links
}

/// The addresses of the event pages a list page names.
pub fn parse_list(nodes: &Vec<LdNode>) -> (r: Vec<String>)
    ensures
        r@.map_values(|s: String| s@) == list_urls(nodes@),
{
    let mut out: Vec<String> = Vec::new();
    let mut i: usize = 0;
    while i < nodes.len()
        invariant
            0 <= i <= nodes@.len(),
            out@.map_values(|s: String| s@) == list_urls(nodes@.take(i as int)),
        decreases nodes.len() - i,
    {
        assert(nodes@.take(i + 1).drop_last() =~= nodes@.take(i as int));
        assert(nodes@.take(i + 1).last() == nodes@[i as int]);
        let n = &nodes[i];
        if kind_is_exec(n, "ItemList") {
            let ghost base = out@.map_values(|s: String| s@);
            let us = &n.item_urls;
            let mut j: usize = 0;
            while j < us.len()
                invariant
                    0 <= j <= us@.len(),
                    out@.map_values(|s: String| s@) == base + present_urls(us@.take(j as int)),
                decreases us.len() - j,
            {
                assert(us@.take(j + 1).drop_last() =~= us@.take(j as int));
                assert(us@.take(j + 1).last() == us@[j as int]);
                match &us[j] {
                    Some(u) => {
                        let ghost before = out@.map_values(|s: String| s@);
                        out.push(u.clone());
                        assert(out@.map_values(|s: String| s@) =~= before.push(u@));
                    },
                    None => {},
                }
                j = j + 1;
            }
            assert(us@.take(j as int) =~= us@);
        }
        i = i + 1;
    }
    assert(nodes@.take(i as int) =~= nodes@);
    out
}

// ---------------------------------------------------------------------------------------------
// Dates
// ---------------------------------------------------------------------------------------------

/// `NaiveDateTime::parse_from_str(s, "%Y-%m-%dT%H:%M")` taken as Turkish time (UTC+3).
pub uninterp spec fn tr_minute_time(s: Seq<char>) -> Option<EventDate>;

/// Calls `chrono::NaiveDateTime::parse_from_str` with `"%Y-%m-%dT%H:%M"` and places the
/// result in the fixed offset UTC+3 (`from_local_datetime(..).single()`). Besides the name,
/// the contract states what chrono's `DateTime<FixedOffset>` guarantees of any value: the
/// range of its instant, whole minutes here, and the offset it was given.
#[verifier::external_body]
fn naive_tr_time(s: &str) -> (r: Option<EventDate>)
    ensures
        r == tr_minute_time(s@),
        r matches Some(d) ==> d.wf() && d.nanos == 0 && d.offset == TR_OFFSET_SECS,
{
    let naive = chrono::NaiveDateTime::parse_from_str(s, "%Y-%m-%dT%H:%M").ok()?;
    let d = chrono::FixedOffset::east_opt(TR_OFFSET_SECS).unwrap().from_local_datetime(&naive).single()?;
    Some(EventDate { secs: d.timestamp(), nanos: d.timestamp_subsec_nanos(), offset: d.offset().local_minus_utc() })
}

/// At most the first `n` characters.
pub open spec fn first_chars(s: Seq<char>, n: int) -> Seq<char> {
    if s.len() <= n {
        s
    } else {
        s.take(n)
    }
}

fn first_chars_exec(s: &Vec<char>, n: usize) -> (r: Vec<char>)
    ensures
        r@ == first_chars(s@, n as int),
{
    let k: usize = if s.len() <= n { s.len() } else { n };
    let r = sub_chars(s, 0, k);
    assert(r@ =~= first_chars(s@, n as int));
    r
}

/// A session's start: an RFC 3339 date-time, else its first 16 characters read as
/// "YYYY-MM-DDTHH:MM" in Turkish time.
pub open spec fn parse_date_spec(s: Seq<char>) -> Option<EventDate> {
    match rfc3339(s) {
        Some(d) => Some(d),
        None => tr_minute_time(first_chars(s, 16)),
    }
}

/// Reads a session's start (see `parse_date_spec`).
pub fn parse_date(s: &str) -> (r: Option<EventDate>)
    ensures
        r == parse_date_spec(s@),
        r matches Some(d) ==> d.wf(),
{
    match parse_rfc3339(s) {
        Some(d) => Some(d),
        None => {
            let head = string_of(&first_chars_exec(&chars_of(s), 16));
            naive_tr_time(head.as_str())
        },
    }
}

// ---------------------------------------------------------------------------------------------
// The event page
// ---------------------------------------------------------------------------------------------

/// The categories of a session's prices: trimmed name to the price in kuruş, for prices that
/// read, are positive and fit in an `i64`; a later entry of the same name replaces an earlier one.
pub open spec fn price_map(ps: Seq<TicketPrice>) -> Map<Seq<char>, i64>
    decreases ps.len(),
{
    if ps.len() == 0 {
        Map::empty()
    } else {
        let m = price_map(ps.drop_last());
        let p = ps.last();
        match tl_value(p.price@) {
            Some(k) => if 0 < k <= i64::MAX {
                m.insert(trim(p.name@), k as i64)
            } else {
                m
            },
            None => m,
        }
    }
}

/// The sessions with prices: (start, first 16 characters; venue, folded; categories).
pub open spec fn session_prices(bs: Seq<PriceBlock>) -> Seq<(Seq<char>, Seq<char>, Map<Seq<char>, i64>)>
    decreases bs.len(),
{
    if bs.len() == 0 {
        Seq::empty()
    } else {
        let rest = session_prices(bs.drop_last());
        let b = bs.last();
        match (b.when, b.prices) {
            (Some(w), Some(tp)) => rest.push((first_chars(w@, 16), fold_seq(tp.venue_name@), price_map(tp.prices@))),
            _ => rest,
        }
    }
}

/// The first session at the given start whose venue contains the event's venue or ends with
/// the city.
pub open spec fn find_session(
    sp: Seq<(Seq<char>, Seq<char>, Map<Seq<char>, i64>)>,
    when: Seq<char>,
    venue_f: Seq<char>,
    city_f: Seq<char>,
) -> Option<Map<Seq<char>, i64>>
    decreases sp.len(),
{
    if sp.len() == 0 {
        None
    } else if sp[0].0 == when && (contains_seq(sp[0].1, venue_f) || ends_with(sp[0].1, city_f)) {
        Some(sp[0].2)
    } else {
        find_session(sp.drop_first(), when, venue_f, city_f)
    }
}

/// The session a price block stands for: its start (first 16 characters) is the session's,
/// and its venue holds the session's venue or ends with the city.
pub open spec fn block_fits(
    x: (Seq<char>, Seq<char>, Map<Seq<char>, i64>),
    when: Seq<char>,
    venue_f: Seq<char>,
    city_f: Seq<char>,
) -> bool {
    x.0 == when && (contains_seq(x.1, venue_f) || ends_with(x.1, city_f))
}

/// A session's categories come from the first price block at the session's start (and venue
/// or city); a block at another start never supplies them, and there are none when no block
/// fits.
pub proof fn sessions_take_the_block_at_their_start(
    sp: Seq<(Seq<char>, Seq<char>, Map<Seq<char>, i64>)>,
    when: Seq<char>,
    venue_f: Seq<char>,
    city_f: Seq<char>,
)
    ensures
        find_session(sp, when, venue_f, city_f) matches Some(m) ==> exists|i: int|
            0 <= i < sp.len() && #[trigger] sp[i].0 == when && block_fits(sp[i], when, venue_f, city_f) && sp[i].2 == m
                && forall|j: int| 0 <= j < i ==> !block_fits(#[trigger] sp[j], when, venue_f, city_f),
        find_session(sp, when, venue_f, city_f) is None <==> forall|i: int|
            0 <= i < sp.len() ==> !block_fits(#[trigger] sp[i], when, venue_f, city_f),
    decreases sp.len(),
{
    if sp.len() > 0 {
        let t = sp.drop_first();
        sessions_take_the_block_at_their_start(t, when, venue_f, city_f);
        if block_fits(sp[0], when, venue_f, city_f) {
            assert(sp[0].0 == when);
        } else {
            if find_session(sp, when, venue_f, city_f) is Some {
                let i = choose|i: int|
                    0 <= i < t.len() && #[trigger] t[i].0 == when && block_fits(t[i], when, venue_f, city_f) && t[i].2
                        == find_session(sp, when, venue_f, city_f)->0 && forall|j: int| 0 <= j < i ==> !block_fits(
                        #[trigger] t[j],
                        when,
                        venue_f,
                        city_f,
                    );
                assert(sp[i + 1] == t[i]);
                assert forall|j: int| 0 <= j < i + 1 implies !block_fits(#[trigger] sp[j], when, venue_f, city_f) by {
                    if j > 0 {
                        assert(sp[j] == t[j - 1]);
                    }
                }
            } else {
                assert forall|i: int| 0 <= i < sp.len() implies !block_fits(#[trigger] sp[i], when, venue_f, city_f) by {
                    if i > 0 {
                        assert(sp[i] == t[i - 1]);
                    }
                }
            }
            assert((forall|i: int| 0 <= i < sp.len() ==> !block_fits(#[trigger] sp[i], when, venue_f, city_f)) ==> (forall|
                i: int,
            | 0 <= i < t.len() ==> !block_fits(#[trigger] t[i], when, venue_f, city_f))) by {
                if forall|i: int| 0 <= i < sp.len() ==> !block_fits(#[trigger] sp[i], when, venue_f, city_f) {
                    assert forall|i: int| 0 <= i < t.len() implies !block_fits(#[trigger] t[i], when, venue_f, city_f) by {
                        assert(t[i] == sp[i + 1]);
                    }
                }
            }
        }
    }
}

/// `s` without the `/` at its end.
pub open spec fn strip_slashes(s: Seq<char>) -> Seq<char>
    decreases s.len(),
{
    if s.len() > 0 && s.last() == '/' {
        strip_slashes(s.drop_last())
    } else {
        s
    }
}

/// The last path segment of a page address: "karsu-konseri" of ".../muzik/karsu-konseri/".
pub open spec fn url_slug(url: Seq<char>) -> Seq<char> {
    let u = strip_slashes(url);
    match last_index_of(u, '/') {
        Some(i) => u.skip(i + 1),
        None => u,
    }
}

/// The category of an event on the page of the site's category `cat`.
pub open spec fn detail_category(cat: Seq<char>, title: Seq<char>) -> Seq<char> {
    if cat == "muzik"@ {
        "Konser"@
    } else if cat == "tiyatro"@ && !contains_seq(fold_seq(title), "stand"@) {
        "Tiyatro"@
    } else {
        guess_category_spec(title)
    }
}

pub const CHEAPEST: &'static str = "En uygun bilet";

/// A JSON-LD `Event` node in the city, with a start, as an event (its categories apart) and
/// its categories: those of its session's price block, else, when it is not sold out, the
/// offer's price as "En uygun bilet".
pub open spec fn detail_event(
    n: LdNode,
    sp: Seq<(Seq<char>, Seq<char>, Map<Seq<char>, i64>)>,
    url: Seq<char>,
    cat: Seq<char>,
    city_f: Seq<char>,
) -> Option<(EventView, Map<Seq<char>, i64>)> {
    if !kind_is(n, "Event"@) || fold_seq(trim(or_empty(n.locality))) != city_f || n.start_date is None {
        None
    } else {
        let start = n.start_date->0@;
        let when = first_chars(start, 16);
        let venue = trim(or_empty(n.venue));
        let availability = or_empty(n.availability);
        let sold_out = contains_seq(availability, "SoldOut"@) || contains_seq(availability, "OutOfStock"@);
        let found = match find_session(sp, when, fold_seq(venue), city_f) {
            Some(m) => m,
            None => Map::empty(),
        };
        let tiers = if found == Map::<Seq<char>, i64>::empty() && !sold_out && n.offer_price is Some {
            Map::empty().insert(CHEAPEST@, n.offer_price->0)
        } else {
            found
        };
        let slug = url_slug(url);
        let title = trim(
            match n.name {
                Some(t) => t@,
                None => slug,
            },
        );
        Some(
            (
                EventView {
                    source: SourceId::Biletinial,
                    id: slug + "@"@ + when,
                    title: title,
                    venue: venue,
                    date: parse_date_spec(start),
                    category: detail_category(cat, title),
                    url: url,
                    tiers: Seq::empty(),
                    sold_out: sold_out,
                    list_prices: Seq::empty(),
                },
                tiers,
            ),
        )
    }
}

/// The events of an event page: its `Event` nodes in the city, in order.
pub open spec fn detail_events(
    nodes: Seq<LdNode>,
    sp: Seq<(Seq<char>, Seq<char>, Map<Seq<char>, i64>)>,
    url: Seq<char>,
    cat: Seq<char>,
    city_f: Seq<char>,
) -> Seq<(EventView, Map<Seq<char>, i64>)>
    decreases nodes.len(),
{
    if nodes.len() == 0 {
        Seq::empty()
    } else {
        let rest = detail_events(nodes.drop_last(), sp, url, cat, city_f);
        match detail_event(nodes.last(), sp, url, cat, city_f) {
            Some(e) => rest.push(e),
            None => rest,
        }
    }
}

/// A JSON-LD node that stands for a session in the city: an `Event` with a start, whose
/// locality (trimmed, folded) is the city.
pub open spec fn city_session(n: LdNode, city_f: Seq<char>) -> bool {
    kind_is(n, "Event"@) && fold_seq(trim(or_empty(n.locality))) == city_f && n.start_date is Some
}

/// Every price of the categories is positive.
pub open spec fn prices_positive(m: Map<Seq<char>, i64>) -> bool {
    forall|k: Seq<char>| #[trigger] m.contains_key(k) ==> m[k] > 0
}

proof fn lemma_price_map_positive(ps: Seq<TicketPrice>)
    ensures
        prices_positive(price_map(ps)),
    decreases ps.len(),
{
    if ps.len() > 0 {
        lemma_price_map_positive(ps.drop_last());
    }
}

proof fn lemma_sessions_positive(bs: Seq<PriceBlock>)
    ensures
        forall|i: int| 0 <= i < session_prices(bs).len() ==> prices_positive(#[trigger] session_prices(bs)[i].2),
    decreases bs.len(),
{
    if bs.len() > 0 {
        lemma_sessions_positive(bs.drop_last());
        let b = bs.last();
        match (b.when, b.prices) {
            (Some(w), Some(tp)) => {
                lemma_price_map_positive(tp.prices@);
                let rest = session_prices(bs.drop_last());
                assert forall|i: int| 0 <= i < session_prices(bs).len() implies prices_positive(#[trigger] session_prices(bs)[i].2) by {
                    if i < rest.len() {
                        assert(session_prices(bs)[i] == rest[i]);
                    }
                }
            },
            _ => {},
        }
    }
}

proof fn lemma_found_positive(
    sp: Seq<(Seq<char>, Seq<char>, Map<Seq<char>, i64>)>,
    when: Seq<char>,
    venue_f: Seq<char>,
    city_f: Seq<char>,
)
    requires
        forall|i: int| 0 <= i < sp.len() ==> prices_positive(#[trigger] sp[i].2),
    ensures
        find_session(sp, when, venue_f, city_f) matches Some(m) ==> prices_positive(m),
    decreases sp.len(),
{
    if sp.len() > 0 {
        let t = sp.drop_first();
        assert forall|i: int| 0 <= i < t.len() implies prices_positive(#[trigger] t[i].2) by {
            assert(t[i] == sp[i + 1]);
        }
        assert(prices_positive(sp[0].2));
        lemma_found_positive(t, when, venue_f, city_f);
    }
}

/// What an event page gives: one event for each session in the city, in the page's order
/// and nothing else; each from the site, at the page's address, with the address's last
/// segment and the session's start (16 characters) as its id, without list prices; sold out
/// when the offer says `SoldOut` or `OutOfStock`; categorised by the site's category (a
/// title with "stand" on the theatre page is guessed); with the categories of the price block
/// that fits the session (all at positive prices) when it has some; and where no price block
/// fits, with the offer's price as the one category when it is above zero and the event is
/// not sold out, else with none.
pub proof fn event_page_gives_the_city_sessions(
    nodes: Seq<LdNode>,
    blocks: Seq<PriceBlock>,
    url: Seq<char>,
    cat: Seq<char>,
    city_f: Seq<char>,
)
    ensures
        ({
            let d = detail_events(nodes, session_prices(blocks), url, cat, city_f);
            let c = nodes.filter(|n: LdNode| city_session(n, city_f));
            &&& d.len() == c.len()
            &&& forall|i: int| 0 <= i < d.len() ==> {
                let e = (#[trigger] d[i]).0;
                let n = c[i];
                let start = n.start_date->0@;
                let av = or_empty(n.availability);
                let sold = contains_seq(av, "SoldOut"@) || contains_seq(av, "OutOfStock"@);
                &&& e.source == SourceId::Biletinial
                &&& e.url == url
                &&& e.id == url_slug(url) + "@"@ + first_chars(start, 16)
                &&& e.list_prices.len() == 0
                &&& e.sold_out == sold
                &&& e.category == detail_category(cat, e.title)
                &&& find_session(
                    session_prices(blocks),
                    first_chars(start, 16),
                    fold_seq(trim(or_empty(n.venue))),
                    city_f,
                ) matches Some(m) ==> prices_positive(m) && (m != Map::<Seq<char>, i64>::empty() ==> d[i].1 == m)
                &&& find_session(
                    session_prices(blocks),
                    first_chars(start, 16),
                    fold_seq(trim(or_empty(n.venue))),
                    city_f,
                ) is None ==> d[i].1 == (if !sold && n.offer_price is Some {
                    Map::empty().insert(CHEAPEST@, n.offer_price->0)
                } else {
                    Map::<Seq<char>, i64>::empty()
                })
            }
        }),
    decreases nodes.len(),
{
    reveal(Seq::filter);
    let sp = session_prices(blocks);
    lemma_sessions_positive(blocks);
    if nodes.len() > 0 {
        let t = nodes.drop_last();
        let f = |n: LdNode| city_session(n, city_f);
        event_page_gives_the_city_sessions(t, blocks, url, cat, city_f);
        let n = nodes.last();
        assert(nodes.filter(f) == if f(n) {
            t.filter(f).push(n)
        } else {
            t.filter(f)
        });
        if city_session(n, city_f) {
            let start = n.start_date->0@;
            let venue = trim(or_empty(n.venue));
            lemma_found_positive(sp, first_chars(start, 16), fold_seq(venue), city_f);
        }
    }
}

/// An event is the described one: the same fields, its categories as the map.
pub open spec fn event_is(e: EventView, d: (EventView, Map<Seq<char>, i64>)) -> bool {
    &&& map_of(e.tiers) == d.1
    &&& e == EventView { tiers: e.tiers, ..d.0 }
}

/// The price blocks' sessions, with their categories.
fn session_list(blocks: &Vec<PriceBlock>) -> (r: Vec<(Vec<char>, Vec<char>, KeyedMap<i64>)>)
    ensures
        r@.len() == session_prices(blocks@).len(),
        forall|i: int| 0 <= i < r@.len() ==> {
            let x = #[trigger] r@[i];
            let y = session_prices(blocks@)[i];
            x.0@ == y.0 && x.1@ == y.1 && x.2.to_map() == y.2
        },
{
    let mut out: Vec<(Vec<char>, Vec<char>, KeyedMap<i64>)> = Vec::new();
    let mut i: usize = 0;
    while i < blocks.len()
        invariant
            0 <= i <= blocks@.len(),
            out@.len() == session_prices(blocks@.take(i as int)).len(),
            forall|a: int| 0 <= a < out@.len() ==> {
                let x = #[trigger] out@[a];
                let y = session_prices(blocks@.take(i as int))[a];
                x.0@ == y.0 && x.1@ == y.1 && x.2.to_map() == y.2
            },
        decreases blocks.len() - i,
    {
        assert(blocks@.take(i + 1).drop_last() =~= blocks@.take(i as int));
        assert(blocks@.take(i + 1).last() == blocks@[i as int]);
        let b = &blocks[i];
        match (&b.when, &b.prices) {
            (Some(w), Some(tp)) => {
                let ghost ii = i as int;
                let mut tiers: KeyedMap<i64> = KeyedMap::new();
                assert(tiers.to_map() =~= price_map(tp.prices@.take(0)));
                let mut j: usize = 0;
                while j < tp.prices.len()
                    invariant
                        0 <= j <= tp.prices@.len(),
                        0 <= ii < blocks@.len(),
                        blocks@[ii].when is Some,
                        blocks@[ii].prices == Some(*tp),
                        tiers.to_map() == price_map(tp.prices@.take(j as int)),
                    decreases tp.prices.len() - j,
                {
                    assert(tp.prices@.take(j + 1).drop_last() =~= tp.prices@.take(j as int));
                    assert(tp.prices@.take(j + 1).last() == tp.prices@[j as int]);
                    let p = &tp.prices[j];
                    match parse_tl(p.price.as_str()) {
                        Some(k) => {
                            if k > 0 {
                                tiers.insert(string_of(&trim_str(p.name.as_str())), k);
                            }
                        },
                        None => {},
                    }
                    j = j + 1;
                }
                assert(tp.prices@.take(j as int) =~= tp.prices@);
                let when16 = first_chars_exec(&chars_of(w.as_str()), 16);
                let venue_f = fold_chars(&chars_of(tp.venue_name.as_str()));
                out.push((when16, venue_f, tiers));
            },
            _ => {},
        }
        i = i + 1;
    }
    assert(blocks@.take(i as int) =~= blocks@);
    out
}

fn strip_slashes_exec(s: &Vec<char>) -> (r: Vec<char>)
    ensures
        r@ == strip_slashes(s@),
{
    let mut n: usize = s.len();
    assert(s@.take(n as int) =~= s@);
    while n > 0 && s[n - 1] == '/'
        invariant
            0 <= n <= s@.len(),
            strip_slashes(s@) == strip_slashes(s@.take(n as int)),
        decreases n,
    {
        assert(s@.take(n as int).drop_last() =~= s@.take(n - 1));
        n = n - 1;
    }
    let r = sub_chars(s, 0, n);
    assert(r@ =~= s@.take(n as int));
    r
}

fn url_slug_exec(url: &str) -> (r: Vec<char>)
    ensures
        r@ == url_slug(url@),
{
    let u = strip_slashes_exec(&chars_of(url));
    let mut k: usize = u.len();
    assert(u@.take(k as int) =~= u@);
    while k > 0 && u[k - 1] != '/'
        invariant
            0 <= k <= u@.len(),
            last_index_of(u@, '/') == last_index_of(u@.take(k as int), '/'),
        decreases k,
    {
        assert(u@.take(k as int).drop_last() =~= u@.take(k - 1));
        k = k - 1;
    }
    if k > 0 {
        assert(last_index_of(u@, '/') == Some(k - 1));
        let r = sub_chars(&u, k, u.len());
        assert(r@ =~= u@.skip(k as int));
        r
    } else {
        assert(last_index_of(u@.take(0), '/') is None);
        u
    }
}

fn detail_category_exec(cat: &str, title: &String) -> (r: String)
    ensures
        r@ == detail_category(cat@, title@),
{
    let c = chars_of(cat);
    if text_is(&c, "muzik") {
        String::from_str("Konser")
    } else if text_is(&c, "tiyatro") && !contains_str(&fold_chars(&chars_of(title.as_str())), "stand") {
        String::from_str("Tiyatro")
    } else {
        guess_category(title.as_str())
    }
}

/// The categories of the first session at `when` whose venue fits.
fn find_session_exec(
    sp: &Vec<(Vec<char>, Vec<char>, KeyedMap<i64>)>,
    when: &Vec<char>,
    venue_f: &Vec<char>,
    city_f: &Vec<char>,
    Ghost(spec): Ghost<Seq<(Seq<char>, Seq<char>, Map<Seq<char>, i64>)>>,
) -> (r: Option<usize>)
    requires
        sp@.len() == spec.len(),
        forall|i: int| 0 <= i < sp@.len() ==> {
            let x = #[trigger] sp@[i];
            x.0@ == spec[i].0 && x.1@ == spec[i].1 && x.2.to_map() == spec[i].2
        },
    ensures
        r matches Some(i) ==> i < sp@.len() && find_session(spec, when@, venue_f@, city_f@) == Some(spec[i as int].2),
        r is None ==> find_session(spec, when@, venue_f@, city_f@) is None,
{
    let mut i: usize = 0;
    assert(spec.skip(0) =~= spec);
    while i < sp.len()
        invariant
            0 <= i <= sp@.len(),
            sp@.len() == spec.len(),
            forall|a: int| 0 <= a < sp@.len() ==> {
                let x = #[trigger] sp@[a];
                x.0@ == spec[a].0 && x.1@ == spec[a].1 && x.2.to_map() == spec[a].2
            },
            find_session(spec, when@, venue_f@, city_f@) == find_session(spec.skip(i as int), when@, venue_f@, city_f@),
        decreases sp.len() - i,
    {
        let x = &sp[i];
        assert(spec.skip(i as int)[0] == spec[i as int]);
        assert(spec.skip(i as int).drop_first() =~= spec.skip(i + 1));
        let ends = if x.1.len() >= city_f.len() {
            occurs_at_exec(&x.1, city_f, x.1.len() - city_f.len())
        } else {
            false
        };
        assert(ends == ends_with(x.1@, city_f@));
        if chars_eq(&x.0, when) && (contains_chars(&x.1, venue_f) || ends) {
            return Some(i);
        }
        i = i + 1;
    }
    None
}

/// The events of an event page (its price blocks and JSON-LD nodes, read from the page at
/// `url`, listed under the site's category `cat`): the sessions in `city`, each with the
/// categories of its price block (see `detail_event`).
pub fn parse_detail(blocks: &Vec<PriceBlock>, nodes: &Vec<LdNode>, url: &str, cat: &str, city: &str) -> (r: Vec<Event>)
    ensures
        r@.len() == detail_events(nodes@, session_prices(blocks@), url@, cat@, fold_seq(city@)).len(),
        forall|i: int| 0 <= i < r@.len() ==> event_is(
            (#[trigger] r@[i])@,
            detail_events(nodes@, session_prices(blocks@), url@, cat@, fold_seq(city@))[i],
        ),
{
    let ghost sp = session_prices(blocks@);
    let ghost city_f = fold_seq(city@);
    let sessions = session_list(blocks);
    let cf = fold_chars(&chars_of(city));
    let slug = url_slug_exec(url);
    let mut out: Vec<Event> = Vec::new();
    let mut i: usize = 0;
    while i < nodes.len()
        invariant
            0 <= i <= nodes@.len(),
            sp == session_prices(blocks@),
            city_f == fold_seq(city@),
            cf@ == city_f,
            slug@ == url_slug(url@),
            sessions@.len() == sp.len(),
            forall|a: int| 0 <= a < sessions@.len() ==> {
                let x = #[trigger] sessions@[a];
                x.0@ == sp[a].0 && x.1@ == sp[a].1 && x.2.to_map() == sp[a].2
            },
            out@.len() == detail_events(nodes@.take(i as int), sp, url@, cat@, city_f).len(),
            forall|a: int| 0 <= a < out@.len() ==> event_is(
                (#[trigger] out@[a])@,
                detail_events(nodes@.take(i as int), sp, url@, cat@, city_f)[a],
            ),
        decreases nodes.len() - i,
    {
        assert(nodes@.take(i + 1).drop_last() =~= nodes@.take(i as int));
        assert(nodes@.take(i + 1).last() == nodes@[i as int]);
        let n = &nodes[i];
        let ghost prev = detail_events(nodes@.take(i as int), sp, url@, cat@, city_f);
        match detail_event_exec(n, &sessions, Ghost(sp), url, cat, &cf, &slug) {
            Some(e) => {
                let ghost before = out@;
                out.push(e);
                assert forall|a: int| 0 <= a < out@.len() implies event_is(
                    (#[trigger] out@[a])@,
                    detail_events(nodes@.take(i + 1), sp, url@, cat@, city_f)[a],
                ) by {
                    if a < before.len() {
                        assert(out@[a] == before[a]);
                    }
                }
            },
            None => {},
        }
        i = i + 1;
    }
    assert(nodes@.take(i as int) =~= nodes@);
    out
}

fn detail_event_exec(
    n: &LdNode,
    sessions: &Vec<(Vec<char>, Vec<char>, KeyedMap<i64>)>,
    Ghost(sp): Ghost<Seq<(Seq<char>, Seq<char>, Map<Seq<char>, i64>)>>,
    url: &str,
    cat: &str,
    cf: &Vec<char>,
    slug: &Vec<char>,
) -> (r: Option<Event>)
    requires
        sessions@.len() == sp.len(),
        forall|a: int| 0 <= a < sessions@.len() ==> {
            let x = #[trigger] sessions@[a];
            x.0@ == sp[a].0 && x.1@ == sp[a].1 && x.2.to_map() == sp[a].2
        },
        slug@ == url_slug(url@),
    ensures
        r matches Some(e) ==> detail_event(*n, sp, url@, cat@, cf@) matches Some(d) && event_is(e@, d),
        r is None ==> detail_event(*n, sp, url@, cat@, cf@) is None,
{
    if !kind_is_exec(n, "Event") {
        return None;
    }
    let locality = fold_chars(&trim_chars(&or_empty_exec(&n.locality)));
    if !chars_eq(&locality, cf) {
        return None;
    }
    let start = match &n.start_date {
        Some(s) => s,
        None => {
            return None;
        },
    };
    let date = parse_date(start.as_str());
    let when = first_chars_exec(&chars_of(start.as_str()), 16);
    let venue = trim_chars(&or_empty_exec(&n.venue));
    let availability = or_empty_exec(&n.availability);
    let sold_out = contains_str(&availability, "SoldOut") || contains_str(&availability, "OutOfStock");
    let venue_f = fold_chars(&venue);
    let mut tiers: KeyedMap<i64> = match find_session_exec(sessions, &when, &venue_f, cf, Ghost(sp)) {
        Some(k) => sessions[k].2.clone(),
        None => {
            let m = KeyedMap::new();
            assert(m.to_map() =~= Map::<Seq<char>, i64>::empty());
            m
        },
    };
    proof {
        lemma_map_of_empty(tiers@);
    }
    if tiers.is_empty() && !sold_out {
        match n.offer_price {
            Some(p) => {
                tiers.insert(String::from_str(CHEAPEST), p);
            },
            None => {},
        }
    }
    let title_src: Vec<char> = match &n.name {
        Some(t) => chars_of(t.as_str()),
        None => copy_chars(slug),
    };
    let title = string_of(&trim_chars(&title_src));
    let category = detail_category_exec(cat, &title);
    let mut id: Vec<char> = Vec::new();
    push_chars(&mut id, slug);
    push_str(&mut id, "@");
    push_chars(&mut id, &when);
    let e = Event {
        source: SourceId::Biletinial,
        id: string_of(&id),
        title: title,
        venue: string_of(&venue),
        date: date,
        category: category,
        url: String::from_str(url),
        tiers: tiers,
        sold_out: sold_out,
        list_prices: KeyedMap::new(),
    };
    proof {
        let d = detail_event(*n, sp, url@, cat@, cf@)->0;
        assert(e@.list_prices =~= d.0.list_prices);
        assert(e@ == EventView { tiers: e@.tiers, ..d.0 });
    }
    Some(e)
}

} // verus!
