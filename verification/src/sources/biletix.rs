//! Biletix: the site's Solr search lists the city's events; the prices of an event come, in
//! kuruş, from its `getPriceByProfiles/{code}/001` answer.

use vstd::prelude::*;
use crate::diff::event_views;
use crate::keyed::{KeyedMap, only_lowers};
use crate::model::{Event, EventView, EventDate, SourceId, rfc3339, parse_rfc3339, fold_seq, fold_chars,
    contains_str};
use crate::text::{chars_of, string_of, push_str, push_string, trim, trim_str, contains_seq,
    unicode_lowercase, to_lowercase, text_is};

verus! {

/// One document of the Solr answer, as far as it is read: each field is its text when the
/// document has it as a string.
pub struct SolrDoc {
    pub doc_type: Option<String>,
    pub id: Option<String>,
    pub sname: Option<String>,
    pub status: Option<String>,
    pub svenue: Option<String>,
    pub start: Option<String>,
    pub category: Option<String>,
    pub subcategory: Option<String>,
}

/// The text of an optional field, empty when missing.
pub open spec fn or_empty(o: Option<String>) -> Seq<char> {
    match o {
        Some(s) => s@,
        None => Seq::<char>::empty(),
    }
}

fn or_empty_exec(o: &Option<String>) -> (r: Vec<char>)
    ensures
        r@ == or_empty(*o),
{
    match o {
        Some(s) => chars_of(s.as_str()),
        None => Vec::new(),
    }
}

/// The error when the answer holds no document list.
pub const NO_DOCS: &'static str = "Biletix: Solr yanıtında docs yok";

/// Stand-up when the subcategory or the title says so; otherwise by the site's category.
pub open spec fn category_spec(cat: Seq<char>, sub: Seq<char>, title: Seq<char>) -> Seq<char> {
    if contains_seq(fold_seq(sub), "stand"@) || contains_seq(fold_seq(title), "stand"@) {
        "Stand-up"@
    } else if cat == "MUSIC"@ {
        "Konser"@
    } else if cat == "ART"@ {
        "Tiyatro"@
    } else if cat == "FAMILY"@ {
        "Çocuk/Aile"@
    } else if cat == "SPORT"@ {
        "Spor"@
    } else {
        "Etkinlik"@
    }
}

/// The event's category from the site's category and subcategory and the title.
pub fn category(cat: &str, sub: &str, title: &str) -> (r: String)
    ensures
        r@ == category_spec(cat@, sub@, title@),
{
    let s = fold_chars(&chars_of(sub));
    let t = fold_chars(&chars_of(title));
    let c = chars_of(cat);
    let name: &str = if contains_str(&s, "stand") || contains_str(&t, "stand") {
        "Stand-up"
    } else if text_is(&c, "MUSIC") {
        "Konser"
    } else if text_is(&c, "ART") {
        "Tiyatro"
    } else if text_is(&c, "FAMILY") {
        "Çocuk/Aile"
    } else if text_is(&c, "SPORT") {
        "Spor"
    } else {
        "Etkinlik"
    };
    String::from_str(name)
}

/// Documents of type "event" count.
pub open spec fn is_event_doc(d: SolrDoc) -> bool {
    d.doc_type matches Some(t) && t@ == "event"@
}

/// The event a document describes; `None` without an id or a name.
pub open spec fn solr_event(d: SolrDoc) -> Option<EventView> {
    match (d.id, d.sname) {
        (Some(id), Some(name)) => {
            let title = trim(name@);
            Some(
                EventView {
                    source: SourceId::Biletix,
                    id: id@,
                    title: title,
                    venue: trim(or_empty(d.svenue)),
                    date: match d.start {
                        Some(s) => rfc3339(s@),
                        None => None,
                    },
                    category: category_spec(or_empty(d.category), or_empty(d.subcategory), title),
                    url: "https://www.biletix.com/etkinlik/"@ + id@ + "/TURKIYE/tr"@,
                    tiers: Seq::empty(),
                    sold_out: contains_seq(unicode_lowercase(or_empty(d.status)), "sold"@),
                    list_prices: Seq::empty(),
                },
            )
        },
        _ => None,
    }
}

/// The events of the documents, in order.
pub open spec fn solr_events(docs: Seq<SolrDoc>) -> Seq<EventView>
    decreases docs.len(),
{
    if docs.len() == 0 {
        Seq::empty()
    } else {
        let rest = solr_events(docs.drop_last());
        let d = docs.last();
        if is_event_doc(d) && solr_event(d) is Some {
            rest.push(solr_event(d)->0)
        } else {
            rest
        }
    }
}

fn doc_event(d: &SolrDoc) -> (r: Option<Event>)
    ensures
        r matches Some(e) ==> solr_event(*d) == Some(e@),
        r is None <==> solr_event(*d) is None,
{
    match (&d.id, &d.sname) {
        (Some(id), Some(name)) => {
            let title = string_of(&trim_str(name.as_str()));
            let venue = string_of(&trim_chars_of(&d.svenue));
            let date: Option<EventDate> = match &d.start {
                Some(s) => parse_rfc3339(s.as_str()),
                None => None,
            };
            let cat = string_of(&or_empty_exec(&d.category));
            let sub = string_of(&or_empty_exec(&d.subcategory));
            let category = category(cat.as_str(), sub.as_str(), title.as_str());
            let mut url: Vec<char> = Vec::new();
            push_str(&mut url, "https://www.biletix.com/etkinlik/");
            push_string(&mut url, id);
            push_str(&mut url, "/TURKIYE/tr");
            let status = string_of(&or_empty_exec(&d.status));
            let low = to_lowercase(status.as_str());
            let sold_out = contains_str(&chars_of(low.as_str()), "sold");
            let e = Event {
                source: SourceId::Biletix,
                id: id.clone(),
                title: title,
                venue: venue,
                date: date,
                category: category,
                url: string_of(&url),
                tiers: KeyedMap::new(),
                sold_out: sold_out,
                list_prices: KeyedMap::new(),
            };
            assert(e@ == solr_event(*d)->0);
            Some(e)
        },
        _ => None,
    }
}

fn trim_chars_of(o: &Option<String>) -> (r: Vec<char>)
    ensures
        r@ == trim(or_empty(*o)),
{
    crate::text::trim_chars(&or_empty_exec(o))
}

/// The events of the Solr answer's documents (`docs` is `None` when the answer has no
/// document list): the documents of type "event" that have an id and a name.
pub fn parse_solr(docs: &Option<Vec<SolrDoc>>) -> (r: Result<Vec<Event>, String>)
    ensures
        match docs {
            None => r matches Err(e) && e@ == NO_DOCS@,
            Some(ds) => r matches Ok(evs) && event_views(evs@) == solr_events(ds@),
        },
{
    let ds = match docs {
        None => {
            return Err(String::from_str(NO_DOCS));
        },
        Some(ds) => ds,
    };
    let mut out: Vec<Event> = Vec::new();
    let mut i: usize = 0;
    while i < ds.len()
        invariant
            0 <= i <= ds@.len(),
            event_views(out@) == solr_events(ds@.take(i as int)),
        decreases ds.len() - i,
    {
        assert(ds@.take(i + 1).drop_last() =~= ds@.take(i as int));
        assert(ds@.take(i + 1).last() == ds@[i as int]);
        let d = &ds[i];
        let is_event = match &d.doc_type {
            Some(t) => text_is(&chars_of(t.as_str()), "event"),
            None => false,
        };
        if is_event {
            match doc_event(d) {
                Some(e) => {
                    let ghost before = event_views(out@);
                    out.push(e);
                    assert(event_views(out@) =~= before.push(e@));
                },
                None => {},
            }
        }
        i = i + 1;
    }
    assert(ds@.take(i as int) =~= ds@);
    Ok(out)
}

/// One category of a price profile: its name and lowest price in kuruş, where the answer has
/// them as a string and an integer.
pub struct PriceEntry {
    pub description: Option<String>,
    pub min_price: Option<i64>,
}

/// One entry counts when it has a name and a positive price; a category keeps its lowest
/// price.
pub open spec fn price_step(m: Map<Seq<char>, i64>, e: PriceEntry) -> Map<Seq<char>, i64> {
    match (e.description, e.min_price) {
        (Some(d), Some(p)) => if p <= 0 {
            m
        } else {
            let k = trim(d@);
            if m.contains_key(k) && m[k] <= p {
                m
            } else {
                m.insert(k, p)
            }
        },
        _ => m,
    }
}

pub open spec fn entries_prices(m: Map<Seq<char>, i64>, es: Seq<PriceEntry>) -> Map<Seq<char>, i64>
    decreases es.len(),
{
    if es.len() == 0 {
        m
    } else {
        price_step(entries_prices(m, es.drop_last()), es.last())
    }
}

/// The categories over all profiles (a profile that is not a list counts for nothing).
pub open spec fn profiles_prices(ps: Seq<Option<Vec<PriceEntry>>>) -> Map<Seq<char>, i64>
    decreases ps.len(),
{
    if ps.len() == 0 {
        Map::empty()
    } else {
        match ps.last() {
            Some(es) => entries_prices(profiles_prices(ps.drop_last()), es@),
            None => profiles_prices(ps.drop_last()),
        }
    }
}

pub open spec fn prices_spec(data: Option<Vec<Option<Vec<PriceEntry>>>>) -> Map<Seq<char>, i64> {
    match data {
        Some(ps) => profiles_prices(ps@),
        None => Map::empty(),
    }
}

fn add_entries(tiers: &mut KeyedMap<i64>, es: &Vec<PriceEntry>)
    ensures
        final(tiers).to_map() == entries_prices(old(tiers).to_map(), es@),
{
    let ghost m0 = tiers.to_map();
    let mut j: usize = 0;
    while j < es.len()
        invariant
            0 <= j <= es@.len(),
            tiers.to_map() == entries_prices(m0, es@.take(j as int)),
        decreases es.len() - j,
    {
        assert(es@.take(j + 1).drop_last() =~= es@.take(j as int));
        assert(es@.take(j + 1).last() == es@[j as int]);
        let c = &es[j];
        match (&c.description, c.min_price) {
            (Some(name), Some(price)) => {
                if price > 0 {
                    let k = string_of(&trim_str(name.as_str()));
                    let keep = match tiers.get(&k) {
                        Some(p) => *p <= price,
                        None => false,
                    };
                    if !keep {
                        tiers.insert(k, price);
                    }
                }
            },
            _ => {},
        }
        j = j + 1;
    }
    assert(es@.take(j as int) =~= es@);
}

/// The categories and prices of an event from its price profiles (`data` is `None` when the
/// answer has no `data` object; a profile is `None` when it is not a list). A category found in
/// several profiles keeps its lowest price.
pub fn parse_prices(data: &Option<Vec<Option<Vec<PriceEntry>>>>) -> (r: KeyedMap<i64>)
    ensures
        r.to_map() == prices_spec(*data),
{
    let mut tiers: KeyedMap<i64> = KeyedMap::new();
    assert(tiers.to_map() =~= Map::<Seq<char>, i64>::empty());
    let ps = match data {
        None => {
            return tiers;
        },
        Some(ps) => ps,
    };
    let mut i: usize = 0;
    while i < ps.len()
        invariant
            0 <= i <= ps@.len(),
            tiers.to_map() == profiles_prices(ps@.take(i as int)),
        decreases ps.len() - i,
    {
        assert(ps@.take(i + 1).drop_last() =~= ps@.take(i as int));
        assert(ps@.take(i + 1).last() == ps@[i as int]);
        match &ps[i] {
            Some(es) => add_entries(&mut tiers, es),
            None => {},
        }
        i = i + 1;
    }
    assert(ps@.take(i as int) =~= ps@);
    tiers
}

/// The entry names a category at a positive price.
pub open spec fn entry_counts(e: PriceEntry) -> bool {
    match (e.description, e.min_price) {
        (Some(_), Some(p)) => p > 0,
        _ => false,
    }
}

pub open spec fn entry_key(e: PriceEntry) -> Seq<char> {
    trim(e.description->0@)
}

pub open spec fn entry_price(e: PriceEntry) -> i64 {
    e.min_price->0
}

proof fn lemma_entries_prices(m: Map<Seq<char>, i64>, es: Seq<PriceEntry>)
    ensures
        only_lowers(m, entries_prices(m, es)),
        forall|j: int| 0 <= j < es.len() && entry_counts(#[trigger] es[j]) ==> entries_prices(m, es).contains_key(
            entry_key(es[j]),
        ) && entries_prices(m, es)[entry_key(es[j])] <= entry_price(es[j]),
    decreases es.len(),
{
    if es.len() > 0 {
        let a = entries_prices(m, es.drop_last());
        lemma_entries_prices(m, es.drop_last());
        let r = entries_prices(m, es);
        assert(only_lowers(a, r));
        assert forall|j: int| 0 <= j < es.len() && entry_counts(#[trigger] es[j]) implies r.contains_key(entry_key(es[j]))
            && r[entry_key(es[j])] <= entry_price(es[j]) by {
            if j < es.len() - 1 {
                assert(es.drop_last()[j] == es[j]);
                assert(a.contains_key(entry_key(es[j])));
            }
        }
    }
}

/// A category found in several profiles keeps its lowest price: every entry that names a
/// category at a positive price finds that category among the result, at that price or lower.
pub proof fn parse_prices_keeps_lowest(ps: Seq<Option<Vec<PriceEntry>>>)
    ensures
        forall|i: int, j: int|
            0 <= i < ps.len() && ps[i] is Some && 0 <= j < ps[i]->0@.len() && entry_counts(#[trigger] ps[i]->0@[j])
                ==> profiles_prices(ps).contains_key(entry_key(ps[i]->0@[j])) && profiles_prices(ps)[entry_key(
                ps[i]->0@[j],
            )] <= entry_price(ps[i]->0@[j]),
    decreases ps.len(),
{
    if ps.len() > 0 {
        let prev = ps.drop_last();
        parse_prices_keeps_lowest(prev);
        let a = profiles_prices(prev);
        let r = profiles_prices(ps);
        match ps.last() {
            Some(es) => lemma_entries_prices(a, es@),
            None => {},
        }
        assert(only_lowers(a, r));
        assert forall|i: int, j: int|
            0 <= i < ps.len() && ps[i] is Some && 0 <= j < ps[i]->0@.len() && entry_counts(#[trigger] ps[i]->0@[j])
                implies r.contains_key(entry_key(ps[i]->0@[j])) && r[entry_key(ps[i]->0@[j])] <= entry_price(
            ps[i]->0@[j],
        ) by {
            if i < ps.len() - 1 {
                assert(prev[i] == ps[i]);
                assert(a.contains_key(entry_key(ps[i]->0@[j])));
            } else {
                assert(ps[i] == ps.last());
            }
        }
    }
}

} // verus!
