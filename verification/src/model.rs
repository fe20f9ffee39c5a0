//! The event model, money and date formatting, and text normalisation.

use vstd::prelude::*;
use crate::keyed::{KeyedMap, map_of, keys_sorted, lemma_map_of_sorted};
use crate::text::{seq_lt, chars_of, string_of, push_str, push_string, push_u64, push_i64, nat_str,
    int_str, stable_sorted, stable_sort, lemma_stable_sorted_map, string_lt, contains_seq,
    contains_chars, digit_char, push_i128, strict_weak, lemma_stable_sorted_sorted, lemma_lt_asymmetric, lemma_lt_total,
    lemma_lt_irreflexive, lemma_lt_transitive};


verus! {

// ---------------------------------------------------------------------------------------------
// Sources
// ---------------------------------------------------------------------------------------------

#[derive(Debug, Clone, Copy, PartialEq, Eq, Structural, Hash)]
pub enum SourceId {
    Bubilet,
    Biletinial,
    Biletix,
}

pub open spec fn source_name(s: SourceId) -> Seq<char> {
    match s {
        SourceId::Bubilet => "Bubilet"@,
        SourceId::Biletinial => "Biletinial"@,
        SourceId::Biletix => "Biletix"@,
    }
}

/// The source's name in lower case, as used in event keys.
pub open spec fn source_slug(s: SourceId) -> Seq<char> {
    match s {
        SourceId::Bubilet => "bubilet"@,
        SourceId::Biletinial => "biletinial"@,
        SourceId::Biletix => "biletix"@,
    }
}

impl SourceId {
    pub fn name(self) -> (r: &'static str)
        ensures
            r@ == source_name(self),
    {
        match self {
            SourceId::Bubilet => "Bubilet",
            SourceId::Biletinial => "Biletinial",
            SourceId::Biletix => "Biletix",
        }
    }

    fn slug(self) -> (r: &'static str)
        ensures
            r@ == source_slug(self),
    {
        match self {
            SourceId::Bubilet => "bubilet",
            SourceId::Biletinial => "biletinial",
            SourceId::Biletix => "biletix",
        }
    }
}

// ---------------------------------------------------------------------------------------------
// Dates
// ---------------------------------------------------------------------------------------------

/// Seconds east of UTC of Turkish time (a fixed UTC+3 since 2016).
pub const TR_OFFSET_SECS: i32 = 10800;

/// Turkish time, as seconds east of UTC.
pub fn tr_offset() -> (r: i32)
    ensures
        r == TR_OFFSET_SECS,
{
    TR_OFFSET_SECS
}

pub const SECS_PER_DAY: i64 = 86400;

/// The earliest and latest UNIX timestamps that a date can hold.
pub const MIN_TIMESTAMP: i64 = -8334601315200;

pub const MAX_TIMESTAMP: i64 = 8210266876799;

/// An instant together with the UTC offset it was written in (`DateTime<FixedOffset>`).
#[derive(Debug, Clone, Copy, PartialEq, Eq, Structural)]
pub struct EventDate {
    /// Seconds since 1970-01-01T00:00:00Z.
    pub secs: i64,
    /// Nanoseconds past `secs` (above 10^9 only within a leap second).
    pub nanos: u32,
    /// Seconds east of UTC.
    pub offset: i32,
}

impl EventDate {
    /// The values that a parsed date can take.
    pub open spec fn wf(self) -> bool {
        &&& MIN_TIMESTAMP <= self.secs <= MAX_TIMESTAMP
        &&& self.nanos < 2_000_000_000
        &&& -86400 < self.offset < 86400
    }
}

/// The calendar day (days since 1970-01-01) of the instant, read at `offset` seconds east of UTC.
pub open spec fn day_at(secs: int, offset: int) -> int {
    (secs + offset) / 86400
}

/// The calendar day of `d` in its own offset (`date_naive`).
pub open spec fn local_day(d: EventDate) -> int {
    day_at(d.secs as int, d.offset as int)
}

/// The calendar day of `d` in Turkish time.
pub open spec fn tr_day(d: EventDate) -> int {
    day_at(d.secs as int, TR_OFFSET_SECS as int)
}

/// `a` is an earlier instant than `b` (offsets do not matter).
pub open spec fn instant_lt(a: EventDate, b: EventDate) -> bool {
    a.secs < b.secs || (a.secs == b.secs && a.nanos < b.nanos)
}

/// `a` and `b` are the same instant.
pub open spec fn same_instant(a: EventDate, b: EventDate) -> bool {
    a.secs == b.secs && a.nanos == b.nanos
}

/// Floor division by the length of a day.
pub fn day_of(secs: i64, offset: i32) -> (r: i64)
    ensures
        r == day_at(secs as int, offset as int),
{
    let t: i128 = secs as i128 + offset as i128;
    let q: i128 = if t >= 0 {
        t / 86400
    } else {
        -((-t + 86399) / 86400)
    };
    assert(q == t / 86400) by (nonlinear_arith)
        requires
            t >= 0 ==> q == t / 86400,
            t < 0 ==> q == -((-t + 86399) / 86400),
    ;
    q as i64
}

pub fn local_day_of(d: &EventDate) -> (r: i64)
    ensures
        r == local_day(*d),
{
    day_of(d.secs, d.offset)
}

pub fn tr_day_of(d: &EventDate) -> (r: i64)
    ensures
        r == tr_day(*d),
{
    day_of(d.secs, TR_OFFSET_SECS)
}

/// `DateTime::parse_from_rfc3339`: the parsed date, if `s` is an RFC 3339 date-time.
pub uninterp spec fn rfc3339(s: Seq<char>) -> Option<EventDate>;

/// Calls `chrono::DateTime::parse_from_rfc3339` and keeps the instant (seconds and
/// nanoseconds since the epoch) and the offset. The result is named; what is stated besides
/// is the range of values that chrono's `DateTime<FixedOffset>` can hold.
#[verifier::external_body]
pub(crate) fn parse_rfc3339(s: &str) -> (r: Option<EventDate>)
    ensures
        r == rfc3339(s@),
        r matches Some(d) ==> d.wf(),
{
    match chrono::DateTime::parse_from_rfc3339(s) {
        Ok(d) => Some(
            EventDate {
                secs: d.timestamp(),
                nanos: d.timestamp_subsec_nanos(),
                offset: d.offset().local_minus_utc(),
            },
        ),
        Err(_) => None,
    }
}

/// The month (counted from 0) and the day of month of a day counted from 1970-01-01, in the
/// proleptic Gregorian calendar: the civil-from-days conversion (eras of 400 years, years
/// starting in March), its divisions truncating toward zero as written.
pub open spec fn civil_month_day(days: int) -> (int, int) {
    let z = days + 719468;
    let era = tdiv(if z >= 0 { z } else { z - 146096 }, 146097);
    let doe = z - era * 146097;
    let yoe = tdiv(doe - tdiv(doe, 1460) + tdiv(doe, 36524) - tdiv(doe, 146096), 365);
    let doy = doe - (365 * yoe + tdiv(yoe, 4) - tdiv(yoe, 100));
    let mp = tdiv(5 * doy + 2, 153);
    let d = doy - tdiv(153 * mp + 2, 5) + 1;
    let m = if mp < 10 { mp + 3 } else { mp - 9 };
    (m - 1, d)
}

/// The month (counted from 0) and day of month of the instant `secs`, read at `offset`: what
/// `chrono`'s `month0()` and `day()` give for it.
pub open spec fn calendar_month_day(secs: i64, offset: i32) -> (int, int) {
    civil_month_day(day_at(secs as int, offset as int))
}

fn calendar_at(secs: i64, offset: i32) -> (r: (i128, i128))
    ensures
        r.0 == calendar_month_day(secs, offset).0,
        r.1 == calendar_month_day(secs, offset).1,
{
    let days = day_of(secs, offset) as i128;
    assert(-200_000_000_000_000 < days < 200_000_000_000_000) by (nonlinear_arith)
        requires
            days == (secs + offset) / 86400,
            -9223372036854775808 <= secs <= 9223372036854775807,
            -2147483648 <= offset <= 2147483647,
    ;
    let z = days + 719468;
    let zz = if z >= 0 { z } else { z - 146096 };
    let era = zz / 146097;
    assert(-2_000_000_000 < era < 2_000_000_000);
    let doe = z - era * 146097;
    let yoe = (doe - doe / 1460 + doe / 36524 - doe / 146096) / 365;
    let doy = doe - (365 * yoe + yoe / 4 - yoe / 100);
    let mp = (5 * doy + 2) / 153;
    let d = doy - (153 * mp + 2) / 5 + 1;
    let m = if mp < 10 { mp + 3 } else { mp - 9 };
    (m - 1, d)
}

pub open spec fn month_name(m: int) -> Seq<char> {
    if m == 0 { "Ocak"@ }
    else if m == 1 { "Şubat"@ }
    else if m == 2 { "Mart"@ }
    else if m == 3 { "Nisan"@ }
    else if m == 4 { "Mayıs"@ }
    else if m == 5 { "Haziran"@ }
    else if m == 6 { "Temmuz"@ }
    else if m == 7 { "Ağustos"@ }
    else if m == 8 { "Eylül"@ }
    else if m == 9 { "Ekim"@ }
    else if m == 10 { "Kasım"@ }
    else { "Aralık"@ }
}

pub open spec fn weekday_name(w: int) -> Seq<char> {
    if w == 0 { "Pazartesi"@ }
    else if w == 1 { "Salı"@ }
    else if w == 2 { "Çarşamba"@ }
    else if w == 3 { "Perşembe"@ }
    else if w == 4 { "Cuma"@ }
    else if w == 5 { "Cumartesi"@ }
    else { "Pazar"@ }
}

fn month_str(m: i128) -> (r: &'static str)
    ensures
        r@ == month_name(m as int),
{
    if m == 0 { "Ocak" }
    else if m == 1 { "Şubat" }
    else if m == 2 { "Mart" }
    else if m == 3 { "Nisan" }
    else if m == 4 { "Mayıs" }
    else if m == 5 { "Haziran" }
    else if m == 6 { "Temmuz" }
    else if m == 7 { "Ağustos" }
    else if m == 8 { "Eylül" }
    else if m == 9 { "Ekim" }
    else if m == 10 { "Kasım" }
    else { "Aralık" }
}

fn weekday_str(w: i64) -> (r: &'static str)
    ensures
        r@ == weekday_name(w as int),
{
    if w == 0 { "Pazartesi" }
    else if w == 1 { "Salı" }
    else if w == 2 { "Çarşamba" }
    else if w == 3 { "Perşembe" }
    else if w == 4 { "Cuma" }
    else if w == 5 { "Cumartesi" }
    else { "Pazar" }
}

/// Two digits, zero-padded (`{:02}` of a value below 100).
pub open spec fn pad2(n: int) -> Seq<char> {
    if 0 <= n < 10 {
        seq!['0'] + int_str(n)
    } else {
        int_str(n)
    }
}

pub fn push_pad2(out: &mut Vec<char>, n: i64)
    ensures
        final(out)@ == old(out)@ + pad2(n as int),
{
    if 0 <= n && n < 10 {
        out.push('0');
    }
    push_i64(out, n);
}

/// Seconds into the Turkish day.
pub open spec fn tr_second_of_day(secs: int) -> int {
    (secs + TR_OFFSET_SECS) % 86400
}

/// Day of the week in Turkish time, Monday = 0 (1970-01-01 was a Thursday).
pub open spec fn tr_weekday(secs: int) -> int {
    (day_at(secs, TR_OFFSET_SECS as int) + 3) % 7
}

/// "11 Ekim Cumartesi 21:00"
pub open spec fn fmt_date_spec(d: EventDate) -> Seq<char> {
    let md = calendar_month_day(d.secs, TR_OFFSET_SECS);
    let sod = tr_second_of_day(d.secs as int);
    int_str(md.1) + " "@ + month_name(md.0) + " "@ + weekday_name(tr_weekday(d.secs as int))
        + " "@ + pad2(sod / 3600) + ":"@ + pad2((sod % 3600) / 60)
}

/// "11 Eki"
pub open spec fn fmt_date_short_spec(d: EventDate) -> Seq<char> {
    let md = calendar_month_day(d.secs, TR_OFFSET_SECS);
    let m = month_name(md.0);
    int_str(md.1) + " "@ + m.take(if m.len() < 3 { m.len() as int } else { 3 })
}

#[verifier::rlimit(40)]
#[verifier::spinoff_prover]
pub(crate) fn push_date(out: &mut Vec<char>, d: &EventDate)
    requires
        d.wf(),
    ensures
        final(out)@ == old(out)@ + fmt_date_spec(*d),
{
    let md = calendar_at(d.secs, TR_OFFSET_SECS);
    let day = tr_day_of(d);
    let t: i128 = d.secs as i128 + TR_OFFSET_SECS as i128 - (day as i128) * 86400;
    assert(t == tr_second_of_day(d.secs as int)) by (nonlinear_arith)
        requires
            t == d.secs + TR_OFFSET_SECS - day * 86400,
            day == (d.secs + TR_OFFSET_SECS) / 86400,
    ;
    let wd: i128 = ((day as i128) + 3) % 7;
    let wd = if wd < 0 { wd + 7 } else { wd };
    assert(wd == tr_weekday(d.secs as int)) by (nonlinear_arith)
        requires
            day == (d.secs + TR_OFFSET_SECS) / 86400,
            wd == (if (day + 3) % 7 < 0 { (day + 3) % 7 + 7 } else { (day + 3) % 7 }),
    ;
    let ghost start = out@;
    push_i128(out, md.1);
    push_str(out, " ");
    push_str(out, month_str(md.0));
    push_str(out, " ");
    push_str(out, weekday_str(wd as i64));
    push_str(out, " ");
    push_pad2(out, (t / 3600) as i64);
    push_str(out, ":");
    push_pad2(out, ((t % 3600) / 60) as i64);
    assert(out@ =~= start + fmt_date_spec(*d));
}

pub(crate) fn push_date_short(out: &mut Vec<char>, d: &EventDate)
    requires
        d.wf(),
    ensures
        final(out)@ == old(out)@ + fmt_date_short_spec(*d),
{
    let md = calendar_at(d.secs, TR_OFFSET_SECS);
    let ghost start = out@;
    push_i128(out, md.1);
    push_str(out, " ");
    let m = chars_of(month_str(md.0));
    let mut i: usize = 0;
    while i < 3 && i < m.len()
        invariant
            0 <= i <= 3,
            i <= m.len(),
            out@ == start + int_str(md.1 as int) + " "@ + m@.take(i as int),
        decreases 3 - i,
    {
        out.push(m[i]);
        i = i + 1;
        assert(m@.take(i as int) =~= m@.take(i - 1).push(m@[i - 1]));
    }
}

/// "11 Ekim Cumartesi 21:00" (Turkish time).
pub fn fmt_date(d: &EventDate) -> (r: String)
    requires
        d.wf(),
    ensures
        r@ == fmt_date_spec(*d),
{
    let mut out: Vec<char> = Vec::new();
    push_date(&mut out, d);
    string_of(&out)
}

/// "11 Eki" (Turkish time).
pub fn fmt_date_short(d: &EventDate) -> (r: String)
    requires
        d.wf(),
    ensures
        r@ == fmt_date_short_spec(*d),
{
    let mut out: Vec<char> = Vec::new();
    push_date_short(&mut out, d);
    string_of(&out)
}

// ---------------------------------------------------------------------------------------------
// Events
// ---------------------------------------------------------------------------------------------

/// One event (or one session of an event) sold on one site.
#[derive(Debug, PartialEq)]
pub struct Event {
    pub source: SourceId,
    /// Identifier unique within the source (slug, event code, slug@date...).
    pub id: String,
    pub title: String,
    pub venue: String,
    pub date: Option<EventDate>,
    pub category: String,
    pub url: String,
    /// Ticket category name -> price in kuruş.
    pub tiers: KeyedMap<i64>,
    pub sold_out: bool,
    /// Ticket category name -> the site's crossed-out price before the discount, in kuruş.
    /// Only discounted categories.
    pub list_prices: KeyedMap<i64>,
}

/// The mathematical content of an `Event`.
pub struct EventView {
    pub source: SourceId,
    pub id: Seq<char>,
    pub title: Seq<char>,
    pub venue: Seq<char>,
    pub date: Option<EventDate>,
    pub category: Seq<char>,
    pub url: Seq<char>,
    pub tiers: Seq<(Seq<char>, i64)>,
    pub sold_out: bool,
    pub list_prices: Seq<(Seq<char>, i64)>,
}

impl View for Event {
    type V = EventView;

    open spec fn view(&self) -> EventView {
        EventView {
            source: self.source,
            id: self.id@,
            title: self.title@,
            venue: self.venue@,
            date: self.date,
            category: self.category@,
            url: self.url@,
            tiers: self.tiers@,
            sold_out: self.sold_out,
            list_prices: self.list_prices@,
        }
    }
}

impl Clone for Event {
    fn clone(&self) -> (r: Self)
        ensures
            r@ == self@,
    {
        Event {
            source: self.source,
            id: self.id.clone(),
            title: self.title.clone(),
            venue: self.venue.clone(),
            date: self.date,
            category: self.category.clone(),
            url: self.url.clone(),
            tiers: self.tiers.clone(),
            sold_out: self.sold_out,
            list_prices: self.list_prices.clone(),
        }
    }
}

/// "bubilet:<id>": the event's key in the stored state.
pub open spec fn event_key(e: EventView) -> Seq<char> {
    source_slug(e.source) + ":"@ + e.id
}

/// The lowest price over the categories.
pub open spec fn min_value(s: Seq<(Seq<char>, i64)>) -> Option<i64>
    decreases s.len(),
{
    if s.len() == 0 {
        None
    } else {
        match min_value(s.drop_last()) {
            Some(m) => Some(if s.last().1 < m { s.last().1 } else { m }),
            None => Some(s.last().1),
        }
    }
}

/// The discounted categories, in category order: (category, list price, price now).
pub open spec fn discount_candidates(tiers: Seq<(Seq<char>, i64)>, list: Map<Seq<char>, i64>) -> Seq<
    (Seq<char>, i64, i64),
>
    decreases tiers.len(),
{
    if tiers.len() == 0 {
        seq![]
    } else {
        let rest = discount_candidates(tiers.drop_last(), list);
        let t = tiers.last();
        if list.contains_key(t.0) && list[t.0] > t.1 {
            rest.push((t.0, list[t.0], t.1))
        } else {
            rest
        }
    }
}

/// Order of the discount list: by price now, then by category name.
pub open spec fn discount_after(a: (Seq<char>, i64, i64), b: (Seq<char>, i64, i64)) -> bool {
    a.2 > b.2 || (a.2 == b.2 && seq_lt(b.0, a.0))
}

/// The categories the site shows as discounted: (category, list price, price now),
/// cheapest first; none when sold out.
pub open spec fn discounts_of(e: EventView) -> Seq<(Seq<char>, i64, i64)> {
    if e.sold_out {
        seq![]
    } else {
        stable_sorted(
            discount_candidates(e.tiers, map_of(e.list_prices)),
            |a: (Seq<char>, i64, i64), b: (Seq<char>, i64, i64)| discount_after(a, b),
        )
    }
}

/// The cheapest discounted category's (list price, price now).
pub open spec fn discount_of(e: EventView) -> Option<(i64, i64)> {
    let d = discounts_of(e);
    if d.len() == 0 {
        None
    } else {
        Some((d[0].1, d[0].2))
    }
}

/// The order of the discount list is a strict weak order.
proof fn lemma_discount_order()
    ensures
        strict_weak(|a: (Seq<char>, i64, i64), b: (Seq<char>, i64, i64)| discount_after(a, b)),
{
    let gt = |a: (Seq<char>, i64, i64), b: (Seq<char>, i64, i64)| discount_after(a, b);
    assert forall|a: (Seq<char>, i64, i64), b: (Seq<char>, i64, i64)| #[trigger] gt(a, b) implies !gt(b, a) by {
        lemma_lt_asymmetric(b.0, a.0);
    }
    assert forall|a: (Seq<char>, i64, i64), b: (Seq<char>, i64, i64), c: (Seq<char>, i64, i64)|
        #![trigger gt(a, b), gt(b, c)] !gt(a, b) && !gt(b, c) implies !gt(a, c) by {
        if a.2 == b.2 && b.2 == c.2 && seq_lt(c.0, a.0) {
            lemma_lt_total(a.0, b.0);
            lemma_lt_total(b.0, c.0);
            lemma_lt_irreflexive(a.0);
            lemma_lt_asymmetric(a.0, c.0);
            if seq_lt(a.0, b.0) && seq_lt(b.0, c.0) {
                lemma_lt_transitive(a.0, b.0, c.0);
            }
        }
    }
}

/// `Event::discounts` lists the discounted categories cheapest first.
pub proof fn discounts_come_cheapest_first(e: EventView)
    ensures
        forall|i: int, j: int| 0 <= i < j < discounts_of(e).len() ==> #[trigger] discounts_of(e)[i].2 <= #[trigger] discounts_of(e)[j].2,
{
    if !e.sold_out {
        let gt = |a: (Seq<char>, i64, i64), b: (Seq<char>, i64, i64)| discount_after(a, b);
        lemma_discount_order();
        lemma_stable_sorted_sorted(discount_candidates(e.tiers, map_of(e.list_prices)), gt);
        let d = discounts_of(e);
        assert forall|i: int, j: int| 0 <= i < j < d.len() implies #[trigger] d[i].2 <= #[trigger] d[j].2 by {
            assert(!gt(d[i], d[j]));
        }
    }
}

proof fn lemma_candidates(tiers: Seq<(Seq<char>, i64)>, list: Map<Seq<char>, i64>)
    ensures
        forall|i: int|
            0 <= i < tiers.len() && list.contains_key(tiers[i].0) && list[tiers[i].0] > tiers[i].1 ==> discount_candidates(
                tiers,
                list,
            ).contains((#[trigger] tiers[i].0, list[tiers[i].0], tiers[i].1)),
        forall|k: int|
            0 <= k < discount_candidates(tiers, list).len() ==> exists|i: int|
                0 <= i < tiers.len() && #[trigger] tiers[i] == ((#[trigger] discount_candidates(tiers, list)[k]).0,
                    discount_candidates(tiers, list)[k].2) && list.contains_key(tiers[i].0) && list[tiers[i].0]
                    == discount_candidates(tiers, list)[k].1 && discount_candidates(tiers, list)[k].1
                    > discount_candidates(tiers, list)[k].2,
    decreases tiers.len(),
{
    if tiers.len() > 0 {
        let t = tiers.drop_last();
        let n = tiers.len() - 1;
        lemma_candidates(t, list);
        let c0 = discount_candidates(t, list);
        let c = discount_candidates(tiers, list);
        assert(tiers[n] == tiers.last());
        assert forall|i: int|
            0 <= i < tiers.len() && list.contains_key(tiers[i].0) && list[tiers[i].0] > tiers[i].1 implies c.contains(
            (#[trigger] tiers[i].0, list[tiers[i].0], tiers[i].1),
        ) by {
            if i < n {
                assert(t[i] == tiers[i]);
                let k = choose|k: int| 0 <= k < c0.len() && c0[k] == (t[i].0, list[t[i].0], t[i].1);
                assert(c[k] == c0[k]);
            } else {
                assert(c[c0.len() as int] == (tiers[i].0, list[tiers[i].0], tiers[i].1));
            }
        }
        assert forall|k: int| 0 <= k < c.len() implies exists|i: int|
            0 <= i < tiers.len() && #[trigger] tiers[i] == ((#[trigger] c[k]).0, c[k].2) && list.contains_key(tiers[i].0)
                && list[tiers[i].0] == c[k].1 && c[k].1 > c[k].2 by {
            if k < c0.len() {
                assert(c[k] == c0[k]);
                let i = choose|i: int|
                    0 <= i < t.len() && #[trigger] t[i] == (c0[k].0, c0[k].2) && list.contains_key(t[i].0) && list[t[i].0]
                        == c0[k].1 && c0[k].1 > c0[k].2;
                assert(tiers[i] == t[i]);
            } else {
                assert(tiers[n] == (c[k].0, c[k].2));
            }
        }
    }
}

/// `Event::discounts` lists exactly the categories whose list price is above their price
/// now (none when sold out), each with both prices; cheapest first, and at the same price in
/// the order of the categories' names.
pub proof fn discounts_are_the_discounted_categories(e: EventView)
    ensures
        e.sold_out ==> discounts_of(e).len() == 0,
        !e.sold_out ==> forall|i: int|
            0 <= i < e.tiers.len() && map_of(e.list_prices).contains_key(e.tiers[i].0) && map_of(e.list_prices)[e.tiers[i].0]
                > e.tiers[i].1 ==> discounts_of(e).contains(
                (#[trigger] e.tiers[i].0, map_of(e.list_prices)[e.tiers[i].0], e.tiers[i].1),
            ),
        forall|k: int|
            0 <= k < discounts_of(e).len() ==> exists|i: int|
                0 <= i < e.tiers.len() && #[trigger] e.tiers[i] == ((#[trigger] discounts_of(e)[k]).0, discounts_of(e)[k].2)
                    && map_of(e.list_prices).contains_key(e.tiers[i].0) && map_of(e.list_prices)[e.tiers[i].0]
                    == discounts_of(e)[k].1 && discounts_of(e)[k].1 > discounts_of(e)[k].2,
        forall|i: int, j: int|
            0 <= i < j < discounts_of(e).len() ==> (#[trigger] discounts_of(e)[i]).2 < (#[trigger] discounts_of(e)[j]).2 || (
            discounts_of(e)[i].2 == discounts_of(e)[j].2 && !seq_lt(discounts_of(e)[j].0, discounts_of(e)[i].0)),
{
    if !e.sold_out {
        let gt = |a: (Seq<char>, i64, i64), b: (Seq<char>, i64, i64)| discount_after(a, b);
        let list = map_of(e.list_prices);
        let c = discount_candidates(e.tiers, list);
        let d = discounts_of(e);
        lemma_candidates(e.tiers, list);
        lemma_discount_order();
        lemma_stable_sorted_sorted(c, gt);
        crate::text::lemma_stable_sorted_keeps(c, gt);
        crate::messages::lemma_sorted_members_all(c, gt);
        assert forall|i: int|
            0 <= i < e.tiers.len() && list.contains_key(e.tiers[i].0) && list[e.tiers[i].0] > e.tiers[i].1 implies d.contains(
            (#[trigger] e.tiers[i].0, list[e.tiers[i].0], e.tiers[i].1),
        ) by {
            let x = (e.tiers[i].0, list[e.tiers[i].0], e.tiers[i].1);
            let k = choose|k: int| 0 <= k < c.len() && c[k] == x;
            assert(d.contains(c[k]));
        }
        assert forall|k: int| 0 <= k < d.len() implies exists|i: int|
            0 <= i < e.tiers.len() && #[trigger] e.tiers[i] == ((#[trigger] d[k]).0, d[k].2) && list.contains_key(e.tiers[i].0)
                && list[e.tiers[i].0] == d[k].1 && d[k].1 > d[k].2 by {
            assert(c.contains(d[k]));
            let m = choose|m: int| 0 <= m < c.len() && c[m] == d[k];
            assert(c[m] == d[k]);
        }
        assert forall|i: int, j: int| 0 <= i < j < d.len() implies (#[trigger] d[i]).2 < (#[trigger] d[j]).2 || (
            d[i].2 == d[j].2 && !seq_lt(d[j].0, d[i].0)) by {
            assert(!gt(d[i], d[j]));
        }
    }
}

proof fn lemma_candidates_sorted(tiers: Seq<(Seq<char>, i64)>, list: Map<Seq<char>, i64>)
    requires
        keys_sorted(tiers),
    ensures
        forall|a: int, b: int|
            0 <= a < b < discount_candidates(tiers, list).len() ==> seq_lt(
                #[trigger] discount_candidates(tiers, list)[a].0,
                #[trigger] discount_candidates(tiers, list)[b].0,
            ),
    decreases tiers.len(),
{
    if tiers.len() > 0 {
        let t = tiers.drop_last();
        let n = tiers.len() - 1;
        assert(keys_sorted(t)) by {
            assert forall|a: int, b: int| 0 <= a < b < t.len() implies seq_lt(#[trigger] t[a].0, #[trigger] t[b].0) by {
                assert(t[a] == tiers[a] && t[b] == tiers[b]);
            }
        }
        lemma_candidates_sorted(t, list);
        lemma_candidates(t, list);
        let c0 = discount_candidates(t, list);
        let c = discount_candidates(tiers, list);
        assert(tiers[n] == tiers.last());
        assert forall|a: int, b: int| 0 <= a < b < c.len() implies seq_lt(#[trigger] c[a].0, #[trigger] c[b].0) by {
            assert(c[a] == c0[a]);
            if b < c0.len() {
                assert(c[b] == c0[b]);
            } else {
                assert(c[b].0 == tiers[n].0);
                let i = choose|i: int|
                    0 <= i < t.len() && #[trigger] t[i] == (c0[a].0, c0[a].2) && list.contains_key(t[i].0) && list[t[i].0]
                        == c0[a].1 && c0[a].1 > c0[a].2;
                assert(t[i] == tiers[i]);
            }
        }
    }
}

/// `Event::discounts` lists each category once (the categories of an `Event` are distinct).
pub proof fn each_discounted_category_once(e: EventView)
    requires
        keys_sorted(e.tiers),
    ensures
        discounts_of(e).no_duplicates(),
        forall|i: int, j: int|
            0 <= i < discounts_of(e).len() && 0 <= j < discounts_of(e).len() && i != j ==> (#[trigger] discounts_of(e)[i]).0
                != (#[trigger] discounts_of(e)[j]).0,
{
    if !e.sold_out {
        let gt = |a: (Seq<char>, i64, i64), b: (Seq<char>, i64, i64)| discount_after(a, b);
        let c = discount_candidates(e.tiers, map_of(e.list_prices));
        let d = discounts_of(e);
        lemma_candidates_sorted(e.tiers, map_of(e.list_prices));
        assert(c.no_duplicates()) by {
            assert forall|a: int, b: int| 0 <= a < c.len() && 0 <= b < c.len() && a != b implies c[a] != c[b] by {
                lemma_lt_irreflexive(c[a].0);
                if a < b {
                    assert(seq_lt(c[a].0, c[b].0));
                } else {
                    assert(seq_lt(c[b].0, c[a].0));
                }
            }
        }
        crate::text::lemma_stable_sorted_no_duplicates(c, gt);
        crate::messages::lemma_sorted_members_all(c, gt);
        assert forall|i: int, j: int| 0 <= i < d.len() && 0 <= j < d.len() && i != j implies (#[trigger] d[i]).0
            != (#[trigger] d[j]).0 by {
            assert(c.contains(d[i]) && c.contains(d[j]));
            let a = choose|a: int| 0 <= a < c.len() && c[a] == d[i];
            let b = choose|b: int| 0 <= b < c.len() && c[b] == d[j];
            lemma_lt_irreflexive(c[a].0);
            if a < b {
                assert(seq_lt(c[a].0, c[b].0));
            } else if b < a {
                assert(seq_lt(c[b].0, c[a].0));
            }
        }
    }
}

pub open spec fn triple_view(t: (String, i64, i64)) -> (Seq<char>, i64, i64) {
    (t.0@, t.1, t.2)
}

fn discount_gt(a: &(String, i64, i64), b: &(String, i64, i64)) -> (r: bool)
    ensures
        r == discount_after(triple_view(*a), triple_view(*b)),
{
    a.2 > b.2 || (a.2 == b.2 && string_lt(&b.0, &a.0))
}

impl Event {
    pub fn key(&self) -> (r: String)
        ensures
            r@ == event_key(self@),
    {
        let mut out: Vec<char> = Vec::new();
        push_str(&mut out, self.source.slug());
        push_str(&mut out, ":");
        push_string(&mut out, &self.id);
        string_of(&out)
    }

    pub fn min_price(&self) -> (r: Option<i64>)
        ensures
            r == min_value(self.tiers@),
    {
        let es = self.tiers.entries();
        let mut m: Option<i64> = None;
        let mut i: usize = 0;
        while i < es.len()
            invariant
                0 <= i <= es@.len(),
                es@.len() == self.tiers@.len(),
                forall|j: int| 0 <= j < es@.len() ==> (#[trigger] es@[j]).1 == self.tiers@[j].1,
                m == min_value(self.tiers@.take(i as int)),
            decreases es.len() - i,
        {
            let p = es[i].1;
            assert(self.tiers@.take(i + 1).drop_last() =~= self.tiers@.take(i as int));
            m = match m {
                Some(x) => Some(if p < x { p } else { x }),
                None => Some(p),
            };
            i = i + 1;
        }
        assert(self.tiers@.take(i as int) =~= self.tiers@);
        m
    }

    /// The categories the site shows as discounted: (category, list price, price now),
    /// cheapest first.
    pub fn discounts(&self) -> (r: Vec<(String, i64, i64)>)
        ensures
            r@.map_values(|t: (String, i64, i64)| triple_view(t)) == discounts_of(self@),
    {
        if self.sold_out {
            let r: Vec<(String, i64, i64)> = Vec::new();
            assert(r@.map_values(|t: (String, i64, i64)| triple_view(t)) =~= Seq::<(Seq<char>, i64, i64)>::empty());
            return r;
        }
        let es = self.tiers.entries();
        let mut cands: Vec<(String, i64, i64)> = Vec::new();
        let mut i: usize = 0;
        while i < es.len()
            invariant
                0 <= i <= es@.len(),
                es@.len() == self.tiers@.len(),
                forall|j: int| 0 <= j < es@.len() ==> (#[trigger] es@[j]).0@ == self.tiers@[j].0
                    && es@[j].1 == self.tiers@[j].1,
                cands@.map_values(|t: (String, i64, i64)| triple_view(t)) == discount_candidates(
                    self.tiers@.take(i as int),
                    map_of(self.list_prices@),
                ),
            decreases es.len() - i,
        {
            let ghost before = cands@;
            assert(self.tiers@.take(i + 1).drop_last() =~= self.tiers@.take(i as int));
            assert(self.tiers@.take(i + 1).last() == self.tiers@[i as int]);
            let now = es[i].1;
            match self.list_prices.get(&es[i].0) {
                Some(l) => {
                    if *l > now {
                        cands.push((es[i].0.clone(), *l, now));
                        assert(cands@.map_values(|t: (String, i64, i64)| triple_view(t)) =~= before.map_values(
                            |t: (String, i64, i64)| triple_view(t),
                        ).push((es@[i as int].0@, *l, now)));
                    }
                },
                None => {},
            }
            i = i + 1;
        }
        assert(self.tiers@.take(i as int) =~= self.tiers@);
        let ghost g = |a: (String, i64, i64), b: (String, i64, i64)| discount_after(triple_view(a), triple_view(b));
        let ghost gv = |a: (Seq<char>, i64, i64), b: (Seq<char>, i64, i64)| discount_after(a, b);
        let r = stable_sort(cands, discount_gt, Ghost(g));
        proof {
            lemma_stable_sorted_map(cands@, |t: (String, i64, i64)| triple_view(t), g, gv);
        }
        r
    }

    /// The cheapest discounted category's (list price, price now), if any.
    pub fn discount(&self) -> (r: Option<(i64, i64)>)
        ensures
            r == discount_of(self@),
    {
        let d = self.discounts();
        if d.len() == 0 {
            None
        } else {
            assert(triple_view(d@[0]) == discounts_of(self@)[0]);
            Some((d[0].1, d[0].2))
        }
    }
}

// ---------------------------------------------------------------------------------------------
// Money
// ---------------------------------------------------------------------------------------------

pub open spec fn is_digit(c: char) -> bool {
    '0' <= c && c <= '9'
}

pub open spec fn all_digits(s: Seq<char>) -> bool {
    forall|i: int| 0 <= i < s.len() ==> is_digit(#[trigger] s[i])
}

/// The number written by a string of decimal digits.
pub open spec fn digits_value(s: Seq<char>) -> nat
    decreases s.len(),
{
    if s.len() == 0 {
        0
    } else {
        digits_value(s.drop_last()) * 10 + ((s.last() as int) - 48) as nat
    }
}

pub open spec fn is_tl_char(c: char) -> bool {
    is_digit(c) || c == ',' || c == '.'
}

/// The digits, commas and dots of `s`, in order.
pub open spec fn tl_chars(s: Seq<char>) -> Seq<char>
    decreases s.len(),
{
    if s.len() == 0 {
        s
    } else if is_tl_char(s.last()) {
        tl_chars(s.drop_last()).push(s.last())
    } else {
        tl_chars(s.drop_last())
    }
}

/// `s` without its dots.
pub open spec fn without_dots(s: Seq<char>) -> Seq<char>
    decreases s.len(),
{
    if s.len() == 0 {
        s
    } else if s.last() == '.' {
        without_dots(s.drop_last())
    } else {
        without_dots(s.drop_last()).push(s.last())
    }
}

/// The position of the last occurrence of `c` in `s`.
pub open spec fn last_index_of(s: Seq<char>, c: char) -> Option<int>
    decreases s.len(),
{
    if s.len() == 0 {
        None
    } else if s.last() == c {
        Some(s.len() - 1)
    } else {
        last_index_of(s.drop_last(), c)
    }
}

/// The value in kuruş of a price text such as "₺1.350,00", "1.350,00" or "1350": only
/// digits, commas and dots count; the last comma separates the kuruş (one digit means tens,
/// more than two are cut), dots group thousands; `None` when that does not read as a number.
pub open spec fn tl_value(s: Seq<char>) -> Option<int> {
    let cl = tl_chars(s);
    if cl.len() == 0 {
        None
    } else {
        let (w, f) = match last_index_of(cl, ',') {
            Some(i) => (cl.take(i), cl.skip(i + 1)),
            None => (cl, Seq::<char>::empty()),
        };
        let w = without_dots(w);
        if !(w.len() > 0 && all_digits(w) && digits_value(w) <= i64::MAX) {
            None
        } else if f.len() == 0 {
            Some((digits_value(w) * 100) as int)
        } else if f.len() == 1 {
            if all_digits(f) {
                Some((digits_value(w) * 100 + digits_value(f) * 10) as int)
            } else {
                None
            }
        } else if all_digits(f.take(2)) {
            Some((digits_value(w) * 100 + digits_value(f.take(2))) as int)
        } else {
            None
        }
    }
}

pub proof fn lemma_digits_value_prefix(s: Seq<char>, i: int)
    requires
        0 <= i <= s.len(),
        all_digits(s),
    ensures
        digits_value(s.take(i)) <= digits_value(s),
    decreases s.len() - i,
{
    if i < s.len() {
        lemma_digits_value_prefix(s, i + 1);
        assert(s.take(i + 1).drop_last() =~= s.take(i));
        assert(is_digit(s[i]));
    } else {
        assert(s.take(i) =~= s);
    }
}

/// Reads the digits of `s` from position `start` on; `None` when there are none, one is not
/// a digit, or the value exceeds `limit`.
fn read_digits(s: &Vec<char>, start: usize, limit: u64) -> (r: Option<u64>)
    requires
        start <= s@.len(),
    ensures
        r matches Some(v) ==> s@.skip(start as int).len() > 0 && all_digits(s@.skip(start as int))
            && v == digits_value(s@.skip(start as int)) && v <= limit,
        r is None ==> !(s@.skip(start as int).len() > 0 && all_digits(s@.skip(start as int))
            && digits_value(s@.skip(start as int)) <= limit),
{
    let ghost t = s@.skip(start as int);
    if s.len() == start {
        return None;
    }
    let mut acc: u64 = 0;
    let mut i: usize = start;
    while i < s.len()
        invariant
            start <= i <= s@.len(),
            t == s@.skip(start as int),
            all_digits(t.take(i - start)),
            acc == digits_value(t.take(i - start)),
            acc <= limit,
        decreases s.len() - i,
    {
        let c = s[i];
        assert(t.take(i + 1 - start).drop_last() =~= t.take(i - start));
        assert(t[i - start] == s@[i as int]);
        if !('0' <= c && c <= '9') {
            assert(!is_digit(t[i - start]));
            return None;
        }
        let d = (c as u32 - 48) as u64;
        let next: u128 = (acc as u128) * 10 + d as u128;
        if next > limit as u128 {
            proof {
                if all_digits(t) {
                    lemma_digits_value_prefix(t, i + 1 - start);
                }
            }
            return None;
        }
        acc = next as u64;
        i = i + 1;
        assert(all_digits(t.take(i - start)));
    }
    assert(t.take(i - start) =~= t);
    Some(acc)
}

/// Reads a string of digits; `None` when it is empty, holds another character or
/// exceeds `i64::MAX`.
fn parse_digits(s: &Vec<char>) -> (r: Option<u64>)
    ensures
        r matches Some(v) ==> s@.len() > 0 && all_digits(s@) && v == digits_value(s@) && v <= i64::MAX,
        r is None ==> !(s@.len() > 0 && all_digits(s@) && digits_value(s@) <= i64::MAX),
{
    assert(s@.skip(0) =~= s@);
    read_digits(s, 0, 9223372036854775807)
}

/// `str::parse` of an integer: an optional sign (`-` only for a signed type), then one or
/// more ASCII digits.
pub open spec fn int_text(s: Seq<char>, signed: bool) -> Option<int> {
    let neg = signed && s.len() > 0 && s[0] == '-';
    let d = if s.len() > 0 && (s[0] == '+' || neg) { s.drop_first() } else { s };
    if d.len() > 0 && all_digits(d) {
        Some(if neg { -(digits_value(d) as int) } else { digits_value(d) as int })
    } else {
        None
    }
}

/// `str::parse::<u64>`.
pub open spec fn u64_text(s: Seq<char>) -> Option<u64> {
    match int_text(s, false) {
        Some(v) => if v <= u64::MAX { Some(v as u64) } else { None },
        None => None,
    }
}

/// `str::parse::<i64>`.
pub open spec fn i64_text(s: Seq<char>) -> Option<i64> {
    match int_text(s, true) {
        Some(v) => if i64::MIN <= v <= i64::MAX { Some(v as i64) } else { None },
        None => None,
    }
}

/// `str::parse::<u64>` on the characters.
pub(crate) fn parse_u64_chars(v: &Vec<char>) -> (r: Option<u64>)
    ensures
        r == u64_text(v@),
{
    let start: usize = if v.len() > 0 && v[0] == '+' { 1 } else { 0 };
    assert(v@.skip(0) =~= v@);
    assert(v@.skip(1) =~= v@.drop_first());
    read_digits(v, start, 18446744073709551615)
}

/// `str::parse::<u64>`.
pub fn parse_u64(s: &str) -> (r: Option<u64>)
    ensures
        r == u64_text(s@),
{
    parse_u64_chars(&chars_of(s))
}

/// `str::parse::<i64>`.
pub fn parse_i64(s: &str) -> (r: Option<i64>)
    ensures
        r == i64_text(s@),
{
    parse_i64_chars(&chars_of(s))
}

/// `str::parse::<i64>` on the characters.
pub(crate) fn parse_i64_chars(v: &Vec<char>) -> (r: Option<i64>)
    ensures
        r == i64_text(v@),
{
    assert(v@.skip(0) =~= v@);
    assert(v@.skip(1) =~= v@.drop_first());
    if v.len() > 0 && v[0] == '-' {
        match read_digits(v, 1, 9223372036854775808) {
            Some(m) => Some((0 - (m as i128)) as i64),
            None => None,
        }
    } else {
        let start: usize = if v.len() > 0 && v[0] == '+' { 1 } else { 0 };
        match read_digits(v, start, 9223372036854775807) {
            Some(m) => Some(m as i64),
            None => None,
        }
    }
}

/// One or two digits are worth less than 100.
proof fn lemma_short_digits(f: Seq<char>)
    requires
        1 <= f.len() <= 2,
        all_digits(f),
    ensures
        digits_value(f) < (if f.len() == 1 { 10int } else { 100int }),
{
    reveal_with_fuel(digits_value, 3);
    let a = f.drop_last();
    assert(is_digit(f[f.len() - 1]));
    assert(0 <= (f.last() as int) - 48 <= 9);
    if f.len() == 2 {
        assert(a.drop_last() =~= Seq::<char>::empty());
        assert(a.last() == f[0]);
        assert(is_digit(f[0]));
        assert(0 <= (a.last() as int) - 48 <= 9);
        assert(digits_value(a) <= 9);
    } else {
        assert(a =~= Seq::<char>::empty());
        assert(digits_value(a) == 0);
    }
}

/// The value of a price text in kuruş, as `tl_value` states it, without a bound.
fn tl_amount(s: &str) -> (r: Option<u128>)
    ensures
        r matches Some(v) ==> tl_value(s@) == Some(v as int),
        r is None <==> tl_value(s@) is None,
{
    let src = chars_of(s);
    let mut cl: Vec<char> = Vec::new();
    let mut i: usize = 0;
    while i < src.len()
        invariant
            0 <= i <= src@.len(),
            cl@ == tl_chars(src@.take(i as int)),
        decreases src.len() - i,
    {
        let c = src[i];
        assert(src@.take(i + 1).drop_last() =~= src@.take(i as int));
        if ('0' <= c && c <= '9') || c == ',' || c == '.' {
            cl.push(c);
        }
        i = i + 1;
    }
    assert(src@.take(i as int) =~= src@);
    if cl.len() == 0 {
        return None;
    }
    // last comma
    let mut k: usize = cl.len();
    assert(cl@.take(cl@.len() as int) =~= cl@);
    while k > 0 && cl[k - 1] != ','
        invariant
            0 <= k <= cl@.len(),
            last_index_of(cl@, ',') == last_index_of(cl@.take(k as int), ','),
        decreases k,
    {
        assert(cl@.take(k as int).drop_last() =~= cl@.take(k - 1));
        k = k - 1;
    }
    assert(cl@.take(cl@.len() as int) =~= cl@);
    let comma: Option<usize> = if k > 0 { Some(k - 1) } else { None };
    assert(comma matches Some(c) ==> last_index_of(cl@, ',') == Some(c as int));
    assert(comma is None ==> last_index_of(cl@.take(0), ',') is None);
    let wend: usize = match comma { Some(c) => c, None => cl.len() };
    let mut w: Vec<char> = Vec::new();
    let mut j: usize = 0;
    while j < wend
        invariant
            0 <= j <= wend,
            wend <= cl@.len(),
            w@ == without_dots(cl@.take(j as int)),
        decreases wend - j,
    {
        assert(cl@.take(j + 1).drop_last() =~= cl@.take(j as int));
        if cl[j] != '.' {
            w.push(cl[j]);
        }
        j = j + 1;
    }
    let mut f: Vec<char> = Vec::new();
    match comma {
        Some(c) => {
            let mut j2: usize = c + 1;
            while j2 < cl.len()
                invariant
                    c + 1 <= j2 <= cl@.len(),
                    f@ == cl@.subrange(c + 1, j2 as int),
                decreases cl.len() - j2,
            {
                f.push(cl[j2]);
                j2 = j2 + 1;
                assert(f@ =~= cl@.subrange(c + 1, j2 as int));
            }
            assert(f@ =~= cl@.skip(c + 1));
        },
        None => {
            assert(cl@.take(wend as int) =~= cl@);
        },
    }
    let whole = match parse_digits(&w) {
        Some(v) => v,
        None => {
            return None;
        },
    };
    let frac: u64 = if f.len() == 0 {
        0
    } else if f.len() == 1 {
        proof {
            if all_digits(f@) {
                lemma_short_digits(f@);
            }
        }
        match parse_digits(&f) {
            Some(v) => v * 10,
            None => {
                return None;
            },
        }
    } else {
        let f2: Vec<char> = vec![f[0], f[1]];
        assert(f2@ =~= f@.take(2));
        proof {
            if all_digits(f2@) {
                lemma_short_digits(f2@);
            }
        }
        match parse_digits(&f2) {
            Some(v) => v,
            None => {
                return None;
            },
        }
    };
    assert(frac < 100) by {
        if f@.len() == 1 {
            assert(f@.drop_last() =~= Seq::<char>::empty());
            assert(f@.last() == f@[0]);
            assert(digits_value(f@.drop_last()) == 0);
            assert(is_digit(f@[0]));
            assert(digits_value(f@) == ((f@[0] as int) - 48) as nat);
        } else if f@.len() >= 2 {
            let t = f@.take(2);
            assert(t.drop_last().drop_last() =~= Seq::<char>::empty());
            assert(is_digit(t[0]) && is_digit(t[1]));
            assert(t.drop_last().last() == t[0]);
            assert(digits_value(t.drop_last().drop_last()) == 0);
            assert(t.last() == t[1]);
            assert(digits_value(t.drop_last()) == ((t[0] as int) - 48) as nat);
            assert(digits_value(t) == digits_value(t.drop_last()) * 10 + ((t[1] as int) - 48) as nat);
        }
    }
    Some((whole as u128) * 100 + frac as u128)
}

/// Reads a price text such as "₺1.350,00", "1.350,00" or "1350" as kuruş; `None` where
/// the text does not read as an amount or the amount does not fit in an `i64`.
pub fn parse_tl(s: &str) -> (r: Option<i64>)
    ensures
        r matches Some(v) ==> tl_value(s@) == Some(v as int),
        r is None <==> !(tl_value(s@) matches Some(v) && v <= i64::MAX),
{
    match tl_amount(s) {
        Some(v) => if v <= 9223372036854775807 {
            Some(v as i64)
        } else {
            None
        },
        None => None,
    }
}

/// The decimal digits of the whole part, with a dot before every group of three from the
/// right (the sign, if any, counts as a digit).
pub open spec fn group_thousands(d: Seq<char>, n: int) -> Seq<char>
    decreases n,
{
    if n <= 0 {
        seq![]
    } else {
        group_thousands(d, n - 1) + (if n - 1 > 0 && (d.len() - (n - 1)) % 3 == 0 {
            seq!['.']
        } else {
            seq![]
        }) + seq![d[n - 1]]
    }
}

/// Integer division rounding toward zero, and its remainder (Rust's `/` and `%`).
pub open spec fn tdiv(a: int, b: int) -> int {
    if a >= 0 {
        a / b
    } else {
        -((-a) / b)
    }
}

pub open spec fn trem(a: int, b: int) -> int {
    a - b * tdiv(a, b)
}

/// "1.450 ₺" / "1.450,50 ₺".
pub open spec fn fmt_tl_spec(kurus: int) -> Seq<char> {
    let whole = tdiv(kurus, 100);
    let frac = trem(kurus, 100);
    let digits = int_str(whole);
    let grouped = group_thousands(digits, digits.len() as int);
    if frac == 0 {
        grouped + " ₺"@
    } else {
        grouped + ","@ + pad2(frac) + " ₺"@
    }
}

pub(crate) fn push_tl(out: &mut Vec<char>, kurus: i64)
    ensures
        final(out)@ == old(out)@ + fmt_tl_spec(kurus as int),
{
    let k: i128 = kurus as i128;
    let whole: i128 = if k >= 0 { k / 100 } else { -((-k) / 100) };
    let frac: i128 = k - 100 * whole;
    assert(whole == tdiv(kurus as int, 100));
    assert(-100 < frac < 100) by (nonlinear_arith)
        requires
            frac == k - 100 * whole,
            k >= 0 ==> whole == k / 100,
            k < 0 ==> whole == -((-k) / 100),
    ;
    let mut digits: Vec<char> = Vec::new();
    push_i64(&mut digits, whole as i64);
    let ghost start = out@;
    let mut i: usize = 0;
    while i < digits.len()
        invariant
            0 <= i <= digits@.len(),
            out@ == start + group_thousands(digits@, i as int),
        decreases digits.len() - i,
    {
        if i > 0 && (digits.len() - i) % 3 == 0 {
            out.push('.');
        }
        out.push(digits[i]);
        i = i + 1;
        assert(out@ =~= start + group_thousands(digits@, i as int));
    }
    if frac == 0 {
        push_str(out, " ₺");
    } else {
        push_str(out, ",");
        push_pad2(out, frac as i64);
        push_str(out, " ₺");
    }
}

// ---------------------------------------------------------------------------------------------
// Reading back a written amount
// ---------------------------------------------------------------------------------------------

proof fn lemma_nat_str_digits(n: nat)
    ensures
        nat_str(n).len() > 0,
        all_digits(nat_str(n)),
        digits_value(nat_str(n)) == n,
        n < 10 ==> nat_str(n).len() == 1,
        10 <= n < 100 ==> nat_str(n).len() == 2,
    decreases n,
{
    let s = nat_str(n);
    if n >= 10 {
        lemma_nat_str_digits(n / 10);
        assert(s.drop_last() =~= nat_str(n / 10));
        assert(s.last() == digit_char((n % 10) as int));
        assert((digit_char((n % 10) as int) as int) == 48 + n % 10);
        assert(digits_value(s) == digits_value(s.drop_last()) * 10 + ((s.last() as int) - 48) as nat);
        assert(n == (n / 10) * 10 + n % 10) by (nonlinear_arith);
        assert forall|i: int| 0 <= i < s.len() implies is_digit(#[trigger] s[i]) by {
            if i < s.len() - 1 {
                assert(s[i] == nat_str(n / 10)[i]);
            }
        }
    } else {
        assert(s.drop_last() =~= Seq::<char>::empty());
        assert(s[0] == digit_char(n as int));
        assert((digit_char(n as int) as int) == 48 + n);
        assert(digits_value(s.drop_last()) == 0);
        assert(digits_value(s) == digits_value(s.drop_last()) * 10 + ((s.last() as int) - 48) as nat);
    }
}

proof fn lemma_tl_chars_concat(a: Seq<char>, b: Seq<char>)
    ensures
        tl_chars(a + b) == tl_chars(a) + tl_chars(b),
    decreases b.len(),
{
    if b.len() == 0 {
        assert(a + b =~= a);
        assert(tl_chars(a) + tl_chars(b) =~= tl_chars(a));
    } else {
        lemma_tl_chars_concat(a, b.drop_last());
        assert((a + b).drop_last() =~= a + b.drop_last());
        assert((a + b).last() == b.last());
        if is_tl_char(b.last()) {
            assert(tl_chars(a) + tl_chars(b.drop_last()).push(b.last()) =~= (tl_chars(a) + tl_chars(
                b.drop_last(),
            )).push(b.last()));
        }
    }
}

proof fn lemma_tl_chars_keep(s: Seq<char>)
    requires
        forall|i: int| 0 <= i < s.len() ==> is_tl_char(#[trigger] s[i]),
    ensures
        tl_chars(s) == s,
    decreases s.len(),
{
    if s.len() > 0 {
        assert forall|i: int| 0 <= i < s.drop_last().len() implies is_tl_char(#[trigger] s.drop_last()[i]) by {
            assert(s.drop_last()[i] == s[i]);
        }
        lemma_tl_chars_keep(s.drop_last());
        assert(is_tl_char(s[s.len() - 1]));
        assert(s.drop_last().push(s.last()) =~= s);
    }
}

proof fn lemma_without_dots_concat(a: Seq<char>, b: Seq<char>)
    ensures
        without_dots(a + b) == without_dots(a) + without_dots(b),
    decreases b.len(),
{
    if b.len() == 0 {
        assert(a + b =~= a);
        assert(without_dots(a) + without_dots(b) =~= without_dots(a));
    } else {
        lemma_without_dots_concat(a, b.drop_last());
        assert((a + b).drop_last() =~= a + b.drop_last());
        assert((a + b).last() == b.last());
        if b.last() != '.' {
            assert(without_dots(a) + without_dots(b.drop_last()).push(b.last()) =~= (without_dots(a)
                + without_dots(b.drop_last())).push(b.last()));
        }
    }
}

/// The grouped digits: digits and dots only; without the dots, the digits again.
proof fn lemma_group_thousands(d: Seq<char>, n: int)
    requires
        0 <= n <= d.len(),
        all_digits(d),
    ensures
        forall|i: int| 0 <= i < group_thousands(d, n).len() ==> (is_digit(#[trigger] group_thousands(d, n)[i])
            || group_thousands(d, n)[i] == '.'),
        without_dots(group_thousands(d, n)) == d.take(n),
    decreases n,
{
    if n > 0 {
        lemma_group_thousands(d, n - 1);
        let g0 = group_thousands(d, n - 1);
        let dot: Seq<char> = if n - 1 > 0 && (d.len() - (n - 1)) % 3 == 0 { seq!['.'] } else { seq![] };
        let g = group_thousands(d, n);
        assert(g == g0 + dot + seq![d[n - 1]]);
        assert(is_digit(d[n - 1]));
        assert forall|i: int| 0 <= i < g.len() implies (is_digit(#[trigger] g[i]) || g[i] == '.') by {
            if i < g0.len() {
                assert(g[i] == g0[i]);
            } else if i < g0.len() + dot.len() {
                assert(g[i] == dot[i - g0.len()]);
            } else {
                assert(g[i] == d[n - 1]);
            }
        }
        lemma_without_dots_concat(g0 + dot, seq![d[n - 1]]);
        lemma_without_dots_concat(g0, dot);
        if dot.len() > 0 {
            reveal_with_fuel(without_dots, 2);
            assert(dot.drop_last() =~= Seq::<char>::empty());
            assert(without_dots(dot) =~= Seq::<char>::empty());
        } else {
            assert(without_dots(dot) =~= Seq::<char>::empty());
        }
        assert(seq![d[n - 1]].drop_last() =~= Seq::<char>::empty());
        assert(without_dots(seq![d[n - 1]]) =~= seq![d[n - 1]]);
        assert(d.take(n - 1).push(d[n - 1]) =~= d.take(n));
        assert(d.take(n - 1) + seq![d[n - 1]] =~= d.take(n));
    } else {
        assert(d.take(0) =~= Seq::<char>::empty());
    }
}

proof fn lemma_no_comma_last(s: Seq<char>)
    requires
        forall|i: int| 0 <= i < s.len() ==> #[trigger] s[i] != ',',
    ensures
        last_index_of(s, ',') is None,
    decreases s.len(),
{
    if s.len() > 0 {
        assert forall|i: int| 0 <= i < s.drop_last().len() implies #[trigger] s.drop_last()[i] != ',' by {
            assert(s.drop_last()[i] == s[i]);
        }
        lemma_no_comma_last(s.drop_last());
        assert(s[s.len() - 1] != ',');
    }
}

proof fn lemma_comma_last(a: Seq<char>, b: Seq<char>)
    requires
        forall|i: int| 0 <= i < b.len() ==> #[trigger] b[i] != ',',
    ensures
        last_index_of(a + seq![','] + b, ',') == Some(a.len() as int),
    decreases b.len(),
{
    let s = a + seq![','] + b;
    if b.len() == 0 {
        assert(s.last() == ',');
        assert(s.len() == a.len() + 1);
    } else {
        assert forall|i: int| 0 <= i < b.drop_last().len() implies #[trigger] b.drop_last()[i] != ',' by {
            assert(b.drop_last()[i] == b[i]);
        }
        lemma_comma_last(a, b.drop_last());
        assert(s.drop_last() =~= a + seq![','] + b.drop_last());
        assert(s.last() == b[b.len() - 1]);
    }
}

/// What `fmt_tl` writes for an amount from 0 on reads back as that amount: `parse_tl`
/// undoes `fmt_tl`.
pub proof fn parse_reads_back_format(k: int)
    requires
        0 <= k <= i64::MAX,
    ensures
        tl_value(fmt_tl_spec(k)) == Some(k),
{
    let whole = tdiv(k, 100);
    let frac = trem(k, 100);
    assert(whole == k / 100 && frac == k % 100);
    let digits = int_str(whole);
    assert(digits == nat_str(whole as nat));
    lemma_nat_str_digits(whole as nat);
    let g = group_thousands(digits, digits.len() as int);
    lemma_group_thousands(digits, digits.len() as int);
    assert(digits.take(digits.len() as int) =~= digits);
    reveal_strlit(" ₺");
    reveal_strlit(",");
    let tail = " ₺"@;
    assert(tail.len() == 2 && !is_tl_char(tail[0]) && !is_tl_char(tail[1]));
    assert(tail.drop_last().drop_last() =~= Seq::<char>::empty());
    assert(tl_chars(tail) =~= Seq::<char>::empty()) by {
        reveal_with_fuel(tl_chars, 3);
        assert(tail.drop_last().last() == tail[0]);
        assert(tl_chars(tail.drop_last().drop_last()) =~= Seq::<char>::empty());
    }
    lemma_tl_chars_keep(g);
    assert forall|i: int| 0 <= i < g.len() implies #[trigger] g[i] != ',' by {
        assert(is_digit(g[i]) || g[i] == '.');
    }
    if frac == 0 {
        let out = g + tail;
        assert(fmt_tl_spec(k) == out);
        lemma_tl_chars_concat(g, tail);
        assert(tl_chars(out) =~= g);
        lemma_no_comma_last(g);
        assert(without_dots(g) == digits);
    } else {
        let p = pad2(frac);
        lemma_nat_str_digits(frac as nat);
        assert(p.len() == 2 && all_digits(p) && digits_value(p) == frac) by {
            if frac < 10 {
                assert(p == seq!['0'] + nat_str(frac as nat));
                reveal_with_fuel(digits_value, 3);
                assert(p.drop_last() =~= seq!['0']);
                assert(seq!['0'].drop_last() =~= Seq::<char>::empty());
                assert(p.last() == nat_str(frac as nat)[0]);
                assert(nat_str(frac as nat)[0] == digit_char(frac));
                assert forall|i: int| 0 <= i < p.len() implies is_digit(#[trigger] p[i]) by {
                    if i == 1 {
                        assert(p[1] == nat_str(frac as nat)[0]);
                    }
                }
            } else {
                assert(p == nat_str(frac as nat));
            }
        }
        let out = g + ","@ + p + tail;
        assert(fmt_tl_spec(k) == out);
        assert(","@ =~= seq![',']);
        lemma_tl_chars_concat(g + ","@ + p, tail);
        assert forall|i: int| 0 <= i < (g + ","@ + p).len() implies is_tl_char(#[trigger] (g + ","@ + p)[i]) by {
            if i < g.len() {
                assert((g + ","@ + p)[i] == g[i]);
            } else if i == g.len() {
            } else {
                assert((g + ","@ + p)[i] == p[i - g.len() - 1]);
            }
        }
        lemma_tl_chars_keep(g + ","@ + p);
        assert(tl_chars(out) =~= g + seq![','] + p);
        assert forall|i: int| 0 <= i < p.len() implies #[trigger] p[i] != ',' by {
            assert(is_digit(p[i]));
        }
        lemma_comma_last(g, p);
        let cl = g + seq![','] + p;
        assert(cl.take(g.len() as int) =~= g);
        assert(cl.skip(g.len() as int + 1) =~= p);
        assert(p.take(2) =~= p);
    }
}

/// Writes an amount in kuruş as "1.450 ₺" / "1.450,50 ₺".
pub fn fmt_tl(kurus: i64) -> (r: String)
    ensures
        r@ == fmt_tl_spec(kurus as int),
{
    let mut out: Vec<char> = Vec::new();
    push_tl(&mut out, kurus);
    string_of(&out)
}

// ---------------------------------------------------------------------------------------------
// Text
// ---------------------------------------------------------------------------------------------

/// `char::to_ascii_lowercase`.
pub open spec fn ascii_lower(c: char) -> char {
    if 'A' <= c && c <= 'Z' {
        ((c as int) + 32) as char
    } else {
        c
    }
}

pub fn ascii_lower_exec(c: char) -> (r: char)
    ensures
        r == ascii_lower(c),
{
    if 'A' <= c && c <= 'Z' {
        ((c as u8) + 32) as char
    } else {
        c
    }
}

/// Turkish letters to their plain Latin base, everything else to ASCII lower case.
pub open spec fn fold_char(c: char) -> char {
    if c == 'ç' || c == 'Ç' {
        'c'
    } else if c == 'ğ' || c == 'Ğ' {
        'g'
    } else if c == 'ı' || c == 'I' || c == 'İ' || c == 'i' {
        'i'
    } else if c == 'ö' || c == 'Ö' {
        'o'
    } else if c == 'ş' || c == 'Ş' {
        's'
    } else if c == 'ü' || c == 'Ü' {
        'u'
    } else if c == 'â' || c == 'Â' {
        'a'
    } else if c == 'î' || c == 'Î' {
        'i'
    } else if c == 'û' || c == 'Û' {
        'u'
    } else {
        ascii_lower(c)
    }
}

pub fn fold_char_exec(c: char) -> (r: char)
    ensures
        r == fold_char(c),
{
    if c == 'ç' || c == 'Ç' {
        'c'
    } else if c == 'ğ' || c == 'Ğ' {
        'g'
    } else if c == 'ı' || c == 'I' || c == 'İ' || c == 'i' {
        'i'
    } else if c == 'ö' || c == 'Ö' {
        'o'
    } else if c == 'ş' || c == 'Ş' {
        's'
    } else if c == 'ü' || c == 'Ü' {
        'u'
    } else if c == 'â' || c == 'Â' {
        'a'
    } else if c == 'î' || c == 'Î' {
        'i'
    } else if c == 'û' || c == 'Û' {
        'u'
    } else {
        ascii_lower_exec(c)
    }
}

pub open spec fn fold_seq(s: Seq<char>) -> Seq<char> {
    s.map_values(|c: char| fold_char(c))
}

/// Folding twice is folding once, and a folded text has as many characters as the text.
pub proof fn fold_is_idempotent(s: Seq<char>)
    ensures
        fold_seq(fold_seq(s)) == fold_seq(s),
        fold_seq(s).len() == s.len(),
{
    assert forall|i: int| 0 <= i < s.len() implies #[trigger] fold_char(fold_char(s[i])) == fold_char(s[i]) by {
        let c = s[i];
        if 'A' <= c <= 'Z' {
            assert(('a' as u32) <= (ascii_lower(c) as u32) <= ('z' as u32));
        }
    }
    assert(fold_seq(fold_seq(s)) =~= fold_seq(s));
}

pub(crate) fn fold_chars(s: &Vec<char>) -> (r: Vec<char>)
    ensures
        r@ == fold_seq(s@),
{
    let mut r: Vec<char> = Vec::new();
    let mut i: usize = 0;
    while i < s.len()
        invariant
            0 <= i <= s@.len(),
            r@ == fold_seq(s@.take(i as int)),
        decreases s.len() - i,
    {
        r.push(fold_char_exec(s[i]));
        i = i + 1;
        assert(r@ =~= fold_seq(s@.take(i as int)));
    }
    assert(s@.take(i as int) =~= s@);
    r
}

/// Simplifies Turkish letters and lowers case: "İçimizdeki Şeytan" -> "icimizdeki seytan".
pub fn fold(s: &str) -> (r: String)
    ensures
        r@ == fold_seq(s@),
{
    let v = chars_of(s);
    let f = fold_chars(&v);
    string_of(&f)
}

/// A rough category from the title, for sources that give none.
pub open spec fn guess_category_spec(title: Seq<char>) -> Seq<char> {
    let t = fold_seq(title);
    if contains_seq(t, "stand"@) {
        "Stand-up"@
    } else if contains_seq(t, "konser"@) || contains_seq(t, "concert"@) || contains_seq(t, "live"@) {
        "Konser"@
    } else if contains_seq(t, "tiyatro"@) || contains_seq(t, "oyun"@) {
        "Tiyatro"@
    } else {
        "Etkinlik"@
    }
}

pub(crate) fn contains_str(h: &Vec<char>, n: &str) -> (r: bool)
    ensures
        r == contains_seq(h@, n@),
{
    let nv = chars_of(n);
    contains_chars(h, &nv)
}

pub fn guess_category(title: &str) -> (r: String)
    ensures
        r@ == guess_category_spec(title@),
{
    let t = fold_chars(&chars_of(title));
    let c: &str = if contains_str(&t, "stand") {
        "Stand-up"
    } else if contains_str(&t, "konser") || contains_str(&t, "concert") || contains_str(&t, "live") {
        "Konser"
    } else if contains_str(&t, "tiyatro") || contains_str(&t, "oyun") {
        "Tiyatro"
    } else {
        "Etkinlik"
    };
    String::from_str(c)
}

/// The escape of one character for Telegram's HTML mode.
pub open spec fn esc_char(c: char) -> Seq<char> {
    if c == '&' {
        "&amp;"@
    } else if c == '<' {
        "&lt;"@
    } else if c == '>' {
        "&gt;"@
    } else if c == '"' {
        "&quot;"@
    } else {
        seq![c]
    }
}

pub open spec fn esc_seq(s: Seq<char>) -> Seq<char>
    decreases s.len(),
{
    if s.len() == 0 {
        seq![]
    } else {
        esc_seq(s.drop_last()) + esc_char(s.last())
    }
}

pub open spec fn amp_entity() -> Seq<char> {
    seq!['&', 'a', 'm', 'p', ';']
}

pub open spec fn lt_entity() -> Seq<char> {
    seq!['&', 'l', 't', ';']
}

pub open spec fn gt_entity() -> Seq<char> {
    seq!['&', 'g', 't', ';']
}

pub open spec fn quot_entity() -> Seq<char> {
    seq!['&', 'q', 'u', 'o', 't', ';']
}

proof fn lemma_esc_char_entities(c: char)
    ensures
        c == '&' ==> esc_char(c) == amp_entity(),
        c == '<' ==> esc_char(c) == lt_entity(),
        c == '>' ==> esc_char(c) == gt_entity(),
        c == '"' ==> esc_char(c) == quot_entity(),
        c != '&' && c != '<' && c != '>' && c != '"' ==> esc_char(c) == seq![c],
{
    reveal_strlit("&amp;");
    reveal_strlit("&lt;");
    reveal_strlit("&gt;");
    reveal_strlit("&quot;");
    assert("&amp;"@ =~= amp_entity());
    assert("&lt;"@ =~= lt_entity());
    assert("&gt;"@ =~= gt_entity());
    assert("&quot;"@ =~= quot_entity());
}

/// `str::replace(s, pat, rep)`: every occurrence of `pat`, from the left and without overlap,
/// replaced by `rep`.
pub open spec fn replace_all(s: Seq<char>, pat: Seq<char>, rep: Seq<char>) -> Seq<char>
    decreases s.len(),
{
    if s.len() == 0 {
        s
    } else if pat.len() > 0 && pat.len() <= s.len() && s.take(pat.len() as int) == pat {
        rep + replace_all(s.skip(pat.len() as int), pat, rep)
    } else {
        seq![s[0]] + replace_all(s.skip(1), pat, rep)
    }
}

/// Reading `esc`'s entities back as the named chain of replacements does: `&quot;`, `&gt;`,
/// `&lt;`, then `&amp;`.
pub open spec fn unescape_chain(t: Seq<char>) -> Seq<char> {
    replace_all(
        replace_all(replace_all(replace_all(t, quot_entity(), seq!['"']), gt_entity(), seq!['>']), lt_entity(), seq!['<']),
        amp_entity(),
        seq!['&'],
    )
}

/// A character as written after `k` steps of the chain: `&` is always escaped; `"`, `>` and
/// `<` stay escaped until the steps that read them back (1, 2 and 3), and all is plain after
/// step 4.
pub open spec fn stage_char(k: int, c: char) -> Seq<char> {
    if c == '&' && k < 4 {
        amp_entity()
    } else if c == '<' && k < 3 {
        lt_entity()
    } else if c == '>' && k < 2 {
        gt_entity()
    } else if c == '"' && k < 1 {
        quot_entity()
    } else {
        seq![c]
    }
}

pub open spec fn stage_text(k: int, s: Seq<char>) -> Seq<char>
    decreases s.len(),
{
    if s.len() == 0 {
        Seq::empty()
    } else {
        stage_char(k, s[0]) + stage_text(k, s.skip(1))
    }
}

/// The pattern and the replacement of the chain's step `k + 1`.
pub open spec fn chain_pat(k: int) -> Seq<char> {
    if k == 0 {
        quot_entity()
    } else if k == 1 {
        gt_entity()
    } else if k == 2 {
        lt_entity()
    } else {
        amp_entity()
    }
}

pub open spec fn chain_char(k: int) -> char {
    if k == 0 {
        '"'
    } else if k == 1 {
        '>'
    } else if k == 2 {
        '<'
    } else {
        '&'
    }
}

proof fn lemma_stage_push(k: int, s: Seq<char>, c: char)
    ensures
        stage_text(k, s.push(c)) == stage_text(k, s) + stage_char(k, c),
    decreases s.len(),
{
    if s.len() == 0 {
        assert(s.push(c).skip(1) =~= Seq::<char>::empty());
        assert(s.push(c)[0] == c);
        assert(stage_text(k, s.push(c)) == stage_char(k, c) + stage_text(k, Seq::<char>::empty()));
        assert(stage_char(k, c) + Seq::<char>::empty() =~= stage_char(k, c));
        assert(Seq::<char>::empty() + stage_char(k, c) =~= stage_char(k, c));
        assert(stage_text(k, s) == Seq::<char>::empty());
    } else {
        assert(s.push(c).skip(1) =~= s.skip(1).push(c));
        lemma_stage_push(k, s.skip(1), c);
        assert(s.push(c)[0] == s[0]);
        assert(stage_char(k, s[0]) + (stage_text(k, s.skip(1)) + stage_char(k, c)) =~= (stage_char(k, s[0])
            + stage_text(k, s.skip(1))) + stage_char(k, c));
    }
}

proof fn lemma_stage_esc(s: Seq<char>)
    ensures
        stage_text(0, s) == esc_seq(s),
    decreases s.len(),
{
    if s.len() > 0 {
        lemma_stage_esc(s.drop_last());
        lemma_stage_push(0, s.drop_last(), s.last());
        assert(s.drop_last().push(s.last()) =~= s);
        lemma_esc_char_entities(s.last());
    }
}

proof fn lemma_stage_plain(s: Seq<char>)
    ensures
        stage_text(4, s) == s,
    decreases s.len(),
{
    if s.len() > 0 {
        lemma_stage_plain(s.skip(1));
        assert(seq![s[0]] + s.skip(1) =~= s);
    }
}

/// Text without `&` goes through a replacement of an `&`-pattern unchanged.
proof fn lemma_no_amp(u: Seq<char>, x: Seq<char>, pat: Seq<char>, rep: Seq<char>)
    requires
        pat.len() > 0,
        pat[0] == '&',
        forall|i: int| 0 <= i < u.len() ==> u[i] != '&',
    ensures
        replace_all(u + x, pat, rep) == u + replace_all(x, pat, rep),
    decreases u.len(),
{
    if u.len() > 0 {
        let t = u + x;
        assert(t[0] == u[0]);
        if pat.len() <= t.len() && t.take(pat.len() as int) == pat {
            assert(t.take(pat.len() as int)[0] == t[0]);
        }
        assert(t.skip(1) =~= u.skip(1) + x);
        lemma_no_amp(u.skip(1), x, pat, rep);
        assert(seq![u[0]] + (u.skip(1) + replace_all(x, pat, rep)) =~= u + replace_all(x, pat, rep));
    } else {
        assert(u + x =~= x);
        assert(u + replace_all(x, pat, rep) =~= replace_all(x, pat, rep));
    }
}

/// Step `k + 1` of the chain turns the text as written after `k` steps into that after
/// `k + 1`.
proof fn lemma_chain_step(k: int, s: Seq<char>)
    requires
        0 <= k < 4,
    ensures
        replace_all(stage_text(k, s), chain_pat(k), seq![chain_char(k)]) == stage_text(k + 1, s),
    decreases s.len(),
{
    let pat = chain_pat(k);
    let rep = seq![chain_char(k)];
    if s.len() > 0 {
        let c = s[0];
        let p = stage_char(k, c);
        let x = stage_text(k, s.skip(1));
        let t = p + x;
        lemma_chain_step(k, s.skip(1));
        assert(stage_text(k, s) == t);
        assert(pat[0] == '&');
        if p == pat {
            assert(t.take(pat.len() as int) =~= pat);
            assert(t.skip(pat.len() as int) =~= x);
            assert(stage_char(k + 1, c) == rep);
        } else {
            assert(stage_char(k + 1, c) == p);
            if p.len() == 1 {
                assert(p[0] == c);
                lemma_no_amp(p, x, pat, rep);
            } else {
                // p is another entity: it starts with `&`, the rest has none, and its second
                // character differs from the pattern's.
                assert(p[0] == '&');
                assert(p[1] != pat[1]);
                if pat.len() <= t.len() && t.take(pat.len() as int) == pat {
                    assert(t.take(pat.len() as int)[1] == t[1]);
                    assert(t[1] == p[1]);
                }
                let u = p.skip(1);
                assert(forall|i: int| 0 <= i < u.len() ==> u[i] != '&') by {
                    assert forall|i: int| 0 <= i < u.len() implies u[i] != '&' by {
                        assert(u[i] == p[i + 1]);
                    }
                }
                assert(t.skip(1) =~= u + x);
                lemma_no_amp(u, x, pat, rep);
                assert(seq![p[0]] + (u + replace_all(x, pat, rep)) =~= p + replace_all(x, pat, rep));
            }
        }
    }
}

/// `esc` is undone by the chain of replacements `&quot;` → `"`, `&gt;` → `>`, `&lt;` → `<`,
/// `&amp;` → `&`, and what it writes holds no `<`, `>` or `"`.
pub proof fn esc_is_undone_by_the_replacements(s: Seq<char>)
    ensures
        unescape_chain(esc_seq(s)) == s,
        !esc_seq(s).contains('<'),
        !esc_seq(s).contains('>'),
        !esc_seq(s).contains('"'),
    decreases s.len(),
{
    lemma_stage_esc(s);
    lemma_chain_step(0, s);
    lemma_chain_step(1, s);
    lemma_chain_step(2, s);
    lemma_chain_step(3, s);
    lemma_stage_plain(s);
    if s.len() > 0 {
        esc_is_undone_by_the_replacements(s.drop_last());
        let x = esc_seq(s.drop_last());
        let e = esc_char(s.last());
        lemma_esc_char_entities(s.last());
        assert(esc_seq(s) == x + e);
        assert forall|i: int| 0 <= i < (x + e).len() implies (x + e)[i] != '<' && (x + e)[i] != '>' && (x + e)[i] != '"' by {
            if i < x.len() {
                assert((x + e)[i] == x[i]);
                assert(x.contains(x[i]));
            } else {
                assert((x + e)[i] == e[i - x.len()]);
            }
        }
    }
}

pub(crate) fn push_esc_chars(out: &mut Vec<char>, s: &Vec<char>)
    ensures
        final(out)@ == old(out)@ + esc_seq(s@),
{
    let ghost start = out@;
    let mut i: usize = 0;
    while i < s.len()
        invariant
            0 <= i <= s@.len(),
            out@ == start + esc_seq(s@.take(i as int)),
        decreases s.len() - i,
    {
        let c = s[i];
        assert(s@.take(i + 1).drop_last() =~= s@.take(i as int));
        if c == '&' {
            push_str(out, "&amp;");
        } else if c == '<' {
            push_str(out, "&lt;");
        } else if c == '>' {
            push_str(out, "&gt;");
        } else if c == '"' {
            push_str(out, "&quot;");
        } else {
            out.push(c);
        }
        i = i + 1;
        assert(out@ =~= start + esc_seq(s@.take(i as int)));
    }
    assert(s@.take(i as int) =~= s@);
}

pub(crate) fn push_esc(out: &mut Vec<char>, s: &str)
    ensures
        final(out)@ == old(out)@ + esc_seq(s@),
{
    let v = chars_of(s);
    push_esc_chars(out, &v);
}

/// Escapes `&`, `<`, `>` and `"` for Telegram's HTML mode.
pub fn esc(s: &str) -> (r: String)
    ensures
        r@ == esc_seq(s@),
{
    let mut out: Vec<char> = Vec::new();
    push_esc(&mut out, s);
    string_of(&out)
}

} // verus!
