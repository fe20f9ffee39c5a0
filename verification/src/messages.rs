//! The texts of the Telegram messages.

use vstd::prelude::*;
use crate::diff::{Change, ChangeView};
use crate::keyed::keys_sorted;
use crate::matcher::{same_event, same_event_spec};
use crate::model::{Event, EventView, EventDate, SourceId, source_name, esc_seq, fmt_tl_spec,
    fmt_date_spec, fmt_date_short_spec, min_value, discount_of, push_esc, push_esc_chars, push_tl,
    push_date, push_date_short, fold_seq, fold_chars, local_day, local_day_of, triple_view};
use crate::store::{Health, State, TrackedEvent};
use crate::text::{chars_of, string_of, push_str, push_string, push_chars, push_u64, push_u128, push_i64, push_i128, nat_str,
    int_str, seq_lt, string_lt, stable_sorted, stable_sort, lemma_stable_sorted_map, contains_seq,
    contains_chars};

verus! {

// ---------------------------------------------------------------------------------------------
// Pieces
// ---------------------------------------------------------------------------------------------

/// Every date in these events can be written out.
pub open spec fn dates_wf(es: Seq<EventView>) -> bool {
    forall|i: int| 0 <= i < es.len() ==> date_wf(#[trigger] es[i])
}

pub open spec fn date_wf(e: EventView) -> bool {
    e.date matches Some(d) ==> d.wf()
}

/// The tracked events, in key order.
pub open spec fn tracked_events(s: Seq<(Seq<char>, TrackedEvent)>) -> Seq<EventView> {
    s.map_values(|p: (Seq<char>, TrackedEvent)| p.1.event@)
}

/// Every stored date can be written out.
pub open spec fn state_dates_wf(state: State) -> bool {
    dates_wf(tracked_events(state.events@))
}

/// `items` joined with `sep`.
pub open spec fn join(items: Seq<Seq<char>>, sep: Seq<char>) -> Seq<char>
    decreases items.len(),
{
    if items.len() == 0 {
        seq![]
    } else if items.len() == 1 {
        items[0]
    } else {
        join(items.drop_last(), sep) + sep + items.last()
    }
}

/// `<a href="url">text</a>` with the address escaped.
pub open spec fn anchor(url: Seq<char>, text: Seq<char>) -> Seq<char> {
    "<a href=\""@ + esc_seq(url) + "\">"@ + text + "</a>"@
}

/// Nearest integer to `n / d` (d != 0), halves to the even neighbour.
pub open spec fn round_half_even(n: int, d: int) -> int {
    let (nn, dd) = if d < 0 { (-n, -d) } else { (n, d) };
    let q = nn / dd;
    let r = nn % dd;
    if 2 * r < dd {
        q
    } else if 2 * r > dd {
        q + 1
    } else if q % 2 == 0 {
        q
    } else {
        q + 1
    }
}

/// `(old - new) * 100 / old` written with no decimals (`{:.0}` of the float quotient):
/// rounded half to even, "-0" for a negative quotient that rounds to zero, "inf", "-inf"
/// or "NaN" when `old` is zero.
pub open spec fn percent_str(old: int, new: int) -> Seq<char> {
    let n = (old - new) * 100;
    if old == 0 {
        if n > 0 {
            "inf"@
        } else if n < 0 {
            "-inf"@
        } else {
            "NaN"@
        }
    } else {
        let r = round_half_even(n, old);
        if r == 0 && ((n < 0) != (old < 0) || (n == 0 && old < 0)) {
            "-0"@
        } else {
            int_str(r)
        }
    }
}

pub(crate) fn push_percent(out: &mut Vec<char>, old_price: i64, new_price: i64)
    ensures
        final(out)@ == old(out)@ + percent_str(old_price as int, new_price as int),
{
    let n: i128 = (old_price as i128 - new_price as i128) * 100;
    if old_price == 0 {
        if n > 0 {
            push_str(out, "inf");
        } else if n < 0 {
            push_str(out, "-inf");
        } else {
            push_str(out, "NaN");
        }
        return;
    }
    let (nn, dd): (i128, i128) = if old_price < 0 { (-n, -(old_price as i128)) } else { (n, old_price as i128) };
    // floor division and remainder of nn by dd > 0
    let q: i128 = if nn >= 0 { nn / dd } else { -((-nn + dd - 1) / dd) };
    assert(q == nn / dd) by (nonlinear_arith)
        requires
            dd > 0,
            nn >= 0 ==> q == nn / dd,
            nn < 0 ==> q == -(((dd as int) - (nn as int) - 1) / (dd as int)),
    ;
    assert(nn - dd < q * dd <= nn) by (nonlinear_arith)
        requires
            dd > 0,
            q == nn / dd,
    ;
    let r: i128 = nn - q * dd;
    assert(r == nn % dd) by (nonlinear_arith)
        requires
            dd > 0,
            q == nn / dd,
            r == nn - q * dd,
    ;
    assert(-10000000000000000000000 <= q <= 10000000000000000000000) by (nonlinear_arith)
        requires
            dd >= 1,
            -2000000000000000000000 <= nn <= 2000000000000000000000,
            q == nn / dd,
    ;
    let rounded: i128 = if 2 * r < dd {
        q
    } else if 2 * r > dd {
        q + 1
    } else if q % 2 == 0 {
        q
    } else {
        q + 1
    };
    assert(rounded == round_half_even(n as int, old_price as int));
    if rounded == 0 && ((n < 0) != (old_price < 0) || (n == 0 && old_price < 0)) {
        push_str(out, "-0");
    } else {
        push_i128(out, rounded);
    }
}

// ---------------------------------------------------------------------------------------------
// Event blocks
// ---------------------------------------------------------------------------------------------

/// Category, date and venue (the venue when known).
pub open spec fn meta_items(e: EventView) -> Seq<Seq<char>> {
    seq![e.category] + (match e.date {
        Some(d) => seq![fmt_date_spec(d)],
        None => Seq::<Seq<char>>::empty(),
    }) + (if e.venue.len() > 0 {
        seq![e.venue]
    } else {
        Seq::<Seq<char>>::empty()
    })
}

/// "<b>title</b>\n📍 category · date · venue\n"
pub open spec fn header_spec(e: EventView) -> Seq<char> {
    "<b>"@ + esc_seq(e.title) + "</b>\n"@ + "📍 "@ + esc_seq(join(meta_items(e), " · "@)) + "\n"@
}

fn push_header(out: &mut Vec<char>, e: &Event)
    requires
        date_wf(e@),
    ensures
        final(out)@ == old(out)@ + header_spec(e@),
{
    let ghost start = out@;
    push_str(out, "<b>");
    push_esc(out, e.title.as_str());
    push_str(out, "</b>\n");
    push_str(out, "📍 ");
    let ghost items = meta_items(e@);
    let ghost sep = " · "@;
    let mut meta: Vec<char> = chars_of(e.category.as_str());
    let ghost mut n: int = 1;
    proof {
        assert(seq![e.category@].len() == 1);
        assert(join(seq![e.category@], sep) == e.category@);
    }
    let ghost mut done: Seq<Seq<char>> = seq![e.category@];
    match &e.date {
        Some(d) => {
            push_str(&mut meta, " · ");
            push_date(&mut meta, d);
            proof {
                let nd = done.push(fmt_date_spec(*d));
                assert(nd.drop_last() =~= done);
                done = nd;
            }
        },
        None => {},
    }
    assert(meta@ == join(done, sep));
    if !e.venue.as_str().is_empty() {
        push_str(&mut meta, " · ");
        push_string(&mut meta, &e.venue);
        proof {
            let nd = done.push(e.venue@);
            assert(nd.drop_last() =~= done);
            assert(done.len() >= 1);
            done = nd;
        }
    }
    assert(done =~= items);
    push_esc_chars(out, &meta);
    push_str(out, "\n");
    assert(out@ =~= start + header_spec(e@));
}

pub open spec fn link_suffix(s: SourceId) -> Seq<char> {
    match s {
        SourceId::Biletinial => "'da"@,
        _ => "'te"@,
    }
}

/// "🔗 <a href=\"url\">Bubilet'te aç</a>"
pub open spec fn link_spec(e: EventView) -> Seq<char> {
    "🔗 "@ + anchor(e.url, source_name(e.source) + link_suffix(e.source) + " aç"@)
}

fn push_anchor_start(out: &mut Vec<char>, url: &String)
    ensures
        final(out)@ == old(out)@ + "<a href=\""@ + esc_seq(url@) + "\">"@,
{
    push_str(out, "<a href=\"");
    push_esc(out, url.as_str());
    push_str(out, "\">");
}

fn push_link(out: &mut Vec<char>, e: &Event)
    ensures
        final(out)@ == old(out)@ + link_spec(e@),
{
    let ghost start = out@;
    push_str(out, "🔗 ");
    push_anchor_start(out, &e.url);
    push_str(out, e.source.name());
    match e.source {
        SourceId::Biletinial => push_str(out, "'da"),
        _ => push_str(out, "'te"),
    }
    push_str(out, " aç");
    push_str(out, "</a>");
    assert(out@ =~= start + link_spec(e@));
}

// ---------------------------------------------------------------------------------------------
// Prices of the same event on other sites
// ---------------------------------------------------------------------------------------------

/// The events that are the same event as `e` on another site, in order.
pub open spec fn same_as(e: EventView, s: Seq<EventView>) -> Seq<EventView>
    decreases s.len(),
{
    if s.len() == 0 {
        s
    } else if same_event_spec(e, s.last()) {
        same_as(e, s.drop_last()).push(s.last())
    } else {
        same_as(e, s.drop_last())
    }
}

/// The lowest price, or `i64::MAX` when there is none.
pub open spec fn price_key(o: EventView) -> int {
    match min_value(o.tiers) {
        Some(p) => p as int,
        None => i64::MAX as int,
    }
}

pub open spec fn price_after(a: EventView, b: EventView) -> bool {
    price_key(a) > price_key(b)
}

/// "<a href=\"url\">Biletix</a>: 1.350 ₺", ": tükendi" when sold out, bare when unpriced.
pub open spec fn offer_part(o: EventView) -> Seq<char> {
    let a = anchor(o.url, source_name(o.source));
    if o.sold_out {
        a + ": tükendi"@
    } else {
        match min_value(o.tiers) {
            Some(p) => a + ": "@ + fmt_tl_spec(p as int),
            None => a,
        }
    }
}

/// The other sites' offers, cheapest first, and whether this site is the cheapest.
pub open spec fn other_sites_spec(e: EventView, all: Seq<EventView>) -> Seq<char> {
    let others = stable_sorted(same_as(e, all), |a: EventView, b: EventView| price_after(a, b));
    let parts = others.map_values(|o: EventView| offer_part(o));
    if parts.len() == 0 {
        seq![]
    } else {
        let cheapest_here = match (min_value(e.tiers), min_value(others[0].tiers)) {
            (Some(mine), Some(theirs)) => mine < theirs,
            _ => false,
        };
        (if cheapest_here {
            "🏷️ En ucuz burada. Diğer siteler: "@
        } else {
            "🏷️ Diğer siteler: "@
        }) + join(parts, " | "@) + "\n"@
    }
}

proof fn lemma_price_order()
    ensures
        crate::text::strict_weak(|a: EventView, b: EventView| price_after(a, b)),
{
}

/// The other-sites line opens with "🏷️ En ucuz burada." exactly when the event has a price
/// below the price of every matched event on another site that has one (and one has); there
/// is no line without matched events. (Prices are below `i64::MAX`, which stands for "no
/// price" when the offers are ordered.)
#[verifier::spinoff_prover]
#[verifier::rlimit(30)]
pub proof fn cheapest_here_exactly_when_below_the_others(e: EventView, all: Seq<EventView>)
    requires
        forall|j: int|
            0 <= j < same_as(e, all).len() ==> (min_value((#[trigger] same_as(e, all)[j]).tiers) matches Some(q) ==> q
                < i64::MAX),
    ensures
        same_as(e, all).len() == 0 ==> other_sites_spec(e, all).len() == 0,
        same_as(e, all).len() > 0 ==> ("🏷️ En ucuz burada."@.is_prefix_of(other_sites_spec(e, all)) <==> (min_value(
            e.tiers,
        ) is Some && (exists|j: int| 0 <= j < same_as(e, all).len() && min_value((#[trigger] same_as(e, all)[j]).tiers) is Some)
            && forall|j: int|
            0 <= j < same_as(e, all).len() && min_value((#[trigger] same_as(e, all)[j]).tiers) is Some ==> min_value(
                e.tiers,
            )->0 < min_value(same_as(e, all)[j].tiers)->0)),
{
    let os = same_as(e, all);
    let gt = |a: EventView, b: EventView| price_after(a, b);
    let others = stable_sorted(os, gt);
    lemma_price_order();
    crate::text::lemma_stable_sorted_len(os, gt);
    crate::text::lemma_stable_sorted_sorted(os, gt);
    crate::text::lemma_stable_sorted_keeps(os, gt);
    lemma_sorted_members_all(os, gt);
    if os.len() > 0 {
        let first = others[0];
        assert(os.contains(first));
        // The first offer has the lowest price key.
        assert forall|j: int| 0 <= j < os.len() implies price_key(first) <= price_key(#[trigger] os[j]) by {
            assert(others.contains(os[j]));
            let k = choose|k: int| 0 <= k < others.len() && others[k] == os[j];
            if k > 0 {
                assert(!gt(others[0], others[k]));
            }
        }
        let cond = min_value(e.tiers) is Some && (exists|j: int| 0 <= j < os.len() && min_value((#[trigger] os[j]).tiers) is Some)
            && forall|j: int| 0 <= j < os.len() && min_value((#[trigger] os[j]).tiers) is Some ==> min_value(e.tiers)->0
                < min_value(os[j].tiers)->0;
        let here = match (min_value(e.tiers), min_value(others[0].tiers)) {
            (Some(mine), Some(theirs)) => mine < theirs,
            _ => false,
        };
        let k0 = choose|k: int| 0 <= k < os.len() && os[k] == first;
        if here {
            assert forall|j: int| 0 <= j < os.len() && min_value((#[trigger] os[j]).tiers) is Some implies min_value(e.tiers)->0
                < min_value(os[j].tiers)->0 by {
                assert(price_key(first) <= price_key(os[j]));
            }
            assert(min_value(os[k0].tiers) is Some);
        }
        if cond {
            let w = choose|j: int| 0 <= j < os.len() && min_value((#[trigger] os[j]).tiers) is Some;
            assert(price_key(first) <= price_key(os[w]));
            assert(min_value(first.tiers) is Some) by {
                if min_value(first.tiers) is None {
                    assert(price_key(os[w]) < i64::MAX);
                }
            }
            assert(min_value(os[k0].tiers) is Some);
        }
        assert(here == cond);
        let parts = others.map_values(|o: EventView| offer_part(o));
        let rest = join(parts, " | "@) + "\n"@;
        reveal_strlit("🏷️ En ucuz burada.");
        reveal_strlit("🏷️ En ucuz burada. Diğer siteler: ");
        reveal_strlit("🏷️ Diğer siteler: ");
        let short = "🏷️ En ucuz burada."@;
        if here {
            let full = "🏷️ En ucuz burada. Diğer siteler: "@;
            assert(other_sites_spec(e, all) == full + rest);
            assert((full + rest).subrange(0, short.len() as int) =~= short);
        } else {
            let plain = "🏷️ Diğer siteler: "@;
            assert(other_sites_spec(e, all) == plain + rest);
            assert((plain + rest)[3] == plain[3]);
            assert(short[3] != plain[3]);
            if short.is_prefix_of(plain + rest) {
                assert((plain + rest).subrange(0, short.len() as int)[3] == (plain + rest)[3]);
            }
        }
    }
}

fn price_gt(a: &&Event, b: &&Event) -> (r: bool)
    ensures
        r == price_after((**a)@, (**b)@),
{
    let ka: i64 = match a.min_price() {
        Some(p) => p,
        None => i64::MAX,
    };
    let kb: i64 = match b.min_price() {
        Some(p) => p,
        None => i64::MAX,
    };
    ka > kb
}

fn push_offer_part(out: &mut Vec<char>, o: &Event)
    ensures
        final(out)@ == old(out)@ + offer_part(o@),
{
    let ghost start = out@;
    push_anchor_start(out, &o.url);
    push_str(out, o.source.name());
    push_str(out, "</a>");
    if o.sold_out {
        push_str(out, ": tükendi");
    } else {
        match o.min_price() {
            Some(p) => {
                push_str(out, ": ");
                push_tl(out, p);
            },
            None => {},
        }
    }
    assert(out@ =~= start + offer_part(o@));
}

pub open spec fn event_refs_view(s: Seq<&Event>) -> Seq<EventView> {
    s.map_values(|e: &Event| e@)
}

fn push_other_sites(out: &mut Vec<char>, e: &Event, state: &State)
    ensures
        final(out)@ == old(out)@ + other_sites_spec(e@, tracked_events(state.events@)),
{
    let ghost all = tracked_events(state.events@);
    let es = state.events.entries();
    let mut others: Vec<&Event> = Vec::new();
    let mut i: usize = 0;
    while i < es.len()
        invariant
            0 <= i <= es@.len(),
            es@.len() == all.len(),
            all == tracked_events(state.events@),
            forall|j: int| 0 <= j < es@.len() ==> (#[trigger] es@[j]).1 == state.events@[j].1,
            event_refs_view(others@) == same_as(e@, all.take(i as int)),
        decreases es.len() - i,
    {
        assert(all.take(i + 1).drop_last() =~= all.take(i as int));
        assert(all.take(i + 1).last() == es@[i as int].1.event@);
        let o: &Event = &es[i].1.event;
        if same_event(e, o) {
            let ghost before = others@;
            others.push(o);
            assert(event_refs_view(others@) =~= event_refs_view(before).push(o@));
        }
        i = i + 1;
    }
    assert(all.take(i as int) =~= all);
    let ghost g = |a: &Event, b: &Event| price_after(a@, b@);
    let ghost gv = |a: EventView, b: EventView| price_after(a, b);
    let ghost unsorted = others@;
    let sorted = stable_sort(others, price_gt, Ghost(g));
    proof {
        lemma_stable_sorted_map(unsorted, |x: &Event| x@, g, gv);
        crate::text::lemma_stable_sorted_len(unsorted, g);
    }
    let ghost sv = event_refs_view(sorted@);
    let ghost parts = sv.map_values(|o: EventView| offer_part(o));
    if sorted.len() == 0 {
        assert(parts.len() == 0);
        assert(out@ =~= out@ + other_sites_spec(e@, all));
        return;
    }
    let cheapest_here = match (e.min_price(), sorted[0].min_price()) {
        (Some(mine), Some(theirs)) => mine < theirs,
        _ => false,
    };
    assert(sv[0] == sorted@[0]@);
    let ghost start = out@;
    if cheapest_here {
        push_str(out, "🏷️ En ucuz burada. Diğer siteler: ");
    } else {
        push_str(out, "🏷️ Diğer siteler: ");
    }
    let ghost mid = out@;
    let mut k: usize = 0;
    while k < sorted.len()
        invariant
            0 <= k <= sorted@.len(),
            sv == event_refs_view(sorted@),
            parts == sv.map_values(|o: EventView| offer_part(o)),
            out@ == mid + join(parts.take(k as int), " | "@),
        decreases sorted.len() - k,
    {
        let ghost before = out@;
        if k > 0 {
            push_str(out, " | ");
        }
        push_offer_part(out, sorted[k]);
        proof {
            let t = parts.take(k + 1);
            assert(t.drop_last() =~= parts.take(k as int));
            assert(t.last() == offer_part(sorted@[k as int]@));
            if k == 0 {
                assert(t.len() == 1);
            }
        }
        k = k + 1;
    }
    assert(parts.take(k as int) =~= parts);
    push_str(out, "\n");
    assert(out@ =~= start + other_sites_spec(e@, all));
}

// ---------------------------------------------------------------------------------------------
// Change notifications
// ---------------------------------------------------------------------------------------------

pub open spec fn drop_line(t: (Seq<char>, i64, i64)) -> Seq<char> {
    "💸 "@ + esc_seq(t.0) + ": "@ + price_change_spec(t.1, t.2)
}

/// One line per drop: "💸 category: <s>old</s> → <b>new</b> (−%pct)\n".
pub open spec fn drop_lines(d: Seq<(Seq<char>, i64, i64)>) -> Seq<char>
    decreases d.len(),
{
    if d.len() == 0 {
        seq![]
    } else {
        drop_lines(d.drop_last()) + drop_line(d.last())
    }
}

/// "💰 1.350 ₺'den başlayan fiyatlarla\n"
pub open spec fn from_price_line(p: i64) -> Seq<char> {
    "💰 "@ + fmt_tl_spec(p as int) + "'den başlayan fiyatlarla\n"@
}

/// "<s>old</s> → <b>new</b> (−%pct)\n"
pub open spec fn price_change_spec(old_price: i64, new_price: i64) -> Seq<char> {
    "<s>"@ + fmt_tl_spec(old_price as int) + "</s> → <b>"@ + fmt_tl_spec(new_price as int) + "</b> (−%"@
        + percent_str(old_price as int, new_price as int) + ")\n"@
}

/// The notification text of a change.
pub open spec fn change_spec(c: ChangeView, all: Seq<EventView>) -> Seq<char> {
    match c {
        ChangeView::PriceDrop(e, d) => "📉 <b>Fiyat düştü</b> — "@ + header_spec(e) + drop_lines(d)
            + other_sites_spec(e, all) + link_spec(e),
        ChangeView::Discount(e) => "🔥 <b>İndirimde</b> — "@ + header_spec(e) + (match discount_of(e) {
            Some((o, n)) => "💸 "@ + price_change_spec(o, n),
            None => Seq::<char>::empty(),
        }) + other_sites_spec(e, all) + link_spec(e),
        ChangeView::New(e) => "🆕 <b>Yeni etkinlik</b> — "@ + header_spec(e) + (if e.sold_out {
            "🚫 Tükendi\n"@
        } else {
            match min_value(e.tiers) {
                Some(p) => from_price_line(p),
                None => Seq::<char>::empty(),
            }
        }) + other_sites_spec(e, all) + link_spec(e),
        ChangeView::BackInStock(e) => "🎟️ <b>Tekrar satışta</b> — "@ + header_spec(e) + (match min_value(
            e.tiers,
        ) {
            Some(p) => from_price_line(p),
            None => Seq::<char>::empty(),
        }) + other_sites_spec(e, all) + link_spec(e),
    }
}

pub open spec fn change_event(c: ChangeView) -> EventView {
    match c {
        ChangeView::PriceDrop(e, _) => e,
        ChangeView::Discount(e) => e,
        ChangeView::New(e) => e,
        ChangeView::BackInStock(e) => e,
    }
}

/// The opening words of a change's notification.
pub open spec fn change_prefix(c: ChangeView) -> Seq<char> {
    match c {
        ChangeView::PriceDrop(_, _) => "📉 <b>Fiyat düştü</b> — "@,
        ChangeView::Discount(_) => "🔥 <b>İndirimde</b> — "@,
        ChangeView::New(_) => "🆕 <b>Yeni etkinlik</b> — "@,
        ChangeView::BackInStock(_) => "🎟️ <b>Tekrar satışta</b> — "@,
    }
}

/// `part` stands in `s` at some position.
pub open spec fn stands_in(part: Seq<char>, s: Seq<char>) -> bool {
    exists|i: int| 0 <= i && i + part.len() <= s.len() && #[trigger] s.subrange(i, i + part.len()) == part
}

proof fn lemma_drop_lines_each(d: Seq<(Seq<char>, i64, i64)>)
    ensures
        forall|j: int| 0 <= j < d.len() ==> stands_in(drop_line(#[trigger] d[j]), drop_lines(d)),
    decreases d.len(),
{
    if d.len() > 0 {
        let t = d.drop_last();
        lemma_drop_lines_each(t);
        let a = drop_lines(t);
        let b = drop_line(d.last());
        assert forall|j: int| 0 <= j < d.len() implies stands_in(drop_line(#[trigger] d[j]), drop_lines(d)) by {
            if j < t.len() {
                assert(d[j] == t[j]);
                let p = drop_line(d[j]);
                let i = choose|i: int| 0 <= i && i + p.len() <= a.len() && #[trigger] a.subrange(i, i + p.len()) == p;
                assert((a + b).subrange(i, i + p.len()) =~= a.subrange(i, i + p.len()));
            } else {
                assert(d[j] == d.last());
                assert((a + b).subrange(a.len() as int, (a.len() + b.len()) as int) =~= b);
            }
        }
    }
}

proof fn lemma_shape(p: Seq<char>, t: Seq<char>, h2: Seq<char>, b: Seq<char>, o: Seq<char>, l: Seq<char>)
    ensures
        (p + t).is_prefix_of(p + (t + h2) + b + o + l),
        l.is_suffix_of(p + (t + h2) + b + o + l),
        forall|q: Seq<char>| stands_in(q, b) ==> #[trigger] stands_in(q, p + (t + h2) + b + o + l),
{
    let m = p + (t + h2) + b + o + l;
    assert(m.subrange(0, (p + t).len() as int) =~= p + t);
    assert(m.subrange(m.len() - l.len(), m.len() as int) =~= l);
    let off = p.len() + t.len() + h2.len();
    assert forall|q: Seq<char>| stands_in(q, b) implies #[trigger] stands_in(q, m) by {
        let i = choose|i: int| 0 <= i && i + q.len() <= b.len() && #[trigger] b.subrange(i, i + q.len()) == q;
        assert(m.subrange(off + i, off + i + q.len()) =~= b.subrange(i, i + q.len()));
    }
}

/// The part of a change's notification between its header and the other sites' prices.
pub open spec fn change_body(c: ChangeView) -> Seq<char> {
    match c {
        ChangeView::PriceDrop(_, d) => drop_lines(d),
        ChangeView::Discount(e) => match discount_of(e) {
            Some((o, n)) => "💸 "@ + price_change_spec(o, n),
            None => Seq::<char>::empty(),
        },
        ChangeView::New(e) => if e.sold_out {
            "🚫 Tükendi\n"@
        } else {
            match min_value(e.tiers) {
                Some(p) => from_price_line(p),
                None => Seq::<char>::empty(),
            }
        },
        ChangeView::BackInStock(e) => match min_value(e.tiers) {
            Some(p) => from_price_line(p),
            None => Seq::<char>::empty(),
        },
    }
}

/// A change's notification opens with its kind and the event's title in bold, and closes
/// with the link to the event on its site; a price drop's notification has a line for each
/// category that dropped.
#[verifier::spinoff_prover]
pub proof fn change_message_shape(c: ChangeView, all: Seq<EventView>)
    ensures
        (change_prefix(c) + "<b>"@ + esc_seq(change_event(c).title) + "</b>\n"@).is_prefix_of(change_spec(c, all)),
        link_spec(change_event(c)).is_suffix_of(change_spec(c, all)),
        c matches ChangeView::PriceDrop(_, d) ==> forall|j: int| 0 <= j < d.len() ==> stands_in(
            drop_line(#[trigger] d[j]),
            change_spec(c, all),
        ),
{
    let e = change_event(c);
    let t = "<b>"@ + esc_seq(e.title) + "</b>\n"@;
    let h2 = "📍 "@ + esc_seq(join(meta_items(e), " · "@)) + "\n"@;
    let other = other_sites_spec(e, all);
    let l = link_spec(e);
    assert(header_spec(e) =~= t + h2);
    assert(change_spec(c, all) == change_prefix(c) + header_spec(e) + change_body(c) + other + l);
    lemma_shape(change_prefix(c), t, h2, change_body(c), other, l);
    match c {
        ChangeView::PriceDrop(_, d) => {
            lemma_drop_lines_each(d);
        },
        _ => {},
    }
}

fn push_from_price(out: &mut Vec<char>, p: i64)
    ensures
        final(out)@ == old(out)@ + from_price_line(p),
{
    let ghost start = out@;
    push_str(out, "💰 ");
    push_tl(out, p);
    push_str(out, "'den başlayan fiyatlarla\n");
    assert(out@ =~= start + from_price_line(p));
}

fn push_price_change(out: &mut Vec<char>, old_price: i64, new_price: i64)
    ensures
        final(out)@ == old(out)@ + "<s>"@ + fmt_tl_spec(old_price as int) + "</s> → <b>"@ + fmt_tl_spec(new_price as int)
            + "</b> (−%"@ + percent_str(old_price as int, new_price as int) + ")\n"@,
{
    let ghost start = out@;
    push_str(out, "<s>");
    push_tl(out, old_price);
    push_str(out, "</s> → <b>");
    push_tl(out, new_price);
    push_str(out, "</b> (−%");
    push_percent(out, old_price, new_price);
    push_str(out, ")\n");
    assert(out@ =~= start + "<s>"@ + fmt_tl_spec(old_price as int) + "</s> → <b>"@ + fmt_tl_spec(new_price as int)
        + "</b> (−%"@ + percent_str(old_price as int, new_price as int) + ")\n"@);
}

fn push_drop_line(out: &mut Vec<char>, t: &(String, i64, i64))
    ensures
        final(out)@ == old(out)@ + drop_line(triple_view(*t)),
{
    let ghost start = out@;
    push_str(out, "💸 ");
    push_esc(out, t.0.as_str());
    push_str(out, ": ");
    push_price_change(out, t.1, t.2);
    assert(out@ =~= start + drop_line(triple_view(*t)));
}

fn push_drop_lines(out: &mut Vec<char>, drops: &Vec<(String, i64, i64)>)
    ensures
        final(out)@ == old(out)@ + drop_lines(drops@.map_values(|t: (String, i64, i64)| triple_view(t))),
{
    let ghost mid = out@;
    let ghost dv = drops@.map_values(|t: (String, i64, i64)| triple_view(t));
    let mut k: usize = 0;
    while k < drops.len()
        invariant
            0 <= k <= drops@.len(),
            dv == drops@.map_values(|t: (String, i64, i64)| triple_view(t)),
            out@ == mid + drop_lines(dv.take(k as int)),
        decreases drops.len() - k,
    {
        assert(dv.take(k + 1).drop_last() =~= dv.take(k as int));
        assert(dv.take(k + 1).last() == triple_view(drops@[k as int]));
        push_drop_line(out, &drops[k]);
        k = k + 1;
    }
    assert(dv.take(k as int) =~= dv);
}

/// The notification text of a change.
pub fn change(c: &Change, state: &State) -> (r: String)
    requires
        date_wf(change_event(c@)),
    ensures
        r@ == change_spec(c@, tracked_events(state.events@)),
{
    let mut out: Vec<char> = Vec::new();
    match c {
        Change::PriceDrop(e, drops) => {
            push_str(&mut out, "📉 <b>Fiyat düştü</b> — ");
            push_header(&mut out, e);
            push_drop_lines(&mut out, drops);
            push_other_sites(&mut out, e, state);
            push_link(&mut out, e);
        },
        Change::Discount(e) => {
            push_str(&mut out, "🔥 <b>İndirimde</b> — ");
            push_header(&mut out, e);
            match e.discount() {
                Some((o, n)) => {
                    push_str(&mut out, "💸 ");
                    push_price_change(&mut out, o, n);
                },
                None => {},
            }
            push_other_sites(&mut out, e, state);
            push_link(&mut out, e);
        },
        Change::New(e) => {
            push_str(&mut out, "🆕 <b>Yeni etkinlik</b> — ");
            push_header(&mut out, e);
            if e.sold_out {
                push_str(&mut out, "🚫 Tükendi\n");
            } else {
                match e.min_price() {
                    Some(p) => push_from_price(&mut out, p),
                    None => {},
                }
            }
            push_other_sites(&mut out, e, state);
            push_link(&mut out, e);
        },
        Change::BackInStock(e) => {
            push_str(&mut out, "🎟️ <b>Tekrar satışta</b> — ");
            push_header(&mut out, e);
            match e.min_price() {
                Some(p) => push_from_price(&mut out, p),
                None => {},
            }
            push_other_sites(&mut out, e, state);
            push_link(&mut out, e);
        },
    }
    let r = string_of(&out);
    assert(r@ =~= change_spec(c@, tracked_events(state.events@)));
    r
}

// ---------------------------------------------------------------------------------------------
// /liste
// ---------------------------------------------------------------------------------------------

/// Not over yet: undated, or dated today or later (in the event's own offset).
pub open spec fn upcoming(e: EventView, today: int) -> bool {
    match e.date {
        Some(d) => local_day(d) >= today,
        None => true,
    }
}

pub open spec fn title_matches(e: EventView, filter: Option<Seq<char>>) -> bool {
    match filter {
        Some(f) => contains_seq(fold_seq(e.title), fold_seq(f)),
        None => true,
    }
}

/// The upcoming events whose folded title contains the folded filter, in order.
pub open spec fn listed(es: Seq<EventView>, today: int, filter: Option<Seq<char>>) -> Seq<EventView>
    decreases es.len(),
{
    if es.len() == 0 {
        es
    } else if upcoming(es.last(), today) && title_matches(es.last(), filter) {
        listed(es.drop_last(), today, filter).push(es.last())
    } else {
        listed(es.drop_last(), today, filter)
    }
}

/// Order of optional dates: undated first, then by instant.
pub open spec fn date_after(a: Option<EventDate>, b: Option<EventDate>) -> bool {
    match (a, b) {
        (Some(x), Some(y)) => crate::model::instant_lt(y, x),
        (Some(_), None) => true,
        _ => false,
    }
}

pub open spec fn same_date(a: Option<EventDate>, b: Option<EventDate>) -> bool {
    match (a, b) {
        (Some(x), Some(y)) => crate::model::same_instant(x, y),
        (None, None) => true,
        _ => false,
    }
}

/// Order of the list: by date, then by title.
pub open spec fn list_after(a: EventView, b: EventView) -> bool {
    date_after(a.date, b.date) || (same_date(a.date, b.date) && seq_lt(b.title, a.title))
}

/// `e` is listed together with `o`: the same event on another site, or the same title and
/// date on the same site.
pub open spec fn joins(o: EventView, e: EventView) -> bool {
    same_event_spec(o, e) || (o.source == e.source && o.title == e.title && same_date(o.date, e.date))
}

pub open spec fn fits_group(g: Seq<EventView>, e: EventView) -> bool {
    exists|j: int| 0 <= j < g.len() && joins(#[trigger] g[j], e)
}

/// The first group that `e` joins.
pub open spec fn first_fitting(gs: Seq<Seq<EventView>>, e: EventView) -> Option<int> {
    if exists|i: int| 0 <= i < gs.len() && fits_group(#[trigger] gs[i], e) {
        Some(choose|i: int| 0 <= i < gs.len() && fits_group(#[trigger] gs[i], e) && forall|j: int| 0 <= j < i ==> !fits_group(gs[j], e))
    } else {
        None
    }
}

pub proof fn lemma_first_fitting(gs: Seq<Seq<EventView>>, e: EventView)
    ensures
        first_fitting(gs, e) matches Some(i) ==> 0 <= i < gs.len() && fits_group(gs[i], e) && forall|j: int| 0 <= j < i ==> !fits_group(gs[j], e),
{
    if exists|i: int| 0 <= i < gs.len() && fits_group(#[trigger] gs[i], e) {
        let w = choose|i: int| 0 <= i < gs.len() && fits_group(#[trigger] gs[i], e);
        lemma_first_fitting_min(gs, e, w);
    }
}

proof fn lemma_first_fitting_min(gs: Seq<Seq<EventView>>, e: EventView, w: int)
    requires
        0 <= w < gs.len(),
        fits_group(gs[w], e),
    ensures
        exists|i: int| 0 <= i < gs.len() && fits_group(#[trigger] gs[i], e) && forall|j: int| 0 <= j < i ==> !fits_group(gs[j], e),
    decreases w,
{
    if exists|j: int| 0 <= j < w && fits_group(#[trigger] gs[j], e) {
        let j = choose|j: int| 0 <= j < w && fits_group(#[trigger] gs[j], e);
        lemma_first_fitting_min(gs, e, j);
    } else {
        assert(forall|j: int| 0 <= j < w ==> !fits_group(gs[j], e));
    }
}

/// Each event joins the first group it fits, or starts a new one.
pub open spec fn group_events(es: Seq<EventView>) -> Seq<Seq<EventView>>
    decreases es.len(),
{
    if es.len() == 0 {
        seq![]
    } else {
        let gs = group_events(es.drop_last());
        let e = es.last();
        match first_fitting(gs, e) {
            Some(i) => gs.update(i, gs[i].push(e)),
            None => gs.push(seq![e]),
        }
    }
}

/// The number of events in all the groups.
pub open spec fn total_len(gs: Seq<Seq<EventView>>) -> nat
    decreases gs.len(),
{
    if gs.len() == 0 {
        0
    } else {
        total_len(gs.drop_last()) + gs.last().len()
    }
}

proof fn lemma_total_update(gs: Seq<Seq<EventView>>, i: int, x: Seq<EventView>)
    requires
        0 <= i < gs.len(),
    ensures
        total_len(gs.update(i, x)) == total_len(gs) - gs[i].len() + x.len(),
    decreases gs.len(),
{
    let u = gs.update(i, x);
    if i == gs.len() - 1 {
        assert(u.drop_last() =~= gs.drop_last());
    } else {
        assert(u.drop_last() =~= gs.drop_last().update(i, x));
        lemma_total_update(gs.drop_last(), i, x);
    }
}

/// An event stands in one of the groups.
pub open spec fn in_some_group(gs: Seq<Seq<EventView>>, e: EventView) -> bool {
    exists|a: int, b: int| 0 <= a < gs.len() && 0 <= b < gs[a].len() && #[trigger] gs[a][b] == e
}

/// The groups of /liste share out its events: there are no more groups than events (none
/// only without events), no group is empty, the groups hold as many events as there are,
/// every event is in a group, and a group holds only the list's events.
pub proof fn groups_share_out_the_events(es: Seq<EventView>)
    ensures
        (group_events(es).len() == 0) == (es.len() == 0),
        group_events(es).len() <= es.len(),
        forall|a: int| 0 <= a < group_events(es).len() ==> (#[trigger] group_events(es)[a]).len() > 0,
        total_len(group_events(es)) == es.len(),
        forall|j: int| 0 <= j < es.len() ==> in_some_group(group_events(es), #[trigger] es[j]),
        forall|a: int, b: int|
            0 <= a < group_events(es).len() && 0 <= b < group_events(es)[a].len() ==> es.contains(
                #[trigger] group_events(es)[a][b],
            ),
    decreases es.len(),
{
    if es.len() > 0 {
        let t = es.drop_last();
        let n = es.len() - 1;
        let e = es.last();
        let g0 = group_events(t);
        let gs = group_events(es);
        groups_share_out_the_events(t);
        lemma_first_fitting(g0, e);
        assert(es[n] == e);
        match first_fitting(g0, e) {
            Some(i) => {
                assert(gs == g0.update(i, g0[i].push(e)));
                lemma_total_update(g0, i, g0[i].push(e));
                assert forall|a: int| 0 <= a < gs.len() implies (#[trigger] gs[a]).len() > 0 by {
                    if a != i {
                        assert(gs[a] == g0[a]);
                    }
                }
                assert forall|j: int| 0 <= j < es.len() implies in_some_group(gs, #[trigger] es[j]) by {
                    if j < n {
                        assert(t[j] == es[j]);
                        assert(in_some_group(g0, t[j]));
                        let (a, b) = choose|a: int, b: int| 0 <= a < g0.len() && 0 <= b < g0[a].len() && #[trigger] g0[a][b] == t[j];
                        if a == i {
                            assert(gs[a][b] == g0[a][b]);
                        } else {
                            assert(gs[a] == g0[a]);
                        }
                    } else {
                        assert(gs[i][g0[i].len() as int] == e);
                    }
                }
                assert forall|a: int, b: int| 0 <= a < gs.len() && 0 <= b < gs[a].len() implies es.contains(
                    #[trigger] gs[a][b],
                ) by {
                    if a == i && b == g0[i].len() {
                        assert(gs[a][b] == es[n]);
                    } else {
                        if a == i {
                            assert(gs[a][b] == g0[a][b]);
                        } else {
                            assert(gs[a] == g0[a]);
                        }
                        assert(t.contains(g0[a][b]));
                        let k = choose|k: int| 0 <= k < t.len() && t[k] == g0[a][b];
                        assert(es[k] == t[k]);
                    }
                }
            },
            None => {
                assert(gs == g0.push(seq![e]));
                assert(gs.drop_last() =~= g0);
                assert forall|a: int| 0 <= a < gs.len() implies (#[trigger] gs[a]).len() > 0 by {
                    if a < g0.len() {
                        assert(gs[a] == g0[a]);
                    }
                }
                assert forall|j: int| 0 <= j < es.len() implies in_some_group(gs, #[trigger] es[j]) by {
                    if j < n {
                        assert(t[j] == es[j]);
                        assert(in_some_group(g0, t[j]));
                        let (a, b) = choose|a: int, b: int| 0 <= a < g0.len() && 0 <= b < g0[a].len() && #[trigger] g0[a][b] == t[j];
                        assert(gs[a] == g0[a]);
                    } else {
                        assert(gs[g0.len() as int][0] == e);
                    }
                }
                assert forall|a: int, b: int| 0 <= a < gs.len() && 0 <= b < gs[a].len() implies es.contains(
                    #[trigger] gs[a][b],
                ) by {
                    if a == g0.len() {
                        assert(gs[a][b] == es[n]);
                    } else {
                        assert(gs[a] == g0[a]);
                        assert(t.contains(g0[a][b]));
                        let k = choose|k: int| 0 <= k < t.len() && t[k] == g0[a][b];
                        assert(es[k] == t[k]);
                    }
                }
            },
        }
    }
}

/// The lowest price among the group's priced events that are not sold out, with the first
/// event that has it.
pub open spec fn best_offer(g: Seq<EventView>) -> Option<(i64, EventView)>
    decreases g.len(),
{
    if g.len() == 0 {
        None
    } else {
        let b = best_offer(g.drop_last());
        let x = g.last();
        if !x.sold_out && min_value(x.tiers) is Some {
            let p = min_value(x.tiers).unwrap();
            match b {
                Some(bb) => if bb.0 <= p {
                    b
                } else {
                    Some((p, x))
                },
                None => Some((p, x)),
            }
        } else {
            b
        }
    }
}

/// An event of a group can be offered: it is not sold out and has a price.
pub open spec fn offerable(x: EventView) -> bool {
    !x.sold_out && min_value(x.tiers) is Some
}

/// A /liste line's offer is the cheapest: its price is that of an event of the group that is
/// not sold out, at most the price of every such event, and the first event with that price;
/// there is none exactly when no event of the group is offerable.
#[verifier::spinoff_prover]
#[verifier::rlimit(30)]
pub proof fn liste_shows_the_cheapest_offer(g: Seq<EventView>)
    ensures
        best_offer(g) matches Some((p, o)) ==> exists|i: int|
            0 <= i < g.len() && #[trigger] g[i] == o && offerable(o) && min_value(o.tiers) == Some(p) && (forall|j: int|
                0 <= j < g.len() && offerable(#[trigger] g[j]) ==> p <= min_value(g[j].tiers)->0) && (forall|j: int|
                0 <= j < i && offerable(#[trigger] g[j]) ==> min_value(g[j].tiers)->0 != p),
        best_offer(g) is None <==> forall|j: int| 0 <= j < g.len() ==> !offerable(#[trigger] g[j]),
    decreases g.len(),
{
    if g.len() > 0 {
        let t = g.drop_last();
        let n = g.len() - 1;
        let x = g.last();
        assert(g[n] == x);
        liste_shows_the_cheapest_offer(t);
        assert forall|j: int| 0 <= j < t.len() implies #[trigger] t[j] == g[j] by {}
        let b = best_offer(t);
        if offerable(x) {
            let p = min_value(x.tiers)->0;
            match b {
                Some(bb) => {
                    let i = choose|i: int|
                        0 <= i < t.len() && #[trigger] t[i] == bb.1 && offerable(bb.1) && min_value(bb.1.tiers) == Some(bb.0)
                            && (forall|j: int| 0 <= j < t.len() && offerable(#[trigger] t[j]) ==> bb.0 <= min_value(t[j].tiers)->0)
                            && (forall|j: int| 0 <= j < i && offerable(#[trigger] t[j]) ==> min_value(t[j].tiers)->0 != bb.0);
                    assert(g[i] == t[i]);
                    if bb.0 <= p {
                        assert forall|j: int| 0 <= j < g.len() && offerable(#[trigger] g[j]) implies bb.0 <= min_value(g[j].tiers)->0 by {
                            if j < n {
                                assert(g[j] == t[j]);
                            }
                        }
                        assert forall|j: int| 0 <= j < i && offerable(#[trigger] g[j]) implies min_value(g[j].tiers)->0 != bb.0 by {
                            assert(g[j] == t[j]);
                        }
                    } else {
                        assert forall|j: int| 0 <= j < g.len() && offerable(#[trigger] g[j]) implies p <= min_value(g[j].tiers)->0 by {
                            if j < n {
                                assert(g[j] == t[j]);
                            }
                        }
                        assert forall|j: int| 0 <= j < n && offerable(#[trigger] g[j]) implies min_value(g[j].tiers)->0 != p by {
                            assert(g[j] == t[j]);
                        }
                    }
                },
                None => {
                    assert forall|j: int| 0 <= j < g.len() && offerable(#[trigger] g[j]) implies p <= min_value(g[j].tiers)->0 by {
                        if j < n {
                            assert(g[j] == t[j]);
                            assert(!offerable(t[j]));
                        }
                    }
                    assert forall|j: int| 0 <= j < n && offerable(#[trigger] g[j]) implies min_value(g[j].tiers)->0 != p by {
                        assert(g[j] == t[j]);
                        assert(!offerable(t[j]));
                    }
                },
            }
        } else {
            if b is Some {
                let bb = b->0;
                let i = choose|i: int|
                    0 <= i < t.len() && #[trigger] t[i] == bb.1 && offerable(bb.1) && min_value(bb.1.tiers) == Some(bb.0)
                        && (forall|j: int| 0 <= j < t.len() && offerable(#[trigger] t[j]) ==> bb.0 <= min_value(t[j].tiers)->0)
                        && (forall|j: int| 0 <= j < i && offerable(#[trigger] t[j]) ==> min_value(t[j].tiers)->0 != bb.0);
                assert(g[i] == t[i]);
                assert forall|j: int| 0 <= j < g.len() && offerable(#[trigger] g[j]) implies bb.0 <= min_value(g[j].tiers)->0 by {
                    if j < n {
                        assert(g[j] == t[j]);
                    }
                }
                assert forall|j: int| 0 <= j < i && offerable(#[trigger] g[j]) implies min_value(g[j].tiers)->0 != bb.0 by {
                    assert(g[j] == t[j]);
                }
            } else {
                assert forall|j: int| 0 <= j < g.len() implies !offerable(#[trigger] g[j]) by {
                    if j < n {
                        assert(g[j] == t[j]);
                    }
                }
            }
        }
        if forall|j: int| 0 <= j < g.len() ==> !offerable(#[trigger] g[j]) {
            assert forall|j: int| 0 <= j < t.len() implies !offerable(#[trigger] t[j]) by {
                assert(g[j] == t[j]);
            }
        }
    }
}

pub open spec fn all_sold_out(g: Seq<EventView>) -> bool {
    forall|j: int| 0 <= j < g.len() ==> (#[trigger] g[j]).sold_out
}

/// "• 11 Eki — title — <a href=\"url\">1.350 ₺</a> (Bubilet)\n"
/// "• 11 Eki — title — "
pub open spec fn line_head(e: EventView) -> Seq<char> {
    let date = match e.date {
        Some(d) => fmt_date_short_spec(d),
        None => Seq::<char>::empty(),
    };
    "• "@ + date + " — "@ + esc_seq(e.title) + " — "@
}

pub open spec fn group_line(g: Seq<EventView>) -> Seq<char> {
    line_head(g[0]) + group_price(g) + "\n"@
}

fn push_line_head(out: &mut Vec<char>, e: &Event)
    requires
        date_wf(e@),
    ensures
        final(out)@ == old(out)@ + line_head(e@),
{
    let ghost start = out@;
    push_str(out, "• ");
    match &e.date {
        Some(d) => push_date_short(out, d),
        None => {},
    }
    push_str(out, " — ");
    push_esc(out, e.title.as_str());
    push_str(out, " — ");
    assert(out@ =~= start + line_head(e@));
}

pub open spec fn concat(ls: Seq<Seq<char>>) -> Seq<char>
    decreases ls.len(),
{
    if ls.len() == 0 {
        seq![]
    } else {
        concat(ls.drop_last()) + ls.last()
    }
}

/// /liste: the upcoming events, the same event on several sites listed once with its
/// cheapest offer.
pub open spec fn list_spec(all: Seq<EventView>, today: int, filter: Option<Seq<char>>) -> Seq<char> {
    let es = stable_sorted(listed(all, today, filter), |a: EventView, b: EventView| list_after(a, b));
    let gs = group_events(es);
    if gs.len() == 0 {
        "Kayıtlı yaklaşan etkinlik yok."@
    } else {
        "🎫 <b>Yaklaşan etkinlikler</b> ("@ + nat_str(gs.len()) + ")\n\n"@ + concat(
            gs.map_values(|g: Seq<EventView>| group_line(g)),
        )
    }
}

/// /liste says that nothing is listed exactly when no event is upcoming (and matches the
/// filter); otherwise its head counts from 1 to as many groups as there are such events, and
/// the groups share those events out: none is empty, each such event is in a group, a group
/// holds only such events, and together they hold as many as there are.
pub proof fn liste_counts_its_groups(all: Seq<EventView>, today: int, filter: Option<Seq<char>>)
    ensures
        ({
            let u = listed(all, today, filter);
            let gs = group_events(stable_sorted(u, |a: EventView, b: EventView| list_after(a, b)));
            &&& u.len() == 0 ==> list_spec(all, today, filter) == "Kayıtlı yaklaşan etkinlik yok."@
            &&& u.len() > 0 ==> 1 <= gs.len() <= u.len() && list_spec(all, today, filter) == "🎫 <b>Yaklaşan etkinlikler</b> ("@
                + nat_str(gs.len()) + ")\n\n"@ + concat(gs.map_values(|g: Seq<EventView>| group_line(g)))
            &&& total_len(gs) == u.len()
            &&& forall|a: int| 0 <= a < gs.len() ==> (#[trigger] gs[a]).len() > 0
            &&& forall|j: int| 0 <= j < u.len() ==> in_some_group(gs, #[trigger] u[j])
            &&& forall|a: int, b: int| 0 <= a < gs.len() && 0 <= b < gs[a].len() ==> u.contains(#[trigger] gs[a][b])
        }),
{
    let u = listed(all, today, filter);
    let es = stable_sorted(u, |a: EventView, b: EventView| list_after(a, b));
    let gt = |a: EventView, b: EventView| list_after(a, b);
    let gs = group_events(es);
    crate::text::lemma_stable_sorted_len(u, gt);
    crate::text::lemma_stable_sorted_keeps(u, gt);
    lemma_sorted_members_all(u, gt);
    groups_share_out_the_events(es);
    assert forall|j: int| 0 <= j < u.len() implies in_some_group(gs, #[trigger] u[j]) by {
        assert(es.contains(u[j]));
        let k = choose|k: int| 0 <= k < es.len() && es[k] == u[j];
        assert(in_some_group(gs, es[k]));
    }
    assert forall|a: int, b: int| 0 <= a < gs.len() && 0 <= b < gs[a].len() implies u.contains(#[trigger] gs[a][b]) by {
        assert(es.contains(gs[a][b]));
        let k = choose|k: int| 0 <= k < es.len() && es[k] == gs[a][b];
        assert(u.contains(es[k]));
    }
}

fn same_date_exec(a: &Option<EventDate>, b: &Option<EventDate>) -> (r: bool)
    ensures
        r == same_date(*a, *b),
{
    match (a, b) {
        (Some(x), Some(y)) => x.secs == y.secs && x.nanos == y.nanos,
        (None, None) => true,
        _ => false,
    }
}

fn list_gt(a: &&Event, b: &&Event) -> (r: bool)
    ensures
        r == list_after((**a)@, (**b)@),
{
    let da = &a.date;
    let db = &b.date;
    let after = match (da, db) {
        (Some(x), Some(y)) => y.secs < x.secs || (y.secs == x.secs && y.nanos < x.nanos),
        (Some(_), None) => true,
        _ => false,
    };
    after || (same_date_exec(da, db) && string_lt(&b.title, &a.title))
}

fn joins_exec(o: &Event, e: &Event) -> (r: bool)
    ensures
        r == joins(o@, e@),
{
    same_event(o, e) || (o.source == e.source && o.title == e.title && same_date_exec(&o.date, &e.date))
}

fn fits_group_exec(g: &Vec<&Event>, e: &Event) -> (r: bool)
    ensures
        r == fits_group(event_refs_view(g@), e@),
{
    let ghost gv = event_refs_view(g@);
    let mut j: usize = 0;
    while j < g.len()
        invariant
            0 <= j <= g@.len(),
            gv == event_refs_view(g@),
            forall|k: int| 0 <= k < j ==> !joins(gv[k], e@),
        decreases g.len() - j,
    {
        if joins_exec(g[j], e) {
            assert(joins(gv[j as int], e@));
            return true;
        }
        j = j + 1;
    }
    false
}

pub open spec fn groups_view(gs: Seq<Vec<&Event>>) -> Seq<Seq<EventView>> {
    gs.map_values(|g: Vec<&Event>| event_refs_view(g@))
}

fn best_offer_exec<'a>(g: &Vec<&'a Event>) -> (r: Option<(i64, &'a Event)>)
    ensures
        match r {
            Some((p, x)) => best_offer(event_refs_view(g@)) == Some((p, x@)),
            None => best_offer(event_refs_view(g@)) is None,
        },
{
    let ghost gv = event_refs_view(g@);
    let mut best: Option<(i64, &Event)> = None;
    let mut j: usize = 0;
    while j < g.len()
        invariant
            0 <= j <= g@.len(),
            gv == event_refs_view(g@),
            match best {
                Some((p, x)) => best_offer(gv.take(j as int)) == Some((p, x@)),
                None => best_offer(gv.take(j as int)) is None,
            },
        decreases g.len() - j,
    {
        assert(gv.take(j + 1).drop_last() =~= gv.take(j as int));
        assert(gv.take(j + 1).last() == g@[j as int]@);
        let x = g[j];
        if !x.sold_out {
            match x.min_price() {
                Some(p) => {
                    match best {
                        Some((bp, _)) => {
                            if !(bp <= p) {
                                best = Some((p, x));
                            }
                        },
                        None => {
                            best = Some((p, x));
                        },
                    }
                },
                None => {},
            }
        }
        j = j + 1;
    }
    assert(gv.take(j as int) =~= gv);
    best
}

fn all_sold_out_exec(g: &Vec<&Event>) -> (r: bool)
    ensures
        r == all_sold_out(event_refs_view(g@)),
{
    let ghost gv = event_refs_view(g@);
    let mut j: usize = 0;
    while j < g.len()
        invariant
            0 <= j <= g@.len(),
            gv == event_refs_view(g@),
            forall|k: int| 0 <= k < j ==> gv[k].sold_out,
        decreases g.len() - j,
    {
        if !g[j].sold_out {
            assert(!gv[j as int].sold_out);
            return false;
        }
        j = j + 1;
    }
    true
}

/// The price part of a list line.
pub open spec fn group_price(g: Seq<EventView>) -> Seq<char> {
    match best_offer(g) {
        Some(b) => anchor(b.1.url, fmt_tl_spec(b.0 as int)) + " ("@ + source_name(b.1.source) + ")"@,
        None => if all_sold_out(g) {
            "tükendi"@
        } else {
            anchor(g[0].url, "fiyat yok"@)
        },
    }
}

fn push_group_price(out: &mut Vec<char>, g: &Vec<&Event>)
    requires
        g@.len() > 0,
    ensures
        final(out)@ == old(out)@ + group_price(event_refs_view(g@)),
{
    let ghost gv = event_refs_view(g@);
    let ghost start = out@;
    let e = g[0];
    assert(gv[0] == e@);
    match best_offer_exec(g) {
        Some((p, x)) => {
            push_anchor_start(out, &x.url);
            push_tl(out, p);
            push_str(out, "</a>");
            push_str(out, " (");
            push_str(out, x.source.name());
            push_str(out, ")");
        },
        None => {
            if all_sold_out_exec(g) {
                push_str(out, "tükendi");
            } else {
                push_anchor_start(out, &e.url);
                push_str(out, "fiyat yok");
                push_str(out, "</a>");
            }
        },
    }
    assert(out@ =~= start + group_price(gv));
}

fn push_group_line(out: &mut Vec<char>, g: &Vec<&Event>)
    requires
        g@.len() > 0,
        dates_wf(event_refs_view(g@)),
    ensures
        final(out)@ == old(out)@ + group_line(event_refs_view(g@)),
{
    let ghost gv = event_refs_view(g@);
    let ghost start = out@;
    let e = g[0];
    assert(gv[0] == e@);
    assert(date_wf(gv[0]));
    push_line_head(out, e);
    push_group_price(out, g);
    push_str(out, "\n");
    assert(out@ =~= start + group_line(gv));
}

/// /liste (and /ara with a filter): upcoming events, each event listed once across sites with
/// its cheapest offer.
pub fn list(state: &State, today: i64, filter: Option<&str>) -> (r: String)
    requires
        state_dates_wf(*state),
    ensures
        r@ == list_spec(
            tracked_events(state.events@),
            today as int,
            match filter {
                Some(f) => Some(f@),
                None => None,
            },
        ),
{
    let ghost all = tracked_events(state.events@);
    let ghost fv: Option<Seq<char>> = match filter {
        Some(f) => Some(f@),
        None => None,
    };
    let ffold: Option<Vec<char>> = match filter {
        Some(f) => Some(fold_chars(&chars_of(f))),
        None => None,
    };
    let es = state.events.entries();
    let mut events: Vec<&Event> = Vec::new();
    let mut i: usize = 0;
    while i < es.len()
        invariant
            0 <= i <= es@.len(),
            es@.len() == all.len(),
            all == tracked_events(state.events@),
            forall|j: int| 0 <= j < es@.len() ==> (#[trigger] es@[j]).1 == state.events@[j].1,
            event_refs_view(events@) == listed(all.take(i as int), today as int, fv),
            dates_wf(all),
            match ffold {
                Some(f) => fv is Some && f@ == fold_seq(fv.unwrap()),
                None => fv is None,
            },
        decreases es.len() - i,
    {
        assert(all.take(i + 1).drop_last() =~= all.take(i as int));
        assert(all.take(i + 1).last() == es@[i as int].1.event@);
        let e: &Event = &es[i].1.event;
        let up = match &e.date {
            Some(d) => local_day_of(d) >= today,
            None => true,
        };
        let matches = match &ffold {
            Some(f) => contains_chars(&fold_chars(&chars_of(e.title.as_str())), f),
            None => true,
        };
        if up && matches {
            let ghost before = events@;
            events.push(e);
            assert(event_refs_view(events@) =~= event_refs_view(before).push(e@));
        }
        i = i + 1;
    }
    assert(all.take(i as int) =~= all);
    let ghost g = |a: &Event, b: &Event| list_after(a@, b@);
    let ghost gv = |a: EventView, b: EventView| list_after(a, b);
    let ghost unsorted = events@;
    let sorted = stable_sort(events, list_gt, Ghost(g));
    proof {
        lemma_stable_sorted_map(unsorted, |x: &Event| x@, g, gv);
    }
    let ghost sv = event_refs_view(sorted@);
    // group
    let mut groups: Vec<Vec<&Event>> = Vec::new();
    let mut k: usize = 0;
    while k < sorted.len()
        invariant
            0 <= k <= sorted@.len(),
            sv == event_refs_view(sorted@),
            groups_view(groups@) == group_events(sv.take(k as int)),
            forall|a: int| 0 <= a < groups@.len() ==> (#[trigger] groups@[a])@.len() > 0,
        decreases sorted.len() - k,
    {
        assert(sv.take(k + 1).drop_last() =~= sv.take(k as int));
        assert(sv.take(k + 1).last() == sorted@[k as int]@);
        let e = sorted[k];
        let ghost gs = groups_view(groups@);
        let mut found: Option<usize> = None;
        let mut a: usize = 0;
        while a < groups.len() && found.is_none()
            invariant
                0 <= a <= groups@.len(),
                gs == groups_view(groups@),
                found matches Some(a0) ==> a0 < gs.len() && fits_group(gs[a0 as int], e@) && forall|b: int| 0 <= b < a0 ==> !fits_group(gs[b], e@),
                found is None ==> forall|b: int| 0 <= b < a ==> !fits_group(gs[b], e@),
            decreases groups.len() - a,
        {
            if fits_group_exec(&groups[a], e) {
                found = Some(a);
            }
            a = a + 1;
        }
        proof {
            match found {
                Some(a0) => {
                    assert(fits_group(gs[a0 as int], e@));
                    let w = choose|i: int| 0 <= i < gs.len() && fits_group(#[trigger] gs[i], e@) && forall|j: int| 0 <= j < i ==> !fits_group(gs[j], e@);
                    assert(0 <= a0 < gs.len() && fits_group(gs[a0 as int], e@) && forall|j: int| 0 <= j < a0 ==> !fits_group(gs[j], e@));
                    if w < a0 {
                    } else if w > a0 {
                    }
                    assert(first_fitting(gs, e@) == Some(a0 as int));
                },
                None => {
                    assert forall|i: int| 0 <= i < gs.len() implies !fits_group(#[trigger] gs[i], e@) by {}
                    assert(first_fitting(gs, e@) is None);
                },
            }
        }
        match found {
            Some(a0) => {
                let ghost before = groups@;
                let mut grp = groups.remove(a0);
                grp.push(e);
                groups.insert(a0, grp);
                proof {
                    assert(groups@ =~= before.update(a0 as int, groups@[a0 as int]));
                    assert(event_refs_view(groups@[a0 as int]@) =~= event_refs_view(before[a0 as int]@).push(e@));
                    assert(groups_view(groups@) =~= gs.update(a0 as int, gs[a0 as int].push(e@)));
                }
            },
            None => {
                let ghost before = groups@;
                let grp: Vec<&Event> = vec![e];
                groups.push(grp);
                proof {
                    assert(event_refs_view(groups@.last()@) =~= seq![e@]);
                    assert(groups_view(groups@) =~= gs.push(seq![e@]));
                }
            },
        }
        k = k + 1;
    }
    assert(sv.take(k as int) =~= sv);
    let ghost gsv = groups_view(groups@);
    let mut out: Vec<char> = Vec::new();
    if groups.len() == 0 {
        push_str(&mut out, "Kayıtlı yaklaşan etkinlik yok.");
        let r = string_of(&out);
        assert(r@ =~= list_spec(all, today as int, fv));
        return r;
    }
    push_str(&mut out, "🎫 <b>Yaklaşan etkinlikler</b> (");
    push_u64(&mut out, groups.len() as u64);
    push_str(&mut out, ")\n\n");
    let ghost mid = out@;
    let ghost lines = gsv.map_values(|g: Seq<EventView>| group_line(g));
    // every listed event is a stored one, so its date can be written
    proof {
        crate::text::lemma_stable_sorted_len(listed(all, today as int, fv), gv);
        assert forall|j: int| 0 <= j < sv.len() implies date_wf(#[trigger] sv[j]) by {
            lemma_listed_dates(all, today as int, fv);
            lemma_sorted_members(listed(all, today as int, fv), gv, j);
        }
        lemma_group_members(sv, gsv);
    }
    let mut q: usize = 0;
    while q < groups.len()
        invariant
            0 <= q <= groups@.len(),
            gsv == groups_view(groups@),
            lines == gsv.map_values(|g: Seq<EventView>| group_line(g)),
            out@ == mid + concat(lines.take(q as int)),
            forall|a: int| 0 <= a < groups@.len() ==> (#[trigger] groups@[a])@.len() > 0,
            forall|a: int| 0 <= a < gsv.len() ==> dates_wf(#[trigger] gsv[a]),
        decreases groups.len() - q,
    {
        assert(lines.take(q + 1).drop_last() =~= lines.take(q as int));
        assert(gsv[q as int] == event_refs_view(groups@[q as int]@));
        push_group_line(&mut out, &groups[q]);
        q = q + 1;
    }
    assert(lines.take(q as int) =~= lines);
    let r = string_of(&out);
    assert(r@ =~= list_spec(all, today as int, fv));
    r
}

pub proof fn lemma_listed_dates(all: Seq<EventView>, today: int, f: Option<Seq<char>>)
    requires
        dates_wf(all),
    ensures
        dates_wf(listed(all, today, f)),
    decreases all.len(),
{
    if all.len() > 0 {
        assert forall|j: int| 0 <= j < all.drop_last().len() implies date_wf(#[trigger] all.drop_last()[j]) by {
            assert(all.drop_last()[j] == all[j]);
        }
        lemma_listed_dates(all.drop_last(), today, f);
        assert(date_wf(all[all.len() - 1]));
    }
}

pub proof fn lemma_sorted_members<T>(s: Seq<T>, gt: spec_fn(T, T) -> bool, j: int)
    requires
        0 <= j < stable_sorted(s, gt).len(),
    ensures
        s.contains(stable_sorted(s, gt)[j]),
    decreases s.len(),
{
    lemma_sorted_members_all(s, gt);
}

pub proof fn lemma_sorted_members_all<T>(s: Seq<T>, gt: spec_fn(T, T) -> bool)
    ensures
        forall|j: int| 0 <= j < stable_sorted(s, gt).len() ==> s.contains(#[trigger] stable_sorted(s, gt)[j]),
    decreases s.len(),
{
    if s.len() > 0 {
        lemma_sorted_members_all(s.drop_last(), gt);
        let p = stable_sorted(s.drop_last(), gt);
        crate::text::lemma_insert_members(p, s.last(), gt);
        assert forall|j: int| 0 <= j < stable_sorted(s, gt).len() implies s.contains(#[trigger] stable_sorted(s, gt)[j]) by {
            let y = stable_sorted(s, gt)[j];
            if p.contains(y) {
                let k = choose|k: int| 0 <= k < p.len() && p[k] == y;
                assert(s.drop_last().contains(p[k]));
                let m = choose|m: int| 0 <= m < s.drop_last().len() && s.drop_last()[m] == y;
                assert(s[m] == y);
            } else {
                assert(s[s.len() - 1] == y);
            }
        }
    }
}

/// Each group is non-empty and made of events of the list.
pub proof fn lemma_group_members(es: Seq<EventView>, gs: Seq<Seq<EventView>>)
    requires
        gs == group_events(es),
        dates_wf(es),
    ensures
        forall|a: int| 0 <= a < gs.len() ==> dates_wf(#[trigger] gs[a]),
    decreases es.len(),
{
    if es.len() > 0 {
        let g0 = group_events(es.drop_last());
        assert forall|j: int| 0 <= j < es.drop_last().len() implies date_wf(#[trigger] es.drop_last()[j]) by {
            assert(es.drop_last()[j] == es[j]);
        }
        lemma_group_members(es.drop_last(), g0);
        assert(date_wf(es[es.len() - 1]));
        assert forall|a: int| 0 <= a < gs.len() implies dates_wf(#[trigger] gs[a]) by {
            match first_fitting(g0, es.last()) {
                Some(i) => {
                    lemma_first_fitting(g0, es.last());
                    if a == i {
                        assert(gs[a] == g0[a].push(es.last()));
                        assert forall|j: int| 0 <= j < gs[a].len() implies date_wf(#[trigger] gs[a][j]) by {
                            if j < g0[a].len() {
                                assert(gs[a][j] == g0[a][j]);
                            } else {
                                assert(gs[a][j] == es.last());
                            }
                        }
                    } else {
                        assert(gs[a] == g0[a]);
                    }
                },
                None => {
                    if a < g0.len() {
                        assert(gs[a] == g0[a]);
                    } else {
                        assert forall|j: int| 0 <= j < gs[a].len() implies date_wf(#[trigger] gs[a][j]) by {
                            assert(gs[a][j] == es.last());
                        }
                    }
                },
            }
        }
    }
}

// ---------------------------------------------------------------------------------------------
// /indirim
// ---------------------------------------------------------------------------------------------

/// The upcoming events with a discount: (event, list price, price now), in order.
pub open spec fn discounted(es: Seq<EventView>, today: int) -> Seq<(EventView, i64, i64)>
    decreases es.len(),
{
    if es.len() == 0 {
        seq![]
    } else {
        let rest = discounted(es.drop_last(), today);
        let e = es.last();
        if upcoming(e, today) && discount_of(e) is Some {
            rest.push((e, discount_of(e).unwrap().0, discount_of(e).unwrap().1))
        } else {
            rest
        }
    }
}

/// The discount in tenths of a percent, rounded toward zero (0 for a zero list price).
pub open spec fn discount_rank(t: (EventView, i64, i64)) -> int {
    if t.1 == 0 {
        0
    } else {
        crate::model::tdiv((t.1 - t.2) * 1000, t.1 as int)
    }
}

/// Larger discounts first.
pub open spec fn rank_after(a: (EventView, i64, i64), b: (EventView, i64, i64)) -> bool {
    discount_rank(a) < discount_rank(b)
}

pub open spec fn discount_tail(t: (EventView, i64, i64)) -> Seq<char> {
    "<s>"@ + fmt_tl_spec(t.1 as int) + "</s> "@ + anchor(t.0.url, fmt_tl_spec(t.2 as int)) + " (−%"@ + percent_str(
        t.1 as int,
        t.2 as int,
    ) + ", "@ + source_name(t.0.source) + ")\n"@
}

/// "• 11 Eki — title — <s>old</s> <a href=\"url\">new</a> (−%pct, Bubilet)\n"
pub open spec fn discount_line(t: (EventView, i64, i64)) -> Seq<char> {
    line_head(t.0) + discount_tail(t)
}

/// /indirim: the upcoming events the sites show as discounted, the largest discount first.
pub open spec fn discounts_spec(all: Seq<EventView>, today: int) -> Seq<char> {
    let ds = stable_sorted(discounted(all, today), |a: (EventView, i64, i64), b: (EventView, i64, i64)| rank_after(a, b));
    if ds.len() == 0 {
        "Şu an indirimli etkinlik yok."@
    } else {
        "🔥 <b>İndirimdekiler</b> ("@ + nat_str(ds.len()) + ")\n\n"@ + concat(
            ds.map_values(|t: (EventView, i64, i64)| discount_line(t)),
        )
    }
}

/// The upcoming events with a discount, in order.
pub open spec fn discounted_events(es: Seq<EventView>, today: int) -> Seq<EventView> {
    es.filter(|e: EventView| upcoming(e, today) && discount_of(e) is Some)
}

proof fn lemma_discounted_events(es: Seq<EventView>, today: int)
    ensures
        discounted(es, today).len() == discounted_events(es, today).len(),
        forall|i: int|
            0 <= i < discounted(es, today).len() ==> (#[trigger] discounted(es, today)[i]).0
                == discounted_events(es, today)[i] && discount_of(discounted(es, today)[i].0) == Some(
                (discounted(es, today)[i].1, discounted(es, today)[i].2),
            ),
    decreases es.len(),
{
    if es.len() > 0 {
        let f = |e: EventView| upcoming(e, today) && discount_of(e) is Some;
        let t = es.drop_last();
        lemma_discounted_events(t, today);
        assert(discounted_events(es, today) == es.filter(f));
        assert(discounted_events(t, today) == t.filter(f));
        reveal(Seq::filter);
        assert(es.filter(f) == if f(es.last()) {
            t.filter(f).push(es.last())
        } else {
            t.filter(f)
        });
        let a = discounted(es, today);
        let b = discounted(t, today);
        assert forall|i: int| 0 <= i < a.len() implies (#[trigger] a[i]).0 == discounted_events(es, today)[i]
            && discount_of(a[i].0) == Some((a[i].1, a[i].2)) by {
            if i < b.len() {
                assert(a[i] == b[i]);
            }
        }
    }
}

/// /indirim counts the upcoming discounted events: with none it says so; otherwise its head
/// gives their number and one line follows for each, each of them exactly once (its lines are
/// the discounted events' entries, reordered), with its list price and price now.
pub proof fn indirim_counts_the_discounted(all: Seq<EventView>, today: int)
    ensures
        ({
            let d = discounted_events(all, today);
            let ds = stable_sorted(discounted(all, today), |a: (EventView, i64, i64), b: (EventView, i64, i64)| rank_after(a, b));
            &&& ds.len() == d.len()
            &&& d.len() == 0 ==> discounts_spec(all, today) == "Şu an indirimli etkinlik yok."@
            &&& d.len() > 0 ==> discounts_spec(all, today) == "🔥 <b>İndirimdekiler</b> ("@ + nat_str(d.len())
                + ")\n\n"@ + concat(ds.map_values(|t: (EventView, i64, i64)| discount_line(t)))
            &&& forall|i: int| 0 <= i < ds.len() ==> d.contains((#[trigger] ds[i]).0) && discount_of(ds[i].0) == Some(
                (ds[i].1, ds[i].2),
            )
            &&& ds.to_multiset() == discounted(all, today).to_multiset()
            &&& forall|i: int| 0 <= i < d.len() ==> (#[trigger] discounted(all, today)[i]).0 == d[i]
        }),
{
    let gt = |a: (EventView, i64, i64), b: (EventView, i64, i64)| rank_after(a, b);
    let dd = discounted(all, today);
    let d = discounted_events(all, today);
    let ds = stable_sorted(dd, gt);
    lemma_discounted_events(all, today);
    crate::text::lemma_stable_sorted_len(dd, gt);
    lemma_sorted_members_all(dd, gt);
    crate::text::lemma_stable_sorted_multiset(dd, gt);
    assert forall|i: int| 0 <= i < ds.len() implies d.contains((#[trigger] ds[i]).0) && discount_of(ds[i].0) == Some(
        (ds[i].1, ds[i].2),
    ) by {
        assert(dd.contains(ds[i]));
        let k = choose|k: int| 0 <= k < dd.len() && dd[k] == ds[i];
        assert(dd[k].0 == d[k]);
    }
}

/// /indirim lists the largest discount first.
pub proof fn indirim_lists_largest_discount_first(all: Seq<EventView>, today: int)
    ensures
        ({
            let ds = stable_sorted(discounted(all, today), |a: (EventView, i64, i64), b: (EventView, i64, i64)| rank_after(a, b));
            forall|i: int, j: int| 0 <= i < j < ds.len() ==> discount_rank(#[trigger] ds[i]) >= discount_rank(#[trigger] ds[j])
        }),
{
    let gt = |a: (EventView, i64, i64), b: (EventView, i64, i64)| rank_after(a, b);
    assert(crate::text::strict_weak(gt));
    crate::text::lemma_stable_sorted_sorted(discounted(all, today), gt);
    let ds = stable_sorted(discounted(all, today), gt);
    assert forall|i: int, j: int| 0 <= i < j < ds.len() implies discount_rank(#[trigger] ds[i]) >= discount_rank(#[trigger] ds[j]) by {
        assert(!gt(ds[i], ds[j]));
    }
}

pub open spec fn disc_view(t: (&Event, i64, i64)) -> (EventView, i64, i64) {
    (t.0@, t.1, t.2)
}

fn rank_exec(t: &(&Event, i64, i64)) -> (r: i128)
    ensures
        r == discount_rank(disc_view(*t)),
{
    let n: i128 = (t.1 as i128 - t.2 as i128) * 1000;
    let d: i128 = t.1 as i128;
    if d == 0 {
        return 0;
    }
    let an: i128 = if n < 0 { -n } else { n };
    let ad: i128 = if d < 0 { -d } else { d };
    let q: i128 = an / ad;
    let r: i128 = if (n < 0) != (d < 0) { -q } else { q };
    assert(r == crate::model::tdiv(n as int, d as int)) by (nonlinear_arith)
        requires
            d != 0,
            an == (if n < 0 { -(n as int) } else { n as int }),
            ad == (if d < 0 { -(d as int) } else { d as int }),
            q == an / ad,
            r == (if (n < 0) != (d < 0) { -(q as int) } else { q as int }),
    ;
    r
}

fn rank_gt(a: &(&Event, i64, i64), b: &(&Event, i64, i64)) -> (r: bool)
    ensures
        r == rank_after(disc_view(*a), disc_view(*b)),
{
    rank_exec(a) < rank_exec(b)
}

fn push_discount_tail(out: &mut Vec<char>, t: &(&Event, i64, i64))
    ensures
        final(out)@ == old(out)@ + discount_tail(disc_view(*t)),
{
    let ghost start = out@;
    let e = t.0;
    push_str(out, "<s>");
    push_tl(out, t.1);
    push_str(out, "</s> ");
    push_anchor_start(out, &e.url);
    push_tl(out, t.2);
    push_str(out, "</a>");
    push_str(out, " (−%");
    push_percent(out, t.1, t.2);
    push_str(out, ", ");
    push_str(out, e.source.name());
    push_str(out, ")\n");
    assert(out@ =~= start + discount_tail(disc_view(*t)));
}

fn push_discount_line(out: &mut Vec<char>, t: &(&Event, i64, i64))
    requires
        date_wf(t.0@),
    ensures
        final(out)@ == old(out)@ + discount_line(disc_view(*t)),
{
    let ghost start = out@;
    push_line_head(out, t.0);
    push_discount_tail(out, t);
    assert(out@ =~= start + discount_line(disc_view(*t)));
}

/// /indirim: the upcoming events shown as discounted, the largest discount first.
#[verifier::spinoff_prover]
#[verifier::rlimit(40)]
pub fn discounts(state: &State, today: i64) -> (r: String)
    requires
        state_dates_wf(*state),
    ensures
        r@ == discounts_spec(tracked_events(state.events@), today as int),
{
    let ghost all = tracked_events(state.events@);
    let es = state.events.entries();
    let mut found: Vec<(&Event, i64, i64)> = Vec::new();
    let mut i: usize = 0;
    while i < es.len()
        invariant
            0 <= i <= es@.len(),
            es@.len() == all.len(),
            all == tracked_events(state.events@),
            forall|j: int| 0 <= j < es@.len() ==> (#[trigger] es@[j]).1 == state.events@[j].1,
            found@.map_values(|t: (&Event, i64, i64)| disc_view(t)) == discounted(all.take(i as int), today as int),
        decreases es.len() - i,
    {
        assert(all.take(i + 1).drop_last() =~= all.take(i as int));
        assert(all.take(i + 1).last() == es@[i as int].1.event@);
        let e: &Event = &es[i].1.event;
        let up = match &e.date {
            Some(d) => local_day_of(d) >= today,
            None => true,
        };
        if up {
            match e.discount() {
                Some((o, n)) => {
                    let ghost before = found@;
                    found.push((e, o, n));
                    assert(found@.map_values(|t: (&Event, i64, i64)| disc_view(t)) =~= before.map_values(
                        |t: (&Event, i64, i64)| disc_view(t),
                    ).push((e@, o, n)));
                },
                None => {},
            }
        }
        i = i + 1;
    }
    assert(all.take(i as int) =~= all);
    let mut out: Vec<char> = Vec::new();
    if found.len() == 0 {
        push_str(&mut out, "\u{15e}u an indirimli etkinlik yok.");
        let r = string_of(&out);
        proof {
            crate::text::lemma_stable_sorted_len(discounted(all, today as int), |a: (EventView, i64, i64), b: (EventView, i64, i64)| rank_after(a, b));
        }
        assert(r@ =~= discounts_spec(all, today as int));
        return r;
    }
    let ghost g = |a: (&Event, i64, i64), b: (&Event, i64, i64)| rank_after(disc_view(a), disc_view(b));
    let ghost gv = |a: (EventView, i64, i64), b: (EventView, i64, i64)| rank_after(a, b);
    let ghost unsorted = found@;
    let sorted = stable_sort(found, rank_gt, Ghost(g));
    proof {
        lemma_stable_sorted_map(unsorted, |t: (&Event, i64, i64)| disc_view(t), g, gv);
        crate::text::lemma_stable_sorted_len(unsorted, g);
    }
    let ghost ds = sorted@.map_values(|t: (&Event, i64, i64)| disc_view(t));
    push_str(&mut out, "\u{1f525} <b>\u{130}ndirimdekiler</b> (");
    push_u64(&mut out, sorted.len() as u64);
    push_str(&mut out, ")\n\n");
    let ghost mid = out@;
    let ghost lines = ds.map_values(|t: (EventView, i64, i64)| discount_line(t));
    proof {
        lemma_discounted_dates(all, today as int);
        lemma_sorted_members_all(discounted(all, today as int), gv);
    }
    let mut q: usize = 0;
    while q < sorted.len()
        invariant
            0 <= q <= sorted@.len(),
            ds == sorted@.map_values(|t: (&Event, i64, i64)| disc_view(t)),
            ds == stable_sorted(discounted(all, today as int), gv),
            lines == ds.map_values(|t: (EventView, i64, i64)| discount_line(t)),
            out@ == mid + concat(lines.take(q as int)),
            forall|j: int| 0 <= j < discounted(all, today as int).len() ==> date_wf((#[trigger] discounted(all, today as int)[j]).0),
            forall|j: int| 0 <= j < stable_sorted(discounted(all, today as int), gv).len() ==> discounted(all, today as int).contains(#[trigger] stable_sorted(discounted(all, today as int), gv)[j]),
        decreases sorted.len() - q,
    {
        assert(lines.take(q + 1).drop_last() =~= lines.take(q as int));
        assert(ds[q as int] == disc_view(sorted@[q as int]));
        proof {
            let x = ds[q as int];
            assert(discounted(all, today as int).contains(x));
            let j = choose|j: int| 0 <= j < discounted(all, today as int).len() && discounted(all, today as int)[j] == x;
            assert(date_wf(discounted(all, today as int)[j].0));
        }
        push_discount_line(&mut out, &sorted[q]);
        q = q + 1;
    }
    assert(lines.take(q as int) =~= lines);
    let r = string_of(&out);
    assert(r@ =~= discounts_spec(all, today as int));
    r
}

pub proof fn lemma_discounted_dates(all: Seq<EventView>, today: int)
    requires
        dates_wf(all),
    ensures
        forall|j: int| 0 <= j < discounted(all, today).len() ==> date_wf((#[trigger] discounted(all, today)[j]).0),
    decreases all.len(),
{
    if all.len() > 0 {
        assert forall|j: int| 0 <= j < all.drop_last().len() implies date_wf(#[trigger] all.drop_last()[j]) by {
            assert(all.drop_last()[j] == all[j]);
        }
        lemma_discounted_dates(all.drop_last(), today);
        assert(date_wf(all[all.len() - 1]));
        let d0 = discounted(all.drop_last(), today);
        let d = discounted(all, today);
        assert forall|j: int| 0 <= j < d.len() implies date_wf((#[trigger] d[j]).0) by {
            if j < d0.len() {
                assert(d[j] == d0[j]);
            } else {
                assert(d[j].0 == all.last());
            }
        }
    }
}

// ---------------------------------------------------------------------------------------------
// /durum and source health
// ---------------------------------------------------------------------------------------------

/// The source's health record (the first one for it), or an empty record.
pub open spec fn health_lookup(hs: Seq<(SourceId, Health)>, src: SourceId) -> Health
    decreases hs.len(),
{
    if hs.len() == 0 {
        Health::empty()
    } else if hs[0].0 == src {
        hs[0].1
    } else {
        health_lookup(hs.drop_first(), src)
    }
}

/// The number of tracked events from the source.
pub open spec fn count_source(es: Seq<EventView>, src: SourceId) -> nat
    decreases es.len(),
{
    if es.len() == 0 {
        0
    } else {
        count_source(es.drop_last(), src) + if es.last().source == src { 1nat } else { 0nat }
    }
}

/// A percentage given in hundredths, written as a float is (`Display` of `f64`): "5", "2.5",
/// "0.05", "-1.25".
pub open spec fn percent_display(bp: int) -> Seq<char> {
    let a = if bp < 0 { -bp } else { bp };
    let w = a / 100;
    let f = a % 100;
    (if bp < 0 { "-"@ } else { Seq::<char>::empty() }) + nat_str(w as nat) + (if f == 0 {
        Seq::<char>::empty()
    } else if f % 10 == 0 {
        "."@ + nat_str((f / 10) as nat)
    } else {
        "."@ + nat_str((f / 10) as nat) + nat_str((f % 10) as nat)
    })
}

pub(crate) fn push_percent_display(out: &mut Vec<char>, bp: i64)
    ensures
        final(out)@ == old(out)@ + percent_display(bp as int),
{
    let ghost start = out@;
    let a: i128 = if bp < 0 { -(bp as i128) } else { bp as i128 };
    let w: i128 = a / 100;
    let f: i128 = a % 100;
    if bp < 0 {
        push_str(out, "-");
    }
    push_u128(out, w as u128);
    if f == 0 {
    } else if f % 10 == 0 {
        push_str(out, ".");
        push_u128(out, (f / 10) as u128);
    } else {
        push_str(out, ".");
        push_u128(out, (f / 10) as u128);
        push_u128(out, (f % 10) as u128);
    }
    assert(out@ =~= start + percent_display(bp as int));
}

pub open spec fn status_line(src: SourceId, h: Health, n: nat) -> Seq<char> {
    (if h.consecutive_failures == 0 { "\u{2705}"@ } else { "\u{26a0}\u{fe0f}"@ }) + " "@ + source_name(src)
        + ": son taramada "@ + nat_str(h.last_count as nat) + " etkinlik, takipte "@ + nat_str(n) + (if h.consecutive_failures > 0 {
        " \u{2014} "@ + nat_str(h.consecutive_failures as nat) + " kez \u{fc}st \u{fc}ste hata"@
    } else {
        Seq::<char>::empty()
    }) + "\n"@
}

/// /durum: per source its last scan's event count, the tracked count and failures; then the
/// notification threshold.
pub open spec fn status_spec(
    hs: Seq<(SourceId, Health)>,
    all: Seq<EventView>,
    sources: Seq<SourceId>,
    percent_bp: i64,
    min_drop_kurus: i64,
) -> Seq<char> {
    "\u{1f4ca} <b>Durum</b>\n\n"@ + concat(
        sources.map_values(|src: SourceId| status_line(src, health_lookup(hs, src), count_source(all, src))),
    ) + "\n\u{1f514} Bildirim e\u{15f}i\u{11f}i: %"@ + percent_display(percent_bp as int) + " ya da "@ + fmt_tl_spec(
        min_drop_kurus as int,
    ) + " d\u{fc}\u{15f}\u{fc}\u{15f}"@
}

/// /durum has one line per source, in the sources' order, between its title and the
/// threshold: a source without failures (or without a record) is marked ✅; one with
/// failures ⚠️, and its line ends with how many scans in a row failed.
pub proof fn durum_has_a_line_per_source(
    hs: Seq<(SourceId, Health)>,
    all: Seq<EventView>,
    sources: Seq<SourceId>,
    percent_bp: i64,
    min_drop_kurus: i64,
)
    ensures
        ({
            let ls = sources.map_values(|src: SourceId| status_line(src, health_lookup(hs, src), count_source(all, src)));
            &&& ls.len() == sources.len()
            &&& status_spec(hs, all, sources, percent_bp, min_drop_kurus) == "\u{1f4ca} <b>Durum</b>\n\n"@ + concat(ls)
                + "\n\u{1f514} Bildirim e\u{15f}i\u{11f}i: %"@ + percent_display(percent_bp as int) + " ya da "@
                + fmt_tl_spec(min_drop_kurus as int) + " d\u{fc}\u{15f}\u{fc}\u{15f}"@
            &&& forall|i: int| 0 <= i < ls.len() ==> {
                let n = health_lookup(hs, sources[i]).consecutive_failures;
                &&& (n == 0 ==> ("\u{2705}"@ + " "@).is_prefix_of(#[trigger] ls[i]))
                &&& (n > 0 ==> ("\u{26a0}\u{fe0f}"@ + " "@).is_prefix_of(ls[i]) && (" \u{2014} "@ + nat_str(n as nat)
                    + " kez \u{fc}st \u{fc}ste hata"@ + "\n"@).is_suffix_of(ls[i]))
            }
        }),
{
    let ls = sources.map_values(|src: SourceId| status_line(src, health_lookup(hs, src), count_source(all, src)));
    assert forall|i: int| 0 <= i < ls.len() implies {
        let n = health_lookup(hs, sources[i]).consecutive_failures;
        &&& (n == 0 ==> ("\u{2705}"@ + " "@).is_prefix_of(#[trigger] ls[i]))
        &&& (n > 0 ==> ("\u{26a0}\u{fe0f}"@ + " "@).is_prefix_of(ls[i]) && (" \u{2014} "@ + nat_str(n as nat)
            + " kez \u{fc}st \u{fc}ste hata"@ + "\n"@).is_suffix_of(ls[i]))
    } by {
        let src = sources[i];
        let h = health_lookup(hs, src);
        let l = ls[i];
        let mark = if h.consecutive_failures == 0 { "\u{2705}"@ } else { "\u{26a0}\u{fe0f}"@ };
        let mid = " "@ + source_name(src) + ": son taramada "@ + nat_str(h.last_count as nat) + " etkinlik, takipte "@
            + nat_str(count_source(all, src));
        let tail = (if h.consecutive_failures > 0 {
            " \u{2014} "@ + nat_str(h.consecutive_failures as nat) + " kez \u{fc}st \u{fc}ste hata"@
        } else {
            Seq::<char>::empty()
        }) + "\n"@;
        assert(l =~= mark + mid + tail);
        assert(l.subrange(0, (mark + " "@).len() as int) =~= mark + " "@);
        assert(l.subrange(l.len() - tail.len(), l.len() as int) =~= tail);
    }
}

fn health_of(hs: &Vec<(SourceId, Health)>, src: SourceId) -> (r: Health)
    ensures
        r == health_lookup(hs@, src),
{
    let mut i: usize = 0;
    assert(hs@.skip(0) =~= hs@);
    while i < hs.len()
        invariant
            0 <= i <= hs@.len(),
            health_lookup(hs@, src) == health_lookup(hs@.skip(i as int), src),
        decreases hs.len() - i,
    {
        assert(hs@.skip(i as int)[0] == hs@[i as int]);
        if hs[i].0 == src {
            return hs[i].1.clone();
        }
        assert(hs@.skip(i as int).drop_first() =~= hs@.skip(i + 1));
        i = i + 1;
    }
    Health::default()
}

fn count_source_exec(state: &State, src: SourceId) -> (r: u64)
    ensures
        r == count_source(tracked_events(state.events@), src),
{
    let ghost all = tracked_events(state.events@);
    let es = state.events.entries();
    let mut n: u64 = 0;
    let mut i: usize = 0;
    while i < es.len()
        invariant
            0 <= i <= es@.len(),
            es@.len() == all.len(),
            all == tracked_events(state.events@),
            forall|j: int| 0 <= j < es@.len() ==> (#[trigger] es@[j]).1 == state.events@[j].1,
            n == count_source(all.take(i as int), src),
            n <= i,
        decreases es.len() - i,
    {
        assert(all.take(i + 1).drop_last() =~= all.take(i as int));
        assert(all.take(i + 1).last() == es@[i as int].1.event@);
        if es[i].1.event.source == src {
            n = n + 1;
        }
        i = i + 1;
    }
    assert(all.take(i as int) =~= all);
    n
}

fn push_status_line(out: &mut Vec<char>, src: SourceId, h: &Health, n: u64)
    ensures
        final(out)@ == old(out)@ + status_line(src, *h, n as nat),
{
    let ghost start = out@;
    if h.consecutive_failures == 0 {
        push_str(out, "\u{2705}");
    } else {
        push_str(out, "\u{26a0}\u{fe0f}");
    }
    push_str(out, " ");
    push_str(out, src.name());
    push_str(out, ": son taramada ");
    push_u64(out, h.last_count as u64);
    push_str(out, " etkinlik, takipte ");
    push_u64(out, n);
    if h.consecutive_failures > 0 {
        push_str(out, " \u{2014} ");
        push_u64(out, h.consecutive_failures as u64);
        push_str(out, " kez \u{fc}st \u{fc}ste hata");
    }
    push_str(out, "\n");
    assert(out@ =~= start + status_line(src, *h, n as nat));
}

/// /durum: per source the event count of its last scan, how many are tracked and its
/// failures; then the notification threshold.
pub fn status(state: &State, sources: &[SourceId], percent_basis_points: i64, min_drop_kurus: i64) -> (r: String)
    ensures
        r@ == status_spec(
            state.health@,
            tracked_events(state.events@),
            sources@,
            percent_basis_points,
            min_drop_kurus,
        ),
{
    let ghost lines = sources@.map_values(
        |src: SourceId| status_line(src, health_lookup(state.health@, src), count_source(tracked_events(state.events@), src)),
    );
    let mut out: Vec<char> = Vec::new();
    push_str(&mut out, "\u{1f4ca} <b>Durum</b>\n\n");
    let ghost mid = out@;
    let mut i: usize = 0;
    while i < sources.len()
        invariant
            0 <= i <= sources@.len(),
            lines == sources@.map_values(
                |src: SourceId| status_line(src, health_lookup(state.health@, src), count_source(tracked_events(state.events@), src)),
            ),
            out@ == mid + concat(lines.take(i as int)),
        decreases sources.len() - i,
    {
        assert(lines.take(i + 1).drop_last() =~= lines.take(i as int));
        let src = sources[i];
        let h = health_of(&state.health, src);
        let n = count_source_exec(state, src);
        push_status_line(&mut out, src, &h, n);
        i = i + 1;
    }
    assert(lines.take(i as int) =~= lines);
    let ghost before = out@;
    push_str(&mut out, "\n\u{1f514} Bildirim e\u{15f}i\u{11f}i: %");
    push_percent_display(&mut out, percent_basis_points);
    push_str(&mut out, " ya da ");
    push_tl(&mut out, min_drop_kurus);
    push_str(&mut out, " d\u{fc}\u{15f}\u{fc}\u{15f}");
    let r = string_of(&out);
    assert(r@ =~= status_spec(state.health@, tracked_events(state.events@), sources@, percent_basis_points, min_drop_kurus));
    r
}

pub open spec fn source_down_spec(src: SourceId, h: Health) -> Seq<char> {
    "\u{26a0}\u{fe0f} <b>"@ + source_name(src) + "</b> "@ + nat_str(h.consecutive_failures as nat)
        + " \u{e7}al\u{131}\u{15f}t\u{131}rmad\u{131}r veri d\u{f6}nd\u{fc}rm\u{fc}yor.\nSon hata: <code>"@
        + esc_seq(match h.last_error {
        Some(e) => e@,
        None => "-"@,
    }) + "</code>"@
}

/// The alert sent when a source keeps failing.
pub fn source_down(src: SourceId, h: &Health) -> (r: String)
    ensures
        r@ == source_down_spec(src, *h),
{
    let mut out: Vec<char> = Vec::new();
    push_str(&mut out, "\u{26a0}\u{fe0f} <b>");
    push_str(&mut out, src.name());
    push_str(&mut out, "</b> ");
    push_u64(&mut out, h.consecutive_failures as u64);
    push_str(&mut out, " \u{e7}al\u{131}\u{15f}t\u{131}rmad\u{131}r veri d\u{f6}nd\u{fc}rm\u{fc}yor.\nSon hata: <code>");
    match &h.last_error {
        Some(e) => push_esc(&mut out, e.as_str()),
        None => push_esc(&mut out, "-"),
    }
    push_str(&mut out, "</code>");
    let r = string_of(&out);
    assert(r@ =~= source_down_spec(src, *h));
    r
}

pub open spec fn source_up_spec(src: SourceId) -> Seq<char> {
    "\u{2705} <b>"@ + source_name(src) + "</b> tekrar \u{e7}al\u{131}\u{15f}\u{131}yor."@
}

/// The message sent when a failing source works again.
pub fn source_up(src: SourceId) -> (r: String)
    ensures
        r@ == source_up_spec(src),
{
    let mut out: Vec<char> = Vec::new();
    push_str(&mut out, "\u{2705} <b>");
    push_str(&mut out, src.name());
    push_str(&mut out, "</b> tekrar \u{e7}al\u{131}\u{15f}\u{131}yor.");
    let r = string_of(&out);
    assert(r@ =~= source_up_spec(src));
    r
}

pub const HELP: &'static str = "🤖 <b>Bilet Takip</b>\n\nKayseri'deki etkinliklerin bilet fiyatlarını Bubilet, Biletinial ve Biletix'ten takip ediyorum. Bir etkinlik indirime girince, fiyat düşünce ya da tükenen bilet tekrar satışa çıkınca haber veririm.\n\n/indirim — şu an indirimdeki etkinlikler\n/liste — yaklaşan etkinlikler ve en ucuz fiyatlar\n/ara kelime — etkinlik ara (ör. /ara karsu)\n/tara — beklemeden hemen tara\n/durum — kaynakların durumu\n/esik 10 — bildirim eşiğini %10 yap\n\n<i>Siteleri 20 dakikada bir tarıyorum.</i>";

} // verus!
