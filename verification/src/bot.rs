//! The bot's decisions between the outside work: reading the command line, answering the
//! owner's commands, recording each source's scan result, and choosing the messages a scan
//! sends. The program around them fetches, sends, waits and saves.

use vstd::prelude::*;
use crate::config::{Notify, Thresholds};
use crate::diff::{Change, ChangeView, apply, apply_all, step, change_views, event_views};
use crate::messages::{HELP, list, discounts, status, source_down, source_up, change, list_spec,
    discounts_spec, status_spec, source_down_spec, source_up_spec, change_spec, change_event,
    tracked_events, state_dates_wf, date_wf, dates_wf, percent_display, push_percent_display,
    health_lookup, join};
use crate::model::{Event, EventView, SourceId, source_name, fmt_tl_spec, push_tl, parse_u64_chars,
    u64_text};
use crate::store::{Health, State, tracked_views};
use crate::telegram::Update;
use crate::text::{chars_of, string_of, push_str, push_string, push_chars, push_u64, push_i64,
    nat_str, int_str, trim, trim_chars, text_is, chars_eq, before_char, after_char, split_at_char,
    unicode_lowercase, to_lowercase};

verus! {

// ---------------------------------------------------------------------------------------------
// Command line
// ---------------------------------------------------------------------------------------------

/// The first position, from `k` on, holding `name`.
pub open spec fn position_from(args: Seq<Seq<char>>, name: Seq<char>, k: int) -> Option<int>
    decreases args.len() - k,
{
    if k < 0 || k >= args.len() {
        None
    } else if args[k] == name {
        Some(k)
    } else {
        position_from(args, name, k + 1)
    }
}

/// `--loop 20`, `--listen 19`: `None` without the flag; with it, the number that follows,
/// or 20 when no number follows.
pub open spec fn flag_minutes_spec(args: Seq<Seq<char>>, name: Seq<char>) -> Option<u64> {
    match position_from(args, name, 0) {
        None => None,
        Some(i) => Some(
            if i + 1 < args.len() && u64_text(args[i + 1]) is Some {
                u64_text(args[i + 1])->0
            } else {
                20
            },
        ),
    }
}

pub open spec fn arg_views(args: Seq<String>) -> Seq<Seq<char>> {
    args.map_values(|a: String| a@)
}

/// The minutes given after the flag `name` (see `flag_minutes_spec`).
pub fn flag_minutes(args: &[String], name: &str) -> (r: Option<u64>)
    ensures
        r == flag_minutes_spec(arg_views(args@), name@),
{
    let ghost av = arg_views(args@);
    let nv = chars_of(name);
    let mut i: usize = 0;
    while i < args.len()
        invariant
            0 <= i <= args@.len(),
            av == arg_views(args@),
            av.len() == args@.len(),
            nv@ == name@,
            position_from(av, name@, 0) == position_from(av, name@, i as int),
        decreases args.len() - i,
    {
        let a = chars_of(args[i].as_str());
        assert(av[i as int] == args@[i as int]@);
        if chars_eq(&a, &nv) {
            let m = if i + 1 < args.len() {
                assert(av[i + 1] == args@[i + 1]@);
                parse_u64_chars(&chars_of(args[i + 1].as_str()))
            } else {
                None
            };
            return Some(
                match m {
                    Some(v) => v,
                    None => 20,
                },
            );
        }
        i = i + 1;
    }
    None
}

// ---------------------------------------------------------------------------------------------
// The run's schedule
// ---------------------------------------------------------------------------------------------

/// How long one poll waits for commands, in seconds.
pub const POLL_SECS: u64 = 20;

/// The fewest minutes between two scans of the continuous mode.
pub const MIN_LOOP_MINUTES: u64 = 5;

/// The seconds between two scans for `--loop m`: `m` minutes, and no fewer than 5.
pub fn loop_secs(m: u64) -> (r: u64)
    requires
        m <= u64::MAX / 60,
    ensures
        r == (if m < MIN_LOOP_MINUTES { MIN_LOOP_MINUTES } else { m }) * 60,
{
    (if m < MIN_LOOP_MINUTES { MIN_LOOP_MINUTES } else { m }) * 60
}

/// The seconds of `--listen m`.
pub fn listen_secs(m: u64) -> (r: u64)
    requires
        m <= u64::MAX / 60,
    ensures
        r == m * 60,
{
    m * 60
}

/// What a run does next.
#[derive(Debug, PartialEq, Eq, Structural)]
pub enum RunStep {
    /// The run ends.
    Stop,
    /// Wait this many seconds for commands and answer them.
    Poll(u64),
    /// Scan because /tara asked for it.
    Scan,
    /// The continuous mode's scan, which was due; the next one is due a period after it.
    ScheduledScan,
}

/// The next step of a run, after the first scan. `every` is the time between scans of the
/// continuous mode (`--loop`) and `listen` how long the run listens (`--listen`), in seconds;
/// `elapsed` the seconds since the first scan; `due` whether the continuous mode's next scan
/// is due; `polled` what the step before was: `None` at the start of a round (the run's start,
/// or just after a scheduled scan), `Some(tara)` after a poll (or after the scan that the
/// poll asked for: `Some(false)`), with whether /tara was among the commands.
/// Without either flag the run polls once, without waiting, and stops. Otherwise each round:
/// stop once the listening time is over; poll; scan if /tara asked for it; make the
/// continuous mode's scan if it is due; again.
pub open spec fn next_step_spec(
    every: Option<u64>,
    listen: Option<u64>,
    elapsed: u64,
    due: bool,
    polled: Option<bool>,
) -> RunStep {
    if every is None && listen is None {
        if polled is None {
            RunStep::Poll(0)
        } else {
            RunStep::Stop
        }
    } else if polled == Some(true) {
        RunStep::Scan
    } else if polled == Some(false) && every is Some && due {
        RunStep::ScheduledScan
    } else if listen matches Some(l) && elapsed >= l {
        RunStep::Stop
    } else {
        RunStep::Poll(POLL_SECS)
    }
}

/// The next step of a run (see `next_step_spec`).
pub fn next_step(every: Option<u64>, listen: Option<u64>, elapsed: u64, due: bool, polled: Option<bool>) -> (r: RunStep)
    ensures
        r == next_step_spec(every, listen, elapsed, due, polled),
{
    if every.is_none() && listen.is_none() {
        match polled {
            None => RunStep::Poll(0),
            Some(_) => RunStep::Stop,
        }
    } else {
        match polled {
            Some(true) => RunStep::Scan,
            _ => {
                let scheduled = match (polled, every) {
                    (Some(false), Some(_)) => due,
                    _ => false,
                };
                if scheduled {
                    RunStep::ScheduledScan
                } else {
                    match listen {
                        Some(l) => if elapsed >= l {
                            RunStep::Stop
                        } else {
                            RunStep::Poll(POLL_SECS)
                        },
                        None => RunStep::Poll(POLL_SECS),
                    }
                }
            },
        }
    }
}

/// A run without `--loop` and `--listen` answers the waiting commands once, without waiting,
/// and stops; it makes no scan for /tara.
pub proof fn single_run_polls_once(elapsed: u64, due: bool, tara: bool)
    ensures
        next_step_spec(None, None, elapsed, due, None) == RunStep::Poll(0),
        next_step_spec(None, None, elapsed, due, Some(tara)) == RunStep::Stop,
{
}

/// With a flag, /tara is answered with a scan, and a round that starts after the listening
/// time is over stops the run.
pub proof fn tara_scans_and_listening_ends(every: Option<u64>, l: u64, elapsed: u64, due: bool)
    requires
        elapsed >= l,
    ensures
        next_step_spec(every, Some(l), elapsed, due, Some(true)) == RunStep::Scan,
        next_step_spec(every, Some(l), elapsed, due, None) == RunStep::Stop,
{
}

/// The continuous mode without a listening limit never stops: each step polls or scans.
pub proof fn continuous_mode_runs_on(every: u64, elapsed: u64, due: bool, polled: Option<bool>)
    ensures
        next_step_spec(Some(every), None, elapsed, due, polled) != RunStep::Stop,
        polled is None ==> next_step_spec(Some(every), None, elapsed, due, polled) == RunStep::Poll(
            POLL_SECS,
        ),
        polled == Some(false) && due ==> next_step_spec(Some(every), None, elapsed, due, polled)
            == RunStep::ScheduledScan,
{
}

// ---------------------------------------------------------------------------------------------
// Commands
// ---------------------------------------------------------------------------------------------

/// The command of a message: its first word, without a `@botname` suffix, in lower case.
pub open spec fn command_of(text: Seq<char>) -> Seq<char> {
    unicode_lowercase(before_char(before_char(trim(text), ' '), '@'))
}

/// The rest of the message after the command, trimmed; `None` when empty.
pub open spec fn argument_of(text: Seq<char>) -> Option<Seq<char>> {
    match after_char(trim(text), ' ') {
        Some(a) => if trim(a).len() > 0 {
            Some(trim(a))
        } else {
            None
        },
        None => None,
    }
}

/// Splits a message into its command and argument.
pub fn parse_command(text: &str) -> (r: (String, Option<String>))
    ensures
        r.0@ == command_of(text@),
        r.1 matches Some(a) ==> argument_of(text@) == Some(a@),
        r.1 is None <==> argument_of(text@) is None,
{
    let t = trim_chars(&chars_of(text));
    let (first, rest) = split_at_char(&t, ' ');
    let (word, _) = split_at_char(&first, '@');
    let word_s = string_of(&word);
    let cmd = to_lowercase(word_s.as_str());
    let arg = match rest {
        Some(a) => {
            let ta = trim_chars(&a);
            if ta.len() > 0 {
                Some(string_of(&ta))
            } else {
                None
            }
        },
        None => None,
    };
    (cmd, arg)
}

/// The threshold in force, in hundredths of a percent: the one set with /esik, else the
/// configured one.
pub open spec fn threshold_bp(state: State, cfg: Thresholds) -> i64 {
    match state.min_drop_override_basis_points {
        Some(p) => p,
        None => cfg.min_drop_basis_points,
    }
}

/// The thresholds a scan uses: the percentage set with /esik, else the configured one, and the
/// configured amount.
pub fn effective_thresholds(state: &State, cfg: &Thresholds) -> (r: Thresholds)
    ensures
        r.min_drop_basis_points == threshold_bp(*state, *cfg),
        r.min_drop_kurus == cfg.min_drop_kurus,
{
    Thresholds {
        min_drop_basis_points: match state.min_drop_override_basis_points {
            Some(p) => p,
            None => cfg.min_drop_basis_points,
        },
        min_drop_kurus: cfg.min_drop_kurus,
    }
}

fn date_ok(d: &Option<crate::model::EventDate>) -> (r: bool)
    ensures
        r == (d matches Some(x) ==> x.wf()),
{
    match d {
        Some(x) => crate::model::MIN_TIMESTAMP <= x.secs && x.secs <= crate::model::MAX_TIMESTAMP && x.nanos
            < 2_000_000_000 && -86400 < x.offset && x.offset < 86400,
        None => true,
    }
}

/// Whether every date of the events can be written out.
pub fn events_dates_ok(evs: &Vec<Event>) -> (r: bool)
    ensures
        r == dates_wf(event_views(evs@)),
{
    let mut i: usize = 0;
    while i < evs.len()
        invariant
            0 <= i <= evs@.len(),
            forall|j: int| 0 <= j < i ==> date_wf(#[trigger] event_views(evs@)[j]),
        decreases evs.len() - i,
    {
        if !date_ok(&evs[i].date) {
            assert(!date_wf(event_views(evs@)[i as int]));
            return false;
        }
        i = i + 1;
    }
    true
}

/// Whether every stored date can be written out.
pub fn state_dates_ok(state: &State) -> (r: bool)
    ensures
        r == state_dates_wf(*state),
{
    let es = state.events.entries();
    let ghost all = tracked_events(state.events@);
    let mut i: usize = 0;
    while i < es.len()
        invariant
            0 <= i <= es@.len(),
            es@.len() == state.events@.len(),
            all == tracked_events(state.events@),
            forall|j: int| 0 <= j < es@.len() ==> (#[trigger] es@[j]).1 == state.events@[j].1,
            forall|j: int| 0 <= j < i ==> date_wf(#[trigger] all[j]),
        decreases es.len() - i,
    {
        assert(all[i as int] == es@[i as int].1.event@);
        if !date_ok(&es[i].1.event.date) {
            return false;
        }
        i = i + 1;
    }
    true
}

/// /esik accepts a threshold from 0 to 90 percent: `p` is the argument read as a number, in
/// hundredths of a percent, with whether that number lies from 0 to 90.
pub open spec fn threshold_accepted(p: Option<(i64, bool)>) -> bool {
    p matches Some((v, true)) && 0 <= v <= 9000
}

pub open spec fn esik_reply(state: State, cfg: Thresholds, p: Option<(i64, bool)>) -> Seq<char> {
    if threshold_accepted(p) {
        "✅ Bildirim eşiği %"@ + percent_display((p->0).0 as int) + " olarak ayarlandı (ya da "@ + fmt_tl_spec(
            cfg.min_drop_kurus as int,
        ) + " düşüş)."@
    } else {
        "Şu anki eşik: %"@ + percent_display(threshold_bp(state, cfg) as int) + "\nKullanım: /esik 10"@
    }
}

/// The answer to a command. `esik` is the number given to /esik, in hundredths of a percent,
/// with whether it lies from 0 to 90 percent.
pub open spec fn reply_text(
    state: State,
    cmd: Seq<char>,
    arg: Option<Seq<char>>,
    esik: Option<(i64, bool)>,
    sources: Seq<SourceId>,
    cfg: Thresholds,
    today: int,
) -> Seq<char> {
    let all = tracked_events(state.events@);
    if cmd == "/start"@ || cmd == "/yardim"@ || cmd == "/help"@ {
        HELP@
    } else if cmd == "/liste"@ {
        list_spec(all, today, None)
    } else if cmd == "/indirim"@ {
        discounts_spec(all, today)
    } else if cmd == "/ara"@ {
        match arg {
            Some(q) => list_spec(all, today, Some(q)),
            None => "Kullanım: /ara karsu"@,
        }
    } else if cmd == "/durum"@ {
        status_spec(state.health@, all, sources, threshold_bp(state, cfg), cfg.min_drop_kurus)
    } else if cmd == "/tara"@ {
        "🔎 Tarama başlıyor, değişiklik olursa haber vereceğim."@
    } else if cmd == "/esik"@ {
        esik_reply(state, cfg, esik)
    } else {
        "Bilinmeyen komut. /yardim"@
    }
}

pub open spec fn opt_view(a: Option<&str>) -> Option<Seq<char>> {
    match a {
        Some(x) => Some(x@),
        None => None,
    }
}

/// Records the update as read; returns the text of its message when the message comes from
/// the owner's chat (the bot answers no one else).
pub fn accept_update(state: &mut State, u: &Update, owner: &str) -> (r: Option<String>)
    requires
        u.update_id < i64::MAX,
    ensures
        final(state).telegram_offset == u.update_id + 1,
        final(state).events == old(state).events,
        final(state).initialized_sources == old(state).initialized_sources,
        final(state).health == old(state).health,
        final(state).min_drop_override_basis_points == old(state).min_drop_override_basis_points,
        final(state).keepalive == old(state).keepalive,
        r is Some <==> (u.message matches Some(m) && int_str(m.chat.id as int) == owner@),
        r matches Some(t) ==> (u.message matches Some(m) && t@ == match m.text {
            Some(x) => x@,
            None => Seq::<char>::empty(),
        }),
{
    state.telegram_offset = u.update_id + 1;
    match &u.message {
        None => None,
        Some(m) => {
            let mut id: Vec<char> = Vec::new();
            push_i64(&mut id, m.chat.id);
            assert(id@ =~= int_str(m.chat.id as int));
            if !text_is(&id, owner) {
                return None;
            }
            match &m.text {
                Some(x) => Some(x.clone()),
                None => Some(String::new()),
            }
        },
    }
}

/// /tara and /esik are told apart from the other commands.
proof fn lemma_commands_distinct()
    ensures
        "/start"@ != "/tara"@,
        "/start"@ != "/esik"@,
        "/yardim"@ != "/tara"@,
        "/yardim"@ != "/esik"@,
        "/help"@ != "/tara"@,
        "/help"@ != "/esik"@,
        "/liste"@ != "/tara"@,
        "/liste"@ != "/esik"@,
        "/indirim"@ != "/tara"@,
        "/indirim"@ != "/esik"@,
        "/ara"@ != "/tara"@,
        "/ara"@ != "/esik"@,
        "/durum"@ != "/tara"@,
        "/durum"@ != "/esik"@,
        "/tara"@ != "/esik"@,
{
    reveal_strlit("/start");
    reveal_strlit("/yardim");
    reveal_strlit("/help");
    reveal_strlit("/liste");
    reveal_strlit("/indirim");
    reveal_strlit("/ara");
    reveal_strlit("/durum");
    reveal_strlit("/tara");
    reveal_strlit("/esik");
    assert("/tara"@[1] == 't');
    assert("/esik"@[1] == 'e');
    assert("/help"@[1] == 'h');
}

/// Answers a command from the owner: the reply, and whether a scan was asked for. /esik
/// with an accepted value sets the threshold; nothing else changes the state. `esik` is the
/// /esik argument read as a number: in hundredths of a percent, and whether the number read
/// lies from 0 to 90.
pub fn reply_to(
    state: &mut State,
    cmd: &str,
    arg: Option<&str>,
    esik: Option<(i64, bool)>,
    sources: &[SourceId],
    cfg: &Thresholds,
    today: i64,
) -> (r: (String, bool))
    requires
        state_dates_wf(*old(state)),
    ensures
        r.0@ == reply_text(*old(state), cmd@, opt_view(arg), esik, sources@, *cfg, today as int),
        r.1 == (cmd@ == "/tara"@),
        final(state).min_drop_override_basis_points == (if cmd@ == "/esik"@ && threshold_accepted(esik) {
            Some((esik->0).0)
        } else {
            old(state).min_drop_override_basis_points
        }),
        final(state).events == old(state).events,
        final(state).initialized_sources == old(state).initialized_sources,
        final(state).health == old(state).health,
        final(state).telegram_offset == old(state).telegram_offset,
        final(state).keepalive == old(state).keepalive,
{
    proof {
        lemma_commands_distinct();
    }
    let c = chars_of(cmd);
    let percent: i64 = match state.min_drop_override_basis_points {
        Some(p) => p,
        None => cfg.min_drop_basis_points,
    };
    if text_is(&c, "/start") || text_is(&c, "/yardim") || text_is(&c, "/help") {
        (String::from_str(HELP), false)
    } else if text_is(&c, "/liste") {
        (list(state, today, None), false)
    } else if text_is(&c, "/indirim") {
        (discounts(state, today), false)
    } else if text_is(&c, "/ara") {
        match arg {
            Some(q) => (list(state, today, Some(q)), false),
            None => (String::from_str("Kullanım: /ara karsu"), false),
        }
    } else if text_is(&c, "/durum") {
        (status(state, sources, percent, cfg.min_drop_kurus), false)
    } else if text_is(&c, "/tara") {
        (String::from_str("🔎 Tarama başlıyor, değişiklik olursa haber vereceğim."), true)
    } else if text_is(&c, "/esik") {
        let ghost before = *state;
        let mut out: Vec<char> = Vec::new();
        let (p, in_range) = match esik {
            Some(v) => v,
            None => (-1, false),
        };
        if in_range && 0 <= p && p <= 9000 {
            state.min_drop_override_basis_points = Some(p);
            push_str(&mut out, "✅ Bildirim eşiği %");
            push_percent_display(&mut out, p);
            push_str(&mut out, " olarak ayarlandı (ya da ");
            push_tl(&mut out, cfg.min_drop_kurus);
            push_str(&mut out, " düşüş).");
        } else {
            push_str(&mut out, "Şu anki eşik: %");
            push_percent_display(&mut out, percent);
            push_str(&mut out, "\nKullanım: /esik 10");
        }
        let r = string_of(&out);
        assert(r@ =~= esik_reply(before, *cfg, esik));
        (r, false)
    } else {
        (String::from_str("Bilinmeyen komut. /yardim"), false)
    }
}

/// The text of an update's message when it comes from the owner's chat (an empty text for a
/// message without one).
pub open spec fn owner_text(u: Update, owner: Seq<char>) -> Option<Seq<char>> {
    match u.message {
        Some(m) => if int_str(m.chat.id as int) == owner {
            Some(
                match m.text {
                    Some(x) => x@,
                    None => Seq::<char>::empty(),
                },
            )
        } else {
            None
        },
        None => None,
    }
}

/// The updates answered one after the other: the state after them, the replies (one per
/// message from the owner, in order), and whether one of them was /tara. Each update is
/// marked read; each owner's message is answered as its command asks, /esik with its value
/// from `esiks`.
pub open spec fn answers(
    state: State,
    us: Seq<Update>,
    esiks: Seq<Option<(i64, bool)>>,
    owner: Seq<char>,
    sources: Seq<SourceId>,
    cfg: Thresholds,
    today: int,
) -> (State, Seq<Seq<char>>, bool)
    decreases us.len(),
{
    if us.len() == 0 {
        (state, Seq::empty(), false)
    } else {
        let prev = answers(state, us.drop_last(), esiks.drop_last(), owner, sources, cfg, today);
        let u = us.last();
        let read = State { telegram_offset: (u.update_id + 1) as i64, ..prev.0 };
        match owner_text(u, owner) {
            None => (read, prev.1, prev.2),
            Some(t) => {
                let cmd = command_of(t);
                let esik = esiks.last();
                (
                    State {
                        min_drop_override_basis_points: if cmd == "/esik"@ && threshold_accepted(esik) {
                            Some((esik->0).0)
                        } else {
                            read.min_drop_override_basis_points
                        },
                        ..read
                    },
                    prev.1.push(reply_text(read, cmd, argument_of(t), esik, sources, cfg, today)),
                    prev.2 || cmd == "/tara"@,
                )
            },
        }
    }
}

proof fn lemma_answers_keep(
    state: State,
    us: Seq<Update>,
    esiks: Seq<Option<(i64, bool)>>,
    owner: Seq<char>,
    sources: Seq<SourceId>,
    cfg: Thresholds,
    today: int,
)
    requires
        forall|i: int| 0 <= i < us.len() ==> (#[trigger] us[i]).update_id < i64::MAX,
    ensures
        answers(state, us, esiks, owner, sources, cfg, today).0.events == state.events,
        answers(state, us, esiks, owner, sources, cfg, today).0.health == state.health,
        answers(state, us, esiks, owner, sources, cfg, today).0.initialized_sources == state.initialized_sources,
        answers(state, us, esiks, owner, sources, cfg, today).0.keepalive == state.keepalive,
        us.len() == 0 ==> answers(state, us, esiks, owner, sources, cfg, today).0.telegram_offset == state.telegram_offset,
        us.len() > 0 ==> answers(state, us, esiks, owner, sources, cfg, today).0.telegram_offset == us.last().update_id + 1,
    decreases us.len(),
{
    if us.len() > 0 {
        assert forall|i: int| 0 <= i < us.drop_last().len() implies (#[trigger] us.drop_last()[i]).update_id < i64::MAX by {
            assert(us.drop_last()[i] == us[i]);
        }
        assert(us.last() == us[us.len() - 1]);
        lemma_answers_keep(state, us.drop_last(), esiks.drop_last(), owner, sources, cfg, today);
    }
}

/// Answers the updates of a poll, in order (see `answers`): returns the replies to send and
/// whether a scan was asked for. `esiks[i]` is the /esik value read from update `i`'s
/// argument (in hundredths of a percent, and whether it lies from 0 to 90).
pub fn answer_updates(
    state: &mut State,
    updates: &Vec<Update>,
    esiks: &Vec<Option<(i64, bool)>>,
    owner: &str,
    sources: &[SourceId],
    cfg: &Thresholds,
    today: i64,
) -> (r: (Vec<String>, bool))
    requires
        esiks@.len() == updates@.len(),
        forall|i: int| 0 <= i < updates@.len() ==> (#[trigger] updates@[i]).update_id < i64::MAX,
        state_dates_wf(*old(state)),
    ensures
        ({
            let a = answers(*old(state), updates@, esiks@, owner@, sources@, *cfg, today as int);
            &&& *final(state) == a.0
            &&& r.0@.map_values(|s: String| s@) == a.1
            &&& r.1 == a.2
        }),
{
    let ghost s0 = *state;
    let mut replies: Vec<String> = Vec::new();
    let mut tara = false;
    let mut i: usize = 0;
    while i < updates.len()
        invariant
            0 <= i <= updates@.len(),
            esiks@.len() == updates@.len(),
            forall|j: int| 0 <= j < updates@.len() ==> (#[trigger] updates@[j]).update_id < i64::MAX,
            state_dates_wf(s0),
            state.events == s0.events,
            state.health == s0.health,
            ({
                let a = answers(s0, updates@.take(i as int), esiks@.take(i as int), owner@, sources@, *cfg, today as int);
                &&& *state == a.0
                &&& replies@.map_values(|s: String| s@) == a.1
                &&& tara == a.2
            }),
        decreases updates.len() - i,
    {
        let ghost us = updates@.take(i + 1);
        let ghost es = esiks@.take(i + 1);
        assert(us.drop_last() =~= updates@.take(i as int));
        assert(es.drop_last() =~= esiks@.take(i as int));
        assert(us.last() == updates@[i as int]);
        assert(es.last() == esiks@[i as int]);
        let ghost prev = answers(s0, updates@.take(i as int), esiks@.take(i as int), owner@, sources@, *cfg, today as int);
        let u = &updates[i];
        let accepted = accept_update(state, u, owner);
        let ghost read = *state;
        assert(read == State { telegram_offset: (u.update_id + 1) as i64, ..prev.0 });
        match accepted {
            Some(t) => {
                let (cmd, arg) = parse_command(t.as_str());
                let arg_ref: Option<&str> = match &arg {
                    Some(a) => Some(a.as_str()),
                    None => None,
                };
                assert(opt_view(arg_ref) == argument_of(t@));
                assert(state_dates_wf(*state)) by {
                    assert(state.events == s0.events);
                }
                let (reply, scan) = reply_to(state, cmd.as_str(), arg_ref, esiks[i], sources, cfg, today);
                let ghost before = replies@;
                replies.push(reply);
                assert(replies@.map_values(|s: String| s@) =~= before.map_values(|s: String| s@).push(reply@));
                tara = tara || scan;
            },
            None => {},
        }
        i = i + 1;
    }
    assert(updates@.take(i as int) =~= updates@);
    assert(esiks@.take(i as int) =~= esiks@);
    (replies, tara)
}

/// Answering the updates one at a time is answering them together: the state is carried
/// from one to the next, the replies are put one after the other, and a scan is asked for
/// when one of them asked.
pub proof fn answering_one_at_a_time(
    state: State,
    us: Seq<Update>,
    esiks: Seq<Option<(i64, bool)>>,
    u: Update,
    esik: Option<(i64, bool)>,
    owner: Seq<char>,
    sources: Seq<SourceId>,
    cfg: Thresholds,
    today: int,
)
    requires
        us.len() == esiks.len(),
    ensures
        ({
            let a = answers(state, us, esiks, owner, sources, cfg, today);
            let b = answers(a.0, seq![u], seq![esik], owner, sources, cfg, today);
            answers(state, us.push(u), esiks.push(esik), owner, sources, cfg, today) == (b.0, a.1 + b.1, a.2 || b.2)
        }),
{
    let a = answers(state, us, esiks, owner, sources, cfg, today);
    assert(us.push(u).drop_last() =~= us);
    assert(esiks.push(esik).drop_last() =~= esiks);
    assert(seq![u].drop_last() =~= Seq::<Update>::empty());
    assert(seq![esik].drop_last() =~= Seq::<Option<(i64, bool)>>::empty());
    let e0 = answers(a.0, Seq::<Update>::empty(), Seq::<Option<(i64, bool)>>::empty(), owner, sources, cfg, today);
    assert(e0 == (a.0, Seq::<Seq<char>>::empty(), false));
    assert(seq![u].last() == u);
    assert(seq![esik].last() == esik);
    assert(us.push(u).last() == u);
    assert(esiks.push(esik).last() == esik);
    let b = answers(a.0, seq![u], seq![esik], owner, sources, cfg, today);
    let c = answers(state, us.push(u), esiks.push(esik), owner, sources, cfg, today);
    let read = State { telegram_offset: (u.update_id + 1) as i64, ..a.0 };
    match owner_text(u, owner) {
        None => {
            assert(b == (read, Seq::<Seq<char>>::empty(), false));
            assert(c == (read, a.1, a.2));
            assert(a.1 + b.1 =~= a.1);
        },
        Some(t) => {
            let x = reply_text(read, command_of(t), argument_of(t), esik, sources, cfg, today);
            assert(b.1 == Seq::<Seq<char>>::empty().push(x));
            assert(c.1 == a.1.push(x));
            assert(a.1 + b.1 =~= c.1);
        },
    }
}

/// A poll without updates answers nothing, asks for no scan and leaves the state as it was;
/// otherwise every update is marked read, and only the owner's messages are answered, one
/// reply each.
pub proof fn only_the_owner_is_answered(
    state: State,
    us: Seq<Update>,
    esiks: Seq<Option<(i64, bool)>>,
    owner: Seq<char>,
    sources: Seq<SourceId>,
    cfg: Thresholds,
    today: int,
)
    requires
        forall|i: int| 0 <= i < us.len() ==> (#[trigger] us[i]).update_id < i64::MAX,
    ensures
        us.len() == 0 ==> answers(state, us, esiks, owner, sources, cfg, today) == (state, Seq::<Seq<char>>::empty(), false),
        us.len() > 0 ==> answers(state, us, esiks, owner, sources, cfg, today).0.telegram_offset == us.last().update_id + 1,
        answers(state, us, esiks, owner, sources, cfg, today).1.len() == us.filter(|u: Update| owner_text(u, owner) is Some).len(),
        answers(state, us, esiks, owner, sources, cfg, today).0.events == state.events,
    decreases us.len(),
{
    reveal(Seq::filter);
    lemma_answers_keep(state, us, esiks, owner, sources, cfg, today);
    if us.len() > 0 {
        assert forall|i: int| 0 <= i < us.drop_last().len() implies (#[trigger] us.drop_last()[i]).update_id < i64::MAX by {
            assert(us.drop_last()[i] == us[i]);
        }
        only_the_owner_is_answered(state, us.drop_last(), esiks.drop_last(), owner, sources, cfg, today);
        let f = |u: Update| owner_text(u, owner) is Some;
        assert(us.filter(f) == if f(us.last()) {
            us.drop_last().filter(f).push(us.last())
        } else {
            us.drop_last().filter(f)
        });
    }
}

// ---------------------------------------------------------------------------------------------
// Scans
// ---------------------------------------------------------------------------------------------

/// What one scan gathered: the changes, the alerts about sources, and the sources whose first
/// scan this was, with their event counts.
pub struct ScanReport {
    pub changes: Vec<Change>,
    pub alerts: Vec<String>,
    pub started: Vec<(SourceId, usize)>,
}

impl ScanReport {
    pub fn new() -> (r: Self)
        ensures
            r.changes@.len() == 0,
            r.alerts@.len() == 0,
            r.started@.len() == 0,
    {
        ScanReport { changes: Vec::new(), alerts: Vec::new(), started: Vec::new() }
    }
}

/// Every change's event has a date that can be written out.
pub open spec fn changes_dates_wf(cs: Seq<ChangeView>) -> bool {
    forall|i: int| 0 <= i < cs.len() ==> date_wf(change_event(#[trigger] cs[i]))
}

pub open spec fn string_views(v: Seq<String>) -> Seq<Seq<char>> {
    v.map_values(|s: String| s@)
}

/// The error recorded when a source answers with no events at all.
pub const NO_EVENTS: &'static str = "hiç etkinlik dönmedi (site yapısı değişmiş olabilir)";

pub open spec fn fetched_view(f: Result<Vec<Event>, String>) -> Result<Seq<EventView>, Seq<char>> {
    match f {
        Ok(v) => Ok(event_views(v@)),
        Err(e) => Err(e@),
    }
}

/// Why a source's scan counts as failed: its error, or that it gave no events.
pub open spec fn fetch_failure(f: Result<Seq<EventView>, Seq<char>>) -> Option<Seq<char>> {
    match f {
        Ok(evs) => if evs.len() > 0 {
            None
        } else {
            Some(NO_EVENTS@)
        },
        Err(e) => Some(e),
    }
}

/// At most the first `n` characters.
pub open spec fn first_chars(s: Seq<char>, n: int) -> Seq<char> {
    if s.len() <= n {
        s
    } else {
        s.take(n)
    }
}

/// The health records with the source's record (its first one, or a new one at the end)
/// replaced by `h`.
pub open spec fn health_with(hs: Seq<(SourceId, Health)>, src: SourceId, h: Health) -> Seq<(SourceId, Health)>
    decreases hs.len(),
{
    if hs.len() == 0 {
        seq![(src, h)]
    } else if hs[0].0 == src {
        hs.update(0, (src, h))
    } else {
        seq![hs[0]] + health_with(hs.drop_first(), src, h)
    }
}

/// The record after a failed scan: one more failure, the error kept (its first 300
/// characters), and marked as alerted from the third failure in a row on.
pub open spec fn failed_health(old: Health, new: Health, msg: Seq<char>) -> bool {
    &&& new.consecutive_failures == old.consecutive_failures + 1
    &&& new.last_count == old.last_count
    &&& new.alerted == (old.alerted || old.consecutive_failures + 1 >= 3)
    &&& new.last_error matches Some(e) && e@ == first_chars(msg, 300)
}

/// A failure is reported when it marks the source alerted for the first time.
pub open spec fn down_alert_due(old: Health, new: Health) -> bool {
    new.alerted && !old.alerted
}

/// A source that keeps failing is reported down once: from a working source (no failures,
/// not alerted), the first two failures in a row stay quiet, the third is reported, and a
/// fourth is not reported again.
pub proof fn down_alert_at_third_failure(
    h0: Health,
    h1: Health,
    h2: Health,
    h3: Health,
    h4: Health,
    m1: Seq<char>,
    m2: Seq<char>,
    m3: Seq<char>,
    m4: Seq<char>,
)
    requires
        h0.consecutive_failures == 0,
        !h0.alerted,
        failed_health(h0, h1, m1),
        failed_health(h1, h2, m2),
        failed_health(h2, h3, m3),
        failed_health(h3, h4, m4),
    ensures
        !down_alert_due(h0, h1),
        !down_alert_due(h1, h2),
        down_alert_due(h2, h3),
        !down_alert_due(h3, h4),
{
}

proof fn lemma_health_first(hs: Seq<(SourceId, Health)>, src: SourceId, i: int, h: Health)
    requires
        0 <= i < hs.len(),
        hs[i].0 == src,
        forall|j: int| 0 <= j < i ==> hs[j].0 != src,
    ensures
        health_lookup(hs, src) == hs[i].1,
        health_with(hs, src, h) == hs.update(i, (src, h)),
    decreases i,
{
    if i > 0 {
        let t = hs.drop_first();
        assert forall|j: int| 0 <= j < i - 1 implies t[j].0 != src by {
            assert(t[j] == hs[j + 1]);
        }
        lemma_health_first(t, src, i - 1, h);
        assert(seq![hs[0]] + t.update(i - 1, (src, h)) =~= hs.update(i, (src, h)));
    }
}

proof fn lemma_health_absent(hs: Seq<(SourceId, Health)>, src: SourceId, h: Health)
    requires
        forall|j: int| 0 <= j < hs.len() ==> hs[j].0 != src,
    ensures
        health_lookup(hs, src) == Health::empty(),
        health_with(hs, src, h) == hs.push((src, h)),
    decreases hs.len(),
{
    if hs.len() > 0 {
        let t = hs.drop_first();
        assert forall|j: int| 0 <= j < t.len() implies t[j].0 != src by {
            assert(t[j] == hs[j + 1]);
        }
        lemma_health_absent(t, src, h);
        assert(seq![hs[0]] + t.push((src, h)) =~= hs.push((src, h)));
    }
}

proof fn lemma_health_with(hs: Seq<(SourceId, Health)>, src: SourceId, h: Health)
    ensures
        health_lookup(health_with(hs, src, h), src) == h,
        forall|x: SourceId| x != src ==> health_lookup(#[trigger] health_with(hs, src, h), x) == health_lookup(hs, x),
    decreases hs.len(),
{
    let w = health_with(hs, src, h);
    if hs.len() > 0 && hs[0].0 != src {
        lemma_health_with(hs.drop_first(), src, h);
        assert(w.drop_first() =~= health_with(hs.drop_first(), src, h));
        assert forall|x: SourceId| x != src implies health_lookup(#[trigger] health_with(hs, src, h), x)
            == health_lookup(hs, x) by {
            assert(w[0] == hs[0]);
            assert(health_lookup(health_with(hs.drop_first(), src, h), x) == health_lookup(hs.drop_first(), x));
        }
    } else if hs.len() > 0 {
        assert(w.drop_first() =~= hs.drop_first());
        assert forall|x: SourceId| x != src implies health_lookup(#[trigger] health_with(hs, src, h), x)
            == health_lookup(hs, x) by {
            assert(w[0].0 == src);
        }
    } else {
        assert(w.drop_first() =~= Seq::<(SourceId, Health)>::empty());
        assert forall|x: SourceId| x != src implies health_lookup(#[trigger] health_with(hs, src, h), x)
            == health_lookup(hs, x) by {
            assert(w[0].0 == src);
            assert(health_lookup(w.drop_first(), x) == Health::empty());
        }
    }
}

/// The position of the source's first health record.
fn health_slot(hs: &Vec<(SourceId, Health)>, src: SourceId) -> (r: Option<usize>)
    ensures
        r matches Some(i) ==> i < hs@.len() && hs@[i as int].0 == src && forall|j: int| 0 <= j < i ==> hs@[j].0 != src,
        r is None ==> forall|j: int| 0 <= j < hs@.len() ==> hs@[j].0 != src,
{
    let mut i: usize = 0;
    while i < hs.len()
        invariant
            0 <= i <= hs@.len(),
            forall|j: int| 0 <= j < i ==> hs@[j].0 != src,
        decreases hs.len() - i,
    {
        if hs[i].0 == src {
            return Some(i);
        }
        i = i + 1;
    }
    None
}

/// Stores `h` as the source's health record.
fn store_health(hs: &mut Vec<(SourceId, Health)>, src: SourceId, slot: Option<usize>, h: Health)
    requires
        slot matches Some(i) ==> i < old(hs)@.len() && old(hs)@[i as int].0 == src && forall|j: int| 0 <= j < i ==> old(hs)@[j].0 != src,
        slot is None ==> forall|j: int| 0 <= j < old(hs)@.len() ==> old(hs)@[j].0 != src,
    ensures
        final(hs)@ == health_with(old(hs)@, src, h),
{
    proof {
        match slot {
            Some(i) => lemma_health_first(hs@, src, i as int, h),
            None => lemma_health_absent(hs@, src, h),
        }
    }
    match slot {
        Some(i) => hs.set(i, (src, h)),
        None => hs.push((src, h)),
    }
}

/// The record after one more failure with the error `msg`.
fn failed(h: &Health, msg: &str) -> (r: Health)
    requires
        h.consecutive_failures < u32::MAX,
    ensures
        failed_health(*h, r, msg@),
{
    let m = chars_of(msg);
    let n: usize = if m.len() <= 300 { m.len() } else { 300 };
    let kept = crate::text::sub_chars(&m, 0, n);
    assert(kept@ =~= first_chars(msg@, 300));
    let f = h.consecutive_failures + 1;
    Health {
        consecutive_failures: f,
        alerted: h.alerted || f >= 3,
        last_count: h.last_count,
        last_error: Some(string_of(&kept)),
    }
}

proof fn lemma_step_dates(m: Map<Seq<char>, crate::store::TrackedEventView>, first: bool, ev: EventView, th: Thresholds, today: i64)
    requires
        date_wf(ev),
    ensures
        changes_dates_wf(step(m, first, ev, th, today).1),
{
    let c = step(m, first, ev, th, today).1;
    assert forall|i: int| 0 <= i < c.len() implies date_wf(change_event(#[trigger] c[i])) by {
        assert(change_event(c[i]) == ev);
    }
}

proof fn lemma_apply_dates(m: Map<Seq<char>, crate::store::TrackedEventView>, first: bool, evs: Seq<EventView>, th: Thresholds, today: i64)
    requires
        dates_wf(evs),
    ensures
        changes_dates_wf(apply_all(m, first, evs, th, today).1),
    decreases evs.len(),
{
    if evs.len() > 0 {
        assert forall|i: int| 0 <= i < evs.drop_last().len() implies date_wf(#[trigger] evs.drop_last()[i]) by {
            assert(evs.drop_last()[i] == evs[i]);
        }
        lemma_apply_dates(m, first, evs.drop_last(), th, today);
        let prev = apply_all(m, first, evs.drop_last(), th, today);
        assert(date_wf(evs[evs.len() - 1]));
        lemma_step_dates(prev.0, first, evs.last(), th, today);
        let s = step(prev.0, first, evs.last(), th, today);
        let all = prev.1 + s.1;
        assert forall|i: int| 0 <= i < all.len() implies date_wf(change_event(#[trigger] all[i])) by {
            if i < prev.1.len() {
                assert(all[i] == prev.1[i]);
            } else {
                assert(all[i] == s.1[i - prev.1.len()]);
            }
        }
    }
}

/// Records one source's scan: on success its events are compared with the state (see
/// `diff::apply`) and its health is reset, with a note when it had been reported down; on
/// failure (an error, or no events at all) the failure is counted and, at the third in a row,
/// reported once.
pub fn record_fetch(
    state: &mut State,
    report: &mut ScanReport,
    src: SourceId,
    fetched: Result<Vec<Event>, String>,
    th: &Thresholds,
    today: i64,
)
    requires
        fetch_failure(fetched_view(fetched)) is Some ==> health_lookup(old(state).health@, src).consecutive_failures
            < u32::MAX,
        fetched matches Ok(v) ==> dates_wf(event_views(v@)),
        changes_dates_wf(change_views(old(report).changes@)),
    ensures
        changes_dates_wf(change_views(final(report).changes@)),
        final(state).health@ == health_with(old(state).health@, src, health_lookup(final(state).health@, src)),
        forall|x: SourceId| x != src ==> #[trigger] health_lookup(final(state).health@, x) == health_lookup(
            old(state).health@,
            x,
        ),
        final(state).telegram_offset == old(state).telegram_offset,
        final(state).min_drop_override_basis_points == old(state).min_drop_override_basis_points,
        final(state).keepalive == old(state).keepalive,
        fetch_failure(fetched_view(fetched)) matches Some(msg) ==> {
            &&& failed_health(health_lookup(old(state).health@, src), health_lookup(final(state).health@, src), msg)
            &&& final(state).events == old(state).events
            &&& final(state).initialized_sources == old(state).initialized_sources
            &&& final(report).changes == old(report).changes
            &&& final(report).started == old(report).started
            &&& string_views(final(report).alerts@) == string_views(old(report).alerts@) + if down_alert_due(
                health_lookup(old(state).health@, src),
                health_lookup(final(state).health@, src),
            ) {
                seq![source_down_spec(src, health_lookup(final(state).health@, src))]
            } else {
                Seq::<Seq<char>>::empty()
            }
        },
        fetch_failure(fetched_view(fetched)) is None ==> (fetched matches Ok(v) && {
            let first = !old(state).initialized_sources@.contains(src);
            let out = apply_all(tracked_views(old(state).events.to_map()), first, event_views(v@), *th, today);
            &&& health_lookup(final(state).health@, src) == (Health {
                consecutive_failures: 0,
                alerted: false,
                last_count: v@.len() as usize,
                last_error: None,
            })
            &&& tracked_views(final(state).events.to_map()) == out.0
            &&& change_views(final(report).changes@) == change_views(old(report).changes@) + out.1
            &&& forall|x: SourceId| #[trigger] final(state).initialized_sources@.contains(x) <==> (old(
                state,
            ).initialized_sources@.contains(x) || x == src)
            &&& old(state).initialized_sources@.no_duplicates() ==> final(state).initialized_sources@.no_duplicates()
            &&& string_views(final(report).alerts@) == string_views(old(report).alerts@) + if health_lookup(
                old(state).health@,
                src,
            ).alerted {
                seq![source_up_spec(src)]
            } else {
                Seq::<Seq<char>>::empty()
            }
            &&& final(report).started@ == old(report).started@ + if first {
                seq![(src, v@.len() as usize)]
            } else {
                Seq::<(SourceId, usize)>::empty()
            }
        }),
{
    let ghost hs0 = state.health@;
    let slot = health_slot(&state.health, src);
    let h: Health = match slot {
        Some(i) => state.health[i].1.clone(),
        None => Health::default(),
    };
    proof {
        match slot {
            Some(i) => lemma_health_first(hs0, src, i as int, h),
            None => lemma_health_absent(hs0, src, h),
        }
    }
    assert(h == health_lookup(hs0, src));
    let ghost alerts0 = string_views(report.alerts@);
    let msg: String = match fetched {
        Ok(evs) => {
            if evs.len() > 0 {
                if h.alerted {
                    let up = source_up(src);
                    report.alerts.push(up);
                    assert(string_views(report.alerts@) =~= alerts0.push(source_up_spec(src)));
                } else {
                    assert(string_views(report.alerts@) =~= alerts0);
                }
                let n = evs.len();
                let first = !state.is_initialized(src);
                let fresh = Health { consecutive_failures: 0, alerted: false, last_count: n, last_error: None };
                store_health(&mut state.health, src, slot, fresh);
                proof {
                    lemma_health_with(hs0, src, fresh);
                }
                let ghost evv = event_views(evs@);
                let ghost m0 = tracked_views(state.events.to_map());
                let ghost c0 = change_views(report.changes@);
                let mut cs = apply(state, src, evs, th, today);
                proof {
                    lemma_apply_dates(m0, first, evv, *th, today);
                }
                let ghost cv = change_views(cs@);
                report.changes.append(&mut cs);
                assert(change_views(report.changes@) =~= c0 + cv);
                if first {
                    report.started.push((src, n));
                }
                return;
            }
            String::from_str(NO_EVENTS)
        },
        Err(e) => e,
    };
    let nh = failed(&h, msg.as_str());
    if nh.alerted && !h.alerted {
        let down = source_down(src, &nh);
        report.alerts.push(down);
        assert(string_views(report.alerts@) =~= alerts0.push(source_down_spec(src, nh)));
    } else {
        assert(string_views(report.alerts@) =~= alerts0);
    }
    store_health(&mut state.health, src, slot, nh);
    proof {
        lemma_health_with(hs0, src, nh);
    }
}

/// Touches the state about once a week, so that a repository holding it stays active: the
/// mark is set when there is none or it is more than seven days (604 800 s) old.
pub fn refresh_keepalive(state: &mut State, now: i64)
    ensures
        final(state).keepalive == (if old(state).keepalive matches Some(k) && now - k <= 604800 {
            old(state).keepalive
        } else {
            Some(now)
        }),
        final(state).events == old(state).events,
        final(state).initialized_sources == old(state).initialized_sources,
        final(state).health == old(state).health,
        final(state).telegram_offset == old(state).telegram_offset,
        final(state).min_drop_override_basis_points == old(state).min_drop_override_basis_points,
{
    let stale = match state.keepalive {
        Some(k) => (now as i128) - (k as i128) > 604800,
        None => true,
    };
    if stale {
        state.keepalive = Some(now);
    }
}

// ---------------------------------------------------------------------------------------------
// What a scan sends
// ---------------------------------------------------------------------------------------------

/// The kinds of change the settings ask to be told about.
pub open spec fn wanted(c: ChangeView, n: Notify) -> bool {
    match c {
        ChangeView::PriceDrop(..) => n.price_drop,
        ChangeView::Discount(_) => n.discount,
        ChangeView::New(_) => n.new_event,
        ChangeView::BackInStock(_) => n.back_in_stock,
    }
}

/// The changes of the wanted kinds, in order.
pub open spec fn notified_spec(cs: Seq<ChangeView>, n: Notify) -> Seq<ChangeView>
    decreases cs.len(),
{
    if cs.len() == 0 {
        cs
    } else if wanted(cs.last(), n) {
        notified_spec(cs.drop_last(), n).push(cs.last())
    } else {
        notified_spec(cs.drop_last(), n)
    }
}

pub open spec fn ref_views(cs: Seq<&Change>) -> Seq<ChangeView> {
    cs.map_values(|c: &Change| c@)
}

/// The changes to report under the notification settings.
pub fn notified<'a>(changes: &'a Vec<Change>, n: &Notify) -> (r: Vec<&'a Change>)
    requires
        changes_dates_wf(change_views(changes@)),
    ensures
        ref_views(r@) == notified_spec(change_views(changes@), *n),
        changes_dates_wf(ref_views(r@)),
{
    let ghost all = change_views(changes@);
    let mut r: Vec<&'a Change> = Vec::new();
    let mut i: usize = 0;
    while i < changes.len()
        invariant
            0 <= i <= changes@.len(),
            all == change_views(changes@),
            changes_dates_wf(all),
            ref_views(r@) == notified_spec(all.take(i as int), *n),
            changes_dates_wf(ref_views(r@)),
        decreases changes.len() - i,
    {
        assert(all.take(i + 1).drop_last() =~= all.take(i as int));
        assert(all.take(i + 1).last() == changes@[i as int]@);
        let c: &Change = &changes[i];
        let want = match c {
            Change::PriceDrop(..) => n.price_drop,
            Change::Discount(_) => n.discount,
            Change::New(_) => n.new_event,
            Change::BackInStock(_) => n.back_in_stock,
        };
        if want {
            let ghost before = ref_views(r@);
            r.push(c);
            assert(ref_views(r@) =~= before.push(c@));
            assert(date_wf(change_event(all[i as int])));
        }
        i = i + 1;
    }
    assert(all.take(i as int) =~= all);
    r
}

/// "Bubilet: 42 etkinlik"
pub open spec fn started_line(p: (SourceId, usize)) -> Seq<char> {
    source_name(p.0) + ": "@ + nat_str(p.1 as nat) + " etkinlik"@
}

/// The message sent when tracking of some sources begins.
pub open spec fn started_text(city: Seq<char>, started: Seq<(SourceId, usize)>) -> Seq<char> {
    "✅ <b>Takip başladı</b> ("@ + city + ")\n"@ + join(
        started.map_values(|p: (SourceId, usize)| started_line(p)),
        "\n"@,
    ) + "\n\nBundan sonra indirimleri, fiyat düşüşlerini ve tekrar satışa çıkan biletleri bildireceğim. /yardim"@
}

/// At most this many change messages go out after one scan; the rest are counted.
pub const MAX_CHANGE_MESSAGES: usize = 25;

/// The messages of a scan, in sending order: the start of tracking, the first
/// `MAX_CHANGE_MESSAGES` changes, a count of the others, then the alerts about sources.
pub open spec fn outgoing_spec(
    city: Seq<char>,
    started: Seq<(SourceId, usize)>,
    cs: Seq<ChangeView>,
    alerts: Seq<Seq<char>>,
    all: Seq<EventView>,
) -> Seq<Seq<char>> {
    let shown = if cs.len() <= MAX_CHANGE_MESSAGES { cs.len() as int } else { MAX_CHANGE_MESSAGES as int };
    (if started.len() > 0 {
        seq![started_text(city, started)]
    } else {
        Seq::<Seq<char>>::empty()
    }) + cs.take(shown).map_values(|c: ChangeView| change_spec(c, all)) + (if cs.len() > MAX_CHANGE_MESSAGES {
        seq!["…ve "@ + nat_str((cs.len() - MAX_CHANGE_MESSAGES) as nat) + " değişiklik daha. Hepsi için /liste"@]
    } else {
        Seq::<Seq<char>>::empty()
    }) + alerts
}

fn started_message(city: &str, started: &Vec<(SourceId, usize)>) -> (r: String)
    ensures
        r@ == started_text(city@, started@),
{
    let ghost lines = started@.map_values(|p: (SourceId, usize)| started_line(p));
    let mut out: Vec<char> = Vec::new();
    push_str(&mut out, "✅ <b>Takip başladı</b> (");
    push_str(&mut out, city);
    push_str(&mut out, ")\n");
    let ghost mid = out@;
    let mut i: usize = 0;
    while i < started.len()
        invariant
            0 <= i <= started@.len(),
            lines == started@.map_values(|p: (SourceId, usize)| started_line(p)),
            out@ == mid + join(lines.take(i as int), "\n"@),
        decreases started.len() - i,
    {
        assert(lines.take(i + 1).drop_last() =~= lines.take(i as int));
        assert(lines.take(i + 1).last() == started_line(started@[i as int]));
        let ghost before = out@;
        if i > 0 {
            push_str(&mut out, "\n");
        }
        push_str(&mut out, started[i].0.name());
        push_str(&mut out, ": ");
        push_u64(&mut out, started[i].1 as u64);
        push_str(&mut out, " etkinlik");
        proof {
            if i == 0 {
                assert(lines.take(1) =~= seq![lines[0]]);
            }
        }
        assert(out@ =~= mid + join(lines.take(i + 1), "\n"@));
        i = i + 1;
    }
    assert(lines.take(i as int) =~= lines);
    push_str(&mut out, "\n\nBundan sonra indirimleri, fiyat düşüşlerini ve tekrar satışa çıkan biletleri bildireceğim. /yardim");
    let r = string_of(&out);
    assert(r@ =~= started_text(city@, started@));
    r
}

/// The messages a scan sends (see `outgoing_spec`), given the changes to report.
pub fn outgoing(
    city: &str,
    started: &Vec<(SourceId, usize)>,
    changes: &Vec<&Change>,
    alerts: &Vec<String>,
    state: &State,
) -> (r: Vec<String>)
    requires
        changes_dates_wf(ref_views(changes@)),
    ensures
        string_views(r@) == outgoing_spec(
            city@,
            started@,
            ref_views(changes@),
            string_views(alerts@),
            tracked_events(state.events@),
        ),
{
    let ghost cs = ref_views(changes@);
    let ghost all = tracked_events(state.events@);
    let mut r: Vec<String> = Vec::new();
    if started.len() > 0 {
        r.push(started_message(city, started));
    }
    let ghost head = string_views(r@);
    assert(head =~= (if started@.len() > 0 {
        seq![started_text(city@, started@)]
    } else {
        Seq::<Seq<char>>::empty()
    }));
    let shown: usize = if changes.len() <= MAX_CHANGE_MESSAGES { changes.len() } else { MAX_CHANGE_MESSAGES };
    let ghost msgs = cs.take(shown as int).map_values(|c: ChangeView| change_spec(c, all));
    let mut i: usize = 0;
    while i < shown
        invariant
            0 <= i <= shown,
            shown <= changes@.len(),
            cs == ref_views(changes@),
            changes_dates_wf(cs),
            all == tracked_events(state.events@),
            msgs == cs.take(shown as int).map_values(|c: ChangeView| change_spec(c, all)),
            string_views(r@) == head + msgs.take(i as int),
        decreases shown - i,
    {
        assert(date_wf(change_event(cs[i as int])));
        assert(cs[i as int] == changes@[i as int]@);
        let m = change(changes[i], state);
        let ghost before = string_views(r@);
        r.push(m);
        assert(msgs.take(i + 1) =~= msgs.take(i as int).push(change_spec(cs[i as int], all)));
        assert(string_views(r@) =~= before.push(m@));
        i = i + 1;
    }
    assert(msgs.take(shown as int) =~= msgs);
    if changes.len() > MAX_CHANGE_MESSAGES {
        let mut out: Vec<char> = Vec::new();
        push_str(&mut out, "…ve ");
        push_u64(&mut out, (changes.len() - MAX_CHANGE_MESSAGES) as u64);
        push_str(&mut out, " değişiklik daha. Hepsi için /liste");
        let ghost before = string_views(r@);
        let m = string_of(&out);
        r.push(m);
        assert(string_views(r@) =~= before.push(m@));
    }
    let ghost mid = string_views(r@);
    let mut k: usize = 0;
    while k < alerts.len()
        invariant
            0 <= k <= alerts@.len(),
            string_views(r@) == mid + string_views(alerts@).take(k as int),
        decreases alerts.len() - k,
    {
        let ghost before = string_views(r@);
        r.push(alerts[k].clone());
        assert(string_views(alerts@).take(k + 1) =~= string_views(alerts@).take(k as int).push(alerts@[k as int]@));
        assert(string_views(r@) =~= before.push(alerts@[k as int]@));
        k = k + 1;
    }
    assert(string_views(alerts@).take(k as int) =~= string_views(alerts@));
    assert(string_views(r@) =~= outgoing_spec(city@, started@, cs, string_views(alerts@), all));
    r
}

// ---------------------------------------------------------------------------------------------
// Settings from a `.env` file
// ---------------------------------------------------------------------------------------------

/// `s` without `c` at its start, however many times it is there.
pub open spec fn strip_start_char(s: Seq<char>, c: char) -> Seq<char>
    decreases s.len(),
{
    if s.len() > 0 && s[0] == c {
        strip_start_char(s.drop_first(), c)
    } else {
        s
    }
}

/// `s` without `c` at its end, however many times it is there.
pub open spec fn strip_end_char(s: Seq<char>, c: char) -> Seq<char>
    decreases s.len(),
{
    if s.len() > 0 && s.last() == c {
        strip_end_char(s.drop_last(), c)
    } else {
        s
    }
}

/// A line of a `.env` file as a setting: `KEY=value` split at the first `=`, both sides
/// trimmed and the value without surrounding double quotes. Comments (`#`), lines without `=`
/// and lines without a key give none.
pub open spec fn env_assignment_spec(line: Seq<char>) -> Option<(Seq<char>, Seq<char>)> {
    let l = trim(line);
    if l.len() > 0 && l[0] == '#' {
        None
    } else {
        match crate::text::char_pos(l, '=', 0) {
            None => None,
            Some(i) => {
                let k = trim(l.take(i));
                if k.len() == 0 {
                    None
                } else {
                    Some((k, strip_end_char(strip_start_char(trim(l.skip(i + 1)), '"'), '"')))
                }
            },
        }
    }
}

/// Reads a `.env` line as a setting (see `env_assignment_spec`).
pub fn env_assignment(line: &str) -> (r: Option<(String, String)>)
    ensures
        match r {
            Some((k, v)) => env_assignment_spec(line@) == Some((k@, v@)),
            None => env_assignment_spec(line@) is None,
        },
{
    let l = trim_chars(&chars_of(line));
    if l.len() > 0 && l[0] == '#' {
        return None;
    }
    let (before, after) = split_at_char(&l, '=');
    let rest = match after {
        Some(a) => a,
        None => {
            return None;
        },
    };
    let k = trim_chars(&before);
    if k.len() == 0 {
        return None;
    }
    let v = trim_chars(&rest);
    let mut a: usize = 0;
    assert(v@.skip(0) =~= v@);
    while a < v.len() && v[a] == '"'
        invariant
            0 <= a <= v@.len(),
            strip_start_char(v@, '"') == strip_start_char(v@.skip(a as int), '"'),
        decreases v.len() - a,
    {
        assert(v@.skip(a as int).drop_first() =~= v@.skip(a + 1));
        a = a + 1;
    }
    let mut b: usize = v.len();
    assert(v@.skip(a as int) =~= v@.subrange(a as int, b as int));
    while b > a && v[b - 1] == '"'
        invariant
            a <= b <= v@.len(),
            strip_end_char(strip_start_char(v@, '"'), '"') == strip_end_char(v@.subrange(a as int, b as int), '"'),
        decreases b - a,
    {
        assert(v@.subrange(a as int, b as int).drop_last() =~= v@.subrange(a as int, b - 1));
        b = b - 1;
    }
    let value = crate::text::sub_chars(&v, a, b);
    Some((string_of(&k), string_of(&value)))
}

} // verus!
