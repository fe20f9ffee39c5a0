//! Telegram: the updates received, and cutting long messages at line ends.

use vstd::prelude::*;
use crate::text::{chars_of, string_of, push_chars, push_str};

verus! {

/// One update from `getUpdates`.
#[derive(Debug)]
pub struct Update {
    pub update_id: i64,
    pub message: Option<Message>,
}

#[derive(Debug)]
pub struct Message {
    pub chat: Chat,
    pub text: Option<String>,
}

#[derive(Debug)]
pub struct Chat {
    pub id: i64,
}

/// Telegram accepts 4096 characters per message; some room is left.
pub const MAX_LEN: usize = 3900;

/// The lines read so far (each with its '\n') and the line being read.
pub open spec fn line_state(s: Seq<char>) -> (Seq<Seq<char>>, Seq<char>)
    decreases s.len(),
{
    if s.len() == 0 {
        (seq![], seq![])
    } else {
        let prev = line_state(s.drop_last());
        let cur = prev.1.push(s.last());
        if s.last() == '\n' {
            (prev.0.push(cur), seq![])
        } else {
            (prev.0, cur)
        }
    }
}

/// `str::split_inclusive('\n')`: the lines, each with its line break (the last one may lack it).
pub open spec fn lines_inclusive(s: Seq<char>) -> Seq<Seq<char>> {
    let st = line_state(s);
    if st.1.len() > 0 {
        st.0.push(st.1)
    } else {
        st.0
    }
}

/// The parts made so far and the part being filled.
pub open spec fn pack_state(lines: Seq<Seq<char>>, max: nat) -> (Seq<Seq<char>>, Seq<char>)
    decreases lines.len(),
{
    if lines.len() == 0 {
        (seq![], seq![])
    } else {
        let prev = pack_state(lines.drop_last(), max);
        let l = lines.last();
        if prev.1.len() + l.len() > max && prev.1.len() > 0 {
            (prev.0.push(prev.1), l)
        } else {
            (prev.0, prev.1 + l)
        }
    }
}

/// Whole lines are put together while the part stays within `max` characters; a line that
/// would overflow a non-empty part starts the next part.
pub open spec fn pack(lines: Seq<Seq<char>>, max: nat) -> Seq<Seq<char>> {
    let st = pack_state(lines, max);
    if st.1.len() > 0 {
        st.0.push(st.1)
    } else {
        st.0
    }
}

pub open spec fn split_spec(text: Seq<char>) -> Seq<Seq<char>> {
    pack(lines_inclusive(text), MAX_LEN as nat)
}

/// The pieces one after the other.
pub open spec fn flatten(ps: Seq<Seq<char>>) -> Seq<char>
    decreases ps.len(),
{
    if ps.len() == 0 {
        seq![]
    } else {
        flatten(ps.drop_last()) + ps.last()
    }
}

fn split_lines(s: &Vec<char>) -> (r: Vec<Vec<char>>)
    ensures
        r@.map_values(|l: Vec<char>| l@) == lines_inclusive(s@),
{
    let mut lines: Vec<Vec<char>> = Vec::new();
    let mut cur: Vec<char> = Vec::new();
    let mut i: usize = 0;
    while i < s.len()
        invariant
            0 <= i <= s@.len(),
            lines@.map_values(|l: Vec<char>| l@) == line_state(s@.take(i as int)).0,
            cur@ == line_state(s@.take(i as int)).1,
        decreases s.len() - i,
    {
        assert(s@.take(i + 1).drop_last() =~= s@.take(i as int));
        let c = s[i];
        cur.push(c);
        if c == '\n' {
            let ghost before = lines@;
            let mut l: Vec<char> = Vec::new();
            std::mem::swap(&mut l, &mut cur);
            lines.push(l);
            assert(lines@.map_values(|l: Vec<char>| l@) =~= before.map_values(|l: Vec<char>| l@).push(l@));
            assert(cur@ =~= Seq::<char>::empty());
        }
        i = i + 1;
    }
    assert(s@.take(i as int) =~= s@);
    if cur.len() > 0 {
        let ghost before = lines@;
        lines.push(cur);
        assert(lines@.map_values(|l: Vec<char>| l@) =~= before.map_values(|l: Vec<char>| l@).push(lines@.last()@));
    }
    lines
}

/// Cuts a long HTML message at line ends into parts Telegram accepts.
pub fn split(text: &str) -> (r: Vec<String>)
    ensures
        r@.map_values(|p: String| p@) == split_spec(text@),
{
    let lines = split_lines(&chars_of(text));
    let ghost ls = lines@.map_values(|l: Vec<char>| l@);
    let mut parts: Vec<String> = Vec::new();
    let mut cur: Vec<char> = Vec::new();
    let mut i: usize = 0;
    while i < lines.len()
        invariant
            0 <= i <= lines@.len(),
            ls == lines@.map_values(|l: Vec<char>| l@),
            parts@.map_values(|p: String| p@) == pack_state(ls.take(i as int), MAX_LEN as nat).0,
            cur@ == pack_state(ls.take(i as int), MAX_LEN as nat).1,
        decreases lines.len() - i,
    {
        assert(ls.take(i + 1).drop_last() =~= ls.take(i as int));
        assert(ls.take(i + 1).last() == lines@[i as int]@);
        let l = &lines[i];
        if cur.len() as u128 + l.len() as u128 > MAX_LEN as u128 && cur.len() > 0 {
            let ghost before = parts@;
            parts.push(string_of(&cur));
            assert(parts@.map_values(|p: String| p@) =~= before.map_values(|p: String| p@).push(cur@));
            cur = crate::text::copy_chars(l);
        } else {
            push_chars(&mut cur, l);
        }
        i = i + 1;
    }
    assert(ls.take(i as int) =~= ls);
    if cur.len() > 0 {
        let ghost before = parts@;
        parts.push(string_of(&cur));
        assert(parts@.map_values(|p: String| p@) =~= before.map_values(|p: String| p@).push(cur@));
    }
    parts
}

// ---------------------------------------------------------------------------------------------
// Laws
// ---------------------------------------------------------------------------------------------

pub proof fn lemma_line_state_flatten(s: Seq<char>)
    ensures
        flatten(line_state(s).0) + line_state(s).1 == s,
        forall|j: int| 0 <= j < line_state(s).0.len() ==> (#[trigger] line_state(s).0[j]).len() > 0,
    decreases s.len(),
{
    if s.len() > 0 {
        lemma_line_state_flatten(s.drop_last());
        let prev = line_state(s.drop_last());
        let st = line_state(s);
        if s.last() == '\n' {
            assert(st.0.drop_last() =~= prev.0);
            assert(flatten(st.0) =~= flatten(prev.0) + prev.1.push(s.last()));
            assert(s =~= s.drop_last().push(s.last()));
            assert(flatten(st.0) + st.1 =~= s);
            assert forall|j: int| 0 <= j < st.0.len() implies (#[trigger] st.0[j]).len() > 0 by {
                if j < prev.0.len() {
                    assert(st.0[j] == prev.0[j]);
                }
            }
        } else {
            assert(s =~= s.drop_last().push(s.last()));
            assert(flatten(st.0) + st.1 =~= s);
        }
    }
}

/// The lines put together give back the text, and no line is empty.
pub proof fn lemma_lines_flatten(s: Seq<char>)
    ensures
        flatten(lines_inclusive(s)) == s,
        forall|j: int| 0 <= j < lines_inclusive(s).len() ==> (#[trigger] lines_inclusive(s)[j]).len() > 0,
{
    lemma_line_state_flatten(s);
    let st = line_state(s);
    if st.1.len() > 0 {
        assert(lines_inclusive(s).drop_last() =~= st.0);
        assert forall|j: int| 0 <= j < lines_inclusive(s).len() implies (#[trigger] lines_inclusive(s)[j]).len() > 0 by {
            if j < st.0.len() {
                assert(lines_inclusive(s)[j] == st.0[j]);
            }
        }
    } else {
        assert(st.1 =~= Seq::<char>::empty());
        assert(flatten(st.0) + st.1 =~= flatten(st.0));
    }
}

pub proof fn lemma_pack_state(lines: Seq<Seq<char>>, max: nat)
    requires
        forall|j: int| 0 <= j < lines.len() ==> (#[trigger] lines[j]).len() > 0,
    ensures
        flatten(pack_state(lines, max).0) + pack_state(lines, max).1 == flatten(lines),
        forall|j: int| 0 <= j < pack_state(lines, max).0.len() ==> (#[trigger] pack_state(lines, max).0[j]).len() > 0,
        (forall|j: int| 0 <= j < lines.len() ==> (#[trigger] lines[j]).len() <= max) ==> {
            &&& pack_state(lines, max).1.len() <= max
            &&& forall|j: int| 0 <= j < pack_state(lines, max).0.len() ==> (#[trigger] pack_state(lines, max).0[j]).len() <= max
        },
    decreases lines.len(),
{
    if lines.len() > 0 {
        let l0 = lines.drop_last();
        assert forall|j: int| 0 <= j < l0.len() implies (#[trigger] l0[j]).len() > 0 by {
            assert(l0[j] == lines[j]);
        }
        lemma_pack_state(l0, max);
        let prev = pack_state(l0, max);
        let st = pack_state(lines, max);
        let l = lines.last();
        assert(lines[lines.len() - 1] == l);
        assert(flatten(lines) == flatten(l0) + l);
        if prev.1.len() + l.len() > max && prev.1.len() > 0 {
            assert(st.0.drop_last() =~= prev.0);
            assert(flatten(st.0) == flatten(prev.0) + prev.1);
            assert(flatten(st.0) + st.1 =~= flatten(prev.0) + prev.1 + l);
            assert forall|j: int| 0 <= j < st.0.len() implies (#[trigger] st.0[j]).len() > 0 by {
                if j < prev.0.len() {
                    assert(st.0[j] == prev.0[j]);
                }
            }
            if forall|j: int| 0 <= j < lines.len() ==> (#[trigger] lines[j]).len() <= max {
                assert forall|j: int| 0 <= j < l0.len() implies (#[trigger] l0[j]).len() <= max by {
                    assert(l0[j] == lines[j]);
                }
                assert forall|j: int| 0 <= j < st.0.len() implies (#[trigger] st.0[j]).len() <= max by {
                    if j < prev.0.len() {
                        assert(st.0[j] == prev.0[j]);
                    }
                }
            }
        } else {
            assert(flatten(st.0) + st.1 =~= flatten(prev.0) + prev.1 + l);
            if forall|j: int| 0 <= j < lines.len() ==> (#[trigger] lines[j]).len() <= max {
                assert forall|j: int| 0 <= j < l0.len() implies (#[trigger] l0[j]).len() <= max by {
                    assert(l0[j] == lines[j]);
                }
            }
        }
    }
}

/// Putting the parts of a split message together gives back the message.
pub proof fn split_keeps_the_text(text: Seq<char>)
    ensures
        flatten(split_spec(text)) == text,
{
    lemma_lines_flatten(text);
    let ls = lines_inclusive(text);
    lemma_pack_state(ls, MAX_LEN as nat);
    let st = pack_state(ls, MAX_LEN as nat);
    if st.1.len() > 0 {
        assert(split_spec(text).drop_last() =~= st.0);
    } else {
        assert(st.1 =~= Seq::<char>::empty());
        assert(flatten(st.0) + st.1 =~= flatten(st.0));
    }
}

/// Part `j + 1` starts with a line of `lines` that would not have fitted after part `j`.
pub open spec fn closed_for_a_line(lines: Seq<Seq<char>>, a: Seq<char>, b: Seq<char>, max: nat) -> bool {
    exists|i: int| 0 <= i < lines.len() && (#[trigger] lines[i]).is_prefix_of(b) && a.len() + lines[i].len() > max
}

proof fn lemma_pack_full(lines: Seq<Seq<char>>, max: nat)
    ensures
        forall|j: int|
            0 <= j < pack_state(lines, max).0.len() - 1 ==> closed_for_a_line(
                lines,
                #[trigger] pack_state(lines, max).0[j],
                pack_state(lines, max).0[j + 1],
                max,
            ),
        pack_state(lines, max).0.len() > 0 ==> closed_for_a_line(
            lines,
            pack_state(lines, max).0.last(),
            pack_state(lines, max).1,
            max,
        ),
    decreases lines.len(),
{
    if lines.len() > 0 {
        let t = lines.drop_last();
        let n = lines.len() - 1;
        lemma_pack_full(t, max);
        let prev = pack_state(t, max);
        let cur = pack_state(lines, max);
        let l = lines.last();
        assert(lines[n] == l);
        assert forall|a: Seq<char>, b: Seq<char>| closed_for_a_line(t, a, b, max) implies closed_for_a_line(lines, a, b, max) by {
            let i = choose|i: int| 0 <= i < t.len() && (#[trigger] t[i]).is_prefix_of(b) && a.len() + t[i].len() > max;
            assert(lines[i] == t[i]);
        }
        if prev.1.len() + l.len() > max && prev.1.len() > 0 {
            assert(cur.0 == prev.0.push(prev.1));
            assert(cur.1 == l);
            assert forall|j: int| 0 <= j < cur.0.len() - 1 implies closed_for_a_line(lines, #[trigger] cur.0[j], cur.0[j + 1], max) by {
                if j < prev.0.len() - 1 {
                    assert(cur.0[j] == prev.0[j] && cur.0[j + 1] == prev.0[j + 1]);
                } else {
                    assert(j == prev.0.len() - 1);
                    assert(cur.0[j] == prev.0.last() && cur.0[j + 1] == prev.1);
                }
            }
            assert(cur.0.last() == prev.1);
            assert(l.is_prefix_of(l));
            assert(closed_for_a_line(lines, cur.0.last(), cur.1, max)) by {
                assert(lines[n].is_prefix_of(cur.1));
            }
        } else {
            assert(cur.0 == prev.0);
            assert(cur.1 == prev.1 + l);
            if prev.0.len() > 0 {
                let i = choose|i: int| 0 <= i < t.len() && (#[trigger] t[i]).is_prefix_of(prev.1) && prev.0.last().len() + t[i].len() > max;
                assert(lines[i] == t[i]);
                assert(cur.1.subrange(0, t[i].len() as int) =~= prev.1.subrange(0, t[i].len() as int));
                assert(lines[i].is_prefix_of(cur.1));
            }
        }
    }
}

/// Split packs whole lines as far as they fit: a part ends only where the line that starts
/// the next part would have made it longer than the limit.
pub proof fn split_parts_are_full(text: Seq<char>)
    ensures
        forall|j: int|
            0 <= j < split_spec(text).len() - 1 ==> closed_for_a_line(
                lines_inclusive(text),
                #[trigger] split_spec(text)[j],
                split_spec(text)[j + 1],
                MAX_LEN as nat,
            ),
{
    let ls = lines_inclusive(text);
    lemma_pack_full(ls, MAX_LEN as nat);
    let st = pack_state(ls, MAX_LEN as nat);
    let ps = split_spec(text);
    assert forall|j: int| 0 <= j < ps.len() - 1 implies closed_for_a_line(ls, #[trigger] ps[j], ps[j + 1], MAX_LEN as nat) by {
        if st.1.len() > 0 {
            assert(ps == st.0.push(st.1));
            if j < st.0.len() - 1 {
                assert(ps[j] == st.0[j] && ps[j + 1] == st.0[j + 1]);
            } else {
                assert(ps[j] == st.0.last() && ps[j + 1] == st.1);
            }
        } else {
            assert(ps == st.0);
        }
    }
}

/// An empty message is split into no parts.
pub proof fn empty_text_gives_no_parts()
    ensures
        split_spec(Seq::<char>::empty()).len() == 0,
{
    assert(pack_state(lines_inclusive(Seq::<char>::empty()), MAX_LEN as nat).1.len() == 0);
}

/// When no line is longer than the limit, no part is, and no part is empty.
pub proof fn split_parts_fit(text: Seq<char>)
    requires
        forall|j: int| 0 <= j < lines_inclusive(text).len() ==> (#[trigger] lines_inclusive(text)[j]).len() <= MAX_LEN,
    ensures
        forall|j: int| 0 <= j < split_spec(text).len() ==> 0 < (#[trigger] split_spec(text)[j]).len() <= MAX_LEN,
{
    lemma_lines_flatten(text);
    let ls = lines_inclusive(text);
    lemma_pack_state(ls, MAX_LEN as nat);
    let st = pack_state(ls, MAX_LEN as nat);
    assert forall|j: int| 0 <= j < split_spec(text).len() implies 0 < (#[trigger] split_spec(text)[j]).len() <= MAX_LEN by {
        if j < st.0.len() {
            assert(split_spec(text)[j] == st.0[j]);
        }
    }
}

/// Telegram's answer to a `sendMessage`.
pub enum SendReply {
    /// `"ok": true`.
    Sent,
    /// Telegram asks to wait this many seconds first (`parameters.retry_after`).
    RetryAfter(u64),
    /// Any other answer, as its JSON text.
    Refused(String),
}

/// What to do after an answer.
pub enum SendStep {
    Done,
    /// Wait this many seconds, then send again.
    Wait(u64),
    /// Give up with this error.
    Fail(String),
}

/// A message is sent at most this many times.
pub const SEND_ATTEMPTS: usize = 3;

/// The error when every attempt was answered with a request to wait.
pub const TOO_MANY_TRIES: &'static str = "Telegram sendMessage: çok fazla deneme";

/// The next step after Telegram's answer: done when sent; when asked to wait, wait a second
/// longer than asked and try again; otherwise fail with the answer.
pub fn after_send(reply: SendReply) -> (r: SendStep)
    requires
        reply matches SendReply::RetryAfter(w) ==> w < u64::MAX,
    ensures
        match reply {
            SendReply::Sent => r is Done,
            SendReply::RetryAfter(w) => r matches SendStep::Wait(s) && s == w + 1,
            SendReply::Refused(t) => r matches SendStep::Fail(m) && m@ == "Telegram sendMessage hatası: "@ + t@,
        },
{
    match reply {
        SendReply::Sent => SendStep::Done,
        SendReply::RetryAfter(w) => SendStep::Wait(w + 1),
        SendReply::Refused(t) => {
            let mut m: Vec<char> = Vec::new();
            push_str(&mut m, "Telegram sendMessage hatası: ");
            push_chars(&mut m, &chars_of(t.as_str()));
            SendStep::Fail(string_of(&m))
        },
    }
}

} // verus!
