//! Matching the same event across sites: same day and a similar name.

use vstd::prelude::*;
use crate::model::{Event, EventView, fold_seq, fold_chars, tr_day, tr_day_of};
use crate::text::{chars_of, string_of, chars_eq, contains_seq, contains_chars, unicode_whitespace,
    is_whitespace};

verus! {

/// `char::is_alphanumeric`: Unicode `Alphabetic` or `Numeric`.
pub uninterp spec fn unicode_alphanumeric(c: char) -> bool;

/// `char::is_alphanumeric`.
#[verifier::external_body]
fn is_alphanumeric(c: char) -> (r: bool)
    ensures
        r == unicode_alphanumeric(c),
{
    c.is_alphanumeric()
}

/// The IEEE 754 bit pattern of `strsim::jaro_winkler(a, b)`.
pub uninterp spec fn jaro_winkler_bits(a: Seq<char>, b: Seq<char>) -> u64;

/// Calls `strsim::jaro_winkler` and returns the bit pattern of the similarity (`f64::to_bits`).
/// Nothing is stated about the value beyond its name.
#[verifier::external_body]
fn jaro_winkler_bits_of(a: &str, b: &str) -> (r: u64)
    ensures
        r == jaro_winkler_bits(a@, b@),
{
    strsim::jaro_winkler(a, b).to_bits()
}

/// The bit pattern of the similarity 0.9. A Jaro-Winkler similarity is a number from 0 to 1,
/// and non-negative doubles are ordered as their bit patterns, so "bits at least this" is
/// "similarity at least 0.9".
pub const SIMILAR_BITS: u64 = 0x3FEC_CCCC_CCCC_CCCD;

pub open spec fn is_stopword(w: Seq<char>) -> bool {
    w == "konseri"@ || w == "konser"@ || w == "concert"@ || w == "tiyatro"@ || w == "oyunu"@
        || w == "live"@ || w == "in"@ || w == "ve"@
}

fn is_stopword_exec(w: &Vec<char>) -> (r: bool)
    ensures
        r == is_stopword(w@),
{
    chars_eq(w, &chars_of("konseri")) || chars_eq(w, &chars_of("konser")) || chars_eq(
        w,
        &chars_of("concert"),
    ) || chars_eq(w, &chars_of("tiyatro")) || chars_eq(w, &chars_of("oyunu")) || chars_eq(
        w,
        &chars_of("live"),
    ) || chars_eq(w, &chars_of("in")) || chars_eq(w, &chars_of("ve"))
}

/// Letters and digits stay, everything else becomes a space.
pub open spec fn keep_alphanumeric(s: Seq<char>) -> Seq<char> {
    s.map_values(|c: char| if unicode_alphanumeric(c) { c } else { ' ' })
}

/// The words found so far and the word being read.
pub open spec fn split_ws_state(s: Seq<char>) -> (Seq<Seq<char>>, Seq<char>)
    decreases s.len(),
{
    if s.len() == 0 {
        (seq![], seq![])
    } else {
        let prev = split_ws_state(s.drop_last());
        let c = s.last();
        if unicode_whitespace(c) {
            if prev.1.len() > 0 {
                (prev.0.push(prev.1), seq![])
            } else {
                prev
            }
        } else {
            (prev.0, prev.1.push(c))
        }
    }
}

/// `str::split_whitespace`: the maximal runs of non-white-space characters.
pub open spec fn split_ws(s: Seq<char>) -> Seq<Seq<char>> {
    let st = split_ws_state(s);
    if st.1.len() > 0 {
        st.0.push(st.1)
    } else {
        st.0
    }
}

pub open spec fn drop_stopwords(ws: Seq<Seq<char>>) -> Seq<Seq<char>>
    decreases ws.len(),
{
    if ws.len() == 0 {
        ws
    } else if is_stopword(ws.last()) {
        drop_stopwords(ws.drop_last())
    } else {
        drop_stopwords(ws.drop_last()).push(ws.last())
    }
}

/// The words joined with single spaces.
pub open spec fn join_space(ws: Seq<Seq<char>>) -> Seq<char>
    decreases ws.len(),
{
    if ws.len() == 0 {
        seq![]
    } else if ws.len() == 1 {
        ws[0]
    } else {
        join_space(ws.drop_last()) + seq![' '] + ws.last()
    }
}

/// A title reduced to its significant words: folded, punctuation to spaces, without the
/// words "konser", "tiyatro", "live" and the like.
pub open spec fn normalize_spec(title: Seq<char>) -> Seq<char> {
    join_space(drop_stopwords(split_ws(keep_alphanumeric(fold_seq(title)))))
}

fn split_words(s: &Vec<char>) -> (r: Vec<Vec<char>>)
    ensures
        r@.map_values(|w: Vec<char>| w@) == split_ws(s@),
{
    let mut words: Vec<Vec<char>> = Vec::new();
    let mut cur: Vec<char> = Vec::new();
    let mut i: usize = 0;
    while i < s.len()
        invariant
            0 <= i <= s@.len(),
            words@.map_values(|w: Vec<char>| w@) == split_ws_state(s@.take(i as int)).0,
            cur@ == split_ws_state(s@.take(i as int)).1,
        decreases s.len() - i,
    {
        assert(s@.take(i + 1).drop_last() =~= s@.take(i as int));
        let c = s[i];
        let ghost before = words@;
        if is_whitespace(c) {
            if cur.len() > 0 {
                let mut w: Vec<char> = Vec::new();
                std::mem::swap(&mut w, &mut cur);
                words.push(w);
                assert(words@.map_values(|w: Vec<char>| w@) =~= before.map_values(|w: Vec<char>| w@).push(w@));
                assert(cur@ =~= Seq::<char>::empty());
            }
        } else {
            cur.push(c);
        }
        i = i + 1;
    }
    assert(s@.take(i as int) =~= s@);
    if cur.len() > 0 {
        let ghost before = words@;
        words.push(cur);
        assert(words@.map_values(|w: Vec<char>| w@) =~= before.map_values(|w: Vec<char>| w@).push(words@.last()@));
    }
    words
}

/// Reduces a title to its significant words (see `normalize_spec`).
pub fn normalize(title: &str) -> (r: String)
    ensures
        r@ == normalize_spec(title@),
{
    let folded = fold_chars(&chars_of(title));
    let mut mapped: Vec<char> = Vec::new();
    let mut i: usize = 0;
    while i < folded.len()
        invariant
            0 <= i <= folded@.len(),
            mapped@ == keep_alphanumeric(folded@.take(i as int)),
        decreases folded.len() - i,
    {
        let c = folded[i];
        mapped.push(if is_alphanumeric(c) { c } else { ' ' });
        i = i + 1;
        assert(mapped@ =~= keep_alphanumeric(folded@.take(i as int)));
    }
    assert(folded@.take(i as int) =~= folded@);
    let words = split_words(&mapped);
    let ghost wv = words@.map_values(|w: Vec<char>| w@);
    let mut out: Vec<char> = Vec::new();
    let mut count: usize = 0;
    let ghost mut kept: Seq<Seq<char>> = seq![];
    let mut j: usize = 0;
    while j < words.len()
        invariant
            0 <= j <= words@.len(),
            wv == words@.map_values(|w: Vec<char>| w@),
            kept == drop_stopwords(wv.take(j as int)),
            out@ == join_space(kept),
            count == kept.len(),
            count <= j,
        decreases words.len() - j,
    {
        assert(wv.take(j + 1).drop_last() =~= wv.take(j as int));
        assert(wv.take(j + 1).last() == words@[j as int]@);
        if !is_stopword_exec(&words[j]) {
            proof {
                kept = kept.push(words@[j as int]@);
            }
            if count > 0 {
                out.push(' ');
            }
            let ghost o = out@;
            crate::text::push_chars(&mut out, &words[j]);
            assert(kept.drop_last() =~= drop_stopwords(wv.take(j as int)));
            if count == 0 {
                assert(out@ =~= join_space(kept));
            } else {
                assert(out@ =~= join_space(kept));
            }
            count = count + 1;
        }
        j = j + 1;
    }
    assert(wv.take(j as int) =~= wv);
    string_of(&out)
}

/// `str::split(' ')`: the pieces between single spaces, empty ones included.
pub open spec fn split_space_state(s: Seq<char>) -> (Seq<Seq<char>>, Seq<char>)
    decreases s.len(),
{
    if s.len() == 0 {
        (seq![], seq![])
    } else {
        let prev = split_space_state(s.drop_last());
        if s.last() == ' ' {
            (prev.0.push(prev.1), seq![])
        } else {
            (prev.0, prev.1.push(s.last()))
        }
    }
}

pub open spec fn split_space(s: Seq<char>) -> Seq<Seq<char>> {
    split_space_state(s).0.push(split_space_state(s).1)
}

/// The number of words that the two titles share and the number of words they have in all
/// (the Jaccard similarity of their word sets is the first over the second).
pub open spec fn overlap_counts(a: Seq<char>, b: Seq<char>) -> (nat, nat) {
    let wa = split_space(a).to_set();
    let wb = split_space(b).to_set();
    (wa.intersect(wb).len(), wa.union(wb).len())
}

/// The two titles share at least 80% of their words.
pub open spec fn overlap_high(a: Seq<char>, b: Seq<char>) -> bool {
    overlap_counts(a, b).0 * 5 >= overlap_counts(a, b).1 * 4
}

fn split_space_exec(s: &Vec<char>) -> (r: Vec<Vec<char>>)
    ensures
        r@.map_values(|w: Vec<char>| w@) == split_space(s@),
{
    let mut words: Vec<Vec<char>> = Vec::new();
    let mut cur: Vec<char> = Vec::new();
    let mut i: usize = 0;
    while i < s.len()
        invariant
            0 <= i <= s@.len(),
            words@.map_values(|w: Vec<char>| w@) == split_space_state(s@.take(i as int)).0,
            cur@ == split_space_state(s@.take(i as int)).1,
        decreases s.len() - i,
    {
        assert(s@.take(i + 1).drop_last() =~= s@.take(i as int));
        let c = s[i];
        let ghost before = words@;
        if c == ' ' {
            let mut w: Vec<char> = Vec::new();
            std::mem::swap(&mut w, &mut cur);
            words.push(w);
            assert(words@.map_values(|w: Vec<char>| w@) =~= before.map_values(|w: Vec<char>| w@).push(w@));
            assert(cur@ =~= Seq::<char>::empty());
        } else {
            cur.push(c);
        }
        i = i + 1;
    }
    assert(s@.take(i as int) =~= s@);
    let ghost before = words@;
    words.push(cur);
    assert(words@.map_values(|w: Vec<char>| w@) =~= before.map_values(|w: Vec<char>| w@).push(words@.last()@));
    words
}

/// Whether some word of `ws` equals `w`.
fn contains_word(ws: &Vec<Vec<char>>, w: &Vec<char>) -> (r: bool)
    ensures
        r == ws@.map_values(|x: Vec<char>| x@).contains(w@),
{
    let ghost v = ws@.map_values(|x: Vec<char>| x@);
    let mut i: usize = 0;
    while i < ws.len()
        invariant
            0 <= i <= ws@.len(),
            v == ws@.map_values(|x: Vec<char>| x@),
            forall|j: int| 0 <= j < i ==> v[j] != w@,
        decreases ws.len() - i,
    {
        if chars_eq(&ws[i], w) {
            assert(v[i as int] == w@);
            return true;
        }
        i = i + 1;
    }
    false
}

/// The distinct words, each once.
fn distinct_words(ws: &Vec<Vec<char>>) -> (r: Vec<Vec<char>>)
    ensures
        r@.map_values(|x: Vec<char>| x@).no_duplicates(),
        r@.map_values(|x: Vec<char>| x@).to_set() == ws@.map_values(|x: Vec<char>| x@).to_set(),
{
    let ghost v = ws@.map_values(|x: Vec<char>| x@);
    let mut r: Vec<Vec<char>> = Vec::new();
    let mut i: usize = 0;
    while i < ws.len()
        invariant
            0 <= i <= ws@.len(),
            v == ws@.map_values(|x: Vec<char>| x@),
            r@.map_values(|x: Vec<char>| x@).no_duplicates(),
            r@.map_values(|x: Vec<char>| x@).to_set() == v.take(i as int).to_set(),
        decreases ws.len() - i,
    {
        let ghost rv = r@.map_values(|x: Vec<char>| x@);
        assert(v.take(i + 1) =~= v.take(i as int).push(v[i as int]));
        if !contains_word(&r, &ws[i]) {
            let w = crate::text::copy_chars(&ws[i]);
            r.push(w);
            assert(r@.map_values(|x: Vec<char>| x@) =~= rv.push(v[i as int]));
            proof {
                rv.lemma_push_to_set_commute(v[i as int]);
                v.take(i as int).lemma_push_to_set_commute(v[i as int]);
            }
            assert(r@.map_values(|x: Vec<char>| x@).no_duplicates()) by {
                let nv = r@.map_values(|x: Vec<char>| x@);
                assert forall|a: int, b: int| 0 <= a < nv.len() && 0 <= b < nv.len() && a != b implies nv[a] != nv[b] by {
                    if a == rv.len() {
                        assert(rv.contains(rv[b]));
                    } else if b == rv.len() {
                        assert(rv.contains(rv[a]));
                    }
                }
            }
        } else {
            assert(rv.to_set().contains(v[i as int]));
            proof {
                v.take(i as int).lemma_push_to_set_commute(v[i as int]);
            }
            assert(v.take(i + 1).to_set() =~= v.take(i as int).to_set().insert(v[i as int]));
            assert(rv.to_set().insert(v[i as int]) =~= rv.to_set());
        }
        i = i + 1;
    }
    assert(v.take(i as int) =~= v);
    r
}

/// The shared and total word counts of two titles (`overlap_counts`).
fn word_overlap(a: &Vec<char>, b: &Vec<char>) -> (r: (u128, u128))
    ensures
        r.0 == overlap_counts(a@, b@).0,
        r.1 == overlap_counts(a@, b@).1,
        r.0 <= usize::MAX,
        r.1 <= 2 * (usize::MAX as u128),
{
    let da = distinct_words(&split_space_exec(a));
    let sb = split_space_exec(b);
    let db = distinct_words(&sb);
    let ghost va = da@.map_values(|x: Vec<char>| x@);
    let ghost vb = db@.map_values(|x: Vec<char>| x@);
    let ghost wa = split_space(a@).to_set();
    let ghost wb = split_space(b@).to_set();
    let mut inter: usize = 0;
    let ghost mut iv: Seq<Seq<char>> = seq![];
    let mut i: usize = 0;
    while i < da.len()
        invariant
            0 <= i <= da@.len(),
            va == da@.map_values(|x: Vec<char>| x@),
            vb == db@.map_values(|x: Vec<char>| x@),
            va.no_duplicates(),
            va.to_set() == wa,
            vb.to_set() == wb,
            iv.no_duplicates(),
            iv.to_set() == va.take(i as int).to_set().intersect(wb),
            inter == iv.len(),
            inter <= i,
            vb.len() == db@.len(),
        decreases da.len() - i,
    {
        assert(va.take(i + 1) =~= va.take(i as int).push(va[i as int]));
        if contains_word(&db, &da[i]) {
            proof {
                if iv.contains(va[i as int]) {
                    assert(iv.to_set().contains(va[i as int]));
                    assert(va.take(i as int).contains(va[i as int]));
                    let j = choose|j: int| 0 <= j < i && va.take(i as int)[j] == va[i as int];
                    assert(va[j] == va[i as int]);
                }
                assert(wb.contains(va[i as int]));
                let old_iv = iv;
                iv = iv.push(va[i as int]);
                old_iv.lemma_push_to_set_commute(va[i as int]);
                va.take(i as int).lemma_push_to_set_commute(va[i as int]);
                assert(iv.to_set() =~= va.take(i + 1).to_set().intersect(wb));
                assert forall|a: int, b: int| 0 <= a < iv.len() && 0 <= b < iv.len() && a != b implies iv[a] != iv[b] by {
                    if a == old_iv.len() {
                        assert(old_iv.contains(old_iv[b]));
                    } else if b == old_iv.len() {
                        assert(old_iv.contains(old_iv[a]));
                    }
                }
            }
            inter = inter + 1;
        } else {
            proof {
                va.take(i as int).lemma_push_to_set_commute(va[i as int]);
            }
            assert(!wb.contains(va[i as int]));
            assert(iv.to_set() =~= va.take(i + 1).to_set().intersect(wb));
        }
        i = i + 1;
    }
    proof {
        assert(va.take(i as int) =~= va);
        va.unique_seq_to_set();
        vb.unique_seq_to_set();
        iv.unique_seq_to_set();
        vstd::set_lib::lemma_set_intersect_union_lens(wa, wb);
        assert(wa + wb == wa.union(wb));
    }
    (inter as u128, da.len() as u128 + db.len() as u128 - inter as u128)
}

/// The number of bytes of the UTF-8 encoding of one character.
pub open spec fn utf8_width(c: char) -> nat {
    if (c as u32) < 0x80 {
        1
    } else if (c as u32) < 0x800 {
        2
    } else if (c as u32) < 0x10000 {
        3
    } else {
        4
    }
}

/// The length in bytes of the UTF-8 encoding (`str::len`).
pub open spec fn utf8_len(s: Seq<char>) -> nat
    decreases s.len(),
{
    if s.len() == 0 {
        0
    } else {
        utf8_len(s.drop_last()) + utf8_width(s.last())
    }
}

fn utf8_len_exec(s: &Vec<char>) -> (r: u128)
    ensures
        r == utf8_len(s@),
{
    let mut n: u128 = 0;
    let mut i: usize = 0;
    while i < s.len()
        invariant
            0 <= i <= s@.len(),
            n == utf8_len(s@.take(i as int)),
            n <= 4 * i,
        decreases s.len() - i,
    {
        assert(s@.take(i + 1).drop_last() =~= s@.take(i as int));
        let c = s[i] as u32;
        n = n + if c < 0x80 { 1 } else if c < 0x800 { 2 } else if c < 0x10000 { 3 } else { 4 };
        i = i + 1;
    }
    assert(s@.take(i as int) =~= s@);
    n
}

/// Two normalised titles name the same event, given the bit pattern `jw` of their
/// Jaro-Winkler similarity: both are non-empty, and they are equal, contain one another (both
/// at least 4 bytes long), are similar (0.9 or more), or share 80% of their words.
pub open spec fn similar_titles_spec(na: Seq<char>, nb: Seq<char>, jw: u64) -> bool {
    &&& na.len() > 0
    &&& nb.len() > 0
    &&& {
        ||| na == nb
        ||| (utf8_len(na) >= 4 && utf8_len(nb) >= 4 && (contains_seq(na, nb)
            || contains_seq(nb, na)))
        ||| jw >= SIMILAR_BITS
        ||| overlap_high(na, nb)
    }
}

/// The same event on two different sites: both dated on the same Turkish day, and titles
/// that after normalisation are similar (`similar_titles_spec`, with their Jaro-Winkler
/// similarity).
pub open spec fn same_event_spec(a: EventView, b: EventView) -> bool {
    let na = normalize_spec(a.title);
    let nb = normalize_spec(b.title);
    &&& a.source != b.source
    &&& a.date is Some
    &&& b.date is Some
    &&& tr_day(a.date.unwrap()) == tr_day(b.date.unwrap())
    &&& similar_titles_spec(na, nb, jaro_winkler_bits(na, nb))
}

/// Events matched across sites are on two different sites, both dated, on the same Turkish
/// day, with titles that keep some words.
pub proof fn matched_events_share_the_day(a: EventView, b: EventView)
    requires
        same_event_spec(a, b),
    ensures
        a.source != b.source,
        a.date is Some && b.date is Some,
        tr_day(a.date->0) == tr_day(b.date->0),
        normalize_spec(a.title).len() > 0 && normalize_spec(b.title).len() > 0,
{
}

/// The decision on two titles does not depend on their order, for the same similarity.
pub proof fn similar_titles_symmetric(na: Seq<char>, nb: Seq<char>, jw: u64)
    ensures
        similar_titles_spec(na, nb, jw) == similar_titles_spec(nb, na, jw),
{
    let wa = split_space(na).to_set();
    let wb = split_space(nb).to_set();
    assert(wa.intersect(wb) =~= wb.intersect(wa));
    assert(wa.union(wb) =~= wb.union(wa));
}

/// Matching is symmetric wherever the two titles' similarity is the same both ways round.
pub proof fn same_event_symmetric(a: EventView, b: EventView)
    requires
        jaro_winkler_bits(normalize_spec(a.title), normalize_spec(b.title)) == jaro_winkler_bits(
            normalize_spec(b.title),
            normalize_spec(a.title),
        ),
    ensures
        same_event_spec(a, b) == same_event_spec(b, a),
{
    similar_titles_symmetric(
        normalize_spec(a.title),
        normalize_spec(b.title),
        jaro_winkler_bits(normalize_spec(a.title), normalize_spec(b.title)),
    );
}

/// Whether two normalised titles name the same event, given the bit pattern of their
/// Jaro-Winkler similarity (`f64::to_bits` of `strsim::jaro_winkler`).
pub fn similar_titles(na: &str, nb: &str, jw_bits: u64) -> (r: bool)
    ensures
        r == similar_titles_spec(na@, nb@, jw_bits),
{
    let va = chars_of(na);
    let vb = chars_of(nb);
    if va.len() == 0 || vb.len() == 0 {
        return false;
    }
    if chars_eq(&va, &vb) {
        return true;
    }
    if utf8_len_exec(&va) >= 4 && utf8_len_exec(&vb) >= 4 && (contains_chars(&va, &vb) || contains_chars(&vb, &va)) {
        return true;
    }
    if jw_bits >= SIMILAR_BITS {
        return true;
    }
    let (inter, union) = word_overlap(&va, &vb);
    inter * 5 >= union * 4
}

pub fn same_event(a: &Event, b: &Event) -> (r: bool)
    ensures
        r == same_event_spec(a@, b@),
{
    if a.source == b.source {
        return false;
    }
    let (da, db) = match (&a.date, &b.date) {
        (Some(da), Some(db)) => (da, db),
        _ => {
            return false;
        },
    };
    if tr_day_of(da) != tr_day_of(db) {
        return false;
    }
    let na = normalize(a.title.as_str());
    let nb = normalize(b.title.as_str());
    let jw = jaro_winkler_bits_of(na.as_str(), nb.as_str());
    similar_titles(na.as_str(), nb.as_str(), jw)
}

} // verus!
