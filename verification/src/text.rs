//! Character-level text helpers: conversions between strings and character vectors,
//! ordering, search, trimming, decimal rendering and a stable insertion sort.

use vstd::prelude::*;

verus! {

// ---------------------------------------------------------------------------------------------
// Conversions
// ---------------------------------------------------------------------------------------------

/// The characters of `s` in order.
pub(crate) fn chars_of(s: &str) -> (v: Vec<char>)
    ensures
        v@ == s@,
{
    broadcast use vstd::string::axiom_spec_iter;
    let mut v: Vec<char> = Vec::new();
    for c in it: s.chars()
        invariant
            it.seq() == s@,
            v@ == it.seq().take(it.index() as int),
    {
        v.push(c);
    }
    v
}

/// `String: FromIterator<char>`: a string made of exactly the given characters.
#[verifier::external_body]
pub(crate) fn string_of(v: &Vec<char>) -> (s: String)
    ensures
        s@ == v@,
{
    v.iter().collect()
}

/// Appends the characters of `s`.
pub(crate) fn push_str(out: &mut Vec<char>, s: &str)
    ensures
        final(out)@ == old(out)@ + s@,
{
    let mut v = chars_of(s);
    out.append(&mut v);
}

/// Appends the given characters.
pub(crate) fn push_chars(out: &mut Vec<char>, s: &Vec<char>)
    ensures
        final(out)@ == old(out)@ + s@,
{
    let ghost start = out@;
    let mut i: usize = 0;
    while i < s.len()
        invariant
            0 <= i <= s.len(),
            out@ == start + s@.take(i as int),
        decreases s.len() - i,
    {
        out.push(s[i]);
        i = i + 1;
        assert(s@.take(i as int) == s@.take(i - 1).push(s@[i - 1]));
    }
    assert(s@.take(s.len() as int) == s@);
}

/// A copy of the characters.
pub(crate) fn copy_chars(s: &Vec<char>) -> (r: Vec<char>)
    ensures
        r@ == s@,
{
    let mut r: Vec<char> = Vec::new();
    push_chars(&mut r, s);
    assert(r@ =~= s@);
    r
}

/// Appends the characters of a `String`.
pub(crate) fn push_string(out: &mut Vec<char>, s: &String)
    ensures
        final(out)@ == old(out)@ + s@,
{
    push_str(out, s.as_str());
}

/// Character-wise equality of two character vectors.
pub(crate) fn chars_eq(a: &Vec<char>, b: &Vec<char>) -> (r: bool)
    ensures
        r == (a@ == b@),
{
    if a.len() != b.len() {
        return false;
    }
    let mut i: usize = 0;
    while i < a.len()
        invariant
            a.len() == b.len(),
            0 <= i <= a.len(),
            forall|j: int| 0 <= j < i ==> a@[j] == b@[j],
        decreases a.len() - i,
    {
        if a[i] != b[i] {
            assert(a@[i as int] != b@[i as int]);
            return false;
        }
        i = i + 1;
    }
    assert(a@ =~= b@);
    true
}

// ---------------------------------------------------------------------------------------------
// Ordering: strings compare as sequences of code points (the order of `String`'s `Ord`,
// since UTF-8 preserves the code point order byte-wise).
// ---------------------------------------------------------------------------------------------

/// `a` sorts strictly before `b` in lexicographic code point order.
pub open spec fn seq_lt(a: Seq<char>, b: Seq<char>) -> bool
    decreases a.len(),
{
    if a.len() == 0 {
        b.len() > 0
    } else if b.len() == 0 {
        false
    } else if a[0] != b[0] {
        (a[0] as int) < (b[0] as int)
    } else {
        seq_lt(a.drop_first(), b.drop_first())
    }
}

pub proof fn lemma_lt_irreflexive(a: Seq<char>)
    ensures
        !seq_lt(a, a),
    decreases a.len(),
{
    if a.len() > 0 {
        lemma_lt_irreflexive(a.drop_first());
    }
}

pub proof fn lemma_lt_asymmetric(a: Seq<char>, b: Seq<char>)
    ensures
        seq_lt(a, b) ==> !seq_lt(b, a),
    decreases a.len(),
{
    if a.len() > 0 && b.len() > 0 && a[0] == b[0] {
        lemma_lt_asymmetric(a.drop_first(), b.drop_first());
    }
}

pub proof fn lemma_lt_total(a: Seq<char>, b: Seq<char>)
    ensures
        a != b ==> seq_lt(a, b) || seq_lt(b, a),
    decreases a.len(),
{
    if a.len() > 0 && b.len() > 0 && a[0] == b[0] {
        lemma_lt_total(a.drop_first(), b.drop_first());
        if a.drop_first() == b.drop_first() {
            assert(a =~= seq![a[0]] + a.drop_first());
            assert(b =~= seq![b[0]] + b.drop_first());
        }
    } else if a.len() == 0 && b.len() == 0 {
        assert(a =~= b);
    } else if a.len() > 0 && b.len() > 0 {
    }
}

pub proof fn lemma_lt_transitive(a: Seq<char>, b: Seq<char>, c: Seq<char>)
    requires
        seq_lt(a, b),
        seq_lt(b, c),
    ensures
        seq_lt(a, c),
    decreases a.len(),
{
    if a.len() > 0 && b.len() > 0 && c.len() > 0 && a[0] == b[0] && b[0] == c[0] {
        lemma_lt_transitive(a.drop_first(), b.drop_first(), c.drop_first());
    }
}

/// Whether `a` sorts strictly before `b` (the order of `String`'s `Ord`).
pub(crate) fn chars_lt(a: &Vec<char>, b: &Vec<char>) -> (r: bool)
    ensures
        r == seq_lt(a@, b@),
{
    let mut i: usize = 0;
    assert(a@.skip(0) =~= a@);
    assert(b@.skip(0) =~= b@);
    while i < a.len() && i < b.len()
        invariant
            0 <= i <= a.len(),
            i <= b.len(),
            seq_lt(a@, b@) == seq_lt(a@.skip(i as int), b@.skip(i as int)),
        decreases a.len() - i,
    {
        if a[i] != b[i] {
            assert(a@.skip(i as int)[0] == a@[i as int]);
            assert(b@.skip(i as int)[0] == b@[i as int]);
            return a[i] < b[i];
        }
        assert(a@.skip(i as int).drop_first() =~= a@.skip(i + 1));
        assert(b@.skip(i as int).drop_first() =~= b@.skip(i + 1));
        i = i + 1;
    }
    i < b.len()
}

/// Whether `a` sorts strictly before `b`.
pub(crate) fn string_lt(a: &String, b: &String) -> (r: bool)
    ensures
        r == seq_lt(a@, b@),
{
    let va = chars_of(a.as_str());
    let vb = chars_of(b.as_str());
    chars_lt(&va, &vb)
}

// ---------------------------------------------------------------------------------------------
// Search
// ---------------------------------------------------------------------------------------------

/// `n` occurs in `h` starting at position `i`.
pub open spec fn occurs_at(h: Seq<char>, n: Seq<char>, i: int) -> bool {
    0 <= i && i + n.len() <= h.len() && h.subrange(i, i + n.len()) == n
}

/// `n` occurs somewhere in `h` (`str::contains`).
pub open spec fn contains_seq(h: Seq<char>, n: Seq<char>) -> bool {
    exists|i: int| occurs_at(h, n, i)
}

/// `h` ends with `n`.
pub open spec fn ends_with(h: Seq<char>, n: Seq<char>) -> bool {
    occurs_at(h, n, h.len() - n.len())
}

/// The lowest position at which `n` occurs in `h`, if any.
pub open spec fn first_occurrence(h: Seq<char>, n: Seq<char>) -> Option<int> {
    if contains_seq(h, n) {
        Some(choose|i: int| occurs_at(h, n, i) && forall|j: int| 0 <= j < i ==> !occurs_at(h, n, j))
    } else {
        None
    }
}

pub(crate) fn occurs_at_exec(h: &Vec<char>, n: &Vec<char>, i: usize) -> (r: bool)
    ensures
        r == occurs_at(h@, n@, i as int),
{
    if n.len() > h.len() || i > h.len() - n.len() {
        return false;
    }
    let mut k: usize = 0;
    while k < n.len()
        invariant
            i + n.len() <= h.len(),
            0 <= k <= n.len(),
            forall|j: int| 0 <= j < k ==> h@[i + j] == n@[j],
        decreases n.len() - k,
    {
        if h[i + k] != n[k] {
            assert(h@.subrange(i as int, i + n.len())[k as int] != n@[k as int]);
            return false;
        }
        k = k + 1;
    }
    assert(h@.subrange(i as int, i + n.len()) =~= n@);
    true
}

/// The first position at which `n` occurs in `h` (`str::find`, counted in characters).
pub(crate) fn find_chars(h: &Vec<char>, n: &Vec<char>) -> (r: Option<usize>)
    ensures
        r matches Some(i) ==> first_occurrence(h@, n@) == Some(i as int) && occurs_at(h@, n@, i as int),
        r is None <==> first_occurrence(h@, n@) is None,
{
    if n.len() > h.len() {
        assert(!contains_seq(h@, n@));
        return None;
    }
    let last = h.len() - n.len();
    let mut i: usize = 0;
    loop
        invariant
            last == h.len() - n.len(),
            n.len() <= h.len(),
            0 <= i <= last,
            forall|j: int| 0 <= j < i ==> !occurs_at(h@, n@, j),
        decreases last - i,
    {
        if occurs_at_exec(h, n, i) {
            proof {
                let w = choose|k: int| occurs_at(h@, n@, k) && forall|j: int| 0 <= j < k ==> !occurs_at(h@, n@, j);
                assert(occurs_at(h@, n@, i as int) && forall|j: int| 0 <= j < i ==> !occurs_at(h@, n@, j));
                if w < i {
                } else if w > i {
                }
                assert(w == i);
            }
            return Some(i);
        }
        if i == last {
            assert forall|j: int| !occurs_at(h@, n@, j) by {
                if 0 <= j < i {
                }
            }
            return None;
        }
        i = i + 1;
    }
}

/// Whether `n` occurs in `h`.
pub(crate) fn contains_chars(h: &Vec<char>, n: &Vec<char>) -> (r: bool)
    ensures
        r == contains_seq(h@, n@),
{
    let f = find_chars(h, n);
    f.is_some()
}

/// Whether the characters spell `lit`.
pub(crate) fn text_is(v: &Vec<char>, lit: &str) -> (r: bool)
    ensures
        r == (v@ == lit@),
{
    chars_eq(v, &chars_of(lit))
}

/// The characters from position `a` up to position `b`.
pub(crate) fn sub_chars(s: &Vec<char>, a: usize, b: usize) -> (r: Vec<char>)
    requires
        a <= b <= s@.len(),
    ensures
        r@ == s@.subrange(a as int, b as int),
{
    let mut r: Vec<char> = Vec::new();
    let mut i: usize = a;
    while i < b
        invariant
            a <= i <= b,
            b <= s@.len(),
            r@ == s@.subrange(a as int, i as int),
        decreases b - i,
    {
        r.push(s[i]);
        i = i + 1;
        assert(r@ =~= s@.subrange(a as int, i as int));
    }
    r
}

/// The first position, from `k` on, holding `c`.
pub open spec fn char_pos(s: Seq<char>, c: char, k: int) -> Option<int>
    decreases s.len() - k,
{
    if k < 0 || k >= s.len() {
        None
    } else if s[k] == c {
        Some(k)
    } else {
        char_pos(s, c, k + 1)
    }
}

/// The part of `s` before the first `c` (all of `s` when there is none).
pub open spec fn before_char(s: Seq<char>, c: char) -> Seq<char> {
    match char_pos(s, c, 0) {
        Some(i) => s.take(i),
        None => s,
    }
}

/// The part of `s` after the first `c`, if there is one.
pub open spec fn after_char(s: Seq<char>, c: char) -> Option<Seq<char>> {
    match char_pos(s, c, 0) {
        Some(i) => Some(s.skip(i + 1)),
        None => None,
    }
}

proof fn lemma_char_pos_range(s: Seq<char>, c: char, k: int)
    ensures
        char_pos(s, c, k) matches Some(i) ==> k <= i < s.len() && s[i] == c,
    decreases s.len() - k,
{
    if 0 <= k < s.len() && s[k] != c {
        lemma_char_pos_range(s, c, k + 1);
    }
}

/// The first position of `c` in `s`.
pub(crate) fn find_char(s: &Vec<char>, c: char) -> (r: Option<usize>)
    ensures
        r matches Some(i) ==> char_pos(s@, c, 0) == Some(i as int) && i < s@.len(),
        r is None <==> char_pos(s@, c, 0) is None,
{
    let mut i: usize = 0;
    while i < s.len()
        invariant
            0 <= i <= s@.len(),
            char_pos(s@, c, 0) == char_pos(s@, c, i as int),
        decreases s.len() - i,
    {
        if s[i] == c {
            return Some(i);
        }
        i = i + 1;
    }
    None
}

/// `str::split_once` at a character: the parts before and after its first occurrence.
pub(crate) fn split_at_char(s: &Vec<char>, c: char) -> (r: (Vec<char>, Option<Vec<char>>))
    ensures
        r.0@ == before_char(s@, c),
        r.1 matches Some(a) ==> after_char(s@, c) == Some(a@),
        r.1 is None <==> after_char(s@, c) is None,
{
    match find_char(s, c) {
        Some(i) => {
            let n = s.len();
            let b = sub_chars(s, 0, i);
            let a = sub_chars(s, i + 1, n);
            assert(b@ =~= s@.take(i as int));
            assert(a@ =~= s@.skip(i + 1));
            (b, Some(a))
        },
        None => (copy_chars(s), None),
    }
}

// ---------------------------------------------------------------------------------------------
// Trimming (`str::trim`: Unicode white space at both ends)
// ---------------------------------------------------------------------------------------------

/// `char::is_whitespace`: the characters with the Unicode property `White_Space` (a fixed
/// list of 25 code points).
pub open spec fn unicode_whitespace(c: char) -> bool {
    ||| '\u{9}' <= c <= '\u{d}'
    ||| c == ' '
    ||| c == '\u{85}'
    ||| c == '\u{a0}'
    ||| c == '\u{1680}'
    ||| '\u{2000}' <= c <= '\u{200a}'
    ||| c == '\u{2028}'
    ||| c == '\u{2029}'
    ||| c == '\u{202f}'
    ||| c == '\u{205f}'
    ||| c == '\u{3000}'
}

/// Whether `c` is white space (`char::is_whitespace`).
pub(crate) fn is_whitespace(c: char) -> (r: bool)
    ensures
        r == unicode_whitespace(c),
{
    ('\u{9}' <= c && c <= '\u{d}') || c == ' ' || c == '\u{85}' || c == '\u{a0}' || c == '\u{1680}' || ('\u{2000}'
        <= c && c <= '\u{200a}') || c == '\u{2028}' || c == '\u{2029}' || c == '\u{202f}' || c == '\u{205f}' || c
        == '\u{3000}'
}

pub open spec fn trim_start(s: Seq<char>) -> Seq<char>
    decreases s.len(),
{
    if s.len() > 0 && unicode_whitespace(s[0]) {
        trim_start(s.drop_first())
    } else {
        s
    }
}

pub open spec fn trim_end(s: Seq<char>) -> Seq<char>
    decreases s.len(),
{
    if s.len() > 0 && unicode_whitespace(s.last()) {
        trim_end(s.drop_last())
    } else {
        s
    }
}

/// `str::trim`.
pub open spec fn trim(s: Seq<char>) -> Seq<char> {
    trim_end(trim_start(s))
}

/// The characters of `s` without leading and trailing white space.
pub(crate) fn trim_chars(s: &Vec<char>) -> (r: Vec<char>)
    ensures
        r@ == trim(s@),
{
    let mut a: usize = 0;
    assert(s@.skip(0) =~= s@);
    while a < s.len() && is_whitespace(s[a])
        invariant
            0 <= a <= s.len(),
            trim_start(s@) == trim_start(s@.skip(a as int)),
        decreases s.len() - a,
    {
        assert(s@.skip(a as int).drop_first() =~= s@.skip(a + 1));
        a = a + 1;
    }
    assert(trim_start(s@) == s@.skip(a as int));
    let mut b: usize = s.len();
    while b > a && is_whitespace(s[b - 1])
        invariant
            a <= b <= s.len(),
            trim(s@) == trim_end(s@.subrange(a as int, b as int)),
        decreases b - a,
    {
        assert(s@.subrange(a as int, b as int).drop_last() =~= s@.subrange(a as int, b - 1));
        b = b - 1;
    }
    let mut r: Vec<char> = Vec::new();
    let mut i: usize = a;
    while i < b
        invariant
            a <= i <= b,
            b <= s.len(),
            r@ == s@.subrange(a as int, i as int),
        decreases b - i,
    {
        r.push(s[i]);
        i = i + 1;
        assert(r@ =~= s@.subrange(a as int, i as int));
    }
    r
}

/// The characters of `s` without leading and trailing white space.
pub(crate) fn trim_str(s: &str) -> (r: Vec<char>)
    ensures
        r@ == trim(s@),
{
    let v = chars_of(s);
    trim_chars(&v)
}

/// `str::to_lowercase`: the Unicode lower case of the text.
pub uninterp spec fn unicode_lowercase(s: Seq<char>) -> Seq<char>;

/// `str::to_lowercase`. Only the name of the result is stated.
#[verifier::external_body]
pub(crate) fn to_lowercase(s: &str) -> (r: String)
    ensures
        r@ == unicode_lowercase(s@),
{
    s.to_lowercase()
}

// ---------------------------------------------------------------------------------------------
// Decimal rendering (the `Display` of integers)
// ---------------------------------------------------------------------------------------------

pub open spec fn digit_char(d: int) -> char {
    (48 + d) as char
}

/// Decimal digits of a natural number, most significant first.
pub open spec fn nat_str(n: nat) -> Seq<char>
    decreases n,
{
    if n < 10 {
        seq![digit_char(n as int)]
    } else {
        nat_str(n / 10) + seq![digit_char((n % 10) as int)]
    }
}

/// Decimal rendering of an integer, with a leading `-` when negative.
pub open spec fn int_str(n: int) -> Seq<char> {
    if n < 0 {
        seq!['-'] + nat_str((-n) as nat)
    } else {
        nat_str(n as nat)
    }
}

pub(crate) fn digit(d: u64) -> (c: char)
    requires
        d < 10,
    ensures
        c == digit_char(d as int),
{
    if d == 0 { '0' }
    else if d == 1 { '1' }
    else if d == 2 { '2' }
    else if d == 3 { '3' }
    else if d == 4 { '4' }
    else if d == 5 { '5' }
    else if d == 6 { '6' }
    else if d == 7 { '7' }
    else if d == 8 { '8' }
    else { '9' }
}

/// Appends the decimal digits of `n`.
pub(crate) fn push_u64(out: &mut Vec<char>, n: u64)
    ensures
        final(out)@ == old(out)@ + nat_str(n as nat),
    decreases n,
{
    if n >= 10 {
        push_u64(out, n / 10);
    }
    out.push(digit(n % 10));
}

/// Appends the decimal digits of `n`.
pub(crate) fn push_u128(out: &mut Vec<char>, n: u128)
    ensures
        final(out)@ == old(out)@ + nat_str(n as nat),
    decreases n,
{
    if n >= 10 {
        push_u128(out, n / 10);
    }
    out.push(digit((n % 10) as u64));
}

/// Appends the decimal rendering of `n` (|n| below 2^126).
pub(crate) fn push_i128(out: &mut Vec<char>, n: i128)
    requires
        -0x4000_0000_0000_0000_0000_0000_0000_0000 <= n,
    ensures
        final(out)@ == old(out)@ + int_str(n as int),
{
    if n < 0 {
        out.push('-');
        push_u128(out, (-n) as u128);
    } else {
        push_u128(out, n as u128);
    }
}

/// Appends the decimal rendering of `n`.
pub(crate) fn push_i64(out: &mut Vec<char>, n: i64)
    ensures
        final(out)@ == old(out)@ + int_str(n as int),
{
    if n < 0 {
        out.push('-');
        let m: u64 = (-(n as i128)) as u64;
        push_u64(out, m);
    } else {
        push_u64(out, n as u64);
    }
}

// ---------------------------------------------------------------------------------------------
// Stable insertion sort
// ---------------------------------------------------------------------------------------------

/// Inserts `x` into `s` right after the last element that does not sort after it.
pub open spec fn sorted_insert<T>(s: Seq<T>, x: T, gt: spec_fn(T, T) -> bool) -> Seq<T>
    decreases s.len(),
{
    if s.len() == 0 {
        seq![x]
    } else if gt(s.last(), x) {
        sorted_insert(s.drop_last(), x, gt).push(s.last())
    } else {
        s.push(x)
    }
}

/// The stable sort of `s` by the strict order `gt` ("sorts after"): insertion sort, so
/// elements that compare equal keep their order (the result of `slice::sort_by_key`).
pub open spec fn stable_sorted<T>(s: Seq<T>, gt: spec_fn(T, T) -> bool) -> Seq<T>
    decreases s.len(),
{
    if s.len() == 0 {
        s
    } else {
        sorted_insert(stable_sorted(s.drop_last(), gt), s.last(), gt)
    }
}

pub proof fn lemma_sorted_insert_len<T>(s: Seq<T>, x: T, gt: spec_fn(T, T) -> bool)
    ensures
        sorted_insert(s, x, gt).len() == s.len() + 1,
    decreases s.len(),
{
    if s.len() > 0 && gt(s.last(), x) {
        lemma_sorted_insert_len(s.drop_last(), x, gt);
    }
}

pub proof fn lemma_stable_sorted_len<T>(s: Seq<T>, gt: spec_fn(T, T) -> bool)
    ensures
        stable_sorted(s, gt).len() == s.len(),
    decreases s.len(),
{
    if s.len() > 0 {
        lemma_stable_sorted_len(s.drop_last(), gt);
        lemma_sorted_insert_len(stable_sorted(s.drop_last(), gt), s.last(), gt);
    }
}

/// No element sorts after a later one.
pub open spec fn sorted_by<T>(s: Seq<T>, gt: spec_fn(T, T) -> bool) -> bool {
    forall|i: int, j: int| 0 <= i < j < s.len() ==> !gt(#[trigger] s[i], #[trigger] s[j])
}

/// `gt` is asymmetric and "does not sort after" is transitive: a strict weak order.
pub open spec fn strict_weak<T>(gt: spec_fn(T, T) -> bool) -> bool {
    &&& forall|a: T, b: T| #[trigger] gt(a, b) ==> !gt(b, a)
    &&& forall|a: T, b: T, c: T| #![trigger gt(a, b), gt(b, c)] !gt(a, b) && !gt(b, c) ==> !gt(a, c)
}

/// Each element of an insertion is the inserted one or one of the sequence.
/// An insertion holds the inserted element and every element of the sequence.
pub proof fn lemma_insert_keeps<T>(s: Seq<T>, x: T, gt: spec_fn(T, T) -> bool)
    ensures
        sorted_insert(s, x, gt).contains(x),
        forall|j: int| 0 <= j < s.len() ==> sorted_insert(s, x, gt).contains(#[trigger] s[j]),
    decreases s.len(),
{
    let r = sorted_insert(s, x, gt);
    if s.len() == 0 {
        assert(r[0] == x);
    } else if gt(s.last(), x) {
        let t = s.drop_last();
        lemma_insert_keeps(t, x, gt);
        let r0 = sorted_insert(t, x, gt);
        assert(r == r0.push(s.last()));
        let k = choose|k: int| 0 <= k < r0.len() && r0[k] == x;
        assert(r[k] == x);
        assert forall|j: int| 0 <= j < s.len() implies r.contains(#[trigger] s[j]) by {
            if j < t.len() {
                assert(t[j] == s[j]);
                let k2 = choose|k2: int| 0 <= k2 < r0.len() && r0[k2] == t[j];
                assert(r[k2] == s[j]);
            } else {
                assert(r[r0.len() as int] == s[j]);
            }
        }
    } else {
        assert(r == s.push(x));
        assert(r[s.len() as int] == x);
        assert forall|j: int| 0 <= j < s.len() implies r.contains(#[trigger] s[j]) by {
            assert(r[j] == s[j]);
        }
    }
}

/// The stable sort holds every element of the sequence.
pub proof fn lemma_stable_sorted_keeps<T>(s: Seq<T>, gt: spec_fn(T, T) -> bool)
    ensures
        forall|j: int| 0 <= j < s.len() ==> stable_sorted(s, gt).contains(#[trigger] s[j]),
    decreases s.len(),
{
    if s.len() > 0 {
        let t = s.drop_last();
        lemma_stable_sorted_keeps(t, gt);
        let p = stable_sorted(t, gt);
        lemma_insert_keeps(p, s.last(), gt);
        assert forall|j: int| 0 <= j < s.len() implies stable_sorted(s, gt).contains(#[trigger] s[j]) by {
            if j < t.len() {
                assert(t[j] == s[j]);
                let k = choose|k: int| 0 <= k < p.len() && p[k] == t[j];
                assert(p.contains(p[k]));
            } else {
                assert(s[j] == s.last());
            }
        }
    }
}

/// An insertion adds the inserted element to the sequence's elements, and nothing else.
pub proof fn lemma_insert_multiset<T>(s: Seq<T>, x: T, gt: spec_fn(T, T) -> bool)
    ensures
        sorted_insert(s, x, gt).to_multiset() =~= s.to_multiset().insert(x),
    decreases s.len(),
{
    broadcast use vstd::seq_lib::group_to_multiset_ensures;

    if s.len() == 0 {
        assert(seq![x] =~= s.push(x));
    } else if gt(s.last(), x) {
        let t = s.drop_last();
        lemma_insert_multiset(t, x, gt);
        assert(t.push(s.last()) =~= s);
        assert(sorted_insert(s, x, gt).to_multiset() =~= sorted_insert(t, x, gt).to_multiset().insert(s.last()));
    }
}

/// The stable sort has the sequence's elements, each as often.
pub proof fn lemma_stable_sorted_multiset<T>(s: Seq<T>, gt: spec_fn(T, T) -> bool)
    ensures
        stable_sorted(s, gt).to_multiset() =~= s.to_multiset(),
    decreases s.len(),
{
    broadcast use vstd::seq_lib::group_to_multiset_ensures;

    if s.len() > 0 {
        let t = s.drop_last();
        lemma_stable_sorted_multiset(t, gt);
        lemma_insert_multiset(stable_sorted(t, gt), s.last(), gt);
        assert(t.push(s.last()) =~= s);
    }
}

proof fn lemma_push_no_duplicates<T>(s: Seq<T>, x: T)
    requires
        s.no_duplicates(),
        !s.contains(x),
    ensures
        s.push(x).no_duplicates(),
{
    let r = s.push(x);
    assert forall|i: int, j: int| 0 <= i < r.len() && 0 <= j < r.len() && i != j implies r[i] != r[j] by {
        if i < s.len() && j < s.len() {
            assert(r[i] == s[i] && r[j] == s[j]);
        } else if i < s.len() {
            assert(r[i] == s[i]);
        } else {
            assert(r[j] == s[j]);
        }
    }
}

/// An insertion of a new element into a sequence without repeats has no repeats.
pub proof fn lemma_insert_no_duplicates<T>(s: Seq<T>, x: T, gt: spec_fn(T, T) -> bool)
    requires
        s.no_duplicates(),
        !s.contains(x),
    ensures
        sorted_insert(s, x, gt).no_duplicates(),
    decreases s.len(),
{
    if s.len() == 0 {
        assert(sorted_insert(s, x, gt) =~= s.push(x));
        lemma_push_no_duplicates(s, x);
    } else if gt(s.last(), x) {
        let t = s.drop_last();
        assert(t.no_duplicates()) by {
            assert forall|i: int, j: int| 0 <= i < t.len() && 0 <= j < t.len() && i != j implies t[i] != t[j] by {
                assert(t[i] == s[i] && t[j] == s[j]);
            }
        }
        assert(!t.contains(x)) by {
            if t.contains(x) {
                let k = choose|k: int| 0 <= k < t.len() && t[k] == x;
                assert(s[k] == x);
            }
        }
        lemma_insert_no_duplicates(t, x, gt);
        let r0 = sorted_insert(t, x, gt);
        lemma_insert_members(t, x, gt);
        assert(!r0.contains(s.last())) by {
            if r0.contains(s.last()) {
                let k = choose|k: int| 0 <= k < r0.len() && r0[k] == s.last();
                if t.contains(r0[k]) {
                    let m = choose|m: int| 0 <= m < t.len() && t[m] == r0[k];
                    assert(s[m] == s[s.len() - 1]);
                } else {
                    assert(s[s.len() - 1] == x);
                }
            }
        }
        lemma_push_no_duplicates(r0, s.last());
    } else {
        lemma_push_no_duplicates(s, x);
    }
}

/// The stable sort of a sequence without repeats has no repeats.
pub proof fn lemma_stable_sorted_no_duplicates<T>(s: Seq<T>, gt: spec_fn(T, T) -> bool)
    requires
        s.no_duplicates(),
    ensures
        stable_sorted(s, gt).no_duplicates(),
    decreases s.len(),
{
    if s.len() > 0 {
        let t = s.drop_last();
        assert(t.no_duplicates()) by {
            assert forall|i: int, j: int| 0 <= i < t.len() && 0 <= j < t.len() && i != j implies t[i] != t[j] by {
                assert(t[i] == s[i] && t[j] == s[j]);
            }
        }
        lemma_stable_sorted_no_duplicates(t, gt);
        let p = stable_sorted(t, gt);
        crate::messages::lemma_sorted_members_all(t, gt);
        assert(!p.contains(s.last())) by {
            if p.contains(s.last()) {
                let k = choose|k: int| 0 <= k < p.len() && p[k] == s.last();
                assert(t.contains(p[k]));
                let m = choose|m: int| 0 <= m < t.len() && t[m] == p[k];
                assert(s[m] == s[s.len() - 1]);
            }
        }
        lemma_insert_no_duplicates(p, s.last(), gt);
    }
}

pub proof fn lemma_insert_members<T>(s: Seq<T>, x: T, gt: spec_fn(T, T) -> bool)
    ensures
        forall|j: int| 0 <= j < sorted_insert(s, x, gt).len() ==> (s.contains(#[trigger] sorted_insert(s, x, gt)[j])
            || sorted_insert(s, x, gt)[j] == x),
    decreases s.len(),
{
    if s.len() > 0 && gt(s.last(), x) {
        lemma_insert_members(s.drop_last(), x, gt);
        let r = sorted_insert(s, x, gt);
        let r0 = sorted_insert(s.drop_last(), x, gt);
        assert forall|j: int| 0 <= j < r.len() implies (s.contains(#[trigger] r[j]) || r[j] == x) by {
            if j < r0.len() {
                assert(r[j] == r0[j]);
                if s.drop_last().contains(r0[j]) {
                    let k = choose|k: int| 0 <= k < s.drop_last().len() && s.drop_last()[k] == r0[j];
                    assert(s[k] == r0[j]);
                }
            } else {
                assert(r[j] == s.last());
                assert(s[s.len() - 1] == s.last());
            }
        }
    } else if s.len() > 0 {
        let r = sorted_insert(s, x, gt);
        assert forall|j: int| 0 <= j < r.len() implies (s.contains(#[trigger] r[j]) || r[j] == x) by {
            if j < s.len() {
                assert(r[j] == s[j]);
            }
        }
    }
}

proof fn lemma_sorted_insert_sorted<T>(s: Seq<T>, x: T, gt: spec_fn(T, T) -> bool)
    requires
        sorted_by(s, gt),
        strict_weak(gt),
    ensures
        sorted_by(sorted_insert(s, x, gt), gt),
    decreases s.len(),
{
    let r = sorted_insert(s, x, gt);
    if s.len() == 0 {
    } else if gt(s.last(), x) {
        let s0 = s.drop_last();
        assert forall|i: int, j: int| 0 <= i < j < s0.len() implies !gt(#[trigger] s0[i], #[trigger] s0[j]) by {
            assert(s0[i] == s[i] && s0[j] == s[j]);
        }
        lemma_sorted_insert_sorted(s0, x, gt);
        lemma_insert_members(s0, x, gt);
        let r0 = sorted_insert(s0, x, gt);
        assert(!gt(x, s.last()));
        assert forall|i: int, j: int| 0 <= i < j < r.len() implies !gt(#[trigger] r[i], #[trigger] r[j]) by {
            assert(r[i] == r0[i]);
            if j < r0.len() {
                assert(r[j] == r0[j]);
            } else {
                assert(r[j] == s.last());
                if s0.contains(r0[i]) {
                    let k = choose|k: int| 0 <= k < s0.len() && s0[k] == r0[i];
                    assert(s[k] == r0[i]);
                    assert(!gt(s[k], s[s.len() - 1]));
                }
            }
        }
    } else {
        assert forall|i: int, j: int| 0 <= i < j < r.len() implies !gt(#[trigger] r[i], #[trigger] r[j]) by {
            assert(r[i] == s[i]);
            if j < s.len() {
                assert(r[j] == s[j]);
            } else {
                assert(r[j] == x);
                if i < s.len() - 1 {
                    assert(!gt(s[i], s[s.len() - 1]));
                    assert(!gt(s[s.len() - 1], x));
                }
            }
        }
    }
}

/// The stable sort of `s` by a strict weak order is sorted.
pub proof fn lemma_stable_sorted_sorted<T>(s: Seq<T>, gt: spec_fn(T, T) -> bool)
    requires
        strict_weak(gt),
    ensures
        sorted_by(stable_sorted(s, gt), gt),
    decreases s.len(),
{
    if s.len() > 0 {
        lemma_stable_sorted_sorted(s.drop_last(), gt);
        lemma_sorted_insert_sorted(stable_sorted(s.drop_last(), gt), s.last(), gt);
    }
}

pub proof fn lemma_sorted_insert_map<A, B>(
    s: Seq<A>,
    x: A,
    f: spec_fn(A) -> B,
    ga: spec_fn(A, A) -> bool,
    gb: spec_fn(B, B) -> bool,
)
    requires
        forall|a: A, b: A| #[trigger] ga(a, b) == gb(f(a), f(b)),
    ensures
        sorted_insert(s, x, ga).map_values(f) == sorted_insert(s.map_values(f), f(x), gb),
    decreases s.len(),
{
    let sm = s.map_values(f);
    if s.len() == 0 {
        assert(sorted_insert(s, x, ga).map_values(f) =~= seq![f(x)]);
    } else {
        assert(sm.last() == f(s.last()));
        assert(sm.drop_last() =~= s.drop_last().map_values(f));
        if ga(s.last(), x) {
            lemma_sorted_insert_map(s.drop_last(), x, f, ga, gb);
            assert(sorted_insert(s, x, ga).map_values(f) =~= sorted_insert(s.drop_last(), x, ga).map_values(f).push(f(s.last())));
        } else {
            assert(sorted_insert(s, x, ga).map_values(f) =~= sm.push(f(x)));
        }
    }
}

/// Sorting commutes with a map through which the order is defined.
pub proof fn lemma_stable_sorted_map<A, B>(
    s: Seq<A>,
    f: spec_fn(A) -> B,
    ga: spec_fn(A, A) -> bool,
    gb: spec_fn(B, B) -> bool,
)
    requires
        forall|a: A, b: A| #[trigger] ga(a, b) == gb(f(a), f(b)),
    ensures
        stable_sorted(s, ga).map_values(f) == stable_sorted(s.map_values(f), gb),
    decreases s.len(),
{
    let sm = s.map_values(f);
    if s.len() == 0 {
        assert(stable_sorted(s, ga).map_values(f) =~= sm);
    } else {
        lemma_stable_sorted_map(s.drop_last(), f, ga, gb);
        assert(sm.drop_last() =~= s.drop_last().map_values(f));
        assert(sm.last() == f(s.last()));
        lemma_sorted_insert_map(stable_sorted(s.drop_last(), ga), s.last(), f, ga, gb);
    }
}

/// Sorts `v` stably by the strict order that `gt` computes.
pub(crate) fn stable_sort<T, F: Fn(&T, &T) -> bool>(
    v: Vec<T>,
    gt: F,
    Ghost(g): Ghost<spec_fn(T, T) -> bool>,
) -> (r: Vec<T>)
    requires
        forall|a: &T, b: &T| #[trigger] gt.requires((a, b)),
        forall|a: &T, b: &T, r: bool| gt.ensures((a, b), r) ==> r == g(*a, *b),
    ensures
        r@ == stable_sorted(v@, g),
{
    let ghost v0 = v@;
    let mut rest = v;
    let mut out: Vec<T> = Vec::new();
    let mut i: usize = 0;
    let n = rest.len();
    while rest.len() > 0
        invariant
            n == v0.len(),
            i + rest.len() == n,
            rest@ == v0.skip(i as int),
            out@ == stable_sorted(v0.take(i as int), g),
            forall|a: &T, b: &T| #[trigger] gt.requires((a, b)),
            forall|a: &T, b: &T, r: bool| gt.ensures((a, b), r) ==> r == g(*a, *b),
        decreases rest.len(),
    {
        let x = rest.remove(0);
        assert(x == v0[i as int]);
        assert(rest@ =~= v0.skip(i + 1));
        let ghost s = out@;
        // scan back over the elements that sort after `x`
        let mut p: usize = out.len();
        assert(s.take(s.len() as int) =~= s);
        assert(s.skip(s.len() as int) =~= Seq::<T>::empty());
        while p > 0 && gt(&out[p - 1], &x)
            invariant
                out@ == s,
                0 <= p <= s.len(),
                sorted_insert(s, x, g) == sorted_insert(s.take(p as int), x, g) + s.skip(p as int),
                forall|a: &T, b: &T| #[trigger] gt.requires((a, b)),
                forall|a: &T, b: &T, r: bool| gt.ensures((a, b), r) ==> r == g(*a, *b),
            decreases p,
        {
            proof {
                let t = s.take(p as int);
                assert(t.last() == s[p - 1]);
                assert(t.drop_last() =~= s.take(p - 1));
                assert(sorted_insert(t, x, g) == sorted_insert(s.take(p - 1), x, g).push(s[p - 1]));
                assert(sorted_insert(s.take(p - 1), x, g).push(s[p - 1]) + s.skip(p as int)
                    =~= sorted_insert(s.take(p - 1), x, g) + s.skip(p - 1));
            }
            p = p - 1;
        }
        proof {
            let t = s.take(p as int);
            if p == 0 {
                assert(t =~= Seq::<T>::empty());
                assert(sorted_insert(t, x, g) =~= seq![x]);
            } else {
                assert(t.last() == s[p - 1]);
                assert(sorted_insert(t, x, g) == t.push(x));
            }
            assert(s.insert(p as int, x) =~= sorted_insert(t, x, g) + s.skip(p as int));
            assert(v0.take(i + 1).drop_last() =~= v0.take(i as int));
            assert(v0.take(i + 1).last() == x);
        }
        out.insert(p, x);
        i = i + 1;
    }
    assert(v0.take(n as int) =~= v0);
    out
}

} // verus!
