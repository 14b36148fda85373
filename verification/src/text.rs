//! Character-level text primitives shared by the parsers.
//!
//! Every parser in this crate works on the characters of its input (`Vec<char>`)
//! and on spans `[a, b)` into them. The spec functions here give the meaning of
//! the `str` operations that the parsers rely on (`lines`, `trim`,
//! `split_once`, `split_whitespace().next()`, `parse::<u64>()`, ...), and the
//! executable functions compute them on spans.

use vstd::prelude::*;

verus! {

// ─── Spec model ───────────────────────────────────────────────────────────────

/// Unicode `White_Space`, as tested by `char::is_whitespace`.
pub open spec fn is_ws(c: char) -> bool {
    ||| c == ' '
    ||| ('\t' <= c && c <= '\r')
    ||| c == '\u{85}'
    ||| c == '\u{a0}'
    ||| c == '\u{1680}'
    ||| ('\u{2000}' <= c && c <= '\u{200a}')
    ||| c == '\u{2028}'
    ||| c == '\u{2029}'
    ||| c == '\u{202f}'
    ||| c == '\u{205f}'
    ||| c == '\u{3000}'
}

/// Index of the first occurrence of `c` in `s`, or `-1`.
pub open spec fn find(s: Seq<char>, c: char) -> int
    decreases s.len(),
{
    if s.len() == 0 {
        -1
    } else if s[0] == c {
        0
    } else {
        let r = find(s.drop_first(), c);
        if r < 0 {
            -1
        } else {
            r + 1
        }
    }
}

/// Index of the first whitespace character in `s`, or `-1`.
pub open spec fn find_ws(s: Seq<char>) -> int
    decreases s.len(),
{
    if s.len() == 0 {
        -1
    } else if is_ws(s[0]) {
        0
    } else {
        let r = find_ws(s.drop_first());
        if r < 0 {
            -1
        } else {
            r + 1
        }
    }
}

/// Drops one trailing `'\r'`.
pub open spec fn strip_cr(l: Seq<char>) -> Seq<char> {
    if l.len() > 0 && l.last() == '\r' {
        l.drop_last()
    } else {
        l
    }
}

/// `str::lines`: split at `'\n'`, drop a `'\r'` right before each `'\n'`,
/// and no empty line after a final `'\n'`.
pub open spec fn lines(s: Seq<char>) -> Seq<Seq<char>>
    decreases s.len(),
{
    if s.len() == 0 {
        seq![]
    } else {
        let i = find(s, '\n');
        if i < 0 || i >= s.len() {
            seq![s]
        } else {
            seq![strip_cr(s.take(i))] + lines(s.skip(i + 1))
        }
    }
}

/// `str::trim_start`.
pub open spec fn trim_start(s: Seq<char>) -> Seq<char>
    decreases s.len(),
{
    if s.len() > 0 && is_ws(s[0]) {
        trim_start(s.drop_first())
    } else {
        s
    }
}

/// `str::trim_end`.
pub open spec fn trim_end(s: Seq<char>) -> Seq<char>
    decreases s.len(),
{
    if s.len() > 0 && is_ws(s.last()) {
        trim_end(s.drop_last())
    } else {
        s
    }
}

/// `str::trim`.
pub open spec fn trim(s: Seq<char>) -> Seq<char> {
    trim_end(trim_start(s))
}

/// `str::split_once(c)`: the text before and after the first `c`.
pub open spec fn split_once(s: Seq<char>, c: char) -> Option<(Seq<char>, Seq<char>)> {
    let i = find(s, c);
    if i < 0 {
        None
    } else {
        Some((s.take(i), s.skip(i + 1)))
    }
}

/// `str::split_whitespace().next()`: the first whitespace-free run.
pub open spec fn first_token(s: Seq<char>) -> Option<Seq<char>> {
    let t = trim_start(s);
    if t.len() == 0 {
        None
    } else {
        let e = find_ws(t);
        if e < 0 {
            Some(t)
        } else {
            Some(t.take(e))
        }
    }
}

/// `str::starts_with`.
pub open spec fn starts_with(s: Seq<char>, p: Seq<char>) -> bool {
    p.len() <= s.len() && s.take(p.len() as int) == p
}

/// `str::ends_with`.
pub open spec fn ends_with(s: Seq<char>, p: Seq<char>) -> bool {
    p.len() <= s.len() && s.skip(s.len() - p.len()) == p
}

/// `str::contains`: `p` occurs somewhere in `s`.
pub open spec fn contains(s: Seq<char>, p: Seq<char>) -> bool {
    exists|i: int| 0 <= i && i + p.len() <= s.len() && #[trigger] s.subrange(i, i + p.len()) == p
}

pub open spec fn is_digit(c: char) -> bool {
    '0' <= c && c <= '9'
}

pub open spec fn all_digits(s: Seq<char>) -> bool {
    forall|i: int| 0 <= i < s.len() ==> is_digit(#[trigger] s[i])
}

/// The number written by the decimal digits `s`.
pub open spec fn digits_val(s: Seq<char>) -> nat
    decreases s.len(),
{
    if s.len() == 0 {
        0
    } else {
        digits_val(s.drop_last()) * 10 + ((s.last() as int - '0' as int) as nat)
    }
}

/// The digits that `parse` reads for an unsigned type: a leading `'+'` is
/// skipped when something follows it.
pub open spec fn unsigned_digits(s: Seq<char>) -> Seq<char> {
    if s.len() > 1 && s[0] == '+' {
        s.drop_first()
    } else {
        s
    }
}

/// The value that `parse` gives an unsigned type for `s`, before the range check.
pub open spec fn parse_nat(s: Seq<char>) -> Option<nat> {
    let d = unsigned_digits(s);
    if d.len() > 0 && all_digits(d) {
        Some(digits_val(d))
    } else {
        None
    }
}

/// `s.parse::<u64>().ok()`.
pub open spec fn parse_u64(s: Seq<char>) -> Option<u64> {
    match parse_nat(s) {
        Some(v) => if v <= u64::MAX {
            Some(v as u64)
        } else {
            None
        },
        None => None,
    }
}

/// `s.parse::<u32>().ok()`.
pub open spec fn parse_u32(s: Seq<char>) -> Option<u32> {
    match parse_nat(s) {
        Some(v) => if v <= u32::MAX {
            Some(v as u32)
        } else {
            None
        },
        None => None,
    }
}

/// `s.parse::<u64>().unwrap_or(0)`.
pub open spec fn u64_or_zero(s: Seq<char>) -> u64 {
    match parse_u64(s) {
        Some(v) => v,
        None => 0,
    }
}

/// `s.split_whitespace().next().unwrap_or("0").parse::<u64>().unwrap_or(0)`.
pub open spec fn first_u64_or_zero(s: Seq<char>) -> u64 {
    match first_token(s) {
        Some(t) => u64_or_zero(t),
        None => 0,
    }
}


/// Index of the first occurrence of `p` in `s`, or `-1`.
pub open spec fn find_sub(s: Seq<char>, p: Seq<char>) -> int
    decreases s.len(),
{
    if p.len() > s.len() {
        -1
    } else if s.take(p.len() as int) == p {
        0
    } else if s.len() == 0 {
        -1
    } else {
        let r = find_sub(s.drop_first(), p);
        if r < 0 {
            -1
        } else {
            r + 1
        }
    }
}

/// Index of the last occurrence of `c` in `s`, or `-1`.
pub open spec fn rfind(s: Seq<char>, c: char) -> int
    decreases s.len(),
{
    if s.len() == 0 {
        -1
    } else if s.last() == c {
        s.len() - 1
    } else {
        rfind(s.drop_last(), c)
    }
}

/// `s.rsplit(c).next()`: the text after the last `c`, or all of `s`.
pub open spec fn last_segment(s: Seq<char>, c: char) -> Seq<char> {
    let i = rfind(s, c);
    if i < 0 {
        s
    } else {
        s.skip(i + 1)
    }
}

/// `str::trim_end_matches(c)`: drops every trailing `c`.
pub open spec fn trim_end_char(s: Seq<char>, c: char) -> Seq<char>
    decreases s.len(),
{
    if s.len() > 0 && s.last() == c {
        trim_end_char(s.drop_last(), c)
    } else {
        s
    }
}

/// `str::split_whitespace`: the maximal whitespace-free runs, in order.
pub open spec fn words(s: Seq<char>) -> Seq<Seq<char>>
    decreases s.len(),
{
    let t = trim_start(s);
    if t.len() == 0 {
        seq![]
    } else {
        let e = find_ws(t);
        if e <= 0 || e >= t.len() || t.len() > s.len() {
            seq![t]
        } else {
            seq![t.take(e)] + words(t.skip(e))
        }
    }
}

/// `str::trim_start_matches(p)`: drops every leading copy of `p`.
pub open spec fn trim_start_matches(s: Seq<char>, p: Seq<char>) -> Seq<char>
    decreases s.len(),
{
    if p.len() > 0 && starts_with(s, p) {
        trim_start_matches(s.skip(p.len() as int), p)
    } else {
        s
    }
}

/// `str::trim_end_matches(p)`: drops every trailing copy of `p`.
pub open spec fn trim_end_matches(s: Seq<char>, p: Seq<char>) -> Seq<char>
    decreases s.len(),
{
    if p.len() > 0 && ends_with(s, p) {
        trim_end_matches(s.take(s.len() - p.len()), p)
    } else {
        s
    }
}

// ─── Lemmas ───────────────────────────────────────────────────────────────────

pub proof fn lemma_find_bounds(s: Seq<char>, c: char)
    ensures
        -1 <= find(s, c) < s.len(),
        find(s, c) >= 0 ==> s[find(s, c)] == c,
        find(s, c) >= 0 ==> forall|j: int| 0 <= j < find(s, c) ==> s[j] != c,
        find(s, c) < 0 ==> forall|j: int| 0 <= j < s.len() ==> s[j] != c,
    decreases s.len(),
{
    if s.len() > 0 && s[0] != c {
        lemma_find_bounds(s.drop_first(), c);
        assert forall|j: int| 1 <= j < s.len() implies s[j] == s.drop_first()[j - 1] by {}
    }
}

/// `find` is determined by the first match.
pub proof fn lemma_find_is(s: Seq<char>, c: char, i: int)
    requires
        -1 <= i < s.len(),
        i >= 0 ==> s[i] == c,
        forall|j: int| 0 <= j < (if i < 0 { s.len() as int } else { i }) ==> s[j] != c,
    ensures
        find(s, c) == i,
{
    lemma_find_bounds(s, c);
}

/// Text that ends a line (or is empty) followed by more text splits into the
/// lines of each part.
pub proof fn lemma_lines_append(c: Seq<char>, t: Seq<char>)
    requires
        c.len() == 0 || c.last() == '\n',
    ensures
        lines(c + t) == lines(c) + lines(t),
    decreases c.len(),
{
    if c.len() == 0 {
        assert(c + t =~= t);
        assert(lines(c) + lines(t) =~= lines(t));
    } else {
        lemma_find_bounds(c, '\n');
        let i = find(c, '\n');
        assert(i >= 0) by {
            if i < 0 {
                assert(c[c.len() - 1] != '\n');
            }
        }
        let ct = c + t;
        assert forall|j: int| 0 <= j < i implies ct[j] != '\n' by {
            assert(ct[j] == c[j]);
        }
        assert(ct[i] == c[i]);
        lemma_find_is(ct, '\n', i);
        assert(ct.take(i) =~= c.take(i));
        assert(ct.skip(i + 1) =~= c.skip(i + 1) + t);
        let rest = c.skip(i + 1);
        assert(rest.len() == 0 || rest.last() == '\n') by {
            if rest.len() > 0 {
                assert(rest.last() == c.last());
            }
        }
        lemma_lines_append(rest, t);
        assert(lines(ct) == seq![strip_cr(c.take(i))] + lines(rest + t));
        assert(lines(c) == seq![strip_cr(c.take(i))] + lines(rest));
        assert(seq![strip_cr(c.take(i))] + (lines(rest) + lines(t)) =~= (seq![strip_cr(c.take(i))]
            + lines(rest)) + lines(t));
    }
}

/// A line without a line break, followed by one, is that single line (with a
/// trailing `'\r'` dropped).
pub proof fn lemma_lines_single(l: Seq<char>)
    requires
        forall|j: int| 0 <= j < l.len() ==> l[j] != '\n',
    ensures
        lines(l + seq!['\n']) == seq![strip_cr(l)],
{
    let s = l + seq!['\n'];
    assert forall|j: int| 0 <= j < l.len() implies s[j] != '\n' by {
        assert(s[j] == l[j]);
    }
    lemma_find_is(s, '\n', l.len() as int);
    assert(s.take(l.len() as int) =~= l);
    assert(s.skip(l.len() as int + 1) =~= Seq::<char>::empty());
    assert(lines(Seq::<char>::empty()) =~= Seq::<Seq<char>>::empty());
    assert(lines(s) == seq![strip_cr(s.take(l.len() as int))] + lines(s.skip(l.len() as int + 1)));
    assert(seq![strip_cr(l)] + Seq::<Seq<char>>::empty() =~= seq![strip_cr(l)]);
}

pub proof fn lemma_find_ws_bounds(s: Seq<char>)
    ensures
        -1 <= find_ws(s) < s.len(),
        find_ws(s) >= 0 ==> is_ws(s[find_ws(s)]),
        find_ws(s) >= 0 ==> forall|j: int| 0 <= j < find_ws(s) ==> !is_ws(s[j]),
        find_ws(s) < 0 ==> forall|j: int| 0 <= j < s.len() ==> !is_ws(s[j]),
    decreases s.len(),
{
    if s.len() > 0 && !is_ws(s[0]) {
        lemma_find_ws_bounds(s.drop_first());
        assert forall|j: int| 1 <= j < s.len() implies s[j] == s.drop_first()[j - 1] by {}
    }
}

pub proof fn lemma_find_ws_is(s: Seq<char>, i: int)
    requires
        -1 <= i < s.len(),
        i >= 0 ==> is_ws(s[i]),
        forall|j: int| 0 <= j < (if i < 0 { s.len() as int } else { i }) ==> !is_ws(s[j]),
    ensures
        find_ws(s) == i,
{
    lemma_find_ws_bounds(s);
}

/// `trim_start` of a span skips exactly the leading whitespace.
pub proof fn lemma_trim_start_span(s: Seq<char>, a: int, a2: int, b: int)
    requires
        0 <= a <= a2 <= b <= s.len(),
        forall|j: int| a <= j < a2 ==> is_ws(s[j]),
        a2 == b || !is_ws(s[a2]),
    ensures
        trim_start(s.subrange(a, b)) == s.subrange(a2, b),
    decreases a2 - a,
{
    if a < a2 {
        assert(s.subrange(a, b).drop_first() =~= s.subrange(a + 1, b));
        lemma_trim_start_span(s, a + 1, a2, b);
    }
}

/// `trim_end` of a span drops exactly the trailing whitespace.
pub proof fn lemma_trim_end_span(s: Seq<char>, a: int, b2: int, b: int)
    requires
        0 <= a <= b2 <= b <= s.len(),
        forall|j: int| b2 <= j < b ==> is_ws(s[j]),
        b2 == a || !is_ws(s[b2 - 1]),
    ensures
        trim_end(s.subrange(a, b)) == s.subrange(a, b2),
    decreases b - b2,
{
    if b2 < b {
        assert(s.subrange(a, b).drop_last() =~= s.subrange(a, b - 1));
        lemma_trim_end_span(s, a, b2, b - 1);
    }
}


pub proof fn lemma_trim_start_len(s: Seq<char>)
    ensures
        trim_start(s).len() <= s.len(),
        trim_start(s).len() > 0 ==> !is_ws(trim_start(s)[0]),
        exists|k: int| 0 <= k <= s.len() && trim_start(s) == #[trigger] s.skip(k),
    decreases s.len(),
{
    if s.len() > 0 && is_ws(s[0]) {
        lemma_trim_start_len(s.drop_first());
        let k = choose|k: int| 0 <= k <= s.drop_first().len() && trim_start(s.drop_first()) == #[trigger] s.drop_first().skip(k);
        assert(s.drop_first().skip(k) =~= s.skip(k + 1));
    } else {
        assert(s.skip(0) =~= s);
    }
}


pub proof fn lemma_find_sub_is(s: Seq<char>, p: Seq<char>, i: int)
    requires
        -1 <= i <= s.len(),
        i >= 0 ==> i + p.len() <= s.len() && s.subrange(i, i + p.len()) == p,
        forall|j: int|
            0 <= j < (if i < 0 { s.len() as int + 1 } else { i }) && j + p.len() <= s.len()
                ==> #[trigger] s.subrange(j, j + p.len()) != p,
    ensures
        find_sub(s, p) == i,
    decreases s.len(),
{
    if p.len() > s.len() {
        if i >= 0 {
            assert(false);
        }
    } else if s.take(p.len() as int) == p {
        assert(s.subrange(0, 0 + p.len() as int) == s.take(p.len() as int));
        if i != 0 {
            assert(false);
        }
    } else if s.len() == 0 {
        assert(s.take(p.len() as int) =~= p);
    } else {
        assert(s.subrange(0, 0 + p.len() as int) == s.take(p.len() as int));
        let t = s.drop_first();
        let i2 = if i < 0 { -1 } else { i - 1 };
        if i == 0 {
            assert(false);
        }
        assert forall|j: int|
            0 <= j < (if i2 < 0 { t.len() as int + 1 } else { i2 }) && j + p.len() <= t.len()
                implies #[trigger] t.subrange(j, j + p.len()) != p by {
            assert(t.subrange(j, j + p.len()) =~= s.subrange(j + 1, j + 1 + p.len()));
        }
        if i2 >= 0 {
            assert(t.subrange(i2, i2 + p.len()) =~= s.subrange(i, i + p.len()));
        }
        lemma_find_sub_is(t, p, i2);
    }
}

pub proof fn lemma_rfind_is(s: Seq<char>, c: char, i: int)
    requires
        -1 <= i < s.len(),
        i >= 0 ==> s[i] == c,
        forall|j: int| i < j < s.len() ==> s[j] != c,
    ensures
        rfind(s, c) == i,
    decreases s.len(),
{
    if s.len() > 0 && s.last() != c {
        lemma_rfind_is(s.drop_last(), c, i);
    }
}

pub proof fn lemma_trim_end_char_span(s: Seq<char>, a: int, e: int, b: int, c: char)
    requires
        0 <= a <= e <= b <= s.len(),
        forall|j: int| e <= j < b ==> s[j] == c,
        e == a || s[e - 1] != c,
    ensures
        trim_end_char(s.subrange(a, b), c) == s.subrange(a, e),
    decreases b - e,
{
    if e < b {
        assert(s.subrange(a, b).drop_last() =~= s.subrange(a, b - 1));
        lemma_trim_end_char_span(s, a, e, b - 1, c);
    }
}

pub proof fn lemma_digits_val_push(s: Seq<char>, c: char)
    ensures
        digits_val(s.push(c)) == digits_val(s) * 10 + ((c as int - '0' as int) as nat),
{
    assert(s.push(c).drop_last() =~= s);
}

// ─── Executable primitives ────────────────────────────────────────────────────

/// The characters of `s`, in order.
pub fn chars_of(s: &str) -> (out: Vec<char>)
    ensures
        out@ == s@,
{
    let mut out: Vec<char> = Vec::new();
    for c in it: s.chars()
        invariant
            out@ == it.seq().take(it.index() as int),
            it.seq() == s@,
    {
        out.push(c);
    }
    out
}

/// Appends one character to a string.
#[verifier::external_body]
pub(crate) fn push_char(s: &mut String, c: char)
    ensures
        final(s)@ == old(s)@.push(c),
{
    s.push(c);
}

/// An owned copy of the span `[a, b)`.
pub fn string_of(s: &Vec<char>, a: usize, b: usize) -> (out: String)
    requires
        a <= b <= s.len(),
    ensures
        out@ == s@.subrange(a as int, b as int),
{
    let mut out = String::new();
    let mut i = a;
    while i < b
        invariant
            a <= i <= b <= s.len(),
            out@ == s@.subrange(a as int, i as int),
        decreases b - i,
    {
        push_char(&mut out, s[i]);
        assert(s@.subrange(a as int, i + 1) =~= s@.subrange(a as int, i as int).push(s@[i as int]));
        i = i + 1;
    }
    out
}

/// An owned copy of a literal.
pub fn string_lit(lit: &str) -> (out: String)
    ensures
        out@ == lit@,
{
    let cs = chars_of(lit);
    let out = string_of(&cs, 0, cs.len());
    assert(cs@.subrange(0, cs@.len() as int) =~= cs@);
    out
}

/// `char::is_whitespace`.
pub fn char_is_ws(c: char) -> (r: bool)
    ensures
        r == is_ws(c),
{
    c == ' ' || ('\t' <= c && c <= '\r') || c == '\u{85}' || c == '\u{a0}' || c == '\u{1680}'
        || ('\u{2000}' <= c && c <= '\u{200a}') || c == '\u{2028}' || c == '\u{2029}' || c
        == '\u{202f}' || c == '\u{205f}' || c == '\u{3000}'
}

/// Position of the first `c` in the span `[a, b)`.
pub fn find_in(s: &Vec<char>, a: usize, b: usize, c: char) -> (r: Option<usize>)
    requires
        a <= b <= s.len(),
    ensures
        match r {
            Some(i) => a <= i < b && find(s@.subrange(a as int, b as int), c) == i - a,
            None => find(s@.subrange(a as int, b as int), c) == -1,
        },
{
    let ghost sub = s@.subrange(a as int, b as int);
    let mut i = a;
    while i < b
        invariant
            a <= i <= b <= s.len(),
            sub == s@.subrange(a as int, b as int),
            forall|j: int| a <= j < i ==> s@[j] != c,
        decreases b - i,
    {
        if s[i] == c {
            proof {
                lemma_find_is(sub, c, i - a);
            }
            return Some(i);
        }
        i = i + 1;
    }
    proof {
        lemma_find_is(sub, c, -1);
    }
    None
}

/// Position of the first whitespace character in the span `[a, b)`.
pub fn find_ws_in(s: &Vec<char>, a: usize, b: usize) -> (r: Option<usize>)
    requires
        a <= b <= s.len(),
    ensures
        match r {
            Some(i) => a <= i < b && find_ws(s@.subrange(a as int, b as int)) == i - a,
            None => find_ws(s@.subrange(a as int, b as int)) == -1,
        },
{
    let ghost sub = s@.subrange(a as int, b as int);
    let mut i = a;
    while i < b
        invariant
            a <= i <= b <= s.len(),
            sub == s@.subrange(a as int, b as int),
            forall|j: int| a <= j < i ==> !is_ws(s@[j]),
        decreases b - i,
    {
        if char_is_ws(s[i]) {
            proof {
                lemma_find_ws_is(sub, i - a);
            }
            return Some(i);
        }
        i = i + 1;
    }
    proof {
        lemma_find_ws_is(sub, -1);
    }
    None
}

/// `trim_start` on a span: the new start.
pub fn trim_start_in(s: &Vec<char>, a: usize, b: usize) -> (r: usize)
    requires
        a <= b <= s.len(),
    ensures
        a <= r <= b,
        s@.subrange(r as int, b as int) == trim_start(s@.subrange(a as int, b as int)),
{
    let mut i = a;
    while i < b && char_is_ws(s[i])
        invariant
            a <= i <= b <= s.len(),
            forall|j: int| a <= j < i ==> is_ws(s@[j]),
        decreases b - i,
    {
        i = i + 1;
    }
    proof {
        lemma_trim_start_span(s@, a as int, i as int, b as int);
    }
    i
}

/// `trim` on a span: the trimmed span.
pub fn trim_in(s: &Vec<char>, a: usize, b: usize) -> (r: (usize, usize))
    requires
        a <= b <= s.len(),
    ensures
        a <= r.0 <= r.1 <= b,
        s@.subrange(r.0 as int, r.1 as int) == trim(s@.subrange(a as int, b as int)),
{
    let a2 = trim_start_in(s, a, b);
    let mut e = b;
    while e > a2 && char_is_ws(s[e - 1])
        invariant
            a2 <= e <= b <= s.len(),
            forall|j: int| e <= j < b ==> is_ws(s@[j]),
        decreases e,
    {
        e = e - 1;
    }
    proof {
        lemma_trim_end_span(s@, a2 as int, e as int, b as int);
    }
    (a2, e)
}

/// `split_once(c)` on a span: the position of the separator.
pub fn split_once_in(s: &Vec<char>, a: usize, b: usize, c: char) -> (r: Option<usize>)
    requires
        a <= b <= s.len(),
    ensures
        match r {
            Some(i) => a <= i < b && split_once(s@.subrange(a as int, b as int), c) == Some(
                (s@.subrange(a as int, i as int), s@.subrange(i + 1, b as int)),
            ),
            None => split_once(s@.subrange(a as int, b as int), c) is None,
        },
{
    let r = find_in(s, a, b, c);
    match r {
        Some(i) => {
            assert(s@.subrange(a as int, b as int).take(i - a) =~= s@.subrange(a as int, i as int));
            assert(s@.subrange(a as int, b as int).skip(i - a + 1) =~= s@.subrange(
                i + 1,
                b as int,
            ));
        },
        None => {},
    }
    r
}

/// `split_whitespace().next()` on a span.
pub fn first_token_in(s: &Vec<char>, a: usize, b: usize) -> (r: Option<(usize, usize)>)
    requires
        a <= b <= s.len(),
    ensures
        match r {
            Some((x, y)) => a <= x <= y <= b && first_token(s@.subrange(a as int, b as int))
                == Some(s@.subrange(x as int, y as int)),
            None => first_token(s@.subrange(a as int, b as int)) is None,
        },
{
    let x = trim_start_in(s, a, b);
    if x == b {
        return None;
    }
    let ghost t = s@.subrange(x as int, b as int);
    match find_ws_in(s, x, b) {
        Some(e) => {
            assert(t.take(e - x) =~= s@.subrange(x as int, e as int));
            Some((x, e))
        },
        None => Some((x, b)),
    }
}

/// Whether the span `[a, b)` equals the literal.
pub fn span_eq(s: &Vec<char>, a: usize, b: usize, lit: &str) -> (r: bool)
    requires
        a <= b <= s.len(),
    ensures
        r == (s@.subrange(a as int, b as int) == lit@),
{
    let p = chars_of(lit);
    if b - a != p.len() {
        assert(s@.subrange(a as int, b as int).len() != lit@.len());
        return false;
    }
    let mut i: usize = 0;
    while i < p.len()
        invariant
            a <= b <= s.len(),
            b - a == p.len(),
            p@ == lit@,
            0 <= i <= p.len(),
            forall|j: int| 0 <= j < i ==> s@[a + j] == p@[j],
        decreases p.len() - i,
    {
        if s[a + i] != p[i] {
            assert(s@.subrange(a as int, b as int)[i as int] == s@[a + i]);
            assert(lit@[i as int] == p@[i as int]);
            return false;
        }
        i = i + 1;
    }
    assert(s@.subrange(a as int, b as int) =~= p@);
    true
}

/// Whether the span `[a, b)` starts with the literal.
pub fn span_starts_with(s: &Vec<char>, a: usize, b: usize, lit: &str) -> (r: bool)
    requires
        a <= b <= s.len(),
    ensures
        r == starts_with(s@.subrange(a as int, b as int), lit@),
{
    let n = lit.unicode_len();
    if n > b - a {
        return false;
    }
    let r = span_eq(s, a, a + n, lit);
    assert(s@.subrange(a as int, b as int).take(n as int) =~= s@.subrange(a as int, a + n));
    r
}

/// Whether the span `[a, b)` ends with the literal.
pub fn span_ends_with(s: &Vec<char>, a: usize, b: usize, lit: &str) -> (r: bool)
    requires
        a <= b <= s.len(),
    ensures
        r == ends_with(s@.subrange(a as int, b as int), lit@),
{
    let n = lit.unicode_len();
    if n > b - a {
        return false;
    }
    let r = span_eq(s, b - n, b, lit);
    assert(s@.subrange(a as int, b as int).skip((b - a) - n) =~= s@.subrange(b - n, b as int));
    r
}

/// Whether the literal occurs in the span `[a, b)`.
pub fn span_contains(s: &Vec<char>, a: usize, b: usize, lit: &str) -> (r: bool)
    requires
        a <= b <= s.len(),
    ensures
        r == contains(s@.subrange(a as int, b as int), lit@),
{
    let ghost sub = s@.subrange(a as int, b as int);
    let n = lit.unicode_len();
    if n > b - a {
        assert(!contains(sub, lit@));
        return false;
    }
    if n == 0 {
        assert(sub.subrange(0, 0 + lit@.len() as int) =~= lit@);
        return true;
    }
    let last = b - n;
    let mut i = a;
    while i <= last
        invariant
            a <= i <= last + 1,
            last + n == b,
            b <= s.len(),
            n >= 1,
            n == lit@.len(),
            sub == s@.subrange(a as int, b as int),
            forall|j: int| 0 <= j < i - a ==> #[trigger] sub.subrange(j, j + n) != lit@,
        decreases last + 1 - i,
    {
        if span_eq(s, i, i + n, lit) {
            assert(sub.subrange(i - a, i - a + n) =~= s@.subrange(i as int, i + n));
            return true;
        }
        assert(sub.subrange(i - a, i - a + n) =~= s@.subrange(i as int, i + n));
        i = i + 1;
    }
    assert forall|j: int| 0 <= j && j + n <= sub.len() implies #[trigger] sub.subrange(j, j + n)
        != lit@ by {}
    false
}


/// Position of the first occurrence of the literal in the span `[a, b)`.
pub fn find_sub_in(s: &Vec<char>, a: usize, b: usize, lit: &str) -> (r: Option<usize>)
    requires
        a <= b <= s.len(),
    ensures
        match r {
            Some(i) => a <= i && i + lit@.len() <= b && find_sub(s@.subrange(a as int, b as int), lit@)
                == i - a,
            None => find_sub(s@.subrange(a as int, b as int), lit@) == -1,
        },
        r is Some <==> contains(s@.subrange(a as int, b as int), lit@),
{
    let ghost sub = s@.subrange(a as int, b as int);
    let n = lit.unicode_len();
    if n > b - a {
        proof {
            lemma_find_sub_is(sub, lit@, -1);
        }
        return None;
    }
    let last = b - n;
    let mut i = a;
    while i <= last
        invariant
            a <= i <= last + 1,
            last + n == b,
            b <= s.len(),
            n == lit@.len(),
            sub == s@.subrange(a as int, b as int),
            forall|j: int| 0 <= j < i - a ==> #[trigger] sub.subrange(j, j + n) != lit@,
        decreases last + 1 - i,
    {
        assert(sub.subrange(i - a, i - a + n) =~= s@.subrange(i as int, i + n));
        if span_eq(s, i, i + n, lit) {
            proof {
                lemma_find_sub_is(sub, lit@, i - a);
            }
            return Some(i);
        }
        if i == last {
            proof {
                lemma_find_sub_is(sub, lit@, -1);
            }
            assert forall|j: int| 0 <= j && j + n <= sub.len() implies #[trigger] sub.subrange(j, j + n)
                != lit@ by {}
            return None;
        }
        i = i + 1;
    }
    proof {
        lemma_find_sub_is(sub, lit@, -1);
    }
    None
}

/// Position of the last `c` in the span `[a, b)`.
pub fn rfind_in(s: &Vec<char>, a: usize, b: usize, c: char) -> (r: Option<usize>)
    requires
        a <= b <= s.len(),
    ensures
        match r {
            Some(i) => a <= i < b && rfind(s@.subrange(a as int, b as int), c) == i - a,
            None => rfind(s@.subrange(a as int, b as int), c) == -1,
        },
{
    let ghost sub = s@.subrange(a as int, b as int);
    let mut i = b;
    while i > a
        invariant
            a <= i <= b <= s.len(),
            sub == s@.subrange(a as int, b as int),
            forall|j: int| i <= j < b ==> s@[j] != c,
        decreases i,
    {
        if s[i - 1] == c {
            proof {
                lemma_rfind_is(sub, c, i - 1 - a);
            }
            return Some(i - 1);
        }
        i = i - 1;
    }
    proof {
        lemma_rfind_is(sub, c, -1);
    }
    None
}

/// `trim_end_matches(c)` on a span: the new end.
pub fn trim_end_char_in(s: &Vec<char>, a: usize, b: usize, c: char) -> (r: usize)
    requires
        a <= b <= s.len(),
    ensures
        a <= r <= b,
        s@.subrange(a as int, r as int) == trim_end_char(s@.subrange(a as int, b as int), c),
{
    let mut e = b;
    while e > a && s[e - 1] == c
        invariant
            a <= e <= b <= s.len(),
            forall|j: int| e <= j < b ==> s@[j] == c,
        decreases e,
    {
        e = e - 1;
    }
    proof {
        lemma_trim_end_char_span(s@, a as int, e as int, b as int, c);
    }
    e
}

/// The spans of `split_whitespace` in `[a, b)`.
pub fn word_spans(s: &Vec<char>, a: usize, b: usize) -> (r: Vec<(usize, usize)>)
    requires
        a <= b <= s.len(),
    ensures
        r.len() == words(s@.subrange(a as int, b as int)).len(),
        forall|k: int|
            0 <= k < r.len() ==> {
                &&& a <= (#[trigger] r@[k]).0 <= r@[k].1 <= b
                &&& s@.subrange(r@[k].0 as int, r@[k].1 as int) == words(
                    s@.subrange(a as int, b as int),
                )[k]
            },
{
    let ghost all = words(s@.subrange(a as int, b as int));
    let mut r: Vec<(usize, usize)> = Vec::new();
    let mut pos = a;
    assert(all.skip(0) =~= all);
    while pos < b
        invariant
            a <= pos <= b <= s.len(),
            all == words(s@.subrange(a as int, b as int)),
            r.len() <= all.len(),
            all.skip(r.len() as int) == words(s@.subrange(pos as int, b as int)),
            forall|k: int|
                0 <= k < r.len() ==> {
                    &&& a <= (#[trigger] r@[k]).0 <= r@[k].1 <= b
                    &&& s@.subrange(r@[k].0 as int, r@[k].1 as int) == all[k]
                },
        decreases b - pos,
    {
        let ghost rest = s@.subrange(pos as int, b as int);
        let x = trim_start_in(s, pos, b);
        if x == b {
            assert(words(rest) =~= Seq::<Seq<char>>::empty());
            pos = b;
        } else {
            let ghost t = s@.subrange(x as int, b as int);
            let ghost old_len = r.len() as int;
            match find_ws_in(s, x, b) {
                Some(e) => {
                    proof {
                        lemma_find_ws_bounds(t);
                        lemma_trim_start_len(rest);
                    }
                    assert(e > x);
                    assert(t.take(e - x) =~= s@.subrange(x as int, e as int));
                    assert(t.skip(e - x) =~= s@.subrange(e as int, b as int));
                    assert(words(rest) == seq![s@.subrange(x as int, e as int)] + words(
                        s@.subrange(e as int, b as int),
                    ));
                    r.push((x, e));
                    pos = e;
                    assert(all.skip(old_len)[0] == s@.subrange(x as int, e as int));
                    assert(all.skip(old_len + 1) =~= all.skip(old_len).skip(1));
                    assert((seq![s@.subrange(x as int, e as int)] + words(
                        s@.subrange(e as int, b as int),
                    )).skip(1) =~= words(s@.subrange(e as int, b as int)));
                },
                None => {
                    proof {
                        lemma_trim_start_len(rest);
                    }
                    assert(words(rest) == seq![t]);
                    r.push((x, b));
                    pos = b;
                    assert(all.skip(old_len)[0] == t);
                    assert(all.skip(old_len + 1) =~= all.skip(old_len).skip(1));
                    assert(s@.subrange(b as int, b as int) =~= Seq::<char>::empty());
                    assert(words(s@.subrange(b as int, b as int)) =~= Seq::<Seq<char>>::empty());
                    assert(all.skip(old_len + 1).len() == 0);
                },
            }
        }
    }
    assert(s@.subrange(b as int, b as int) =~= Seq::<char>::empty());
    assert(words(s@.subrange(b as int, b as int)) =~= Seq::<Seq<char>>::empty());
    r
}

/// `parse::<u64>().ok()` on a span.
pub fn parse_u64_in(s: &Vec<char>, a: usize, b: usize) -> (r: Option<u64>)
    requires
        a <= b <= s.len(),
    ensures
        r == parse_u64(s@.subrange(a as int, b as int)),
{
    let ghost sub = s@.subrange(a as int, b as int);
    let mut i = a;
    if b - a > 1 && s[a] == '+' {
        i = a + 1;
        assert(unsigned_digits(sub) =~= s@.subrange(a + 1, b as int));
    } else {
        assert(unsigned_digits(sub) =~= s@.subrange(a as int, b as int));
    }
    let start = i;
    let ghost d = s@.subrange(start as int, b as int);
    if start == b {
        return None;
    }
    let mut acc: u64 = 0;
    while i < b
        invariant
            start <= i <= b <= s.len(),
            a <= start < b,
            d == s@.subrange(start as int, b as int),
            unsigned_digits(sub) == d,
            sub == s@.subrange(a as int, b as int),
            all_digits(s@.subrange(start as int, i as int)),
            acc as nat == digits_val(s@.subrange(start as int, i as int)),
        decreases b - i,
    {
        let c = s[i];
        if !('0' <= c && c <= '9') {
            assert(d[i - start] == c);
            return None;
        }
        let dv = (c as u32 - '0' as u32) as u64;
        proof {
            assert(s@.subrange(start as int, i + 1) =~= s@.subrange(start as int, i as int).push(c));
            lemma_digits_val_push(s@.subrange(start as int, i as int), c);
        }
        match acc.checked_mul(10) {
            Some(m) => match m.checked_add(dv) {
                Some(v) => {
                    acc = v;
                },
                None => {
                    proof {
                        lemma_overflow_stays(s@, start as int, i + 1, b as int);
                    }
                    return None;
                },
            },
            None => {
                proof {
                    lemma_overflow_stays(s@, start as int, i + 1, b as int);
                }
                return None;
            },
        }
        i = i + 1;
    }
    assert(s@.subrange(start as int, b as int) =~= d);
    Some(acc)
}

/// A prefix that already exceeds `u64::MAX` makes the whole number exceed it.
proof fn lemma_overflow_stays(s: Seq<char>, start: int, i: int, b: int)
    requires
        0 <= start < i <= b <= s.len(),
        digits_val(s.subrange(start, i)) > u64::MAX,
    ensures
        all_digits(s.subrange(start, b)) ==> digits_val(s.subrange(start, b)) > u64::MAX,
    decreases b - i,
{
    if i < b && all_digits(s.subrange(start, b)) {
        assert(s.subrange(start, i + 1) =~= s.subrange(start, i).push(s[i]));
        lemma_digits_val_push(s.subrange(start, i), s[i]);
        assert(s.subrange(start, b)[i - start] == s[i]);
        assert(all_digits(s.subrange(start, i + 1))) by {
            assert forall|j: int| 0 <= j < i + 1 - start implies is_digit(
                #[trigger] s.subrange(start, i + 1)[j],
            ) by {
                assert(s.subrange(start, i + 1)[j] == s.subrange(start, b)[j]);
            }
        }
        lemma_overflow_stays_digits(s, start, i + 1, b);
    }
}

proof fn lemma_overflow_stays_digits(s: Seq<char>, start: int, i: int, b: int)
    requires
        0 <= start < i <= b <= s.len(),
        digits_val(s.subrange(start, i)) > u64::MAX,
        all_digits(s.subrange(start, b)),
    ensures
        digits_val(s.subrange(start, b)) > u64::MAX,
    decreases b - i,
{
    if i < b {
        assert(s.subrange(start, i + 1) =~= s.subrange(start, i).push(s[i]));
        lemma_digits_val_push(s.subrange(start, i), s[i]);
        assert(s.subrange(start, b)[i - start] == s[i]);
        lemma_overflow_stays_digits(s, start, i + 1, b);
    }
}

/// `parse::<u32>().ok()` on a span.
pub fn parse_u32_in(s: &Vec<char>, a: usize, b: usize) -> (r: Option<u32>)
    requires
        a <= b <= s.len(),
    ensures
        r == parse_u32(s@.subrange(a as int, b as int)),
{
    match parse_u64_in(s, a, b) {
        Some(v) => {
            if v <= u32::MAX as u64 {
                Some(v as u32)
            } else {
                None
            }
        },
        None => {
            proof {
                let sub = s@.subrange(a as int, b as int);
                if parse_nat(sub) is Some {
                    assert(parse_nat(sub)->0 > u64::MAX);
                }
            }
            None
        },
    }
}

/// `parse::<u64>().unwrap_or(0)` on a span.
pub fn u64_or_zero_in(s: &Vec<char>, a: usize, b: usize) -> (r: u64)
    requires
        a <= b <= s.len(),
    ensures
        r == u64_or_zero(s@.subrange(a as int, b as int)),
{
    match parse_u64_in(s, a, b) {
        Some(v) => v,
        None => 0,
    }
}

/// `split_whitespace().next().unwrap_or("0").parse::<u64>().unwrap_or(0)` on a span.
pub fn first_u64_or_zero_in(s: &Vec<char>, a: usize, b: usize) -> (r: u64)
    requires
        a <= b <= s.len(),
    ensures
        r == first_u64_or_zero(s@.subrange(a as int, b as int)),
{
    match first_token_in(s, a, b) {
        Some((x, y)) => u64_or_zero_in(s, x, y),
        None => 0,
    }
}

/// The spans of `str::lines`.
pub fn line_spans(s: &Vec<char>) -> (r: Vec<(usize, usize)>)
    ensures
        r.len() == lines(s@).len(),
        forall|k: int|
            0 <= k < r.len() ==> {
                &&& (#[trigger] r@[k]).0 <= r@[k].1 <= s.len()
                &&& s@.subrange(r@[k].0 as int, r@[k].1 as int) == lines(s@)[k]
            },
{
    let mut r: Vec<(usize, usize)> = Vec::new();
    let n = s.len();
    let mut pos: usize = 0;
    let ghost all = lines(s@);
    assert(s@.skip(0) =~= s@);
    assert(all.skip(0) =~= all);
    while pos < n
        invariant
            pos <= n == s.len(),
            all == lines(s@),
            r.len() <= all.len(),
            all.skip(r.len() as int) == lines(s@.skip(pos as int)),
            forall|k: int|
                0 <= k < r.len() ==> {
                    &&& (#[trigger] r@[k]).0 <= r@[k].1 <= s.len()
                    &&& s@.subrange(r@[k].0 as int, r@[k].1 as int) == all[k]
                },
        decreases n - pos,
    {
        let ghost rest = s@.skip(pos as int);
        let ghost old_len = r.len() as int;
        let ghost line: Seq<char>;
        let ghost next_pos: int;
        match find_in(s, pos, n, '\n') {
            Some(i) => {
                assert(s@.subrange(pos as int, n as int) =~= rest);
                proof {
                    lemma_find_bounds(rest, '\n');
                }
                let mut e = i;
                if e > pos && s[e - 1] == '\r' {
                    e = e - 1;
                    assert(strip_cr(rest.take(i - pos)) =~= s@.subrange(pos as int, e as int));
                } else {
                    assert(strip_cr(rest.take(i - pos)) =~= s@.subrange(pos as int, e as int));
                }
                assert(rest.skip(i - pos + 1) =~= s@.skip(i + 1));
                proof {
                    line = s@.subrange(pos as int, e as int);
                    next_pos = i + 1;
                }
                r.push((pos, e));
                pos = i + 1;
            },
            None => {
                assert(s@.subrange(pos as int, n as int) =~= rest);
                assert(s@.skip(n as int) =~= Seq::<char>::empty());
                proof {
                    line = rest;
                    next_pos = n as int;
                }
                r.push((pos, n));
                pos = n;
            },
        }
        assert(lines(rest) == seq![line] + lines(s@.skip(next_pos)));
        assert(all.skip(old_len)[0] == line);
        assert(all.skip(old_len + 1) =~= all.skip(old_len).skip(1));
        assert((seq![line] + lines(s@.skip(next_pos))).skip(1) =~= lines(s@.skip(next_pos)));
    }
    assert(s@.skip(n as int) =~= Seq::<char>::empty());
    assert(all.skip(r.len() as int).len() == 0);
    r
}

/// `trim_start_matches(lit)` on a span: the new start.
pub fn trim_start_matches_in(s: &Vec<char>, a: usize, b: usize, lit: &str) -> (r: usize)
    requires
        a <= b <= s.len(),
    ensures
        a <= r <= b,
        s@.subrange(r as int, b as int) == trim_start_matches(s@.subrange(a as int, b as int), lit@),
{
    let n = lit.unicode_len();
    if n == 0 {
        return a;
    }
    let mut i = a;
    while span_starts_with(s, i, b, lit)
        invariant
            a <= i <= b <= s.len(),
            n == lit@.len(),
            n > 0,
            trim_start_matches(s@.subrange(a as int, b as int), lit@) == trim_start_matches(
                s@.subrange(i as int, b as int),
                lit@,
            ),
        decreases b - i,
    {
        assert(s@.subrange(i as int, b as int).skip(n as int) =~= s@.subrange(i + n, b as int));
        i = i + n;
    }
    i
}

/// `trim_end_matches(lit)` on a span: the new end.
pub fn trim_end_matches_in(s: &Vec<char>, a: usize, b: usize, lit: &str) -> (r: usize)
    requires
        a <= b <= s.len(),
    ensures
        a <= r <= b,
        s@.subrange(a as int, r as int) == trim_end_matches(s@.subrange(a as int, b as int), lit@),
{
    let n = lit.unicode_len();
    if n == 0 {
        return b;
    }
    let mut e = b;
    while span_ends_with(s, a, e, lit)
        invariant
            a <= e <= b <= s.len(),
            n == lit@.len(),
            n > 0,
            trim_end_matches(s@.subrange(a as int, b as int), lit@) == trim_end_matches(
                s@.subrange(a as int, e as int),
                lit@,
            ),
        decreases e - a,
    {
        assert(s@.subrange(a as int, e as int).take((e - a) - n) =~= s@.subrange(
            a as int,
            e - n,
        ));
        e = e - n;
    }
    e
}

} // verus!
