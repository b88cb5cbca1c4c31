//! Character-level helpers shared by the request grammar and the codecs:
//! whitespace classes, trimming, splitting into words and lines, literal
//! comparison and number parsing.
use vstd::prelude::*;
use vstd::utf8::{decode_utf8, valid_utf8};

verus! {

/// The characters that `char::is_whitespace` accepts (Unicode White_Space).
pub open spec fn is_space(c: char) -> bool {
    let u = c as u32;
    (0x09 <= u && u <= 0x0d) || u == 0x20 || u == 0x85 || u == 0xa0 || u == 0x1680 || (0x2000
        <= u && u <= 0x200a) || u == 0x2028 || u == 0x2029 || u == 0x202f || u == 0x205f || u
        == 0x3000
}

/// The characters that `split_ascii_whitespace` splits on.
pub open spec fn is_ascii_ws(c: char) -> bool {
    c == ' ' || c == '\t' || c == '\n' || c == '\x0C' || c == '\r'
}

pub fn char_is_space(c: char) -> (r: bool)
    ensures
        r == is_space(c),
{
    let u = c as u32;
    (0x09 <= u && u <= 0x0d) || u == 0x20 || u == 0x85 || u == 0xa0 || u == 0x1680 || (0x2000
        <= u && u <= 0x200a) || u == 0x2028 || u == 0x2029 || u == 0x202f || u == 0x205f || u
        == 0x3000
}

pub fn char_is_ascii_ws(c: char) -> (r: bool)
    ensures
        r == is_ascii_ws(c),
{
    c == ' ' || c == '\t' || c == '\n' || c == '\x0C' || c == '\r'
}

/// Drops leading whitespace.
pub open spec fn trim_start(s: Seq<char>) -> Seq<char>
    decreases s.len(),
{
    if s.len() > 0 && is_space(s[0]) {
        trim_start(s.drop_first())
    } else {
        s
    }
}

/// Drops trailing whitespace.
pub open spec fn trim_end(s: Seq<char>) -> Seq<char>
    decreases s.len(),
{
    if s.len() > 0 && is_space(s.last()) {
        trim_end(s.drop_last())
    } else {
        s
    }
}

/// `s` without surrounding whitespace, as `str::trim` gives it.
pub open spec fn trim(s: Seq<char>) -> Seq<char> {
    trim_end(trim_start(s))
}

/// Bounds of the trimmed part of `s[a..b]`.
pub fn trim_bounds(s: &Vec<char>, a: usize, b: usize) -> (r: (usize, usize))
    requires
        a <= b <= s@.len(),
    ensures
        a <= r.0 <= r.1 <= b,
        s@.subrange(r.0 as int, r.1 as int) == trim(s@.subrange(a as int, b as int)),
{
    let mut i: usize = a;
    while i < b && char_is_space(s[i])
        invariant
            a <= i <= b <= s@.len(),
            trim_start(s@.subrange(a as int, b as int)) == trim_start(s@.subrange(i as int, b as int)),
        decreases b - i,
    {
        assert(s@.subrange(i as int, b as int).drop_first() =~= s@.subrange(i + 1, b as int));
        i = i + 1;
    }
    let mut j: usize = b;
    while j > i && char_is_space(s[j - 1])
        invariant
            a <= i <= j <= b <= s@.len(),
            trim_start(s@.subrange(a as int, b as int)) == s@.subrange(i as int, b as int),
            trim(s@.subrange(a as int, b as int)) == trim_end(s@.subrange(i as int, j as int)),
        decreases j - i,
    {
        assert(s@.subrange(i as int, j as int).drop_last() =~= s@.subrange(i as int, j - 1));
        j = j - 1;
    }
    (i, j)
}

/// Length of the run of non-whitespace characters at the start of `s`.
pub open spec fn word_len(s: Seq<char>) -> nat
    decreases s.len(),
{
    if s.len() == 0 || is_ascii_ws(s[0]) {
        0
    } else {
        1 + word_len(s.drop_first())
    }
}

/// The ASCII-whitespace-separated words of `s`, as `split_ascii_whitespace` yields them.
pub open spec fn words(s: Seq<char>) -> Seq<Seq<char>>
    decreases s.len(),
    via words_decreases
{
    if s.len() == 0 {
        seq![]
    } else if is_ascii_ws(s[0]) {
        words(s.drop_first())
    } else {
        seq![s.take(word_len(s) as int)] + words(s.skip(word_len(s) as int))
    }
}

/// The pieces of `s` that the spans mark out.
pub open spec fn spans_text(s: Seq<char>, spans: Seq<(usize, usize)>) -> Seq<Seq<char>> {
    Seq::new(spans.len(), |k: int| s.subrange(spans[k].0 as int, spans[k].1 as int))
}

pub open spec fn spans_within(spans: Seq<(usize, usize)>, a: int, b: int) -> bool {
    forall|k: int| 0 <= k < spans.len() ==> a <= #[trigger] spans[k].0 <= spans[k].1 <= b
}

pub proof fn lemma_word_len_bound(s: Seq<char>)
    ensures
        word_len(s) <= s.len(),
        s.len() > 0 && !is_ascii_ws(s[0]) ==> word_len(s) >= 1,
    decreases s.len(),
{
    if s.len() > 0 && !is_ascii_ws(s[0]) {
        lemma_word_len_bound(s.drop_first());
    }
}

#[via_fn]
proof fn words_decreases(s: Seq<char>) {
    lemma_word_len_bound(s);
}

/// Spans of the words of `s[a..b]`.
pub fn split_words(s: &Vec<char>, a: usize, b: usize) -> (r: Vec<(usize, usize)>)
    requires
        a <= b <= s@.len(),
    ensures
        spans_within(r@, a as int, b as int),
        spans_text(s@, r@) == words(s@.subrange(a as int, b as int)),
{
    let mut r: Vec<(usize, usize)> = Vec::new();
    let mut i: usize = a;
    while i < b
        invariant
            a <= i <= b <= s@.len(),
            spans_within(r@, a as int, b as int),
            words(s@.subrange(a as int, b as int)) == spans_text(s@, r@) + words(
                s@.subrange(i as int, b as int),
            ),
        decreases b - i,
    {
        let ghost rest = s@.subrange(i as int, b as int);
        if char_is_ascii_ws(s[i]) {
            assert(rest.drop_first() =~= s@.subrange(i + 1, b as int));
            i = i + 1;
        } else {
            let mut j: usize = i;
            while j < b && !char_is_ascii_ws(s[j])
                invariant
                    i <= j <= b <= s@.len(),
                    word_len(rest) == (j - i) + word_len(s@.subrange(j as int, b as int)),
                decreases b - j,
            {
                assert(s@.subrange(j as int, b as int).drop_first() =~= s@.subrange(
                    j + 1,
                    b as int,
                ));
                j = j + 1;
            }
            assert(word_len(s@.subrange(j as int, b as int)) == 0);
            assert(rest.take(j - i) =~= s@.subrange(i as int, j as int));
            assert(rest.skip(j - i) =~= s@.subrange(j as int, b as int));
            let ghost before = spans_text(s@, r@);
            r.push((i, j));
            assert(spans_text(s@, r@) =~= before.push(s@.subrange(i as int, j as int)));
            assert(words(rest) == seq![s@.subrange(i as int, j as int)] + words(
                s@.subrange(j as int, b as int),
            ));
            assert(words(s@.subrange(a as int, b as int)) =~= spans_text(s@, r@) + words(
                s@.subrange(j as int, b as int),
            ));
            i = j;
        }
    }
    assert(s@.subrange(b as int, b as int) =~= Seq::<char>::empty());
    assert(spans_text(s@, r@) + Seq::<Seq<char>>::empty() =~= spans_text(s@, r@));
    r
}

/// Length of the first line of `s`: the index of its first CRLF, or its length.
pub open spec fn line_len(s: Seq<char>) -> nat
    decreases s.len(),
{
    if s.len() < 2 {
        s.len()
    } else if s[0] == '\r' && s[1] == '\n' {
        0
    } else {
        1 + line_len(s.drop_first())
    }
}

/// The CRLF-separated lines of `s`; text without a CRLF is one line.
pub open spec fn lines(s: Seq<char>) -> Seq<Seq<char>>
    decreases s.len(),
{
    if line_len(s) + 2 <= s.len() {
        seq![s.take(line_len(s) as int)] + lines(s.skip(line_len(s) + 2 as int))
    } else {
        seq![s]
    }
}

/// Spans of the CRLF-separated lines of `s`.
pub fn split_lines(s: &Vec<char>) -> (r: Vec<(usize, usize)>)
    ensures
        spans_within(r@, 0, s@.len() as int),
        spans_text(s@, r@) == lines(s@),
{
    let n = s.len();
    let mut r: Vec<(usize, usize)> = Vec::new();
    let mut i: usize = 0;
    assert(s@.subrange(0, n as int) =~= s@);
    assert(spans_text(s@, r@) + lines(s@) =~= lines(s@));
    loop
        invariant
            i <= n == s@.len(),
            spans_within(r@, 0, n as int),
            lines(s@) == spans_text(s@, r@) + lines(s@.subrange(i as int, n as int)),
        decreases n - i,
    {
        let ghost rest = s@.subrange(i as int, n as int);
        let mut j: usize = i;
        while n - j >= 2 && !(s[j] == '\r' && s[j + 1] == '\n')
            invariant
                i <= j <= n == s@.len(),
                line_len(rest) == (j - i) + line_len(s@.subrange(j as int, n as int)),
            decreases n - j,
        {
            assert(s@.subrange(j as int, n as int).drop_first() =~= s@.subrange(j + 1, n as int));
            j = j + 1;
        }
        let ghost before = spans_text(s@, r@);
        if n - j >= 2 {
            assert(line_len(s@.subrange(j as int, n as int)) == 0);
            assert(rest.take(j - i) =~= s@.subrange(i as int, j as int));
            assert(rest.skip(j - i + 2) =~= s@.subrange(j + 2, n as int));
            r.push((i, j));
            assert(spans_text(s@, r@) =~= before.push(s@.subrange(i as int, j as int)));
            assert(lines(s@) =~= spans_text(s@, r@) + lines(s@.subrange(j + 2, n as int)));
            i = j + 2;
        } else {
            assert(line_len(s@.subrange(j as int, n as int)) == n - j);
            r.push((i, n));
            assert(spans_text(s@, r@) =~= before.push(rest));
            assert(lines(s@) =~= spans_text(s@, r@));
            return r;
        }
    }
}

/// Exec view of a string literal or any other `&str`.
///
/// Relies on `str::chars` (collected into a `Vec`): it yields the characters of the string in order.
#[verifier::external_body]
pub fn chars_of(s: &str) -> (r: Vec<char>)
    ensures
        r@ == s@,
{
    s.chars().collect()
}

/// Relies on `FromIterator<&char> for String`: the string holds exactly the given characters.
#[verifier::external_body]
pub fn string_of(v: &[char]) -> (r: String)
    ensures
        r@ == v@,
{
    v.iter().collect()
}

/// `s[a..b]` as a `String`.
pub fn substring(s: &Vec<char>, a: usize, b: usize) -> (r: String)
    requires
        a <= b <= s@.len(),
    ensures
        r@ == s@.subrange(a as int, b as int),
{
    let v = vstd::slice::slice_subrange(s.as_slice(), a, b);
    string_of(v)
}

/// Whether `s[a..b]` is exactly the characters of `lit`.
pub fn range_is(s: &Vec<char>, a: usize, b: usize, lit: &str) -> (r: bool)
    requires
        a <= b <= s@.len(),
    ensures
        r == (s@.subrange(a as int, b as int) == lit@),
{
    let l = chars_of(lit);
    if b - a != l.len() {
        return false;
    }
    let mut k: usize = 0;
    while k < l.len()
        invariant
            a <= b <= s@.len(),
            b - a == l@.len(),
            l@ == lit@,
            k <= l@.len(),
            forall|t: int| 0 <= t < k ==> s@[a + t] == l@[t],
        decreases l@.len() - k,
    {
        if s[a + k] != l[k] {
            assert(s@.subrange(a as int, b as int)[k as int] != lit@[k as int]);
            return false;
        }
        k = k + 1;
    }
    assert(s@.subrange(a as int, b as int) =~= lit@);
    true
}

/// ASCII lower case of a character; others are unchanged.
pub open spec fn ascii_lower(c: char) -> char {
    if 'A' <= c && c <= 'Z' {
        ((c as u32) + 32) as char
    } else {
        c
    }
}

pub fn char_ascii_lower(c: char) -> (r: char)
    ensures
        r == ascii_lower(c),
{
    if 'A' <= c && c <= 'Z' {
        ((c as u8) + 32) as char
    } else {
        c
    }
}

/// Equality up to ASCII case, as `eq_ignore_ascii_case` decides it.
pub open spec fn eq_ignore_case(s: Seq<char>, t: Seq<char>) -> bool {
    s.len() == t.len() && forall|i: int| 0 <= i < s.len() ==> ascii_lower(#[trigger] s[i])
        == ascii_lower(t[i])
}

/// Whether `s[a..b]` equals `lit` up to ASCII case.
pub fn range_is_ignore_case(s: &Vec<char>, a: usize, b: usize, lit: &str) -> (r: bool)
    requires
        a <= b <= s@.len(),
    ensures
        r == eq_ignore_case(s@.subrange(a as int, b as int), lit@),
{
    let l = chars_of(lit);
    if b - a != l.len() {
        return false;
    }
    let mut k: usize = 0;
    while k < l.len()
        invariant
            a <= b <= s@.len(),
            b - a == l@.len(),
            l@ == lit@,
            k <= l@.len(),
            forall|t: int| 0 <= t < k ==> ascii_lower(s@[a + t]) == ascii_lower(l@[t]),
        decreases l@.len() - k,
    {
        if char_ascii_lower(s[a + k]) != char_ascii_lower(l[k]) {
            assert(s@.subrange(a as int, b as int)[k as int] == s@[a + k]);
            return false;
        }
        k = k + 1;
    }
    assert forall|i: int| 0 <= i < (b - a) implies ascii_lower(
        #[trigger] s@.subrange(a as int, b as int)[i],
    ) == ascii_lower(lit@[i]) by {
        assert(s@.subrange(a as int, b as int)[i] == s@[a + i]);
    }
    true
}

/// Whether `pat` occurs in `s` at position `i`.
pub open spec fn occurs_at(s: Seq<char>, pat: Seq<char>, i: int) -> bool {
    0 <= i && i + pat.len() <= s.len() && s.subrange(i, i + pat.len()) == pat
}

/// Whether `pat` occurs in `s`, as `str::contains` decides it.
pub open spec fn contains(s: Seq<char>, pat: Seq<char>) -> bool {
    exists|i: int| occurs_at(s, pat, i)
}

/// Whether `lit` occurs in `s[a..b]`.
pub fn range_contains(s: &Vec<char>, a: usize, b: usize, lit: &str) -> (r: bool)
    requires
        a <= b <= s@.len(),
    ensures
        r == contains(s@.subrange(a as int, b as int), lit@),
{
    let ghost t = s@.subrange(a as int, b as int);
    let l = chars_of(lit);
    if l.len() > b - a {
        assert forall|i: int| !occurs_at(t, lit@, i) by {}
        return false;
    }
    if l.len() == 0 {
        assert(t.subrange(0, 0) =~= lit@);
        assert(occurs_at(t, lit@, 0));
        return true;
    }
    let mut i: usize = a;
    while l.len() <= b - i
        invariant
            a <= i <= b <= s@.len(),
            l@ == lit@,
            1 <= l@.len() <= b - a,
            t == s@.subrange(a as int, b as int),
            forall|p: int| 0 <= p < i - a ==> !occurs_at(t, lit@, p),
        decreases b - i,
    {
        let m = range_is(s, i, i + l.len(), lit);
        if m {
            assert(t.subrange(i - a, i - a + l@.len()) =~= s@.subrange(i as int, i + l@.len()));
            assert(occurs_at(t, lit@, i - a));
            return true;
        }
        assert(t.subrange(i - a, i - a + l@.len()) =~= s@.subrange(i as int, i + l@.len()));
        i = i + 1;
    }
    assert forall|p: int| !occurs_at(t, lit@, p) by {
        if 0 <= p && p < i - a {
        }
    }
    false
}

/// Index of the first `c` in `s`, or its length when there is none.
pub open spec fn char_pos(s: Seq<char>, c: char) -> nat
    decreases s.len(),
{
    if s.len() == 0 || s[0] == c {
        0
    } else {
        1 + char_pos(s.drop_first(), c)
    }
}

/// The pieces of `s` between occurrences of `c`, as `str::split` yields them.
pub open spec fn pieces(s: Seq<char>, c: char) -> Seq<Seq<char>>
    decreases s.len(),
{
    if char_pos(s, c) < s.len() {
        seq![s.take(char_pos(s, c) as int)] + pieces(s.skip(char_pos(s, c) + 1 as int), c)
    } else {
        seq![s]
    }
}

/// First index of `c` in `s[a..b]`, or `b`.
pub fn find_char(s: &Vec<char>, a: usize, b: usize, c: char) -> (r: usize)
    requires
        a <= b <= s@.len(),
    ensures
        a <= r <= b,
        r - a == char_pos(s@.subrange(a as int, b as int), c),
{
    let mut j: usize = a;
    while j < b && s[j] != c
        invariant
            a <= j <= b <= s@.len(),
            char_pos(s@.subrange(a as int, b as int), c) == (j - a) + char_pos(
                s@.subrange(j as int, b as int),
                c,
            ),
        decreases b - j,
    {
        assert(s@.subrange(j as int, b as int).drop_first() =~= s@.subrange(j + 1, b as int));
        j = j + 1;
    }
    j
}

/// Spans of the pieces of `s` between occurrences of `c`.
pub fn split_on(s: &Vec<char>, c: char) -> (r: Vec<(usize, usize)>)
    ensures
        spans_within(r@, 0, s@.len() as int),
        spans_text(s@, r@) == pieces(s@, c),
{
    let n = s.len();
    let mut r: Vec<(usize, usize)> = Vec::new();
    let mut i: usize = 0;
    assert(s@.subrange(0, n as int) =~= s@);
    assert(spans_text(s@, r@) + pieces(s@, c) =~= pieces(s@, c));
    loop
        invariant
            i <= n == s@.len(),
            spans_within(r@, 0, n as int),
            pieces(s@, c) == spans_text(s@, r@) + pieces(s@.subrange(i as int, n as int), c),
        decreases n - i,
    {
        let ghost rest = s@.subrange(i as int, n as int);
        let j = find_char(s, i, n, c);
        let ghost before = spans_text(s@, r@);
        r.push((i, j));
        assert(spans_text(s@, r@) =~= before.push(s@.subrange(i as int, j as int)));
        if j < n {
            assert(rest.take(j - i) =~= s@.subrange(i as int, j as int));
            assert(rest.skip(j - i + 1) =~= s@.subrange(j + 1, n as int));
            assert(pieces(s@, c) =~= spans_text(s@, r@) + pieces(s@.subrange(j + 1, n as int), c));
            i = j + 1;
        } else {
            assert(rest =~= s@.subrange(i as int, j as int));
            assert(pieces(s@, c) =~= spans_text(s@, r@));
            return r;
        }
    }
}

/// Whether two strings hold the same characters.
pub fn same_text(a: &str, b: &str) -> (r: bool)
    ensures
        r == (a@ == b@),
{
    let ac = chars_of(a);
    assert(ac@.subrange(0, ac@.len() as int) =~= ac@);
    range_is(&ac, 0, ac.len(), b)
}

/// Relies on `String::from_utf8`: it succeeds exactly on valid UTF-8, with the decoded text.
#[verifier::external_body]
pub fn string_from_utf8(v: Vec<u8>) -> (r: Option<String>)
    ensures
        r is Some <==> valid_utf8(v@),
        r matches Some(t) ==> t@ == decode_utf8(v@),
{
    String::from_utf8(v).ok()
}

/// Appends the bytes of `b` to `out`.
pub fn push_bytes(out: &mut Vec<u8>, b: &[u8])
    ensures
        final(out)@ == old(out)@ + b@,
{
    let mut k: usize = 0;
    while k < b.len()
        invariant
            k <= b@.len(),
            out@ == old(out)@ + b@.subrange(0, k as int),
        decreases b@.len() - k,
    {
        out.push(b[k]);
        assert(b@.subrange(0, k + 1) =~= b@.subrange(0, k as int).push(b@[k as int]));
        k = k + 1;
    }
    assert(b@.subrange(0, b@.len() as int) =~= b@);
}

pub proof fn lemma_char_pos_absent(x: Seq<char>, z: Seq<char>, c: char)
    requires
        !x.contains(c),
    ensures
        char_pos(x + z, c) == x.len() + char_pos(z, c),
        char_pos(x, c) == x.len(),
    decreases x.len(),
{
    if x.len() > 0 {
        assert(x[0] != c);
        assert((x + z).drop_first() =~= x.drop_first() + z);
        assert(!x.drop_first().contains(c)) by {
            if x.drop_first().contains(c) {
                let t = choose|t: int| 0 <= t < x.drop_first().len() && x.drop_first()[t] == c;
                assert(x[t + 1] == c);
            }
        }
        lemma_char_pos_absent(x.drop_first(), z, c);
    } else {
        assert(x + z =~= z);
    }
}

pub proof fn lemma_char_pos_present(x: Seq<char>, z: Seq<char>, c: char)
    requires
        char_pos(x, c) < x.len(),
    ensures
        char_pos(x + z, c) == char_pos(x, c),
    decreases x.len(),
{
    if x[0] != c {
        assert((x + z).drop_first() =~= x.drop_first() + z);
        lemma_char_pos_present(x.drop_first(), z, c);
    }
}

pub proof fn lemma_char_pos_bound(x: Seq<char>, c: char)
    ensures
        char_pos(x, c) <= x.len(),
        char_pos(x, c) < x.len() ==> x[char_pos(x, c) as int] == c,
    decreases x.len(),
{
    if x.len() > 0 && x[0] != c {
        lemma_char_pos_bound(x.drop_first(), c);
    }
}

/// Splitting at a separator splits the pieces there.
pub proof fn lemma_pieces_join(x: Seq<char>, y: Seq<char>, c: char)
    ensures
        pieces(x + seq![c] + y, c) == pieces(x, c) + pieces(y, c),
    decreases x.len(),
{
    let s = x + seq![c] + y;
    lemma_char_pos_bound(x, c);
    let k = char_pos(x, c) as int;
    if k < x.len() {
        lemma_char_pos_present(x, seq![c] + y, c);
        assert(x + seq![c] + y =~= x + (seq![c] + y));
        assert(s.take(k) =~= x.take(k));
        assert(s.skip(k + 1) =~= x.skip(k + 1) + seq![c] + y);
        lemma_pieces_join(x.skip(k + 1), y, c);
        assert(pieces(s, c) =~= pieces(x, c) + pieces(y, c));
    } else {
        assert(!x.contains(c)) by {
            if x.contains(c) {
                let t = choose|t: int| 0 <= t < x.len() && x[t] == c;
                lemma_char_pos_first(x, c, t);
            }
        }
        lemma_char_pos_absent(x, seq![c] + y, c);
        assert(x + seq![c] + y =~= x + (seq![c] + y));
        assert(s.take(k) =~= x);
        assert(s.skip(k + 1) =~= y);
        assert(pieces(x, c) == seq![x]);
        assert(pieces(s, c) =~= pieces(x, c) + pieces(y, c));
    }
}

pub proof fn lemma_char_pos_first(x: Seq<char>, c: char, t: int)
    requires
        0 <= t < x.len(),
        x[t] == c,
    ensures
        char_pos(x, c) <= t,
    decreases x.len(),
{
    if x[0] != c {
        assert(x.drop_first()[t - 1] == c);
        lemma_char_pos_first(x.drop_first(), c, t - 1);
    }
}

/// Text without the separator is one piece.
pub proof fn lemma_pieces_single(x: Seq<char>, c: char)
    requires
        !x.contains(c),
    ensures
        pieces(x, c) == seq![x],
{
    lemma_char_pos_absent(x, seq![], c);
}

} // verus!
