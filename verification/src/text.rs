//! Text primitives shared by every parser of the library.
//!
//! Each primitive is specified over `Seq<char>` (the view of a `String`)
//! and mirrors the behaviour of the corresponding `str` method of std:
//! `trim`, `trim_matches`, `starts_with`, `split`, `split_once`, `lines`,
//! `find` and `join`.
use vstd::prelude::*;

verus! {

// ---------------------------------------------------------------------------
// Conversions between `str`/`String` and `Vec<char>`
// ---------------------------------------------------------------------------

/// The characters of `s`, in order.
pub fn chars_of(s: &str) -> (v: Vec<char>)
    ensures
        v@ == s@,
{
    let mut v: Vec<char> = Vec::new();
    for c in it: s.chars()
        invariant
            v@ == it.seq().take(it.index() as int),
            it.seq() == s@,
    {
        v.push(c);
    }
    v
}

/// Appends one character to a `String` by std's `String::push`.  Trusted:
/// the contract claims, as std documents, that the characters afterwards
/// are those before followed by `c`.
#[verifier::external_body]
fn string_push(s: &mut String, c: char)
    ensures
        final(s)@ == old(s)@.push(c),
{
    s.push(c);
}

/// The `String` made of the characters of `v`.
pub fn string_of(v: &[char]) -> (s: String)
    ensures
        s@ == v@,
{
    let mut s = String::new();
    let mut i: usize = 0;
    while i < v.len()
        invariant
            i <= v@.len(),
            s@ == v@.take(i as int),
        decreases v@.len() - i,
    {
        string_push(&mut s, v[i]);
        i = i + 1;
        assert(v@.take(i as int) =~= v@.take(i - 1).push(v@[i - 1]));
    }
    assert(v@.take(v@.len() as int) =~= v@);
    s
}

/// The characters of a string literal or any `&str`, as a `String`.
pub fn owned(s: &str) -> (r: String)
    ensures
        r@ == s@,
{
    let v = chars_of(s);
    string_of(v.as_slice())
}

/// The views of a list of character vectors.
pub open spec fn seqs_of(v: Seq<Vec<char>>) -> Seq<Seq<char>> {
    Seq::new(v.len(), |i: int| v[i]@)
}

/// The views of a list of strings.
pub open spec fn strs_of(v: Seq<String>) -> Seq<Seq<char>> {
    Seq::new(v.len(), |i: int| v[i]@)
}

/// Each character sequence of `v`, as a `String`.
pub fn strings_of(v: &Vec<Vec<char>>) -> (r: Vec<String>)
    ensures
        strs_of(r@) == seqs_of(v@),
{
    let mut r: Vec<String> = Vec::new();
    let mut i: usize = 0;
    while i < v.len()
        invariant
            i <= v@.len(),
            r@.len() == i,
            strs_of(r@) == seqs_of(v@).take(i as int),
        decreases v@.len() - i,
    {
        let s = string_of(v[i].as_slice());
        let ghost prev = r@;
        r.push(s);
        i = i + 1;
        assert forall|j: int| 0 <= j < i - 1 implies r@[j]@ == v@[j]@ by {
            assert(r@[j] == prev[j]);
            assert(strs_of(prev)[j] == seqs_of(v@).take(i - 1)[j]);
        }
        assert(strs_of(r@) =~= seqs_of(v@).take(i as int));
    }
    assert(seqs_of(v@).take(v@.len() as int) =~= seqs_of(v@));
    r
}

/// The characters of `a` followed by those of `b`.
pub fn cat(a: &[char], b: &[char]) -> (r: Vec<char>)
    ensures
        r@ == a@ + b@,
{
    let mut r: Vec<char> = Vec::new();
    let mut i: usize = 0;
    while i < a.len()
        invariant
            i <= a@.len(),
            r@ == a@.take(i as int),
        decreases a@.len() - i,
    {
        r.push(a[i]);
        i = i + 1;
        assert(r@ =~= a@.take(i as int));
    }
    let mut j: usize = 0;
    while j < b.len()
        invariant
            i == a@.len(),
            j <= b@.len(),
            r@ == a@ + b@.take(j as int),
        decreases b@.len() - j,
    {
        r.push(b[j]);
        j = j + 1;
        assert(r@ =~= a@ + b@.take(j as int));
    }
    assert(a@.take(a@.len() as int) =~= a@);
    assert(b@.take(b@.len() as int) =~= b@);
    r
}

/// Appends the characters of `b` to `a`.
pub fn push_all(a: &mut Vec<char>, b: &[char])
    ensures
        final(a)@ == old(a)@ + b@,
{
    let mut j: usize = 0;
    while j < b.len()
        invariant
            j <= b@.len(),
            a@ == old(a)@ + b@.take(j as int),
        decreases b@.len() - j,
    {
        a.push(b[j]);
        j = j + 1;
        assert(a@ =~= old(a)@ + b@.take(j as int));
    }
    assert(b@.take(b@.len() as int) =~= b@);
}

/// Appends the characters of `s` to `a`.
pub fn push_str(a: &mut Vec<char>, s: &str)
    ensures
        final(a)@ == old(a)@ + s@,
{
    let v = chars_of(s);
    push_all(a, v.as_slice());
}

/// The characters of `v` from index `from` (included) to `to` (excluded).
pub fn slice(v: &[char], from: usize, to: usize) -> (r: Vec<char>)
    requires
        from <= to <= v@.len(),
    ensures
        r@ == v@.subrange(from as int, to as int),
{
    let mut r: Vec<char> = Vec::new();
    let mut i: usize = from;
    while i < to
        invariant
            from <= i <= to <= v@.len(),
            r@ == v@.subrange(from as int, i as int),
        decreases to - i,
    {
        r.push(v[i]);
        i = i + 1;
        assert(r@ =~= v@.subrange(from as int, i as int));
    }
    r
}

/// Whether the two character sequences are equal.
pub fn same(a: &[char], b: &[char]) -> (r: bool)
    ensures
        r == (a@ == b@),
{
    if a.len() != b.len() {
        return false;
    }
    let mut i: usize = 0;
    while i < a.len()
        invariant
            a@.len() == b@.len(),
            i <= a@.len(),
            forall|j: int| 0 <= j < i ==> a@[j] == b@[j],
        decreases a@.len() - i,
    {
        if a[i] != b[i] {
            return false;
        }
        i = i + 1;
    }
    assert(a@ =~= b@);
    true
}

// ---------------------------------------------------------------------------
// Character classes
// ---------------------------------------------------------------------------

/// Unicode `White_Space`, the class that `char::is_whitespace` and
/// `str::trim` use.
pub open spec fn is_ws(c: char) -> bool {
    ||| c == ' '
    ||| ('\t' <= c && c <= '\r')
    ||| c == '\u{85}'
    ||| c == '\u{a0}'
    ||| c == '\u{1680}'
    ||| ('\u{2000}' <= c && c <= '\u{200a}')
    ||| c == '\u{2028}'
    ||| c == '\u{2029}'
    ||| c == '\u{202f}'
    ||| c == '\u{205f}'
    ||| c == '\u{3000}'
}

/// Whether `c` is white space (`char::is_whitespace`).
pub fn is_whitespace(c: char) -> (b: bool)
    ensures
        b == is_ws(c),
{
    c == ' ' || ('\t' <= c && c <= '\r') || c == '\u{85}' || c == '\u{a0}' || c == '\u{1680}' || (
    '\u{2000}' <= c && c <= '\u{200a}') || c == '\u{2028}' || c == '\u{2029}' || c == '\u{202f}'
        || c == '\u{205f}' || c == '\u{3000}'
}

/// An ASCII decimal digit (`char::is_ascii_digit`).
pub open spec fn is_digit(c: char) -> bool {
    '0' <= c && c <= '9'
}

/// Whether `c` is an ASCII decimal digit.
pub fn is_ascii_digit(c: char) -> (b: bool)
    ensures
        b == is_digit(c),
{
    '0' <= c && c <= '9'
}

/// Every character of `s` is an ASCII digit.
pub open spec fn all_digits(s: Seq<char>) -> bool {
    forall|i: int| 0 <= i < s.len() ==> is_digit(#[trigger] s[i])
}

/// Whether every character of `s` is an ASCII digit.
pub fn all_ascii_digits(s: &[char]) -> (b: bool)
    ensures
        b == all_digits(s@),
{
    let mut i: usize = 0;
    while i < s.len()
        invariant
            i <= s@.len(),
            forall|j: int| 0 <= j < i ==> is_digit(#[trigger] s@[j]),
        decreases s@.len() - i,
    {
        if !is_ascii_digit(s[i]) {
            return false;
        }
        i = i + 1;
    }
    true
}

/// Every character of `s` is an ASCII digit or a dot.
pub open spec fn digits_and_dots(s: Seq<char>) -> bool {
    forall|i: int| 0 <= i < s.len() ==> is_digit(#[trigger] s[i]) || s[i] == '.'
}

/// Whether every character of `s` is an ASCII digit or a dot.
pub fn only_digits_and_dots(s: &[char]) -> (b: bool)
    ensures
        b == digits_and_dots(s@),
{
    let mut i: usize = 0;
    while i < s.len()
        invariant
            i <= s@.len(),
            forall|j: int| 0 <= j < i ==> is_digit(#[trigger] s@[j]) || s@[j] == '.',
        decreases s@.len() - i,
    {
        if !(is_ascii_digit(s[i]) || s[i] == '.') {
            return false;
        }
        i = i + 1;
    }
    true
}

/// The number of occurrences of `c` in `s`.
pub open spec fn count_char(s: Seq<char>, c: char) -> nat
    decreases s.len(),
{
    if s.len() == 0 {
        0
    } else {
        count_char(s.drop_last(), c) + if s.last() == c {
            1nat
        } else {
            0nat
        }
    }
}

/// The number of occurrences of `c` in `s`.
pub fn count_of(s: &[char], c: char) -> (n: usize)
    ensures
        n == count_char(s@, c),
{
    let mut n: usize = 0;
    let mut i: usize = 0;
    while i < s.len()
        invariant
            i <= s@.len(),
            n == count_char(s@.take(i as int), c),
            n <= i,
        decreases s@.len() - i,
    {
        assert(s@.take(i + 1).drop_last() =~= s@.take(i as int));
        if s[i] == c {
            n = n + 1;
        }
        i = i + 1;
    }
    assert(s@.take(s@.len() as int) =~= s@);
    n
}

/// Whether `c` occurs in `s`.
pub fn contains_char(s: &[char], c: char) -> (b: bool)
    ensures
        b == s@.contains(c),
{
    let mut i: usize = 0;
    while i < s.len()
        invariant
            i <= s@.len(),
            forall|j: int| 0 <= j < i ==> s@[j] != c,
        decreases s@.len() - i,
    {
        if s[i] == c {
            assert(s@[i as int] == c);
            return true;
        }
        i = i + 1;
    }
    false
}

// ---------------------------------------------------------------------------
// Trimming
// ---------------------------------------------------------------------------

/// `s` without its leading white space.
pub open spec fn trim_start(s: Seq<char>) -> Seq<char>
    decreases s.len(),
{
    if s.len() > 0 && is_ws(s[0]) {
        trim_start(s.drop_first())
    } else {
        s
    }
}

/// `s` without its trailing white space.
pub open spec fn trim_end(s: Seq<char>) -> Seq<char>
    decreases s.len(),
{
    if s.len() > 0 && is_ws(s.last()) {
        trim_end(s.drop_last())
    } else {
        s
    }
}

/// `s` without leading and trailing white space (`str::trim`).
pub open spec fn trim(s: Seq<char>) -> Seq<char> {
    trim_end(trim_start(s))
}

/// `s` without the occurrences of `c` at its start.
pub open spec fn strip_start_all(s: Seq<char>, c: char) -> Seq<char>
    decreases s.len(),
{
    if s.len() > 0 && s[0] == c {
        strip_start_all(s.drop_first(), c)
    } else {
        s
    }
}

/// `s` without the occurrences of `c` at its end.
pub open spec fn strip_end_all(s: Seq<char>, c: char) -> Seq<char>
    decreases s.len(),
{
    if s.len() > 0 && s.last() == c {
        strip_end_all(s.drop_last(), c)
    } else {
        s
    }
}

/// `s` without the occurrences of `c` at both ends (`str::trim_matches`).
pub open spec fn trim_matches(s: Seq<char>, c: char) -> Seq<char> {
    strip_end_all(strip_start_all(s, c), c)
}

/// `trim_start(s)` is a suffix of `s`.
pub proof fn lemma_trim_start_suffix(s: Seq<char>)
    ensures
        trim_start(s).len() <= s.len(),
        trim_start(s) == s.skip(s.len() - trim_start(s).len()),
        forall|i: int| 0 <= i < s.len() - trim_start(s).len() ==> is_ws(#[trigger] s[i]),
        trim_start(s).len() > 0 ==> !is_ws(trim_start(s)[0]),
    decreases s.len(),
{
    if s.len() > 0 && is_ws(s[0]) {
        lemma_trim_start_suffix(s.drop_first());
        assert(s.drop_first().skip(s.drop_first().len() - trim_start(s).len()) =~= s.skip(
            s.len() - trim_start(s).len(),
        ));
        assert forall|i: int| 0 <= i < s.len() - trim_start(s).len() implies is_ws(#[trigger] s[i]) by {
            if i > 0 {
                assert(s[i] == s.drop_first()[i - 1]);
            }
        }
    } else {
        assert(s.skip(0) =~= s);
    }
}

/// `trim_end(s)` is a prefix of `s`.
pub proof fn lemma_trim_end_prefix(s: Seq<char>)
    ensures
        trim_end(s).len() <= s.len(),
        trim_end(s) == s.take(trim_end(s).len() as int),
        forall|i: int| trim_end(s).len() <= i < s.len() ==> is_ws(#[trigger] s[i]),
        trim_end(s).len() > 0 ==> !is_ws(trim_end(s).last()),
    decreases s.len(),
{
    if s.len() > 0 && is_ws(s.last()) {
        lemma_trim_end_prefix(s.drop_last());
        assert(s.drop_last().take(trim_end(s).len() as int) =~= s.take(trim_end(s).len() as int));
        assert forall|i: int| trim_end(s).len() <= i < s.len() implies is_ws(#[trigger] s[i]) by {
            if i < s.len() - 1 {
                assert(s[i] == s.drop_last()[i]);
            }
        }
    } else {
        assert(s.take(s.len() as int) =~= s);
    }
}

/// The leading white space of `s` is removed from index `i` on.
proof fn lemma_trim_start_skip(s: Seq<char>, i: int)
    requires
        0 <= i <= s.len(),
        forall|j: int| 0 <= j < i ==> is_ws(#[trigger] s[j]),
    ensures
        trim_start(s) == trim_start(s.skip(i)),
    decreases i,
{
    if i > 0 {
        assert(s.drop_first().skip(i - 1) =~= s.skip(i));
        assert forall|j: int| 0 <= j < i - 1 implies is_ws(#[trigger] s.drop_first()[j]) by {
            assert(s.drop_first()[j] == s[j + 1]);
        }
        lemma_trim_start_skip(s.drop_first(), i - 1);
    } else {
        assert(s.skip(0) =~= s);
    }
}

/// The trailing white space of `s` is removed from index `i` on.
proof fn lemma_trim_end_take(s: Seq<char>, i: int)
    requires
        0 <= i <= s.len(),
        forall|j: int| i <= j < s.len() ==> is_ws(#[trigger] s[j]),
    ensures
        trim_end(s) == trim_end(s.take(i)),
    decreases s.len() - i,
{
    if i < s.len() {
        assert(s.drop_last().take(i) =~= s.take(i));
        assert forall|j: int| i <= j < s.len() - 1 implies is_ws(#[trigger] s.drop_last()[j]) by {
            assert(s.drop_last()[j] == s[j]);
        }
        assert(is_ws(s[s.len() - 1]));
        lemma_trim_end_take(s.drop_last(), i);
    } else {
        assert(s.take(i) =~= s);
    }
}

/// Leading white space only is removed from the start.
proof fn lemma_strip_start_skip(s: Seq<char>, c: char, i: int)
    requires
        0 <= i <= s.len(),
        forall|j: int| 0 <= j < i ==> #[trigger] s[j] == c,
    ensures
        strip_start_all(s, c) == strip_start_all(s.skip(i), c),
    decreases i,
{
    if i > 0 {
        assert(s.drop_first().skip(i - 1) =~= s.skip(i));
        assert forall|j: int| 0 <= j < i - 1 implies #[trigger] s.drop_first()[j] == c by {
            assert(s.drop_first()[j] == s[j + 1]);
        }
        lemma_strip_start_skip(s.drop_first(), c, i - 1);
    } else {
        assert(s.skip(0) =~= s);
    }
}

proof fn lemma_strip_end_take(s: Seq<char>, c: char, i: int)
    requires
        0 <= i <= s.len(),
        forall|j: int| i <= j < s.len() ==> #[trigger] s[j] == c,
    ensures
        strip_end_all(s, c) == strip_end_all(s.take(i), c),
    decreases s.len() - i,
{
    if i < s.len() {
        assert(s.drop_last().take(i) =~= s.take(i));
        assert forall|j: int| i <= j < s.len() - 1 implies #[trigger] s.drop_last()[j] == c by {
            assert(s.drop_last()[j] == s[j]);
        }
        assert(s[s.len() - 1] == c);
        lemma_strip_end_take(s.drop_last(), c, i);
    } else {
        assert(s.take(i) =~= s);
    }
}

/// `s` without leading and trailing white space (`str::trim`).
pub fn trim_chars(s: &[char]) -> (r: Vec<char>)
    ensures
        r@ == trim(s@),
{
    let mut i: usize = 0;
    while i < s.len() && is_whitespace(s[i])
        invariant
            i <= s@.len(),
            forall|j: int| 0 <= j < i ==> is_ws(#[trigger] s@[j]),
        decreases s@.len() - i,
    {
        i = i + 1;
    }
    proof {
        lemma_trim_start_skip(s@, i as int);
    }
    let mut k: usize = s.len();
    while k > i && is_whitespace(s[k - 1])
        invariant
            i <= k <= s@.len(),
            forall|j: int| k <= j < s@.len() ==> is_ws(#[trigger] s@[j]),
        decreases k,
    {
        k = k - 1;
    }
    let r = slice(s, i, k);
    proof {
        let t = s@.skip(i as int);
        assert(trim_start(t) == t);
        assert(t.take(k - i) =~= s@.subrange(i as int, k as int));
        assert forall|j: int| k - i <= j < t.len() implies is_ws(#[trigger] t[j]) by {
            assert(t[j] == s@[j + i]);
        }
        lemma_trim_end_take(t, k - i);
        let u = t.take(k - i);
        if u.len() > 0 {
            assert(u.last() == s@[k - 1]);
        }
        assert(trim_end(u) == u);
    }
    r
}

/// `s` without the occurrences of `c` at both ends (`str::trim_matches`).
pub fn trim_matches_chars(s: &[char], c: char) -> (r: Vec<char>)
    ensures
        r@ == trim_matches(s@, c),
{
    let mut i: usize = 0;
    while i < s.len() && s[i] == c
        invariant
            i <= s@.len(),
            forall|j: int| 0 <= j < i ==> #[trigger] s@[j] == c,
        decreases s@.len() - i,
    {
        i = i + 1;
    }
    proof {
        lemma_strip_start_skip(s@, c, i as int);
    }
    let mut k: usize = s.len();
    while k > i && s[k - 1] == c
        invariant
            i <= k <= s@.len(),
            forall|j: int| k <= j < s@.len() ==> #[trigger] s@[j] == c,
        decreases k,
    {
        k = k - 1;
    }
    let r = slice(s, i, k);
    proof {
        let t = s@.skip(i as int);
        assert(strip_start_all(t, c) == t);
        assert(t.take(k - i) =~= s@.subrange(i as int, k as int));
        assert forall|j: int| k - i <= j < t.len() implies #[trigger] t[j] == c by {
            assert(t[j] == s@[j + i]);
        }
        lemma_strip_end_take(t, c, k - i);
        let u = t.take(k - i);
        if u.len() > 0 {
            assert(u.last() == s@[k - 1]);
        }
        assert(strip_end_all(u, c) == u);
    }
    r
}

/// `s` without the occurrences of `c` at its end (`str::trim_end_matches`).
pub fn strip_end_chars(s: &[char], c: char) -> (r: Vec<char>)
    ensures
        r@ == strip_end_all(s@, c),
{
    let mut k: usize = s.len();
    while k > 0 && s[k - 1] == c
        invariant
            k <= s@.len(),
            forall|j: int| k <= j < s@.len() ==> #[trigger] s@[j] == c,
        decreases k,
    {
        k = k - 1;
    }
    proof {
        lemma_strip_end_take(s@, c, k as int);
        let u = s@.take(k as int);
        if u.len() > 0 {
            assert(u.last() == s@[k - 1]);
        }
        assert(strip_end_all(u, c) == u);
    }
    slice(s, 0, k)
}

/// The length of the run of characters that are not white space at the
/// start of `t`.
pub open spec fn word_len(t: Seq<char>) -> nat
    decreases t.len(),
{
    if t.len() > 0 && !is_ws(t[0]) {
        1 + word_len(t.drop_first())
    } else {
        0
    }
}

/// What `word_len` counts.
pub proof fn lemma_word_len(t: Seq<char>)
    ensures
        word_len(t) <= t.len(),
        t.len() > 0 && !is_ws(t[0]) ==> word_len(t) >= 1,
    decreases t.len(),
{
    if t.len() > 0 && !is_ws(t[0]) {
        lemma_word_len(t.drop_first());
    }
}

/// The words of `s` (`str::split_whitespace`): its runs of characters that
/// are not white space, in order.
pub open spec fn words(s: Seq<char>) -> Seq<Seq<char>>
    decreases s.len(),
{
    let t = trim_start(s);
    if t.len() == 0 {
        seq![]
    } else {
        proof {
            lemma_trim_start_suffix(s);
            lemma_word_len(t);
        }
        seq![t.take(word_len(t) as int)] + words(t.skip(word_len(t) as int))
    }
}

/// The words of `s`.
pub fn words_of(s: &[char]) -> (r: Vec<Vec<char>>)
    ensures
        seqs_of(r@) == words(s@),
{
    let n = s.len();
    let mut r: Vec<Vec<char>> = Vec::new();
    let mut i: usize = 0;
    assert(s@.skip(0) =~= s@);
    assert(seqs_of(r@) =~= Seq::<Seq<char>>::empty());
    while i < n
        invariant
            n == s@.len(),
            i <= n,
            words(s@) == seqs_of(r@) + words(s@.skip(i as int)),
        decreases n - i,
    {
        let ghost x = s@.skip(i as int);
        assert(x[0] == s@[i as int]);
        if is_whitespace(s[i]) {
            assert(x.drop_first() =~= s@.skip(i + 1));
            assert(trim_start(x) == trim_start(x.drop_first()));
            i = i + 1;
        } else {
            let mut j: usize = i;
            while j < n && !is_whitespace(s[j])
                invariant
                    i <= j <= n,
                    n == s@.len(),
                    word_len(x) == (j - i) + word_len(s@.skip(j as int)),
                    x == s@.skip(i as int),
                decreases n - j,
            {
                assert(s@.skip(j as int)[0] == s@[j as int]);
                assert(s@.skip(j as int).drop_first() =~= s@.skip(j + 1));
                j = j + 1;
            }
            proof {
                if j < n {
                    assert(s@.skip(j as int)[0] == s@[j as int]);
                }
                assert(word_len(x) == j - i);
                assert(trim_start(x) == x);
                assert(x.take(j - i) =~= s@.subrange(i as int, j as int));
                assert(x.skip(j - i) =~= s@.skip(j as int));
            }
            let ghost before = seqs_of(r@);
            r.push(slice(s, i, j));
            assert(seqs_of(r@) =~= before.push(s@.subrange(i as int, j as int)));
            assert(seqs_of(r@) + words(s@.skip(j as int)) =~= before + (seq![s@.subrange(i as int, j as int)]
                + words(s@.skip(j as int))));
            i = j;
        }
    }
    assert(s@.skip(n as int).len() == 0);
    assert(seqs_of(r@) + Seq::<Seq<char>>::empty() =~= seqs_of(r@));
    r
}

/// `a` comes strictly before `b` in the order of their characters
/// (`str` order).
pub open spec fn text_less(a: Seq<char>, b: Seq<char>) -> bool
    decreases a.len(),
{
    if b.len() == 0 {
        false
    } else if a.len() == 0 {
        true
    } else if a[0] != b[0] {
        (a[0] as u32) < (b[0] as u32)
    } else {
        text_less(a.drop_first(), b.drop_first())
    }
}

/// Whether `a` comes strictly before `b`.
pub fn text_less_of(a: &Vec<char>, b: &Vec<char>) -> (r: bool)
    ensures
        r == text_less(a@, b@),
{
    let mut i: usize = 0;
    assert(a@.skip(0) =~= a@);
    assert(b@.skip(0) =~= b@);
    while i < a.len() && i < b.len() && a[i] == b[i]
        invariant
            i <= a@.len(),
            i <= b@.len(),
            text_less(a@, b@) == text_less(a@.skip(i as int), b@.skip(i as int)),
        decreases a@.len() - i,
    {
        assert(a@.skip(i as int).drop_first() =~= a@.skip(i + 1));
        assert(b@.skip(i as int).drop_first() =~= b@.skip(i + 1));
        assert(a@.skip(i as int)[0] == a@[i as int]);
        assert(b@.skip(i as int)[0] == b@[i as int]);
        i = i + 1;
    }
    if i < a.len() && i < b.len() {
        assert(a@.skip(i as int)[0] == a@[i as int]);
        assert(b@.skip(i as int)[0] == b@[i as int]);
    }
    if i >= b.len() {
        false
    } else if i >= a.len() {
        true
    } else {
        (a[i] as u32) < (b[i] as u32)
    }
}

/// A decimal digit or a dot.
pub open spec fn is_digit_or_dot(c: char) -> bool {
    is_digit(c) || c == '.'
}

/// The length of the longest prefix of `s` made of digits and dots.
pub open spec fn dotted_run(s: Seq<char>) -> nat
    decreases s.len(),
{
    if s.len() > 0 && is_digit_or_dot(s[0]) {
        1 + dotted_run(s.drop_first())
    } else {
        0
    }
}

/// What `dotted_run` counts.
pub proof fn lemma_dotted_run(s: Seq<char>)
    ensures
        dotted_run(s) <= s.len(),
        s.len() > 0 && is_digit_or_dot(s[0]) ==> dotted_run(s) >= 1,
        forall|i: int| 0 <= i < dotted_run(s) ==> is_digit_or_dot(#[trigger] s[i]),
    decreases s.len(),
{
    if s.len() > 0 && is_digit_or_dot(s[0]) {
        lemma_dotted_run(s.drop_first());
        assert forall|i: int| 0 <= i < dotted_run(s) implies is_digit_or_dot(#[trigger] s[i]) by {
            if i > 0 {
                assert(s[i] == s.drop_first()[i - 1]);
            }
        }
    }
}

/// Where the run of digits and dots that starts at `from` ends.
pub fn dotted_run_end(s: &[char], from: usize) -> (r: usize)
    requires
        from <= s@.len(),
    ensures
        r == from + dotted_run(s@.skip(from as int)),
        r <= s@.len(),
{
    let mut j: usize = from;
    while j < s.len() && (is_ascii_digit(s[j]) || s[j] == '.')
        invariant
            from <= j <= s@.len(),
            dotted_run(s@.skip(from as int)) == (j - from) + dotted_run(s@.skip(j as int)),
        decreases s@.len() - j,
    {
        assert(s@.skip(j as int)[0] == s@[j as int]);
        assert(s@.skip(j as int).drop_first() =~= s@.skip(j + 1));
        j = j + 1;
    }
    if j < s.len() {
        assert(s@.skip(j as int)[0] == s@[j as int]);
    } else {
        assert(s@.skip(j as int).len() == 0);
    }
    j
}

// ---------------------------------------------------------------------------
// Prefixes and suffixes
// ---------------------------------------------------------------------------

/// `s` starts with `p` (`str::starts_with`).
pub open spec fn starts_with(s: Seq<char>, p: Seq<char>) -> bool {
    p.len() <= s.len() && s.take(p.len() as int) == p
}

/// `s` ends with `p` (`str::ends_with`).
pub open spec fn ends_with(s: Seq<char>, p: Seq<char>) -> bool {
    p.len() <= s.len() && s.skip(s.len() - p.len()) == p
}

/// `s` without the prefix `p`, if it has it (`str::strip_prefix`).
pub open spec fn strip_prefix(s: Seq<char>, p: Seq<char>) -> Option<Seq<char>> {
    if starts_with(s, p) {
        Some(s.skip(p.len() as int))
    } else {
        None
    }
}

/// Whether `s` starts with `p`.
pub fn has_prefix(s: &[char], p: &[char]) -> (b: bool)
    ensures
        b == starts_with(s@, p@),
{
    if p.len() > s.len() {
        return false;
    }
    let mut i: usize = 0;
    while i < p.len()
        invariant
            p@.len() <= s@.len(),
            i <= p@.len(),
            forall|j: int| 0 <= j < i ==> s@[j] == p@[j],
        decreases p@.len() - i,
    {
        if s[i] != p[i] {
            assert(s@.take(p@.len() as int)[i as int] != p@[i as int]);
            return false;
        }
        i = i + 1;
    }
    assert(s@.take(p@.len() as int) =~= p@);
    true
}

/// Whether `s` ends with `p`.
pub fn has_suffix(s: &[char], p: &[char]) -> (b: bool)
    ensures
        b == ends_with(s@, p@),
{
    if p.len() > s.len() {
        return false;
    }
    let n = s.len();
    let off = n - p.len();
    let mut i: usize = 0;
    while i < p.len()
        invariant
            n == s@.len(),
            p@.len() <= s@.len(),
            off == s@.len() - p@.len(),
            i <= p@.len(),
            forall|j: int| 0 <= j < i ==> s@[off + j] == p@[j],
        decreases p@.len() - i,
    {
        assert(off + i < s@.len());
        if s[off + i] != p[i] {
            assert(s@.skip(off as int)[i as int] != p@[i as int]);
            return false;
        }
        i = i + 1;
    }
    assert(s@.skip(off as int) =~= p@);
    true
}

/// `s` without the prefix `p`, if it has it.
pub fn without_prefix(s: &[char], p: &[char]) -> (r: Option<Vec<char>>)
    ensures
        r matches Some(v) ==> strip_prefix(s@, p@) == Some(v@),
        r is None ==> strip_prefix(s@, p@) is None,
{
    if has_prefix(s, p) {
        Some(slice(s, p.len(), s.len()))
    } else {
        None
    }
}

// ---------------------------------------------------------------------------
// Searching
// ---------------------------------------------------------------------------

/// The index of the first `c` in `s` (`str::find` with a `char`).
pub open spec fn find_char(s: Seq<char>, c: char) -> Option<int>
    decreases s.len(),
{
    if s.len() == 0 {
        None
    } else if s[0] == c {
        Some(0)
    } else {
        match find_char(s.drop_first(), c) {
            Some(i) => Some(i + 1),
            None => None,
        }
    }
}

/// What `find_char` returns, in terms of the positions of `c`.
pub proof fn lemma_find_char(s: Seq<char>, c: char)
    ensures
        match find_char(s, c) {
            Some(i) => 0 <= i < s.len() && s[i] == c && forall|j: int| 0 <= j < i ==> s[j] != c,
            None => forall|j: int| 0 <= j < s.len() ==> s[j] != c,
        },
    decreases s.len(),
{
    if s.len() > 0 && s[0] != c {
        lemma_find_char(s.drop_first(), c);
        match find_char(s.drop_first(), c) {
            Some(i) => {
                assert forall|j: int| 0 <= j < i + 1 implies s[j] != c by {
                    if j > 0 {
                        assert(s[j] == s.drop_first()[j - 1]);
                    }
                }
            },
            None => {
                assert forall|j: int| 0 <= j < s.len() implies s[j] != c by {
                    if j > 0 {
                        assert(s[j] == s.drop_first()[j - 1]);
                    }
                }
            },
        }
    }
}

/// The first position of `c` determines `find_char`.
pub proof fn lemma_find_char_at(s: Seq<char>, c: char, i: int)
    requires
        0 <= i < s.len(),
        s[i] == c,
        forall|j: int| 0 <= j < i ==> s[j] != c,
    ensures
        find_char(s, c) == Some(i),
{
    lemma_find_char(s, c);
    match find_char(s, c) {
        Some(k) => {
            if k < i {
                assert(s[k] != c);
            }
            if k > i {
                assert(s[i] != c);
            }
        },
        None => {
            assert(s[i] != c);
        },
    }
}

/// Without `c` in `s`, `find_char` finds nothing.
pub proof fn lemma_find_char_none(s: Seq<char>, c: char)
    requires
        forall|j: int| 0 <= j < s.len() ==> s[j] != c,
    ensures
        find_char(s, c) is None,
{
    lemma_find_char(s, c);
    if let Some(k) = find_char(s, c) {
        assert(s[k] != c);
    }
}

/// The index of the first `c` in `s` at or after `from`.
pub fn find_char_from(s: &[char], c: char, from: usize) -> (r: Option<usize>)
    requires
        from <= s@.len(),
    ensures
        match find_char(s@.skip(from as int), c) {
            Some(i) => r == Some((i + from) as usize),
            None => r is None,
        },
{
    let mut i: usize = from;
    while i < s.len()
        invariant
            from <= i <= s@.len(),
            forall|j: int| from <= j < i ==> s@[j] != c,
        decreases s@.len() - i,
    {
        if s[i] == c {
            proof {
                let t = s@.skip(from as int);
                assert forall|j: int| 0 <= j < i - from implies t[j] != c by {
                    assert(t[j] == s@[j + from]);
                }
                lemma_find_char_at(t, c, i - from);
            }
            return Some(i);
        }
        i = i + 1;
    }
    proof {
        let t = s@.skip(from as int);
        assert forall|j: int| 0 <= j < t.len() implies t[j] != c by {
            assert(t[j] == s@[j + from]);
        }
        lemma_find_char_none(t, c);
    }
    None
}

/// `p` occurs in `s` at index `i`.
pub open spec fn occurs_at(s: Seq<char>, p: Seq<char>, i: int) -> bool {
    0 <= i && i + p.len() <= s.len() && s.subrange(i, i + p.len()) == p
}

/// The index of the first occurrence of `p` in `s` (`str::find` with a
/// `&str`).
pub open spec fn find_sub(s: Seq<char>, p: Seq<char>) -> Option<int> {
    if exists|i: int| occurs_at(s, p, i) {
        Some(choose|i: int| occurs_at(s, p, i) && forall|j: int| 0 <= j < i ==> !occurs_at(s, p, j))
    } else {
        None
    }
}

/// The first occurrence is well defined.
pub proof fn lemma_find_sub(s: Seq<char>, p: Seq<char>)
    ensures
        match find_sub(s, p) {
            Some(i) => occurs_at(s, p, i) && forall|j: int| 0 <= j < i ==> !occurs_at(s, p, j),
            None => forall|j: int| !occurs_at(s, p, j),
        },
{
    if exists|i: int| occurs_at(s, p, i) {
        let w = choose|i: int| occurs_at(s, p, i);
        lemma_first_occurrence(s, p, w);
    }
}

/// Some occurrence at or before `w` is the first one.
proof fn lemma_first_occurrence(s: Seq<char>, p: Seq<char>, w: int)
    requires
        occurs_at(s, p, w),
    ensures
        exists|i: int| occurs_at(s, p, i) && forall|j: int| 0 <= j < i ==> !occurs_at(s, p, j),
    decreases w,
{
    if exists|j: int| 0 <= j < w && occurs_at(s, p, j) {
        let j = choose|j: int| 0 <= j < w && occurs_at(s, p, j);
        lemma_first_occurrence(s, p, j);
    } else {
        assert(occurs_at(s, p, w) && forall|j: int| 0 <= j < w ==> !occurs_at(s, p, j));
    }
}

/// The first occurrence determines `find_sub`.
pub proof fn lemma_find_sub_at(s: Seq<char>, p: Seq<char>, i: int)
    requires
        occurs_at(s, p, i),
        forall|j: int| 0 <= j < i ==> !occurs_at(s, p, j),
    ensures
        find_sub(s, p) == Some(i),
{
    lemma_find_sub(s, p);
    let k = find_sub(s, p)->0;
    if k < i {
        assert(!occurs_at(s, p, k));
    }
    if k > i {
        assert(!occurs_at(s, p, i));
    }
}

/// Whether `p` occurs in `s` at index `i`.
pub fn matches_at(s: &[char], p: &[char], i: usize) -> (b: bool)
    ensures
        b == occurs_at(s@, p@, i as int),
{
    let n = s.len();
    if i > n || p.len() > n - i {
        return false;
    }
    let mut k: usize = 0;
    while k < p.len()
        invariant
            i + p@.len() <= s@.len(),
            n == s@.len(),
            k <= p@.len(),
            forall|j: int| 0 <= j < k ==> s@[i + j] == p@[j],
        decreases p@.len() - k,
    {
        assert(i + k < n);
        if s[i + k] != p[k] {
            assert(s@.subrange(i as int, i + p@.len())[k as int] != p@[k as int]);
            return false;
        }
        k = k + 1;
    }
    assert(s@.subrange(i as int, i + p@.len()) =~= p@);
    true
}

/// The index of the first occurrence of `p` in `s`.
pub fn find_sub_in(s: &[char], p: &[char]) -> (r: Option<usize>)
    ensures
        match find_sub(s@, p@) {
            Some(i) => r == Some(i as usize),
            None => r is None,
        },
{
    let n = s.len();
    let mut i: usize = 0;
    while i < n
        invariant
            n == s@.len(),
            i <= n,
            forall|j: int| 0 <= j < i ==> !occurs_at(s@, p@, j),
        decreases n - i,
    {
        if matches_at(s, p, i) {
            proof {
                lemma_find_sub_at(s@, p@, i as int);
            }
            return Some(i);
        }
        i = i + 1;
    }
    if matches_at(s, p, n) {
        proof {
            lemma_find_sub_at(s@, p@, n as int);
        }
        return Some(n);
    }
    proof {
        assert forall|j: int| !occurs_at(s@, p@, j) by {
            if 0 <= j <= n {
            }
        }
        lemma_find_sub(s@, p@);
        if let Some(k) = find_sub(s@, p@) {
            assert(!occurs_at(s@, p@, k));
        }
    }
    None
}

/// Whether `p` occurs in `s` (`str::contains` with a `&str`).
pub fn contains_sub(s: &[char], p: &[char]) -> (b: bool)
    ensures
        b == find_sub(s@, p@) is Some,
{
    find_sub_in(s, p).is_some()
}

// ---------------------------------------------------------------------------
// Splitting
// ---------------------------------------------------------------------------

/// `s` cut at the first `c` (`str::split_once` with a `char`).
pub open spec fn split_once(s: Seq<char>, c: char) -> Option<(Seq<char>, Seq<char>)> {
    match find_char(s, c) {
        Some(i) => Some((s.take(i), s.skip(i + 1))),
        None => None,
    }
}

/// `s` cut at the first `c`.
pub fn split_once_at(s: &[char], c: char) -> (r: Option<(Vec<char>, Vec<char>)>)
    ensures
        match split_once(s@, c) {
            Some(p) => r matches Some(q) && q.0@ == p.0 && q.1@ == p.1,
            None => r is None,
        },
{
    let n = s.len();
    assert(s@.skip(0) =~= s@);
    proof {
        lemma_find_char(s@.skip(0), c);
    }
    match find_char_from(s, c, 0) {
        Some(i) => {
            let a = slice(s, 0, i);
            let b = slice(s, i + 1, n);
            Some((a, b))
        },
        None => None,
    }
}

/// The pieces of `s` between the occurrences of `c` (`str::split` with a
/// `char`).
pub open spec fn split(s: Seq<char>, c: char) -> Seq<Seq<char>>
    decreases s.len(),
{
    match find_char(s, c) {
        Some(i) => {
            proof {
                lemma_find_char(s, c);
            }
            seq![s.take(i)] + split(s.skip(i + 1), c)
        },
        None => seq![s],
    }
}

/// Splitting never yields an empty list.
pub proof fn lemma_split_nonempty(s: Seq<char>, c: char)
    ensures
        split(s, c).len() >= 1,
    decreases s.len(),
{
    lemma_find_char(s, c);
    if let Some(i) = find_char(s, c) {
        lemma_split_nonempty(s.skip(i + 1), c);
    }
}

/// No piece of a split contains the separator.
pub proof fn lemma_split_pieces(s: Seq<char>, c: char)
    ensures
        forall|k: int| 0 <= k < split(s, c).len() ==> !(#[trigger] split(s, c)[k]).contains(c),
    decreases s.len(),
{
    lemma_find_char(s, c);
    match find_char(s, c) {
        Some(i) => {
            lemma_split_pieces(s.skip(i + 1), c);
            let rest = split(s.skip(i + 1), c);
            assert forall|k: int| 0 <= k < split(s, c).len() implies !(#[trigger] split(
                s,
                c,
            )[k]).contains(c) by {
                if k == 0 {
                    assert(split(s, c)[0] == s.take(i));
                    if s.take(i).contains(c) {
                        let j = choose|j: int| 0 <= j < s.take(i).len() && s.take(i)[j] == c;
                        assert(s[j] == c);
                    }
                } else {
                    assert(split(s, c)[k] == rest[k - 1]);
                }
            }
        },
        None => {
            assert(split(s, c) =~= seq![s]);
            if s.contains(c) {
                let j = choose|j: int| 0 <= j < s.len() && s[j] == c;
                assert(s[j] == c);
            }
        },
    }
}

/// Splitting around a separator splits both sides.
pub proof fn lemma_split_concat(x: Seq<char>, y: Seq<char>, c: char)
    ensures
        split(x + seq![c] + y, c) == split(x, c) + split(y, c),
    decreases x.len(),
{
    let s = x + seq![c] + y;
    lemma_find_char(x, c);
    match find_char(x, c) {
        Some(i) => {
            assert forall|j: int| 0 <= j < i implies s[j] != c by {
                assert(s[j] == x[j]);
            }
            assert(s[i] == x[i]);
            lemma_find_char_at(s, c, i);
            assert(s.take(i) =~= x.take(i));
            assert(s.skip(i + 1) =~= x.skip(i + 1) + seq![c] + y);
            lemma_split_concat(x.skip(i + 1), y, c);
            assert(split(x + seq![c] + y, c) =~= split(x, c) + split(y, c));
        },
        None => {
            assert forall|j: int| 0 <= j < x.len() implies s[j] != c by {
                assert(s[j] == x[j]);
            }
            lemma_find_char_at(s, c, x.len() as int);
            assert(s.take(x.len() as int) =~= x);
            assert(s.skip(x.len() as int + 1) =~= y);
            assert(split(x + seq![c] + y, c) =~= split(x, c) + split(y, c));
        },
    }
}

/// A sequence without the separator is a single piece.
pub proof fn lemma_split_single(s: Seq<char>, c: char)
    requires
        !s.contains(c),
    ensures
        split(s, c) == seq![s],
{
    assert forall|j: int| 0 <= j < s.len() implies s[j] != c by {
        if s[j] == c {
            assert(s.contains(c));
        }
    }
    lemma_find_char_none(s, c);
}

/// The pieces of `s` between the occurrences of `c`.
pub fn split_at_char(s: &[char], c: char) -> (r: Vec<Vec<char>>)
    ensures
        seqs_of(r@) == split(s@, c),
{
    let n = s.len();
    let mut r: Vec<Vec<char>> = Vec::new();
    let mut start: usize = 0;
    assert(s@.skip(0) =~= s@);
    loop
        invariant
            n == s@.len(),
            start <= s@.len(),
            split(s@, c) == seqs_of(r@) + split(s@.skip(start as int), c),
        decreases s@.len() - start,
    {
        proof {
            lemma_find_char(s@.skip(start as int), c);
        }
        let found = find_char_from(s, c, start);
        match found {
            Some(k) => {
                let piece = slice(s, start, k);
                proof {
                    let t = s@.skip(start as int);
                    let i = k - start;
                    assert(t.take(i) =~= piece@);
                    assert(t.skip(i + 1) =~= s@.skip(k + 1));
                    assert(split(t, c) == seq![t.take(i)] + split(t.skip(i + 1), c));
                }
                r.push(piece);
                assert(split(s@, c) =~= seqs_of(r@) + split(s@.skip(k + 1), c));
                start = k + 1;
            },
            None => {
                let piece = slice(s, start, n);
                r.push(piece);
                proof {
                    let t = s@.skip(start as int);
                    assert(t =~= piece@);
                    assert(split(t, c) == seq![t]);
                }
                assert(split(s@, c) =~= seqs_of(r@));
                return r;
            },
        }
    }
}

// ---------------------------------------------------------------------------
// Lines and joining
// ---------------------------------------------------------------------------

/// `l` without one trailing carriage return.
pub open spec fn strip_cr(l: Seq<char>) -> Seq<char> {
    if l.len() > 0 && l.last() == '\r' {
        l.drop_last()
    } else {
        l
    }
}

/// The lines of `s` (`str::lines`): the pieces between line feeds, each
/// terminated piece without one trailing carriage return, and without a
/// final empty piece.
pub open spec fn lines(s: Seq<char>) -> Seq<Seq<char>> {
    let p = split(s, '\n');
    let init = Seq::new((p.len() - 1) as nat, |i: int| strip_cr(p[i]));
    if p.last().len() == 0 {
        init
    } else {
        init.push(p.last())
    }
}

/// The terminated lines of `x` followed by the lines of `y`.
pub proof fn lemma_lines_concat(x: Seq<char>, y: Seq<char>)
    ensures
        lines(x + seq!['\n'] + y) == Seq::new(split(x, '\n').len(), |i: int| strip_cr(split(x, '\n')[i]))
            + lines(y),
{
    lemma_split_concat(x, y, '\n');
    lemma_split_nonempty(x, '\n');
    lemma_split_nonempty(y, '\n');
    let px = split(x, '\n');
    let py = split(y, '\n');
    let p = split(x + seq!['\n'] + y, '\n');
    assert(p == px + py);
    assert(p.last() == py.last());
    let a = Seq::new(px.len(), |i: int| strip_cr(px[i]));
    let init = Seq::new((p.len() - 1) as nat, |i: int| strip_cr(p[i]));
    let inity = Seq::new((py.len() - 1) as nat, |i: int| strip_cr(py[i]));
    assert(init =~= a + inity);
    if py.last().len() == 0 {
        assert(lines(x + seq!['\n'] + y) =~= a + lines(y));
    } else {
        assert(lines(x + seq!['\n'] + y) =~= a + lines(y));
    }
}

/// A line feed at the end closes the last line.
pub proof fn lemma_lines_terminated(x: Seq<char>)
    ensures
        lines(x + seq!['\n']) == Seq::new(split(x, '\n').len(), |i: int| strip_cr(split(x, '\n')[i])),
{
    lemma_lines_concat(x, seq![]);
    assert(x + seq!['\n'] + Seq::<char>::empty() =~= x + seq!['\n']);
    assert(split(Seq::<char>::empty(), '\n') =~= seq![Seq::<char>::empty()]) by {
        lemma_find_char_none(Seq::<char>::empty(), '\n');
    }
    assert(lines(Seq::<char>::empty()) =~= Seq::<Seq<char>>::empty());
    let a = Seq::new(split(x, '\n').len(), |i: int| strip_cr(split(x, '\n')[i]));
    assert(a + Seq::<Seq<char>>::empty() =~= a);
}

/// The lines of `s`.
pub fn lines_of(s: &[char]) -> (r: Vec<Vec<char>>)
    ensures
        seqs_of(r@) == lines(s@),
{
    let pieces = split_at_char(s, '\n');
    proof {
        lemma_split_nonempty(s@, '\n');
    }
    let n = pieces.len();
    let mut r: Vec<Vec<char>> = Vec::new();
    let mut i: usize = 0;
    while i + 1 < n
        invariant
            n == pieces@.len(),
            n >= 1,
            seqs_of(pieces@) == split(s@, '\n'),
            i + 1 <= n,
            r@.len() == i,
            forall|j: int| 0 <= j < i ==> #[trigger] r@[j]@ == strip_cr(pieces@[j]@),
        decreases n - i,
    {
        let p = &pieces[i];
        let m = p.len();
        let line = if m > 0 && p[m - 1] == '\r' {
            slice(p.as_slice(), 0, m - 1)
        } else {
            slice(p.as_slice(), 0, m)
        };
        proof {
            assert(p@.take(m as int) =~= p@);
            if m > 0 && p@[m - 1] == '\r' {
                assert(p@.subrange(0, m - 1) =~= p@.drop_last());
            }
        }
        r.push(line);
        i = i + 1;
    }
    let last = &pieces[n - 1];
    if last.len() > 0 {
        let l = slice(last.as_slice(), 0, last.len());
        r.push(l);
    }
    proof {
        let p = split(s@, '\n');
        assert(p.len() == n);
        assert forall|j: int| 0 <= j < n implies p[j] == pieces@[j]@ by {
            assert(seqs_of(pieces@)[j] == pieces@[j]@);
        }
        assert(last@.take(last@.len() as int) =~= last@);
        assert(seqs_of(r@) =~= lines(s@));
    }
    r
}

/// The pieces of `ls` with `c` between them (`[T]::join`).
pub open spec fn join(ls: Seq<Seq<char>>, c: char) -> Seq<char>
    decreases ls.len(),
{
    if ls.len() == 0 {
        seq![]
    } else if ls.len() == 1 {
        ls[0]
    } else {
        join(ls.drop_last(), c) + seq![c] + ls.last()
    }
}

/// Splitting a join at its separator gives the pieces back.
pub proof fn lemma_split_join(ls: Seq<Seq<char>>, c: char)
    requires
        ls.len() >= 1,
        forall|k: int| 0 <= k < ls.len() ==> !(#[trigger] ls[k]).contains(c),
    ensures
        split(join(ls, c), c) == ls,
    decreases ls.len(),
{
    if ls.len() == 1 {
        lemma_split_single(ls[0], c);
        assert(seq![ls[0]] =~= ls);
    } else {
        let init = ls.drop_last();
        assert forall|k: int| 0 <= k < init.len() implies !(#[trigger] init[k]).contains(c) by {
            assert(init[k] == ls[k]);
        }
        lemma_split_join(init, c);
        lemma_split_concat(join(init, c), ls.last(), c);
        lemma_split_single(ls.last(), c);
        assert(init + seq![ls.last()] =~= ls);
    }
}

/// The pieces of `ls` with `c` between them.
pub fn join_with(ls: &Vec<Vec<char>>, c: char) -> (r: Vec<char>)
    ensures
        r@ == join(seqs_of(ls@), c),
{
    let mut r: Vec<char> = Vec::new();
    let mut i: usize = 0;
    while i < ls.len()
        invariant
            i <= ls@.len(),
            r@ == join(seqs_of(ls@).take(i as int), c),
        decreases ls@.len() - i,
    {
        let ghost before = r@;
        if i > 0 {
            r.push(c);
        }
        push_all(&mut r, ls[i].as_slice());
        proof {
            let t = seqs_of(ls@).take(i + 1);
            assert(t.drop_last() =~= seqs_of(ls@).take(i as int));
            assert(t.last() == ls@[i as int]@);
            if i == 0 {
                assert(r@ =~= join(t, c));
            } else {
                assert(r@ =~= join(t, c));
            }
        }
        i = i + 1;
    }
    assert(seqs_of(ls@).take(ls@.len() as int) =~= seqs_of(ls@));
    r
}

// ---------------------------------------------------------------------------
// Unsigned integers
// ---------------------------------------------------------------------------

/// The value of a string of decimal digits.
pub open spec fn digits_value(s: Seq<char>) -> nat
    decreases s.len(),
{
    if s.len() == 0 {
        0
    } else {
        digits_value(s.drop_last()) * 10 + digit_of(s.last())
    }
}

/// The value of one decimal digit.
pub open spec fn digit_of(c: char) -> nat {
    ((c as u32) - ('0' as u32)) as nat
}

/// What `str::parse` gives for an unsigned integer type whose largest value
/// is `max`: an optional `+`, then one or more ASCII digits whose value does
/// not exceed `max`.
pub open spec fn parse_uint(s: Seq<char>, max: nat) -> Option<nat> {
    let d = if s.len() > 0 && s[0] == '+' {
        s.drop_first()
    } else {
        s
    };
    if d.len() > 0 && all_digits(d) && digits_value(d) <= max {
        Some(digits_value(d))
    } else {
        None
    }
}

/// Parses an unsigned integer no larger than `max` (`str::parse` for
/// `u16`, `u32`, `u64` with `max` their largest value).
pub fn parse_unsigned(s: &[char], max: u64) -> (r: Option<u64>)
    ensures
        match parse_uint(s@, max as nat) {
            Some(v) => r == Some(v as u64),
            None => r is None,
        },
{
    let n = s.len();
    let start: usize = if n > 0 && s[0] == '+' {
        1
    } else {
        0
    };
    let ghost d = if s@.len() > 0 && s@[0] == '+' {
        s@.drop_first()
    } else {
        s@
    };
    assert(d =~= s@.skip(start as int));
    if start >= n {
        return None;
    }
    let mut v: u64 = 0;
    let mut over = false;
    let mut i: usize = start;
    while i < n
        invariant
            n == s@.len(),
            start <= i <= n,
            d == s@.skip(start as int),
            d == (if s@.len() > 0 && s@[0] == '+' {
                s@.drop_first()
            } else {
                s@
            }),
            forall|j: int| start <= j < i ==> is_digit(#[trigger] s@[j]),
            !over ==> v as nat == digits_value(d.take(i - start)) && v <= max,
            over ==> digits_value(d.take(i - start)) > max,
        decreases n - i,
    {
        let c = s[i];
        if !is_ascii_digit(c) {
            proof {
                assert(d[i - start] == c);
                assert(!is_digit(d[i - start]));
                assert(!all_digits(d));
                assert(parse_uint(s@, max as nat) is None);
            }
            return None;
        }
        let dv: u64 = (c as u32 - '0' as u32) as u64;
        proof {
            let t = d.take(i + 1 - start);
            assert(t.drop_last() =~= d.take(i - start));
            assert(t.last() == c);
            assert(digits_value(t) == digits_value(d.take(i - start)) * 10 + dv);
        }
        if !over {
            if dv > max || v > (max - dv) / 10 {
                over = true;
            } else {
                v = v * 10 + dv;
            }
        }
        i = i + 1;
    }
    proof {
        assert(d.take(n - start) =~= d);
        assert forall|j: int| 0 <= j < d.len() implies is_digit(#[trigger] d[j]) by {
            assert(d[j] == s@[j + start]);
        }
    }
    if over {
        None
    } else {
        Some(v)
    }
}

/// The character of a decimal digit.
pub open spec fn digit_char(d: nat) -> char {
    if d == 0 {
        '0'
    } else if d == 1 {
        '1'
    } else if d == 2 {
        '2'
    } else if d == 3 {
        '3'
    } else if d == 4 {
        '4'
    } else if d == 5 {
        '5'
    } else if d == 6 {
        '6'
    } else if d == 7 {
        '7'
    } else if d == 8 {
        '8'
    } else {
        '9'
    }
}

/// The decimal digits of `n`, without leading zeros (`0` for zero), as
/// `Display` writes an unsigned integer.
pub open spec fn decimal(n: nat) -> Seq<char>
    decreases n,
{
    if n < 10 {
        seq![digit_char(n)]
    } else {
        decimal(n / 10).push(digit_char(n % 10))
    }
}

/// The decimal digits of `n` read back as `n`.
pub proof fn lemma_decimal_digits(n: nat)
    ensures
        decimal(n).len() > 0,
        all_digits(decimal(n)),
        digits_value(decimal(n)) == n,
    decreases n,
{
    if n < 10 {
        assert(digit_of(digit_char(n)) == n);
        let d = decimal(n);
        assert(d.drop_last() =~= Seq::<char>::empty());
        assert(digits_value(d) == digits_value(d.drop_last()) * 10 + digit_of(d.last()));
    } else {
        lemma_decimal_digits(n / 10);
        let p = decimal(n / 10);
        let d = decimal(n);
        assert(d.drop_last() =~= p);
        assert(d.last() == digit_char(n % 10));
        assert(digit_of(digit_char(n % 10)) == n % 10);
        assert(digits_value(d) == digits_value(p) * 10 + n % 10);
        assert(n / 10 * 10 + n % 10 == n);
        assert forall|i: int| 0 <= i < d.len() implies is_digit(#[trigger] d[i]) by {
            if i < p.len() {
                assert(d[i] == p[i]);
            }
        }
    }
}

/// Writing a number in decimal and parsing it back gives the number.
pub proof fn lemma_decimal_parses(n: nat, max: nat)
    requires
        n <= max,
    ensures
        parse_uint(decimal(n), max) == Some(n),
        !is_ws(decimal(n)[0]),
        !is_ws(decimal(n).last()),
        forall|i: int| 0 <= i < decimal(n).len() ==> #[trigger] decimal(n)[i] != '\n' && decimal(n)[i] != ' ',
{
    lemma_decimal_digits(n);
    let d = decimal(n);
    assert(is_digit(d[0]));
    assert(is_digit(d.last()));
    assert forall|i: int| 0 <= i < d.len() implies #[trigger] d[i] != '\n' && d[i] != ' ' by {
        assert(is_digit(d[i]));
    }
}

/// The character of the digit `d`.
fn digit_char_of(d: u64) -> (c: char)
    requires
        d < 10,
    ensures
        c == digit_char(d as nat),
{
    if d == 0 {
        '0'
    } else if d == 1 {
        '1'
    } else if d == 2 {
        '2'
    } else if d == 3 {
        '3'
    } else if d == 4 {
        '4'
    } else if d == 5 {
        '5'
    } else if d == 6 {
        '6'
    } else if d == 7 {
        '7'
    } else if d == 8 {
        '8'
    } else {
        '9'
    }
}

/// Appends the decimal digits of `n` to `out`.
pub fn push_decimal(out: &mut Vec<char>, n: u64)
    ensures
        final(out)@ == old(out)@ + decimal(n as nat),
    decreases n,
{
    if n >= 10 {
        push_decimal(out, n / 10);
    }
    let ghost before = out@;
    out.push(digit_char_of(n % 10));
    proof {
        if n >= 10 {
            assert(out@ =~= old(out)@ + decimal(n as nat));
        } else {
            assert(out@ =~= old(out)@ + decimal(n as nat));
        }
    }
}

// ---------------------------------------------------------------------------
// Lemmas about lines of composed texts
// ---------------------------------------------------------------------------

/// The pieces with one trailing carriage return removed from each.
pub open spec fn strip_all(ps: Seq<Seq<char>>) -> Seq<Seq<char>> {
    Seq::new(ps.len(), |i: int| strip_cr(ps[i]))
}

/// Splitting `p + z` splits `p` up to its last piece, which continues into
/// `z`.
pub proof fn lemma_split_prefix(p: Seq<char>, z: Seq<char>, c: char)
    ensures
        split(p, c).len() >= 1,
        split(p + z, c) == split(p, c).drop_last() + split(split(p, c).last() + z, c),
    decreases p.len(),
{
    lemma_split_nonempty(p, c);
    lemma_find_char(p, c);
    let s = p + z;
    match find_char(p, c) {
        Some(i) => {
            assert forall|j: int| 0 <= j < i implies s[j] != c by {
                assert(s[j] == p[j]);
            }
            assert(s[i] == p[i]);
            lemma_find_char_at(s, c, i);
            assert(s.take(i) =~= p.take(i));
            assert(s.skip(i + 1) =~= p.skip(i + 1) + z);
            lemma_split_prefix(p.skip(i + 1), z, c);
            let rest = split(p.skip(i + 1), c);
            assert(split(p, c) == seq![p.take(i)] + rest);
            assert(split(p, c).drop_last() =~= seq![p.take(i)] + rest.drop_last());
            assert(split(p, c).last() == rest.last());
            assert(split(p + z, c) =~= split(p, c).drop_last() + split(split(p, c).last() + z, c));
        },
        None => {
            assert(split(p, c) =~= seq![p]);
            assert(split(p, c).drop_last() =~= Seq::<Seq<char>>::empty());
            assert(split(p + z, c) =~= split(p, c).drop_last() + split(split(p, c).last() + z, c));
        },
    }
}

/// The lines of `p + z`: the terminated lines of `p`, then the lines of
/// its last, unterminated piece continued by `z`.
pub proof fn lemma_lines_prefix(p: Seq<char>, z: Seq<char>)
    ensures
        lines(p + z) == strip_all(split(p, '\n').drop_last()) + lines(split(p, '\n').last() + z),
{
    lemma_split_prefix(p, z, '\n');
    let d = split(p, '\n').drop_last();
    let q = split(split(p, '\n').last() + z, '\n');
    lemma_split_nonempty(split(p, '\n').last() + z, '\n');
    let all = split(p + z, '\n');
    assert(all == d + q);
    assert(all.last() == q.last());
    let init = Seq::new((all.len() - 1) as nat, |i: int| strip_cr(all[i]));
    let initq = Seq::new((q.len() - 1) as nat, |i: int| strip_cr(q[i]));
    assert(init =~= strip_all(d) + initq);
    assert(lines(p + z) =~= strip_all(d) + lines(split(p, '\n').last() + z));
}

/// A text without line feeds, followed by a line feed and more.
pub proof fn lemma_lines_first(x: Seq<char>, y: Seq<char>)
    requires
        !x.contains('\n'),
    ensures
        lines(x + seq!['\n'] + y) == seq![strip_cr(x)] + lines(y),
{
    lemma_lines_concat(x, y);
    lemma_split_single(x, '\n');
    assert(Seq::new(split(x, '\n').len(), |i: int| strip_cr(split(x, '\n')[i])) =~= seq![strip_cr(x)]);
}

/// `s` is `t` with white space around it.
pub proof fn lemma_trim_exact(s: Seq<char>)
    requires
        s.len() > 0,
        !is_ws(s[0]),
        !is_ws(s.last()),
    ensures
        trim(s) == s,
{
    assert(trim_start(s) == s);
}

/// Leading white space does not change a trim.
pub proof fn lemma_trim_ws_prefix(w: Seq<char>, x: Seq<char>)
    requires
        forall|i: int| 0 <= i < w.len() ==> is_ws(#[trigger] w[i]),
    ensures
        trim(w + x) == trim(x),
{
    let s = w + x;
    assert forall|j: int| 0 <= j < w.len() implies is_ws(#[trigger] s[j]) by {
        assert(s[j] == w[j]);
    }
    lemma_trim_start_skip(s, w.len() as int);
    assert(s.skip(w.len() as int) =~= x);
}

/// Trimming twice is trimming once.
pub proof fn lemma_trim_idem(s: Seq<char>)
    ensures
        trim(trim(s)) == trim(s),
{
    lemma_trim_start_suffix(s);
    let a = trim_start(s);
    lemma_trim_end_prefix(a);
    let t = trim_end(a);
    if t.len() > 0 {
        assert(t[0] == a[0]);
        lemma_trim_exact(t);
    }
}

/// A piece `q` of `s`: `q` occurs in `s`.
pub open spec fn is_piece(q: Seq<char>, s: Seq<char>) -> bool {
    exists|a: int| 0 <= a && a + q.len() <= s.len() && #[trigger] s.subrange(a, a + q.len()) == q
}

/// `q` found at index `a` of `s`.
pub proof fn lemma_piece_at(q: Seq<char>, s: Seq<char>, a: int)
    requires
        0 <= a,
        a + q.len() <= s.len(),
        s.subrange(a, a + q.len()) == q,
    ensures
        is_piece(q, s),
{
}

/// A trim is a piece.
pub proof fn lemma_trim_piece(s: Seq<char>)
    ensures
        is_piece(trim(s), s),
{
    lemma_trim_start_suffix(s);
    let a = trim_start(s);
    lemma_trim_end_prefix(a);
    let off = s.len() - a.len();
    let t = trim(s);
    assert(s.subrange(off, off + t.len()) =~= t);
    lemma_piece_at(t, s, off);
}

/// A piece of a piece is a piece.
pub proof fn lemma_piece_trans(q: Seq<char>, r: Seq<char>, s: Seq<char>)
    requires
        is_piece(q, r),
        is_piece(r, s),
    ensures
        is_piece(q, s),
{
    let a = choose|a: int| 0 <= a && a + q.len() <= r.len() && #[trigger] r.subrange(a, a + q.len()) == q;
    let b = choose|b: int| 0 <= b && b + r.len() <= s.len() && #[trigger] s.subrange(b, b + r.len()) == r;
    assert(s.subrange(a + b, a + b + q.len()) =~= q);
    lemma_piece_at(q, s, a + b);
}

/// The pieces of a split are pieces of the text.
pub proof fn lemma_split_are_pieces(s: Seq<char>, c: char)
    ensures
        forall|k: int| 0 <= k < split(s, c).len() ==> is_piece(#[trigger] split(s, c)[k], s),
    decreases s.len(),
{
    lemma_find_char(s, c);
    match find_char(s, c) {
        Some(i) => {
            lemma_split_are_pieces(s.skip(i + 1), c);
            let rest = split(s.skip(i + 1), c);
            assert forall|k: int| 0 <= k < split(s, c).len() implies is_piece(#[trigger] split(s, c)[k], s) by {
                if k == 0 {
                    assert(s.subrange(0, i) =~= s.take(i));
                    lemma_piece_at(s.take(i), s, 0);
                } else {
                    assert(split(s, c)[k] == rest[k - 1]);
                    assert(s.subrange(i + 1, i + 1 + s.skip(i + 1).len()) =~= s.skip(i + 1));
                    lemma_piece_at(s.skip(i + 1), s, i + 1);
                    lemma_piece_trans(rest[k - 1], s.skip(i + 1), s);
                }
            }
        },
        None => {
            assert(s.subrange(0, s.len() as int) =~= s);
            lemma_piece_at(s, s, 0);
        },
    }
}

/// The lines of a text are pieces of it without line feeds.
pub proof fn lemma_lines_are_pieces(s: Seq<char>)
    ensures
        forall|k: int| 0 <= k < lines(s).len() ==> is_piece(#[trigger] lines(s)[k], s) && !lines(s)[k].contains('\n'),
{
    lemma_split_are_pieces(s, '\n');
    lemma_split_pieces(s, '\n');
    lemma_split_nonempty(s, '\n');
    let p = split(s, '\n');
    assert forall|k: int| 0 <= k < lines(s).len() implies is_piece(#[trigger] lines(s)[k], s) && !lines(s)[k].contains('\n') by {
        let l = lines(s)[k];
        let q = p[k];
        assert(is_piece(q, s));
        assert(!q.contains('\n'));
        if k < p.len() - 1 {
            assert(l == strip_cr(q));
            assert(q.subrange(0, l.len() as int) =~= l);
            lemma_piece_at(l, q, 0);
            lemma_piece_trans(l, q, s);
        } else {
            assert(l == q);
        }
        if l.contains('\n') {
            let j = choose|j: int| 0 <= j < l.len() && l[j] == '\n';
            assert(q[j] == l[j]);
        }
    }
}

/// A piece that starts with `m` makes `m` occur where the piece does.
pub proof fn lemma_piece_marker(q: Seq<char>, s: Seq<char>, m: Seq<char>) -> (at: int)
    requires
        is_piece(q, s),
        starts_with(q, m),
    ensures
        occurs_at(s, m, at),
        at + q.len() <= s.len(),
        0 <= at,
        s.subrange(at, at + q.len()) == q,
{
    let a = choose|a: int| 0 <= a && a + q.len() <= s.len() && #[trigger] s.subrange(a, a + q.len()) == q;
    assert(s.subrange(a, a + m.len()) =~= q.take(m.len() as int));
    a
}

/// Without an occurrence of `m` in `s`, no trimmed piece of `s` starts
/// with `m`.
pub proof fn lemma_no_marker_start(q: Seq<char>, s: Seq<char>, m: Seq<char>)
    requires
        is_piece(q, s),
        forall|j: int| !occurs_at(s, m, j),
    ensures
        !starts_with(trim(q), m),
{
    lemma_trim_piece(q);
    lemma_piece_trans(trim(q), q, s);
    if starts_with(trim(q), m) {
        let at = lemma_piece_marker(trim(q), s, m);
        assert(occurs_at(s, m, at));
    }
}

/// Every character of `s` is white space.
pub open spec fn all_ws(s: Seq<char>) -> bool {
    forall|i: int| 0 <= i < s.len() ==> is_ws(#[trigger] s[i])
}

/// The terminated lines of a text, when a line feed follows it.
pub proof fn lemma_lines_prefix_empty(p: Seq<char>)
    ensures
        lines(p) == strip_all(split(p, '\n').drop_last()) + lines(split(p, '\n').last()),
{
    lemma_lines_prefix(p, seq![]);
    assert(p + Seq::<char>::empty() =~= p);
    assert(split(p, '\n').last() + Seq::<char>::empty() =~= split(p, '\n').last());
}

/// A non-empty trim ends with a character that is not white space.
pub proof fn lemma_trim_end_last(t: Seq<char>)
    requires
        t.len() > 0,
        trim(t) == t,
    ensures
        !is_ws(t.last()),
        t.last() != '\r',
{
    lemma_trim_start_suffix(t);
    lemma_trim_end_prefix(trim_start(t));
}

/// A non-empty trim begins with a character that is not white space.
pub proof fn lemma_trim_start_first(t: Seq<char>)
    requires
        t.len() > 0,
        trim(t) == t,
    ensures
        !is_ws(t[0]),
{
    lemma_trim_start_suffix(t);
    let a = trim_start(t);
    lemma_trim_end_prefix(a);
    assert(trim_end(a)[0] == a[0]);
}

/// An empty text has no lines.
pub proof fn lemma_lines_empty()
    ensures
        lines(Seq::<char>::empty()) == Seq::<Seq<char>>::empty(),
{
    lemma_split_single(Seq::<char>::empty(), '\n');
    assert(lines(Seq::<char>::empty()) =~= Seq::<Seq<char>>::empty());
}

} // verus!
