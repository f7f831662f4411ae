//! Character and string primitives shared by the rest of the crate.
//!
//! Strings are modelled by their sequence of characters (`Seq<char>`). The
//! executable functions work on `Vec<char>` buffers and convert at the edges.

use vstd::prelude::*;
use vstd::string::*;

verus! {

/// The Unicode `White_Space` code points.
pub open spec fn is_whitespace(c: char) -> bool {
    let u = c as u32;
    ||| 0x09 <= u <= 0x0D
    ||| u == 0x20
    ||| u == 0x85
    ||| u == 0xA0
    ||| u == 0x1680
    ||| 0x2000 <= u <= 0x200A
    ||| u == 0x2028
    ||| u == 0x2029
    ||| u == 0x202F
    ||| u == 0x205F
    ||| u == 0x3000
}

/// The Unicode control characters (general category `Cc`).
pub open spec fn is_control(c: char) -> bool {
    let u = c as u32;
    u <= 0x1F || 0x7F <= u <= 0x9F
}

/// ASCII letters and digits.
pub open spec fn is_ascii_alphanumeric(c: char) -> bool {
    let u = c as u32;
    ||| 0x30 <= u <= 0x39
    ||| 0x41 <= u <= 0x5A
    ||| 0x61 <= u <= 0x7A
}

/// The lower-case form of an ASCII letter; every other character is unchanged.
pub open spec fn ascii_lower(c: char) -> char {
    let u = c as u32;
    if 0x41 <= u <= 0x5A {
        (u + 32) as char
    } else {
        c
    }
}

pub open spec fn ascii_lower_seq(s: Seq<char>) -> Seq<char> {
    s.map_values(|c: char| ascii_lower(c))
}

pub fn char_is_whitespace(c: char) -> (r: bool)
    ensures
        r == is_whitespace(c),
{
    let u: u32 = c as u32;
    (0x09 <= u && u <= 0x0D) || u == 0x20 || u == 0x85 || u == 0xA0 || u == 0x1680 || (0x2000 <= u
        && u <= 0x200A) || u == 0x2028 || u == 0x2029 || u == 0x202F || u == 0x205F || u == 0x3000
}

pub fn char_is_control(c: char) -> (r: bool)
    ensures
        r == is_control(c),
{
    let u: u32 = c as u32;
    u <= 0x1F || (0x7F <= u && u <= 0x9F)
}

pub fn char_is_ascii_alphanumeric(c: char) -> (r: bool)
    ensures
        r == is_ascii_alphanumeric(c),
{
    let u: u32 = c as u32;
    (0x30 <= u && u <= 0x39) || (0x41 <= u && u <= 0x5A) || (0x61 <= u && u <= 0x7A)
}

pub fn char_ascii_lower(c: char) -> (r: char)
    ensures
        r == ascii_lower(c),
{
    let u: u32 = c as u32;
    if 0x41 <= u && u <= 0x5A {
        let b: u8 = (u + 32) as u8;
        b as char
    } else {
        c
    }
}

/// Appends one character to a string. Wraps `String::push`, which adds the
/// character at the end and leaves the rest untouched.
#[verifier::external_body]
fn push_char(s: &mut String, c: char)
    ensures
        final(s)@ == old(s)@.push(c),
{
    s.push(c)
}

/// The characters of a string, in order.
pub fn to_chars(s: &str) -> (v: Vec<char>)
    ensures
        v@ == s@,
{
    let mut v: Vec<char> = Vec::new();
    for c in it: s.chars()
        invariant
            it.seq() == s@,
            v@ == s@.take(it.index() as int),
    {
        v.push(c);
    }
    v
}

/// The string made of the given characters.
pub fn from_chars(v: &Vec<char>) -> (s: String)
    ensures
        s@ == v@,
{
    let mut s = String::new();
    let mut i: usize = 0;
    while i < v.len()
        invariant
            i <= v.len(),
            s@ == v@.take(i as int),
        decreases v.len() - i,
    {
        push_char(&mut s, v[i]);
        i += 1;
    }
    s
}

/// Whether two buffers hold the same characters.
pub fn chars_eq(a: &Vec<char>, b: &Vec<char>) -> (r: bool)
    ensures
        r == (a@ == b@),
{
    if a.len() != b.len() {
        return false;
    }
    let mut i: usize = 0;
    while i < a.len()
        invariant
            i <= a.len(),
            a.len() == b.len(),
            a@.take(i as int) == b@.take(i as int),
        decreases a.len() - i,
    {
        if a[i] != b[i] {
            return false;
        }
        assert(a@.take(i + 1) == a@.take(i as int).push(a@[i as int]));
        assert(b@.take(i + 1) == b@.take(i as int).push(b@[i as int]));
        i += 1;
    }
    assert(a@.take(a.len() as int) == a@);
    assert(b@.take(b.len() as int) == b@);
    true
}

/// Whether two strings hold the same characters.
pub fn str_eq(a: &str, b: &str) -> (r: bool)
    ensures
        r == (a@ == b@),
{
    let x: Vec<char> = to_chars(a);
    let y: Vec<char> = to_chars(b);
    chars_eq(&x, &y)
}

/// A copy of a string slice.
pub fn str_to_string(s: &str) -> (r: String)
    ensures
        r@ == s@,
{
    s.to_owned()
}

// ---------------------------------------------------------------------------
// Trimming
// ---------------------------------------------------------------------------

/// `s` without its leading white space.
pub open spec fn trim_start(s: Seq<char>) -> Seq<char>
    decreases s.len(),
{
    if s.len() > 0 && is_whitespace(s[0]) {
        trim_start(s.drop_first())
    } else {
        s
    }
}

/// `s` without its trailing white space.
pub open spec fn trim_end(s: Seq<char>) -> Seq<char>
    decreases s.len(),
{
    if s.len() > 0 && is_whitespace(s.last()) {
        trim_end(s.drop_last())
    } else {
        s
    }
}

/// `s` without leading and trailing white space.
pub open spec fn trim(s: Seq<char>) -> Seq<char> {
    trim_end(trim_start(s))
}

/// Every character of `s` is white space (so also: `s` is empty).
pub open spec fn is_blank(s: Seq<char>) -> bool {
    forall|i: int| 0 <= i < s.len() ==> is_whitespace(#[trigger] s[i])
}

pub proof fn lemma_trim_start_at(s: Seq<char>, i: int)
    requires
        0 <= i <= s.len(),
        forall|k: int| 0 <= k < i ==> is_whitespace(#[trigger] s[k]),
        i < s.len() ==> !is_whitespace(s[i]),
    ensures
        trim_start(s) == s.skip(i),
    decreases i,
{
    if i == 0 {
        assert(s.skip(0) == s);
    } else {
        let t = s.drop_first();
        assert forall|k: int| 0 <= k < i - 1 implies is_whitespace(#[trigger] t[k]) by {
            assert(t[k] == s[k + 1]);
        }
        lemma_trim_start_at(t, i - 1);
        assert(t.skip(i - 1) == s.skip(i));
    }
}

pub proof fn lemma_trim_end_at(s: Seq<char>, j: int)
    requires
        0 <= j <= s.len(),
        forall|k: int| j <= k < s.len() ==> is_whitespace(#[trigger] s[k]),
        0 < j ==> !is_whitespace(s[j - 1]),
    ensures
        trim_end(s) == s.take(j),
    decreases s.len() - j,
{
    if j == s.len() {
        assert(s.take(j) == s);
    } else {
        let t = s.drop_last();
        lemma_trim_end_at(t, j);
        assert(t.take(j) == s.take(j));
    }
}

/// The shape of `trim(s)`: a window of `s` that starts and ends with a
/// character that is not white space, with only white space outside it.
pub proof fn lemma_trim_bounds(s: Seq<char>)
    ensures
        (trim(s).len() == 0) == is_blank(s),
        trim(s).len() <= s.len(),
        exists|i: int, j: int|
            0 <= i <= j <= s.len() && #[trigger] s.subrange(i, j) == trim(s) && (forall|k: int|
                0 <= k < i ==> is_whitespace(#[trigger] s[k])) && (forall|k: int|
                j <= k < s.len() ==> is_whitespace(#[trigger] s[k])) && (i < j ==> !is_whitespace(
                s[i]) && !is_whitespace(s[j - 1])),
{
    let i = first_non_whitespace(s);
    lemma_first_non_whitespace(s);
    lemma_trim_start_at(s, i);
    let t = s.skip(i);
    let jj = last_non_whitespace_end(t);
    lemma_last_non_whitespace_end(t);
    lemma_trim_end_at(t, jj);
    let j = i + jj;
    assert(t.take(jj) == s.subrange(i, j));
    assert forall|k: int| j <= k < s.len() implies is_whitespace(#[trigger] s[k]) by {
        assert(s[k] == t[k - i]);
    }
    if i < j {
        assert(t[0] == s[i]);
        assert(t[jj - 1] == s[j - 1]);
    }
    if is_blank(s) {
        if i < s.len() {
            assert(is_whitespace(s[i]));
        }
        if jj > 0 {
            assert(t[jj - 1] == s[i + jj - 1]);
            assert(is_whitespace(s[i + jj - 1]));
        }
    }
    if trim(s).len() == 0 {
        assert forall|k: int| 0 <= k < s.len() implies is_whitespace(#[trigger] s[k]) by {
            if k >= i {
                assert(jj == 0);
                assert(k >= j);
            }
        }
    }
}

/// The index of the first character that is not white space (the length if
/// there is none).
pub open spec fn first_non_whitespace(s: Seq<char>) -> int
    decreases s.len(),
{
    if s.len() > 0 && is_whitespace(s[0]) {
        1 + first_non_whitespace(s.drop_first())
    } else {
        0
    }
}

/// One past the index of the last character that is not white space (zero if
/// there is none).
pub open spec fn last_non_whitespace_end(s: Seq<char>) -> int
    decreases s.len(),
{
    if s.len() > 0 && is_whitespace(s.last()) {
        last_non_whitespace_end(s.drop_last())
    } else {
        s.len() as int
    }
}

pub proof fn lemma_first_non_whitespace(s: Seq<char>)
    ensures
        0 <= first_non_whitespace(s) <= s.len(),
        forall|k: int| 0 <= k < first_non_whitespace(s) ==> is_whitespace(#[trigger] s[k]),
        first_non_whitespace(s) < s.len() ==> !is_whitespace(s[first_non_whitespace(s)]),
    decreases s.len(),
{
    if s.len() > 0 && is_whitespace(s[0]) {
        let t = s.drop_first();
        lemma_first_non_whitespace(t);
        assert forall|k: int| 0 <= k < first_non_whitespace(s) implies is_whitespace(
            #[trigger] s[k],
        ) by {
            if k > 0 {
                assert(s[k] == t[k - 1]);
            }
        }
        if first_non_whitespace(s) < s.len() {
            assert(s[first_non_whitespace(s)] == t[first_non_whitespace(t)]);
        }
    }
}

pub proof fn lemma_last_non_whitespace_end(s: Seq<char>)
    ensures
        0 <= last_non_whitespace_end(s) <= s.len(),
        forall|k: int| last_non_whitespace_end(s) <= k < s.len() ==> is_whitespace(#[trigger] s[k]),
        0 < last_non_whitespace_end(s) ==> !is_whitespace(s[last_non_whitespace_end(s) - 1]),
    decreases s.len(),
{
    if s.len() > 0 && is_whitespace(s.last()) {
        let t = s.drop_last();
        lemma_last_non_whitespace_end(t);
        assert forall|k: int| last_non_whitespace_end(s) <= k < s.len() implies is_whitespace(
            #[trigger] s[k],
        ) by {
            if k < s.len() - 1 {
                assert(s[k] == t[k]);
            }
        }
        if 0 < last_non_whitespace_end(s) {
            assert(s[last_non_whitespace_end(s) - 1] == t[last_non_whitespace_end(t) - 1]);
        }
    }
}

/// Trimming twice is trimming once.
pub proof fn lemma_trim_idempotent(s: Seq<char>)
    ensures
        trim(trim(s)) == trim(s),
{
    lemma_trim_bounds(s);
    let t = trim(s);
    let (i, j) = choose|i: int, j: int|
        0 <= i <= j <= s.len() && #[trigger] s.subrange(i, j) == trim(s) && (forall|k: int|
            0 <= k < i ==> is_whitespace(#[trigger] s[k])) && (forall|k: int|
            j <= k < s.len() ==> is_whitespace(#[trigger] s[k])) && (i < j ==> !is_whitespace(s[i])
            && !is_whitespace(s[j - 1]));
    if i < j {
        assert(t[0] == s[i]);
        assert(t.last() == s[j - 1]);
        lemma_trim_start_at(t, 0);
        assert(t.skip(0) == t);
        lemma_trim_end_at(t, t.len() as int);
        assert(t.take(t.len() as int) == t);
    } else {
        assert(t.len() == 0);
    }
}

/// Whether every character of the buffer is white space.
pub fn chars_blank(v: &Vec<char>) -> (r: bool)
    ensures
        r == is_blank(v@),
{
    let mut i: usize = 0;
    while i < v.len()
        invariant
            i <= v.len(),
            forall|k: int| 0 <= k < i ==> is_whitespace(#[trigger] v@[k]),
        decreases v.len() - i,
    {
        if !char_is_whitespace(v[i]) {
            return false;
        }
        i += 1;
    }
    true
}

/// Whether the string is empty or all white space.
pub fn str_blank(s: &str) -> (r: bool)
    ensures
        r == is_blank(s@),
{
    let v: Vec<char> = to_chars(s);
    chars_blank(&v)
}

/// A copy of the window `[from, to)` of a buffer.
pub fn chars_range(v: &Vec<char>, from: usize, to: usize) -> (r: Vec<char>)
    requires
        from <= to <= v.len(),
    ensures
        r@ == v@.subrange(from as int, to as int),
{
    let mut r: Vec<char> = Vec::new();
    let mut i: usize = from;
    while i < to
        invariant
            from <= i <= to <= v.len(),
            r@ == v@.subrange(from as int, i as int),
        decreases to - i,
    {
        r.push(v[i]);
        assert(v@.subrange(from as int, i + 1) == v@.subrange(from as int, i as int).push(
            v@[i as int],
        ));
        i += 1;
    }
    r
}

/// The buffer without leading and trailing white space.
pub fn chars_trim(v: &Vec<char>) -> (r: Vec<char>)
    ensures
        r@ == trim(v@),
{
    let mut i: usize = 0;
    while i < v.len() && char_is_whitespace(v[i])
        invariant
            i <= v.len(),
            forall|k: int| 0 <= k < i ==> is_whitespace(#[trigger] v@[k]),
        decreases v.len() - i,
    {
        i += 1;
    }
    let mut j: usize = v.len();
    while j > i && char_is_whitespace(v[j - 1])
        invariant
            i <= j <= v.len(),
            forall|k: int| j <= k < v.len() ==> is_whitespace(#[trigger] v@[k]),
        decreases j,
    {
        j -= 1;
    }
    proof {
        lemma_trim_start_at(v@, i as int);
        let t = v@.skip(i as int);
        assert forall|k: int| j - i <= k < t.len() implies is_whitespace(#[trigger] t[k]) by {
            assert(t[k] == v@[k + i]);
        }
        if j > i {
            assert(t[j - i - 1] == v@[j - 1]);
        }
        lemma_trim_end_at(t, j - i);
        assert(t.take(j - i) == v@.subrange(i as int, j as int));
    }
    chars_range(v, i, j)
}

/// The string without leading and trailing white space.
pub fn str_trim(s: &str) -> (r: String)
    ensures
        r@ == trim(s@),
{
    let v: Vec<char> = to_chars(s);
    let t: Vec<char> = chars_trim(&v);
    from_chars(&t)
}

// ---------------------------------------------------------------------------
// Prefixes and substrings
// ---------------------------------------------------------------------------

/// `p` is a prefix of `s`.
pub open spec fn starts_with(s: Seq<char>, p: Seq<char>) -> bool {
    p.len() <= s.len() && s.take(p.len() as int) == p
}

/// `n` occurs in `h` at position `i`.
pub open spec fn occurs_at(h: Seq<char>, n: Seq<char>, i: int) -> bool {
    0 <= i && i + n.len() <= h.len() && h.subrange(i, i + n.len()) == n
}

/// `n` occurs somewhere in `h`.
pub open spec fn contains(h: Seq<char>, n: Seq<char>) -> bool {
    exists|i: int| occurs_at(h, n, i)
}

/// Whether `n` occurs in `h` at position `at`.
pub fn chars_occurs_at(h: &Vec<char>, n: &Vec<char>, at: usize) -> (r: bool)
    ensures
        r == occurs_at(h@, n@, at as int),
{
    if n.len() > h.len() || at > h.len() - n.len() {
        return false;
    }
    let mut k: usize = 0;
    while k < n.len()
        invariant
            k <= n.len(),
            at + n.len() <= h.len(),
            h@.subrange(at as int, at + k) == n@.take(k as int),
        decreases n.len() - k,
    {
        if h[at + k] != n[k] {
            proof {
                if h@.subrange(at as int, at + n.len()) == n@ {
                    assert(h@.subrange(at as int, at + n.len())[k as int] == n@[k as int]);
                }
            }
            return false;
        }
        assert(h@.subrange(at as int, at + k + 1) == h@.subrange(at as int, at + k).push(
            h@[at + k],
        ));
        assert(n@.take(k + 1) == n@.take(k as int).push(n@[k as int]));
        k += 1;
    }
    assert(n@.take(n.len() as int) == n@);
    true
}

/// Whether the buffer starts with the given prefix.
pub fn chars_starts_with(s: &Vec<char>, p: &Vec<char>) -> (r: bool)
    ensures
        r == starts_with(s@, p@),
{
    let r = chars_occurs_at(s, p, 0);
    proof {
        if p.len() <= s.len() {
            assert(s@.take(p.len() as int) == s@.subrange(0, 0 + p.len()));
        }
    }
    r
}

/// Whether `n` occurs in `h`.
pub fn chars_contains(h: &Vec<char>, n: &Vec<char>) -> (r: bool)
    ensures
        r == contains(h@, n@),
{
    if n.len() > h.len() {
        return false;
    }
    if n.len() == 0 {
        assert(h@.subrange(0, 0) == n@);
        assert(occurs_at(h@, n@, 0));
        return true;
    }
    let last: usize = h.len() - n.len();
    let mut i: usize = 0;
    while i <= last
        invariant
            i <= last + 1,
            last == h.len() - n.len(),
            0 < n.len() <= h.len(),
            forall|k: int| 0 <= k < i ==> !occurs_at(h@, n@, k),
        decreases last + 1 - i,
    {
        if chars_occurs_at(h, n, i) {
            return true;
        }
        i += 1;
    }
    false
}

/// Whether the string `n` occurs in the string `h`.
pub fn str_contains(h: &str, n: &str) -> (r: bool)
    ensures
        r == contains(h@, n@),
{
    let a: Vec<char> = to_chars(h);
    let b: Vec<char> = to_chars(n);
    chars_contains(&a, &b)
}

/// Whether the string `s` starts with the string `p`.
pub fn str_starts_with(s: &str, p: &str) -> (r: bool)
    ensures
        r == starts_with(s@, p@),
{
    let a: Vec<char> = to_chars(s);
    let b: Vec<char> = to_chars(p);
    chars_starts_with(&a, &b)
}

/// What follows the prefix `p` in `s`, if `s` starts with it.
pub fn str_strip_prefix(s: &str, p: &str) -> (r: Option<String>)
    ensures
        r is Some == starts_with(s@, p@),
        r matches Some(t) ==> t@ == s@.skip(p@.len() as int),
{
    let a: Vec<char> = to_chars(s);
    let b: Vec<char> = to_chars(p);
    if chars_starts_with(&a, &b) {
        let rest: Vec<char> = chars_range(&a, b.len(), a.len());
        Some(from_chars(&rest))
    } else {
        None
    }
}

// ---------------------------------------------------------------------------
// Case
// ---------------------------------------------------------------------------

/// The lower-case form of a string under the full Unicode case mapping, as
/// `str::to_lowercase` computes it.
pub uninterp spec fn lowercase(s: Seq<char>) -> Seq<char>;

/// The string in lower case. Wraps `str::to_lowercase`; the mapping depends
/// on the characters alone, and the contract only gives it a name.
#[verifier::external_body]
pub(crate) fn to_lowercase(s: &str) -> (r: String)
    ensures
        r@ == lowercase(s@),
{
    s.to_lowercase()
}

/// The buffer with every ASCII capital replaced by its small letter.
pub fn chars_ascii_lower(v: &Vec<char>) -> (r: Vec<char>)
    ensures
        r@ == ascii_lower_seq(v@),
{
    let mut r: Vec<char> = Vec::new();
    let mut i: usize = 0;
    while i < v.len()
        invariant
            i <= v.len(),
            r@ == ascii_lower_seq(v@.take(i as int)),
        decreases v.len() - i,
    {
        r.push(char_ascii_lower(v[i]));
        assert(v@.take(i + 1) == v@.take(i as int).push(v@[i as int]));
        assert(ascii_lower_seq(v@.take(i + 1)) == ascii_lower_seq(v@.take(i as int)).push(
            ascii_lower(v@[i as int]),
        ));
        i += 1;
    }
    assert(v@.take(v.len() as int) == v@);
    r
}

// ---------------------------------------------------------------------------
// Decimal numbers
// ---------------------------------------------------------------------------

/// The character of a decimal digit.
pub open spec fn digit_char(d: nat) -> char
    recommends
        d < 10,
{
    (0x30 + d) as char
}

/// The decimal notation of a number, without leading zeros.
pub open spec fn decimal(n: nat) -> Seq<char>
    decreases n,
{
    if n < 10 {
        seq![digit_char(n)]
    } else {
        decimal(n / 10).push(digit_char(n % 10))
    }
}

/// Appends the decimal notation of `n` to the buffer.
pub fn push_decimal(buf: &mut Vec<char>, n: u64)
    ensures
        final(buf)@ == old(buf)@ + decimal(n as nat),
    decreases n,
{
    if n >= 10 {
        push_decimal(buf, n / 10);
    }
    let d: u8 = (n % 10) as u8;
    let c: char = (0x30 + d) as char;
    buf.push(c);
    proof {
        if n < 10 {
            assert(old(buf)@.push(c) == old(buf)@ + seq![c]);
        } else {
            assert((old(buf)@ + decimal((n / 10) as nat)).push(c) == old(buf)@ + decimal(
                (n / 10) as nat,
            ).push(c));
        }
    }
}

/// The decimal notation of `n` as a string.
pub fn decimal_string(n: u64) -> (r: String)
    ensures
        r@ == decimal(n as nat),
{
    let mut buf: Vec<char> = Vec::new();
    push_decimal(&mut buf, n);
    assert(Seq::<char>::empty() + decimal(n as nat) == decimal(n as nat));
    from_chars(&buf)
}

/// Appends the characters of `t` to `s`.
pub fn push_str(s: &mut String, t: &str)
    ensures
        final(s)@ == old(s)@ + t@,
{
    s.append(t);
}


// ---------------------------------------------------------------------------
// Words
// ---------------------------------------------------------------------------

/// The length of the run of characters that are not white space at the
/// start of `s`.
pub open spec fn word_len(s: Seq<char>) -> int
    decreases s.len(),
{
    if s.len() == 0 || is_whitespace(s[0]) {
        0
    } else {
        1 + word_len(s.drop_first())
    }
}

/// The words of `s`: its maximal runs of characters that are not white
/// space, in order.
pub open spec fn words(s: Seq<char>) -> Seq<Seq<char>>
    decreases s.len(),
{
    if s.len() == 0 {
        Seq::empty()
    } else if is_whitespace(s[0]) {
        words(s.drop_first())
    } else {
        let n = word_len(s);
        if 0 < n <= s.len() {
            seq![s.take(n)] + words(s.skip(n))
        } else {
            Seq::empty()
        }
    }
}

pub proof fn lemma_word_len_at(s: Seq<char>, n: int)
    requires
        0 <= n <= s.len(),
        forall|k: int| 0 <= k < n ==> !is_whitespace(#[trigger] s[k]),
        n < s.len() ==> is_whitespace(s[n]),
    ensures
        word_len(s) == n,
    decreases n,
{
    if n > 0 {
        let t = s.drop_first();
        assert forall|k: int| 0 <= k < n - 1 implies !is_whitespace(#[trigger] t[k]) by {
            assert(t[k] == s[k + 1]);
        }
        if n - 1 < t.len() {
            assert(t[n - 1] == s[n]);
        }
        lemma_word_len_at(t, n - 1);
    }
}

/// The views of a list of character buffers.
pub open spec fn char_seqs(v: Seq<Vec<char>>) -> Seq<Seq<char>> {
    v.map_values(|w: Vec<char>| w@)
}

/// The words of the buffer.
pub fn split_words(v: &Vec<char>) -> (r: Vec<Vec<char>>)
    ensures
        char_seqs(r@) == words(v@),
{
    let mut out: Vec<Vec<char>> = Vec::new();
    let mut i: usize = 0;
    assert(v@.skip(0) == v@);
    assert(char_seqs(out@) + words(v@) == words(v@));
    while i < v.len()
        invariant
            i <= v.len(),
            words(v@) == char_seqs(out@) + words(v@.skip(i as int)),
        decreases v.len() - i,
    {
        let ghost tail = v@.skip(i as int);
        assert(tail[0] == v@[i as int]);
        if char_is_whitespace(v[i]) {
            assert(tail.drop_first() == v@.skip(i + 1));
            i += 1;
        } else {
            let mut j: usize = i + 1;
            while j < v.len() && !char_is_whitespace(v[j])
                invariant
                    i < j <= v.len(),
                    forall|k: int| i <= k < j ==> !is_whitespace(#[trigger] v@[k]),
                decreases v.len() - j,
            {
                j += 1;
            }
            let w: Vec<char> = chars_range(v, i, j);
            proof {
                assert forall|k: int| 0 <= k < j - i implies !is_whitespace(#[trigger] tail[k]) by {
                    assert(tail[k] == v@[i + k]);
                }
                if j - i < tail.len() {
                    assert(tail[j - i] == v@[j as int]);
                }
                lemma_word_len_at(tail, j - i);
                assert(tail.take(j - i) == v@.subrange(i as int, j as int));
                assert(tail.skip(j - i) == v@.skip(j as int));
                let before = char_seqs(out@);
                assert(before + (seq![w@] + words(v@.skip(j as int))) == before.push(w@) + words(
                    v@.skip(j as int),
                ));
            }
            let ghost before = out@;
            out.push(w);
            assert(char_seqs(out@) == char_seqs(before).push(w@));
            i = j;
        }
    }
    assert(words(v@.skip(v.len() as int)) == Seq::<Seq<char>>::empty());
    assert(char_seqs(out@) + Seq::<Seq<char>>::empty() == char_seqs(out@));
    out
}

/// The number of words of a string.
pub fn word_count(s: &str) -> (n: usize)
    ensures
        n == words(s@).len(),
{
    let v: Vec<char> = to_chars(s);
    let w: Vec<Vec<char>> = split_words(&v);
    assert(char_seqs(w@).len() == w@.len());
    w.len()
}

// ---------------------------------------------------------------------------
// Splitting
// ---------------------------------------------------------------------------

/// The pieces of `s` between the separators; a sequence without separator
/// is one piece.
pub open spec fn split(s: Seq<char>, sep: char) -> Seq<Seq<char>>
    decreases s.len(),
{
    if s.len() == 0 {
        seq![Seq::empty()]
    } else {
        let init = split(s.drop_last(), sep);
        if s.last() == sep {
            init.push(Seq::empty())
        } else if init.len() > 0 {
            init.drop_last().push(init.last().push(s.last()))
        } else {
            init
        }
    }
}

/// The pieces of the buffer between the separators.
pub fn chars_split(v: &Vec<char>, sep: char) -> (r: Vec<Vec<char>>)
    ensures
        char_seqs(r@) == split(v@, sep),
        r@.len() > 0,
{
    let mut done: Vec<Vec<char>> = Vec::new();
    let mut cur: Vec<char> = Vec::new();
    let mut i: usize = 0;
    assert(char_seqs(done@).push(cur@) =~= split(v@.take(0), sep));
    while i < v.len()
        invariant
            i <= v@.len(),
            char_seqs(done@).push(cur@) == split(v@.take(i as int), sep),
        decreases v@.len() - i,
    {
        proof {
            assert(v@.take(i + 1).drop_last() == v@.take(i as int));
            assert(v@.take(i + 1).last() == v@[i as int]);
            let init = split(v@.take(i as int), sep);
            assert(init.last() == cur@);
            assert(init.drop_last() == char_seqs(done@));
        }
        if v[i] == sep {
            let ghost bd = done@;
            let ghost bc = cur@;
            done.push(cur);
            cur = Vec::new();
            assert(char_seqs(done@) == char_seqs(bd).push(bc));
        } else {
            cur.push(v[i]);
        }
        i += 1;
    }
    assert(v@.take(v@.len() as int) == v@);
    let ghost bd = done@;
    let ghost bc = cur@;
    done.push(cur);
    assert(char_seqs(done@) == char_seqs(bd).push(bc));
    done
}

/// The position of the first `c` in `s`, or the length of `s` if there is
/// none.
pub open spec fn position_of(s: Seq<char>, c: char) -> int
    decreases s.len(),
{
    if s.len() == 0 || s[0] == c {
        0
    } else {
        1 + position_of(s.drop_first(), c)
    }
}

/// The position of the first `c` in the buffer, or its length.
pub fn chars_position(v: &Vec<char>, c: char) -> (r: usize)
    ensures
        r == position_of(v@, c),
        r <= v@.len(),
        forall|k: int| 0 <= k < r ==> v@[k] != c,
        r < v@.len() ==> v@[r as int] == c,
{
    let mut i: usize = 0;
    assert(v@.skip(0) == v@);
    while i < v.len() && v[i] != c
        invariant
            i <= v@.len(),
            position_of(v@, c) == i + position_of(v@.skip(i as int), c),
            forall|k: int| 0 <= k < i ==> v@[k] != c,
        decreases v@.len() - i,
    {
        assert(v@.skip(i as int)[0] == v@[i as int]);
        assert(v@.skip(i as int).drop_first() == v@.skip(i + 1));
        i += 1;
    }
    proof {
        if i < v@.len() {
            assert(v@.skip(i as int)[0] == v@[i as int]);
        }
    }
    i
}

// ---------------------------------------------------------------------------
// Upper case and numbers
// ---------------------------------------------------------------------------

/// The upper-case form of a string under the full Unicode case mapping, as
/// `str::to_uppercase` computes it.
pub uninterp spec fn uppercase(s: Seq<char>) -> Seq<char>;

/// The string in upper case. Wraps `str::to_uppercase`; the mapping depends
/// on the characters alone, and the contract only gives it a name.
#[verifier::external_body]
pub(crate) fn to_uppercase(s: &str) -> (r: String)
    ensures
        r@ == uppercase(s@),
{
    s.to_uppercase()
}

/// Whether a character is a decimal digit.
pub open spec fn is_digit(c: char) -> bool {
    0x30 <= c as u32 <= 0x39
}

/// The number that decimal digits spell.
pub open spec fn digits_value(s: Seq<char>) -> nat
    decreases s.len(),
{
    if s.len() == 0 {
        0
    } else {
        digits_value(s.drop_last()) * 10 + (s.last() as u32 - 0x30) as nat
    }
}

/// The number that a text spells: the text is one or more decimal digits.
pub open spec fn number_of(s: Seq<char>) -> Option<nat> {
    if s.len() > 0 && forall|i: int| 0 <= i < s.len() ==> is_digit(#[trigger] s[i]) {
        Some(digits_value(s))
    } else {
        None
    }
}

/// The number that a text spells, if it spells one that fits.
#[verifier::loop_isolation(false)]
pub fn parse_number(s: &str) -> (r: Option<usize>)
    ensures
        match r {
            Some(n) => number_of(s@) == Some(n as nat),
            None => number_of(s@) is None || number_of(s@)->0 > usize::MAX,
        },
{
    let v: Vec<char> = to_chars(s);
    if v.len() == 0 {
        return None;
    }
    let mut n: usize = 0;
    let mut i: usize = 0;
    let mut fits: bool = true;
    assert(v@.take(0).len() == 0);
    while i < v.len()
        invariant
            i <= v@.len(),
            forall|k: int| 0 <= k < i ==> is_digit(#[trigger] v@[k]),
            fits ==> n == digits_value(v@.take(i as int)),
            !fits ==> digits_value(v@.take(i as int)) > usize::MAX,
        decreases v@.len() - i,
    {
        let u: u32 = v[i] as u32;
        if u < 0x30 || u > 0x39 {
            return None;
        }
        let d: usize = (u - 0x30) as usize;
        proof {
            assert(v@.take(i + 1).drop_last() == v@.take(i as int));
            assert(v@.take(i + 1).last() == v@[i as int]);
        }
        if fits {
            if n > (usize::MAX - d) / 10 {
                fits = false;
            } else {
                n = n * 10 + d;
            }
        }
        i += 1;
    }
    assert(v@.take(v@.len() as int) == v@);
    if fits {
        Some(n)
    } else {
        None
    }
}

} // verus!
