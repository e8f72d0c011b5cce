//! Character and string helpers shared by the parsers and formatters.
use vstd::prelude::*;

verus! {

// ---------------------------------------------------------------------------
// Character classes
// ---------------------------------------------------------------------------

/// Unicode `White_Space`, the set that `char::is_whitespace` and `str::trim` use.
pub open spec fn is_unicode_whitespace(c: char) -> bool {
    ||| ('\u{9}' <= c && c <= '\u{d}')
    ||| c == ' '
    ||| c == '\u{85}'
    ||| c == '\u{a0}'
    ||| c == '\u{1680}'
    ||| ('\u{2000}' <= c && c <= '\u{200a}')
    ||| c == '\u{2028}'
    ||| c == '\u{2029}'
    ||| c == '\u{202f}'
    ||| c == '\u{205f}'
    ||| c == '\u{3000}'
}

/// Whether `c` is a Unicode whitespace character.
pub fn is_whitespace(c: char) -> (r: bool)
    ensures
        r == is_unicode_whitespace(c),
{
    ('\u{9}' <= c && c <= '\u{d}') || c == ' ' || c == '\u{85}' || c == '\u{a0}' || c
        == '\u{1680}' || ('\u{2000}' <= c && c <= '\u{200a}') || c == '\u{2028}' || c
        == '\u{2029}' || c == '\u{202f}' || c == '\u{205f}' || c == '\u{3000}'
}

/// ASCII letters and digits.
pub open spec fn is_ascii_alnum(c: char) -> bool {
    ('0' <= c && c <= '9') || ('a' <= c && c <= 'z') || ('A' <= c && c <= 'Z')
}

/// The predicate `is_unicode_whitespace`, as a value.
pub open spec fn whitespace_pred() -> spec_fn(char) -> bool {
    |c: char| is_unicode_whitespace(c)
}

/// Characters that may stand around a link in free text but not inside it: everything but
/// ASCII letters, digits and `: / . - _ ? = &`.
pub open spec fn is_url_noise_char(c: char) -> bool {
    !(is_ascii_alnum(c) || c == ':' || c == '/' || c == '.' || c == '-' || c == '_' || c == '?'
        || c == '=' || c == '&')
}

/// The predicate `is_url_noise_char`, as a value.
pub open spec fn url_noise_pred() -> spec_fn(char) -> bool {
    |c: char| is_url_noise_char(c)
}

/// Whether `c` is noise around a link.
pub fn is_url_noise(c: char) -> (r: bool)
    ensures
        r == is_url_noise_char(c),
{
    !(('0' <= c && c <= '9') || ('a' <= c && c <= 'z') || ('A' <= c && c <= 'Z') || c == ':'
        || c == '/' || c == '.' || c == '-' || c == '_' || c == '?' || c == '=' || c == '&')
}

/// The trimming predicate numbered `kind`: whitespace (0) or link noise (1).
pub open spec fn trim_pred(kind: u8) -> spec_fn(char) -> bool {
    if kind == 0 {
        whitespace_pred()
    } else {
        url_noise_pred()
    }
}

// ---------------------------------------------------------------------------
// Trimming
// ---------------------------------------------------------------------------

/// `s` without the leading characters that satisfy `p`.
pub open spec fn trim_start_by(s: Seq<char>, p: spec_fn(char) -> bool) -> Seq<char>
    decreases s.len(),
{
    if s.len() > 0 && p(s[0]) {
        trim_start_by(s.drop_first(), p)
    } else {
        s
    }
}

/// `s` without the trailing characters that satisfy `p`.
pub open spec fn trim_end_by(s: Seq<char>, p: spec_fn(char) -> bool) -> Seq<char>
    decreases s.len(),
{
    if s.len() > 0 && p(s.last()) {
        trim_end_by(s.drop_last(), p)
    } else {
        s
    }
}

/// `s` without the leading and trailing characters that satisfy `p`.
pub open spec fn trim_by(s: Seq<char>, p: spec_fn(char) -> bool) -> Seq<char> {
    trim_end_by(trim_start_by(s, p), p)
}

/// `s` without leading and trailing Unicode whitespace, as `str::trim` returns it.
pub open spec fn trim_whitespace(s: Seq<char>) -> Seq<char> {
    trim_by(s, whitespace_pred())
}

/// Trimming from the front keeps a suffix of `s`.
pub proof fn lemma_trim_start_is_suffix(s: Seq<char>, p: spec_fn(char) -> bool)
    ensures
        trim_start_by(s, p).len() <= s.len(),
        trim_start_by(s, p) == s.skip(s.len() - trim_start_by(s, p).len()),
    decreases s.len(),
{
    if s.len() > 0 && p(s[0]) {
        lemma_trim_start_is_suffix(s.drop_first(), p);
        assert(s.drop_first().skip(s.drop_first().len() - trim_start_by(s, p).len()) =~= s.skip(
            s.len() - trim_start_by(s, p).len(),
        ));
    } else {
        assert(s.skip(0) =~= s);
    }
}

/// Trimming from the back keeps a prefix of `s`.
pub proof fn lemma_trim_end_is_prefix(s: Seq<char>, p: spec_fn(char) -> bool)
    ensures
        trim_end_by(s, p).len() <= s.len(),
        trim_end_by(s, p) == s.take(trim_end_by(s, p).len() as int),
    decreases s.len(),
{
    if s.len() > 0 && p(s.last()) {
        lemma_trim_end_is_prefix(s.drop_last(), p);
        assert(s.drop_last().take(trim_end_by(s, p).len() as int) =~= s.take(
            trim_end_by(s, p).len() as int,
        ));
    } else {
        assert(s.take(s.len() as int) =~= s);
    }
}

/// Skipping a prefix of characters that satisfy `p` does not change the front trim.
proof fn lemma_trim_start_skip(s: Seq<char>, p: spec_fn(char) -> bool, i: int)
    requires
        0 <= i <= s.len(),
        forall|j: int| 0 <= j < i ==> p(#[trigger] s[j]),
    ensures
        trim_start_by(s, p) == trim_start_by(s.skip(i), p),
    decreases i,
{
    if i > 0 {
        assert(s.drop_first().skip(i - 1) =~= s.skip(i));
        lemma_trim_start_skip(s.drop_first(), p, i - 1);
    } else {
        assert(s.skip(0) =~= s);
    }
}

/// Dropping a suffix of characters that satisfy `p` does not change the back trim.
proof fn lemma_trim_end_take(s: Seq<char>, p: spec_fn(char) -> bool, i: int)
    requires
        0 <= i <= s.len(),
        forall|j: int| i <= j < s.len() ==> p(#[trigger] s[j]),
    ensures
        trim_end_by(s, p) == trim_end_by(s.take(i), p),
    decreases s.len() - i,
{
    if i < s.len() {
        assert(s.drop_last().take(i) =~= s.take(i));
        lemma_trim_end_take(s.drop_last(), p, i);
    } else {
        assert(s.take(i) =~= s);
    }
}

/// The bounds of `s[lo..hi]` once the characters that satisfy `trim_pred(kind)` are dropped
/// at both ends.
pub fn trim_span(s: &Vec<char>, lo: usize, hi: usize, kind: u8) -> (r: (usize, usize))
    requires
        lo <= hi <= s.len(),
        kind <= 1,
    ensures
        lo <= r.0 <= r.1 <= hi,
        s@.subrange(r.0 as int, r.1 as int) == trim_by(s@.subrange(lo as int, hi as int), trim_pred(kind)),
{
    let ghost w = s@.subrange(lo as int, hi as int);
    let ghost drop = trim_pred(kind);
    let mut a = lo;
    while a < hi && trim_drops(s[a], kind)
        invariant
            lo <= a <= hi <= s.len(),
            w == s@.subrange(lo as int, hi as int),
            drop == trim_pred(kind),
            kind <= 1,
            forall|j: int| lo <= j < a ==> drop(#[trigger] s@[j]),
        decreases hi - a,
    {
        a = a + 1;
    }
    proof {
        assert forall|j: int| 0 <= j < a - lo implies drop(#[trigger] w[j]) by {
            assert(w[j] == s@[lo + j]);
        }
        lemma_trim_start_skip(w, drop, a - lo);
        assert(w.skip(a - lo) =~= s@.subrange(a as int, hi as int));
        if a < hi {
            assert(!drop(s@[a as int]));
            assert(trim_start_by(s@.subrange(a as int, hi as int), drop) == s@.subrange(
                a as int,
                hi as int,
            ));
        } else {
            assert(s@.subrange(a as int, hi as int).len() == 0);
        }
    }
    let mut b = hi;
    while b > a && trim_drops(s[b - 1], kind)
        invariant
            lo <= a <= b <= hi <= s.len(),
            drop == trim_pred(kind),
            kind <= 1,
            forall|j: int| b <= j < hi ==> drop(#[trigger] s@[j]),
        decreases b - a,
    {
        b = b - 1;
    }
    proof {
        let v = s@.subrange(a as int, hi as int);
        assert forall|j: int| b - a <= j < v.len() implies drop(#[trigger] v[j]) by {
            assert(v[j] == s@[a + j]);
        }
        lemma_trim_end_take(v, drop, b - a);
        assert(v.take(b - a) =~= s@.subrange(a as int, b as int));
        if b > a {
            assert(!drop(s@[b - 1]));
            assert(s@.subrange(a as int, b as int).last() == s@[b - 1]);
        }
    }
    (a, b)
}

/// Whether the trimming predicate numbered `kind` holds of `c`.
fn trim_drops(c: char, kind: u8) -> (r: bool)
    requires
        kind <= 1,
    ensures
        r == trim_pred(kind)(c),
{
    if kind == 0 {
        is_whitespace(c)
    } else {
        is_url_noise(c)
    }
}

// ---------------------------------------------------------------------------
// Conversions between `str`, `String` and characters
// ---------------------------------------------------------------------------

/// The characters of a string slice, in order.
pub fn chars_of(s: &str) -> (r: Vec<char>)
    ensures
        r@ == s@,
{
    let mut r: Vec<char> = Vec::new();
    proof {
        broadcast use vstd::string::axiom_spec_iter;
    }
    for c in it: s.chars()
        invariant
            r@ == it.history(),
    {
        r.push(c);
    }
    assert(r@ =~= s@);
    r
}

/// Appends one character (`String::push`).
#[verifier::external_body]
pub(crate) fn push_char(s: &mut String, c: char)
    ensures
        final(s)@ == old(s)@.push(c),
{
    s.push(c);
}

/// Appends a string slice (`String::push_str`).
#[verifier::external_body]
pub(crate) fn push_str(s: &mut String, t: &str)
    ensures
        final(s)@ == old(s)@ + t@,
{
    s.push_str(t);
}

/// Appends the characters `cs[lo..hi]`.
pub fn push_chars(s: &mut String, cs: &Vec<char>, lo: usize, hi: usize)
    requires
        lo <= hi <= cs.len(),
    ensures
        final(s)@ == old(s)@ + cs@.subrange(lo as int, hi as int),
{
    let ghost start = s@;
    let mut i = lo;
    while i < hi
        invariant
            lo <= i <= hi <= cs.len(),
            s@ == start + cs@.subrange(lo as int, i as int),
        decreases hi - i,
    {
        push_char(s, cs[i]);
        i = i + 1;
        assert(s@ =~= start + cs@.subrange(lo as int, i as int));
    }
}

/// The string made of the characters `cs[lo..hi]`.
pub fn string_of(cs: &Vec<char>, lo: usize, hi: usize) -> (r: String)
    requires
        lo <= hi <= cs.len(),
    ensures
        r@ == cs@.subrange(lo as int, hi as int),
{
    let mut r = String::new();
    push_chars(&mut r, cs, lo, hi);
    assert(r@ =~= cs@.subrange(lo as int, hi as int));
    r
}

/// A copy of a string slice.
pub fn owned(s: &str) -> (r: String)
    ensures
        r@ == s@,
{
    let mut r = String::new();
    push_str(&mut r, s);
    assert(r@ =~= s@);
    r
}

/// Decodes UTF-8 bytes (`String::from_utf8`); `None` when the bytes are not valid UTF-8.
#[verifier::external_body]
pub(crate) fn string_from_utf8(bytes: Vec<u8>) -> (r: Option<String>)
    ensures
        r is Some <==> vstd::utf8::valid_utf8(bytes@),
        r matches Some(t) ==> t@ == vstd::utf8::decode_utf8(bytes@),
{
    String::from_utf8(bytes).ok()
}

/// What `str::to_lowercase` returns: full Unicode lowercase mapping, which depends on the text
/// alone.
pub uninterp spec fn unicode_lowercase(s: Seq<char>) -> Seq<char>;

/// Lowercases a string (`str::to_lowercase`).
#[verifier::external_body]
pub(crate) fn to_lowercase(s: &str) -> (r: String)
    ensures
        r@ == unicode_lowercase(s@),
{
    s.to_lowercase()
}

// ---------------------------------------------------------------------------
// Searching
// ---------------------------------------------------------------------------

/// Whether `p` occurs in `s` at position `i`.
pub open spec fn occurs_at(s: Seq<char>, p: Seq<char>, i: int) -> bool {
    0 <= i && i + p.len() <= s.len() && s.subrange(i, i + p.len()) == p
}

/// The first position at or after `i` where `p` occurs in `s` (`str::find` from there).
pub open spec fn find_from(s: Seq<char>, p: Seq<char>, i: int) -> Option<int>
    decreases s.len() + 1 - i,
{
    if i < 0 || i + p.len() > s.len() {
        None
    } else if occurs_at(s, p, i) {
        Some(i)
    } else {
        find_from(s, p, i + 1)
    }
}

/// The first position where `p` occurs in `s`.
pub open spec fn find_first(s: Seq<char>, p: Seq<char>) -> Option<int> {
    find_from(s, p, 0)
}

/// Whether `p` occurs anywhere in `s`.
pub open spec fn contains_seq(s: Seq<char>, p: Seq<char>) -> bool {
    find_first(s, p) is Some
}

/// What `find_from` returns is an occurrence at or after `i`, and there is none before it.
pub proof fn lemma_find_from(s: Seq<char>, p: Seq<char>, i: int)
    requires
        0 <= i,
    ensures
        find_from(s, p, i) matches Some(k) ==> i <= k && occurs_at(s, p, k) && forall|j: int|
            i <= j < k ==> !occurs_at(s, p, j),
        find_from(s, p, i) is None ==> forall|j: int| i <= j ==> !occurs_at(s, p, j),
    decreases s.len() + 1 - i,
{
    if i + p.len() > s.len() {
    } else if occurs_at(s, p, i) {
    } else {
        lemma_find_from(s, p, i + 1);
    }
}

/// Whether `p[..]` equals `s[i..i + p.len()]`, comparing one character at a time.
pub fn matches_at(s: &Vec<char>, p: &Vec<char>, i: usize) -> (r: bool)
    ensures
        r == occurs_at(s@, p@, i as int),
{
    if i > s.len() || p.len() > s.len() - i {
        return false;
    }
    let mut k: usize = 0;
    while k < p.len()
        invariant
            i + p.len() <= s.len(),
            k <= p.len(),
            forall|j: int| 0 <= j < k ==> s@[i + j] == p@[j],
        decreases p.len() - k,
    {
        if s[i + k] != p[k] {
            assert(s@.subrange(i as int, i + p.len())[k as int] != p@[k as int]);
            return false;
        }
        k = k + 1;
    }
    assert(s@.subrange(i as int, i + p.len()) =~= p@);
    true
}

/// The first position at or after `start` where `p` occurs in `s`.
pub fn find_chars(s: &Vec<char>, p: &Vec<char>, start: usize) -> (r: Option<usize>)
    ensures
        r matches Some(k) ==> find_from(s@, p@, start as int) == Some(k as int),
        r is None ==> find_from(s@, p@, start as int) is None,
{
    proof {
        lemma_find_from(s@, p@, start as int);
    }
    if p.len() == 0 {
        if start <= s.len() {
            assert(s@.subrange(start as int, start as int) =~= p@);
            assert(occurs_at(s@, p@, start as int));
            return Some(start);
        }
        return None;
    }
    let mut i = start;
    while i <= s.len() && p.len() <= s.len() - i
        invariant
            start <= i,
            forall|j: int| start <= j < i ==> !occurs_at(s@, p@, j),
            find_from(s@, p@, start as int) == find_from(s@, p@, i as int),
            p.len() > 0,
        decreases s.len() + 1 - i,
    {
        if matches_at(s, p, i) {
            return Some(i);
        }
        i = i + 1;
    }
    proof {
        if find_from(s@, p@, i as int) is Some {
            lemma_find_from(s@, p@, i as int);
        }
    }
    None
}

// ---------------------------------------------------------------------------
// Decimal numbers
// ---------------------------------------------------------------------------

/// The ASCII digit of `d` (`0 <= d <= 9`).
pub open spec fn digit_char(d: int) -> char {
    if d == 0 {
        '0'
    } else if d == 1 {
        '1'
    } else if d == 2 {
        '2'
    } else if d == 3 {
        '3'
    } else if d == 4 {
        '4'
    } else if d == 5 {
        '5'
    } else if d == 6 {
        '6'
    } else if d == 7 {
        '7'
    } else if d == 8 {
        '8'
    } else {
        '9'
    }
}

/// The decimal digits of `n`, most significant first, with no leading zeros.
pub open spec fn nat_decimal(n: nat) -> Seq<char>
    decreases n,
{
    if n < 10 {
        seq![digit_char(n as int)]
    } else {
        nat_decimal(n / 10).push(digit_char((n % 10) as int))
    }
}

/// How `{}` formats an integer: a minus sign for negatives, then the digits.
pub open spec fn int_decimal(n: int) -> Seq<char> {
    if n < 0 {
        seq!['-'] + nat_decimal((-n) as nat)
    } else {
        nat_decimal(n as nat)
    }
}

fn digit(d: u64) -> (c: char)
    requires
        d < 10,
    ensures
        c == digit_char(d as int),
{
    match d {
        0 => '0',
        1 => '1',
        2 => '2',
        3 => '3',
        4 => '4',
        5 => '5',
        6 => '6',
        7 => '7',
        8 => '8',
        _ => '9',
    }
}

/// Appends the decimal digits of `n`.
fn push_nat_decimal(s: &mut String, n: u64)
    ensures
        final(s)@ == old(s)@ + nat_decimal(n as nat),
    decreases n,
{
    if n < 10 {
        push_char(s, digit(n));
        assert(final(s)@ =~= old(s)@ + nat_decimal(n as nat));
    } else {
        push_nat_decimal(s, n / 10);
        push_char(s, digit(n % 10));
        assert(final(s)@ =~= old(s)@ + nat_decimal(n as nat));
    }
}

/// Appends `n` as `{}` formats it.
pub fn push_decimal(s: &mut String, n: i64)
    ensures
        final(s)@ == old(s)@ + int_decimal(n as int),
{
    if n < 0 {
        push_char(s, '-');
        let m: u64 = if n == i64::MIN {
            9223372036854775808u64
        } else {
            (-n) as u64
        };
        push_nat_decimal(s, m);
        assert(final(s)@ =~= old(s)@ + int_decimal(n as int));
    } else {
        push_nat_decimal(s, n as u64);
    }
}

} // verus!
