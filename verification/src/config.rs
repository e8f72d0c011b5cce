//! The user's settings, their defaults, and the validation of the settings form.
use vstd::prelude::*;

use crate::text::{
    chars_of, digit_char, nat_decimal, string_of, trim_by, trim_end_by, trim_span, trim_start_by,
    trim_whitespace, whitespace_pred,
};

verus! {

/// Where the events come from.
#[derive(Debug, Clone, Copy, PartialEq, Eq, Structural)]
pub enum CalendarSourceKind {
    Ics,
    GoogleApi,
}

impl Default for CalendarSourceKind {
    /// The iCal feed.
    fn default() -> (r: CalendarSourceKind)
        ensures
            r == CalendarSourceKind::Ics,
    {
        CalendarSourceKind::Ics
    }
}

/// Light, dark, or the system's theme.
#[derive(Debug, Clone, Copy, PartialEq, Eq, Structural)]
pub enum ThemePreference {
    Light,
    Dark,
    System,
}

impl Default for ThemePreference {
    /// Follow the system.
    fn default() -> (r: ThemePreference)
        ensures
            r == ThemePreference::System,
    {
        ThemePreference::System
    }
}

/// The saved settings.
#[derive(Debug, Clone, PartialEq, Eq)]
pub struct AppConfig {
    /// The secret iCal feed address; empty means not configured yet.
    pub ics_feed_url: String,
    pub source: CalendarSourceKind,
    pub green_threshold_minutes: u32,
    pub yellow_threshold_minutes: u32,
    pub blink_threshold_minutes: u32,
    pub snooze_minutes: u32,
    pub do_not_disturb_max_minutes: u32,
    pub theme: ThemePreference,
    pub autostart: bool,
    pub refresh_interval_minutes: u32,
}

/// The settings of a first start.
pub open spec fn is_default_config(c: AppConfig) -> bool {
    &&& c.ics_feed_url@ == Seq::<char>::empty()
    &&& c.source == CalendarSourceKind::Ics
    &&& c.green_threshold_minutes == 15
    &&& c.yellow_threshold_minutes == 5
    &&& c.blink_threshold_minutes == 1
    &&& c.snooze_minutes == 2
    &&& c.do_not_disturb_max_minutes == 30
    &&& c.theme == ThemePreference::System
    &&& !c.autostart
    &&& c.refresh_interval_minutes == 5
}

impl Default for AppConfig {
    /// No feed, thresholds 15/5/1 minutes, snooze 2, do-not-disturb 30, system theme, no
    /// autostart, refresh every 5 minutes.
    fn default() -> (r: AppConfig)
        ensures
            is_default_config(r),
    {
        AppConfig {
            ics_feed_url: String::new(),
            source: CalendarSourceKind::default(),
            green_threshold_minutes: 15,
            yellow_threshold_minutes: 5,
            blink_threshold_minutes: 1,
            snooze_minutes: 2,
            do_not_disturb_max_minutes: 30,
            theme: ThemePreference::default(),
            autostart: false,
            refresh_interval_minutes: 5,
        }
    }
}

impl AppConfig {
    /// No feed address saved yet: the address is empty or only whitespace.
    pub fn is_unconfigured(&self) -> (r: bool)
        ensures
            r == (trim_whitespace(self.ics_feed_url@).len() == 0),
    {
        let cs = chars_of(self.ics_feed_url.as_str());
        let (a, b) = trim_span(&cs, 0, cs.len(), 0);
        assert(cs@.subrange(0, cs@.len() as int) =~= cs@);
        a == b
    }

    /// A field-by-field copy.
    pub fn duplicate(&self) -> (r: AppConfig)
        ensures
            r == *self,
    {
        AppConfig {
            ics_feed_url: self.ics_feed_url.clone(),
            source: self.source,
            green_threshold_minutes: self.green_threshold_minutes,
            yellow_threshold_minutes: self.yellow_threshold_minutes,
            blink_threshold_minutes: self.blink_threshold_minutes,
            snooze_minutes: self.snooze_minutes,
            do_not_disturb_max_minutes: self.do_not_disturb_max_minutes,
            theme: self.theme,
            autostart: self.autostart,
            refresh_interval_minutes: self.refresh_interval_minutes,
        }
    }
}

// ---------------------------------------------------------------------------
// The settings form
// ---------------------------------------------------------------------------

/// An ASCII decimal digit.
pub open spec fn is_digit(c: char) -> bool {
    '0' <= c && c <= '9'
}

/// The number spelled by ASCII digits.
pub open spec fn digits_value(s: Seq<char>) -> int
    decreases s.len(),
{
    if s.len() == 0 {
        0
    } else {
        10 * digits_value(s.drop_last()) + (s.last() as int - '0' as int)
    }
}

/// Every character is an ASCII digit.
pub open spec fn all_digits(d: Seq<char>) -> bool {
    forall|i: int| 0 <= i < d.len() ==> is_digit(#[trigger] d[i])
}

/// The text after a leading `+`, if any.
pub open spec fn after_plus(s: Seq<char>) -> Seq<char> {
    if s.len() > 0 && s[0] == '+' {
        s.drop_first()
    } else {
        s
    }
}

/// How `u32::from_str` reads a text: an optional `+`, then one or more ASCII digits whose
/// value fits in 32 bits.
pub open spec fn spec_parse_u32(s: Seq<char>) -> Option<u32> {
    let d = after_plus(s);
    if d.len() == 0 || !all_digits(d) {
        None
    } else if digits_value(d) > u32::MAX {
        None
    } else {
        Some(digits_value(d) as u32)
    }
}

proof fn lemma_digits_value_grows(s: Seq<char>, i: int)
    requires
        0 <= i <= s.len(),
        forall|j: int| 0 <= j < s.len() ==> is_digit(#[trigger] s[j]),
    ensures
        digits_value(s.take(i)) <= digits_value(s),
        0 <= digits_value(s.take(i)),
    decreases s.len() - i,
{
    if i < s.len() {
        lemma_digits_value_grows(s, i + 1);
        assert(s.take(i + 1).drop_last() =~= s.take(i));
        assert(s.take(i + 1).last() == s[i]);
    } else {
        assert(s.take(i) =~= s);
        lemma_digits_nonneg(s);
    }
}

proof fn lemma_digits_nonneg(s: Seq<char>)
    requires
        forall|j: int| 0 <= j < s.len() ==> is_digit(#[trigger] s[j]),
    ensures
        0 <= digits_value(s),
    decreases s.len(),
{
    if s.len() > 0 {
        let t = s.drop_last();
        assert forall|j: int| 0 <= j < t.len() implies is_digit(#[trigger] t[j]) by {
            assert(t[j] == s[j]);
        }
        lemma_digits_nonneg(t);
    }
}

/// Reads an unsigned 32-bit number as `u32::from_str` does.
pub fn parse_u32(s: &Vec<char>, lo: usize, hi: usize) -> (r: Option<u32>)
    requires
        lo <= hi <= s.len(),
    ensures
        r == spec_parse_u32(s@.subrange(lo as int, hi as int)),
{
    let ghost full = s@.subrange(lo as int, hi as int);
    let start = if lo < hi && s[lo] == '+' {
        lo + 1
    } else {
        lo
    };
    let ghost d = s@.subrange(start as int, hi as int);
    assert(d =~= after_plus(full));
    if start == hi {
        assert(d.len() == 0);
        return None;
    }
    let mut acc: u64 = 0;
    let mut i = start;
    while i < hi
        invariant
            lo <= start <= i <= hi <= s.len(),
            start < hi,
            d == s@.subrange(start as int, hi as int),
            full == s@.subrange(lo as int, hi as int),
            d == after_plus(full),
            forall|j: int| start <= j < i ==> is_digit(#[trigger] s@[j]),
            acc == digits_value(d.take(i - start)),
            acc <= u32::MAX,
        decreases hi - i,
    {
        let c = s[i];
        if !('0' <= c && c <= '9') {
            assert(!is_digit(d[i - start]));
            return None;
        }
        let digit: u64 = if c == '0' {
            0
        } else if c == '1' {
            1
        } else if c == '2' {
            2
        } else if c == '3' {
            3
        } else if c == '4' {
            4
        } else if c == '5' {
            5
        } else if c == '6' {
            6
        } else if c == '7' {
            7
        } else if c == '8' {
            8
        } else {
            9
        };
        assert(digit == c as int - '0' as int);
        proof {
            assert(d.take(i - start + 1).drop_last() =~= d.take(i - start));
            assert(d.take(i - start + 1).last() == c);
        }
        let next = acc * 10 + digit;
        if next > 4294967295 {
            proof {
                let k = i - start + 1;
                assert(digits_value(d.take(k)) == next);
                if all_digits(d) {
                    lemma_digits_value_grows(d, k);
                }
            }
            return None;
        }
        acc = next;
        i = i + 1;
    }
    proof {
        assert(d.take(hi - start) =~= d);
        assert forall|j: int| 0 <= j < d.len() implies is_digit(#[trigger] d[j]) by {
            assert(d[j] == s@[start + j]);
        }
    }
    Some(acc as u32)
}

/// A form field as `str::trim` and `u32::from_str` read it.
pub open spec fn field_value(s: Seq<char>) -> Option<u32> {
    spec_parse_u32(trim_whitespace(s))
}

/// Reads a numeric field of the settings form.
fn parse_field(text: &str) -> (r: Option<u32>)
    ensures
        r == field_value(text@),
{
    let cs = chars_of(text);
    let (a, b) = trim_span(&cs, 0, cs.len(), 0);
    assert(cs@.subrange(0, cs@.len() as int) =~= cs@);
    parse_u32(&cs, a, b)
}

/// Whether the form is accepted: every number reads as a `u32` and the refresh interval is
/// at least one minute.
pub open spec fn form_accepted(green: Seq<char>, yellow: Seq<char>, blink: Seq<char>, refresh: Seq<char>) -> bool {
    &&& field_value(green) is Some
    &&& field_value(yellow) is Some
    &&& field_value(blink) is Some
    &&& field_value(refresh) matches Some(r) && r >= 1
}

/// The settings that saving the form produces: the trimmed address and the four numbers over
/// the settings it started from; `None` when the form is not accepted.
pub fn apply_settings_form(
    base: &AppConfig,
    url: &str,
    green: &str,
    yellow: &str,
    blink: &str,
    refresh: &str,
) -> (r: Option<AppConfig>)
    ensures
        r is Some <==> form_accepted(green@, yellow@, blink@, refresh@),
        r matches Some(c) ==> {
            &&& c.ics_feed_url@ == trim_whitespace(url@)
            &&& Some(c.green_threshold_minutes) == field_value(green@)
            &&& Some(c.yellow_threshold_minutes) == field_value(yellow@)
            &&& Some(c.blink_threshold_minutes) == field_value(blink@)
            &&& Some(c.refresh_interval_minutes) == field_value(refresh@)
            &&& c.source == base.source
            &&& c.snooze_minutes == base.snooze_minutes
            &&& c.do_not_disturb_max_minutes == base.do_not_disturb_max_minutes
            &&& c.theme == base.theme
            &&& c.autostart == base.autostart
        },
{
    let g = parse_field(green);
    let y = parse_field(yellow);
    let b = parse_field(blink);
    let f = parse_field(refresh);
    let (g, y, b, f) = match (g, y, b, f) {
        (Some(g), Some(y), Some(b), Some(f)) => {
            if f >= 1 {
                (g, y, b, f)
            } else {
                return None;
            }
        },
        _ => return None,
    };
    let cs = chars_of(url);
    let (lo, hi) = trim_span(&cs, 0, cs.len(), 0);
    assert(cs@.subrange(0, cs@.len() as int) =~= cs@);
    let mut c = base.duplicate();
    c.ics_feed_url = string_of(&cs, lo, hi);
    c.green_threshold_minutes = g;
    c.yellow_threshold_minutes = y;
    c.blink_threshold_minutes = b;
    c.refresh_interval_minutes = f;
    Some(c)
}

// ---------------------------------------------------------------------------
// Law: the form reads back what it shows
// ---------------------------------------------------------------------------

proof fn lemma_digit_char(d: int)
    requires
        0 <= d < 10,
    ensures
        is_digit(digit_char(d)),
        digit_char(d) as int - '0' as int == d,
        !crate::text::is_unicode_whitespace(digit_char(d)),
        digit_char(d) != '+',
{
}

/// The decimal digits of `n` are digits, at least one, and spell `n`.
proof fn lemma_decimal_digits(n: nat)
    ensures
        nat_decimal(n).len() > 0,
        all_digits(nat_decimal(n)),
        digits_value(nat_decimal(n)) == n,
    decreases n,
{
    if n < 10 {
        lemma_digit_char(n as int);
        let s = nat_decimal(n);
        assert(s.drop_last() =~= Seq::<char>::empty());
        assert(digits_value(s.drop_last()) == 0);
        assert(s.last() == digit_char(n as int));
    } else {
        lemma_decimal_digits(n / 10);
        lemma_digit_char((n % 10) as int);
        let p = nat_decimal(n / 10);
        let s = nat_decimal(n);
        assert(s.drop_last() =~= p);
        assert(s.last() == digit_char((n % 10) as int));
        assert(n == 10 * (n / 10) + n % 10) by (nonlinear_arith);
        assert(digits_value(s) == 10 * digits_value(p) + (n % 10));
        assert forall|i: int| 0 <= i < s.len() implies is_digit(#[trigger] s[i]) by {
            if i < p.len() {
                assert(s[i] == p[i]);
            }
        }
    }
}

/// A number printed in decimal reads back as itself in a settings field: no whitespace to
/// trim, no sign, only digits.
pub proof fn lemma_decimal_field(n: u32)
    ensures
        field_value(nat_decimal(n as nat)) == Some(n),
{
    let s = nat_decimal(n as nat);
    lemma_decimal_digits(n as nat);
    assert(is_digit(s[0]));
    assert(is_digit(s.last()));
    assert(!crate::text::is_unicode_whitespace(s[0]));
    assert(!crate::text::is_unicode_whitespace(s.last()));
    assert(trim_start_by(s, whitespace_pred()) == s);
    assert(trim_end_by(s, whitespace_pred()) == s);
    assert(trim_whitespace(s) == s);
    assert(s[0] != '+');
    assert(after_plus(s) == s);
}

/// Saving the settings form as it was filled from `c`, without edits, is accepted when the
/// refresh interval is at least one minute and reads back every number of `c`: with
/// `apply_settings_form`, the saved settings are `c` with its address trimmed.
pub proof fn lemma_form_round_trip(c: AppConfig)
    requires
        c.refresh_interval_minutes >= 1,
    ensures
        form_accepted(
            nat_decimal(c.green_threshold_minutes as nat),
            nat_decimal(c.yellow_threshold_minutes as nat),
            nat_decimal(c.blink_threshold_minutes as nat),
            nat_decimal(c.refresh_interval_minutes as nat),
        ),
        field_value(nat_decimal(c.green_threshold_minutes as nat)) == Some(c.green_threshold_minutes),
        field_value(nat_decimal(c.yellow_threshold_minutes as nat)) == Some(c.yellow_threshold_minutes),
        field_value(nat_decimal(c.blink_threshold_minutes as nat)) == Some(c.blink_threshold_minutes),
        field_value(nat_decimal(c.refresh_interval_minutes as nat)) == Some(
            c.refresh_interval_minutes,
        ),
{
    lemma_decimal_field(c.green_threshold_minutes);
    lemma_decimal_field(c.yellow_threshold_minutes);
    lemma_decimal_field(c.blink_threshold_minutes);
    lemma_decimal_field(c.refresh_interval_minutes);
}

} // verus!
