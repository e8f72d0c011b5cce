//! Turning the events of an iCalendar feed into the meetings the app shows: RSVP and
//! cancellation filters, expansion of recurring series with their moved instances
//! (`RECURRENCE-ID`), meeting-link detection, and the owner's email from the feed URL.
use vstd::prelude::*;

use crate::calendar::{
    clone_opt_string, events_view, is_stable_sort_by_start, lemma_stable_sort_keeps_events,
    opt_view, sort_by_start, CalendarError,
    CalendarEvent, EventView, RsvpStatus,
};
use crate::text::{
    chars_of, contains_seq, find_chars, find_first, lemma_find_from, occurs_at, owned, push_char,
    push_str, string_from_utf8, string_of, to_lowercase, trim_by, trim_pred, trim_span,
    unicode_lowercase, url_noise_pred, is_unicode_whitespace, matches_at,
};
use crate::time::valid_timestamp;
use crate::calendar::ical::{
    attendee_address, attendee_count, attendee_part_stat, component_count, event_cancelled,
    event_description, event_end, event_has_rrule, event_location, event_occurrences,
    event_recurrence_id, event_start, event_summary, event_uid, ical_attendee_address,
    ical_attendee_count, ical_attendee_part_stat, ical_cancelled, ical_component_count,
    ical_description, ical_end, ical_has_rrule, ical_is_event, ical_location,
    ical_occurrences, ical_recurrence_builds, ical_recurrence_id, ical_recurrence_zoned,
    ical_start, ical_summary, ical_uid, is_event, parse_calendar, ParsedCalendar,
};
use vstd::string::StringSliceAdditionalSpecFns;

verus! {

// ---------------------------------------------------------------------------
// What the logic reads from one VEVENT
// ---------------------------------------------------------------------------

/// A `DTSTART`, `DTEND` or `RECURRENCE-ID` value: a whole day or a date-time, with its UTC
/// timestamp when one exists (midnight UTC for a day; none for a floating time or an unknown
/// time zone).
#[derive(Debug, Clone, Copy, PartialEq, Eq, Structural)]
pub enum IcsTime {
    Date(Option<i64>),
    DateTime(Option<i64>),
}

/// The `PARTSTAT` of an attendee.
#[derive(Debug, Clone, Copy, PartialEq, Eq, Structural)]
pub enum ParticipationStatus {
    NeedsAction,
    Accepted,
    Declined,
    Tentative,
    Delegated,
    Completed,
    InProcess,
}

/// One `ATTENDEE` of an event.
#[derive(Debug, Clone, PartialEq, Eq)]
pub struct IcsAttendee {
    /// The calendar address, as written (`mailto:...`).
    pub address: String,
    pub part_stat: Option<ParticipationStatus>,
}

/// The properties of one VEVENT that decide whether and when it is shown.
#[derive(Debug, Clone, PartialEq, Eq)]
pub struct IcsEvent {
    pub uid: Option<String>,
    pub summary: Option<String>,
    pub description: Option<String>,
    pub location: Option<String>,
    /// `STATUS:CANCELLED`.
    pub cancelled: bool,
    pub start: Option<IcsTime>,
    pub end: Option<IcsTime>,
    pub recurrence_id: Option<IcsTime>,
    /// Whether the event has an `RRULE`.
    pub has_rrule: bool,
    pub attendees: Vec<IcsAttendee>,
    /// The start of each occurrence of the series inside the requested window, or `None`
    /// when the recurrence could not be built.
    pub occurrences: Option<Vec<i64>>,
}

pub struct IcsAttendeeView {
    pub address: Seq<char>,
    pub part_stat: Option<ParticipationStatus>,
}

pub struct IcsEventView {
    pub uid: Option<Seq<char>>,
    pub summary: Option<Seq<char>>,
    pub description: Option<Seq<char>>,
    pub location: Option<Seq<char>>,
    pub cancelled: bool,
    pub start: Option<IcsTime>,
    pub end: Option<IcsTime>,
    pub recurrence_id: Option<IcsTime>,
    pub has_rrule: bool,
    pub attendees: Seq<IcsAttendeeView>,
    pub occurrences: Option<Seq<i64>>,
}

impl View for IcsAttendee {
    type V = IcsAttendeeView;

    open spec fn view(&self) -> IcsAttendeeView {
        IcsAttendeeView { address: self.address@, part_stat: self.part_stat }
    }
}

pub open spec fn opt_vec_view(v: Option<Vec<i64>>) -> Option<Seq<i64>> {
    match v {
        Some(w) => Some(w@),
        None => None,
    }
}

impl View for IcsEvent {
    type V = IcsEventView;

    open spec fn view(&self) -> IcsEventView {
        IcsEventView {
            uid: opt_view(self.uid),
            summary: opt_view(self.summary),
            description: opt_view(self.description),
            location: opt_view(self.location),
            cancelled: self.cancelled,
            start: self.start,
            end: self.end,
            recurrence_id: self.recurrence_id,
            has_rrule: self.has_rrule,
            attendees: self.attendees@.map_values(|a: IcsAttendee| a@),
            occurrences: opt_vec_view(self.occurrences),
        }
    }
}

/// The views of a sequence of feed events.
pub open spec fn ics_events_view(s: Seq<IcsEvent>) -> Seq<IcsEventView> {
    s.map_values(|e: IcsEvent| e@)
}

/// Every timestamp in a time value lies in the range that `chrono` can represent.
pub open spec fn ics_time_wf(t: Option<IcsTime>) -> bool {
    match t {
        Some(IcsTime::Date(Some(x))) => valid_timestamp(x as int),
        Some(IcsTime::DateTime(Some(x))) => valid_timestamp(x as int),
        _ => true,
    }
}

/// Every timestamp in an event lies in the range that `chrono` can represent.
pub open spec fn ics_event_wf(e: IcsEventView) -> bool {
    &&& ics_time_wf(e.start)
    &&& ics_time_wf(e.end)
    &&& ics_time_wf(e.recurrence_id)
    &&& (e.occurrences matches Some(occ) ==> forall|k: int|
        0 <= k < occ.len() ==> valid_timestamp(#[trigger] occ[k] as int))
}

// ---------------------------------------------------------------------------
// Times
// ---------------------------------------------------------------------------

/// The UTC instant of a time value and whether it is a whole day.
pub open spec fn spec_to_utc_and_all_day(t: IcsTime) -> Option<(i64, bool)> {
    match t {
        IcsTime::Date(Some(x)) => Some((x, true)),
        IcsTime::Date(None) => None,
        IcsTime::DateTime(Some(x)) => Some((x, false)),
        IcsTime::DateTime(None) => None,
    }
}

/// The UTC instant of an optional time value.
pub open spec fn instant_of(t: Option<IcsTime>) -> Option<i64> {
    match t {
        Some(x) => match spec_to_utc_and_all_day(x) {
            Some(p) => Some(p.0),
            None => None,
        },
        None => None,
    }
}

/// The UTC instant of a time value and whether it is a whole day.
pub fn to_utc_and_all_day(t: IcsTime) -> (r: Option<(i64, bool)>)
    ensures
        r == spec_to_utc_and_all_day(t),
{
    match t {
        IcsTime::Date(Some(x)) => Some((x, true)),
        IcsTime::Date(None) => None,
        IcsTime::DateTime(Some(x)) => Some((x, false)),
        IcsTime::DateTime(None) => None,
    }
}

/// The UTC instant of an optional time value.
pub fn instant(t: Option<IcsTime>) -> (r: Option<i64>)
    ensures
        r == instant_of(t),
{
    match t {
        Some(x) => match to_utc_and_all_day(x) {
            Some(p) => Some(p.0),
            None => None,
        },
        None => None,
    }
}

// ---------------------------------------------------------------------------
// Owner's email from the private feed URL
// ---------------------------------------------------------------------------

/// The value of an ASCII hexadecimal digit.
pub open spec fn hex_digit_value(b: u8) -> Option<int> {
    if 48 <= b && b <= 57 {
        Some(b - 48)
    } else if 97 <= b && b <= 102 {
        Some(b - 87)
    } else if 65 <= b && b <= 70 {
        Some(b - 55)
    } else {
        None
    }
}

/// How `u8::from_str_radix(.., 16)` reads the two bytes after a `%` (it accepts a leading
/// `+`).
pub open spec fn hex_pair_value(b1: u8, b2: u8) -> Option<u8> {
    if b1 == 43 {
        match hex_digit_value(b2) {
            Some(v) => Some(v as u8),
            None => None,
        }
    } else {
        match (hex_digit_value(b1), hex_digit_value(b2)) {
            (Some(h), Some(l)) => Some((16 * h + l) as u8),
            _ => None,
        }
    }
}

/// `p` followed by the bytes in `o`, if any.
pub open spec fn prepend_bytes(p: Seq<u8>, o: Option<Seq<u8>>) -> Option<Seq<u8>> {
    match o {
        Some(r) => Some(p + r),
        None => None,
    }
}

/// Percent-decoding of bytes: `%` followed by two more bytes is replaced by the byte they
/// spell, or the whole decoding fails when they spell none; every other byte is kept.
pub open spec fn decode_percent_bytes(b: Seq<u8>) -> Option<Seq<u8>>
    decreases b.len(),
{
    if b.len() == 0 {
        Some(Seq::empty())
    } else if b[0] == 37 && 2 < b.len() {
        match hex_pair_value(b[1], b[2]) {
            Some(v) => prepend_bytes(seq![v], decode_percent_bytes(b.skip(3))),
            None => None,
        }
    } else {
        prepend_bytes(seq![b[0]], decode_percent_bytes(b.drop_first()))
    }
}

/// Percent-decoding of a text: its UTF-8 bytes decoded, then read back as UTF-8.
pub open spec fn spec_percent_decode(s: Seq<char>) -> Option<Seq<char>> {
    match decode_percent_bytes(vstd::utf8::encode_utf8(s)) {
        Some(out) => if vstd::utf8::valid_utf8(out) {
            Some(vstd::utf8::decode_utf8(out))
        } else {
            None
        },
        None => None,
    }
}

fn hex_digit(b: u8) -> (r: Option<u8>)
    ensures
        r matches Some(v) ==> hex_digit_value(b) == Some(v as int),
        r is None ==> hex_digit_value(b) is None,
{
    if 48 <= b && b <= 57 {
        Some(b - 48)
    } else if 97 <= b && b <= 102 {
        Some(b - 87)
    } else if 65 <= b && b <= 70 {
        Some(b - 55)
    } else {
        None
    }
}

fn hex_pair(b1: u8, b2: u8) -> (r: Option<u8>)
    ensures
        r == hex_pair_value(b1, b2),
{
    if b1 == 43 {
        hex_digit(b2)
    } else {
        match (hex_digit(b1), hex_digit(b2)) {
            (Some(h), Some(l)) => Some(16 * h + l),
            _ => None,
        }
    }
}

proof fn lemma_prepend_assoc(a: Seq<u8>, b: Seq<u8>, o: Option<Seq<u8>>)
    ensures
        prepend_bytes(a, prepend_bytes(b, o)) == prepend_bytes(a + b, o),
{
    if let Some(r) = o {
        assert(a + (b + r) =~= (a + b) + r);
    }
}

/// Decodes `%XX` escapes; `None` when an escape is malformed or the result is not UTF-8.
pub fn percent_decode(s: &str) -> (r: Option<String>)
    ensures
        opt_view(r) == spec_percent_decode(s@),
{
    let bytes = s.as_bytes();
    let ghost all = bytes@;
    let mut out: Vec<u8> = Vec::new();
    let mut i: usize = 0;
    proof {
        assert(all.skip(0) =~= all);
        if let Some(r) = decode_percent_bytes(all) {
            assert(Seq::<u8>::empty() + r =~= r);
        }
    }
    while i < bytes.len()
        invariant
            i <= bytes.len(),
            all == bytes@,
            all == s.spec_bytes(),
            decode_percent_bytes(all) == prepend_bytes(out@, decode_percent_bytes(all.skip(i as int))),
        decreases bytes.len() - i,
    {
        let ghost rest = all.skip(i as int);
        if bytes[i] == 37 && bytes.len() - i > 2 {
            match hex_pair(bytes[i + 1], bytes[i + 2]) {
                Some(v) => {
                    proof {
                        assert(rest[1] == bytes@[i + 1] && rest[2] == bytes@[i + 2]);
                        assert(rest.skip(3) =~= all.skip(i + 3));
                        lemma_prepend_assoc(out@, seq![v], decode_percent_bytes(rest.skip(3)));
                    }
                    out.push(v);
                    i = i + 3;
                },
                None => {
                    proof {
                        assert(rest[0] == bytes@[i as int]);
                        assert(rest[1] == bytes@[i + 1] && rest[2] == bytes@[i + 2]);
                        assert(decode_percent_bytes(rest) is None);
                        assert(decode_percent_bytes(all) is None);
                        assert(all == s.spec_bytes());
                    }
                    return None;
                },
            }
        } else {
            let b = bytes[i];
            proof {
                assert(rest.drop_first() =~= all.skip(i + 1));
                lemma_prepend_assoc(out@, seq![b], decode_percent_bytes(rest.drop_first()));
            }
            out.push(b);
            i = i + 1;
        }
    }
    proof {
        assert(all.skip(i as int) =~= Seq::<u8>::empty());
        assert(out@ + Seq::<u8>::empty() =~= out@);
    }
    string_from_utf8(out)
}

proof fn lemma_decode_plain_bytes(b: Seq<u8>)
    requires
        forall|i: int| 0 <= i < b.len() ==> #[trigger] b[i] != 37,
    ensures
        decode_percent_bytes(b) == Some(b),
    decreases b.len(),
{
    if b.len() > 0 {
        let t = b.drop_first();
        assert forall|i: int| 0 <= i < t.len() implies #[trigger] t[i] != 37 by {
            assert(t[i] == b[i + 1]);
        }
        lemma_decode_plain_bytes(t);
        assert(seq![b[0]] + t =~= b);
    }
}

proof fn lemma_marked_byte_not_percent(x: u8)
    by (bit_vector)
    ensures
        (0x80u8 | x) != 37u8,
        (0xC0u8 | x) != 37u8,
        (0xE0u8 | x) != 37u8,
        (0xF0u8 | x) != 37u8,
{
}

proof fn lemma_ascii_byte(v: u32)
    by (bit_vector)
    requires
        v <= 0x7F,
        v != 37,
    ensures
        (v & 0x7F) as u8 != 37u8,
{
}

/// No byte of the UTF-8 encoding of a scalar other than `%` is the byte of `%`.
proof fn lemma_scalar_no_percent(v: u32)
    requires
        v != 37,
    ensures
        forall|j: int|
            0 <= j < vstd::utf8::encode_scalar(v).len() ==> #[trigger] vstd::utf8::encode_scalar(v)[j]
                != 37,
{
    let e = vstd::utf8::encode_scalar(v);
    if vstd::utf8::has_width_1_encoding(v) {
        lemma_ascii_byte(v);
    } else {
        lemma_marked_byte_not_percent(((v >> 6) & 0x1F) as u8);
        lemma_marked_byte_not_percent(((v >> 12) & 0x0F) as u8);
        lemma_marked_byte_not_percent(((v >> 18) & 0x7) as u8);
        lemma_marked_byte_not_percent((v & 0x3F) as u8);
        lemma_marked_byte_not_percent(((v >> 6) & 0x3F) as u8);
        lemma_marked_byte_not_percent(((v >> 12) & 0x3F) as u8);
    }
}

/// A text without `%` has no byte of `%` in its UTF-8 encoding.
proof fn lemma_encode_no_percent(s: Seq<char>)
    requires
        forall|i: int| 0 <= i < s.len() ==> #[trigger] s[i] != '%',
    ensures
        forall|j: int|
            0 <= j < vstd::utf8::encode_utf8(s).len() ==> #[trigger] vstd::utf8::encode_utf8(s)[j]
                != 37,
    decreases s.len(),
{
    if s.len() > 0 {
        let t = s.drop_first();
        assert forall|i: int| 0 <= i < t.len() implies #[trigger] t[i] != '%' by {
            assert(t[i] == s[i + 1]);
        }
        lemma_encode_no_percent(t);
        let c = s[0];
        let u = c as u32;
        assert(u != 37) by {
            if u == 37 {
                vstd::utf8::char_u32_cast(c, u);
                assert(c == '%');
            }
        }
        lemma_scalar_no_percent(u);
        let first = vstd::utf8::encode_scalar(u);
        let all = vstd::utf8::encode_utf8(s);
        assert(all == first + vstd::utf8::encode_utf8(t));
        assert forall|j: int| 0 <= j < all.len() implies #[trigger] all[j] != 37 by {
            if j < first.len() {
                assert(all[j] == first[j]);
            } else {
                assert(all[j] == vstd::utf8::encode_utf8(t)[j - first.len()]);
            }
        }
    }
}

/// Text without escapes decodes to itself: a text with no `%` comes back unchanged.
pub proof fn lemma_percent_decode_plain(s: Seq<char>)
    requires
        forall|i: int| 0 <= i < s.len() ==> #[trigger] s[i] != '%',
    ensures
        spec_percent_decode(s) == Some(s),
{
    let b = vstd::utf8::encode_utf8(s);
    lemma_encode_no_percent(s);
    assert forall|i: int| 0 <= i < b.len() implies #[trigger] b[i] != 37 by {}
    lemma_decode_plain_bytes(b);
    vstd::utf8::encode_utf8_valid_utf8(s);
    vstd::utf8::encode_utf8_decode_utf8(s);
}

/// The uppercase hexadecimal digit of `d` (`0 <= d < 16`), as a byte.
pub open spec fn hex_upper(d: int) -> u8 {
    if d < 10 {
        (48 + d) as u8
    } else {
        (55 + d) as u8
    }
}

/// Every byte of `b` escaped as `%XX`, with uppercase hexadecimal digits.
pub open spec fn escape_bytes(b: Seq<u8>) -> Seq<u8>
    decreases b.len(),
{
    if b.len() == 0 {
        Seq::empty()
    } else {
        seq![37u8, hex_upper(b[0] as int / 16), hex_upper(b[0] as int % 16)] + escape_bytes(b.drop_first())
    }
}

proof fn lemma_hex_upper(d: int)
    requires
        0 <= d < 16,
    ensures
        hex_upper(d) != 43,
        hex_digit_value(hex_upper(d)) == Some(d),
{
}

proof fn lemma_decode_escaped(b: Seq<u8>)
    ensures
        decode_percent_bytes(escape_bytes(b)) == Some(b),
    decreases b.len(),
{
    if b.len() > 0 {
        let rest = b.drop_first();
        lemma_decode_escaped(rest);
        let x = b[0];
        let hi = x as int / 16;
        let lo = x as int % 16;
        lemma_hex_upper(hi);
        lemma_hex_upper(lo);
        assert(16 * hi + lo == x);
        let e = escape_bytes(b);
        let head = seq![37u8, hex_upper(hi), hex_upper(lo)];
        assert(e == head + escape_bytes(rest));
        assert(e[0] == 37 && e[1] == hex_upper(hi) && e[2] == hex_upper(lo));
        assert(e.skip(3) =~= escape_bytes(rest));
        assert(hex_pair_value(e[1], e[2]) == Some(x));
        assert(seq![x] + rest =~= b);
    }
}

/// Escaping every byte of a text as `%XX` and decoding gives the text back: any text whose
/// UTF-8 bytes are those escapes of the bytes of `s` decodes to `s`.
pub proof fn lemma_percent_escape_round_trip(s: Seq<char>, t: Seq<char>)
    requires
        vstd::utf8::encode_utf8(t) == escape_bytes(vstd::utf8::encode_utf8(s)),
    ensures
        spec_percent_decode(t) == Some(s),
{
    lemma_decode_escaped(vstd::utf8::encode_utf8(s));
    vstd::utf8::encode_utf8_valid_utf8(s);
    vstd::utf8::encode_utf8_decode_utf8(s);
}

/// The owner's email that a private Google feed URL carries between `/ical/` and the next
/// `/`, percent-decoded.
pub open spec fn spec_extract_email(url: Seq<char>) -> Option<Seq<char>> {
    match find_first(url, "/ical/"@) {
        Some(i) => {
            let rest = url.skip(i + 6);
            match find_first(rest, seq!['/']) {
                Some(j) => spec_percent_decode(rest.take(j)),
                None => None,
            }
        },
        None => None,
    }
}

/// The owner's email carried by a private feed URL
/// (`.../ical/<email percent-encoded>/private-xxxx/basic.ics`).
pub fn extract_email_from_ics_url(url: &str) -> (r: Option<String>)
    ensures
        opt_view(r) == spec_extract_email(url@),
{
    proof {
        reveal_strlit("/ical/");
    }
    let cs = chars_of(url);
    let marker = chars_of("/ical/");
    proof {
        lemma_find_from(cs@, marker@, 0);
    }
    let start = match find_chars(&cs, &marker, 0) {
        Some(i) => i,
        None => return None,
    };
    assert(marker@.len() == 6);
    assert(occurs_at(cs@, marker@, start as int));
    assert(start + 6 <= cs@.len());
    assert(cs@.len() == cs.len());
    let rest_start = start + 6;
    let rest = string_of(&cs, rest_start, cs.len());
    let rest_chars = chars_of(rest.as_str());
    let mut slash: Vec<char> = Vec::new();
    slash.push('/');
    assert(slash@ =~= seq!['/']);
    let end = match find_chars(&rest_chars, &slash, 0) {
        Some(j) => j,
        None => {
            assert(rest_chars@ =~= url@.skip(start + 6));
            return None;
        },
    };
    proof {
        lemma_find_from(rest_chars@, slash@, 0);
        assert(rest_chars@ =~= url@.skip(start + 6));
    }
    let encoded = string_of(&rest_chars, 0, end);
    assert(encoded@ =~= url@.skip(start + 6).take(end as int));
    percent_decode(encoded.as_str())
}

// ---------------------------------------------------------------------------
// Meeting links
// ---------------------------------------------------------------------------

/// Characters that end a word when looking for links.
pub open spec fn is_link_separator(c: char) -> bool {
    is_unicode_whitespace(c) || c == '<' || c == '>' || c == '"' || c == '\''
}

/// The words of `s` between separators, empty words included (`str::split`).
pub open spec fn split_words(s: Seq<char>) -> Seq<Seq<char>>
    decreases s.len(),
{
    if s.len() == 0 {
        seq![Seq::empty()]
    } else if is_link_separator(s[0]) {
        seq![Seq::<char>::empty()] + split_words(s.drop_first())
    } else {
        let rest = split_words(s.drop_first());
        rest.update(0, seq![s[0]] + rest[0])
    }
}

/// A Meet, Zoom or Teams web address.
pub open spec fn is_meeting_link(w: Seq<char>) -> bool {
    &&& (occurs_at(w, "http://"@, 0) || occurs_at(w, "https://"@, 0))
    &&& (contains_seq(w, "meet.google.com/"@) || contains_seq(w, "zoom.us/"@) || contains_seq(
        w,
        "teams.microsoft.com/"@,
    ))
}

/// The first word that, once stripped of surrounding punctuation, is a meeting link.
pub open spec fn first_meeting_link(words: Seq<Seq<char>>) -> Option<Seq<char>>
    decreases words.len(),
{
    if words.len() == 0 {
        None
    } else if is_meeting_link(trim_by(words[0], url_noise_pred())) {
        Some(trim_by(words[0], url_noise_pred()))
    } else {
        first_meeting_link(words.drop_first())
    }
}

/// The meeting link found in free text, if any.
pub open spec fn spec_extract_meeting_url(text: Seq<char>) -> Option<Seq<char>> {
    first_meeting_link(split_words(text))
}

proof fn lemma_split_words_nonempty(s: Seq<char>)
    ensures
        split_words(s).len() >= 1,
    decreases s.len(),
{
    if s.len() > 0 {
        lemma_split_words_nonempty(s.drop_first());
    }
}

/// A word free of separators, followed by a separator, is the first word.
proof fn lemma_split_words_at(s: Seq<char>, k: int)
    requires
        0 <= k < s.len(),
        is_link_separator(s[k]),
        forall|j: int| 0 <= j < k ==> !is_link_separator(#[trigger] s[j]),
    ensures
        split_words(s) == seq![s.take(k)] + split_words(s.skip(k + 1)),
    decreases k,
{
    if k == 0 {
        assert(s.drop_first() =~= s.skip(1));
        assert(s.take(0) =~= Seq::<char>::empty());
    } else {
        let t = s.drop_first();
        assert forall|j: int| 0 <= j < k - 1 implies !is_link_separator(#[trigger] t[j]) by {
            assert(t[j] == s[j + 1]);
        }
        lemma_split_words_at(t, k - 1);
        assert(t.skip(k) =~= s.skip(k + 1));
        assert(seq![s[0]] + t.take(k - 1) =~= s.take(k));
        let rest = split_words(t);
        assert(split_words(s) == rest.update(0, seq![s[0]] + rest[0]));
        assert(split_words(s) =~= seq![s.take(k)] + split_words(s.skip(k + 1)));
    }
}

/// Text free of separators is a single word.
proof fn lemma_split_words_single(s: Seq<char>)
    requires
        forall|j: int| 0 <= j < s.len() ==> !is_link_separator(#[trigger] s[j]),
    ensures
        split_words(s) == seq![s],
    decreases s.len(),
{
    if s.len() > 0 {
        let t = s.drop_first();
        assert forall|j: int| 0 <= j < t.len() implies !is_link_separator(#[trigger] t[j]) by {
            assert(t[j] == s[j + 1]);
        }
        lemma_split_words_single(t);
        assert(seq![s[0]] + t =~= s);
        assert(split_words(s) =~= seq![s]);
    } else {
        assert(s =~= Seq::<char>::empty());
    }
}

fn is_link_separator_char(c: char) -> (r: bool)
    ensures
        r == is_link_separator(c),
{
    crate::text::is_whitespace(c) || c == '<' || c == '>' || c == '"' || c == '\''
}

/// The characters `cs[lo..hi]` as their own vector.
fn slice_chars(cs: &Vec<char>, lo: usize, hi: usize) -> (r: Vec<char>)
    requires
        lo <= hi <= cs.len(),
    ensures
        r@ == cs@.subrange(lo as int, hi as int),
{
    let mut r: Vec<char> = Vec::new();
    let mut i = lo;
    while i < hi
        invariant
            lo <= i <= hi <= cs.len(),
            r@ == cs@.subrange(lo as int, i as int),
        decreases hi - i,
    {
        r.push(cs[i]);
        i = i + 1;
        assert(r@ =~= cs@.subrange(lo as int, i as int));
    }
    r
}

/// The link markers and URL schemes, as characters.
struct LinkPatterns {
    http: Vec<char>,
    https: Vec<char>,
    meet: Vec<char>,
    zoom: Vec<char>,
    teams: Vec<char>,
}

impl LinkPatterns {
    spec fn wf(&self) -> bool {
        &&& self.http@ == "http://"@
        &&& self.https@ == "https://"@
        &&& self.meet@ == "meet.google.com/"@
        &&& self.zoom@ == "zoom.us/"@
        &&& self.teams@ == "teams.microsoft.com/"@
    }

    fn new() -> (r: LinkPatterns)
        ensures
            r.wf(),
    {
        LinkPatterns {
            http: chars_of("http://"),
            https: chars_of("https://"),
            meet: chars_of("meet.google.com/"),
            zoom: chars_of("zoom.us/"),
            teams: chars_of("teams.microsoft.com/"),
        }
    }

    fn is_meeting_link(&self, w: &Vec<char>) -> (r: bool)
        requires
            self.wf(),
        ensures
            r == is_meeting_link(w@),
    {
        let scheme = matches_at(w, &self.http, 0) || matches_at(w, &self.https, 0);
        if !scheme {
            return false;
        }
        find_chars(w, &self.meet, 0).is_some() || find_chars(w, &self.zoom, 0).is_some()
            || find_chars(w, &self.teams, 0).is_some()
    }
}

/// Finds a Meet, Zoom or Teams link in free text: the first word (split at whitespace and at
/// `<`, `>`, `"`, `'`) that, stripped of surrounding punctuation, starts with `http://` or
/// `https://` and names one of those services.
pub fn extract_meeting_url(text: &str) -> (r: Option<String>)
    ensures
        opt_view(r) == spec_extract_meeting_url(text@),
{
    let cs = chars_of(text);
    let pats = LinkPatterns::new();
    let mut start: usize = 0;
    let mut i: usize = 0;
    assert(cs@.skip(0) =~= cs@);
    while i <= cs.len()
        invariant
            start <= i <= cs.len(),
            pats.wf(),
            spec_extract_meeting_url(text@) == first_meeting_link(split_words(cs@.skip(start as int))),
            cs@ == text@,
            forall|j: int| start <= j < i && j < cs.len() ==> !is_link_separator(#[trigger] cs@[j]),
        decreases cs.len() + 1 - i,
    {
        let at_end = i == cs.len();
        if at_end || is_link_separator_char(cs[i]) {
            let ghost rest = cs@.skip(start as int);
            let ghost w = cs@.subrange(start as int, i as int);
            let ghost tail: Seq<Seq<char>> = if at_end {
                Seq::empty()
            } else {
                split_words(cs@.skip(i + 1))
            };
            let (a, b) = trim_span(&cs, start, i, 1);
            let word = slice_chars(&cs, a, b);
            proof {
                if at_end {
                    assert(rest =~= w);
                    assert forall|j: int| 0 <= j < rest.len() implies !is_link_separator(
                        #[trigger] rest[j],
                    ) by {
                        assert(rest[j] == cs@[start + j]);
                    }
                    lemma_split_words_single(rest);
                    assert(split_words(rest) =~= seq![w] + tail);
                } else {
                    assert forall|j: int| 0 <= j < i - start implies !is_link_separator(
                        #[trigger] rest[j],
                    ) by {
                        assert(rest[j] == cs@[start + j]);
                    }
                    assert(rest[i - start] == cs@[i as int]);
                    lemma_split_words_at(rest, i - start);
                    assert(rest.take(i - start) =~= w);
                    assert(rest.skip(i - start + 1) =~= cs@.skip(i + 1));
                }
                assert(word@ == trim_by(w, trim_pred(1)));
                assert(split_words(rest) == seq![w] + tail);
                assert((seq![w] + tail)[0] == w);
                assert((seq![w] + tail).drop_first() =~= tail);
                if at_end {
                    assert(first_meeting_link(tail) is None);
                }
            }
            if pats.is_meeting_link(&word) {
                return Some(string_of(&cs, a, b));
            }
            if at_end {
                return None;
            }
            start = i + 1;
        }
        i = i + 1;
    }
    None
}


// ---------------------------------------------------------------------------
// RSVP
// ---------------------------------------------------------------------------

/// A calendar address without its leading `mailto:` prefixes (`trim_start_matches`).
pub open spec fn strip_mailto(s: Seq<char>) -> Seq<char>
    decreases s.len(),
{
    if "mailto:"@.len() > 0 && occurs_at(s, "mailto:"@, 0) {
        strip_mailto(s.skip("mailto:"@.len() as int))
    } else {
        s
    }
}

/// Whether an attendee is the owner, given the owner's lowercased email.
pub open spec fn is_owner(a: IcsAttendeeView, owner: Seq<char>) -> bool {
    strip_mailto(unicode_lowercase(a.address)) == owner
}

/// The first attendee that is the owner.
pub open spec fn owner_attendee(atts: Seq<IcsAttendeeView>, owner: Seq<char>) -> Option<
    IcsAttendeeView,
>
    decreases atts.len(),
{
    if atts.len() == 0 {
        None
    } else if is_owner(atts[0], owner) {
        Some(atts[0])
    } else {
        owner_attendee(atts.drop_first(), owner)
    }
}

/// The answer recorded by a `PARTSTAT`: declined, accepted, or (anything else) unanswered.
pub open spec fn rsvp_of(ps: Option<ParticipationStatus>) -> RsvpStatus {
    match ps {
        Some(ParticipationStatus::Declined) => RsvpStatus::Declined,
        Some(ParticipationStatus::Accepted) => RsvpStatus::Accepted,
        _ => RsvpStatus::NeedsAction,
    }
}

/// The owner's lowercased email, which is how attendees are matched.
pub open spec fn owner_key(email: Option<Seq<char>>) -> Option<Seq<char>> {
    match email {
        Some(e) => Some(unicode_lowercase(e)),
        None => None,
    }
}

/// The owner's answer to an event. Without a known owner the event counts as accepted, so
/// that nothing is hidden by mistake; without a matching attendee it counts as unanswered.
pub open spec fn spec_resolve_rsvp(atts: Seq<IcsAttendeeView>, key: Option<Seq<char>>) -> RsvpStatus {
    match key {
        None => RsvpStatus::Accepted,
        Some(owner) => match owner_attendee(atts, owner) {
            Some(a) => rsvp_of(a.part_stat),
            None => RsvpStatus::NeedsAction,
        },
    }
}

/// `s` without its leading `mailto:` prefixes.
fn strip_mailto_exec(s: &Vec<char>, mailto: &Vec<char>) -> (r: String)
    requires
        mailto@ == "mailto:"@,
    ensures
        r@ == strip_mailto(s@),
{
    proof {
        reveal_strlit("mailto:");
    }
    let mut pos: usize = 0;
    assert(s@.skip(0) =~= s@);
    while matches_at(s, mailto, pos)
        invariant
            pos <= s.len(),
            mailto@ == "mailto:"@,
            mailto@.len() == 7,
            strip_mailto(s@) == strip_mailto(s@.skip(pos as int)),
        decreases s.len() - pos,
    {
        proof {
            let rest = s@.skip(pos as int);
            assert(rest.subrange(0, 7) =~= s@.subrange(pos as int, pos + 7));
            assert(rest.skip(7) =~= s@.skip(pos + 7));
        }
        pos = pos + 7;
    }
    proof {
        let rest = s@.skip(pos as int);
        if occurs_at(rest, "mailto:"@, 0) {
            assert(rest.subrange(0, 7) =~= s@.subrange(pos as int, pos + 7));
        }
    }
    let r = string_of(s, pos, s.len());
    assert(r@ =~= s@.skip(pos as int));
    r
}

/// The owner's answer to an event, given the owner's email (matched in lowercase).
pub fn resolve_rsvp(event: &IcsEvent, owner: &Option<String>) -> (r: RsvpStatus)
    ensures
        r == spec_resolve_rsvp(event@.attendees, owner_key(opt_view(*owner))),
{
    let me = match owner {
        None => return RsvpStatus::Accepted,
        Some(m) => to_lowercase(m.as_str()),
    };
    let mailto = chars_of("mailto:");
    let ghost atts = event@.attendees;
    let mut k: usize = 0;
    assert(atts.skip(0) =~= atts);
    while k < event.attendees.len()
        invariant
            k <= event.attendees.len(),
            atts == event@.attendees,
            owner_key(opt_view(*owner)) == Some(me@),
            mailto@ == "mailto:"@,
            owner_attendee(atts, me@) == owner_attendee(atts.skip(k as int), me@),
        decreases event.attendees.len() - k,
    {
        let a = &event.attendees[k];
        let lower = to_lowercase(a.address.as_str());
        let lower_chars = chars_of(lower.as_str());
        let stripped = strip_mailto_exec(&lower_chars, &mailto);
        let ghost rest = atts.skip(k as int);
        proof {
            assert(rest[0] == a@);
            assert(rest.drop_first() =~= atts.skip(k + 1));
        }
        if stripped == me {
            assert(is_owner(rest[0], me@));
            assert(owner_attendee(rest, me@) == Some(rest[0]));
            let rs = match a.part_stat {
                Some(ParticipationStatus::Declined) => RsvpStatus::Declined,
                Some(ParticipationStatus::Accepted) => RsvpStatus::Accepted,
                _ => RsvpStatus::NeedsAction,
            };
            assert(rs == rsvp_of(rest[0].part_stat));
            return rs;
        }
        k = k + 1;
    }
    RsvpStatus::NeedsAction
}

// ---------------------------------------------------------------------------
// Building the shown events
// ---------------------------------------------------------------------------

/// The text searched for a meeting link: the description and a space, then the location.
pub open spec fn spec_link_text(e: IcsEventView) -> Seq<char> {
    (match e.description {
        Some(d) => d + " "@,
        None => Seq::empty(),
    }) + (match e.location {
        Some(l) => l,
        None => Seq::empty(),
    })
}

/// The title shown for an event without `SUMMARY`.
pub open spec fn summary_or_default(s: Option<Seq<char>>) -> Seq<char> {
    match s {
        Some(t) => t,
        None => "(sin titulo)"@,
    }
}

/// The event identifier, empty when the event has none.
pub open spec fn uid_or_empty(s: Option<Seq<char>>) -> Seq<char> {
    match s {
        Some(t) => t,
        None => Seq::empty(),
    }
}

/// A standalone event (or a moved instance of a series) as shown, if it is shown: not
/// cancelled, with a readable start inside `[from, to)`, and not declined by the owner. An
/// event without `DTEND` ends when it starts.
pub open spec fn spec_build_event(e: IcsEventView, key: Option<Seq<char>>, from: i64, to: i64) -> Option<
    EventView,
> {
    if e.cancelled {
        None
    } else {
        match e.start {
            None => None,
            Some(st) => match spec_to_utc_and_all_day(st) {
                None => None,
                Some(p) => {
                    let start = p.0;
                    let all_day = p.1;
                    let end = match instant_of(e.end) {
                        Some(x) => x,
                        None => start,
                    };
                    if start < from || start >= to {
                        None
                    } else if spec_resolve_rsvp(e.attendees, key) == RsvpStatus::Declined {
                        None
                    } else {
                        Some(
                            EventView {
                                uid: uid_or_empty(e.uid),
                                summary: summary_or_default(e.summary),
                                start,
                                end,
                                all_day,
                                rsvp: spec_resolve_rsvp(e.attendees, key),
                                meeting_url: spec_extract_meeting_url(spec_link_text(e)),
                            },
                        )
                    }
                },
            },
        }
    }
}

/// The view of an optional event.
pub open spec fn opt_event_view(e: Option<CalendarEvent>) -> Option<EventView> {
    match e {
        Some(x) => Some(x@),
        None => None,
    }
}

/// The text searched for a meeting link.
pub fn link_text(event: &IcsEvent) -> (r: String)
    ensures
        r@ == spec_link_text(event@),
{
    let mut text = String::new();
    if let Some(desc) = &event.description {
        push_str(&mut text, desc.as_str());
        push_char(&mut text, ' ');
        proof {
            reveal_strlit(" ");
        }
    }
    if let Some(loc) = &event.location {
        push_str(&mut text, loc.as_str());
    }
    assert(text@ =~= spec_link_text(event@));
    text
}

fn summary_text(s: &Option<String>) -> (r: String)
    ensures
        r@ == summary_or_default(opt_view(*s)),
{
    match s {
        Some(t) => t.clone(),
        None => owned("(sin titulo)"),
    }
}

fn uid_text(s: &Option<String>) -> (r: String)
    ensures
        r@ == uid_or_empty(opt_view(*s)),
{
    match s {
        Some(t) => t.clone(),
        None => String::new(),
    }
}

/// A standalone event (or a moved instance of a series) as shown, if it is shown.
pub fn build_event_if_in_range(event: &IcsEvent, owner: &Option<String>, from: i64, to: i64) -> (r:
    Option<CalendarEvent>)
    ensures
        opt_event_view(r) == spec_build_event(event@, owner_key(opt_view(*owner)), from, to),
{
    if event.cancelled {
        return None;
    }
    let (start, all_day) = match event.start {
        None => return None,
        Some(st) => match to_utc_and_all_day(st) {
            None => return None,
            Some(p) => p,
        },
    };
    let end = match instant(event.end) {
        Some(x) => x,
        None => start,
    };
    if start < from || start >= to {
        return None;
    }
    let rsvp = resolve_rsvp(event, owner);
    if rsvp == RsvpStatus::Declined {
        return None;
    }
    let text = link_text(event);
    Some(
        CalendarEvent {
            uid: uid_text(&event.uid),
            summary: summary_text(&event.summary),
            start,
            end,
            all_day,
            rsvp,
            meeting_url: extract_meeting_url(text.as_str()),
        },
    )
}


// ---------------------------------------------------------------------------
// Series, their moved instances, and the selection of what is shown
// ---------------------------------------------------------------------------

/// The instant named by `RECURRENCE-ID`, which marks a moved instance of a series.
pub open spec fn recurrence_instant(e: IcsEventView) -> Option<i64> {
    instant_of(e.recurrence_id)
}

/// The master of a recurring series.
pub open spec fn is_master(e: IcsEventView) -> bool {
    recurrence_instant(e) is None && e.has_rrule
}

/// A standalone event.
pub open spec fn is_single(e: IcsEventView) -> bool {
    recurrence_instant(e) is None && !e.has_rrule
}

/// Whether `e` is the moved instance of series `uid` that replaces its occurrence at `t`.
pub open spec fn replaces(e: IcsEventView, uid: Seq<char>, t: i64) -> bool {
    recurrence_instant(e) == Some(t) && e.uid == Some(uid)
}

/// The position of the last event among the first `n` that replaces occurrence `t` of series
/// `uid` (a later one overrides an earlier one).
pub open spec fn find_replacement(evs: Seq<IcsEventView>, uid: Seq<char>, t: i64, n: int) -> Option<
    int,
>
    decreases n,
{
    if n <= 0 {
        None
    } else if replaces(evs[n - 1], uid, t) {
        Some(n - 1)
    } else {
        find_replacement(evs, uid, t, n - 1)
    }
}

/// An occurrence of a series as shown when nothing replaces it.
pub open spec fn series_instance(master: IcsEventView, key: Option<Seq<char>>, t: i64, duration: int) -> EventView {
    EventView {
        uid: uid_or_empty(master.uid),
        summary: summary_or_default(master.summary),
        start: t,
        end: (t + duration) as i64,
        all_day: false,
        rsvp: spec_resolve_rsvp(master.attendees, key),
        meeting_url: spec_extract_meeting_url(spec_link_text(master)),
    }
}

/// What occurrence `t` of a series shows: nothing when it falls at or after the end of the
/// window (which is open there); else its moved instance, when one exists (and if that is
/// shown), or else the occurrence itself unless the owner declined the series.
pub open spec fn occurrence_shown(
    master: IcsEventView,
    evs: Seq<IcsEventView>,
    key: Option<Seq<char>>,
    from: i64,
    to: i64,
    t: i64,
    duration: int,
) -> Seq<EventView> {
    if t >= to {
        Seq::empty()
    } else {
        match find_replacement(evs, uid_or_empty(master.uid), t, evs.len() as int) {
            Some(j) => match spec_build_event(evs[j], key, from, to) {
                Some(v) => seq![v],
                None => Seq::empty(),
            },
            None => if spec_resolve_rsvp(master.attendees, key) == RsvpStatus::Declined {
                Seq::empty()
            } else {
                seq![series_instance(master, key, t, duration)]
            },
        }
    }
}

/// What the first `n` occurrences of a series show, in order.
pub open spec fn occurrences_shown(
    master: IcsEventView,
    evs: Seq<IcsEventView>,
    key: Option<Seq<char>>,
    from: i64,
    to: i64,
    occ: Seq<i64>,
    duration: int,
    n: int,
) -> Seq<EventView>
    decreases n,
{
    if n <= 0 {
        Seq::empty()
    } else {
        occurrences_shown(master, evs, key, from, to, occ, duration, n - 1) + occurrence_shown(
            master,
            evs,
            key,
            from,
            to,
            occ[n - 1],
            duration,
        )
    }
}

/// What a recurring series shows in the window. A cancelled series, a series of whole days,
/// and a series whose start or recurrence cannot be read show nothing; each occurrence lasts
/// as long as the master (`DTEND - DTSTART`, zero without `DTEND`).
pub open spec fn spec_expand(
    master: IcsEventView,
    evs: Seq<IcsEventView>,
    key: Option<Seq<char>>,
    from: i64,
    to: i64,
) -> Seq<EventView> {
    if master.cancelled {
        Seq::empty()
    } else if master.start matches Some(IcsTime::Date(_)) {
        Seq::empty()
    } else {
        match instant_of(master.start) {
            None => Seq::empty(),
            Some(ms) => {
                let me = match instant_of(master.end) {
                    Some(x) => x,
                    None => ms,
                };
                match master.occurrences {
                    None => Seq::empty(),
                    Some(occ) => occurrences_shown(
                        master,
                        evs,
                        key,
                        from,
                        to,
                        occ,
                        me - ms,
                        occ.len() as int,
                    ),
                }
            },
        }
    }
}

/// What the standalone events among the first `n` show, in order.
pub open spec fn singles_shown(evs: Seq<IcsEventView>, key: Option<Seq<char>>, from: i64, to: i64, n: int) -> Seq<
    EventView,
>
    decreases n,
{
    if n <= 0 {
        Seq::empty()
    } else {
        let prev = singles_shown(evs, key, from, to, n - 1);
        if is_single(evs[n - 1]) {
            match spec_build_event(evs[n - 1], key, from, to) {
                Some(v) => prev.push(v),
                None => prev,
            }
        } else {
            prev
        }
    }
}

/// What the series among the first `n` events show, series after series.
pub open spec fn series_shown(evs: Seq<IcsEventView>, key: Option<Seq<char>>, from: i64, to: i64, n: int) -> Seq<
    EventView,
>
    decreases n,
{
    if n <= 0 {
        Seq::empty()
    } else {
        series_shown(evs, key, from, to, n - 1) + (if is_master(evs[n - 1]) {
            spec_expand(evs[n - 1], evs, key, from, to)
        } else {
            Seq::empty()
        })
    }
}

/// Everything the feed shows in the window before ordering: standalone events first, then
/// the occurrences of each series.
pub open spec fn spec_collect(evs: Seq<IcsEventView>, key: Option<Seq<char>>, from: i64, to: i64) -> Seq<
    EventView,
> {
    singles_shown(evs, key, from, to, evs.len() as int) + series_shown(
        evs,
        key,
        from,
        to,
        evs.len() as int,
    )
}

/// Whether every event of the feed is well formed.
pub open spec fn all_wf(evs: Seq<IcsEventView>) -> bool {
    forall|i: int| 0 <= i < evs.len() ==> ics_event_wf(#[trigger] evs[i])
}

fn is_single_exec(e: &IcsEvent) -> (r: bool)
    ensures
        r == is_single(e@),
{
    instant(e.recurrence_id).is_none() && !e.has_rrule
}

fn is_master_exec(e: &IcsEvent) -> (r: bool)
    ensures
        r == is_master(e@),
{
    instant(e.recurrence_id).is_none() && e.has_rrule
}

/// The position of the last event that replaces occurrence `t` of series `uid`.
fn find_replacement_exec(evs: &Vec<IcsEvent>, uid: &String, t: i64) -> (r: Option<usize>)
    ensures
        r matches Some(j) ==> j < evs.len() && find_replacement(
            ics_events_view(evs@),
            uid@,
            t,
            evs.len() as int,
        ) == Some(j as int),
        r is None ==> find_replacement(ics_events_view(evs@), uid@, t, evs.len() as int) is None,
{
    let ghost vs = ics_events_view(evs@);
    let mut n = evs.len();
    while n > 0
        invariant
            n <= evs.len(),
            vs == ics_events_view(evs@),
            find_replacement(vs, uid@, t, evs.len() as int) == find_replacement(vs, uid@, t, n as int),
        decreases n,
    {
        let e = &evs[n - 1];
        assert(vs[n - 1] == e@);
        let same_uid = match &e.uid {
            Some(u) => *u == *uid,
            None => false,
        };
        if instant(e.recurrence_id) == Some(t) && same_uid {
            return Some(n - 1);
        }
        n = n - 1;
    }
    None
}

/// Appends what a recurring series shows in the window.
pub fn expand_recurring_event(
    master: &IcsEvent,
    evs: &Vec<IcsEvent>,
    owner: &Option<String>,
    from: i64,
    to: i64,
    out: &mut Vec<CalendarEvent>,
)
    requires
        ics_event_wf(master@),
    ensures
        events_view(final(out)@) == events_view(old(out)@) + spec_expand(
            master@,
            ics_events_view(evs@),
            owner_key(opt_view(*owner)),
            from,
            to,
        ),
{
    let ghost vs = ics_events_view(evs@);
    let ghost key = owner_key(opt_view(*owner));
    let ghost start_out = events_view(out@);
    if master.cancelled {
        assert(events_view(out@) =~= start_out + Seq::<EventView>::empty());
        return;
    }
    if let Some(IcsTime::Date(_)) = master.start {
        assert(events_view(out@) =~= start_out + Seq::<EventView>::empty());
        return;
    }
    let ms = match instant(master.start) {
        Some(x) => x,
        None => {
            assert(events_view(out@) =~= start_out + Seq::<EventView>::empty());
            return;
        },
    };
    let me = match instant(master.end) {
        Some(x) => x,
        None => ms,
    };
    let occ = match &master.occurrences {
        Some(v) => v,
        None => {
            assert(events_view(out@) =~= start_out + Seq::<EventView>::empty());
            return;
        },
    };
    let duration = me - ms;
    let uid = uid_text(&master.uid);
    let summary = summary_text(&master.summary);
    let rsvp = resolve_rsvp(master, owner);
    let text = link_text(master);
    let url = extract_meeting_url(text.as_str());
    let mut k: usize = 0;
    assert(events_view(out@) =~= start_out + occurrences_shown(
        master@,
        vs,
        key,
        from,
        to,
        occ@,
        duration as int,
        0,
    ));
    while k < occ.len()
        invariant
            k <= occ.len(),
            vs == ics_events_view(evs@),
            key == owner_key(opt_view(*owner)),
            ics_event_wf(master@),
            master@.occurrences == Some(occ@),
            valid_timestamp(ms as int),
            valid_timestamp(me as int),
            duration == me - ms,
            uid@ == uid_or_empty(master@.uid),
            summary@ == summary_or_default(master@.summary),
            rsvp == spec_resolve_rsvp(master@.attendees, key),
            opt_view(url) == spec_extract_meeting_url(spec_link_text(master@)),
            events_view(out@) == start_out + occurrences_shown(
                master@,
                vs,
                key,
                from,
                to,
                occ@,
                duration as int,
                k as int,
            ),
        decreases occ.len() - k,
    {
        let t = occ[k];
        proof {
            let os = master@.occurrences.unwrap();
            assert(os == occ@);
            assert(valid_timestamp(os[k as int] as int));
        }
        let ghost before = events_view(out@);
        let ghost shown = occurrence_shown(master@, vs, key, from, to, t, duration as int);
        if t >= to {
            assert(events_view(out@) =~= before + shown);
        } else {
        match find_replacement_exec(evs, &uid, t) {
            Some(j) => {
                assert(vs[j as int] == evs@[j as int]@);
                if let Some(e) = build_event_if_in_range(&evs[j], owner, from, to) {
                    out.push(e);
                    assert(events_view(out@) =~= before + shown);
                } else {
                    assert(events_view(out@) =~= before + shown);
                }
            },
            None => {
                if rsvp != RsvpStatus::Declined {
                    let inst = CalendarEvent {
                        uid: uid.clone(),
                        summary: summary.clone(),
                        start: t,
                        end: t + duration,
                        all_day: false,
                        rsvp,
                        meeting_url: clone_opt_string(&url),
                    };
                    assert(inst@ == series_instance(master@, key, t, duration as int));
                    out.push(inst);
                    assert(events_view(out@) =~= before + shown);
                } else {
                    assert(events_view(out@) =~= before + shown);
                }
            },
        }
        }
        proof {
            assert(occurrences_shown(master@, vs, key, from, to, occ@, duration as int, k + 1)
                == occurrences_shown(master@, vs, key, from, to, occ@, duration as int, k as int)
                + occurrence_shown(master@, vs, key, from, to, occ@[k as int], duration as int));
            assert(events_view(out@) =~= start_out + occurrences_shown(
                master@,
                vs,
                key,
                from,
                to,
                occ@,
                duration as int,
                k + 1,
            ));
        }
        k = k + 1;
    }
}

/// The events a feed shows in `[from, to)`: standalone events and moved instances not
/// cancelled, not declined by the owner, and starting in the window; the occurrences of each
/// series that the recurrence engine placed in the window, each replaced by its moved instance
/// when there is one; everything ordered by start (stable). `owner_email` is the owner's
/// email as found in the feed URL.
pub fn select_events(evs: &Vec<IcsEvent>, owner_email: Option<&str>, from: i64, to: i64) -> (r: Vec<
    CalendarEvent,
>)
    requires
        all_wf(ics_events_view(evs@)),
    ensures
        is_stable_sort_by_start(
            events_view(r@),
            spec_collect(
                ics_events_view(evs@),
                owner_key(
                    match owner_email {
                        Some(e) => Some(e@),
                        None => None,
                    },
                ),
                from,
                to,
            ),
        ),
{
    let owner: Option<String> = match owner_email {
        Some(e) => Some(owned(e)),
        None => None,
    };
    let ghost key = owner_key(opt_view(owner));
    let ghost vs = ics_events_view(evs@);
    let mut out: Vec<CalendarEvent> = Vec::new();
    let mut i: usize = 0;
    assert(events_view(out@) =~= singles_shown(vs, key, from, to, 0));
    while i < evs.len()
        invariant
            i <= evs.len(),
            vs == ics_events_view(evs@),
            key == owner_key(opt_view(owner)),
            events_view(out@) == singles_shown(vs, key, from, to, i as int),
        decreases evs.len() - i,
    {
        assert(vs[i as int] == evs@[i as int]@);
        if is_single_exec(&evs[i]) {
            if let Some(e) = build_event_if_in_range(&evs[i], &owner, from, to) {
                out.push(e);
                assert(events_view(out@) =~= singles_shown(vs, key, from, to, i + 1));
            }
        }
        i = i + 1;
    }
    let ghost singles = events_view(out@);
    let mut i: usize = 0;
    assert(events_view(out@) =~= singles + series_shown(vs, key, from, to, 0));
    while i < evs.len()
        invariant
            i <= evs.len(),
            vs == ics_events_view(evs@),
            all_wf(vs),
            key == owner_key(opt_view(owner)),
            events_view(out@) == singles + series_shown(vs, key, from, to, i as int),
        decreases evs.len() - i,
    {
        assert(vs[i as int] == evs@[i as int]@);
        let ghost before = events_view(out@);
        if is_master_exec(&evs[i]) {
            assert(ics_event_wf(vs[i as int]));
            expand_recurring_event(&evs[i], evs, &owner, from, to, &mut out);
        }
        assert(events_view(out@) =~= singles + series_shown(vs, key, from, to, i + 1));
        i = i + 1;
    }
    sort_by_start(&out)
}


// ---------------------------------------------------------------------------
// Laws of the selection
// ---------------------------------------------------------------------------

/// A shown event is never one the owner declined, and starts inside the window.
pub open spec fn shown_ok(v: EventView, from: i64, to: i64) -> bool {
    v.rsvp != RsvpStatus::Declined && from <= v.start < to
}

/// The predicate `shown_ok`, as a value.
pub open spec fn shown_ok_pred(from: i64, to: i64) -> spec_fn(EventView) -> bool {
    |v: EventView| shown_ok(v, from, to)
}

/// A standalone event or moved instance is shown exactly when it is not cancelled, its start
/// can be read and lies in `[from, to)`, and the owner did not decline it: an unanswered
/// invitation is shown just like an accepted one.
pub proof fn lemma_build_event_shown_iff(e: IcsEventView, key: Option<Seq<char>>, from: i64, to: i64)
    ensures
        spec_build_event(e, key, from, to) is Some <==> {
            &&& !e.cancelled
            &&& instant_of(e.start) matches Some(s) && from <= s < to
            &&& spec_resolve_rsvp(e.attendees, key) != RsvpStatus::Declined
        },
        spec_build_event(e, key, from, to) matches Some(v) ==> v.rsvp == spec_resolve_rsvp(
            e.attendees,
            key,
        ) && Some(v.start) == instant_of(e.start),
{
}

/// Without the owner's email nobody can be found among the attendees, and no event is
/// hidden for its answer: every event counts as accepted.
pub proof fn lemma_unknown_owner_hides_nothing(atts: Seq<IcsAttendeeView>)
    ensures
        spec_resolve_rsvp(atts, None) == RsvpStatus::Accepted,
{
}

/// Each occurrence of a series shows at most one event, and none at or after the window's end;
/// when a moved instance replaces an occurrence inside the window, what it shows is that
/// instance (if the instance is shown) and never the original time.
pub proof fn lemma_occurrence_replaced(
    master: IcsEventView,
    evs: Seq<IcsEventView>,
    key: Option<Seq<char>>,
    from: i64,
    to: i64,
    t: i64,
    duration: int,
)
    ensures
        occurrence_shown(master, evs, key, from, to, t, duration).len() <= 1,
        t >= to ==> occurrence_shown(master, evs, key, from, to, t, duration).len() == 0,
        t < to ==> (find_replacement(evs, uid_or_empty(master.uid), t, evs.len() as int) matches Some(j) ==> {
            &&& occurrence_shown(master, evs, key, from, to, t, duration) == match spec_build_event(
                evs[j],
                key,
                from,
                to,
            ) {
                Some(v) => seq![v],
                None => Seq::<EventView>::empty(),
            }
        }),
{
}

/// A separator at the end of a text adds one empty word after its words.
proof fn lemma_split_words_space(d: Seq<char>)
    ensures
        split_words(d + seq![' ']) == split_words(d) + seq![Seq::<char>::empty()],
    decreases d.len(),
{
    lemma_split_words_nonempty(d);
    if d.len() == 0 {
        assert(d + seq![' '] =~= seq![' ']);
        assert(seq![' '].drop_first() =~= Seq::<char>::empty());
        assert(split_words(seq![' ']) =~= seq![Seq::<char>::empty()] + split_words(Seq::<char>::empty()));
        assert(split_words(Seq::<char>::empty()) =~= seq![Seq::<char>::empty()]);
    } else {
        let t = d.drop_first();
        lemma_split_words_space(t);
        lemma_split_words_nonempty(t);
        assert((d + seq![' ']).drop_first() =~= t + seq![' ']);
        assert((d + seq![' '])[0] == d[0]);
        if is_link_separator(d[0]) {
            assert(split_words(d + seq![' ']) =~= seq![Seq::<char>::empty()] + (split_words(t)
                + seq![Seq::<char>::empty()]));
        } else {
            let rest = split_words(t);
            assert((rest + seq![Seq::<char>::empty()]).update(0, seq![d[0]] + rest[0]) =~= rest.update(
                0,
                seq![d[0]] + rest[0],
            ) + seq![Seq::<char>::empty()]);
        }
    }
}

/// An empty word is never a meeting link, so a trailing one changes nothing.
proof fn lemma_first_link_trailing_empty(ws: Seq<Seq<char>>)
    ensures
        first_meeting_link(ws + seq![Seq::<char>::empty()]) == first_meeting_link(ws),
    decreases ws.len(),
{
    let e = Seq::<char>::empty();
    reveal_strlit("http://");
    reveal_strlit("https://");
    assert(trim_by(e, url_noise_pred()) =~= e) by {
        assert(crate::text::trim_start_by(e, url_noise_pred()) == e);
        assert(crate::text::trim_end_by(e, url_noise_pred()) == e);
    }
    assert(!occurs_at(e, "http://"@, 0));
    assert(!occurs_at(e, "https://"@, 0));
    assert(!is_meeting_link(trim_by(e, url_noise_pred())));
    if ws.len() == 0 {
        assert(ws + seq![e] =~= seq![e]);
        assert(seq![e].drop_first() =~= Seq::<Seq<char>>::empty());
        assert(seq![e][0] == e);
        assert(first_meeting_link(Seq::<Seq<char>>::empty()) is None);
        assert(first_meeting_link(seq![e]) == first_meeting_link(seq![e].drop_first()));
    } else {
        lemma_first_link_trailing_empty(ws.drop_first());
        assert((ws + seq![e]).drop_first() =~= ws.drop_first() + seq![e]);
        assert((ws + seq![e])[0] == ws[0]);
    }
}

/// Where a shown event's meeting link comes from: the link found in its description when it
/// has no location, the link found in its location when it has no description, and no link
/// when it has neither.
pub proof fn lemma_link_from_description_and_location(e: IcsEventView, key: Option<Seq<char>>, from: i64, to: i64)
    ensures
        spec_build_event(e, key, from, to) matches Some(v) ==> {
            &&& (e.description is Some && e.location is None) ==> v.meeting_url
                == spec_extract_meeting_url(e.description.unwrap())
            &&& (e.description is None && e.location is Some) ==> v.meeting_url
                == spec_extract_meeting_url(e.location.unwrap())
            &&& (e.description is None && e.location is None) ==> v.meeting_url is None
        },
{
    reveal_strlit(" ");
    match (e.description, e.location) {
        (Some(d), None) => {
            lemma_split_words_space(d);
            lemma_first_link_trailing_empty(split_words(d));
            assert(spec_link_text(e) =~= d + seq![' ']);
        },
        (None, Some(l)) => {
            assert(spec_link_text(e) =~= l);
        },
        (Some(d), Some(l)) => {},
        (None, None) => {
            let z = Seq::<char>::empty();
            assert(spec_link_text(e) =~= z);
            lemma_first_link_trailing_empty(Seq::<Seq<char>>::empty());
            assert(split_words(z) =~= seq![z]);
            assert(Seq::<Seq<char>>::empty() + seq![z] =~= seq![z]);
        },
    }
}

/// Only a DECLINED answer hides: with a known owner, the answer is Declined exactly when the
/// owner's attendee entry says `PARTSTAT=DECLINED`, Accepted exactly when it says `ACCEPTED`,
/// and NeedsAction for any other `PARTSTAT` (tentative, delegated, ...), for none, and when the
/// owner is not among the attendees; so such an event is shown.
pub proof fn lemma_only_declined_hides(atts: Seq<IcsAttendeeView>, owner: Seq<char>, e: IcsEventView, from: i64, to: i64)
    ensures
        owner_attendee(atts, owner) matches Some(a) ==> {
            &&& (spec_resolve_rsvp(atts, Some(owner)) == RsvpStatus::Declined <==> a.part_stat
                == Some(ParticipationStatus::Declined))
            &&& (spec_resolve_rsvp(atts, Some(owner)) == RsvpStatus::Accepted <==> a.part_stat
                == Some(ParticipationStatus::Accepted))
            &&& (a.part_stat != Some(ParticipationStatus::Declined) && a.part_stat != Some(
                ParticipationStatus::Accepted)) ==> spec_resolve_rsvp(atts, Some(owner))
                == RsvpStatus::NeedsAction
        },
        owner_attendee(atts, owner) is None ==> spec_resolve_rsvp(atts, Some(owner))
            == RsvpStatus::NeedsAction,
        (owner_attendee(e.attendees, owner) matches Some(a) && a.part_stat != Some(
            ParticipationStatus::Declined)) ==> (spec_build_event(e, Some(owner), from, to) is Some
            <==> spec_build_event(e, None, from, to) is Some),
{
}

/// An occurrence of a series inside the window that no moved instance replaces, and whose
/// series the owner did not decline, shows one event: the series' identifier and title, the
/// occurrence's start, the series' duration, the owner's answer, and the same meeting link a
/// standalone event with the series' description and location gets.
pub proof fn lemma_occurrence_carries_series_link(
    master: IcsEventView,
    evs: Seq<IcsEventView>,
    key: Option<Seq<char>>,
    from: i64,
    to: i64,
    t: i64,
    duration: int,
    single: IcsEventView,
)
    requires
        t < to,
        find_replacement(evs, uid_or_empty(master.uid), t, evs.len() as int) is None,
        spec_resolve_rsvp(master.attendees, key) != RsvpStatus::Declined,
        single.description == master.description,
        single.location == master.location,
    ensures
        occurrence_shown(master, evs, key, from, to, t, duration).len() == 1,
        ({
            let v = occurrence_shown(master, evs, key, from, to, t, duration)[0];
            &&& v.start == t
            &&& v.end == (t + duration) as i64
            &&& v.uid == uid_or_empty(master.uid)
            &&& v.summary == summary_or_default(master.summary)
            &&& !v.all_day
            &&& v.rsvp == spec_resolve_rsvp(master.attendees, key)
            &&& (spec_build_event(single, key, from, to) matches Some(w) ==> v.meeting_url
                == w.meeting_url)
            &&& (master.description is Some && master.location is None) ==> v.meeting_url
                == spec_extract_meeting_url(master.description.unwrap())
        }),
{
    assert(spec_link_text(single) == spec_link_text(master));
    if master.description is Some && master.location is None {
        let d = master.description.unwrap();
        reveal_strlit(" ");
        lemma_split_words_space(d);
        lemma_first_link_trailing_empty(split_words(d));
        assert(spec_link_text(master) =~= d + seq![' ']);
    }
}

proof fn lemma_build_event_ok(e: IcsEventView, key: Option<Seq<char>>, from: i64, to: i64)
    ensures
        spec_build_event(e, key, from, to) matches Some(v) ==> shown_ok(v, from, to),
{
}

proof fn lemma_occurrences_shown_ok(
    master: IcsEventView,
    evs: Seq<IcsEventView>,
    key: Option<Seq<char>>,
    from: i64,
    to: i64,
    occ: Seq<i64>,
    duration: int,
    n: int,
)
    requires
        0 <= n <= occ.len(),
        forall|k: int| 0 <= k < occ.len() ==> from <= #[trigger] occ[k] <= to,
    ensures
        forall|j: int|
            0 <= j < occurrences_shown(master, evs, key, from, to, occ, duration, n).len()
                ==> shown_ok(
                #[trigger] occurrences_shown(master, evs, key, from, to, occ, duration, n)[j],
                from,
                to,
            ),
    decreases n,
{
    if n > 0 {
        lemma_occurrences_shown_ok(master, evs, key, from, to, occ, duration, n - 1);
        let prev = occurrences_shown(master, evs, key, from, to, occ, duration, n - 1);
        let cur = occurrence_shown(master, evs, key, from, to, occ[n - 1], duration);
        let all = occurrences_shown(master, evs, key, from, to, occ, duration, n);
        assert(all == prev + cur);
        match find_replacement(evs, uid_or_empty(master.uid), occ[n - 1], evs.len() as int) {
            Some(j) => {
                lemma_build_event_ok(evs[j], key, from, to);
            },
            None => {},
        }
        assert forall|j: int| 0 <= j < all.len() implies shown_ok(#[trigger] all[j], from, to) by {
            if j < prev.len() {
                assert(all[j] == prev[j]);
            } else {
                assert(all[j] == cur[j - prev.len()]);
            }
        }
    }
}

proof fn lemma_singles_ok(evs: Seq<IcsEventView>, key: Option<Seq<char>>, from: i64, to: i64, n: int)
    requires
        0 <= n <= evs.len(),
    ensures
        forall|j: int|
            0 <= j < singles_shown(evs, key, from, to, n).len() ==> shown_ok(
                #[trigger] singles_shown(evs, key, from, to, n)[j],
                from,
                to,
            ),
    decreases n,
{
    if n > 0 {
        lemma_singles_ok(evs, key, from, to, n - 1);
        lemma_build_event_ok(evs[n - 1], key, from, to);
        let prev = singles_shown(evs, key, from, to, n - 1);
        let all = singles_shown(evs, key, from, to, n);
        assert forall|j: int| 0 <= j < all.len() implies shown_ok(#[trigger] all[j], from, to) by {
            if j < prev.len() {
                assert(all[j] == prev[j]);
            }
        }
    }
}

proof fn lemma_series_ok(evs: Seq<IcsEventView>, key: Option<Seq<char>>, from: i64, to: i64, n: int)
    requires
        0 <= n <= evs.len(),
        occurrences_in_window(evs, from, to),
    ensures
        forall|j: int|
            0 <= j < series_shown(evs, key, from, to, n).len() ==> shown_ok(
                #[trigger] series_shown(evs, key, from, to, n)[j],
                from,
                to,
            ),
    decreases n,
{
    if n > 0 {
        lemma_series_ok(evs, key, from, to, n - 1);
        let prev = series_shown(evs, key, from, to, n - 1);
        let m = evs[n - 1];
        let cur = if is_master(m) {
            spec_expand(m, evs, key, from, to)
        } else {
            Seq::empty()
        };
        let all = series_shown(evs, key, from, to, n);
        assert(all == prev + cur);
        if is_master(m) {
            assert(event_occurrences_in_window(m, from, to));
            if let Some(occ) = m.occurrences {
                if let Some(ms) = instant_of(m.start) {
                    let me = match instant_of(m.end) {
                        Some(x) => x,
                        None => ms,
                    };
                    lemma_occurrences_shown_ok(
                        m,
                        evs,
                        key,
                        from,
                        to,
                        occ,
                        me - ms,
                        occ.len() as int,
                    );
                }
            }
        }
        assert forall|j: int| 0 <= j < all.len() implies shown_ok(#[trigger] all[j], from, to) by {
            if j < prev.len() {
                assert(all[j] == prev[j]);
            } else {
                assert(all[j] == cur[j - prev.len()]);
            }
        }
    }
}

/// Everything a feed shows is neither declined by the owner nor outside the window: standalone
/// events, moved instances and occurrences of a series all start in `[from, to)`.
pub proof fn lemma_shown_events_ok(evs: Seq<IcsEventView>, key: Option<Seq<char>>, from: i64, to: i64)
    requires
        occurrences_in_window(evs, from, to),
    ensures
        forall|j: int|
            0 <= j < spec_collect(evs, key, from, to).len() ==> shown_ok(
                #[trigger] spec_collect(evs, key, from, to)[j],
                from,
                to,
            ),
{
    let a = singles_shown(evs, key, from, to, evs.len() as int);
    let b = series_shown(evs, key, from, to, evs.len() as int);
    lemma_singles_ok(evs, key, from, to, evs.len() as int);
    lemma_series_ok(evs, key, from, to, evs.len() as int);
    let all = spec_collect(evs, key, from, to);
    assert(all == a + b);
    assert forall|j: int| 0 <= j < all.len() implies shown_ok(#[trigger] all[j], from, to) by {
        if j < a.len() {
            assert(all[j] == a[j]);
        } else {
            assert(all[j] == b[j - a.len()]);
        }
    }
}

// ---------------------------------------------------------------------------
// Reading the feed
// ---------------------------------------------------------------------------

/// At most this many occurrences of one series are expanded in the requested window.
pub const MAX_OCCURRENCES_PER_SERIES: u16 = 100;

/// Every series' occurrences lie in `[from, to]` and number at most
/// `MAX_OCCURRENCES_PER_SERIES`.
pub open spec fn occurrences_in_window(evs: Seq<IcsEventView>, from: i64, to: i64) -> bool {
    forall|i: int| 0 <= i < evs.len() ==> event_occurrences_in_window(#[trigger] evs[i], from, to)
}

/// An event's occurrences lie in `[from, to]` and number at most `MAX_OCCURRENCES_PER_SERIES`.
pub open spec fn event_occurrences_in_window(e: IcsEventView, from: i64, to: i64) -> bool {
    e.occurrences matches Some(occ) ==> occ.len() <= MAX_OCCURRENCES_PER_SERIES && forall|k: int|
        0 <= k < occ.len() ==> from <= #[trigger] occ[k] <= to
}

/// The attendees of component `i` of the calendar parsed from `text`, in order.
pub open spec fn feed_attendees(text: Seq<char>, i: int) -> Seq<IcsAttendeeView> {
    Seq::new(
        ical_attendee_count(text, i),
        |j: int|
            IcsAttendeeView {
                address: ical_attendee_address(text, i, j),
                part_stat: ical_attendee_part_stat(text, i, j),
            },
    )
}

/// Component `i` of the calendar parsed from `text` as the logic reads it, with the given
/// occurrences of its recurrence.
pub open spec fn vevent_of(text: Seq<char>, i: int, occurrences: Option<Seq<i64>>) -> IcsEventView {
    IcsEventView {
        uid: ical_uid(text, i),
        summary: ical_summary(text, i),
        description: ical_description(text, i),
        location: ical_location(text, i),
        cancelled: ical_cancelled(text, i),
        start: ical_start(text, i),
        end: ical_end(text, i),
        recurrence_id: ical_recurrence_id(text, i),
        has_rrule: ical_has_rrule(text, i),
        attendees: feed_attendees(text, i),
        occurrences,
    }
}

/// The positions of the VEVENTs among the first `n` components of the calendar parsed from
/// `text`, in order.
pub open spec fn event_positions(text: Seq<char>, n: int) -> Seq<int>
    decreases n,
{
    if n <= 0 {
        Seq::empty()
    } else {
        let prev = event_positions(text, n - 1);
        if ical_is_event(text, n - 1) {
            prev.push(n - 1)
        } else {
            prev
        }
    }
}

/// How the occurrences of component `i` of the calendar parsed from `text` are read for the
/// window `[from, to]`: only a series master (an `RRULE` and no `RECURRENCE-ID`) carries them;
/// where every value its recurrence reads is zoned, it carries them exactly when the
/// recurrence builds, and they are at most `MAX_OCCURRENCES_PER_SERIES` occurrences in the
/// window that the recurrence yields.
pub open spec fn occurrences_read(e: IcsEventView, text: Seq<char>, i: int, from: i64, to: i64) -> bool {
    let master = e.has_rrule && instant_of(e.recurrence_id) is None;
    &&& e.occurrences is Some ==> master
    &&& master && ical_recurrence_zoned(text, i) ==> (e.occurrences is Some
        <==> ical_recurrence_builds(text, i))
    &&& master && ical_recurrence_zoned(text, i) ==> (e.occurrences matches Some(o) ==> o
        == ical_occurrences(text, i, from as int, to as int, MAX_OCCURRENCES_PER_SERIES as int))
}

/// `evs` are the VEVENTs among the first `n` components of the calendar parsed from `text`, in
/// order, each read with all its properties and its occurrences in `[from, to]`.
pub open spec fn read_upto(evs: Seq<IcsEventView>, text: Seq<char>, n: int, from: i64, to: i64) -> bool {
    let pos = event_positions(text, n);
    &&& evs.len() == pos.len()
    &&& forall|k: int|
        0 <= k < evs.len() ==> #[trigger] evs[k] == vevent_of(text, pos[k], evs[k].occurrences)
    &&& forall|k: int|
        0 <= k < evs.len() ==> occurrences_read(#[trigger] evs[k], text, pos[k], from, to)
}

/// `evs` are the VEVENTs of the calendar parsed from `text`, in order, each read with all its
/// properties and its occurrences in `[from, to]`.
pub open spec fn read_from(evs: Seq<IcsEventView>, text: Seq<char>, from: i64, to: i64) -> bool {
    read_upto(evs, text, ical_component_count(text) as int, from, to)
}

/// What the logic reads from component `i`, a VEVENT; the occurrences are those of its
/// recurrence in `[from, to]` when it has an `RRULE` and no `RECURRENCE-ID`. Which instants
/// the recurrence yields is not stated: for a floating or all-day start it depends on the
/// machine's time zone.
pub fn read_event(p: &ParsedCalendar, i: usize, from: i64, to: i64) -> (r: IcsEvent)
    requires
        i < ical_component_count(p.source()),
        valid_timestamp(from as int),
        valid_timestamp(to as int),
    ensures
        r@ == vevent_of(p.source(), i as int, r@.occurrences),
        ics_event_wf(r@),
        event_occurrences_in_window(r@, from, to),
        occurrences_read(r@, p.source(), i as int, from, to),
{
    let ghost text = p.source();
    let n = attendee_count(p, i);
    let mut attendees: Vec<IcsAttendee> = Vec::new();
    let mut k: usize = 0;
    while k < n
        invariant
            k <= n,
            n == ical_attendee_count(text, i as int),
            i < ical_component_count(text),
            text == p.source(),
            attendees.len() == k,
            forall|m: int|
                0 <= m < k ==> (#[trigger] attendees@[m])@ == feed_attendees(text, i as int)[m],
        decreases n - k,
    {
        let a = IcsAttendee { address: attendee_address(p, i, k), part_stat: attendee_part_stat(p, i, k) };
        attendees.push(a);
        k = k + 1;
    }
    assert(attendees@.map_values(|a: IcsAttendee| a@) =~= feed_attendees(text, i as int));
    let recurrence_id = event_recurrence_id(p, i);
    let has_rrule = event_has_rrule(p, i);
    let occurrences = if has_rrule && instant(recurrence_id).is_none() {
        event_occurrences(p, i, from, to, MAX_OCCURRENCES_PER_SERIES)
    } else {
        None
    };
    IcsEvent {
        uid: event_uid(p, i),
        summary: event_summary(p, i),
        description: event_description(p, i),
        location: event_location(p, i),
        cancelled: event_cancelled(p, i),
        start: event_start(p, i),
        end: event_end(p, i),
        recurrence_id,
        has_rrule,
        attendees,
        occurrences,
    }
}

/// Parses iCalendar text and reads its VEVENTs, in order. Fails exactly when the parser
/// rejects the text; otherwise every VEVENT is read with all its properties.
pub fn read_calendar(text: &str, from: i64, to: i64) -> (r: Result<Vec<IcsEvent>, CalendarError>)
    requires
        valid_timestamp(from as int),
        valid_timestamp(to as int),
    ensures
        r is Err <==> crate::calendar::ical::ical_parse_error(text@) is Some,
        r matches Err(e) ==> e is Parse && crate::calendar::ical::ical_parse_error(text@) == Some(
            e->Parse_0@,
        ),
        r matches Ok(v) ==> {
            &&& read_from(ics_events_view(v@), text@, from, to)
            &&& all_wf(ics_events_view(v@))
            &&& occurrences_in_window(ics_events_view(v@), from, to)
        },
{
    let p = match parse_calendar(text) {
        Ok(c) => c,
        Err(msg) => return Err(CalendarError::Parse(msg)),
    };
    let count = component_count(&p);
    let mut out: Vec<IcsEvent> = Vec::new();
    let mut i: usize = 0;
    assert(ics_events_view(out@) =~= Seq::<IcsEventView>::empty());
    while i < count
        invariant
            i <= count,
            count == ical_component_count(text@),
            p.source() == text@,
            valid_timestamp(from as int),
            valid_timestamp(to as int),
            read_upto(ics_events_view(out@), text@, i as int, from, to),
            all_wf(ics_events_view(out@)),
            occurrences_in_window(ics_events_view(out@), from, to),
        decreases count - i,
    {
        let ghost before = ics_events_view(out@);
        if is_event(&p, i) {
            let e = read_event(&p, i, from, to);
            out.push(e);
            proof {
                let now = ics_events_view(out@);
                assert(now =~= before.push(e@));
                let pos = event_positions(text@, i + 1);
                assert(pos == event_positions(text@, i as int).push(i as int));
                assert forall|j: int| 0 <= j < now.len() implies #[trigger] now[j] == vevent_of(
                    text@,
                    pos[j],
                    now[j].occurrences,
                ) by {
                    if j < before.len() {
                        assert(now[j] == before[j]);
                    }
                }
                assert forall|j: int| 0 <= j < now.len() implies occurrences_read(
                    #[trigger] now[j],
                    text@,
                    pos[j],
                    from,
                    to,
                ) by {
                    if j < before.len() {
                        assert(now[j] == before[j]);
                    }
                }
                assert forall|j: int| 0 <= j < now.len() implies ics_event_wf(#[trigger] now[j]) by {
                    if j < before.len() {
                        assert(now[j] == before[j]);
                    }
                }
                assert forall|j: int| 0 <= j < now.len() implies event_occurrences_in_window(
                    #[trigger] now[j],
                    from,
                    to,
                ) by {
                    if j < before.len() {
                        assert(now[j] == before[j]);
                    }
                }
            }
        } else {
            assert(event_positions(text@, i + 1) == event_positions(text@, i as int));
        }
        i = i + 1;
    }
    Ok(out)
}

/// `shown` is what the feed `text` shows between `from` and `to` for the owner key `key`:
/// the VEVENTs of the text, read with all their properties and with the occurrences their
/// recurrence yields in the window, selected and ordered as `select_events` states.
pub open spec fn shows_feed(shown: Seq<EventView>, text: Seq<char>, key: Option<Seq<char>>, from: i64, to: i64) -> bool {
    exists|evs: Seq<IcsEventView>|
        #![trigger spec_collect(evs, key, from, to)]
        {
            &&& read_from(evs, text, from, to)
            &&& all_wf(evs)
            &&& occurrences_in_window(evs, from, to)
            &&& is_stable_sort_by_start(shown, spec_collect(evs, key, from, to))
        }
}

/// The events of a feed between `from` and `to`, as `select_events` states for the events the
/// parser read; fails exactly when the parser rejects the text.
pub fn parse_and_filter_events(ics_text: &str, user_email: Option<&str>, from: i64, to: i64) -> (r:
    Result<Vec<CalendarEvent>, CalendarError>)
    requires
        valid_timestamp(from as int),
        valid_timestamp(to as int),
    ensures
        r is Err <==> crate::calendar::ical::ical_parse_error(ics_text@) is Some,
        r matches Err(e) ==> e is Parse && crate::calendar::ical::ical_parse_error(ics_text@)
            == Some(e->Parse_0@),
        r matches Ok(v) ==> forall|j: int|
            0 <= j < v.len() ==> #[trigger] v@[j].rsvp != RsvpStatus::Declined && from <= v@[j].start
                < to,
        r matches Ok(v) ==> shows_feed(
            events_view(v@),
            ics_text@,
            owner_key(opt_str_view(user_email)),
            from,
            to,
        ),
{
    let evs = read_calendar(ics_text, from, to)?;
    let r = select_events(&evs, user_email, from, to);
    proof {
        let key = owner_key(opt_str_view(user_email));
        let vs = ics_events_view(evs@);
        lemma_shown_events_ok(vs, key, from, to);
        let all = spec_collect(vs, key, from, to);
        assert forall|i: int| 0 <= i < all.len() implies shown_ok_pred(from, to)(#[trigger] all[i]) by {}
        lemma_stable_sort_keeps_events(events_view(r@), all, shown_ok_pred(from, to));
        assert forall|j: int| 0 <= j < r.len() implies #[trigger] r@[j].rsvp != RsvpStatus::Declined
            && from <= r@[j].start < to by {
            assert(events_view(r@)[j] == r@[j]@);
            assert(shown_ok_pred(from, to)(events_view(r@)[j]));
        }
    }
    assert(owner_key(opt_str_view(user_email)) == owner_key(
        match user_email {
            Some(e) => Some(e@),
            None => None,
        },
    ));
    Ok(r)
}

/// The characters of an optional string slice.
pub open spec fn opt_str_view(s: Option<&str>) -> Option<Seq<char>> {
    match s {
        Some(t) => Some(t@),
        None => None,
    }
}

/// A feed read from Google Calendar's secret iCal address.
pub struct IcsCalendarSource {
    feed_url: String,
    /// The owner's email, to find the owner among the attendees; taken from the URL.
    user_email: Option<String>,
}

impl IcsCalendarSource {
    pub closed spec fn spec_feed_url(&self) -> Seq<char> {
        self.feed_url@
    }

    pub closed spec fn spec_user_email(&self) -> Option<Seq<char>> {
        opt_view(self.user_email)
    }

    /// A source for `feed_url`; the owner's email is the one the URL carries.
    pub fn new(feed_url: String) -> (r: IcsCalendarSource)
        ensures
            r.spec_feed_url() == feed_url@,
            r.spec_user_email() == spec_extract_email(feed_url@),
    {
        let user_email = extract_email_from_ics_url(feed_url.as_str());
        IcsCalendarSource { feed_url, user_email }
    }

    /// The feed's address.
    pub fn feed_url(&self) -> (r: &str)
        ensures
            r@ == self.spec_feed_url(),
    {
        self.feed_url.as_str()
    }

    /// The owner's email, if the URL carries one.
    pub fn user_email(&self) -> (r: Option<String>)
        ensures
            opt_view(r) == self.spec_user_email(),
    {
        clone_opt_string(&self.user_email)
    }

    /// The events that the downloaded feed text shows between `from` and `to`.
    pub fn events_from_feed(&self, body: &str, from: i64, to: i64) -> (r: Result<
        Vec<CalendarEvent>,
        CalendarError,
    >)
        requires
            valid_timestamp(from as int),
            valid_timestamp(to as int),
        ensures
            r is Err <==> crate::calendar::ical::ical_parse_error(body@) is Some,
            r matches Err(e) ==> e is Parse && crate::calendar::ical::ical_parse_error(body@)
                == Some(e->Parse_0@),
            r matches Ok(v) ==> forall|j: int|
                0 <= j < v.len() ==> #[trigger] v@[j].rsvp != RsvpStatus::Declined && from
                    <= v@[j].start < to,
            r matches Ok(v) ==> shows_feed(
                events_view(v@),
                body@,
                owner_key(self.spec_user_email()),
                from,
                to,
            ),
    {
        match &self.user_email {
            Some(e) => parse_and_filter_events(body, Some(e.as_str()), from, to),
            None => parse_and_filter_events(body, None, from, to),
        }
    }
}

} // verus!
