//! The calls into the `icalendar` crate (and, through it, `chrono` and `rrule`): parsing the
//! feed, reading the properties of each VEVENT, and expanding a recurrence rule.
use vstd::prelude::*;

use crate::calendar::ics::{ics_time_wf, IcsTime, ParticipationStatus};
use crate::calendar::opt_view;
use crate::time::valid_timestamp;
use icalendar::{
    Calendar, CalendarComponent, Component, DatePerhapsTime, EventLike, EventStatus, PartStat,
};

verus! {

#[verifier::external_type_specification]
#[verifier::external_body]
pub struct ExCalendar(Calendar);

#[verifier::external_type_specification]
#[verifier::external_body]
pub struct ExCalendarComponent(CalendarComponent);

/// What `Calendar::from_str` rejects a text with: `None` when it parses, else its error
/// message as `{:?}` prints it. The parser is a function of the text alone.
pub uninterp spec fn ical_parse_error(text: Seq<char>) -> Option<Seq<char>>;

/// How many components (`components.len()`) the calendar parsed from `text` has.
pub uninterp spec fn ical_component_count(text: Seq<char>) -> nat;

/// Whether component `i` of the calendar parsed from `text` is a VEVENT
/// (`CalendarComponent::as_event` gives one).
pub uninterp spec fn ical_is_event(text: Seq<char>, i: int) -> bool;

/// The `UID` of component `i` of the calendar parsed from `text` (`EventLike::get_uid`);
/// `None` when that component is not a VEVENT.
pub uninterp spec fn ical_uid(text: Seq<char>, i: int) -> Option<Seq<char>>;

/// The `SUMMARY` of component `i` (`EventLike::get_summary`); `None` when not a VEVENT.
pub uninterp spec fn ical_summary(text: Seq<char>, i: int) -> Option<Seq<char>>;

/// The `DESCRIPTION` of component `i` (`EventLike::get_description`); `None` when not a VEVENT.
pub uninterp spec fn ical_description(text: Seq<char>, i: int) -> Option<Seq<char>>;

/// The `LOCATION` of component `i` (`EventLike::get_location`); `None` when not a VEVENT.
pub uninterp spec fn ical_location(text: Seq<char>, i: int) -> Option<Seq<char>>;

/// Whether component `i` is a VEVENT whose `STATUS` is `CANCELLED` (`Event::get_status`).
pub uninterp spec fn ical_cancelled(text: Seq<char>, i: int) -> bool;

/// Whether component `i` is a VEVENT with an `RRULE` property (`Component::property_value`).
pub uninterp spec fn ical_has_rrule(text: Seq<char>, i: int) -> bool;

/// The `DTSTART` of component `i` (`EventLike::get_start`): a date as its midnight UTC
/// (`NaiveDate::and_hms_opt(0, 0, 0)`), a date-time through `CalendarDateTime::try_into_utc`,
/// as UTC timestamps; `None` when absent or not a VEVENT.
pub uninterp spec fn ical_start(text: Seq<char>, i: int) -> Option<IcsTime>;

/// The `DTEND` of component `i` (`EventLike::get_end`), read as `ical_start` reads `DTSTART`.
pub uninterp spec fn ical_end(text: Seq<char>, i: int) -> Option<IcsTime>;

/// The `RECURRENCE-ID` of component `i` (`EventLike::get_recurrence_id`), read as
/// `ical_start` reads `DTSTART`.
pub uninterp spec fn ical_recurrence_id(text: Seq<char>, i: int) -> Option<IcsTime>;

/// How many `ATTENDEE`s of component `i` parse (`EventLike::get_attendees`); 0 when not a
/// VEVENT.
pub uninterp spec fn ical_attendee_count(text: Seq<char>, i: int) -> nat;

/// The calendar address of attendee `j` of component `i` (`Attendee::cal_address`).
pub uninterp spec fn ical_attendee_address(text: Seq<char>, i: int, j: int) -> Seq<char>;

/// The `PARTSTAT` of attendee `j` of component `i` (`Attendee::part_stat`).
pub uninterp spec fn ical_attendee_part_stat(text: Seq<char>, i: int, j: int) -> Option<
    ParticipationStatus,
>;

/// A calendar as `Calendar::from_str` parsed it, together with the text it was parsed from.
/// Only `parse_calendar` makes one, so the calendar is always the parse of that text.
pub struct ParsedCalendar {
    cal: Calendar,
    text: Ghost<Seq<char>>,
}

impl ParsedCalendar {
    /// The text the calendar was parsed from.
    pub closed spec fn source(&self) -> Seq<char> {
        self.text@
    }
}

/// Parses iCalendar text (`<Calendar as FromStr>::from_str`): fails exactly when the parser
/// rejects the text, with the parser's message; otherwise the calendar of that text.
#[verifier::external_body]
pub(crate) fn parse_calendar(text: &str) -> (r: Result<ParsedCalendar, String>)
    ensures
        r is Err <==> ical_parse_error(text@) is Some,
        r matches Err(m) ==> ical_parse_error(text@) == Some(m@),
        r matches Ok(p) ==> p.source() == text@,
{
    match text.parse::<Calendar>() {
        Ok(cal) => Ok(ParsedCalendar { cal, text: Ghost(text@) }),
        Err(e) => Err(format!("{e:?}")),
    }
}

/// The number of components of the calendar (`components.len()`).
#[verifier::external_body]
pub(crate) fn component_count(p: &ParsedCalendar) -> (r: usize)
    ensures
        r == ical_component_count(p.source()),
{
    p.cal.components.len()
}

/// Whether component `i` is a VEVENT (`CalendarComponent::as_event`).
#[verifier::external_body]
pub(crate) fn is_event(p: &ParsedCalendar, i: usize) -> (r: bool)
    requires
        i < ical_component_count(p.source()),
    ensures
        r == ical_is_event(p.source(), i as int),
{
    p.cal.components[i].as_event().is_some()
}

/// The `UID` of component `i` (`EventLike::get_uid`).
#[verifier::external_body]
pub(crate) fn event_uid(p: &ParsedCalendar, i: usize) -> (r: Option<String>)
    requires
        i < ical_component_count(p.source()),
    ensures
        opt_view(r) == ical_uid(p.source(), i as int),
{
    p.cal.components[i].as_event().and_then(|e| e.get_uid()).map(str::to_string)
}

/// The `SUMMARY` of component `i` (`EventLike::get_summary`).
#[verifier::external_body]
pub(crate) fn event_summary(p: &ParsedCalendar, i: usize) -> (r: Option<String>)
    requires
        i < ical_component_count(p.source()),
    ensures
        opt_view(r) == ical_summary(p.source(), i as int),
{
    p.cal.components[i].as_event().and_then(|e| e.get_summary()).map(str::to_string)
}

/// The `DESCRIPTION` of component `i` (`EventLike::get_description`).
#[verifier::external_body]
pub(crate) fn event_description(p: &ParsedCalendar, i: usize) -> (r: Option<String>)
    requires
        i < ical_component_count(p.source()),
    ensures
        opt_view(r) == ical_description(p.source(), i as int),
{
    p.cal.components[i].as_event().and_then(|e| e.get_description()).map(str::to_string)
}

/// The `LOCATION` of component `i` (`EventLike::get_location`).
#[verifier::external_body]
pub(crate) fn event_location(p: &ParsedCalendar, i: usize) -> (r: Option<String>)
    requires
        i < ical_component_count(p.source()),
    ensures
        opt_view(r) == ical_location(p.source(), i as int),
{
    p.cal.components[i].as_event().and_then(|e| e.get_location()).map(str::to_string)
}

/// Whether component `i` is a VEVENT with `STATUS:CANCELLED` (`Event::get_status`).
#[verifier::external_body]
pub(crate) fn event_cancelled(p: &ParsedCalendar, i: usize) -> (r: bool)
    requires
        i < ical_component_count(p.source()),
    ensures
        r == ical_cancelled(p.source(), i as int),
{
    matches!(p.cal.components[i].as_event().and_then(|e| e.get_status()), Some(EventStatus::Cancelled))
}

/// Whether component `i` is a VEVENT with an `RRULE` (`Component::property_value`).
#[verifier::external_body]
pub(crate) fn event_has_rrule(p: &ParsedCalendar, i: usize) -> (r: bool)
    requires
        i < ical_component_count(p.source()),
    ensures
        r == ical_has_rrule(p.source(), i as int),
{
    p.cal.components[i].as_event().and_then(|e| e.property_value("RRULE")).is_some()
}

/// The `DTSTART` of component `i` (`EventLike::get_start`) as UTC timestamps; every
/// timestamp lies in `chrono`'s range, which every `DateTime<Utc>` does.
#[verifier::external_body]
pub(crate) fn event_start(p: &ParsedCalendar, i: usize) -> (r: Option<IcsTime>)
    requires
        i < ical_component_count(p.source()),
    ensures
        r == ical_start(p.source(), i as int),
        ics_time_wf(r),
{
    match p.cal.components[i].as_event().and_then(|e| e.get_start()) {
        Some(DatePerhapsTime::Date(d)) => Some(IcsTime::Date(d.and_hms_opt(0, 0, 0).map(|t| t.and_utc().timestamp()))),
        Some(DatePerhapsTime::DateTime(c)) => Some(IcsTime::DateTime(c.try_into_utc().map(|t| t.timestamp()))),
        None => None,
    }
}

/// The `DTEND` of component `i` (`EventLike::get_end`), read as `event_start` reads `DTSTART`.
#[verifier::external_body]
pub(crate) fn event_end(p: &ParsedCalendar, i: usize) -> (r: Option<IcsTime>)
    requires
        i < ical_component_count(p.source()),
    ensures
        r == ical_end(p.source(), i as int),
        ics_time_wf(r),
{
    match p.cal.components[i].as_event().and_then(|e| e.get_end()) {
        Some(DatePerhapsTime::Date(d)) => Some(IcsTime::Date(d.and_hms_opt(0, 0, 0).map(|t| t.and_utc().timestamp()))),
        Some(DatePerhapsTime::DateTime(c)) => Some(IcsTime::DateTime(c.try_into_utc().map(|t| t.timestamp()))),
        None => None,
    }
}

/// The `RECURRENCE-ID` of component `i` (`EventLike::get_recurrence_id`), read as
/// `event_start` reads `DTSTART`.
#[verifier::external_body]
pub(crate) fn event_recurrence_id(p: &ParsedCalendar, i: usize) -> (r: Option<IcsTime>)
    requires
        i < ical_component_count(p.source()),
    ensures
        r == ical_recurrence_id(p.source(), i as int),
        ics_time_wf(r),
{
    match p.cal.components[i].as_event().and_then(|e| e.get_recurrence_id()) {
        Some(DatePerhapsTime::Date(d)) => Some(IcsTime::Date(d.and_hms_opt(0, 0, 0).map(|t| t.and_utc().timestamp()))),
        Some(DatePerhapsTime::DateTime(c)) => Some(IcsTime::DateTime(c.try_into_utc().map(|t| t.timestamp()))),
        None => None,
    }
}

/// How many `ATTENDEE`s of component `i` parse (`EventLike::get_attendees`).
#[verifier::external_body]
pub(crate) fn attendee_count(p: &ParsedCalendar, i: usize) -> (r: usize)
    requires
        i < ical_component_count(p.source()),
    ensures
        r == ical_attendee_count(p.source(), i as int),
{
    p.cal.components[i].as_event().map_or(0, |e| e.get_attendees().len())
}

/// The calendar address of attendee `j` of component `i` (`Attendee::cal_address`).
#[verifier::external_body]
pub(crate) fn attendee_address(p: &ParsedCalendar, i: usize, j: usize) -> (r: String)
    requires
        i < ical_component_count(p.source()),
        j < ical_attendee_count(p.source(), i as int),
    ensures
        r@ == ical_attendee_address(p.source(), i as int, j as int),
{
    p.cal.components[i].as_event().unwrap().get_attendees()[j].cal_address.clone()
}

/// The `PARTSTAT` of attendee `j` of component `i` (`Attendee::part_stat`).
#[verifier::external_body]
pub(crate) fn attendee_part_stat(p: &ParsedCalendar, i: usize, j: usize) -> (r: Option<ParticipationStatus>)
    requires
        i < ical_component_count(p.source()),
        j < ical_attendee_count(p.source(), i as int),
    ensures
        r == ical_attendee_part_stat(p.source(), i as int, j as int),
{
    match &p.cal.components[i].as_event().unwrap().get_attendees()[j].part_stat {
        Some(PartStat::NeedsAction) => Some(ParticipationStatus::NeedsAction),
        Some(PartStat::Accepted) => Some(ParticipationStatus::Accepted),
        Some(PartStat::Declined) => Some(ParticipationStatus::Declined),
        Some(PartStat::Tentative) => Some(ParticipationStatus::Tentative),
        Some(PartStat::Delegated) => Some(ParticipationStatus::Delegated),
        Some(PartStat::Completed) => Some(ParticipationStatus::Completed),
        Some(PartStat::InProcess) => Some(ParticipationStatus::InProcess),
        None => None,
    }
}

/// Whether every date or date-time value that the recurrence of component `i` is built from
/// (`DTSTART`, the `UNTIL` of its `RRULE`, its `RDATE`s and `EXDATE`s) carries a UTC `Z` or a
/// `TZID`. The `rrule` crate reads any other value in the machine's time zone.
pub uninterp spec fn ical_recurrence_zoned(text: Seq<char>, i: int) -> bool;

/// Whether component `i` is a VEVENT whose recurrence set, built from `DTSTART`, `RRULE`,
/// `RDATE` and `EXDATE` (`EventLike::get_recurrence`), parses and validates. A function of the
/// text where `ical_recurrence_zoned` holds.
pub uninterp spec fn ical_recurrence_builds(text: Seq<char>, i: int) -> bool;

/// The occurrences of that recurrence set between `from` and `to`, both included, at most
/// `limit` of them (`RRuleSet::after(..).before(..).all(limit)`), as UTC timestamps. A function
/// of the text and the window where `ical_recurrence_zoned` holds.
pub uninterp spec fn ical_occurrences(text: Seq<char>, i: int, from: int, to: int, limit: int) -> Seq<i64>;

/// The occurrences of the recurrence of component `i` between `from` and `to`, both included,
/// at most `limit` of them (`EventLike::get_recurrence`, then
/// `RRuleSet::after(..).before(..).all(limit)`), as UTC timestamps; `None` when the recurrence
/// cannot be built or the component is not a VEVENT. They lie in the window and in `chrono`'s
/// range and number at most `limit`, as the `rrule` source shows. Where every value the
/// recurrence reads is zoned, whether it builds and which instants it yields are functions of
/// the text and the window; otherwise they depend on the machine's time zone and are not
/// stated.
#[verifier::external_body]
pub(crate) fn event_occurrences(p: &ParsedCalendar, i: usize, from: i64, to: i64, limit: u16) -> (r: Option<Vec<i64>>)
    requires
        i < ical_component_count(p.source()),
        valid_timestamp(from as int),
        valid_timestamp(to as int),
    ensures
        r matches Some(v) ==> v.len() <= limit && forall|k: int|
            0 <= k < v.len() ==> from <= #[trigger] v@[k] <= to && valid_timestamp(v@[k] as int),
        ical_recurrence_zoned(p.source(), i as int) ==> (r is Some <==> ical_recurrence_builds(
            p.source(),
            i as int,
        )),
        ical_recurrence_zoned(p.source(), i as int) ==> (r matches Some(v) ==> v@ == ical_occurrences(
            p.source(),
            i as int,
            from as int,
            to as int,
            limit as int,
        )),
{
    let set = p.cal.components[i].as_event()?.get_recurrence().ok()?;
    let after = chrono::DateTime::from_timestamp(from, 0).unwrap().with_timezone(&icalendar::Tz::UTC);
    let before = chrono::DateTime::from_timestamp(to, 0).unwrap().with_timezone(&icalendar::Tz::UTC);
    Some(set.after(after).before(before).all(limit).dates.iter().map(|d| d.timestamp()).collect())
}

} // verus!
