//! What the pages and the calendar export show: bookings matched to the
//! configured rooms.

use crate::booking::{Booking, BookingView};
use crate::config::{RoomConfig, RoomConfigView};
use crate::time::{calendar_text, digits2, push_two, Instant, InstantView};
use chrono::{Datelike, Timelike};
use vstd::prelude::*;
use vstd::string::*;

verus! {

/// The mathematical value of an [`Event`].
pub struct EventView {
    pub name: Seq<char>,
    pub start_time: InstantView,
    pub end_time: InstantView,
    pub room: RoomConfigView,
}

/// A booking in a configured room.
#[derive(Debug)]
pub struct Event {
    pub name: String,
    pub start_time: Instant,
    pub end_time: Instant,
    pub room: RoomConfig,
}

impl View for Event {
    type V = EventView;

    open spec fn view(&self) -> EventView {
        EventView {
            name: self.name@,
            start_time: self.start_time@,
            end_time: self.end_time@,
            room: self.room@,
        }
    }
}

/// The values of the configured rooms, in order.
pub open spec fn room_views(rooms: Seq<RoomConfig>) -> Seq<RoomConfigView> {
    rooms.map_values(|room: RoomConfig| room@)
}

/// The first of `rooms` that stands for the remote resource `resource_id`.
pub open spec fn room_for(rooms: Seq<RoomConfigView>, resource_id: int) -> Option<RoomConfigView>
    decreases rooms.len(),
{
    if rooms.len() == 0 {
        None
    } else if rooms.first().churchtools_id == resource_id {
        Some(rooms.first())
    } else {
        room_for(rooms.drop_first(), resource_id)
    }
}

/// The event that a booking is, if a room is configured for its resource.
pub open spec fn event_of(booking: BookingView, rooms: Seq<RoomConfigView>) -> Option<EventView> {
    match room_for(rooms, booking.resource_id) {
        Some(room) => Some(
            EventView {
                name: booking.title,
                start_time: booking.start_time,
                end_time: booking.end_time,
                room,
            },
        ),
        None => None,
    }
}

/// The window that the pages show: from `now` on for 120 minutes.
pub fn read_window(now: &Instant) -> (r: Option<(Instant, Instant)>)
    ensures
        match r {
            Some(w) => w.0 == *now && w.1@ == now@.plus_minutes(120) && w.1@.wf(),
            None => now@.plus_minutes(120).year > 9999,
        },
{
    match now.plus_minutes(120) {
        Some(end) => Some((*now, end)),
        None => None,
    }
}

impl Event {
    /// Create this event from a booking: the booking in the first room that
    /// is configured for its resource. `None` where no room is.
    pub fn create_from_booking(value: Booking, rooms: &Vec<RoomConfig>) -> (r: Option<Event>)
        ensures
            match r {
                Some(event) => event_of(value@, room_views(rooms@)) == Some(event@),
                None => event_of(value@, room_views(rooms@)) is None,
            },
    {
        let ghost all = room_views(rooms@);
        assert(all.skip(0) =~= all);
        let mut i: usize = 0;
        while i < rooms.len()
            invariant
                i <= rooms@.len(),
                all == room_views(rooms@),
                room_for(all, value@.resource_id) == room_for(all.skip(i as int), value@.resource_id),
            decreases rooms@.len() - i,
        {
            proof {
                assert(all.skip(i as int).first() == rooms@[i as int]@);
                assert(all.skip(i as int).drop_first() =~= all.skip(i + 1));
            }
            if rooms[i].churchtools_id == value.resource_id {
                return Some(
                    Event {
                        name: value.title,
                        start_time: value.start_time,
                        end_time: value.end_time,
                        room: rooms[i].duplicate(),
                    },
                );
            }
            i += 1;
        }
        None
    }

    /// Is this event running at `now`?
    pub fn is_active(&self, now: &Instant) -> (b: bool)
        ensures
            b == (self@.start_time.at_or_before(now@) && now@.at_or_before(self@.end_time)),
    {
        self.start_time.is_at_or_before(now) && now.is_at_or_before(&self.end_time)
    }

    /// The start time as calendar files write it.
    pub fn ics_start_time(&self) -> (text: String)
        ensures
            text@ == calendar_text(self@.start_time),
    {
        self.start_time.calendar_text()
    }

    /// The end time as calendar files write it.
    pub fn ics_end_time(&self) -> (text: String)
        ensures
            text@ == calendar_text(self@.end_time),
    {
        self.end_time.calendar_text()
    }
}

/// The events that the bookings are, in order. `None` where for one of the
/// bookings no room is configured.
pub fn events_from_bookings(bookings: &Vec<Booking>, rooms: &Vec<RoomConfig>) -> (r: Option<
    Vec<Event>,
>)
    ensures
        match r {
            Some(events) => {
                &&& events@.len() == bookings@.len()
                &&& forall|i: int|
                    0 <= i < events@.len() ==> event_of(
                        (#[trigger] bookings@[i])@,
                        room_views(rooms@),
                    ) == Some(events@[i]@)
            },
            None => exists|i: int|
                0 <= i < bookings@.len() && event_of(
                    (#[trigger] bookings@[i])@,
                    room_views(rooms@),
                ) is None,
        },
{
    let mut events: Vec<Event> = Vec::new();
    let mut i: usize = 0;
    while i < bookings.len()
        invariant
            i <= bookings@.len(),
            events@.len() == i,
            forall|j: int|
                0 <= j < i ==> event_of((#[trigger] bookings@[j])@, room_views(rooms@)) == Some(
                    events@[j]@,
                ),
        decreases bookings@.len() - i,
    {
        match Event::create_from_booking(bookings[i].duplicate(), rooms) {
            Some(event) => {
                events.push(event);
            },
            None => {
                return None;
            },
        }
        i += 1;
    }
    Some(events)
}


/// What the clocks of Berlin show at the given moment of UTC: day of the
/// month, month, hour and minute, by the rules of the zone `Europe/Berlin`
/// as `chrono-tz` holds them.
pub uninterp spec fn berlin_wall_clock(
    year: int,
    month: int,
    day: int,
    hour: int,
    minute: int,
    second: int,
) -> (u32, u32, u32, u32);

/// `chrono::DateTime::with_timezone` to `chrono_tz::Europe::Berlin`, on
/// the moment of UTC with the given fields; of the result the day, month,
/// hour and minute, which `chrono` hands out within their calendar ranges.
#[verifier::external_body]
fn to_berlin(year: i32, month: u32, day: u32, hour: u32, minute: u32, second: u32) -> (r: (
    u32,
    u32,
    u32,
    u32,
))
    requires
        (InstantView {
            year: year as int,
            month: month as int,
            day: day as int,
            hour: hour as int,
            minute: minute as int,
            second: second as int,
            nanos: 0,
        }).wf(),
    ensures
        r == berlin_wall_clock(
            year as int,
            month as int,
            day as int,
            hour as int,
            minute as int,
            second as int,
        ),
        is_wall_clock(r),
{
    let date = chrono::NaiveDate::from_ymd_opt(year, month, day).unwrap();
    let utc = date.and_hms_opt(hour, minute, second).unwrap().and_utc();
    let local = utc.with_timezone(&chrono_tz::Europe::Berlin);
    (local.day(), local.month(), local.hour(), local.minute())
}

/// A start time as the pages show it, from the day, month, hour and minute
/// of the wall clock: `DD.MM.`, a line break, `HH:MM`.
pub open spec fn page_time_text(clock: (u32, u32, u32, u32)) -> Seq<char> {
    digits2(clock.0 as int) + "."@ + digits2(clock.1 as int) + ".<br/>"@ + digits2(clock.2 as int)
        + ":"@ + digits2(clock.3 as int)
}

/// Whether the four numbers are a day of the month, a month, an hour and a
/// minute.
pub open spec fn is_wall_clock(clock: (u32, u32, u32, u32)) -> bool {
    1 <= clock.0 <= 31 && 1 <= clock.1 <= 12 && clock.2 <= 23 && clock.3 <= 59
}

/// Writes a wall-clock time as the pages show it.
pub fn page_time(clock: (u32, u32, u32, u32)) -> (text: String)
    requires
        is_wall_clock(clock),
    ensures
        text@ == page_time_text(clock),
{
    let mut out = String::new();
    push_two(&mut out, clock.0 as u8);
    out.append(".");
    push_two(&mut out, clock.1 as u8);
    out.append(".<br/>");
    push_two(&mut out, clock.2 as u8);
    out.append(":");
    push_two(&mut out, clock.3 as u8);
    assert(out@ =~= page_time_text(clock));
    out
}

impl Event {
    /// Human readable start time for this event, on the clocks of Berlin.
    /// The text holds a line break in HTML and is meant to be shown as it
    /// is.
    pub fn hr_start_time(&self) -> (text: String)
        ensures
            text@ == page_time_text(
                berlin_wall_clock(
                    self@.start_time.year,
                    self@.start_time.month,
                    self@.start_time.day,
                    self@.start_time.hour,
                    self@.start_time.minute,
                    self@.start_time.second,
                ),
            ),
    {
        let start = self.start_time.whole_second();
        let clock = to_berlin(
            start.year(),
            start.month(),
            start.day(),
            start.hour(),
            start.minute(),
            start.second(),
        );
        page_time(clock)
    }
}

} // verus!
