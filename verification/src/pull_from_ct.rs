//! The remote booking source: what to ask it, and how its answer becomes
//! bookings.

use crate::booking::{Booking, BookingView};
use crate::config::{ChurchToolsConfig, RoomConfig};
use crate::time::{digit_char, push_digit, Instant, InstantView};
use chrono::format::ParseErrorKind;
use chrono::{Datelike, Timelike};
use itertools::Itertools;
use vstd::prelude::*;
use vstd::string::*;

verus! {

/// Why a timestamp of the remote system could not be read.
#[derive(Debug, Clone, Copy, PartialEq, Eq, Structural)]
pub enum ParseFault {
    /// A field is out of its permitted range, or the moment lies outside
    /// the years 0 to 9999 of UTC.
    OutOfRange,
    /// No date and time has the given fields.
    Impossible,
    /// The fields do not determine a date and time.
    NotEnough,
    /// The text holds a character that does not belong there.
    Invalid,
    /// The text ends too early.
    TooShort,
    /// Text is left over after the timestamp.
    TooLong,
    /// Any other failure of the parser.
    BadFormat,
}

/// What can go wrong while fetching bookings from the remote system.
#[derive(Debug, Clone, PartialEq, Eq)]
pub enum CTApiError {
    /// The request failed in transport; the text describes how.
    GetBookings(String),
    /// The response is not of the expected schema.
    Deserialize,
    /// The response body is not UTF-8.
    Utf8Decode,
    /// A timestamp in the response could not be read.
    ParseTime(ParseFault),
}

impl ParseFault {
    /// What the fault says of itself.
    pub open spec fn message_text(self) -> Seq<char> {
        match self {
            ParseFault::OutOfRange => "input is out of range"@,
            ParseFault::Impossible => "no possible date and time matching input"@,
            ParseFault::NotEnough => "input is not enough for unique date and time"@,
            ParseFault::Invalid => "input contains invalid characters"@,
            ParseFault::TooShort => "premature end of input"@,
            ParseFault::TooLong => "trailing input"@,
            ParseFault::BadFormat => "bad or unsupported format string"@,
        }
    }

    /// The fault in words.
    pub fn message(&self) -> (text: String)
        ensures
            text@ == self.message_text(),
    {
        match self {
            ParseFault::OutOfRange => "input is out of range".to_owned(),
            ParseFault::Impossible => "no possible date and time matching input".to_owned(),
            ParseFault::NotEnough => "input is not enough for unique date and time".to_owned(),
            ParseFault::Invalid => "input contains invalid characters".to_owned(),
            ParseFault::TooShort => "premature end of input".to_owned(),
            ParseFault::TooLong => "trailing input".to_owned(),
            ParseFault::BadFormat => "bad or unsupported format string".to_owned(),
        }
    }
}

impl CTApiError {
    /// The message of the error.
    pub open spec fn message_text(self) -> Seq<char> {
        match self {
            CTApiError::GetBookings(text) => "Cannot get bookings. reqwest Error: "@ + text@,
            CTApiError::Deserialize => "Cannot deserialize the response."@,
            CTApiError::Utf8Decode => "Cannot decode the message bytes as utf-8."@,
            CTApiError::ParseTime(fault) => {
                "Cannot parse a time contained in CTs response. chrono Error: "@
                    + fault.message_text()
            },
        }
    }

    /// The error in words.
    pub fn message(&self) -> (text: String)
        ensures
            text@ == self.message_text(),
    {
        match self {
            CTApiError::GetBookings(text) => {
                let mut out = "Cannot get bookings. reqwest Error: ".to_owned();
                out.append(text.as_str());
                out
            },
            CTApiError::Deserialize => "Cannot deserialize the response.".to_owned(),
            CTApiError::Utf8Decode => "Cannot decode the message bytes as utf-8.".to_owned(),
            CTApiError::ParseTime(fault) => {
                let mut out =
                    "Cannot parse a time contained in CTs response. chrono Error: ".to_owned();
                out.append(fault.message().as_str());
                out
            },
        }
    }
}

/// One entry of the remote system's answer.
#[derive(Debug, Clone)]
pub struct BookingsData {
    pub base: BookingsDataBase,
    pub calculated: BookingsDataCalculated,
}

#[derive(Debug, Clone)]
pub struct BookingsDataBase {
    /// The id of the booking.
    pub id: i64,
    /// The descriptive text of the booking.
    pub caption: String,
    pub resource: ResourceData,
}

#[derive(Debug, Clone)]
pub struct ResourceData {
    /// The id of the booked resource.
    pub id: i64,
}

/// The times of an entry, as RFC 3339 text.
#[derive(Debug, Clone)]
pub struct BookingsDataCalculated {
    pub start_date: String,
    pub end_date: String,
}

/// The remote system's answer to a query for bookings.
#[derive(Debug, Clone)]
pub struct CTBookingsResponse {
    pub data: Vec<BookingsData>,
}

/// What `chrono` reads from an RFC 3339 text: the moment, taken in UTC, as
/// year, month, day, hour, minute, second and nanosecond; or the kind of
/// its error.
pub uninterp spec fn rfc3339_utc(text: Seq<char>) -> Result<
    (i32, u32, u32, u32, u32, u32, u32),
    ParseFault,
>;

/// `chrono::DateTime::parse_from_rfc3339`. Of the moment that it returns
/// the fields in UTC are handed back, of its error the kind, variant by
/// variant. The result depends on the text alone.
#[verifier::external_body]
fn parse_rfc3339(text: &str) -> (r: Result<(i32, u32, u32, u32, u32, u32, u32), ParseFault>)
    ensures
        r == rfc3339_utc(text@),
{
    match chrono::DateTime::parse_from_rfc3339(text) {
        Ok(t) => {
            let u = t.naive_utc();
            Ok((u.year(), u.month(), u.day(), u.hour(), u.minute(), u.second(), u.nanosecond()))
        },
        Err(e) => Err(match e.kind() {
            ParseErrorKind::OutOfRange => ParseFault::OutOfRange,
            ParseErrorKind::Impossible => ParseFault::Impossible,
            ParseErrorKind::NotEnough => ParseFault::NotEnough,
            ParseErrorKind::Invalid => ParseFault::Invalid,
            ParseErrorKind::TooShort => ParseFault::TooShort,
            ParseErrorKind::TooLong => ParseFault::TooLong,
            _ => ParseFault::BadFormat,
        }),
    }
}

/// The value of the fields that the parser hands back.
pub open spec fn fields_view(f: (i32, u32, u32, u32, u32, u32, u32)) -> InstantView {
    InstantView {
        year: f.0 as int,
        month: f.1 as int,
        day: f.2 as int,
        hour: f.3 as int,
        minute: f.4 as int,
        second: f.5 as int,
        nanos: f.6 as int,
    }
}

/// The instant that the fields name, which are out of range where in UTC
/// the moment lies outside the years 0 to 9999 or is a leap second.
pub open spec fn instant_of_fields(f: (i32, u32, u32, u32, u32, u32, u32)) -> Result<
    InstantView,
    ParseFault,
> {
    if fields_view(f).wf() {
        Ok(fields_view(f))
    } else {
        Err(ParseFault::OutOfRange)
    }
}

/// The instant that a timestamp of the remote system names, or why it names
/// none.
pub open spec fn rfc3339_instant(text: Seq<char>) -> Result<InstantView, ParseFault> {
    match rfc3339_utc(text) {
        Ok(f) => instant_of_fields(f),
        Err(fault) => Err(fault),
    }
}

/// The instant with the fields that the parser has handed back.
pub fn instant_from_fields(f: (i32, u32, u32, u32, u32, u32, u32)) -> (r: Result<
    Instant,
    ParseFault,
>)
    ensures
        match r {
            Ok(t) => instant_of_fields(f) == Ok::<InstantView, ParseFault>(t@),
            Err(fault) => instant_of_fields(f) == Err::<InstantView, ParseFault>(fault),
        },
{
    match Instant::new(f.0, f.1, f.2, f.3, f.4, f.5, f.6) {
        Some(t) => Ok(t),
        None => Err(ParseFault::OutOfRange),
    }
}

/// Reads a timestamp of the remote system.
pub fn parse_time(text: &str) -> (r: Result<Instant, CTApiError>)
    ensures
        match r {
            Ok(t) => rfc3339_instant(text@) == Ok::<InstantView, ParseFault>(t@),
            Err(e) => rfc3339_instant(text@) is Err && e == CTApiError::ParseTime(
                rfc3339_instant(text@)->Err_0,
            ),
        },
{
    let read = match parse_rfc3339(text) {
        Ok(f) => instant_from_fields(f),
        Err(fault) => Err(fault),
    };
    match read {
        Ok(t) => Ok(t),
        Err(fault) => Err(CTApiError::ParseTime(fault)),
    }
}

/// The booking that an entry of the answer stands for, or why the first of
/// its two timestamps that cannot be read cannot.
pub open spec fn booking_of(entry: BookingsData) -> Result<BookingView, ParseFault> {
    match rfc3339_instant(entry.calculated.start_date@) {
        Err(fault) => Err(fault),
        Ok(start) => match rfc3339_instant(entry.calculated.end_date@) {
            Err(fault) => Err(fault),
            Ok(end) => Ok(
                BookingView {
                    resource_id: entry.base.resource.id as int,
                    booking_id: entry.base.id as int,
                    title: entry.base.caption@,
                    start_time: start,
                    end_time: end,
                },
            ),
        },
    }
}

/// Turns one entry of the answer into a booking.
pub fn booking_from_entry(entry: &BookingsData) -> (r: Result<Booking, CTApiError>)
    ensures
        match r {
            Ok(b) => booking_of(*entry) == Ok::<BookingView, ParseFault>(b@),
            Err(e) => booking_of(*entry) is Err && e == CTApiError::ParseTime(
                booking_of(*entry)->Err_0,
            ),
        },
{
    let start_time = match parse_time(entry.calculated.start_date.as_str()) {
        Ok(t) => t,
        Err(e) => { return Err(e); },
    };
    let end_time = match parse_time(entry.calculated.end_date.as_str()) {
        Ok(t) => t,
        Err(e) => { return Err(e); },
    };
    Ok(
        Booking {
            resource_id: entry.base.resource.id,
            booking_id: entry.base.id,
            title: entry.base.caption.clone(),
            start_time,
            end_time,
        },
    )
}

/// Turns the remote system's answer into bookings, entry by entry and in
/// order. It fails exactly when some entry holds a timestamp that cannot be
/// read, with the fault of the first such entry.
pub fn bookings_from_response(response: &CTBookingsResponse) -> (r: Result<
    Vec<Booking>,
    CTApiError,
>)
    ensures
        match r {
            Ok(bookings) => {
                &&& bookings@.len() == response.data@.len()
                &&& forall|i: int|
                    0 <= i < bookings@.len() ==> booking_of(#[trigger] response.data@[i]) == Ok::<
                        BookingView,
                        ParseFault,
                    >(bookings@[i]@)
            },
            Err(e) => exists|i: int|
                {
                    &&& 0 <= i < response.data@.len()
                    &&& booking_of(#[trigger] response.data@[i]) is Err
                    &&& e == CTApiError::ParseTime(booking_of(response.data@[i])->Err_0)
                    &&& forall|j: int| 0 <= j < i ==> booking_of(#[trigger] response.data@[j]) is Ok
                },
        },
{
    let mut bookings: Vec<Booking> = Vec::new();
    let mut i: usize = 0;
    while i < response.data.len()
        invariant
            i <= response.data@.len(),
            bookings@.len() == i,
            forall|j: int|
                0 <= j < i ==> booking_of(#[trigger] response.data@[j]) == Ok::<
                    BookingView,
                    ParseFault,
                >(bookings@[j]@),
        decreases response.data@.len() - i,
    {
        match booking_from_entry(&response.data[i]) {
            Ok(b) => {
                bookings.push(b);
            },
            Err(e) => {
                return Err(e);
            },
        }
        i += 1;
    }
    Ok(bookings)
}

/// `s` without the elements that occurred earlier in it: of each value the
/// first occurrence stays, in its place.
pub open spec fn first_occurrences(s: Seq<i64>) -> Seq<i64>
    decreases s.len(),
{
    if s.len() == 0 {
        Seq::empty()
    } else if s.drop_last().contains(s.last()) {
        first_occurrences(s.drop_last())
    } else {
        first_occurrences(s.drop_last()).push(s.last())
    }
}

/// `itertools::Itertools::unique` over the ids: it yields each element that
/// has not been yielded before, in the order of the input.
#[verifier::external_body]
fn unique_ids(ids: &Vec<i64>) -> (r: Vec<i64>)
    ensures
        r@ == first_occurrences(ids@),
{
    ids.iter().copied().unique().collect()
}

/// The decimal digits of `n`, which is not negative, without leading zeros.
pub open spec fn decimal_digits(n: int) -> Seq<char>
    decreases n,
{
    if n < 10 {
        seq![digit_char(n)]
    } else {
        decimal_digits(n / 10).push(digit_char(n % 10))
    }
}

/// `n` in decimal, with a minus sign in front if it is negative.
pub open spec fn decimal_text(n: int) -> Seq<char> {
    if n < 0 {
        seq!['-'] + decimal_digits(-n)
    } else {
        decimal_digits(n)
    }
}

fn push_decimal(out: &mut String, n: u64)
    ensures
        final(out)@ == old(out)@ + decimal_digits(n as int),
    decreases n,
{
    if n >= 10 {
        push_decimal(out, n / 10);
    }
    push_digit(out, (n % 10) as u8);
    assert(out@ =~= old(out)@ + decimal_digits(n as int));
}

/// An id as the remote system expects it in a query: in decimal.
pub fn id_text(id: i64) -> (text: String)
    ensures
        text@ == decimal_text(id as int),
{
    let mut out = String::new();
    if id < 0 {
        out.push('-');
        let magnitude: u64 = (-(id + 1)) as u64 + 1;
        push_decimal(&mut out, magnitude);
    } else {
        push_decimal(&mut out, id as u64);
    }
    assert(out@ =~= decimal_text(id as int));
    out
}

/// The remote resource ids of the configured rooms, in order.
pub open spec fn resource_ids(rooms: Seq<RoomConfig>) -> Seq<i64> {
    rooms.map_values(|room: RoomConfig| room.churchtools_id)
}

/// The texts of a list of query parameters.
pub open spec fn param_views(params: Seq<(String, String)>) -> Seq<(Seq<char>, Seq<char>)> {
    params.map_values(|p: (String, String)| (p.0@, p.1@))
}

/// The query for the confirmed bookings of the resources `ids` between the
/// days of `from` and `to`: one `resource_ids[]` per distinct id, then the
/// two dates, then the status filter.
pub open spec fn query_for(ids: Seq<i64>, from: InstantView, to: InstantView) -> Seq<
    (Seq<char>, Seq<char>),
> {
    first_occurrences(ids).map_values(|id: i64| ("resource_ids[]"@, decimal_text(id as int)))
        + seq![("from"@, from.date_text()), ("to"@, to.date_text()), ("status_ids[]"@, "2"@)]
}

/// The parameters of the request for the bookings of the configured rooms
/// from the day of `start_date` to the day of `end_date`.
pub fn query_parameters(rooms: &Vec<RoomConfig>, start_date: &Instant, end_date: &Instant) -> (r:
    Vec<(String, String)>)
    ensures
        param_views(r@) == query_for(resource_ids(rooms@), start_date@, end_date@),
{
    let mut ids: Vec<i64> = Vec::new();
    let mut i: usize = 0;
    while i < rooms.len()
        invariant
            i <= rooms@.len(),
            ids@ == resource_ids(rooms@).take(i as int),
        decreases rooms@.len() - i,
    {
        ids.push(rooms[i].churchtools_id);
        assert(ids@ =~= resource_ids(rooms@).take(i + 1));
        i += 1;
    }
    assert(ids@ =~= resource_ids(rooms@));
    let distinct = unique_ids(&ids);
    let ghost head = distinct@.map_values(|id: i64| ("resource_ids[]"@, decimal_text(id as int)));
    let mut params: Vec<(String, String)> = Vec::new();
    let mut k: usize = 0;
    while k < distinct.len()
        invariant
            k <= distinct@.len(),
            head == distinct@.map_values(|id: i64| ("resource_ids[]"@, decimal_text(id as int))),
            params@.len() == k,
            param_views(params@) == head.take(k as int),
        decreases distinct@.len() - k,
    {
        let ghost before = params@;
        params.push(("resource_ids[]".to_owned(), id_text(distinct[k])));
        assert(head.len() == distinct@.len());
        assert(param_views(params@).len() == k + 1);
        assert(param_views(before).len() == k);
        assert forall|j: int| 0 <= j < k + 1 implies param_views(params@)[j] == head.take(
            k + 1,
        )[j] by {
            if j < k {
                assert(params@[j] == before[j]);
                assert(param_views(before)[j] == head.take(k as int)[j]);
            }
        }
        assert(param_views(params@) =~= head.take(k + 1));
        k += 1;
    }
    assert(head.take(k as int) =~= head);
    params.push(("from".to_owned(), start_date.date_text()));
    params.push(("to".to_owned(), end_date.date_text()));
    params.push(("status_ids[]".to_owned(), "2".to_owned()));
    assert(param_views(params@) =~= query_for(resource_ids(rooms@), start_date@, end_date@));
    params
}


/// A request for bookings, ready to be sent.
#[derive(Debug, Clone)]
pub struct BookingsRequest {
    pub url: String,
    pub query: Vec<(String, String)>,
    pub headers: Vec<(String, String)>,
}

/// The request for the confirmed bookings of the configured rooms from the
/// day of `start_date` to the day of `end_date`: the address of the remote
/// system, the query, and the two headers that ask for JSON and log in.
pub fn bookings_request(
    ct: &ChurchToolsConfig,
    rooms: &Vec<RoomConfig>,
    start_date: &Instant,
    end_date: &Instant,
) -> (request: BookingsRequest)
    ensures
        request.url@ == "https://"@ + ct.host@ + "/api/bookings"@,
        param_views(request.query@) == query_for(resource_ids(rooms@), start_date@, end_date@),
        param_views(request.headers@) == seq![
            ("accept"@, "application/json"@),
            ("Authorization"@, "Login "@ + ct.login_token@),
        ],
{
    let mut headers: Vec<(String, String)> = Vec::new();
    headers.push(("accept".to_owned(), "application/json".to_owned()));
    headers.push(("Authorization".to_owned(), ct.authorization()));
    assert(param_views(headers@) =~= seq![
        ("accept"@, "application/json"@),
        ("Authorization"@, "Login "@ + ct.login_token@),
    ]);
    BookingsRequest {
        url: ct.bookings_url(),
        query: query_parameters(rooms, start_date, end_date),
        headers,
    }
}

} // verus!
