use room_overview::config::RoomConfig;
use room_overview::pull_from_ct::{
    booking_from_entry, bookings_from_response, id_text, instant_from_fields, parse_time,
    query_parameters,
    BookingsData, BookingsDataBase, BookingsDataCalculated, CTApiError, CTBookingsResponse,
    ParseFault, ResourceData,
};
use room_overview::time::Instant;

fn entry(id: i64, resource: i64, start: &str, end: &str) -> BookingsData {
    BookingsData {
        base: BookingsDataBase {
            id,
            caption: "t".to_owned(),
            resource: ResourceData { id: resource },
        },
        calculated: BookingsDataCalculated {
            start_date: start.to_owned(),
            end_date: end.to_owned(),
        },
    }
}

fn room(id: i64) -> RoomConfig {
    RoomConfig { churchtools_id: id, name: "n".to_owned(), location_hint: "h".to_owned() }
}

#[test]
fn timestamps_are_taken_to_utc() {
    let t = parse_time("2021-03-26T16:30:00+01:00").unwrap();
    assert_eq!(t, Instant::new(2021, 3, 26, 15, 30, 0, 0).unwrap());
    let z = parse_time("2021-03-26T15:30:00Z").unwrap();
    assert_eq!(z, t);
    let over_midnight = parse_time("2021-01-01T00:30:00+02:00").unwrap();
    assert_eq!(over_midnight, Instant::new(2020, 12, 31, 22, 30, 0, 0).unwrap());
    let fraction = parse_time("2021-03-26T15:30:00.5Z").unwrap();
    assert_eq!(fraction.nanosecond(), 500_000_000);
}

#[test]
fn unreadable_timestamps_are_parse_errors() {
    assert_eq!(parse_time(""), Err(CTApiError::ParseTime(ParseFault::TooShort)));
    assert_eq!(parse_time("2021-03-26"), Err(CTApiError::ParseTime(ParseFault::TooShort)));
    assert_eq!(
        parse_time("2021-03-26T15:30:00Zjunk"),
        Err(CTApiError::ParseTime(ParseFault::TooLong))
    );
    assert_eq!(
        parse_time("yesterday at some time"),
        Err(CTApiError::ParseTime(ParseFault::Invalid))
    );
    assert_eq!(
        parse_time("2021-13-26T15:30:00Z"),
        Err(CTApiError::ParseTime(ParseFault::OutOfRange))
    );
    // before the year 0 of UTC
    assert_eq!(
        parse_time("0000-01-01T00:00:00+01:00"),
        Err(CTApiError::ParseTime(ParseFault::OutOfRange))
    );
    // a leap second
    assert_eq!(
        parse_time("2016-12-31T23:59:60Z"),
        Err(CTApiError::ParseTime(ParseFault::OutOfRange))
    );
}

#[test]
fn an_entry_becomes_a_booking() {
    let b = booking_from_entry(&entry(123, 10, "2021-03-26T15:30:00Z", "2021-03-26T17:00:00Z"))
        .unwrap();
    assert_eq!(b.booking_id, 123);
    assert_eq!(b.resource_id, 10);
    assert_eq!(b.title, "t");
    assert_eq!(b.start_time.to_storage(), "2021-03-26T15:30:00");
    assert_eq!(b.end_time.to_storage(), "2021-03-26T17:00:00");
}

#[test]
fn a_response_becomes_bookings_in_order() {
    let response = CTBookingsResponse {
        data: vec![
            entry(2, 20, "2021-03-26T15:30:00Z", "2021-03-26T17:00:00Z"),
            entry(1, 10, "2021-03-27T08:00:00+02:00", "2021-03-27T09:00:00+02:00"),
        ],
    };
    let bookings = bookings_from_response(&response).unwrap();
    assert_eq!(bookings.len(), 2);
    assert_eq!(bookings[0].booking_id, 2);
    assert_eq!(bookings[1].booking_id, 1);
    assert_eq!(bookings[1].start_time.to_storage(), "2021-03-27T06:00:00");
    assert_eq!(bookings_from_response(&CTBookingsResponse { data: vec![] }).unwrap().len(), 0);
}

#[test]
fn one_unreadable_timestamp_fails_the_response() {
    let response = CTBookingsResponse {
        data: vec![
            entry(2, 20, "2021-03-26T15:30:00Z", "2021-03-26T17:00:00Z"),
            entry(1, 10, "2021-03-27T08:00:00Z", "soon"),
        ],
    };
    assert!(matches!(bookings_from_response(&response), Err(CTApiError::ParseTime(_))));
}

#[test]
fn ids_are_written_in_decimal() {
    assert_eq!(id_text(0), "0");
    assert_eq!(id_text(7), "7");
    assert_eq!(id_text(10), "10");
    assert_eq!(id_text(12341234), "12341234");
    assert_eq!(id_text(-5), "-5");
    assert_eq!(id_text(i64::MAX), "9223372036854775807");
    assert_eq!(id_text(i64::MIN), "-9223372036854775808");
}

#[test]
fn the_query_names_each_resource_once() {
    let rooms = vec![room(10), room(11), room(10), room(3), room(11)];
    let from = Instant::new(2021, 3, 26, 13, 14, 15, 0).unwrap();
    let to = Instant::new(2021, 3, 27, 23, 59, 59, 0).unwrap();
    let query = query_parameters(&rooms, &from, &to);
    let expected: Vec<(String, String)> = vec![
        ("resource_ids[]", "10"),
        ("resource_ids[]", "11"),
        ("resource_ids[]", "3"),
        ("from", "2021-03-26"),
        ("to", "2021-03-27"),
        ("status_ids[]", "2"),
    ]
    .into_iter()
    .map(|(k, v)| (k.to_owned(), v.to_owned()))
    .collect();
    assert_eq!(query, expected);
}

#[test]
fn the_query_without_rooms() {
    let day = Instant::new(2021, 3, 26, 0, 0, 0, 0).unwrap();
    let query = query_parameters(&vec![], &day, &day);
    assert_eq!(query.len(), 3);
    assert_eq!(query[0], ("from".to_owned(), "2021-03-26".to_owned()));
}

#[test]
fn fields_become_an_instant_or_are_out_of_range() {
    assert_eq!(
        instant_from_fields((2021, 3, 26, 15, 30, 0, 5)),
        Ok(Instant::new(2021, 3, 26, 15, 30, 0, 5).unwrap())
    );
    assert_eq!(instant_from_fields((-1, 12, 31, 23, 0, 0, 0)), Err(ParseFault::OutOfRange));
    assert_eq!(instant_from_fields((10000, 1, 1, 0, 0, 0, 0)), Err(ParseFault::OutOfRange));
    assert_eq!(
        instant_from_fields((2016, 12, 31, 23, 59, 59, 1_000_000_000)),
        Err(ParseFault::OutOfRange)
    );
}

#[test]
fn the_first_unreadable_timestamp_gives_the_error() {
    let response = CTBookingsResponse {
        data: vec![
            entry(2, 20, "2021-03-26T15:30:00Z", "2021-03-26T17:00:00Z"),
            entry(1, 10, "2021-03-27T08:00:00Z", "2021-03-27T09:00:00Zjunk"),
            entry(3, 10, "", "2021-03-27T09:00:00Z"),
        ],
    };
    assert_eq!(
        bookings_from_response(&response),
        Err(CTApiError::ParseTime(ParseFault::TooLong))
    );
    // within an entry the start is read first
    assert_eq!(
        booking_from_entry(&entry(1, 1, "", "2021-13-01T00:00:00Z")),
        Err(CTApiError::ParseTime(ParseFault::TooShort))
    );
}
