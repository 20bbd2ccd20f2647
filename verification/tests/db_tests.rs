use room_overview::booking::Booking;
use room_overview::db::{
    delete_booking, delete_bookings, get_all_bookings, get_bookings_in_timeframe, insert_booking,
    insert_bookings, prune_before, prune_old_bookings, update_booking, update_bookings, DBError,
    NaiveBooking, StorageFault, Store,
};
use room_overview::pull_from_ct::parse_time;
use room_overview::time::Instant;

fn at(year: i32, month: u32, day: u32, hour: u32, minute: u32, second: u32) -> Instant {
    Instant::new(year, month, day, hour, minute, second, 0).unwrap()
}

fn booking(booking_id: i64, resource_id: i64, start: &str, end: &str) -> Booking {
    Booking {
        title: "title".to_owned(),
        booking_id,
        resource_id,
        start_time: parse_time(start).unwrap(),
        end_time: parse_time(end).unwrap(),
    }
}

/// Two bookings: 123 on 2021-03-26 and 125 on 2021-03-28.
fn good_data() -> Store {
    let mut db = Store::new();
    insert_booking(
        &mut db,
        &booking(123, 10, "2021-03-26T15:30:00+00:00", "2021-03-26T17:00:00+00:00"),
    )
    .unwrap();
    insert_booking(
        &mut db,
        &booking(125, 11, "2021-03-28T15:30:00+00:00", "2021-03-28T17:00:00+00:00"),
    )
    .unwrap();
    db
}

#[test]
fn select_all_bookings() {
    let pool = good_data();
    let bookings = get_all_bookings(&pool).unwrap();
    assert_eq!(bookings.len(), 2);
    assert_eq!(
        bookings[0],
        Booking {
            title: "title".to_owned(),
            booking_id: 123,
            resource_id: 10,
            start_time: parse_time("2021-03-26T15:30:00+00:00").unwrap(),
            end_time: parse_time("2021-03-26T17:00:00+00:00").unwrap(),
        }
    );
    assert_eq!(
        bookings[1],
        Booking {
            title: "title".to_owned(),
            booking_id: 125,
            resource_id: 11,
            start_time: parse_time("2021-03-28T15:30:00+00:00").unwrap(),
            end_time: parse_time("2021-03-28T17:00:00+00:00").unwrap(),
        }
    );
}

#[test]
fn select_bookings_in_timeframe() {
    let pool = good_data();
    let start = at(2021, 3, 26, 0, 0, 0);
    let end = at(2021, 3, 26, 23, 59, 59);
    let bookings = get_bookings_in_timeframe(&pool, start, end).unwrap();
    assert_eq!(bookings.len(), 1);
    assert_eq!(
        bookings[0],
        Booking {
            title: "title".to_owned(),
            booking_id: 123,
            resource_id: 10,
            start_time: parse_time("2021-03-26T15:30:00+00:00").unwrap(),
            end_time: parse_time("2021-03-26T17:00:00+00:00").unwrap(),
        }
    );
}

#[test]
fn delete_single_booking() {
    let mut pool = good_data();
    delete_booking(&mut pool, 123).unwrap();

    let start = at(2021, 3, 26, 0, 0, 0);
    let end = at(2021, 3, 26, 23, 59, 59);
    let bookings = get_bookings_in_timeframe(&pool, start, end).unwrap();
    assert_eq!(bookings.len(), 0);
}

#[test]
fn delete_multiple_bookings() {
    let mut pool = good_data();
    let to_delete = vec![123, 125];
    delete_bookings(&mut pool, &to_delete).unwrap();

    let bookings = get_all_bookings(&pool).unwrap();
    assert_eq!(bookings.len(), 0);
}

#[test]
fn test_update_booking() {
    let mut pool = good_data();
    let new_booking = Booking {
        title: "title".to_owned(),
        booking_id: 123,
        resource_id: 10,
        start_time: parse_time("2021-04-26T15:30:00+00:00").unwrap(),
        end_time: parse_time("2021-04-26T17:00:00+00:00").unwrap(),
    };
    update_booking(&mut pool, &new_booking).unwrap();
    let start = at(2021, 4, 20, 0, 0, 0);
    let end = at(2021, 5, 30, 23, 59, 59);
    let bookings = get_bookings_in_timeframe(&pool, start, end).unwrap();
    assert_eq!(bookings.len(), 1);
    assert_eq!(bookings[0], new_booking);
}

#[test]
fn test_insert_booking() {
    let mut pool = good_data();
    let new_booking = Booking {
        title: "title".to_owned(),
        booking_id: 12341234,
        resource_id: 21,
        start_time: parse_time("2019-04-26T14:28:00+00:00").unwrap(),
        end_time: parse_time("2019-04-26T18:00:00+00:00").unwrap(),
    };
    insert_booking(&mut pool, &new_booking).unwrap();
    let start = at(2019, 1, 1, 0, 0, 0);
    let end = at(2019, 12, 31, 23, 59, 59);
    let bookings = get_bookings_in_timeframe(&pool, start, end).unwrap();
    assert_eq!(bookings.len(), 1);
    assert_eq!(bookings[0], new_booking);
}

#[test]
fn test_pruning() {
    let mut pool = Store::new();
    // insert booking for today and yesterday
    let now = at(2024, 3, 1, 10, 15, 0);
    let in_an_hour = at(2024, 3, 1, 11, 15, 0);
    let booking_today = Booking {
        title: "title".to_owned(),
        resource_id: 31,
        booking_id: 9999,
        start_time: now,
        end_time: in_an_hour,
    };
    let yesterday = at(2024, 2, 29, 10, 15, 0);
    let yesterday_plus_one_hour = at(2024, 2, 29, 11, 15, 0);
    let booking_yesterday = Booking {
        title: "title".to_owned(),
        resource_id: 31,
        booking_id: 8888,
        start_time: yesterday,
        end_time: yesterday_plus_one_hour,
    };
    insert_bookings(&mut pool, &vec![booking_yesterday.clone(), booking_today.clone()]).unwrap();
    // prune
    let rows_changed = prune_old_bookings(&mut pool, &now).unwrap();
    assert_eq!(rows_changed, 1);
    // check that only the one of today survives
    let bookings = get_all_bookings(&pool).unwrap();
    assert_eq!(bookings.len(), 1);
    assert_eq!(bookings[0], booking_today);
}

#[test]
fn prune_keeps_what_ends_at_midnight_and_drops_the_second_before() {
    let mut db = Store::new();
    let now = at(2024, 3, 1, 18, 0, 0);
    let mut ends_at_midnight = booking(1, 1, "2024-02-29T22:00:00Z", "2024-03-01T00:00:00Z");
    ends_at_midnight.title = "kept".to_owned();
    let ends_before = booking(2, 1, "2024-02-29T22:00:00Z", "2024-02-29T23:59:59Z");
    let ended_earlier_today = booking(3, 1, "2024-03-01T08:00:00Z", "2024-03-01T09:00:00Z");
    insert_bookings(
        &mut db,
        &vec![ends_at_midnight.clone(), ends_before, ended_earlier_today.clone()],
    )
    .unwrap();
    assert_eq!(prune_old_bookings(&mut db, &now), Ok(1));
    assert_eq!(get_all_bookings(&db).unwrap(), vec![ends_at_midnight, ended_earlier_today]);
    // nothing is left to prune
    assert_eq!(prune_old_bookings(&mut db, &now), Ok(0));
    assert_eq!(db.len(), 2);
}

#[test]
fn prune_before_an_arbitrary_moment() {
    let mut db = good_data();
    assert_eq!(prune_before(&mut db, &at(2021, 3, 26, 17, 0, 0)), 0);
    assert_eq!(prune_before(&mut db, &at(2021, 3, 26, 17, 0, 1)), 1);
    assert_eq!(get_all_bookings(&db).unwrap()[0].booking_id, 125);
    assert_eq!(prune_before(&mut db, &at(2030, 1, 1, 0, 0, 0)), 1);
    assert_eq!(db.len(), 0);
}

#[test]
fn insert_of_a_stored_id_is_a_conflict() {
    let mut db = good_data();
    let again = booking(123, 99, "2022-01-01T00:00:00Z", "2022-01-01T01:00:00Z");
    assert_eq!(
        insert_booking(&mut db, &again),
        Err(DBError::InsertBooking(StorageFault::Conflict))
    );
    assert_eq!(get_all_bookings(&db).unwrap(), get_all_bookings(&good_data()).unwrap());
}

#[test]
fn insert_many_stops_at_the_first_conflict() {
    let mut db = good_data();
    let fresh = booking(1, 1, "2022-01-01T00:00:00Z", "2022-01-01T01:00:00Z");
    let taken = booking(125, 1, "2022-01-01T00:00:00Z", "2022-01-01T01:00:00Z");
    let never = booking(2, 1, "2022-01-01T00:00:00Z", "2022-01-01T01:00:00Z");
    assert_eq!(
        insert_bookings(&mut db, &vec![fresh, taken, never]),
        Err(DBError::InsertBooking(StorageFault::Conflict))
    );
    assert!(db.contains_id(1));
    assert!(!db.contains_id(2));
    assert_eq!(db.len(), 3);
}

#[test]
fn update_of_an_absent_id_is_not_found() {
    let mut db = good_data();
    let absent = booking(7, 1, "2022-01-01T00:00:00Z", "2022-01-01T01:00:00Z");
    assert_eq!(
        update_booking(&mut db, &absent),
        Err(DBError::UpdateBooking(StorageFault::NotFound))
    );
    assert_eq!(
        update_bookings(&mut db, &vec![absent]),
        Err(DBError::UpdateBooking(StorageFault::NotFound))
    );
    assert_eq!(get_all_bookings(&db).unwrap(), get_all_bookings(&good_data()).unwrap());
}

#[test]
fn update_keeps_the_row_in_its_place_and_makes_no_duplicate() {
    let mut db = good_data();
    let later = booking(123, 10, "2021-03-26T15:30:00Z", "2021-03-26T18:00:00Z");
    update_bookings(&mut db, &vec![later.clone()]).unwrap();
    let all = get_all_bookings(&db).unwrap();
    assert_eq!(all.len(), 2);
    assert_eq!(all[0], later);
    assert_eq!(all[0].end_time.to_storage(), "2021-03-26T18:00:00");
    assert_eq!(all[1].booking_id, 125);
}

#[test]
fn delete_of_an_absent_id_changes_nothing() {
    let mut db = good_data();
    assert_eq!(delete_booking(&mut db, 999), Ok(()));
    assert_eq!(delete_bookings(&mut db, &vec![999, 1000]), Ok(()));
    assert_eq!(db.len(), 2);
}

#[test]
fn overlap_query() {
    let db = good_data();
    let ids = |start: Instant, end: Instant| -> Vec<i64> {
        get_bookings_in_timeframe(&db, start, end)
            .unwrap()
            .iter()
            .map(|b| b.booking_id)
            .collect()
    };
    // the whole day
    assert_eq!(ids(at(2021, 3, 26, 0, 0, 0), at(2021, 3, 26, 23, 59, 59)), vec![123]);
    // windows that meet 15:30 to 17:00
    assert_eq!(ids(at(2021, 3, 26, 16, 0, 0), at(2021, 3, 26, 16, 30, 0)), vec![123]);
    assert_eq!(ids(at(2021, 3, 26, 14, 0, 0), at(2021, 3, 26, 15, 30, 0)), vec![123]);
    assert_eq!(ids(at(2021, 3, 26, 17, 0, 0), at(2021, 3, 26, 19, 0, 0)), vec![123]);
    assert_eq!(ids(at(2021, 3, 26, 10, 0, 0), at(2021, 3, 26, 20, 0, 0)), vec![123]);
    // windows that miss it
    assert_eq!(ids(at(2021, 3, 26, 14, 0, 0), at(2021, 3, 26, 15, 29, 59)), Vec::<i64>::new());
    assert_eq!(ids(at(2021, 3, 26, 17, 0, 1), at(2021, 3, 26, 19, 0, 0)), Vec::<i64>::new());
    // the adjacent days
    assert_eq!(ids(at(2021, 3, 25, 0, 0, 0), at(2021, 3, 25, 23, 59, 59)), Vec::<i64>::new());
    assert_eq!(ids(at(2021, 3, 27, 0, 0, 0), at(2021, 3, 27, 23, 59, 59)), Vec::<i64>::new());
    // both bookings
    assert_eq!(ids(at(2021, 3, 26, 0, 0, 0), at(2021, 3, 28, 23, 59, 59)), vec![123, 125]);
}

#[test]
fn the_store_keeps_whole_seconds() {
    let mut db = Store::new();
    let fine = booking(5, 1, "2021-03-26T15:30:00.750Z", "2021-03-26T17:00:00.250Z");
    assert_eq!(fine.start_time.nanosecond(), 750_000_000);
    insert_booking(&mut db, &fine).unwrap();
    let read = get_all_bookings(&db).unwrap();
    assert_eq!(read[0].start_time, at(2021, 3, 26, 15, 30, 0));
    assert_eq!(read[0].end_time, at(2021, 3, 26, 17, 0, 0));
}

#[test]
fn rows_are_read_as_utc() {
    let b = booking(123, 10, "2021-03-26T16:30:00+01:00", "2021-03-26T18:00:00+01:00");
    let row = NaiveBooking::from_booking(&b);
    assert_eq!(row.start_time, "2021-03-26T15:30:00");
    assert_eq!(row.end_time, "2021-03-26T17:00:00");
    assert_eq!(row.interpret_as_utc(), Some(b));
    let broken = NaiveBooking {
        booking_id: 1,
        title: String::new(),
        resource_id: 1,
        start_time: "2021-03-26 15:30:00".to_owned(),
        end_time: "2021-03-26T17:00:00".to_owned(),
    };
    assert_eq!(broken.interpret_as_utc(), None);
}

fn row(booking_id: i64, start: &str, end: &str) -> NaiveBooking {
    NaiveBooking {
        booking_id,
        title: "title".to_owned(),
        resource_id: 10,
        start_time: start.to_owned(),
        end_time: end.to_owned(),
    }
}

#[test]
fn a_store_is_made_of_persisted_rows() {
    let rows = vec![
        row(123, "2021-03-26T15:30:00", "2021-03-26T17:00:00"),
        row(125, "2021-03-28T15:30:00", "2021-03-28T17:00:00"),
    ];
    let db = Store::from_rows(rows).unwrap();
    assert_eq!(db.len(), 2);
    let all = get_all_bookings(&db).unwrap();
    assert_eq!(all[0], booking(123, 10, "2021-03-26T15:30:00Z", "2021-03-26T17:00:00Z"));
    let back = db.to_rows();
    assert_eq!(back.len(), 2);
    assert_eq!(back[1].booking_id, 125);
    assert_eq!(back[1].start_time, "2021-03-28T15:30:00");
    assert_eq!(back[1].end_time, "2021-03-28T17:00:00");
    assert!(Store::from_rows(vec![]).is_some());
}

#[test]
fn rows_that_are_no_table_make_no_store() {
    let twice = vec![
        row(123, "2021-03-26T15:30:00", "2021-03-26T17:00:00"),
        row(123, "2021-03-28T15:30:00", "2021-03-28T17:00:00"),
    ];
    assert!(Store::from_rows(twice).is_none());
    let with_zone = vec![row(1, "2021-03-26T15:30:00+01:00", "2021-03-26T17:00:00")];
    assert!(Store::from_rows(with_zone).is_none());
    let no_such_day = vec![row(1, "2021-03-26T15:30:00", "2021-02-29T17:00:00")];
    assert!(Store::from_rows(no_such_day).is_none());
}
