use room_overview::config::RoomConfig;

#[test]
fn ics_location_joins_name_and_hint() {
    let room = RoomConfig {
        churchtools_id: 10,
        name: "Saal".to_owned(),
        location_hint: "1. OG".to_owned(),
    };
    assert_eq!(room.ics_location(), "Saal - 1. OG");
}

#[test]
fn ics_location_of_empty_parts() {
    let room = RoomConfig { churchtools_id: 0, name: String::new(), location_hint: String::new() };
    assert_eq!(room.ics_location(), " - ");
}
