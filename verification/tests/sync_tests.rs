use room_overview::booking::Booking;
use room_overview::db::{
    get_all_bookings, get_bookings_in_timeframe, insert_bookings, DBError, StorageFault, Store,
};
use room_overview::pull_from_ct::{parse_time, CTApiError, ParseFault};
use room_overview::reconcile::{apply_changes, holds_changed, holds_id, reconcile, Changes};
use room_overview::shutdown::{
    server_triggers_shutdown, signal_handler, ServerEvent, Signal, SignalEvent, SignalVerdict,
};
use room_overview::sync::{
    get_bookings_into_db, has_duplicate_ids, run_cycle, sync_window, CycleReport, GatherError,
    SyncEvent, SyncScheduler, SyncStep, SyncWindow,
};
use room_overview::time::Instant;
use room_overview::InShutdown;

fn at(year: i32, month: u32, day: u32, hour: u32, minute: u32, second: u32) -> Instant {
    Instant::new(year, month, day, hour, minute, second, 0).unwrap()
}

fn booking(booking_id: i64, resource_id: i64, title: &str, start: &str, end: &str) -> Booking {
    Booking {
        title: title.to_owned(),
        booking_id,
        resource_id,
        start_time: parse_time(start).unwrap(),
        end_time: parse_time(end).unwrap(),
    }
}

fn b123() -> Booking {
    booking(123, 10, "t", "2021-03-26T15:30:00Z", "2021-03-26T17:00:00Z")
}

fn b125() -> Booking {
    booking(125, 11, "t", "2021-03-26T18:00:00Z", "2021-03-26T19:00:00Z")
}

fn window() -> SyncWindow {
    sync_window(&at(2021, 3, 26, 12, 0, 0)).unwrap()
}

fn store_of(bookings: Vec<Booking>) -> Store {
    let mut db = Store::new();
    insert_bookings(&mut db, &bookings).unwrap();
    db
}

#[test]
fn the_window_reaches_from_midnight_to_the_end_of_the_next_day() {
    let w = sync_window(&Instant::new(2021, 3, 26, 15, 30, 12, 77).unwrap()).unwrap();
    assert_eq!(w.start, at(2021, 3, 26, 0, 0, 0));
    assert_eq!(w.end, at(2021, 3, 27, 23, 59, 59));
    let w = sync_window(&at(2021, 12, 31, 23, 59, 59)).unwrap();
    assert_eq!(w.end, at(2022, 1, 1, 23, 59, 59));
    let w = sync_window(&at(2024, 2, 28, 1, 0, 0)).unwrap();
    assert_eq!(w.end, at(2024, 2, 29, 23, 59, 59));
    let w = sync_window(&at(2023, 2, 28, 1, 0, 0)).unwrap();
    assert_eq!(w.end, at(2023, 3, 1, 23, 59, 59));
    assert_eq!(sync_window(&at(9999, 12, 31, 0, 0, 0)), None);
}

#[test]
fn the_difference_of_two_sets() {
    let stays = b123();
    let changes_end = booking(124, 10, "t", "2021-03-26T10:00:00Z", "2021-03-26T11:00:00Z");
    let changed_end = booking(124, 10, "t", "2021-03-26T10:00:00Z", "2021-03-26T12:00:00Z");
    let goes = b125();
    let comes = booking(126, 12, "t", "2021-03-27T10:00:00Z", "2021-03-27T11:00:00Z");
    let local = vec![stays.clone(), changes_end, goes];
    let remote = vec![comes.clone(), changed_end.clone(), stays];
    let changes = reconcile(&remote, &local);
    assert_eq!(changes.to_insert, vec![comes]);
    assert_eq!(changes.to_delete, vec![125]);
    assert_eq!(changes.to_update, vec![changed_end]);
    assert!(!changes.is_empty());
}

#[test]
fn every_field_counts_for_a_change() {
    let local = vec![b123()];
    let mut other_title = b123();
    other_title.title = "other".to_owned();
    let mut other_room = b123();
    other_room.resource_id = 11;
    let mut other_start = b123();
    other_start.start_time = at(2021, 3, 26, 15, 0, 0);
    for changed in [other_title, other_room, other_start] {
        assert!(holds_changed(&local, &changed));
        assert_eq!(reconcile(&vec![changed.clone()], &local).to_update, vec![changed]);
    }
    assert!(!holds_changed(&local, &b123()));
    assert!(!holds_changed(&local, &b125()));
    assert!(holds_id(&local, 123));
    assert!(!holds_id(&local, 125));
    assert!(reconcile(&local, &local).is_empty());
    assert!(reconcile(&vec![], &vec![]).is_empty());
}

#[test]
fn scenario_insert() {
    let mut db = Store::new();
    let remote = vec![b123()];
    assert_eq!(get_bookings_into_db(&mut db, Ok(remote), &window()), Ok(()));
    let found =
        get_bookings_in_timeframe(&db, at(2021, 3, 26, 0, 0, 0), at(2021, 3, 26, 23, 59, 59))
            .unwrap();
    assert_eq!(found, vec![b123()]);
}

#[test]
fn scenario_update() {
    let mut db = store_of(vec![b123()]);
    let later = booking(123, 10, "t", "2021-03-26T15:30:00Z", "2021-03-26T18:00:00Z");
    assert_eq!(get_bookings_into_db(&mut db, Ok(vec![later.clone()]), &window()), Ok(()));
    let all = get_all_bookings(&db).unwrap();
    assert_eq!(all, vec![later]);
    assert_eq!(all[0].end_time.to_storage(), "2021-03-26T18:00:00");
}

#[test]
fn scenario_delete() {
    let mut db = store_of(vec![b123(), b125()]);
    assert_eq!(get_bookings_into_db(&mut db, Ok(vec![b125()]), &window()), Ok(()));
    assert_eq!(get_all_bookings(&db).unwrap(), vec![b125()]);
}

#[test]
fn reconciling_twice_finds_nothing_the_second_time() {
    let mut db = store_of(vec![
        b123(),
        b125(),
        booking(1, 1, "old", "2020-01-01T10:00:00Z", "2020-01-01T11:00:00Z"),
    ]);
    let remote = vec![
        booking(123, 10, "t", "2021-03-26T15:30:00Z", "2021-03-26T18:00:00Z"),
        booking(200, 10, "new", "2021-03-27T09:00:00Z", "2021-03-27T10:00:00Z"),
    ];
    assert_eq!(get_bookings_into_db(&mut db, Ok(remote.clone()), &window()), Ok(()));
    let after_first = get_all_bookings(&db).unwrap();
    let w = window();
    let local = get_bookings_in_timeframe(&db, w.start, w.end).unwrap();
    assert!(reconcile(&remote, &local).is_empty());
    assert_eq!(get_bookings_into_db(&mut db, Ok(remote), &window()), Ok(()));
    assert_eq!(get_all_bookings(&db).unwrap(), after_first);
    // what lies outside the window is not touched
    assert!(db.contains_id(1));
    assert!(!db.contains_id(125));
}

#[test]
fn a_failed_fetch_changes_nothing() {
    let mut db = store_of(vec![b123()]);
    let failure = CTApiError::GetBookings("connection refused".to_owned());
    assert_eq!(
        get_bookings_into_db(&mut db, Err(failure.clone()), &window()),
        Err(GatherError::CT(failure))
    );
    assert_eq!(
        get_bookings_into_db(&mut db, Err(CTApiError::Utf8Decode), &window()),
        Err(GatherError::CT(CTApiError::Utf8Decode))
    );
    assert_eq!(get_all_bookings(&db).unwrap(), vec![b123()]);
}

#[test]
fn an_answer_with_a_repeated_id_is_outside_the_protocol() {
    let mut db = store_of(vec![b123()]);
    let twice = vec![b125(), booking(125, 11, "x", "2021-03-26T20:00:00Z", "2021-03-26T21:00:00Z")];
    assert!(has_duplicate_ids(&twice));
    assert!(!has_duplicate_ids(&vec![b123(), b125()]));
    assert!(!has_duplicate_ids(&vec![]));
    assert_eq!(
        get_bookings_into_db(&mut db, Ok(twice), &window()),
        Err(GatherError::CT(CTApiError::Deserialize))
    );
    assert_eq!(get_all_bookings(&db).unwrap(), vec![b123()]);
}

#[test]
fn a_conflict_outside_the_window_leaves_the_run_half_done() {
    // 300 is stored for another day, so the window does not show it
    let far = booking(300, 1, "far", "2021-06-01T10:00:00Z", "2021-06-01T11:00:00Z");
    let mut db = store_of(vec![b123(), far.clone()]);
    let fresh = booking(400, 1, "fresh", "2021-03-26T08:00:00Z", "2021-03-26T09:00:00Z");
    let clash = booking(300, 1, "moved", "2021-03-26T10:00:00Z", "2021-03-26T11:00:00Z");
    let remote = vec![fresh.clone(), clash];
    assert_eq!(
        get_bookings_into_db(&mut db, Ok(remote), &window()),
        Err(GatherError::DB(DBError::InsertBooking(StorageFault::Conflict)))
    );
    // the first insert stays, the delete of 123 never ran
    assert_eq!(get_all_bookings(&db).unwrap(), vec![b123(), far, fresh]);
}

#[test]
fn changes_are_applied_inserts_first() {
    let mut db = store_of(vec![b123(), b125()]);
    let changes = Changes {
        to_insert: vec![booking(1, 1, "a", "2021-03-26T08:00:00Z", "2021-03-26T09:00:00Z")],
        to_delete: vec![125, 1],
        to_update: vec![booking(123, 10, "b", "2021-03-26T15:30:00Z", "2021-03-26T17:00:00Z")],
    };
    assert_eq!(apply_changes(&mut db, &changes), Ok(()));
    let all = get_all_bookings(&db).unwrap();
    assert_eq!(all.len(), 1);
    assert_eq!(all[0].title, "b");
    let missing = Changes {
        to_insert: vec![],
        to_delete: vec![],
        to_update: vec![b125()],
    };
    assert_eq!(
        apply_changes(&mut db, &missing),
        Err(DBError::UpdateBooking(StorageFault::NotFound))
    );
}

#[test]
fn a_cycle_reconciles_and_prunes() {
    let now = at(2021, 3, 26, 12, 0, 0);
    let old = booking(1, 1, "old", "2021-03-25T10:00:00Z", "2021-03-25T11:00:00Z");
    let mut db = store_of(vec![old, b125()]);
    let scheduler = SyncScheduler::new(now);
    let (scheduler, report) = run_cycle(scheduler, &mut db, now, Ok(vec![b123()]));
    assert_eq!(report, Some(CycleReport { gathered: Ok(()), pruned: Ok(1) }));
    assert!(scheduler.is_waiting());
    assert_eq!(get_all_bookings(&db).unwrap(), vec![b123()]);
}

#[test]
fn scenario_prune() {
    let now = at(2024, 3, 1, 10, 0, 0);
    let yesterday = booking(8888, 31, "title", "2024-02-29T10:00:00Z", "2024-02-29T11:00:00Z");
    let soon = booking(9999, 31, "title", "2024-03-01T10:00:00Z", "2024-03-01T11:00:00Z");
    let mut db = store_of(vec![yesterday, soon.clone()]);
    let failure = CTApiError::GetBookings("unreachable".to_owned());
    let (_, report) = run_cycle(SyncScheduler::new(now), &mut db, now, Err(failure.clone()));
    // the failed fetch is reported, and the pruning has run all the same
    assert_eq!(
        report,
        Some(CycleReport { gathered: Err(GatherError::CT(failure)), pruned: Ok(1) })
    );
    assert_eq!(get_all_bookings(&db).unwrap(), vec![soon]);
}

#[test]
fn the_scheduler_asks_for_the_steps_of_a_cycle_in_order() {
    let now = at(2021, 3, 26, 12, 0, 0);
    let w = window();
    let scheduler = SyncScheduler::new(now);
    let (scheduler, step) = scheduler.on_event(SyncEvent::Tick(now));
    assert!(matches!(step, Some(SyncStep::Fetch(x)) if x == w));
    let (scheduler, step) = scheduler.on_event(SyncEvent::Fetched(Ok(vec![b123()])));
    assert!(matches!(step, Some(SyncStep::Select(x)) if x == w));
    let (scheduler, step) = scheduler.on_event(SyncEvent::Selected(Ok(vec![b125()])));
    match step {
        Some(SyncStep::Apply(changes)) => {
            assert_eq!(changes.to_insert, vec![b123()]);
            assert_eq!(changes.to_delete, vec![125]);
            assert_eq!(changes.to_update, Vec::<Booking>::new());
        }
        other => panic!("unexpected step {:?}", other),
    }
    let failed = DBError::DeleteBooking(StorageFault::Engine("disk full".to_owned()));
    let (scheduler, step) = scheduler.on_event(SyncEvent::Applied(Err(failed.clone())));
    assert!(matches!(step, Some(SyncStep::Prune(x)) if x == at(2021, 3, 26, 0, 0, 0)));
    let prune_failed = DBError::DeleteBooking(StorageFault::Engine("locked".to_owned()));
    let (scheduler, step) = scheduler.on_event(SyncEvent::Pruned(Err(prune_failed.clone())));
    match step {
        Some(SyncStep::Wait(report)) => {
            assert_eq!(report.gathered, Err(GatherError::DB(failed)));
            assert_eq!(report.pruned, Err(prune_failed));
        }
        other => panic!("unexpected step {:?}", other),
    }
    // neither failure has stopped the schedule
    assert!(scheduler.is_waiting());
    assert!(!scheduler.is_stopping());
    let (_, step) = scheduler.on_event(SyncEvent::Tick(at(2021, 3, 26, 12, 5, 0)));
    assert!(matches!(step, Some(SyncStep::Fetch(_))));
}

#[test]
fn failures_lead_straight_to_the_pruning() {
    let now = at(2021, 3, 26, 12, 0, 0);
    let midnight = at(2021, 3, 26, 0, 0, 0);
    // the fetch fails
    let (s, _) = SyncScheduler::new(now).on_event(SyncEvent::Tick(now));
    let (s, step) = s.on_event(SyncEvent::Fetched(Err(CTApiError::Deserialize)));
    assert!(matches!(step, Some(SyncStep::Prune(x)) if x == midnight));
    let (_, step) = s.on_event(SyncEvent::Pruned(Ok(0)));
    assert!(matches!(
        step,
        Some(SyncStep::Wait(CycleReport {
            gathered: Err(GatherError::CT(CTApiError::Deserialize)),
            pruned: Ok(0)
        }))
    ));
    // the answer names an id twice
    let (s, _) = SyncScheduler::new(now).on_event(SyncEvent::Tick(now));
    let (s, step) = s.on_event(SyncEvent::Fetched(Ok(vec![b123(), b123()])));
    assert!(matches!(step, Some(SyncStep::Prune(_))));
    let (_, step) = s.on_event(SyncEvent::Pruned(Ok(3)));
    assert!(matches!(
        step,
        Some(SyncStep::Wait(CycleReport {
            gathered: Err(GatherError::CT(CTApiError::Deserialize)),
            pruned: Ok(3)
        }))
    ));
    // the select fails
    let broken = DBError::SelectBookings(StorageFault::Engine("gone".to_owned()));
    let (s, _) = SyncScheduler::new(now).on_event(SyncEvent::Tick(now));
    let (s, _) = s.on_event(SyncEvent::Fetched(Ok(vec![b123()])));
    let (_, step) = s.on_event(SyncEvent::Selected(Err(broken)));
    assert!(matches!(step, Some(SyncStep::Prune(_))));
    // the day has no day after it
    let last = at(9999, 12, 31, 8, 0, 0);
    let (s, step) = SyncScheduler::new(last).on_event(SyncEvent::Tick(last));
    assert!(matches!(step, Some(SyncStep::Prune(x)) if x == at(9999, 12, 31, 0, 0, 0)));
    let (_, step) = s.on_event(SyncEvent::Pruned(Ok(0)));
    assert!(matches!(
        step,
        Some(SyncStep::Wait(CycleReport {
            gathered: Err(GatherError::CT(CTApiError::ParseTime(ParseFault::OutOfRange))),
            pruned: Ok(0)
        }))
    ));
}

#[test]
fn shutdown_is_seen_while_waiting_and_is_final() {
    let now = at(2021, 3, 26, 12, 0, 0);
    let (s, step) = SyncScheduler::new(now).on_event(SyncEvent::Shutdown);
    assert!(matches!(step, Some(SyncStep::Exit)));
    assert!(s.is_stopping());
    let (s, step) = s.on_event(SyncEvent::Tick(now));
    assert!(matches!(step, Some(SyncStep::Exit)));
    let (s, step) = s.on_event(SyncEvent::Pruned(Ok(1)));
    assert!(matches!(step, Some(SyncStep::Exit)));
    assert!(s.is_stopping());
    // a stopped scheduler runs no cycle
    let mut db = store_of(vec![b123()]);
    let (_, report) = run_cycle(s, &mut db, at(2030, 1, 1, 0, 0, 0), Ok(vec![]));
    assert_eq!(report, None);
    assert_eq!(db.len(), 1);
}

#[test]
fn events_out_of_turn_are_not_taken() {
    let now = at(2021, 3, 26, 12, 0, 0);
    let (s, step) = SyncScheduler::new(now).on_event(SyncEvent::Pruned(Ok(1)));
    assert!(step.is_none());
    assert!(s.is_waiting());
    let (s, _) = s.on_event(SyncEvent::Tick(now));
    // in the middle of a cycle neither a tick nor shutdown is taken
    let (s, step) = s.on_event(SyncEvent::Shutdown);
    assert!(step.is_none());
    let (s, step) = s.on_event(SyncEvent::Tick(now));
    assert!(step.is_none());
    assert!(!s.is_stopping());
    let (_, step) = s.on_event(SyncEvent::Fetched(Ok(vec![])));
    assert!(matches!(step, Some(SyncStep::Select(_))));
}

#[test]
fn the_shutdown_flag_only_rises() {
    let mut flag = InShutdown::No;
    assert!(!flag.is_shutting_down());
    flag.trigger();
    assert_eq!(flag, InShutdown::Yes);
    assert!(flag.is_shutting_down());
    flag.trigger();
    assert_eq!(flag, InShutdown::Yes);
}

#[test]
fn signals_raise_the_flag() {
    let raise = SignalVerdict { trigger_shutdown: true, fail: false };
    for signal in [Signal::Terminate, Signal::Hangup, Signal::Interrupt] {
        assert_eq!(signal_handler(SignalEvent::Received(signal)), raise);
        assert_eq!(
            signal_handler(SignalEvent::InstallFailed(signal)),
            SignalVerdict { trigger_shutdown: true, fail: true }
        );
    }
    assert_eq!(signal_handler(SignalEvent::CtrlC), raise);
    assert_eq!(signal_handler(SignalEvent::CtrlCFailed), raise);
    assert_eq!(
        signal_handler(SignalEvent::ShutdownSeen),
        SignalVerdict { trigger_shutdown: false, fail: false }
    );
}

#[test]
fn a_failed_listener_raises_the_flag() {
    assert!(server_triggers_shutdown(ServerEvent::ListenerEnded { failed: true }));
    assert!(!server_triggers_shutdown(ServerEvent::ListenerEnded { failed: false }));
    assert!(!server_triggers_shutdown(ServerEvent::ShutdownSeen));
}
