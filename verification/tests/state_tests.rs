use zephyr::config::CommandConfig;
use zephyr::schedule::ScheduleError;
use zephyr::state::{CommandState, ScheduleDescriptor, StateError};
use zephyr::time::Timestamp;

fn create_test_command(name: &str, interval: f64) -> CommandConfig {
    CommandConfig {
        name: name.to_string(),
        command: "echo test".to_string(),
        interval_millis: Some((interval * 60_000.0) as u64),
        cron: None,
        max_runtime_minutes: Some(5),
        enabled: true,
        working_dir: None,
        environment: None,
        immediate: false,
    }
}

fn at(millis: i64) -> Timestamp {
    Timestamp::from_millis(millis).unwrap()
}

const T0: i64 = 1_700_000_000_000;

#[test]
fn state_row_round_trip() {
    let command = create_test_command("test", 5.0);
    let now = at(T0 + 321);
    let next_run = at(T0 + 321 + 300_000);
    let state = CommandState::record(&command, Some(now), next_run);

    let row = state.encode(&command).unwrap();
    let loaded = CommandState::decode(
        row.name.clone(),
        row.last_execution.as_deref(),
        &row.next_scheduled,
    )
    .unwrap();

    assert_eq!(loaded.name, "test");
    assert_eq!(loaded.last_execution, Some(now));
    assert_eq!(loaded.next_scheduled, next_run);
    assert!(loaded.last_execution.unwrap().millis() / 1000 - now.millis() / 1000 < 1);
    assert!(loaded.next_scheduled.millis() / 1000 - next_run.millis() / 1000 < 1);
}

#[test]
fn state_row_round_trip_without_an_execution() {
    let command = create_test_command("fresh", 1.0);
    let state = CommandState::record(&command, None, at(T0));
    let row = state.encode(&command).unwrap();
    assert_eq!(row.last_execution, None);
    let loaded =
        CommandState::decode(row.name, row.last_execution.as_deref(), &row.next_scheduled).unwrap();
    assert_eq!(loaded.name, "fresh");
    assert_eq!(loaded.last_execution, None);
    assert_eq!(loaded.next_scheduled, at(T0));
}

#[test]
fn record_takes_the_name_of_the_command() {
    let command = create_test_command("backup", 60.0);
    let state = CommandState::record(&command, Some(at(5)), at(7));
    assert_eq!(state.name, "backup");
    assert_eq!(state.last_execution, Some(at(5)));
    assert_eq!(state.next_scheduled, at(7));
}

#[test]
fn encode_writes_the_columns() {
    let command = create_test_command("test", 5.0);
    let state = CommandState::record(&command, Some(at(T0)), at(T0 + 300_000));
    let row = state.encode(&command).unwrap();
    assert_eq!(row.name, "test");
    assert_eq!(row.last_execution, Some("2023-11-14T22:13:20+00:00".to_string()));
    assert_eq!(row.next_scheduled, "2023-11-14T22:18:20+00:00");
    assert_eq!(row.schedule.kind(), "interval");
    assert!(matches!(row.schedule, ScheduleDescriptor::Interval { millis: 300_000 }));
}

#[test]
fn encode_files_a_cron_schedule_under_cron() {
    let mut command = create_test_command("nightly", 1.0);
    command.interval_millis = None;
    command.cron = Some("0 0 0 * * *".to_string());
    let row = CommandState::record(&command, None, at(T0)).encode(&command).unwrap();
    assert_eq!(row.schedule.kind(), "cron");
    match row.schedule {
        ScheduleDescriptor::Cron { expression } => assert_eq!(expression, "0 0 0 * * *"),
        ScheduleDescriptor::Interval { .. } => panic!("a cron schedule was expected"),
    }
}

#[test]
fn encode_refuses_a_command_without_a_schedule() {
    let mut command = create_test_command("none", 1.0);
    command.interval_millis = None;
    let state = CommandState::record(&command, None, at(T0));
    assert!(matches!(state.encode(&command), Err(ScheduleError::MissingSchedule)));
    assert!(matches!(ScheduleDescriptor::of(&command), Err(ScheduleError::MissingSchedule)));
}

#[test]
fn descriptor_prefers_the_interval() {
    let mut command = create_test_command("both", 2.0);
    command.cron = Some("0 0 * * * *".to_string());
    assert!(matches!(
        ScheduleDescriptor::of(&command),
        Ok(ScheduleDescriptor::Interval { millis: 120_000 })
    ));
}

#[test]
fn decode_reads_the_columns() {
    let state = CommandState::decode(
        "test".to_string(),
        Some("2023-11-14T22:13:20+00:00"),
        "2023-11-14T22:18:20.250+00:00",
    )
    .unwrap();
    assert_eq!(state.name, "test");
    assert_eq!(state.last_execution, Some(at(T0)));
    assert_eq!(state.next_scheduled, at(T0 + 300_250));
}

#[test]
fn decode_refuses_a_bad_last_execution() {
    let r = CommandState::decode("test".to_string(), Some("never"), "2023-11-14T22:18:20+00:00");
    assert_eq!(r.err(), Some(StateError::BadLastExecution));
    // last_execution is looked at first
    let r = CommandState::decode("test".to_string(), Some("never"), "soon");
    assert_eq!(r.err(), Some(StateError::BadLastExecution));
}

#[test]
fn decode_refuses_a_bad_next_scheduled() {
    let r = CommandState::decode("test".to_string(), None, "soon");
    assert_eq!(r.err(), Some(StateError::BadNextScheduled));
    let r = CommandState::decode("test".to_string(), Some("2023-11-14T22:13:20Z"), "");
    assert_eq!(r.err(), Some(StateError::BadNextScheduled));
}

#[test]
fn a_state_without_an_execution_keeps_the_stored_one() {
    let command = create_test_command("job", 5.0);
    let stored = CommandState::record(&command, Some(at(T0)), at(T0 + 1));
    let rescheduled = CommandState::record(&command, None, at(T0 + 300_000));
    let kept = rescheduled.keeping_last_execution(Some(&stored));
    assert_eq!(kept.name, "job");
    assert_eq!(kept.last_execution, Some(at(T0)));
    assert_eq!(kept.next_scheduled, at(T0 + 300_000));
}

#[test]
fn a_state_with_an_execution_replaces_the_stored_one() {
    let command = create_test_command("job", 5.0);
    let stored = CommandState::record(&command, Some(at(T0)), at(T0 + 1));
    let executed = CommandState::record(&command, Some(at(T0 + 50)), at(T0 + 300_050));
    let kept = executed.keeping_last_execution(Some(&stored));
    assert_eq!(kept.last_execution, Some(at(T0 + 50)));
    assert_eq!(kept.next_scheduled, at(T0 + 300_050));
}

#[test]
fn nothing_is_kept_where_nothing_fits() {
    let command = create_test_command("job", 5.0);
    let other = CommandState::record(&create_test_command("other", 5.0), Some(at(T0)), at(T0 + 1));
    let never_ran = CommandState::record(&command, None, at(T0 + 1));
    let fresh = CommandState::record(&command, None, at(T0 + 2));
    assert_eq!(
        CommandState::record(&command, None, at(T0 + 2)).keeping_last_execution(None).last_execution,
        None
    );
    assert_eq!(
        CommandState::record(&command, None, at(T0 + 2))
            .keeping_last_execution(Some(&other))
            .last_execution,
        None
    );
    let kept = fresh.keeping_last_execution(Some(&never_ran));
    assert_eq!(kept.last_execution, None);
    assert_eq!(kept.next_scheduled, at(T0 + 2));
}

#[test]
fn every_row_reads_back_as_it_was_written() {
    let command = create_test_command("job", 5.0);
    let instants = [
        zephyr::time::MIN_MILLIS,
        -86_400_001,
        -1,
        0,
        1,
        999,
        1_000,
        T0,
        T0 + 1,
        T0 + 999,
        zephyr::time::MAX_MILLIS,
    ];
    for next in instants {
        for last in instants {
            let state = CommandState::record(&command, Some(at(last)), at(next));
            let row = state.encode(&command).unwrap();
            let loaded =
                CommandState::decode(row.name, row.last_execution.as_deref(), &row.next_scheduled)
                    .unwrap();
            assert_eq!(loaded.name, "job");
            assert_eq!(loaded.last_execution, Some(at(last)));
            assert_eq!(loaded.next_scheduled, at(next));
        }
    }
}
