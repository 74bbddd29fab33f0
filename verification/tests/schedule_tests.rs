use std::str::FromStr;
use zephyr::config::CommandConfig;
use zephyr::schedule::{next_run, next_run_given, ScheduleError};
use zephyr::time::{Timestamp, MAX_MILLIS, MIN_MILLIS};

fn command(interval_millis: Option<u64>, cron: Option<&str>) -> CommandConfig {
    CommandConfig {
        name: "job".to_string(),
        command: "echo test".to_string(),
        interval_millis,
        cron: cron.map(|c| c.to_string()),
        max_runtime_minutes: None,
        enabled: true,
        working_dir: None,
        environment: None,
        immediate: false,
    }
}

fn at(millis: i64) -> Timestamp {
    Timestamp::from_millis(millis).unwrap()
}

// 2023-11-14T22:13:20Z
const T0: i64 = 1_700_000_000_000;

#[test]
fn interval_run_is_now_plus_interval() {
    assert_eq!(next_run(&command(Some(60_000), None), at(T0)), Ok(at(T0 + 60_000)));
    assert_eq!(next_run(&command(Some(1), None), at(T0)), Ok(at(T0 + 1)));
    assert_eq!(next_run(&command(Some(7_200_000), None), at(T0)), Ok(at(T0 + 7_200_000)));
}

#[test]
fn interval_run_is_not_rounded() {
    // half a minute, and an hour and a half and 7 ms
    assert_eq!(next_run(&command(Some(30_000), None), at(T0 + 123)), Ok(at(T0 + 30_123)));
    assert_eq!(next_run(&command(Some(5_400_007), None), at(T0)), Ok(at(T0 + 5_400_007)));
}

#[test]
fn interval_run_holds_for_many_intervals() {
    let mut interval: u64 = 1;
    while interval < 1_000_000_000_000 {
        for now in [MIN_MILLIS, -5, 0, T0] {
            let next = next_run(&command(Some(interval), None), at(now)).unwrap();
            assert_eq!(next.millis(), now + interval as i64);
        }
        interval = interval * 7 + 3;
    }
}

#[test]
fn interval_run_beyond_the_span_fails() {
    let c = command(Some(1_000), None);
    assert_eq!(next_run(&c, at(MAX_MILLIS - 1_000)), Ok(at(MAX_MILLIS)));
    assert_eq!(next_run(&c, at(MAX_MILLIS - 999)), Err(ScheduleError::TimeOutOfRange));
    assert_eq!(
        next_run(&command(Some(u64::MAX), None), at(T0)),
        Err(ScheduleError::TimeOutOfRange)
    );
}

#[test]
fn interval_takes_precedence_over_cron() {
    let c = command(Some(60_000), Some("not a cron expression"));
    assert_eq!(next_run(&c, at(T0)), Ok(at(T0 + 60_000)));
}

#[test]
fn cron_run_is_the_next_occurrence() {
    // every hour on the hour: 23:00:00 follows 22:13:20
    assert_eq!(next_run(&command(None, Some("0 0 * * * *")), at(T0)), Ok(at(1_700_002_800_000)));
    // every day at midnight
    assert_eq!(next_run(&command(None, Some("0 0 0 * * *")), at(T0)), Ok(at(1_700_006_400_000)));
    // every second
    assert_eq!(next_run(&command(None, Some("* * * * * *")), at(T0)), Ok(at(T0 + 1_000)));
}

#[test]
fn cron_run_is_strictly_after_now() {
    // now is itself an occurrence: the next one is an hour later
    let on_the_hour = 1_700_002_800_000;
    assert_eq!(
        next_run(&command(None, Some("0 0 * * * *")), at(on_the_hour)),
        Ok(at(on_the_hour + 3_600_000))
    );
    assert_eq!(
        next_run(&command(None, Some("0 0 * * * *")), at(on_the_hour - 1)),
        Ok(at(on_the_hour))
    );
    assert_eq!(
        next_run(&command(None, Some("* * * * * *")), at(T0 + 999)),
        Ok(at(T0 + 1_000))
    );
}

#[test]
fn cron_run_satisfies_the_expression() {
    let expressions = ["0 0 * * * *", "0 */5 * * * *", "15 30 9 * * Mon-Fri", "0 0 0 1 * *"];
    for expression in expressions {
        let schedule = cron::Schedule::from_str(expression).unwrap();
        let mut now = T0;
        for _ in 0..20 {
            let next = next_run(&command(None, Some(expression)), at(now)).unwrap();
            assert!(next.millis() > now);
            let instant = chrono::DateTime::from_timestamp_millis(next.millis()).unwrap();
            assert!(schedule.includes(instant));
            now = next.millis() + 777;
        }
    }
}

#[test]
fn cron_that_does_not_parse_fails() {
    assert_eq!(
        next_run(&command(None, Some("not a cron expression")), at(T0)),
        Err(ScheduleError::InvalidCron)
    );
    assert_eq!(next_run(&command(None, Some("")), at(T0)), Err(ScheduleError::InvalidCron));
}

#[test]
fn cron_without_a_further_occurrence_fails() {
    // the only year named has passed
    assert_eq!(
        next_run(&command(None, Some("0 0 0 1 1 * 2020")), at(T0)),
        Err(ScheduleError::NoUpcomingRun)
    );
}

#[test]
fn command_without_a_schedule_fails() {
    assert_eq!(next_run(&command(None, None), at(T0)), Err(ScheduleError::MissingSchedule));
}

#[test]
fn a_disabled_command_still_has_a_next_run() {
    let mut c = command(Some(60_000), None);
    c.enabled = false;
    assert_eq!(next_run(&c, at(T0)), Ok(at(T0 + 60_000)));
}

#[test]
fn next_run_given_decides_on_what_it_is_told() {
    let c = command(None, Some("0 0 * * * *"));
    assert_eq!(next_run_given(&c, at(T0), true, Some(T0 + 5)), Ok(at(T0 + 5)));
    assert_eq!(next_run_given(&c, at(T0), false, Some(T0 + 5)), Err(ScheduleError::InvalidCron));
    assert_eq!(next_run_given(&c, at(T0), true, None), Err(ScheduleError::NoUpcomingRun));
    assert_eq!(
        next_run_given(&c, at(T0), true, Some(MAX_MILLIS + 1)),
        Err(ScheduleError::TimeOutOfRange)
    );
    assert_eq!(
        next_run_given(&c, at(T0), true, Some(MIN_MILLIS - 1)),
        Err(ScheduleError::TimeOutOfRange)
    );
    assert_eq!(next_run_given(&c, at(T0), true, Some(MAX_MILLIS)), Ok(at(MAX_MILLIS)));
    let i = command(Some(250), None);
    assert_eq!(next_run_given(&i, at(T0), false, None), Ok(at(T0 + 250)));
    assert_eq!(
        next_run_given(&command(None, None), at(T0), true, Some(T0 + 5)),
        Err(ScheduleError::MissingSchedule)
    );
}
