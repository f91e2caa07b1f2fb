use chrono::Datelike;
use zeroclaw_sessions::dates::Date;
use zeroclaw_sessions::rotate::{
    check_date_rotation, checked_next_sequence, format_rotated_name, max_sequence, next_sequence,
    parse_rotated_filename, parts_of, should_rotate_by_size, ActiveFile,
};
use zeroclaw_sessions::rotation::{
    rotate_file, RotateAction, RotateEvent, RotateStep, Rotation, RotationError, RotationPath,
};

fn date(year: i32, month: u32, day: u32) -> Date {
    Date::from_ymd_opt(year, month, day).unwrap()
}

fn active(stem: &str, extension: &str) -> ActiveFile {
    ActiveFile {
        stem: Some(stem.to_string()),
        extension: Some(extension.to_string()),
    }
}

fn names(names: &[&str]) -> Vec<String> {
    names.iter().map(|n| n.to_string()).collect()
}

fn go_on(step: RotateStep<String>) -> Rotation {
    match step {
        RotateStep::Continue(rotation) => rotation,
        RotateStep::Finished(result) => panic!("finished with {:?}", result),
    }
}

fn finish(step: RotateStep<String>) -> Result<(), RotationError<String>> {
    match step {
        RotateStep::Continue(rotation) => panic!("goes on with {:?}", rotation),
        RotateStep::Finished(result) => result,
    }
}

fn failed(os_error: Option<i32>, error: &str) -> RotateEvent<String> {
    RotateEvent::Failed {
        os_error,
        error: error.to_string(),
    }
}

#[test]
fn parse_rotated_filename_valid() {
    let parts =
        parse_rotated_filename("runtime-trace.2026-05-06.1.jsonl", "runtime-trace", "jsonl");
    let p = parts.unwrap();
    assert_eq!(p.date, Date::from_ymd_opt(2026, 5, 6).unwrap());
    assert_eq!(p.seq, 1);
}

#[test]
fn parse_rotated_filename_higher_seq() {
    let parts = parse_rotated_filename("app.2025-12-31.42.log", "app", "log");
    let p = parts.unwrap();
    assert_eq!(p.date, Date::from_ymd_opt(2025, 12, 31).unwrap());
    assert_eq!(p.seq, 42);
}

#[test]
fn parse_rotated_filename_malformed_bad_date() {
    let parts = parse_rotated_filename("app.not-a-date.1.log", "app", "log");
    assert!(parts.is_none());
}

#[test]
fn parse_rotated_filename_malformed_bad_seq() {
    let parts = parse_rotated_filename("app.2026-05-06.abc.log", "app", "log");
    assert!(parts.is_none());
}

#[test]
fn parse_rotated_filename_wrong_stem() {
    let parts = parse_rotated_filename("other.2026-05-06.1.log", "app", "log");
    assert!(parts.is_none());
}

#[test]
fn parse_rotated_filename_wrong_ext() {
    let parts = parse_rotated_filename("app.2026-05-06.1.txt", "app", "log");
    assert!(parts.is_none());
}

#[test]
fn parse_rotated_filename_edges() {
    assert!(parse_rotated_filename("app.log", "app", "log").is_none());
    assert!(parse_rotated_filename("app..log", "app", "log").is_none());
    assert!(parse_rotated_filename("app.2026-05-06.log", "app", "log").is_none());
    assert!(parse_rotated_filename("app.2026-02-30.1.log", "app", "log").is_none());
    assert!(parse_rotated_filename("app.2026-05-06.4294967296.log", "app", "log").is_none());
    assert!(parse_rotated_filename("app.2026-05-06..log", "app", "log").is_none());
    let p = parse_rotated_filename("app.2026-05-06.4294967295.log", "app", "log").unwrap();
    assert_eq!(p.seq, u32::MAX);
    let p = parse_rotated_filename("app.2026-05-06.+7.log", "app", "log").unwrap();
    assert_eq!(p.seq, 7);
    let p = parse_rotated_filename("äpp.ü.2024-02-29.10.lög", "äpp.ü", "lög").unwrap();
    assert_eq!((p.date, p.seq), (date(2024, 2, 29), 10));
}

#[test]
fn format_rotated_name_basic() {
    let path = active("runtime-trace", "jsonl");
    let date = Date::from_ymd_opt(2026, 4, 20).unwrap();
    assert_eq!(
        format_rotated_name(&path, date, 1),
        "runtime-trace.2026-04-20.1.jsonl"
    );
    assert_eq!(
        format_rotated_name(&path, date, 3),
        "runtime-trace.2026-04-20.3.jsonl"
    );
}

#[test]
fn format_rotated_name_with_no_extension() {
    let path = ActiveFile {
        stem: Some("mylog".to_string()),
        extension: None,
    };
    let date = Date::from_ymd_opt(2026, 4, 20).unwrap();
    let name = format_rotated_name(&path, date, 1);
    assert_eq!(name, "mylog.2026-04-20.1.log");
}

#[test]
fn format_rotated_name_with_nothing() {
    let path = ActiveFile {
        stem: None,
        extension: None,
    };
    assert_eq!(
        format_rotated_name(&path, date(2026, 4, 20), u32::MAX),
        "log.2026-04-20.4294967295.log"
    );
}

#[test]
fn rotated_names_read_back() {
    for (year, month, day) in [
        (2026, 4, 20),
        (1, 1, 1),
        (0, 12, 31),
        (-44, 3, 15),
        (9999, 12, 31),
        (10000, 1, 1),
        (262142, 12, 31),
        (-262143, 1, 1),
    ] {
        let day = date(year, month, day);
        for seq in [0, 1, 10, 99, u32::MAX] {
            let name = format_rotated_name(&active("a.b", "log"), day, seq);
            let p = parse_rotated_filename(&name, "a.b", "log").unwrap();
            assert_eq!((p.date, p.seq), (day, seq));
        }
    }
}

#[test]
fn dates_of_the_calendar_only() {
    assert!(Date::from_ymd_opt(2024, 2, 29).is_some());
    assert!(Date::from_ymd_opt(2023, 2, 29).is_none());
    assert!(Date::from_ymd_opt(1900, 2, 29).is_none());
    assert!(Date::from_ymd_opt(2000, 2, 29).is_some());
    assert!(Date::from_ymd_opt(2024, 4, 31).is_none());
    assert!(Date::from_ymd_opt(2024, 13, 1).is_none());
    assert!(Date::from_ymd_opt(2024, 0, 1).is_none());
    assert!(Date::from_ymd_opt(2024, 1, 0).is_none());
    assert!(Date::from_ymd_opt(262143, 1, 1).is_none());
    assert_eq!(date(2026, 4, 20).to_text(), "2026-04-20");
    assert_eq!(date(-44, 3, 15).to_text(), "-0044-03-15");
    assert_eq!(Date::from_text("2026-4-5"), Some(date(2026, 4, 5)));
    assert_eq!(Date::from_text("2026-04-20 "), None);
}

#[test]
fn next_sequence_returns_one_when_no_files() {
    let path = active("app", "log");
    let date = Date::from_ymd_opt(2026, 4, 20).unwrap();
    assert_eq!(next_sequence(&names(&[]), &path, date), 1);
}

#[test]
fn next_sequence_increments_existing() {
    let date = Date::from_ymd_opt(2026, 4, 20).unwrap();
    let existing = names(&["app.2026-04-20.1.log", "app.2026-04-20.2.log"]);
    let path = active("app", "log");
    assert_eq!(next_sequence(&existing, &path, date), 3);
}

#[test]
fn next_sequence_with_gap() {
    let date = Date::from_ymd_opt(2026, 4, 20).unwrap();
    let existing = names(&["app.2026-04-20.1.log", "app.2026-04-20.5.log"]);
    let path = active("app", "log");
    assert_eq!(
        next_sequence(&existing, &path, date),
        6,
        "Should return max sequence + 1 even with gaps"
    );
}

#[test]
fn next_sequence_looks_at_its_own_day_and_file() {
    let existing = names(&[
        "app.2026-04-19.9.log",
        "app.2026-04-20.2.txt",
        "other.2026-04-20.8.log",
        "app.2026-04-20.3.log",
        "app.log",
    ]);
    let path = active("app", "log");
    assert_eq!(max_sequence(&existing, &path, date(2026, 4, 20)), 3);
    assert_eq!(next_sequence(&existing, &path, date(2026, 4, 20)), 4);
    assert_eq!(next_sequence(&existing, &path, date(2026, 4, 21)), 1);
}

#[test]
fn sequence_numbers_run_out() {
    let path = active("app", "log");
    let day = date(2026, 4, 20);
    let full = names(&["app.2026-04-20.4294967295.log"]);
    assert_eq!(checked_next_sequence(&full, &path, day), None);
    let almost = names(&["app.2026-04-20.4294967294.log"]);
    assert_eq!(checked_next_sequence(&almost, &path, day), Some(u32::MAX));
}

#[test]
fn should_rotate_by_size_returns_false_for_missing() {
    assert!(!should_rotate_by_size(None, 100));
}

#[test]
fn should_rotate_by_size_checks_threshold() {
    let len = Some("hello".len() as u64);
    assert!(!should_rotate_by_size(len, 100));
    assert!(should_rotate_by_size(len, 3));
}

#[test]
fn should_rotate_by_size_asks_for_more_than_the_limit() {
    assert!(!should_rotate_by_size(Some(3), 3));
    assert!(should_rotate_by_size(Some(4), 3));
    assert!(!should_rotate_by_size(Some(0), 0));
}

#[test]
fn check_date_rotation_returns_mtime_date_for_old_file() {
    let now = chrono::Local::now();
    let yesterday = (now - chrono::Duration::seconds(24 * 3600)).date_naive();
    let mtime = to_date(yesterday);
    let result = check_date_rotation(Some(mtime), to_date(now.date_naive()));
    assert!(result.is_some(), "Old file should trigger date rotation");
    assert_eq!(result.unwrap(), mtime);
}

#[test]
fn check_date_rotation_returns_none_for_today() {
    let now = to_date(chrono::Local::now().date_naive());
    assert!(
        check_date_rotation(Some(now), now).is_none(),
        "File modified today should not trigger date rotation"
    );
}

#[test]
fn check_date_rotation_returns_none_for_missing() {
    let now = to_date(chrono::Local::now().date_naive());
    assert!(
        check_date_rotation(None, now).is_none(),
        "Missing file should not trigger date rotation"
    );
}

fn to_date(date: chrono::NaiveDate) -> Date {
    Date::from_ymd_opt(date.year(), date.month(), date.day()).unwrap()
}

#[test]
fn rotate_file_missing_path_is_noop() {
    let date = Date::from_ymd_opt(2026, 5, 7).unwrap();
    let rotation = rotate_file(active("nonexistent_12345", "log"), date);
    assert!(matches!(rotation.next, RotateAction::CheckExists));
    let result = finish(rotation.advance(RotateEvent::Exists(false)));
    assert!(result.is_ok(), "Rotating a missing file should be Ok(())");
}

fn listed(taken: &[&str]) -> Rotation {
    let rotation = rotate_file(active("app", "log"), date(2026, 4, 20));
    let rotation = go_on(rotation.advance(RotateEvent::Exists(true)));
    assert!(matches!(rotation.next, RotateAction::List));
    go_on(rotation.advance(RotateEvent::Listed(Some(names(taken)))))
}

#[test]
fn rotation_renames_to_the_next_free_name() {
    let rotation = listed(&["app.log", "app.2026-04-20.1.log"]);
    match &rotation.next {
        RotateAction::Rename { to } => assert_eq!(to, "app.2026-04-20.2.log"),
        other => panic!("{:?}", other),
    }
    assert!(finish(rotation.advance(RotateEvent::Done)).is_ok());
}

#[test]
fn rotation_starts_at_one_where_nothing_can_be_listed() {
    let rotation = rotate_file(active("app", "log"), date(2026, 4, 20));
    let rotation = go_on(rotation.advance(RotateEvent::Exists(true)));
    let rotation = go_on(rotation.advance(RotateEvent::Listed(None)));
    match &rotation.next {
        RotateAction::Rename { to } => assert_eq!(to, "app.2026-04-20.1.log"),
        other => panic!("{:?}", other),
    }
}

#[test]
fn rotation_copies_across_devices() {
    let rotation = go_on(listed(&[]).advance(failed(Some(18), "cross-device link")));
    match &rotation.next {
        RotateAction::Copy { to } => assert_eq!(to, "app.2026-04-20.1.log"),
        other => panic!("{:?}", other),
    }
    let rotation = go_on(rotation.advance(RotateEvent::Done));
    assert!(matches!(rotation.next, RotateAction::RemoveActive { .. }));
    assert!(finish(rotation.advance(RotateEvent::Done)).is_ok());
}

#[test]
fn rotation_returns_the_failure_with_its_path() {
    match finish(listed(&[]).advance(failed(Some(13), "denied"))) {
        Err(RotationError::Io {
            at: RotationPath::Rotated(name),
            error,
        }) => {
            assert_eq!(name, "app.2026-04-20.1.log");
            assert_eq!(error, "denied");
        }
        other => panic!("{:?}", other),
    }
    match finish(listed(&[]).advance(failed(None, "no number"))) {
        Err(RotationError::Io { error, .. }) => assert_eq!(error, "no number"),
        other => panic!("{:?}", other),
    }
    let copying = go_on(listed(&[]).advance(failed(Some(18), "cross-device link")));
    match finish(copying.advance(failed(Some(28), "no space"))) {
        Err(RotationError::Io {
            at: RotationPath::Rotated(_),
            error,
        }) => assert_eq!(error, "no space"),
        other => panic!("{:?}", other),
    }
    let copying = go_on(listed(&[]).advance(failed(Some(18), "cross-device link")));
    let removing = go_on(copying.advance(RotateEvent::Done));
    match finish(removing.advance(failed(Some(1), "kept"))) {
        Err(RotationError::Io {
            at: RotationPath::Active,
            error,
        }) => assert_eq!(error, "kept"),
        other => panic!("{:?}", other),
    }
}

#[test]
fn rotation_refuses_what_it_cannot_do() {
    let rotation = rotate_file(active("app", "log"), date(2026, 4, 20));
    let rotation = go_on(rotation.advance(RotateEvent::<String>::Exists(true)));
    let full = names(&["app.2026-04-20.4294967295.log"]);
    assert!(matches!(
        finish(rotation.advance(RotateEvent::Listed(Some(full)))),
        Err(RotationError::SequenceExhausted)
    ));
    let rotation = rotate_file(active("app", "log"), date(2026, 4, 20));
    assert!(matches!(
        finish(rotation.advance(RotateEvent::Done)),
        Err(RotationError::OutOfTurn)
    ));
}

#[test]
fn parts_need_a_date_and_a_number() {
    let day = date(2026, 4, 20);
    let parts = parts_of(Some(day), Some(7)).unwrap();
    assert_eq!((parts.date, parts.seq), (day, 7));
    assert!(parts_of(None, Some(7)).is_none());
    assert!(parts_of(Some(day), None).is_none());
    assert!(parts_of(None, None).is_none());
}

#[test]
fn rotations_of_a_day_are_numbered() {
    let mut existing = names(&["app.log", "app.2026-04-19.4.log"]);
    for number in 1..=12 {
        let rotation = rotate_file(active("app", "log"), date(2026, 4, 20));
        let rotation = go_on(rotation.advance(RotateEvent::Exists(true)));
        let rotation = go_on(rotation.advance(RotateEvent::Listed(Some(existing.clone()))));
        let to = match &rotation.next {
            RotateAction::Rename { to } => to.clone(),
            other => panic!("{:?}", other),
        };
        assert_eq!(to, format!("app.2026-04-20.{}.log", number));
        assert!(finish(rotation.advance(RotateEvent::Done)).is_ok());
        existing.push(to);
    }
}
