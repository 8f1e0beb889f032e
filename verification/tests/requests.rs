use videosrv::error::ErrorCode;
use videosrv::request::{check_range, parse_date_range, requested_range, two_dates};
use videosrv::time::Timestamp;

fn at(secs: i64) -> Timestamp {
    Timestamp { secs, nanos: 0 }
}

#[test]
fn a_range_as_in_the_documentation() {
    assert_eq!(
        parse_date_range("221219T000000-221220T000000"),
        Ok((at(1_671_408_000), at(1_671_494_400)))
    );
    assert_eq!(
        requested_range("221219T000000-221220T000000"),
        Ok((at(1_671_408_000), at(1_671_494_400)))
    );
}

#[test]
fn parts_that_are_no_times_are_passed_over() {
    assert_eq!(
        parse_date_range("x-221219T000000--221220T000000-y"),
        Ok((at(1_671_408_000), at(1_671_494_400)))
    );
}

#[test]
fn ranges_that_cannot_be_read() {
    for range in ["", "221219T000000", "221219T000000-x", "221319T000000-221220T000000",
        "221219T000000-221220T000000-221221T000000"]
    {
        let msg = format!("Unable to parse time range from {range}");
        assert_eq!(parse_date_range(range), Err(msg.clone()));
        assert_eq!(
            requested_range(range),
            Err(ErrorCode::InternalError(format!("Internal error {msg}")))
        );
    }
}

#[test]
fn a_range_has_to_end_after_it_begins() {
    let reversed = ErrorCode::InternalError(
        "Invalid time range, begin date should be prior to end".to_string(),
    );
    assert_eq!(requested_range("221220T000000-221219T000000"), Err(reversed.clone()));
    assert_eq!(requested_range("221219T000000-221219T000000"), Err(reversed.clone()));
    assert_eq!(check_range(Ok((at(1), at(1)))), Err(reversed));
    assert_eq!(check_range(Ok((at(1), at(2)))), Ok((at(1), at(2))));
    assert_eq!(
        check_range(Err("no".to_string())),
        Err(ErrorCode::InternalError("Internal error no".to_string()))
    );
}

#[test]
fn exactly_two_times() {
    assert_eq!(two_dates(&vec![]), None);
    assert_eq!(two_dates(&vec![Some(at(1)), None]), None);
    assert_eq!(two_dates(&vec![None, Some(at(2)), None, Some(at(1))]), Some((at(2), at(1))));
    assert_eq!(two_dates(&vec![Some(at(1)), Some(at(2)), Some(at(3))]), None);
}

#[test]
fn leap_seconds_and_centuries() {
    assert_eq!(
        parse_date_range("161231T235960-700101T000000"),
        Ok((Timestamp { secs: 1_483_228_799, nanos: 1_000_000_000 }, at(0)))
    );
    assert_eq!(
        parse_date_range("691231T235959-700101T000000"),
        Ok((at(3_155_759_999), at(0)))
    );
}

#[test]
fn error_messages() {
    assert_eq!(ErrorCode::Success.to_text(), "Ok");
    assert_eq!(
        ErrorCode::InternalError("x".to_string()).to_text(),
        "Internal error. Reason: x"
    );
    assert_eq!(
        ErrorCode::from_error("x"),
        ErrorCode::InternalError("Internal error x".to_string())
    );
    assert_eq!(
        ErrorCode::from_blocking_error("x"),
        ErrorCode::InternalError("Blocking read error x".to_string())
    );
    assert_eq!(
        ErrorCode::from_io_error("x"),
        ErrorCode::InternalError("IO error x".to_string())
    );
}
