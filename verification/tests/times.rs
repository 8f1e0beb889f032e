use chrono::{DateTime, TimeDelta, Utc};
use videosrv::cache::{read_timestamp, timestamp_note, unpack};
use videosrv::recordings::{recording_dir, recording_name, Recording};
use videosrv::stretches::recordings_list;
use videosrv::time::{elapsed_at_least, Timestamp, MAX_SECS, MIN_SECS};

fn at(secs: i64, nanos: u32) -> Timestamp {
    Timestamp { secs, nanos }
}

fn outside(t: Timestamp) -> DateTime<Utc> {
    DateTime::<Utc>::from_timestamp(t.secs, t.nanos).unwrap()
}

fn samples() -> Vec<Timestamp> {
    vec![
        at(0, 0),
        at(-1, 0),
        at(1_671_408_000, 0),
        at(1_671_411_661, 123_456_789),
        at(1_671_411_661, 120_000_000),
        at(1_671_411_661, 123_400_000),
        at(1_483_228_799, 1_000_000_000),
        at(1_483_228_799, 1_999_999_999),
        at(951_782_400, 5),
        at(3_155_759_999, 999_999_999),
        at(3_155_760_000, 0),
        at(-62_167_219_200, 0),
        at(-62_167_219_201, 0),
        at(253_402_300_799, 0),
        at(253_402_300_800, 1),
        at(MIN_SECS, 0),
        at(MAX_SECS, 999_999_999),
        at(MAX_SECS, 1_999_999_999),
    ]
}

#[test]
fn bounds_are_those_of_chrono() {
    assert_eq!(DateTime::<Utc>::MIN_UTC.timestamp(), MIN_SECS);
    assert_eq!(DateTime::<Utc>::MAX_UTC.timestamp(), MAX_SECS);
    assert!(DateTime::<Utc>::from_timestamp(MIN_SECS - 1, 0).is_none());
    assert!(DateTime::<Utc>::from_timestamp(MAX_SECS + 1, 0).is_none());
}

#[test]
fn validity_is_that_of_chrono() {
    for secs in [MIN_SECS - 1, MIN_SECS, -60, -59, -1, 0, 58, 59, 60, MAX_SECS, MAX_SECS + 1] {
        for nanos in [0, 999_999_999, 1_000_000_000, 1_999_999_999, 2_000_000_000] {
            assert_eq!(
                at(secs, nanos).is_valid(),
                DateTime::<Utc>::from_timestamp(secs, nanos).is_some(),
                "{secs} {nanos}"
            );
        }
    }
}

#[test]
fn order_is_that_of_chrono() {
    for a in samples() {
        for b in samples() {
            assert_eq!(a.not_after(&b), outside(a) <= outside(b));
            assert_eq!(a.is_before(&b), outside(a) < outside(b));
            assert_eq!(outside(a.max_of(&b)), outside(a).max(outside(b)));
            assert_eq!(outside(a.min_of(&b)), outside(a).min(outside(b)));
            assert_eq!(a.chronological(&b), outside(a).cmp(&outside(b)));
        }
    }
}

#[test]
fn elapsed_time() {
    let shifts = [-86_400_001i64, -1, 0, 1, 999, 1000, 30_000, 60_000];
    for now in samples() {
        for then in samples() {
            let span = outside(now) - outside(then);
            for ms in shifts {
                assert_eq!(
                    elapsed_at_least(&now, &then, ms),
                    span >= TimeDelta::milliseconds(ms),
                    "{now:?} {then:?} {ms}"
                );
            }
        }
    }
    assert!(elapsed_at_least(&at(60, 0), &at(0, 0), 60_000));
    assert!(!elapsed_at_least(&at(59, 999_999_999), &at(0, 0), 60_000));
}

#[test]
fn a_leap_second_counts_once_it_is_over() {
    let leap = at(1_483_228_799, 1_500_000_000);
    let after = at(1_483_228_800, 0);
    let before = at(1_483_228_798, 0);
    assert!(elapsed_at_least(&leap, &before, 2500));
    assert!(!elapsed_at_least(&leap, &before, 2501));
    assert!(elapsed_at_least(&after, &leap, -500));
    assert!(!elapsed_at_least(&after, &leap, -499));
}

#[test]
fn ends_of_recordings() {
    let shifts = [
        0,
        1,
        -1,
        499,
        500,
        501,
        999,
        1000,
        -1000,
        -1001,
        5000,
        86_400_000,
        -86_400_000,
        i64::MAX,
        i64::MIN,
    ];
    for t in samples() {
        for ms in shifts {
            let list = recordings_list(&vec![Recording {
                path: String::new(),
                timestamp: t,
                duration: ms,
            }]);
            let want = TimeDelta::try_milliseconds(ms)
                .and_then(|d| outside(t).checked_add_signed(d))
                .map(|e| at(e.timestamp(), e.timestamp_subsec_nanos()));
            assert_eq!(list.map(|l| l[0].timestamp_max), want, "{t:?} {ms}");
        }
    }
}

#[test]
fn a_leap_second_is_left_by_time_that_is_added() {
    let end = |nanos, duration| {
        recordings_list(&vec![Recording {
            path: String::new(),
            timestamp: at(1_483_228_799, nanos),
            duration,
        }])
        .unwrap()[0]
            .timestamp_max
    };
    assert_eq!(end(1_500_000_000, 499), at(1_483_228_799, 1_999_000_000));
    assert_eq!(end(1_500_000_000, 500), at(1_483_228_800, 0));
    assert_eq!(end(1_500_000_000, -500), at(1_483_228_799, 1_000_000_000));
    assert_eq!(end(1_500_000_000, -501), at(1_483_228_799, 999_000_000));
    assert_eq!(end(1_500_000_000, -1000), at(1_483_228_799, 500_000_000));
}

#[test]
fn names_of_recordings() {
    assert_eq!(
        recording_name(&at(1_671_411_661, 123_999_999), 5000),
        "221219T010101.123_5000.mp4"
    );
    assert_eq!(
        recording_name(&at(1_483_228_799, 1_004_000_000), -1),
        "161231T235960.004_-1.mp4"
    );
    assert_eq!(recording_name(&at(-1, 0), 0), "691231T235959.000_0.mp4");
    assert_eq!(recording_name(&at(-62_167_219_201, 0), 0), "991231T235959.000_0.mp4");
    assert_eq!(recording_name(&at(MIN_SECS, 999_999), 0), "570101T000000.000_0.mp4");
}

#[test]
fn directories_of_recordings() {
    let dir = |t| recording_dir("/video", "cam0", "240p", &t);
    assert_eq!(dir(at(1_671_411_661, 0)), "/video/cam0/240p/2022/12/19/01");
    assert_eq!(dir(at(951_782_400, 0)), "/video/cam0/240p/2000/02/29/00");
    assert_eq!(dir(at(-62_167_219_201, 0)), "/video/cam0/240p/-1/12/31/23");
    assert_eq!(dir(at(MAX_SECS, 0)), "/video/cam0/240p/262142/12/31/23");
    assert_eq!(dir(at(MIN_SECS, 0)), "/video/cam0/240p/-262143/01/01/00");
}

#[test]
fn cache_keys() {
    assert_eq!(
        unpack("cam0", "240p", &at(1_671_408_000, 0), &at(1_671_494_400, 5_000_000)),
        "cam0:240p:221219T000000.000:221220T000000.005"
    );
}

#[test]
fn cache_keys_tell_ranges_apart() {
    let a = at(1_671_408_000, 0);
    let b = at(1_671_408_000, 1_000_000);
    assert_ne!(unpack("c", "r", &a, &b), unpack("c", "r", &b, &a));
    assert_ne!(unpack("c", "r", &a, &a), unpack("c", "r", &a, &b));
    assert_ne!(unpack("c", "r", &a, &b), unpack("d", "r", &a, &b));
    assert_ne!(unpack("c", "r", &a, &b), unpack("c", "q", &a, &b));
    assert_eq!(unpack("c", "r", &a, &b), unpack("c", "r", &a, &at(1_671_408_000, 1_999_999)));
}

#[test]
fn times_of_a_hundred_years_are_told_apart() {
    let starts_of_years = [
        946_684_800i64, // 2000
        3_124_224_000,  // 2069
        3_155_760_000,  // 2070
        4_070_908_800,  // 2099
    ];
    for a in starts_of_years {
        for b in starts_of_years {
            let same = unpack("c", "r", &at(a, 0), &at(0, 0)) == unpack("c", "r", &at(b, 0), &at(0, 0));
            assert_eq!(same, a == b);
        }
    }
    assert_eq!(recording_name(&at(0, 0), 0), recording_name(&at(3_155_760_000, 0), 0));
}

#[test]
fn notes() {
    assert_eq!(timestamp_note(&at(1_671_411_661, 0)), "2022-12-19T01:01:01+00:00");
    assert_eq!(
        timestamp_note(&at(1_671_411_661, 120_000_000)),
        "2022-12-19T01:01:01.120+00:00"
    );
    assert_eq!(
        timestamp_note(&at(1_671_411_661, 123_400_000)),
        "2022-12-19T01:01:01.123400+00:00"
    );
    assert_eq!(
        timestamp_note(&at(1_483_228_799, 1_000_000_001)),
        "2016-12-31T23:59:60.000000001+00:00"
    );
    assert_eq!(timestamp_note(&at(-62_167_219_201, 0)), "-0001-12-31T23:59:59+00:00");
    assert_eq!(timestamp_note(&at(253_402_300_800, 0)), "+10000-01-01T00:00:00+00:00");
}

#[test]
fn notes_are_read_back() {
    for t in samples() {
        assert_eq!(read_timestamp(&timestamp_note(&t).into_bytes()), Some(t), "{t:?}");
    }
}

#[test]
fn foreign_notes() {
    assert_eq!(
        read_timestamp(&b"2022-12-19T03:01:01+02:00".to_vec()),
        Some(at(1_671_411_661, 0))
    );
    assert_eq!(read_timestamp(&b"2022-12-19 01:01:01Z".to_vec()), Some(at(1_671_411_661, 0)));
    assert_eq!(read_timestamp(&b"".to_vec()), None);
    assert_eq!(read_timestamp(&b"yesterday".to_vec()), None);
    assert_eq!(read_timestamp(&vec![0xff, 0xfe]), None);
    assert_eq!(read_timestamp(&b"2022-12-19T01:01:01\xff".to_vec()), None);
}

#[test]
fn hours() {
    assert_eq!(at(0, 0).hour(), 0);
    assert_eq!(at(-1, 0).hour(), 23);
    assert_eq!(at(1_671_411_661, 0).hour(), 1);
}
