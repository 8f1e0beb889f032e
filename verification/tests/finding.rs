use videosrv::pipeline::segment_location;
use videosrv::playlist::{
    create_playlist, entry_name_text, seconds_text, HlsPlaylist, HlsPlaylistItem, EXACT_MS,
};
use videosrv::recordings::{
    find_recordings, parse_relpath, recording_from, recordings_among, recordings_within,
    relpath_from, relpath_parts, storage_root, FoundFile, Recording,
};
use videosrv::segment::{create_ts, parse_segment};
use videosrv::stretches::{handle_request_recordings_list, recordings_list, RecordingListItem};
use videosrv::time::Timestamp;

const START: i64 = 1_671_408_000;

fn at(secs: i64) -> Timestamp {
    Timestamp { secs, nanos: 0 }
}

fn recording(path: &str, secs: i64, duration: i64) -> Recording {
    Recording { path: path.to_string(), timestamp: at(secs), duration }
}

fn stretch(from: i64, to: i64) -> RecordingListItem {
    RecordingListItem { timestamp_min: at(from), timestamp_max: at(to) }
}

fn file(path: &str) -> FoundFile {
    FoundFile { path: path.to_string(), is_file: true }
}

#[test]
fn paths_of_recordings_are_read() {
    let r = parse_relpath("cam0/240p/2022/12/19/00/221219T000005.250_5000.mp4").unwrap();
    assert_eq!(r.camera, "cam0");
    assert_eq!(r.resolution, "240p");
    assert_eq!(r.timestamp, Timestamp { secs: START + 5, nanos: 250_000_000 });
    assert_eq!(r.duration, 5000);
}

#[test]
fn other_paths_are_not_read() {
    for p in [
        "",
        "cam0/240p/2022/12/19/221219T000005.250_5000.mp4",
        "cam0/240p/2022/12/19/00/221219T000005.250.mp4",
        "cam0/240p/2022/12/19/00/221219T000005.250_x.mp4",
        "cam0/240p/2022/12/19/00/221219000005.250_5000.mp4",
        "cam0/240p/2022/12/19/00/221319T000005.250_5000.mp4",
        "cam0/240p/2022/12/19/00/221219T000005.2_5000.mp4",
    ] {
        assert!(parse_relpath(p).is_none(), "{p}");
    }
}

#[test]
fn what_follows_the_length_does_not_count() {
    let r = parse_relpath("c/r/a/b/c/d/221219T000005_-7.x.y_z/more").unwrap();
    assert_eq!(r.timestamp, at(START + 5));
    assert_eq!(r.duration, -7);
}

#[test]
fn parts_of_paths() {
    let parts = relpath_parts("c/r/a/b/c/d/stamp_12.mp4").unwrap();
    assert_eq!(parts.stamp, "stamp");
    assert_eq!(parts.duration, Some(12));
    assert!(relpath_from(parts.clone(), None).is_none());
    let r = relpath_from(parts, Some(at(3))).unwrap();
    assert_eq!((r.timestamp, r.duration), (at(3), 12));
    assert!(relpath_parts("c/r/a/b/c/stamp_12.mp4").is_none());
}

#[test]
fn only_files_with_the_right_extension_count() {
    let p = "/v/c/r/2022/12/19/00/221219T000005.250_5000.mp4";
    assert!(recording_from("/v", &file(p)).is_some());
    assert!(recording_from("/w", &file(p)).is_none());
    assert!(recording_from("/v", &FoundFile { path: p.to_string(), is_file: false }).is_none());
    let q = "/v/c/r/2022/12/19/00/221219T000005.250_5000.ts";
    assert!(recording_from("/v", &file(q)).is_none());
}

#[test]
fn a_recorded_segment_is_found_again() {
    let now = Timestamp { secs: START + 3661, nanos: 123_456_789 };
    for root in ["/video", "/video/", "video", ""] {
        let place = segment_location(root, "cam0", "240p", &now, 5);
        let dir = videosrv::path::join(root, "cam0/240p/2022/12/19/01");
        assert_eq!(place.dir, dir);
        assert_eq!(place.path, format!("{dir}/221219T010101.123_5000.mp4"));
        let found =
            find_recordings(root, &vec![file(&place.path)], at(START), at(START + 86_400));
        assert_eq!(found.len(), 1);
        assert_eq!(found[0].path, place.path);
        assert_eq!(found[0].timestamp, Timestamp { secs: START + 3661, nanos: 123_000_000 });
        assert_eq!(found[0].duration, 5000);
    }
}

#[test]
fn storage_of_a_camera() {
    assert_eq!(storage_root("/video", "cam0", "240p"), "/video/cam0/240p");
}

#[test]
fn recordings_come_in_the_order_of_their_starts() {
    let list = vec![
        recording("a", 30, 1),
        recording("b", 10, 1),
        recording("c", 20, 1),
        recording("d", 10, 2),
        recording("e", 41, 1),
        recording("f", 9, 1),
        recording("g", 40, 1),
    ];
    let found = recordings_within(list, at(10), at(40));
    let order: Vec<&str> = found.iter().map(|r| r.path.as_str()).collect();
    assert_eq!(order, ["b", "d", "c", "a", "g"]);
}

#[test]
fn a_range_can_be_split() {
    let leap = Timestamp { secs: 59, nanos: 1_500_000_000 };
    let mut list = vec![
        recording("a", 30, 1),
        recording("b", 10, 1),
        recording("c", 20, 1),
        recording("d", 10, 2),
        recording("e", 60, 1),
    ];
    let paths = |list: &Vec<Recording>, min, max| -> Vec<String> {
        recordings_within(list.clone(), min, max).into_iter().map(|r| r.path).collect()
    };
    let whole = paths(&list, at(10), at(60));
    assert_eq!(whole, ["b", "d", "c", "a", "e"]);
    for mid in [10, 15, 20, 30, 59] {
        let next = Timestamp { secs: mid, nanos: 1 };
        let mut both = paths(&list, at(10), at(mid));
        both.extend(paths(&list, next, at(60)));
        assert_eq!(both, whole, "{mid}");
    }
    list.push(Recording { path: "leap".to_string(), timestamp: leap, duration: 1 });
    let last = Timestamp { secs: 59, nanos: 999_999_999 };
    assert_eq!(paths(&list, at(10), last).len() + paths(&list, at(60), at(60)).len(), 5);
    assert_eq!(paths(&list, at(10), at(60)).len(), 6);
}

#[test]
fn a_stretch_spans_no_gap() {
    let list = vec![
        recording("a", 100, 60_000),
        recording("b", 110, 5000),
        recording("c", 164, 5000),
        recording("d", 174, 5000),
    ];
    assert_eq!(recordings_list(&list), Some(vec![stretch(100, 169), stretch(174, 179)]));
}

#[test]
fn files_are_listed_in_their_order() {
    let files = vec![
        file("/v/c/r/2022/12/19/00/221219T000010.000_5000.mp4"),
        file("/v/c/r/2022/12/19/00/notes.txt"),
        file("/v/c/r/2022/12/19/00/221219T000005.000_4000.mp4"),
    ];
    let all = recordings_among("/v", &files);
    assert_eq!(all.len(), 2);
    assert_eq!(all[0].timestamp, at(START + 10));
    assert_eq!(all[1].timestamp, at(START + 5));
}

#[test]
fn recordings_close_to_each_other_make_one_stretch() {
    let list = vec![
        recording("a", 100, 5000),
        recording("b", 105, 5000),
        recording("c", 114, 5000),
        recording("d", 200, 5000),
    ];
    assert_eq!(recordings_list(&list), Some(vec![stretch(100, 119), stretch(200, 205)]));
}

#[test]
fn the_jitter_is_not_included() {
    let list = vec![recording("a", 100, 5000), recording("b", 110, 5000)];
    assert_eq!(recordings_list(&list), Some(vec![stretch(100, 105), stretch(110, 115)]));
}

#[test]
fn a_short_recording_within_a_long_one_changes_nothing() {
    let list = vec![recording("a", 100, 60_000), recording("b", 110, 5000)];
    assert_eq!(recordings_list(&list), Some(vec![stretch(100, 160)]));
}

#[test]
fn a_recording_without_length_stands_alone() {
    let list = vec![recording("a", 100, 60_000), recording("b", 110, 0)];
    assert_eq!(recordings_list(&list), Some(vec![stretch(100, 160), stretch(110, 110)]));
}

#[test]
fn no_stretches_without_recordings_or_out_of_range() {
    assert_eq!(recordings_list(&vec![]), Some(vec![]));
    assert_eq!(recordings_list(&vec![recording("a", 0, i64::MAX)]), None);
    let last = videosrv::time::MAX_SECS;
    assert!(recordings_list(&vec![recording("a", last - 1, 1000)]).is_some());
    assert_eq!(
        recordings_list(&vec![recording("a", last - 1, 1000), recording("b", last, 0)]),
        None
    );
}

#[test]
fn stretches_of_found_files() {
    let files = vec![
        file("/v/c/r/2022/12/19/00/221219T000010.000_5000.mp4"),
        file("/v/c/r/2022/12/19/00/221219T000005.000_5000.mp4"),
        file("/v/c/r/2022/12/19/00/221219T000100.000_5000.mp4"),
        file("/v/c/r/2022/12/20/00/221220T000100.000_5000.mp4"),
    ];
    assert_eq!(
        handle_request_recordings_list("/v", &files, at(START), at(START + 3600)),
        Some(vec![stretch(START + 5, START + 15), stretch(START + 60, START + 65)])
    );
}

#[test]
fn lengths_in_seconds() {
    for ms in [0, 1, -1, 999, 1000, 5000, 5033, -5033, 123_456_789, 10_000_000_000_001,
        549_755_813_887_999, -549_755_813_887_999, EXACT_MS, -EXACT_MS]
    {
        assert_eq!(seconds_text(ms), format!("{:.4}", ms as f64 / 1000.0), "{ms}");
    }
    assert_eq!(seconds_text(5033), "5.0330");
}

#[test]
fn the_text_of_a_playlist() {
    let list = HlsPlaylist::from_recordings(&vec![
        recording("/v/c/r/221219T000005.000_5000.mp4", START + 5, 5000),
        recording("/v/c/r/221219T000010.000_4250.mp4", START + 10, 4250),
        recording("/v/c/r/221219T000014.250_1.mp4", START + 14, 1),
    ]);
    assert!(list.check_starts());
    assert!(list.check_lengths());
    let want = "#EXTM3U\n#EXT-X-VERSION:3\n#EXT-X-MEDIA-SEQUENCE:0\n\
        #EXTINF:5.0000\n221219T000005.000_5000_0.ts\n\
        #EXTINF:4.2500\n221219T000010.000_4250_5000.ts\n\
        #EXTINF:0.0010\n221219T000014.250_1_9250.ts\n\
        #EXT-X-ENDLIST";
    assert_eq!(list.write(), want);
    let lengths = vec!["5.0000".to_string(), "4.2500".to_string(), "0.0010".to_string()];
    assert_eq!(list.write_with(&lengths), want);
}

#[test]
fn an_empty_playlist() {
    let list = create_playlist("/v", &vec![], at(0), at(1));
    assert_eq!(
        list.write(),
        "#EXTM3U\n#EXT-X-VERSION:3\n#EXT-X-MEDIA-SEQUENCE:0\n#EXT-X-ENDLIST"
    );
}

#[test]
fn limits_of_playlists() {
    let item = |duration| HlsPlaylistItem { relpath: String::new(), timestamp: at(0), duration };
    let long = HlsPlaylist { files: vec![item(i64::MAX), item(1)] };
    assert!(!long.check_starts());
    assert!(!long.check_lengths());
    let fits = HlsPlaylist { files: vec![item(i64::MAX), item(-1)] };
    assert!(fits.check_starts());
}

#[test]
fn the_entry_of_a_recording_leads_back_to_it() {
    let now = Timestamp { secs: START + 3661, nanos: 123_456_789 };
    let place = segment_location("/video", "cam0", "240p", &now, 5);
    let list = create_playlist("/video", &vec![file(&place.path)], at(START), at(START + 86_400));
    let entry = entry_name_text(&list.files[0].relpath, 20_000);
    assert_eq!(entry, "221219T010101.123_5000_20000.ts");
    let plan = create_ts("/video", "cam0", "240p", &entry, "/cache/key/x.ts").unwrap();
    assert_eq!(plan.source_path, place.path);
    assert_eq!(plan.mp4_path, "/cache/key/221219T010101.123_5000.mp4");
    assert_eq!(plan.start_ms, 20_000);
}

#[test]
fn a_recorded_segment_is_listed() {
    let now = Timestamp { secs: START + 3661, nanos: 123_456_789 };
    let place = segment_location("/video", "cam0", "240p", &now, 5);
    let files = vec![file(&place.path)];
    let start = Timestamp { secs: START + 3661, nanos: 123_000_000 };
    let end = Timestamp { secs: START + 3666, nanos: 123_000_000 };
    assert_eq!(
        handle_request_recordings_list("/video", &files, start, start),
        Some(vec![RecordingListItem { timestamp_min: start, timestamp_max: end }])
    );
    let list = create_playlist("/video", &files, start, start);
    assert_eq!(list.files.len(), 1);
    assert_eq!(list.files[0].relpath, "221219T010101.123_5000.mp4");
    assert_eq!(list.files[0].timestamp, start);
    assert_eq!(list.files[0].duration, 5000);
    assert!(create_playlist("/video", &files, at(START), at(START + 3661)).files.is_empty());
}

#[test]
fn names_of_segments() {
    let s = parse_segment("221219T010101.123_5000_-3.more.ts").unwrap();
    assert_eq!(s.stem, "221219T010101.123");
    assert_eq!((s.duration, s.start_ms), (5000, -3));
    for name in ["", "221219T010101.123_5000.ts", "221219T010101.123_x_1.ts", "x_1_2.ts",
        "221219T010101.123_5000_x.ts"]
    {
        assert_eq!(
            parse_segment(name).err(),
            Some(format!("Unable to parse file name {name}"))
        );
    }
}
