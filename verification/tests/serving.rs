use videosrv::cache::{
    bare_name, file_kind, startup_of, timestamp_file, unknown_file, FileKind, FoundEntry, Startup,
    VideoCache, VideoCacheItem, VideoCacheParams, VideoCacheReq,
};
use videosrv::model::{
    ClockParams, Config, SourceConfig, StorageConfig, StreamCompressionParams, StreamProfile,
};
use videosrv::name_map::{comes_before, NameMap};
use videosrv::pipeline::{known_source, pipeline_text, recorder, sink};
use videosrv::segment::{clock, mp4_to_ts_args, start_mode, video_file_is_good_args, StartMode};
use videosrv::time::Timestamp;
use videosrv::watchdog::{FrameEvent, Watchdog, WatchdogAction};

fn at(secs: i64) -> Timestamp {
    Timestamp { secs, nanos: 0 }
}

fn cache() -> VideoCache {
    VideoCache::empty(VideoCacheParams {
        video_root: "/video".to_string(),
        cache_root: "/cache".to_string(),
        keep_alive: 60_000,
    })
}

fn request(file_name: &str) -> VideoCacheReq {
    VideoCacheReq {
        timestamp_min: at(1_671_408_000),
        timestamp_max: at(1_671_494_400),
        file_name: file_name.to_string(),
        container: "cam0".to_string(),
        resolution: "240p".to_string(),
    }
}

const DIR: &str = "/cache/cam0:240p:221219T000000.000:221220T000000.000";

#[test]
fn a_request_that_is_not_cached() {
    let mut c = cache();
    let plan = c.handle_request(&request("some/playlist.m3u8"), at(10));
    assert_eq!(plan.cache_dir, DIR);
    assert_eq!(plan.item_path, format!("{DIR}/playlist.m3u8"));
    assert!(!plan.cached);
    assert!(c.entries.is_empty());
}

#[test]
fn a_created_file_is_found_when_it_is_asked_for_again() {
    let mut c = cache();
    let plan = c.handle_request(&request("playlist.m3u8"), at(10));
    assert!(!plan.cached);
    c.created(&plan.item_path, at(11));
    assert_eq!(c.entries.len(), 1);
    assert_eq!(c.entries[0].key, plan.item_path);
    assert_eq!(c.entries[0].item.path, plan.item_path);
    assert_eq!(c.entries[0].item.timestamp, at(11));
    let again = c.handle_request(&request("playlist.m3u8"), at(12));
    assert!(again.cached);
    assert_eq!(again.item_path, plan.item_path);
    assert_eq!(c.entries[0].item.timestamp, at(12));
}

#[test]
fn a_created_file_stays_while_others_are_made() {
    let mut c = cache();
    let plan = c.handle_request(&request("a_1_2.ts"), at(10));
    c.created(&plan.item_path, at(10));
    for name in ["playlist.m3u8", "b_1_2.ts"] {
        let other = c.handle_request(&request(name), at(11));
        assert!(!other.cached);
        c.created(&other.item_path, at(11));
    }
    assert_eq!(c.entries.len(), 3);
    let again = c.handle_request(&request("a_1_2.ts"), at(12));
    assert!(again.cached);
    assert_eq!(again.item_path, plan.item_path);
}

#[test]
fn playlists_of_different_ranges_are_kept_apart() {
    let mut c = cache();
    let one = request("playlist.m3u8");
    let two = VideoCacheReq { timestamp_max: at(1_671_494_401), ..request("playlist.m3u8") };
    let first = c.handle_request(&one, at(10));
    c.created(&first.item_path, at(10));
    let second = c.handle_request(&two, at(10));
    assert!(!second.cached);
    assert_ne!(first.item_path, second.item_path);
    c.created(&second.item_path, at(20));
    assert_eq!(c.entries.len(), 2);
    let gone = c.expired(&at(80));
    assert_eq!(gone.len(), 2);
    assert_eq!(gone[0].item.path, first.item_path);
    assert_eq!(gone[1].item.path, second.item_path);
    c.forget(&gone);
    assert!(!c.handle_request(&one, at(80)).cached);
}

#[test]
fn a_cached_file_is_used_again() {
    let mut c = cache();
    let path = format!("{DIR}//playlist.m3u8");
    c.insert(path.clone(), VideoCacheItem { path, timestamp: at(0) });
    let plan = c.handle_request(&request("playlist.m3u8"), at(50));
    assert!(plan.cached);
    assert_eq!(c.entries[0].item.timestamp, at(50));
    assert_eq!(c.entries[0].item.path, format!("{DIR}//playlist.m3u8"));
    assert!(c.expired(&at(109)).is_empty());
    assert_eq!(c.expired(&at(110)).len(), 1);
}

#[test]
fn inserting_replaces_what_has_the_same_path() {
    let mut c = cache();
    for (key, secs) in [("/a/b", 1), ("/a//b/", 2), ("a/b", 3)] {
        c.insert(
            key.to_string(),
            VideoCacheItem { path: key.to_string(), timestamp: at(secs) },
        );
    }
    assert_eq!(c.entries.len(), 2);
    assert_eq!(c.entries[0].item.timestamp, at(2));
    assert_eq!(c.entries[1].item.timestamp, at(3));
}

#[test]
fn cleaning_up_drops_what_is_old_and_keeps_the_rest() {
    let mut c = cache();
    for (key, secs) in [("a", 0), ("b", 100), ("c", 40), ("d", 41)] {
        c.insert(
            key.to_string(),
            VideoCacheItem { path: format!("/cache/{key}"), timestamp: at(secs) },
        );
    }
    let gone = c.expired(&at(100));
    let keys: Vec<&str> = gone.iter().map(|e| e.key.as_str()).collect();
    assert_eq!(keys, ["a", "c"]);
    c.forget(&gone);
    let keys: Vec<&str> = c.entries.iter().map(|e| e.key.as_str()).collect();
    assert_eq!(keys, ["b", "d"]);
}

#[test]
fn opening_the_cache() {
    let entry = |path: &str, is_dir, timestamp| FoundEntry {
        path: path.to_string(),
        is_dir,
        timestamp,
    };
    let found = vec![
        entry("/cache/recent", true, Some(at(41))),
        entry("/cache/old", true, Some(at(40))),
        entry("/cache/foreign", true, None),
        entry("/cache/file", false, Some(at(99))),
        entry("/cache/ancient", true, Some(at(0))),
    ];
    let mut c = cache();
    let remove = c.initialize_cache(&found, &at(100));
    assert_eq!(remove, ["/cache/old", "/cache/ancient"]);
    assert_eq!(c.entries.len(), 1);
    assert_eq!(c.entries[0].key, "/cache/recent");
    assert_eq!(c.entries[0].item.timestamp, at(41));
    assert!(matches!(startup_of(&found[0], &at(100), 60_000), Startup::Keep));
    assert!(matches!(startup_of(&found[1], &at(100), 60_000), Startup::Remove));
    assert!(matches!(startup_of(&found[2], &at(100), 60_000), Startup::Ignore));
    assert!(matches!(startup_of(&found[3], &at(100), 60_000), Startup::Ignore));
}

#[test]
fn kinds_of_files() {
    assert_eq!(file_kind("/c/playlist.m3u8"), FileKind::Playlist);
    assert_eq!(file_kind("/c/a_1_2.ts"), FileKind::Segment);
    assert_eq!(file_kind("/c/.ts"), FileKind::Segment);
    assert_eq!(file_kind("/c/xplaylist.m3u8"), FileKind::Unknown);
    assert_eq!(unknown_file("/c/x.avi"), "Unable to create /c/x.avi file");
    assert_eq!(timestamp_file("/c"), "/c/timestamp");
    assert_eq!(bare_name("a/b/c"), "c");
    assert_eq!(bare_name("c"), "c");
    assert_eq!(bare_name("a/"), "");
}

#[test]
fn calls_of_the_encoder() {
    assert_eq!(start_mode(10_000), StartMode::Delay);
    assert_eq!(start_mode(10_001), StartMode::Offset);
    assert_eq!(
        mp4_to_ts_args("in.mp4", "out.ts", 0, StartMode::Offset, "8.6"),
        ["-hide_banner", "-loglevel", "info", "-i", "in.mp4", "-ss", "00:00:00", "-y", "-codec",
            "copy", "-output_ts_offset", "8.6", "out.ts"]
    );
    assert_eq!(
        mp4_to_ts_args("in.mp4", "out.ts", 3_723_999, StartMode::Delay, "2.5"),
        ["-hide_banner", "-loglevel", "info", "-i", "in.mp4", "-ss", "01:02:03", "-y", "-codec",
            "copy", "-muxdelay", "2.5", "-muxpreload", "2.5", "out.ts"]
    );
    assert_eq!(
        video_file_is_good_args("a.mp4"),
        ["-i", "a.mp4", "-c", "copy", "-f", "null", "/dev/null"]
    );
}

#[test]
fn clocks() {
    for ms in [0, 999, 1000, 59_999, 60_000, 3_600_000, -1, -1000, -3_723_999, 360_000_000,
        i64::MAX]
    {
        let d = chrono::TimeDelta::milliseconds(ms);
        let want = format!(
            "{:02}:{:02}:{:02}",
            d.num_hours(),
            d.num_minutes() % 60,
            d.num_seconds() % 60
        );
        assert_eq!(clock(ms), want, "{ms}");
    }
    assert_eq!(clock(-3_723_000), "-1:-2:-3");
}

#[test]
fn defaults() {
    let p = StreamCompressionParams::default();
    assert_eq!((p.width, p.height, p.bitrate, p.keyint), (1920, 1080, 8192, 30));
    assert_eq!((p.preset.as_str(), p.tune.as_str()), ("ultrafast", "zerolatency"));
    assert_eq!((p.segment_seconds, p.record), (5, true));
    let s = StreamProfile::default();
    assert_eq!((s.framerate.as_str(), s.width, s.height), ("30/1", 1920, 1080));
    assert!(s.encode.entries.is_empty());
    let c = s.clock.unwrap();
    assert_eq!(c.format, "${name} %D %H:%M:%S");
    assert_eq!(
        (c.halignment.as_str(), c.valignment.as_str(), c.font.as_str()),
        ("left", "bottom", "Sans, 12")
    );
}

#[test]
fn names_are_ordered_as_strings_are() {
    let names = ["", "a", "aa", "ab", "b", "B", "ä", "\u{ffff}", "\u{10000}", "720p", "1080p"];
    for a in names {
        for b in names {
            assert_eq!(comes_before(a, b), a < b, "{a:?} {b:?}");
        }
    }
}

#[test]
fn maps_of_names() {
    let mut m = NameMap::new();
    for (name, value) in [("b", 1), ("a", 2), ("c", 3), ("b", 4)] {
        m.insert(name.to_string(), value);
    }
    assert_eq!(m.keys(), ["a", "b", "c"]);
    assert_eq!(m.get("a"), Some(&2));
    assert_eq!(m.get("b"), Some(&4));
    assert_eq!(m.get("d"), None);
}

fn config() -> Config {
    let mut encode = NameMap::new();
    encode.insert("720p".to_string(), StreamCompressionParams::default());
    encode.insert("240p".to_string(), StreamCompressionParams::default());
    let mut profiles = NameMap::new();
    profiles.insert("small".to_string(), StreamProfile::default());
    let with_encodings = StreamProfile { encode, ..StreamProfile::default() };
    profiles.insert("default".to_string(), with_encodings);
    let source = |profile: Option<&str>| SourceConfig {
        source: "test".to_string(),
        profile: profile.map(|p| p.to_string()),
        show: false,
    };
    let mut sources = NameMap::new();
    sources.insert("cam1".to_string(), source(None));
    sources.insert("cam0".to_string(), source(Some("small")));
    Config {
        sources,
        profiles,
        storage: StorageConfig { root: "/video".to_string(), cache: "/cache".to_string() },
    }
}

#[test]
fn information_on_the_configuration() {
    let info = config().info();
    assert_eq!(info.sources, ["cam0", "cam1"]);
    assert_eq!(info.profiles, ["240p", "720p"]);
}

#[test]
fn profiles_of_sources() {
    let c = config();
    assert_eq!(c.profile_for(c.sources.get("cam1").unwrap()).unwrap().encode.entries.len(), 2);
    assert_eq!(c.profile_for(c.sources.get("cam0").unwrap()).unwrap().encode.entries.len(), 0);
    let missing = SourceConfig {
        source: "test".to_string(),
        profile: Some("none".to_string()),
        show: false,
    };
    assert_eq!(c.profile_for(&missing).err().as_deref(), Some("none"));
}

#[test]
fn the_pipeline_of_the_test_picture() {
    let params = SourceConfig { source: "test".to_string(), profile: None, show: true };
    let mut encode = NameMap::new();
    encode.insert("240p".to_string(), StreamCompressionParams::default());
    encode.insert(
        "120p".to_string(),
        StreamCompressionParams {
            width: 160,
            height: 120,
            record: false,
            ..StreamCompressionParams::default()
        },
    );
    let profile = StreamProfile { encode, ..StreamProfile::default() };
    assert_eq!(
        pipeline_text("cam0", &params, &profile),
        "videotestsrc ! videorate ! video/x-raw,framerate=30/1,width=1920,height=1080 \
        ! clockoverlay halignment=left valignment=bottom shaded-background=true \
        font-desc=\"Sans, 12\" time-format=\"cam0 %D %H:%M:%S\" ! tee name=decoded \
        decoded. ! queue ! videoscale ! video/x-raw,width=160,height=120 \
        ! x264enc bframes=0 bitrate=8192 speed-preset=ultrafast tune=zerolatency key-int-max=30 \
        ! video/x-h264,stream-format=byte-stream ! appsink name=app_120p \
        decoded. ! queue ! videoscale ! video/x-raw,width=1920,height=1080 \
        ! x264enc bframes=0 bitrate=8192 speed-preset=ultrafast tune=zerolatency key-int-max=30 \
        ! tee name=x264_240p ! splitmuxsink max-size-time=5000000000 muxer-factory=mp4mux \
        name=rec_240p x264_240p. ! h264parse ! video/x-h264,stream-format=byte-stream \
        ! appsink name=app_240p decoded. ! autovideosink"
    );
    assert_eq!(recorder("240p"), "rec_240p");
    assert_eq!(sink("240p"), "app_240p");
}

#[test]
fn the_pipeline_of_a_camera() {
    let params = SourceConfig { source: "http://cam/v".to_string(), profile: None, show: false };
    let profile = StreamProfile { clock: None::<ClockParams>, ..StreamProfile::default() };
    assert_eq!(
        pipeline_text("cam0", &params, &profile),
        "souphttpsrc location=\"http://cam/v\" is-live=true do-timestamp=true ! multipartdemux \
        ! image/jpeg ! jpegdec ! videorate ! video/x-raw,framerate=30/1,width=1920,height=1080 \
        ! tee name=decoded"
    );
    assert!(known_source("test"));
    assert!(known_source("http:"));
    assert!(!known_source("rtsp://cam"));
    assert!(!known_source("tests"));
}

#[test]
fn a_lost_connection() {
    let mut w = Watchdog::started(at(0));
    assert_eq!(w.step(FrameEvent::Missing, at(29)), WatchdogAction::Wait);
    assert_eq!(w.step(FrameEvent::Received, at(29)), WatchdogAction::Poll);
    let almost = Timestamp { secs: 58, nanos: 999_999_999 };
    assert_eq!(w.step(FrameEvent::Missing, almost), WatchdogAction::Wait);
    assert_eq!(w.step(FrameEvent::Missing, at(59)), WatchdogAction::Reconnect);
    assert_eq!(w.last_frame_time, at(29));
    w = Watchdog::started(at(60));
    assert_eq!(w.step(FrameEvent::Missing, at(61)), WatchdogAction::Wait);
    assert_eq!(w.step(FrameEvent::Closed, at(200)), WatchdogAction::Stop);
}
