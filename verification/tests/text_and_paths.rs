use videosrv::path;
use videosrv::text;

#[test]
fn decimal_numbers() {
    assert_eq!(text::decimal_text(0), "0");
    assert_eq!(text::decimal_text(u64::MAX), "18446744073709551615");
    assert_eq!(text::signed_text(-5000), "-5000");
    assert_eq!(text::signed_text(i64::MIN), "-9223372036854775808");
    assert_eq!(text::padded_text(7, 2), "07");
    assert_eq!(text::padded_text(123, 2), "123");
    assert_eq!(text::padded_text(5, 0), "5");
    assert_eq!(text::signed_padded_text(-3, 2), "-3");
    assert_eq!(text::signed_padded_text(-3, 4), "-003");
    assert_eq!(text::signed_padded_text(-12, 0), "-12");
}

#[test]
fn integers_are_read_as_the_standard_library_reads_them() {
    let samples = [
        "", "+", "-", "0", "-0", "+7", "12", "-12", "1 ", " 1", "1a", "--1", "+-1", "00012",
        "9223372036854775807", "9223372036854775808", "-9223372036854775808",
        "-9223372036854775809", "99999999999999999999999999", "\u{0661}",
    ];
    for s in samples {
        assert_eq!(text::parse_i64(s), s.parse::<i64>().ok(), "{s:?}");
    }
}

#[test]
fn written_integers_are_read_back() {
    for i in [0, 1, -1, 42, i64::MAX, i64::MIN] {
        assert_eq!(text::parse_i64(&text::signed_text(i)), Some(i));
    }
}

#[test]
fn splitting() {
    for s in ["", "a", "/", "a/b", "/a//b/", "äö/ü"] {
        let want: Vec<&str> = s.split('/').collect();
        assert_eq!(text::split_on(s, '/'), want, "{s:?}");
    }
}

#[test]
fn replacing() {
    for (s, p, by) in [
        ("a.mp4", ".mp4", ""),
        ("a.mp4.mp4x", ".mp4", ""),
        ("aaaa", "aa", "b"),
        ("aaa", "aa", "b"),
        ("${name} %D ${name}", "${name}", "cam1"),
        ("", "x", "y"),
        ("ab", "abc", "y"),
    ] {
        assert_eq!(text::replace_all(s, p, by), s.replace(p, by), "{s:?}");
    }
}

#[test]
fn beginnings_and_ends() {
    assert!(text::begins_with("http://x", "http:"));
    assert!(!text::begins_with("htt", "http:"));
    assert!(!text::begins_with("https://x", "http:"));
    assert!(text::finishes_with("a_1_2.ts", ".ts"));
    assert!(!text::finishes_with("ts", ".ts"));
    assert!(text::same_text("", ""));
    assert!(!text::same_text("a", "b"));
    assert_eq!(text::concat("a", "b"), "ab");
}

const PATHS: [&str; 27] = [
    "", ".", "..", "/", "//", "a", "a/", "a/b", "a//b", "/a", "/a/", "//a", "/a/b", "/a/./b", "./a",
    "./", "a/.", "a/..", "../a", "/..", "a/./b/", "a.b", "a/.b", "a/b.c.d", "a/b.", "/./a", "..a",
];

#[test]
fn paths_agree_with_the_standard_library() {
    for p in PATHS {
        let q = std::path::Path::new(p);
        let name = q.file_name().map(|n| n.to_str().unwrap().to_string());
        assert_eq!(path::file_name(p), name, "name of {p:?}");
        let ext = q.extension().map(|n| n.to_str().unwrap().to_string());
        assert_eq!(path::extension(p), ext, "extension of {p:?}");
        let parent = q.parent().map(|n| n.to_str().unwrap().to_string());
        assert_eq!(path::parent(p), parent, "parent of {p:?}");
        assert_eq!(path::starts_at_root(p), q.is_absolute(), "root of {p:?}");
    }
}

#[test]
fn pairs_of_paths_agree_with_the_standard_library() {
    for a in PATHS {
        for b in PATHS {
            let x = std::path::Path::new(a);
            let y = std::path::Path::new(b);
            assert_eq!(path::join(a, b), x.join(y).to_str().unwrap(), "{a:?} and {b:?}");
            assert_eq!(path::same_path(a, b), x == y, "{a:?} and {b:?}");
            let rest = x.strip_prefix(y).ok().map(|r| r.to_str().unwrap().to_string());
            assert_eq!(path::strip_prefix(a, b), rest, "{a:?} without {b:?}");
        }
    }
}

#[test]
fn components() {
    assert_eq!(path::components_of("/a/./b//c/"), ["a", "b", "c"]);
    assert_eq!(path::components_of("./a/.."), [".", "a", ".."]);
    assert!(path::components_of("/").is_empty());
}

#[test]
fn joining_then_stripping_leaves_what_was_joined() {
    for base in ["", "/", "/video", "video/", "./video", "."] {
        let parts = vec!["cam0".to_string(), "240p".to_string(), "x.mp4".to_string()];
        let whole = path::join_all(base, &parts);
        assert_eq!(path::strip_prefix(&whole, base).as_deref(), Some("cam0/240p/x.mp4"));
        assert_eq!(path::file_name(&whole).as_deref(), Some("x.mp4"));
    }
}
