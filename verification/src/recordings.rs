//! Recorded files: what their paths say, and which of them fall into a time range.

use crate::lists;
use crate::path;
use crate::text;
use crate::time;
use crate::time::Timestamp;
use itertools::Itertools;
use vstd::prelude::*;
use vstd::string::*;

verus! {

/// A file that was found under the video root.
#[derive(Clone, Debug)]
pub struct FoundFile {
    pub path: String,
    pub is_file: bool,
}

/// A recorded file: where it is, when it starts and how many milliseconds it lasts.
#[derive(Clone, Debug)]
pub struct Recording {
    pub path: String,
    pub timestamp: Timestamp,
    pub duration: i64,
}

/// What the path of a recorded file says: camera, resolution, start and milliseconds.
#[derive(Clone, Debug)]
pub struct ParsedRelpath {
    pub camera: String,
    pub resolution: String,
    pub timestamp: Timestamp,
    pub duration: i64,
}

/// The parts of the path of a recorded file that are still to be read.
#[derive(Clone, Debug)]
pub struct RelpathParts {
    pub camera: String,
    pub resolution: String,
    pub stamp: String,
    pub duration: Option<i64>,
}

/// A found file as a value.
pub struct FoundFileModel {
    pub path: Seq<char>,
    pub is_file: bool,
}

/// A recording as a value.
pub struct RecordingModel {
    pub path: Seq<char>,
    pub timestamp: Timestamp,
    pub duration: int,
}

/// What the path of a recorded file says, as a value.
pub struct RelpathModel {
    pub camera: Seq<char>,
    pub resolution: Seq<char>,
    pub timestamp: Timestamp,
    pub duration: int,
}

impl View for FoundFile {
    type V = FoundFileModel;

    open spec fn view(&self) -> FoundFileModel {
        FoundFileModel { path: self.path@, is_file: self.is_file }
    }
}

impl View for Recording {
    type V = RecordingModel;

    open spec fn view(&self) -> RecordingModel {
        RecordingModel {
            path: self.path@,
            timestamp: self.timestamp,
            duration: self.duration as int,
        }
    }
}

impl View for ParsedRelpath {
    type V = RelpathModel;

    open spec fn view(&self) -> RelpathModel {
        RelpathModel {
            camera: self.camera@,
            resolution: self.resolution@,
            timestamp: self.timestamp,
            duration: self.duration as int,
        }
    }
}

/// A list of recordings as values.
pub open spec fn models(v: Seq<Recording>) -> Seq<RecordingModel> {
    v.map_values(|r: Recording| r@)
}

/// A list of found files as values.
pub open spec fn file_models(v: Seq<FoundFile>) -> Seq<FoundFileModel> {
    v.map_values(|f: FoundFile| f@)
}

/// The name of a recorded file: its start and its length in milliseconds.
pub open spec fn recorded_name(t: Timestamp, ms: int) -> Seq<char> {
    time::stamp_text(t) + seq!['_'] + text::signed_decimal(ms) + seq!['.', 'm', 'p', '4']
}

/// The directories and the name under which a recording is kept, from the camera down.
pub open spec fn recorded_parts(
    camera: Seq<char>,
    resolution: Seq<char>,
    t: Timestamp,
    ms: int,
) -> Seq<Seq<char>> {
    recorded_dirs(camera, resolution, t).push(recorded_name(t, ms))
}

/// The path of a recording below the video root.
pub open spec fn recorded_relpath(
    camera: Seq<char>,
    resolution: Seq<char>,
    t: Timestamp,
    ms: int,
) -> Seq<char> {
    text::joined(recorded_parts(camera, resolution, t, ms), '/')
}

/// The directories in which the recordings of an hour are kept, from the camera down.
pub open spec fn recorded_dirs(camera: Seq<char>, resolution: Seq<char>, t: Timestamp) -> Seq<
    Seq<char>,
> {
    let date = time::calendar_date(t.day());
    seq![
        camera,
        resolution,
        text::signed_decimal(date.0),
        text::padded(date.1 as nat, 2),
        text::padded(date.2 as nat, 2),
        text::padded((t.second_of_day() / 3600) as nat, 2),
    ]
}

/// The part of a file name that gives the start of the recording.
pub open spec fn stamp_part(name: Seq<char>) -> Seq<char> {
    text::split(name, '_')[0]
}

/// The milliseconds that a file name gives behind the start of the recording.
pub open spec fn duration_part(name: Seq<char>) -> Option<i64> {
    let parts = text::split(name, '_');
    if parts.len() < 2 {
        None
    } else {
        text::i64_value(text::split(parts[1], '.')[0])
    }
}

/// What the path of a recorded file says, given the time that its name starts with.
pub open spec fn relpath_value(p: Seq<char>, start: Option<Timestamp>) -> Option<RelpathModel> {
    let parts = text::split(p, '/');
    if parts.len() < 7 {
        None
    } else {
        match (start, duration_part(parts[6])) {
            (Some(timestamp), Some(ms)) => Some(
                RelpathModel {
                    camera: parts[0],
                    resolution: parts[1],
                    timestamp,
                    duration: ms as int,
                },
            ),
            _ => None,
        }
    }
}

/// The time that the name in the path of a recorded file starts with.
pub open spec fn relpath_start(p: Seq<char>) -> Option<Timestamp> {
    time::from_pair(
        time::parsed_time(stamp_part(text::split(p, '/')[6]), time::STAMP_FORMAT@),
    )
}

/// A written name splits into the parts that it was made of.
pub proof fn lemma_recorded_name(t: Timestamp, ms: i64)
    ensures
        text::split(recorded_name(t, ms as int), '_') == seq![
            time::stamp_text(t),
            text::signed_decimal(ms as int) + seq!['.', 'm', 'p', '4'],
        ],
        stamp_part(recorded_name(t, ms as int)) == time::stamp_text(t),
        duration_part(recorded_name(t, ms as int)) == Some(ms),
        text::lacks(recorded_name(t, ms as int), '/'),
{
    let stamp = time::stamp_text(t);
    let number = text::signed_decimal(ms as int);
    let tail = number + seq!['.', 'm', 'p', '4'];
    time::lemma_stamp_lacks(t, '_');
    time::lemma_stamp_lacks(t, '/');
    lemma_number_lacks(ms as int, '_');
    lemma_number_lacks(ms as int, '/');
    lemma_number_lacks(ms as int, '.');
    text::lemma_lacks_concat(number, seq!['.', 'm', 'p', '4'], '_');
    text::lemma_lacks_concat(number, seq!['.', 'm', 'p', '4'], '/');
    assert(recorded_name(t, ms as int) =~= stamp + seq!['_'] + tail);
    text::lemma_split_concat(stamp, '_', tail);
    text::lemma_split_whole(stamp, '_');
    text::lemma_split_whole(tail, '_');
    assert(seq![stamp] + seq![tail] =~= seq![stamp, tail]);
    assert(tail =~= number + seq!['.'] + seq!['m', 'p', '4']);
    text::lemma_split_concat(number, '.', seq!['m', 'p', '4']);
    text::lemma_split_whole(number, '.');
    text::lemma_signed_decimal(ms);
    text::lemma_lacks_concat(stamp, seq!['_'], '/');
    text::lemma_lacks_concat(stamp + seq!['_'], tail, '/');
}

/// A written integer holds digits and `-` alone.
pub proof fn lemma_number_lacks(i: int, c: char)
    requires
        !text::is_digit(c),
        c != '-',
    ensures
        text::lacks(text::signed_decimal(i), c),
{
    if i < 0 {
        text::lemma_decimal((-i) as nat);
        text::lemma_digits_lack(text::decimal((-i) as nat), c);
        text::lemma_lacks_concat(seq!['-'], text::decimal((-i) as nat), c);
    } else {
        text::lemma_decimal(i as nat);
        text::lemma_digits_lack(text::decimal(i as nat), c);
    }
}

/// The path of a recording splits into its directories and its name.
pub proof fn lemma_recorded_relpath(
    camera: Seq<char>,
    resolution: Seq<char>,
    t: Timestamp,
    ms: i64,
)
    requires
        text::lacks(camera, '/'),
        text::lacks(resolution, '/'),
    ensures
        text::split(recorded_relpath(camera, resolution, t, ms as int), '/') == recorded_parts(
            camera,
            resolution,
            t,
            ms as int,
        ),
        forall|k: int|
            0 <= k < 7 ==> text::lacks(
                #[trigger] recorded_parts(camera, resolution, t, ms as int)[k],
                '/',
            ),
{
    let parts = recorded_parts(camera, resolution, t, ms as int);
    let date = time::calendar_date(t.day());
    let hour = (t.second_of_day() / 3600) as nat;
    lemma_number_lacks(date.0, '/');
    text::lemma_padded(date.1 as nat, 2);
    text::lemma_digits_lack(parts[3], '/');
    text::lemma_padded(date.2 as nat, 2);
    text::lemma_digits_lack(parts[4], '/');
    text::lemma_padded(hour, 2);
    text::lemma_digits_lack(parts[5], '/');
    lemma_recorded_name(t, ms);
    text::lemma_split_joined(parts, '/');
}

/// The directory below which all recordings of a camera in a resolution are kept.
pub fn storage_root(video_root: &str, camera: &str, resolution: &str) -> (r: String)
    ensures
        r@ == path::joined_path(path::joined_path(video_root@, camera@), resolution@),
{
    path::join(path::join(video_root, camera).as_str(), resolution)
}

/// The directory in which the recordings of an hour are kept.
pub fn recording_dir(video_root: &str, camera: &str, resolution: &str, t: &Timestamp) -> (r: String)
    requires
        t.wf(),
    ensures
        r@ == path::joined_all(video_root@, recorded_dirs(camera@, resolution@, *t)),
        r@ == path::joined_all(
            video_root@,
            seq![
                    camera@,
                    resolution@,
                    text::signed_decimal(time::calendar_date(t.secs as int / 86_400).0),
                    text::padded(time::calendar_date(t.secs as int / 86_400).1 as nat, 2),
                    text::padded(time::calendar_date(t.secs as int / 86_400).2 as nat, 2),
                    text::padded((t.secs as int % 86_400 / 3600) as nat, 2),
                ],
        ),
{
    let mut parts: Vec<String> = Vec::new();
    parts.push(camera.to_owned());
    parts.push(resolution.to_owned());
    parts.push(text::signed_text(time::chrono_year(t) as i64));
    parts.push(text::padded_text(time::chrono_month(t) as u64, 2));
    parts.push(text::padded_text(time::chrono_day(t) as u64, 2));
    parts.push(text::padded_text(t.hour() as u64, 2));
    assert(text::texts(parts@) =~= recorded_dirs(camera@, resolution@, *t));
    proof {
        law_where_a_recording_is_kept(video_root@, camera@, resolution@, *t, 0);
    }
    path::join_all(video_root, &parts)
}

/// The name of the file of a recording.
pub fn recording_name(t: &Timestamp, ms: i64) -> (r: String)
    requires
        t.wf(),
    ensures
        r@ == recorded_name(*t, ms as int),
        r@ == time::stamp_text(*t) + "_"@ + text::signed_decimal(ms as int) + ".mp4"@,
{
    let mut r = time::chrono_format(t, time::STAMP_FORMAT);
    proof {
        reveal_strlit("_");
        reveal_strlit(".mp4");
        assert("_"@ =~= seq!['_']);
        assert(".mp4"@ =~= seq!['.', 'm', 'p', '4']);
    }
    r.append("_");
    r.append(text::signed_text(ms).as_str());
    r.append(".mp4");
    r
}

/// What may have been read, as a value.
pub open spec fn relpath_model(r: Option<ParsedRelpath>) -> Option<RelpathModel> {
    match r {
        Some(x) => Some(x@),
        None => None,
    }
}

/// Takes the path of a recorded file apart.
pub fn relpath_parts(relpath: &str) -> (r: Option<RelpathParts>)
    ensures
        r is Some <==> text::split(relpath@, '/').len() >= 7,
        r matches Some(x) ==> {
            let parts = text::split(relpath@, '/');
            x.camera@ == parts[0] && x.resolution@ == parts[1] && x.stamp@ == stamp_part(parts[6])
                && x.duration == duration_part(parts[6])
        },
{
    let parts = text::split_on(relpath, '/');
    assert(text::texts(parts@).len() == parts@.len());
    if parts.len() < 7 {
        return None;
    }
    assert(text::texts(parts@)[0] == parts@[0]@);
    assert(text::texts(parts@)[1] == parts@[1]@);
    assert(text::texts(parts@)[6] == parts@[6]@);
    let fields = text::split_on(parts[6].as_str(), '_');
    assert(text::texts(fields@).len() == fields@.len());
    assert(text::texts(fields@)[0] == fields@[0]@);
    let duration = if fields.len() < 2 {
        None
    } else {
        assert(text::texts(fields@)[1] == fields@[1]@);
        let number = text::split_on(fields[1].as_str(), '.');
        assert(text::texts(number@)[0] == number@[0]@);
        text::parse_i64(number[0].as_str())
    };
    Some(
        RelpathParts {
            camera: parts[0].clone(),
            resolution: parts[1].clone(),
            stamp: fields[0].clone(),
            duration,
        },
    )
}

/// What the path of a recorded file says, once the time in its name has been read.
pub fn relpath_from(parts: RelpathParts, start: Option<Timestamp>) -> (r: Option<ParsedRelpath>)
    ensures
        r is Some <==> start is Some && parts.duration is Some,
        r matches Some(x) ==> x.camera == parts.camera && x.resolution == parts.resolution && Some(
            x.timestamp,
        ) == start && Some(x.duration) == parts.duration,
{
    match (start, parts.duration) {
        (Some(timestamp), Some(duration)) => Some(
            ParsedRelpath {
                camera: parts.camera,
                resolution: parts.resolution,
                timestamp,
                duration,
            },
        ),
        _ => None,
    }
}

/// Reads camera, resolution, start and length from the path of a recorded file below the
/// video root. The path that a recording is given is read back, its start to the millisecond.
pub fn parse_relpath(relpath: &str) -> (r: Option<ParsedRelpath>)
    ensures
        relpath_model(r) == relpath_value(relpath@, relpath_start(relpath@)),
        r is Some <==> relpath_value(relpath@, relpath_start(relpath@)) is Some,
        r matches Some(x) ==> (relpath_value(relpath@, relpath_start(relpath@)) matches Some(v)
            && x.camera@ == v.camera && x.resolution@ == v.resolution && x.timestamp == v.timestamp
            && x.duration == v.duration),
        r matches Some(x) ==> x.timestamp.wf(),
        forall|camera: Seq<char>, resolution: Seq<char>, t: Timestamp, ms: i64|
            relpath@ == #[trigger] recorded_relpath(camera, resolution, t, ms as int)
                && text::lacks(camera, '/') && text::lacks(resolution, '/') && t.wf() && 0 <= t.secs
                < time::TWO_DIGIT_YEARS_END ==> relpath_model(r) == Some(
                RelpathModel { camera, resolution, timestamp: t.whole_millis(), duration: ms as int },
            ),
{
    let parts = match relpath_parts(relpath) {
        Some(parts) => parts,
        None => {
            proof {
                assert forall|camera: Seq<char>, resolution: Seq<char>, t: Timestamp, ms: i64|
                    relpath@ == #[trigger] recorded_relpath(camera, resolution, t, ms as int)
                        && text::lacks(camera, '/') && text::lacks(resolution, '/') implies false by {
                    lemma_recorded_relpath(camera, resolution, t, ms);
                }
            }
            return None;
        },
    };
    let start = time::chrono_parse(parts.stamp.as_str(), time::STAMP_FORMAT);
    assert(time::from_pair(time::as_pair(start)) == start);
    proof {
        assert forall|camera: Seq<char>, resolution: Seq<char>, t: Timestamp, ms: i64|
            relpath@ == #[trigger] recorded_relpath(camera, resolution, t, ms as int)
                && text::lacks(camera, '/') && text::lacks(resolution, '/') && t.wf() && 0 <= t.secs
                < time::TWO_DIGIT_YEARS_END implies relpath_value(relpath@, start) == Some(
            RelpathModel { camera, resolution, timestamp: t.whole_millis(), duration: ms as int },
        ) by {
            lemma_recorded_relpath(camera, resolution, t, ms);
            lemma_recorded_name(t, ms);
            let name = recorded_parts(camera, resolution, t, ms as int)[6];
            assert(name == recorded_name(t, ms as int));
        }
    }
    relpath_from(parts, start)
}

/// A list of recordings is put in order in one way only.
pub proof fn law_order_is_unique(
    before: Seq<RecordingModel>,
    x: Seq<RecordingModel>,
    y: Seq<RecordingModel>,
)
    requires
        stably_sorted(before, x),
        stably_sorted(before, y),
    ensures
        x == y,
{
    assert forall|t: Timestamp| #[trigger] starting_at(x, t) == starting_at(y, t) by {
        assert(starting_at(before, t) == starting_at(x, t));
        assert(starting_at(before, t) == starting_at(y, t));
    }
    lemma_order_is_unique(x, y);
}

proof fn lemma_order_is_unique(x: Seq<RecordingModel>, y: Seq<RecordingModel>)
    requires
        in_order(x),
        in_order(y),
        forall|t: Timestamp| #[trigger] starting_at(x, t) == starting_at(y, t),
    ensures
        x == y,
    decreases x.len(),
{
    if x.len() == 0 || y.len() == 0 {
        if y.len() > 0 {
            lemma_last_of_its_start(y);
            assert(starting_at(x, y.last().timestamp).len() == 0) by {
                reveal(Seq::filter);
            }
        }
        if x.len() > 0 {
            lemma_last_of_its_start(x);
            assert(starting_at(y, x.last().timestamp).len() == 0) by {
                reveal(Seq::filter);
            }
        }
        assert(x =~= y);
    } else {
        let a = x.last();
        let b = y.last();
        lemma_last_of_its_start(x);
        lemma_last_of_its_start(y);
        lemma_starts_within(y, a.timestamp);
        lemma_starts_within(x, b.timestamp);
        assert(starting_at(x, a.timestamp) == starting_at(y, a.timestamp));
        assert(starting_at(x, b.timestamp) == starting_at(y, b.timestamp));
        assert(a.timestamp == b.timestamp);
        assert(a == b);
        let xs = x.drop_last();
        let ys = y.drop_last();
        assert forall|t: Timestamp| #[trigger] starting_at(xs, t) == starting_at(ys, t) by {
            assert(starting_at(x, t) == starting_at(y, t));
            reveal(Seq::filter);
            if t == a.timestamp {
                assert(starting_at(x, t).drop_last() =~= starting_at(xs, t));
                assert(starting_at(y, t).drop_last() =~= starting_at(ys, t));
            }
        }
        lemma_order_is_unique(xs, ys);
        assert(x =~= xs.push(a));
        assert(y =~= ys.push(b));
    }
}

/// The last of recordings is the last of those that start when it does.
proof fn lemma_last_of_its_start(rs: Seq<RecordingModel>)
    requires
        rs.len() > 0,
    ensures
        starting_at(rs, rs.last().timestamp).len() > 0,
        starting_at(rs, rs.last().timestamp).last() == rs.last(),
{
    reveal(Seq::filter);
}

/// When recordings in order start at some time, that is no later than the last of them does.
proof fn lemma_starts_within(rs: Seq<RecordingModel>, t: Timestamp)
    requires
        in_order(rs),
        rs.len() > 0,
        starting_at(rs, t).len() > 0,
    ensures
        t.le(rs.last().timestamp),
{
    let pred = |r: RecordingModel| r.timestamp == t;
    let r = rs.filter(pred)[0];
    assert(rs.filter(pred).contains(r));
    lists::lemma_filter_contains(rs, pred, r);
    let i = choose|i: int| 0 <= i < rs.len() && rs[i] == r;
    if i < rs.len() - 1 {
        assert(rs[i].timestamp.le(rs[rs.len() - 1].timestamp));
    }
}

/// The recording that a found file is, if it is one: a regular file with the extension
/// `mp4` whose path below the video root can be read.
pub open spec fn recording_of(video_root: Seq<char>, file: FoundFileModel) -> Option<
    RecordingModel,
> {
    if file.is_file && path::extension_of(file.path) == Some(seq!['m', 'p', '4']) {
        match path::stripped(file.path, video_root) {
            Some(relpath) => match relpath_value(relpath, relpath_start(relpath)) {
                Some(x) => Some(
                    RecordingModel {
                        path: file.path,
                        timestamp: x.timestamp,
                        duration: x.duration,
                    },
                ),
                None => None,
            },
            None => None,
        }
    } else {
        None
    }
}

/// The recordings among found files, in the order of the files.
pub open spec fn all_recordings(video_root: Seq<char>, files: Seq<FoundFileModel>) -> Seq<
    RecordingModel,
>
    decreases files.len(),
{
    if files.len() == 0 {
        Seq::<RecordingModel>::empty()
    } else {
        let front = all_recordings(video_root, files.drop_last());
        match recording_of(video_root, files.last()) {
            Some(r) => front.push(r),
            None => front,
        }
    }
}

/// The recordings that start within a time range, both ends included.
pub open spec fn within(rs: Seq<RecordingModel>, min: Timestamp, max: Timestamp) -> Seq<
    RecordingModel,
> {
    rs.filter(|r: RecordingModel| min.le(r.timestamp) && r.timestamp.le(max))
}

/// The file in which a recording is kept under the video root.
pub open spec fn recorded_file(
    video_root: Seq<char>,
    camera: Seq<char>,
    resolution: Seq<char>,
    t: Timestamp,
    ms: int,
) -> FoundFileModel {
    FoundFileModel {
        path: path::joined_all(video_root, recorded_parts(camera, resolution, t, ms)),
        is_file: true,
    }
}

/// Whether a recording can be found again by its path: camera and resolution are names of
/// directories, and the start lies in the century that two-digit years stand for.
pub open spec fn recordable(camera: Seq<char>, resolution: Seq<char>, t: Timestamp) -> bool {
    &&& path::is_plain(camera)
    &&& path::is_plain(resolution)
    &&& t.wf()
    &&& 0 <= t.secs < time::TWO_DIGIT_YEARS_END
}

/// What the path of a recording is read as.
pub open spec fn reread(
    video_root: Seq<char>,
    camera: Seq<char>,
    resolution: Seq<char>,
    t: Timestamp,
    ms: int,
) -> RecordingModel {
    RecordingModel {
        path: recorded_file(video_root, camera, resolution, t, ms).path,
        timestamp: t.whole_millis(),
        duration: ms,
    }
}

/// Whether recordings stand in the order of their starts.
pub open spec fn in_order(rs: Seq<RecordingModel>) -> bool {
    forall|i: int, j: int|
        0 <= i < j < rs.len() ==> (#[trigger] rs[i]).timestamp.le((#[trigger] rs[j]).timestamp)
}

/// The recordings that start at a given time, in their order.
pub open spec fn starting_at(rs: Seq<RecordingModel>, t: Timestamp) -> Seq<RecordingModel> {
    rs.filter(|r: RecordingModel| r.timestamp == t)
}

/// Whether `after` holds the recordings of `before` in the order of their starts, those that
/// start together in the order that they had.
pub open spec fn stably_sorted(before: Seq<RecordingModel>, after: Seq<RecordingModel>) -> bool {
    &&& in_order(after)
    &&& after.to_multiset() == before.to_multiset()
    &&& forall|t: Timestamp| #[trigger] starting_at(after, t) == starting_at(before, t)
}

/// `itertools::Itertools::sorted_by` on the starts of recordings: a stable sort, which keeps
/// all of them and leaves those that start together in the order that they had.
#[verifier::external_body]
fn sorted_by_start(recordings: Vec<Recording>) -> (r: Vec<Recording>)
    ensures
        stably_sorted(models(recordings@), models(r@)),
{
    recordings.into_iter().sorted_by(|a, b| a.timestamp.chronological(&b.timestamp)).collect()
}

/// The recordings among the files under the video root. A file that was recorded is read as
/// what was recorded, its start to the millisecond.
pub fn recordings_among(video_root: &str, files: &Vec<FoundFile>) -> (r: Vec<Recording>)
    ensures
        models(r@) == all_recordings(video_root@, file_models(files@)),
        forall|k: int| 0 <= k < r@.len() ==> (#[trigger] r@[k]).timestamp.wf(),
        forall|k: int, camera: Seq<char>, resolution: Seq<char>, t: Timestamp, ms: i64|
            #![trigger files@[k], recorded_file(video_root@, camera, resolution, t, ms as int)]
            0 <= k < files@.len() && recordable(camera, resolution, t) && files@[k]@
                == recorded_file(video_root@, camera, resolution, t, ms as int) ==> models(
                r@,
            ).contains(reread(video_root@, camera, resolution, t, ms as int)),
{
    let mut found: Vec<Recording> = Vec::new();
    let len = files.len();
    let ghost all = file_models(files@);
    let mut k: usize = 0;
    assert(all.take(0) =~= Seq::<FoundFileModel>::empty());
    assert(models(found@) =~= Seq::<RecordingModel>::empty());
    while k < len
        invariant
            k <= len,
            len == files@.len(),
            all == file_models(files@),
            models(found@) == all_recordings(video_root@, all.take(k as int)),
            forall|j: int| 0 <= j < found@.len() ==> (#[trigger] found@[j]).timestamp.wf(),
            forall|j: int, camera: Seq<char>, resolution: Seq<char>, t: Timestamp, ms: i64|
                #![trigger files@[j], recorded_file(video_root@, camera, resolution, t, ms as int)]
                0 <= j < k && recordable(camera, resolution, t) && files@[j]@ == recorded_file(
                    video_root@,
                    camera,
                    resolution,
                    t,
                    ms as int,
                ) ==> recording_of(video_root@, all[j]) == Some(
                    reread(video_root@, camera, resolution, t, ms as int),
                ),
        decreases len - k,
    {
        let ghost before = models(found@);
        let file = &files[k];
        assert(all.take(k + 1).drop_last() =~= all.take(k as int));
        assert(all.take(k + 1).last() == file@);
        assert(all[k as int] == file@);
        match recording_from(video_root, file) {
            Some(recording) => {
                let ghost value = recording@;
                found.push(recording);
                assert(models(found@) =~= before.push(value));
            },
            None => {},
        }
        k = k + 1;
    }
    assert(all.take(len as int) =~= all);
    proof {
        assert forall|k: int, camera: Seq<char>, resolution: Seq<char>, t: Timestamp, ms: i64|
            #![trigger files@[k], recorded_file(video_root@, camera, resolution, t, ms as int)]
            0 <= k < files@.len() && recordable(camera, resolution, t) && files@[k]@
                == recorded_file(video_root@, camera, resolution, t, ms as int) implies models(
            found@,
        ).contains(reread(video_root@, camera, resolution, t, ms as int)) by {
            lemma_all_recordings_contains(video_root@, all, k);
        }
    }
    found
}

/// The recordings that start in a time range, both ends included, in the order of their
/// starts.
pub fn recordings_within(
    recordings: Vec<Recording>,
    timestamp_min: Timestamp,
    timestamp_max: Timestamp,
) -> (r: Vec<Recording>)
    ensures
        stably_sorted(within(models(recordings@), timestamp_min, timestamp_max), models(r@)),
{
    let ghost all = models(recordings@);
    let ghost pred = |r: RecordingModel|
        timestamp_min.le(r.timestamp) && r.timestamp.le(timestamp_max);
    let mut kept: Vec<Recording> = Vec::new();
    let len = recordings.len();
    let mut k: usize = 0;
    assert(all.take(0) =~= Seq::<RecordingModel>::empty());
    assert(models(kept@) =~= all.take(0).filter(pred)) by {
        reveal(Seq::filter);
    }
    while k < len
        invariant
            k <= len,
            len == recordings@.len(),
            all == models(recordings@),
            pred == (|r: RecordingModel|
                timestamp_min.le(r.timestamp) && r.timestamp.le(timestamp_max)),
            models(kept@) == all.take(k as int).filter(pred),
        decreases len - k,
    {
        let ghost before = models(kept@);
        let recording = &recordings[k];
        assert(all.take(k + 1).drop_last() =~= all.take(k as int));
        assert(all.take(k + 1).last() == recording@);
        proof {
            reveal(Seq::filter);
        }
        if timestamp_min.not_after(&recording.timestamp) && recording.timestamp.not_after(
            &timestamp_max,
        ) {
            let copy = Recording {
                path: recording.path.clone(),
                timestamp: recording.timestamp,
                duration: recording.duration,
            };
            kept.push(copy);
            assert(models(kept@) =~= before.push(recording@));
        }
        k = k + 1;
    }
    assert(all.take(len as int) =~= all);
    sorted_by_start(kept)
}

/// Finds the recordings among the files under the video root that start in a time range,
/// both ends included, and puts them in the order of their starts. A file that was recorded
/// within the range is found.
pub fn find_recordings(
    video_root: &str,
    files: &Vec<FoundFile>,
    timestamp_min: Timestamp,
    timestamp_max: Timestamp,
) -> (r: Vec<Recording>)
    ensures
        stably_sorted(
            within(
                all_recordings(video_root@, file_models(files@)),
                timestamp_min,
                timestamp_max,
            ),
            models(r@),
        ),
        forall|k: int| 0 <= k < r@.len() ==> (#[trigger] r@[k]).timestamp.wf(),
        forall|i: int, j: int|
            0 <= i < j < r@.len() ==> (#[trigger] r@[i]).timestamp.le((#[trigger] r@[j]).timestamp),
        forall|k: int|
            0 <= k < r@.len() ==> timestamp_min.le((#[trigger] r@[k]).timestamp)
                && r@[k].timestamp.le(timestamp_max),
        forall|k: int, camera: Seq<char>, resolution: Seq<char>, t: Timestamp, ms: i64|
            #![trigger files@[k], recorded_file(video_root@, camera, resolution, t, ms as int)]
            0 <= k < files@.len() && recordable(camera, resolution, t) && files@[k]@
                == recorded_file(video_root@, camera, resolution, t, ms as int)
                && timestamp_min.le(t.whole_millis()) && t.whole_millis().le(timestamp_max)
                ==> models(r@).contains(reread(video_root@, camera, resolution, t, ms as int)),
{
    let found = recordings_among(video_root, files);
    let ghost all = found@;
    let r = recordings_within(found, timestamp_min, timestamp_max);
    proof {
        let before = models(all);
        let after = models(r@);
        lemma_found(before, timestamp_min, timestamp_max, after);
        assert forall|j: int| 0 <= j < r@.len() implies (#[trigger] r@[j]).timestamp.wf() by {
            assert(after[j] == r@[j]@);
            assert(after.contains(after[j]));
            assert(before.contains(after[j]));
            let i = choose|i: int| 0 <= i < before.len() && before[i] == after[j];
            assert(before[i] == all[i]@);
        }
        assert forall|i: int, j: int| 0 <= i < j < r@.len() implies (#[trigger] r@[i]).timestamp.le(
            (#[trigger] r@[j]).timestamp,
        ) by {
            assert(after[i] == r@[i]@ && after[j] == r@[j]@);
        }
        assert forall|k: int| 0 <= k < r@.len() implies timestamp_min.le(
            (#[trigger] r@[k]).timestamp,
        ) && r@[k].timestamp.le(timestamp_max) by {
            assert(after[k] == r@[k]@);
            assert(after.contains(after[k]));
        }
    }
    r
}

/// What is found is what lies within the range.
proof fn lemma_found(
    rs: Seq<RecordingModel>,
    min: Timestamp,
    max: Timestamp,
    found: Seq<RecordingModel>,
)
    requires
        stably_sorted(within(rs, min, max), found),
    ensures
        forall|r: RecordingModel| #[trigger]
            found.contains(r) <==> rs.contains(r) && min.le(r.timestamp) && r.timestamp.le(max),
{
    let pred = |r: RecordingModel| min.le(r.timestamp) && r.timestamp.le(max);
    let kept = within(rs, min, max);
    assert forall|r: RecordingModel| #[trigger] found.contains(r) <==> rs.contains(r) && min.le(
        r.timestamp,
    ) && r.timestamp.le(max) by {
        vstd::seq_lib::to_multiset_contains(found, r);
        vstd::seq_lib::to_multiset_contains(kept, r);
        lists::lemma_filter_contains(rs, pred, r);
    }
}

/// The recording that a found file is, if it is one.
pub fn recording_from(video_root: &str, file: &FoundFile) -> (r: Option<Recording>)
    ensures
        r is Some <==> recording_of(video_root@, file@) is Some,
        r matches Some(x) ==> Some(x@) == recording_of(video_root@, file@) && x.timestamp.wf(),
        forall|camera: Seq<char>, resolution: Seq<char>, t: Timestamp, ms: i64|
            recordable(camera, resolution, t) && file@ == #[trigger] recorded_file(
                video_root@,
                camera,
                resolution,
                t,
                ms as int,
            ) ==> recording_of(video_root@, file@) == Some(
                reread(video_root@, camera, resolution, t, ms as int),
            ),
{
    proof {
        assert forall|camera: Seq<char>, resolution: Seq<char>, t: Timestamp, ms: i64|
            recordable(camera, resolution, t) && file@ == #[trigger] recorded_file(
                video_root@,
                camera,
                resolution,
                t,
                ms as int,
            ) implies file.is_file && path::extension_of(file@.path) == Some(seq!['m', 'p', '4'])
            && path::stripped(file@.path, video_root@) == Some(
            recorded_relpath(camera, resolution, t, ms as int),
        ) by {
            lemma_recorded_file(video_root@, camera, resolution, t, ms);
        }
    }
    if !file.is_file {
        return None;
    }
    proof {
        reveal_strlit("mp4");
        assert("mp4"@ =~= seq!['m', 'p', '4']);
    }
    let is_mp4 = match path::extension(file.path.as_str()) {
        Some(ext) => text::same_text(ext.as_str(), "mp4"),
        None => false,
    };
    if !is_mp4 {
        return None;
    }
    match path::strip_prefix(file.path.as_str(), video_root) {
        Some(relpath) => match parse_relpath(relpath.as_str()) {
            Some(x) => Some(
                Recording {
                    path: file.path.clone(),
                    timestamp: x.timestamp,
                    duration: x.duration,
                },
            ),
            None => None,
        },
        None => None,
    }
}

/// The file of a recording has the extension `mp4`, and below the video root it has the path
/// of the recording.
proof fn lemma_recorded_file(
    video_root: Seq<char>,
    camera: Seq<char>,
    resolution: Seq<char>,
    t: Timestamp,
    ms: i64,
)
    requires
        recordable(camera, resolution, t),
    ensures
        path::extension_of(recorded_file(video_root, camera, resolution, t, ms as int).path)
            == Some(seq!['m', 'p', '4']),
        path::stripped(
            recorded_file(video_root, camera, resolution, t, ms as int).path,
            video_root,
        ) == Some(recorded_relpath(camera, resolution, t, ms as int)),
{
    let parts = recorded_parts(camera, resolution, t, ms as int);
    lemma_recorded_parts_plain(camera, resolution, t, ms);
    path::law_join_then_strip(video_root, parts);
    let name = recorded_name(t, ms as int);
    assert(parts.last() == name);
    let tail = text::padded((t.nanos as int % 1_000_000_000 / 1_000_000) as nat, 3) + seq!['_']
        + text::signed_decimal(ms as int);
    let front = time::second_text(t) + seq!['.'] + tail;
    let ext = seq!['m', 'p', '4'];
    assert(name =~= front + seq!['.'] + ext);
    text::lemma_split_concat(time::second_text(t), '.', tail);
    text::lemma_split_parts(time::second_text(t), '.');
    text::lemma_split_parts(tail, '.');
    text::lemma_split_concat(front, '.', ext);
    text::lemma_split_whole(ext, '.');
    let split = text::split(name, '.');
    assert(split.last() == ext);
    assert(split.len() >= 3);
}

/// The directories and the name of a recording are plain names.
pub proof fn lemma_recorded_parts_plain(
    camera: Seq<char>,
    resolution: Seq<char>,
    t: Timestamp,
    ms: i64,
)
    requires
        path::is_plain(camera),
        path::is_plain(resolution),
    ensures
        forall|k: int|
            0 <= k < 7 ==> path::is_plain(
                #[trigger] recorded_parts(camera, resolution, t, ms as int)[k],
            ),
{
    let parts = recorded_parts(camera, resolution, t, ms as int);
    let date = time::calendar_date(t.day());
    let hour = (t.second_of_day() / 3600) as nat;
    lemma_recorded_relpath(camera, resolution, t, ms);
    lemma_number_lacks(date.0, '.');
    if date.0 < 0 {
        text::lemma_decimal((-date.0) as nat);
    } else {
        text::lemma_decimal(date.0 as nat);
    }
    text::lemma_padded(date.1 as nat, 2);
    text::lemma_padded(date.2 as nat, 2);
    text::lemma_padded(hour, 2);
    text::lemma_digits_lack(parts[3], '.');
    text::lemma_digits_lack(parts[4], '.');
    text::lemma_digits_lack(parts[5], '.');
    assert forall|k: int| 0 <= k < 7 implies path::is_plain(#[trigger] parts[k]) by {
        assert(text::lacks(parts[k], '/'));
        if 2 <= k <= 5 {
            assert(text::lacks(parts[k], '.'));
            assert(parts[k][0] != '.');
        }
    }
}

/// Every recording among the files is listed.
proof fn lemma_all_recordings_contains(video_root: Seq<char>, files: Seq<FoundFileModel>, k: int)
    requires
        0 <= k < files.len(),
        recording_of(video_root, files[k]) is Some,
    ensures
        all_recordings(video_root, files).contains(recording_of(video_root, files[k])->0),
    decreases files.len(),
{
    let all = all_recordings(video_root, files);
    let r = recording_of(video_root, files[k])->0;
    if k == files.len() - 1 {
        assert(all[all.len() - 1] == r);
    } else {
        let front = all_recordings(video_root, files.drop_last());
        assert(files.drop_last()[k] == files[k]);
        lemma_all_recordings_contains(video_root, files.drop_last(), k);
        let i = choose|i: int| 0 <= i < front.len() && front[i] == r;
        assert(all[i] == r);
    }
}

/// Everything that is found starts within the range that was asked for, and is one of the
/// files; every recording among the files that starts within the range is found.
pub proof fn law_found_is_what_lies_within(
    video_root: Seq<char>,
    files: Seq<FoundFileModel>,
    min: Timestamp,
    max: Timestamp,
    found: Seq<RecordingModel>,
)
    requires
        stably_sorted(within(all_recordings(video_root, files), min, max), found),
    ensures
        forall|r: RecordingModel| #[trigger]
            found.contains(r) <==> is_among(video_root, files, r) && min.le(r.timestamp)
                && r.timestamp.le(max),
{
    lemma_found(all_recordings(video_root, files), min, max, found);
    assert forall|r: RecordingModel| #[trigger] found.contains(r) <==> is_among(
        video_root,
        files,
        r,
    ) && min.le(r.timestamp) && r.timestamp.le(max) by {
        if is_among(video_root, files, r) {
            let k = choose|k: int|
                0 <= k < files.len() && recording_of(video_root, #[trigger] files[k]) == Some(r);
            lemma_all_recordings_contains(video_root, files, k);
        }
        if all_recordings(video_root, files).contains(r) {
            lemma_listed_is_among(video_root, files, r);
        }
    }
}

/// A time range can be split: where no recording starts between two times, those that are found
/// in a range around them are those up to the first time, followed by those from the second time
/// on. None is lost and none is repeated.
pub proof fn law_range_can_be_split(
    rs: Seq<RecordingModel>,
    min: Timestamp,
    mid: Timestamp,
    next: Timestamp,
    max: Timestamp,
    whole: Seq<RecordingModel>,
    first: Seq<RecordingModel>,
    second: Seq<RecordingModel>,
)
    requires
        min.le(mid) && mid.lt(next) && mid.le(max),
        forall|j: int|
            0 <= j < rs.len() ==> (#[trigger] rs[j]).timestamp.le(mid) || next.le(
                rs[j].timestamp,
            ),
        stably_sorted(within(rs, min, max), whole),
        stably_sorted(within(rs, min, mid), first),
        stably_sorted(within(rs, next, max), second),
    ensures
        whole == first + second,
{
    let both = first + second;
    lemma_found(rs, min, mid, first);
    lemma_found(rs, next, max, second);
    assert forall|i: int, j: int| 0 <= i < j < both.len() implies (
    #[trigger] both[i]).timestamp.le((#[trigger] both[j]).timestamp) by {
        if i < first.len() {
            assert(first.contains(first[i]));
        }
        if j >= first.len() {
            assert(second.contains(second[j - first.len()]));
            if i >= first.len() {
                assert(second[i - first.len()].timestamp.le(second[j - first.len()].timestamp));
            }
        } else {
            assert(first[i].timestamp.le(first[j].timestamp));
        }
    }
    assert forall|t: Timestamp| #[trigger] starting_at(whole, t) == starting_at(both, t) by {
        let pred = |r: RecordingModel| r.timestamp == t;
        Seq::filter_distributes_over_add(first, second, pred);
        assert(starting_at(both, t) == starting_at(first, t) + starting_at(second, t));
        lemma_starting_within(rs, min, max, t);
        lemma_starting_within(rs, min, mid, t);
        lemma_starting_within(rs, next, max, t);
        assert(starting_at(whole, t) == starting_at(within(rs, min, max), t));
        assert(starting_at(first, t) == starting_at(within(rs, min, mid), t));
        assert(starting_at(second, t) == starting_at(within(rs, next, max), t));
        if starting_at(rs, t).len() > 0 {
            let r = rs.filter(pred)[0];
            assert(rs.filter(pred).contains(r));
            lists::lemma_filter_contains(rs, pred, r);
            let j = choose|j: int| 0 <= j < rs.len() && rs[j] == r;
            assert(rs[j].timestamp == t);
        }
        assert(starting_at(whole, t) =~= starting_at(first, t) + starting_at(second, t));
    }
    lemma_order_is_unique(whole, both);
}

/// Those that start at a time are all within a range that holds the time, and none otherwise.
proof fn lemma_starting_within(
    rs: Seq<RecordingModel>,
    min: Timestamp,
    max: Timestamp,
    t: Timestamp,
)
    ensures
        starting_at(within(rs, min, max), t) == if min.le(t) && t.le(max) {
            starting_at(rs, t)
        } else {
            Seq::<RecordingModel>::empty()
        },
    decreases rs.len(),
{
    reveal(Seq::filter);
    if rs.len() > 0 {
        let front = rs.drop_last();
        let r = rs.last();
        lemma_starting_within(front, min, max, t);
        if min.le(r.timestamp) && r.timestamp.le(max) {
            assert(within(rs, min, max) == within(front, min, max).push(r));
            assert(within(rs, min, max).drop_last() =~= within(front, min, max));
        } else {
            assert(within(rs, min, max) == within(front, min, max));
        }
    }
}

/// A time range can be split at any nanosecond, but for a leap second that follows it at once and
/// in which a recording starts: time that is added does not lead into a leap second.
pub proof fn law_range_can_be_split_at_a_nanosecond(
    rs: Seq<RecordingModel>,
    min: Timestamp,
    mid: Timestamp,
    max: Timestamp,
    whole: Seq<RecordingModel>,
    first: Seq<RecordingModel>,
    second: Seq<RecordingModel>,
)
    requires
        mid.wf(),
        min.le(mid) && mid.le(max),
        forall|j: int|
            0 <= j < rs.len() ==> (#[trigger] rs[j]).timestamp.wf() && !(mid.nanos == 999_999_999
                && rs[j].timestamp.is_leap() && rs[j].timestamp.secs == mid.secs),
        stably_sorted(within(rs, min, max), whole),
        stably_sorted(within(rs, min, mid), first),
        stably_sorted(within(rs, time::next_nanosecond(mid), max), second),
    ensures
        whole == first + second,
{
    let next = time::next_nanosecond(mid);
    assert(mid.lt(next));
    assert forall|j: int| 0 <= j < rs.len() implies (#[trigger] rs[j]).timestamp.le(mid)
        || next.le(rs[j].timestamp) by {
        let t = rs[j].timestamp;
        assert(t.wf());
    }
    law_range_can_be_split(rs, min, mid, next, max, whole, first, second);
}

/// Whether one of the files is a recording.
pub open spec fn is_among(
    video_root: Seq<char>,
    files: Seq<FoundFileModel>,
    r: RecordingModel,
) -> bool {
    exists|k: int| 0 <= k < files.len() && recording_of(video_root, #[trigger] files[k]) == Some(r)
}

/// What is listed is one of the files.
proof fn lemma_listed_is_among(
    video_root: Seq<char>,
    files: Seq<FoundFileModel>,
    r: RecordingModel,
)
    requires
        all_recordings(video_root, files).contains(r),
    ensures
        is_among(video_root, files, r),
    decreases files.len(),
{
    let front_files = files.drop_last();
    let all = all_recordings(video_root, files);
    let front = all_recordings(video_root, front_files);
    let i = choose|i: int| 0 <= i < all.len() && all[i] == r;
    if i < front.len() {
        assert(front[i] == r);
        lemma_listed_is_among(video_root, front_files, r);
        let k = choose|k: int|
            0 <= k < front_files.len() && recording_of(video_root, #[trigger] front_files[k])
                == Some(r);
        assert(files[k] == front_files[k]);
    } else {
        assert(files[files.len() - 1] == files.last());
    }
}

/// A recording is kept under the video root in directories for camera, resolution, year, month,
/// day and hour, in a file named by its start to the millisecond and its length in milliseconds.
pub proof fn law_where_a_recording_is_kept(
    video_root: Seq<char>,
    camera: Seq<char>,
    resolution: Seq<char>,
    t: Timestamp,
    ms: int,
)
    ensures
        recorded_name(t, ms) == time::stamp_text(t) + "_"@ + text::signed_decimal(ms) + ".mp4"@,
        recorded_dirs(camera, resolution, t) == seq![
                    camera,
                    resolution,
                    text::signed_decimal(time::calendar_date(t.secs as int / 86_400).0),
                    text::padded(time::calendar_date(t.secs as int / 86_400).1 as nat, 2),
                    text::padded(time::calendar_date(t.secs as int / 86_400).2 as nat, 2),
                    text::padded((t.secs as int % 86_400 / 3600) as nat, 2),
                ],
        recorded_parts(camera, resolution, t, ms) == recorded_dirs(camera, resolution, t).push(
            recorded_name(t, ms),
        ),
        recorded_relpath(camera, resolution, t, ms) == text::joined(
            recorded_parts(camera, resolution, t, ms),
            '/',
        ),
        recorded_file(video_root, camera, resolution, t, ms).path == path::joined_all(
            video_root,
            recorded_parts(camera, resolution, t, ms),
        ),
        recorded_file(video_root, camera, resolution, t, ms).is_file,
        reread(video_root, camera, resolution, t, ms).path == recorded_file(
            video_root,
            camera,
            resolution,
            t,
            ms,
        ).path,
        reread(video_root, camera, resolution, t, ms).timestamp == t.whole_millis(),
        reread(video_root, camera, resolution, t, ms).duration == ms,
        recordable(camera, resolution, t) <==> path::is_plain(camera) && path::is_plain(resolution)
            && t.wf() && 0 <= t.secs < 3_155_760_000,
{
    reveal_strlit("_");
    reveal_strlit(".mp4");
    assert("_"@ =~= seq!['_']);
    assert(".mp4"@ =~= seq!['.', 'm', 'p', '4']);
}

/// What the path of a recorded file says stands between its slashes: camera and resolution first,
/// and the name of the file in the seventh place. In the name, the start stands before the first
/// underscore, and the length between it and the next underscore or dot. A path with fewer parts,
/// without a number there, or without a time in front says nothing.
pub proof fn law_path_is_read_part_by_part(p: Seq<char>, start: Option<Timestamp>)
    ensures
        ({
            let parts = text::split(p, '/');
            let fields = text::split(parts[6], '_');
            let length = text::i64_value(text::split(fields[1], '.')[0]);
            let r = relpath_value(p, start);
            &&& r is Some <==> start is Some && parts.len() >= 7 && fields.len() >= 2
                && length is Some
            &&& r matches Some(x) ==> x.camera == parts[0] && x.resolution == parts[1] && Some(
                x.timestamp,
            ) == start && x.duration == length->0
            &&& relpath_start(p) == time::from_pair(
                time::parsed_time(fields[0], time::STAMP_FORMAT@),
            )
        }),
{
}

/// A found file is a recording where it is a regular file with the extension `mp4` whose path
/// below the video root can be read; it starts and lasts as the path says.
pub proof fn law_which_files_are_recordings(
    video_root: Seq<char>,
    file: FoundFileModel,
    relpath: Seq<char>,
)
    ensures
        recording_of(video_root, file) is Some ==> file.is_file && path::extension_of(file.path)
            == Some(seq!['m', 'p', '4']) && path::stripped(file.path, video_root) is Some,
        path::stripped(file.path, video_root) == Some(relpath) ==> (recording_of(
            video_root,
            file,
        ) is Some <==> file.is_file && path::extension_of(file.path) == Some(seq!['m', 'p', '4'])
            && relpath_value(relpath, relpath_start(relpath)) is Some),
        path::stripped(file.path, video_root) == Some(relpath) && recording_of(
            video_root,
            file,
        ) is Some ==> recording_of(video_root, file)->0.path == file.path && recording_of(
            video_root,
            file,
        )->0.timestamp == relpath_start(relpath)->0 && recording_of(video_root, file)->0.duration
            == relpath_value(relpath, relpath_start(relpath))->0.duration,
{
}

/// One more file adds its recording, where it is one, behind the others, and one more recording is
/// within a range where it starts neither before nor after it.
pub proof fn law_one_more_file(
    video_root: Seq<char>,
    files: Seq<FoundFileModel>,
    file: FoundFileModel,
    rs: Seq<RecordingModel>,
    r: RecordingModel,
    min: Timestamp,
    max: Timestamp,
)
    ensures
        all_recordings(video_root, Seq::<FoundFileModel>::empty()) == Seq::<RecordingModel>::empty(),
        all_recordings(video_root, files.push(file)) == (match recording_of(video_root, file) {
            Some(x) => all_recordings(video_root, files).push(x),
            None => all_recordings(video_root, files),
        }),
        within(Seq::<RecordingModel>::empty(), min, max) == Seq::<RecordingModel>::empty(),
        within(rs.push(r), min, max) == if min.le(r.timestamp) && r.timestamp.le(max) {
            within(rs, min, max).push(r)
        } else {
            within(rs, min, max)
        },
{
    reveal(Seq::filter);
    assert(files.push(file).drop_last() =~= files);
    assert(rs.push(r).drop_last() =~= rs);
}

/// Recordings that were put in order are all of those that there were, none more often than
/// before, and none of them starts before the one in front of it. Those that start together keep
/// the order that they had: the one in front was in front.
pub proof fn law_sorting_keeps_all_and_their_order(
    before: Seq<RecordingModel>,
    after: Seq<RecordingModel>,
    r: RecordingModel,
    t: Timestamp,
    i: int,
    j: int,
)
    requires
        stably_sorted(before, after),
    ensures
        after.len() == before.len(),
        after.to_multiset().count(r) == before.to_multiset().count(r),
        0 <= i < j < after.len() ==> after[i].timestamp.le(after[j].timestamp),
        after.filter(|x: RecordingModel| x.timestamp == t) == before.filter(
            |x: RecordingModel| x.timestamp == t,
        ),
{
    broadcast use vstd::seq_lib::group_to_multiset_ensures;

    assert(after.to_multiset().len() == before.to_multiset().len());
    assert(starting_at(after, t) == starting_at(before, t));
}

/// Lists of recordings and files stand for their values, one by one.
pub proof fn law_lists_stand_for_their_values(rs: Seq<Recording>, files: Seq<FoundFile>, k: int)
    ensures
        models(rs).len() == rs.len(),
        0 <= k < rs.len() ==> models(rs)[k].path == rs[k].path@ && models(rs)[k].timestamp
            == rs[k].timestamp && models(rs)[k].duration == rs[k].duration,
        file_models(files).len() == files.len(),
        0 <= k < files.len() ==> file_models(files)[k].path == files[k].path@
            && file_models(files)[k].is_file == files[k].is_file,
{
}

} // verus!
