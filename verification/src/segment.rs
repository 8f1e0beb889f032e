//! Segments that are asked for by the entries of a playlist: which recording they are cut
//! from, and how the encoder is called to make them.

use crate::path;
use crate::playlist;
use crate::recordings;
use crate::text;
use crate::time;
use crate::time::Timestamp;
use vstd::prelude::*;
use vstd::string::*;

verus! {

/// A segment that starts later than this many milliseconds is moved by an offset to its
/// timestamps.
pub const LARGE_START_MS: i64 = 10_000;

/// The parts of the name of a segment that are still to be read.
#[derive(Clone, Debug)]
pub struct SegmentParts {
    pub stem: String,
    pub duration: Option<i64>,
    pub start_ms: Option<i64>,
}

/// What the name of a segment says: the start of the recording as it is written, its length,
/// where the segment starts within the playlist, and the start of the recording.
#[derive(Clone, Debug)]
pub struct SegmentRequest {
    pub stem: String,
    pub duration: i64,
    pub start_ms: i64,
    pub timestamp: Timestamp,
}

/// What the name of a segment says, as a value.
pub struct SegmentModel {
    pub stem: Seq<char>,
    pub duration: int,
    pub start_ms: int,
    pub timestamp: Timestamp,
}

impl View for SegmentRequest {
    type V = SegmentModel;

    open spec fn view(&self) -> SegmentModel {
        SegmentModel {
            stem: self.stem@,
            duration: self.duration as int,
            start_ms: self.start_ms as int,
            timestamp: self.timestamp,
        }
    }
}

/// The length of the recording that the name of a segment gives.
pub open spec fn segment_duration(name: Seq<char>) -> Option<i64> {
    let parts = text::split(name, '_');
    if parts.len() < 2 {
        None
    } else {
        text::i64_value(parts[1])
    }
}

/// The start within the playlist that the name of a segment gives.
pub open spec fn segment_start(name: Seq<char>) -> Option<i64> {
    let parts = text::split(name, '_');
    if parts.len() < 3 {
        None
    } else {
        text::i64_value(text::split(parts[2], '.')[0])
    }
}

/// What the name of a segment says, given the time that it starts with.
pub open spec fn segment_value(name: Seq<char>, timestamp: Option<Timestamp>) -> Option<
    SegmentModel,
> {
    match (segment_duration(name), segment_start(name), timestamp) {
        (Some(duration), Some(start_ms), Some(timestamp)) => Some(
            SegmentModel {
                stem: recordings::stamp_part(name),
                duration: duration as int,
                start_ms: start_ms as int,
                timestamp,
            },
        ),
        _ => None,
    }
}

/// The time that the name of a segment starts with.
pub open spec fn segment_timestamp(name: Seq<char>) -> Option<Timestamp> {
    time::from_pair(time::parsed_time(recordings::stamp_part(name), time::STAMP_FORMAT@))
}

/// What may have been read, as a value.
pub open spec fn segment_model(r: Result<SegmentRequest, String>) -> Option<SegmentModel> {
    match r {
        Ok(x) => Some(x@),
        Err(_) => None,
    }
}

/// What is said of a name that is not that of a segment.
pub open spec fn unreadable(name: Seq<char>) -> Seq<char> {
    "Unable to parse file name "@ + name
}

/// The name of the recording from which a segment is made.
pub open spec fn mp4_name(stem: Seq<char>, duration: int) -> Seq<char> {
    stem + "_"@ + text::signed_decimal(duration) + ".mp4"@
}

/// The file of the recording from which a segment is made.
pub open spec fn source_path(
    video_root: Seq<char>,
    container: Seq<char>,
    resolution: Seq<char>,
    segment: SegmentModel,
) -> Seq<char> {
    path::joined_all(
        video_root,
        recordings::recorded_dirs(container, resolution, segment.timestamp).push(
            mp4_name(segment.stem, segment.duration),
        ),
    )
}

/// Takes the name of a segment apart.
pub fn segment_parts(name: &str) -> (r: SegmentParts)
    ensures
        r.stem@ == recordings::stamp_part(name@),
        r.duration == segment_duration(name@),
        r.start_ms == segment_start(name@),
{
    let parts = text::split_on(name, '_');
    assert(text::texts(parts@).len() == parts@.len());
    assert(text::texts(parts@)[0] == parts@[0]@);
    let duration = if parts.len() < 2 {
        None
    } else {
        assert(text::texts(parts@)[1] == parts@[1]@);
        text::parse_i64(parts[1].as_str())
    };
    let start_ms = if parts.len() < 3 {
        None
    } else {
        assert(text::texts(parts@)[2] == parts@[2]@);
        let number = text::split_on(parts[2].as_str(), '.');
        assert(text::texts(number@)[0] == number@[0]@);
        text::parse_i64(number[0].as_str())
    };
    SegmentParts { stem: parts[0].clone(), duration, start_ms }
}

/// What the name of a segment says, once the time in it has been read.
pub fn segment_from(name: &str, parts: SegmentParts, timestamp: Option<Timestamp>) -> (r: Result<
    SegmentRequest,
    String,
>)
    ensures
        r is Ok <==> parts.duration is Some && parts.start_ms is Some && timestamp is Some,
        r matches Ok(x) ==> x.stem == parts.stem && Some(x.duration) == parts.duration && Some(
            x.start_ms,
        ) == parts.start_ms && Some(x.timestamp) == timestamp,
        r matches Err(msg) ==> msg@ == "Unable to parse file name "@ + name@,
        r matches Err(msg) ==> msg@ == unreadable(name@),
{
    match (parts.duration, parts.start_ms, timestamp) {
        (Some(duration), Some(start_ms), Some(timestamp)) => Ok(
            SegmentRequest { stem: parts.stem, duration, start_ms, timestamp },
        ),
        _ => Err(text::concat("Unable to parse file name ", name)),
    }
}

/// Reads the name of a segment. The entry that a playlist has for a recorded file is read as
/// that recording, its start to the millisecond.
pub fn parse_segment(name: &str) -> (r: Result<SegmentRequest, String>)
    ensures
        segment_model(r) == segment_value(name@, segment_timestamp(name@)),
        r is Ok <==> segment_value(name@, segment_timestamp(name@)) is Some,
        r matches Ok(x) ==> (segment_value(name@, segment_timestamp(name@)) matches Some(v)
            && x.stem@ == v.stem && x.duration == v.duration && x.start_ms == v.start_ms
            && x.timestamp == v.timestamp),
        r matches Ok(x) ==> x.timestamp.wf(),
        r matches Err(msg) ==> msg@ == "Unable to parse file name "@ + name@,
        r matches Err(msg) ==> msg@ == unreadable(name@),
        forall|t: Timestamp, ms: i64, start: i64|
            #![trigger playlist::entry_name(recordings::recorded_name(t, ms as int), start as int)]
            t.wf() && 0 <= t.secs < time::TWO_DIGIT_YEARS_END && name@ == playlist::entry_name(
                recordings::recorded_name(t, ms as int),
                start as int,
            ) ==> segment_model(r) == Some(
                SegmentModel {
                    stem: time::stamp_text(t),
                    duration: ms as int,
                    start_ms: start as int,
                    timestamp: t.whole_millis(),
                },
            ),
{
    let parts = segment_parts(name);
    let timestamp = time::chrono_parse(parts.stem.as_str(), time::STAMP_FORMAT);
    assert(time::from_pair(time::as_pair(timestamp)) == timestamp);
    proof {
        assert forall|t: Timestamp, ms: i64, start: i64|
            #![trigger playlist::entry_name(recordings::recorded_name(t, ms as int), start as int)]
            t.wf() && 0 <= t.secs < time::TWO_DIGIT_YEARS_END && name@ == playlist::entry_name(
                recordings::recorded_name(t, ms as int),
                start as int,
            ) implies segment_value(name@, timestamp) == Some(
            SegmentModel {
                stem: time::stamp_text(t),
                duration: ms as int,
                start_ms: start as int,
                timestamp: t.whole_millis(),
            },
        ) by {
            lemma_entry_parts(t, ms, start);
        }
    }
    segment_from(name, parts, timestamp)
}

/// The entry of a recorded file splits into the parts that it was made of.
proof fn lemma_entry_parts(t: Timestamp, ms: i64, start: i64)
    ensures
        ({
            let name = playlist::entry_name(recordings::recorded_name(t, ms as int), start as int);
            &&& recordings::stamp_part(name) == time::stamp_text(t)
            &&& segment_duration(name) == Some(ms)
            &&& segment_start(name) == Some(start)
        }),
{
    let name = playlist::entry_name(recordings::recorded_name(t, ms as int), start as int);
    let stamp = time::stamp_text(t);
    let length = text::signed_decimal(ms as int);
    let number = text::signed_decimal(start as int);
    let tail = number + ".ts"@;
    playlist::lemma_recorded_entry(t, ms, start as int);
    reveal_strlit("_");
    reveal_strlit(".ts");
    assert("_"@ =~= seq!['_']);
    assert(".ts"@ =~= seq!['.', 't', 's']);
    time::lemma_stamp_lacks(t, '_');
    recordings::lemma_number_lacks(ms as int, '_');
    recordings::lemma_number_lacks(start as int, '_');
    recordings::lemma_number_lacks(start as int, '.');
    text::lemma_lacks_concat(number, ".ts"@, '_');
    assert(name =~= stamp + seq!['_'] + (length + seq!['_'] + tail));
    text::lemma_split_concat(stamp, '_', length + seq!['_'] + tail);
    text::lemma_split_concat(length, '_', tail);
    text::lemma_split_whole(stamp, '_');
    text::lemma_split_whole(length, '_');
    text::lemma_split_whole(tail, '_');
    assert(text::split(name, '_') =~= seq![stamp, length, tail]);
    assert(tail =~= number + seq!['.'] + seq!['t', 's']);
    text::lemma_split_concat(number, '.', seq!['t', 's']);
    text::lemma_split_whole(number, '.');
    text::lemma_signed_decimal(ms);
    text::lemma_signed_decimal(start);
}

/// The segment that the entry of a recorded file asks for is made from that file.
pub proof fn law_entry_leads_to_its_recording(
    video_root: Seq<char>,
    container: Seq<char>,
    resolution: Seq<char>,
    t: Timestamp,
    ms: i64,
    start: int,
)
    requires
        t.wf(),
    ensures
        source_path(
            video_root,
            container,
            resolution,
            SegmentModel {
                stem: time::stamp_text(t),
                duration: ms as int,
                start_ms: start,
                timestamp: t.whole_millis(),
            },
        ) == recordings::recorded_file(video_root, container, resolution, t, ms as int).path,
{
    reveal_strlit("_");
    reveal_strlit(".mp4");
    assert("_"@ =~= seq!['_']);
    assert(".mp4"@ =~= seq!['.', 'm', 'p', '4']);
    assert(mp4_name(time::stamp_text(t), ms as int) =~= recordings::recorded_name(t, ms as int));
}

/// Writes the name of the recording from which a segment is made.
pub fn source_name(segment: &SegmentRequest) -> (r: String)
    ensures
        r@ == segment.stem@ + "_"@ + text::signed_decimal(segment.duration as int) + ".mp4"@,
        r@ == mp4_name(segment@.stem, segment@.duration),
{
    let mut r = segment.stem.clone();
    r.append("_");
    r.append(text::signed_text(segment.duration).as_str());
    r.append(".mp4");
    r
}

/// The file of the recording from which a segment is made.
pub fn source_file(
    video_root: &str,
    container: &str,
    resolution: &str,
    segment: &SegmentRequest,
) -> (r: String)
    requires
        segment.timestamp.wf(),
    ensures
        r@ == source_path(video_root@, container@, resolution@, segment@),
{
    let dir = recordings::recording_dir(video_root, container, resolution, &segment.timestamp);
    let name = source_name(segment);
    proof {
        let dirs = recordings::recorded_dirs(container@, resolution@, segment.timestamp);
        assert(dirs.push(name@).drop_last() =~= dirs);
    }
    path::join(dir.as_str(), name.as_str())
}

/// What it takes to make a segment: the copy of the recording in the cache, the recording
/// itself, and where the segment starts within the playlist.
#[derive(Clone, Debug)]
pub struct SegmentPlan {
    pub mp4_path: String,
    pub source_path: String,
    pub start_ms: i64,
}

/// A plan as a value.
pub struct PlanModel {
    pub mp4_path: Seq<char>,
    pub source_path: Seq<char>,
    pub start_ms: int,
}

impl View for SegmentPlan {
    type V = PlanModel;

    open spec fn view(&self) -> PlanModel {
        PlanModel {
            mp4_path: self.mp4_path@,
            source_path: self.source_path@,
            start_ms: self.start_ms as int,
        }
    }
}

/// What it takes to make a segment in a directory of the cache.
pub open spec fn plan_of(
    video_root: Seq<char>,
    container: Seq<char>,
    resolution: Seq<char>,
    dir: Seq<char>,
    segment: SegmentModel,
) -> PlanModel {
    PlanModel {
        mp4_path: path::joined_path(dir, mp4_name(segment.stem, segment.duration)),
        source_path: source_path(video_root, container, resolution, segment),
        start_ms: segment.start_ms,
    }
}

/// Finds out what it takes to make a segment whose name has been read.
pub fn plan_segment(
    video_root: &str,
    container: &str,
    resolution: &str,
    dir: &str,
    segment: &SegmentRequest,
) -> (r: SegmentPlan)
    requires
        segment.timestamp.wf(),
    ensures
        r@ == plan_of(video_root@, container@, resolution@, dir@, segment@),
        r.mp4_path@ == path::joined_path(
            dir@,
            segment.stem@ + "_"@ + text::signed_decimal(segment.duration as int) + ".mp4"@,
        ),
        r.source_path@ == source_path(video_root@, container@, resolution@, segment@),
        r.start_ms == segment.start_ms,
{
    SegmentPlan {
        mp4_path: path::join(dir, source_name(segment).as_str()),
        source_path: source_file(video_root, container, resolution, segment),
        start_ms: segment.start_ms,
    }
}

/// Finds out what it takes to make a requested segment. Where the entry that a playlist has
/// for a recorded file is requested, that file is the recording it is made from.
pub fn create_ts(
    video_root: &str,
    container: &str,
    resolution: &str,
    request: &str,
    out_path: &str,
) -> (r: Result<SegmentPlan, String>)
    requires
        path::parent_of(out_path@) is Some,
    ensures
        r is Ok <==> segment_value(request@, segment_timestamp(request@)) is Some,
        r matches Ok(plan) ==> plan@ == plan_of(
            video_root@,
            container@,
            resolution@,
            path::parent_of(out_path@)->0,
            segment_value(request@, segment_timestamp(request@))->0,
        ),
        r matches Ok(plan) ==> (segment_value(request@, segment_timestamp(request@)) matches Some(v)
            && plan.mp4_path@ == path::joined_path(
            path::parent_of(out_path@)->0,
            v.stem + "_"@ + text::signed_decimal(v.duration) + ".mp4"@,
        ) && plan.source_path@ == source_path(video_root@, container@, resolution@, v)
            && plan.start_ms == v.start_ms),
        r matches Err(msg) ==> msg@ == "Unable to parse file name "@ + request@,
        r matches Err(msg) ==> msg@ == unreadable(request@),
        forall|t: Timestamp, ms: i64, start: i64|
            #![trigger playlist::entry_name(recordings::recorded_name(t, ms as int), start as int)]
            t.wf() && 0 <= t.secs < time::TWO_DIGIT_YEARS_END && request@ == playlist::entry_name(
                recordings::recorded_name(t, ms as int),
                start as int,
            ) ==> (r matches Ok(plan) && plan.source_path@ == recordings::recorded_file(
                video_root@,
                container@,
                resolution@,
                t,
                ms as int,
            ).path && plan.start_ms == start),
{
    let dir = match path::parent(out_path) {
        Some(dir) => dir,
        None => String::new(),
    };
    match parse_segment(request) {
        Ok(segment) => {
            proof {
                assert forall|t: Timestamp, ms: i64, start: i64|
                    #![trigger playlist::entry_name(recordings::recorded_name(t, ms as int), start as int)]
                    t.wf() && 0 <= t.secs < time::TWO_DIGIT_YEARS_END && request@
                        == playlist::entry_name(
                        recordings::recorded_name(t, ms as int),
                        start as int,
                    ) implies source_path(video_root@, container@, resolution@, segment@)
                    == recordings::recorded_file(
                    video_root@,
                    container@,
                    resolution@,
                    t,
                    ms as int,
                ).path && segment.start_ms == start by {
                    law_entry_leads_to_its_recording(
                        video_root@,
                        container@,
                        resolution@,
                        t,
                        ms,
                        start as int,
                    );
                }
            }
            Ok(plan_segment(video_root, container, resolution, dir.as_str(), &segment))
        },
        Err(msg) => Err(msg),
    }
}

/// How the start of a segment is handed to the encoder.
#[derive(Clone, Copy, PartialEq, Eq, Structural, Debug)]
pub enum StartMode {
    /// As an offset to the timestamps, less what the encoder adds.
    Offset,
    /// As a delay of the multiplexer, of which the encoder makes twice as much.
    Delay,
}

/// Integer division that cuts towards zero.
pub open spec fn quotient(a: int, b: int) -> int {
    if a >= 0 {
        a / b
    } else {
        -((-a) / b)
    }
}

/// What integer division that cuts towards zero leaves.
pub open spec fn remainder(a: int, b: int) -> int {
    a - b * quotient(a, b)
}

/// Milliseconds as hours, minutes and seconds, each with the sign of the whole.
pub open spec fn clock_text(ms: int) -> Seq<char> {
    let s = quotient(ms, 1000);
    text::signed_padded(quotient(s, 3600), 2) + ":"@ + text::signed_padded(
        remainder(quotient(s, 60), 60),
        2,
    ) + ":"@ + text::signed_padded(remainder(s, 60), 2)
}

/// The arguments that say where a segment starts.
pub open spec fn start_args(mode: StartMode, value: Seq<char>) -> Seq<Seq<char>> {
    match mode {
        StartMode::Offset => seq!["-output_ts_offset"@, value],
        StartMode::Delay => seq!["-muxdelay"@, value, "-muxpreload"@, value],
    }
}

/// The arguments of the encoder that turns a recording into a segment.
pub open spec fn encoder_args(
    input: Seq<char>,
    output: Seq<char>,
    offset_ms: int,
    mode: StartMode,
    value: Seq<char>,
) -> Seq<Seq<char>> {
    seq![
        "-hide_banner"@,
        "-loglevel"@,
        "info"@,
        "-i"@,
        input,
        "-ss"@,
        clock_text(offset_ms),
        "-y"@,
        "-codec"@,
        "copy"@,
    ] + start_args(mode, value) + seq![output]
}

/// The arguments of the encoder that checks whether a recording can be read.
pub open spec fn probe_args(input: Seq<char>) -> Seq<Seq<char>> {
    seq!["-i"@, input, "-c"@, "copy"@, "-f"@, "null"@, "/dev/null"@]
}

/// Chooses how the start of a segment is handed to the encoder.
pub fn start_mode(start_ms: i64) -> (r: StartMode)
    ensures
        r == if start_ms > LARGE_START_MS {
            StartMode::Offset
        } else {
            StartMode::Delay
        },
        r == StartMode::Offset <==> start_ms > 10_000,
{
    if start_ms > LARGE_START_MS {
        StartMode::Offset
    } else {
        StartMode::Delay
    }
}

/// Divides, cutting towards zero.
fn divide(a: i64, b: i64) -> (r: i64)
    requires
        b > 1,
    ensures
        r == quotient(a as int, b as int),
        a >= 0 ==> 0 <= r <= a,
        a < 0 ==> a <= r <= 0,
{
    let magnitude: i128 = if a >= 0 {
        a as i128
    } else {
        -(a as i128)
    };
    let q = magnitude / (b as i128);
    assert(0 <= q <= magnitude) by (nonlinear_arith)
        requires
            b > 1,
            magnitude >= 0,
            q == magnitude / (b as i128),
    ;
    if a >= 0 {
        q as i64
    } else {
        (-q) as i64
    }
}

/// What is left when dividing by sixty, cutting towards zero.
fn rest_of_sixty(a: i64) -> (r: i64)
    ensures
        r == remainder(a as int, 60),
{
    let q = divide(a, 60);
    (a as i128 - 60 * (q as i128)) as i64
}

/// Writes milliseconds as hours, minutes and seconds.
pub fn clock(ms: i64) -> (r: String)
    ensures
        r@ == clock_text(ms as int),
{
    let s = divide(ms, 1000);
    let mut r = text::signed_padded_text(divide(s, 3600), 2);
    r.append(":");
    r.append(text::signed_padded_text(rest_of_sixty(divide(s, 60)), 2).as_str());
    r.append(":");
    r.append(text::signed_padded_text(rest_of_sixty(s), 2).as_str());
    r
}

/// The arguments of the encoder that turns a recording into a segment.
pub fn mp4_to_ts_args(
    input: &str,
    output: &str,
    offset_ms: i64,
    mode: StartMode,
    value: &str,
) -> (r: Vec<String>)
    ensures
        text::texts(r@) == encoder_args(input@, output@, offset_ms as int, mode, value@),
        r@[0]@ == "-hide_banner"@ && r@[1]@ == "-loglevel"@ && r@[2]@ == "info"@,
        r@[3]@ == "-i"@ && r@[4]@ == input@ && r@[5]@ == "-ss"@,
        r@[6]@ == clock_text(offset_ms as int),
        r@[7]@ == "-y"@ && r@[8]@ == "-codec"@ && r@[9]@ == "copy"@,
        mode == StartMode::Offset ==> r@.len() == 13 && r@[10]@ == "-output_ts_offset"@ && r@[11]@
            == value@ && r@[12]@ == output@,
        mode == StartMode::Delay ==> r@.len() == 15 && r@[10]@ == "-muxdelay"@ && r@[11]@ == value@
            && r@[12]@ == "-muxpreload"@ && r@[13]@ == value@ && r@[14]@ == output@,
{
    let mut args: Vec<String> = Vec::new();
    text::push_text(&mut args, "-hide_banner");
    text::push_text(&mut args, "-loglevel");
    text::push_text(&mut args, "info");
    text::push_text(&mut args, "-i");
    text::push_text(&mut args, input);
    text::push_text(&mut args, "-ss");
    text::push_text(&mut args, clock(offset_ms).as_str());
    text::push_text(&mut args, "-y");
    text::push_text(&mut args, "-codec");
    text::push_text(&mut args, "copy");
    match mode {
        StartMode::Offset => {
            text::push_text(&mut args, "-output_ts_offset");
            text::push_text(&mut args, value);
        },
        StartMode::Delay => {
            text::push_text(&mut args, "-muxdelay");
            text::push_text(&mut args, value);
            text::push_text(&mut args, "-muxpreload");
            text::push_text(&mut args, value);
        },
    }
    text::push_text(&mut args, output);
    assert(text::texts(args@) =~= encoder_args(input@, output@, offset_ms as int, mode, value@));
    proof {
        law_arguments_of_the_encoder(input@, output@, offset_ms as int, mode, value@);
        assert forall|k: int| 0 <= k < args@.len() implies (#[trigger] args@[k])@ == encoder_args(
            input@,
            output@,
            offset_ms as int,
            mode,
            value@,
        )[k] by {
            text::law_texts(args@, k);
        }
    }
    args
}

/// The arguments of the encoder that checks whether a recording can be read.
pub fn video_file_is_good_args(input: &str) -> (r: Vec<String>)
    ensures
        text::texts(r@) == probe_args(input@),
        r@.len() == 7,
        r@[0]@ == "-i"@ && r@[1]@ == input@ && r@[2]@ == "-c"@ && r@[3]@ == "copy"@,
        r@[4]@ == "-f"@ && r@[5]@ == "null"@ && r@[6]@ == "/dev/null"@,
{
    let mut args: Vec<String> = Vec::new();
    text::push_text(&mut args, "-i");
    text::push_text(&mut args, input);
    text::push_text(&mut args, "-c");
    text::push_text(&mut args, "copy");
    text::push_text(&mut args, "-f");
    text::push_text(&mut args, "null");
    text::push_text(&mut args, "/dev/null");
    assert(text::texts(args@) =~= probe_args(input@));
    assert forall|k: int| 0 <= k < 7 implies (#[trigger] args@[k])@ == probe_args(input@)[k] by {
        assert(text::texts(args@)[k] == args@[k]@);
    }
    args
}

/// The encoder is handed the input, the place in it and the output, and before the output where
/// the segment starts: as an offset, or as the delay of the multiplexer, which is given twice.
/// That holds of every value that is handed over.
pub proof fn law_arguments_of_the_encoder(
    input: Seq<char>,
    output: Seq<char>,
    offset_ms: int,
    mode: StartMode,
    value: Seq<char>,
)
    ensures
        ({
            let args = encoder_args(input, output, offset_ms, mode, value);
            &&& args[0] == "-hide_banner"@ && args[1] == "-loglevel"@ && args[2] == "info"@
            &&& args[3] == "-i"@ && args[4] == input
            &&& args[5] == "-ss"@ && args[6] == clock_text(offset_ms)
            &&& args[7] == "-y"@ && args[8] == "-codec"@ && args[9] == "copy"@
            &&& mode == StartMode::Offset ==> args.len() == 13 && args[10] == "-output_ts_offset"@
                && args[11] == value && args[12] == output
            &&& mode == StartMode::Delay ==> args.len() == 15 && args[10] == "-muxdelay"@
                && args[11] == value && args[12] == "-muxpreload"@ && args[13] == value && args[14]
                == output
        }),
{
}

/// A time is written as hours, minutes and seconds between colons, each with at least two
/// characters, and read together they are the whole seconds of the time.
pub proof fn law_clock_says_the_time(ms: int)
    requires
        -0x8000_0000_0000_0000 <= ms <= 0x7fff_ffff_ffff_ffff,
    ensures
        ({
            let parts = text::split(clock_text(ms), ':');
            let h = text::i64_value(parts[0]);
            let m = text::i64_value(parts[1]);
            let s = text::i64_value(parts[2]);
            &&& parts.len() == 3
            &&& parts[0].len() >= 2 && parts[1].len() >= 2 && parts[2].len() >= 2
            &&& ms >= 0 ==> parts[1].len() == 2 && parts[2].len() == 2
            &&& h is Some && m is Some && s is Some
            &&& parts[0] == text::signed_padded(h->0 as int, 2)
            &&& parts[1] == text::signed_padded(m->0 as int, 2)
            &&& parts[2] == text::signed_padded(s->0 as int, 2)
            &&& -60 < m->0 < 60 && -60 < s->0 < 60
            &&& ms >= 0 ==> h->0 >= 0 && m->0 >= 0 && s->0 >= 0 && h->0 * 3600 + m->0 * 60 + s->0
                == ms / 1000
            &&& ms < 0 ==> h->0 <= 0 && m->0 <= 0 && s->0 <= 0 && h->0 * 3600 + m->0 * 60 + s->0
                == -((-ms) / 1000)
        }),
{
    let s = quotient(ms, 1000);
    let hours = quotient(s, 3600);
    let minutes = remainder(quotient(s, 60), 60);
    let seconds = remainder(s, 60);
    let a = text::signed_padded(hours, 2);
    let b = text::signed_padded(minutes, 2);
    let c = text::signed_padded(seconds, 2);
    reveal_strlit(":");
    assert(":"@ =~= seq![':']);
    lemma_signed_padded(hours);
    lemma_signed_padded(minutes);
    lemma_signed_padded(seconds);
    assert(clock_text(ms) =~= a + seq![':'] + (b + seq![':'] + c));
    text::lemma_split_concat(a, ':', b + seq![':'] + c);
    text::lemma_split_concat(b, ':', c);
    text::lemma_split_whole(a, ':');
    text::lemma_split_whole(b, ':');
    text::lemma_split_whole(c, ':');
    assert(text::split(clock_text(ms), ':') =~= seq![a, b, c]);
}

/// An integer of at least two characters holds no colon and is read as the integer.
proof fn lemma_signed_padded(i: int)
    requires
        -0x8000_0000_0000_0000 <= i <= 0x7fff_ffff_ffff_ffff,
    ensures
        text::lacks(text::signed_padded(i, 2), ':'),
        text::signed_padded(i, 2).len() >= 2,
        -10 < i < 100 ==> text::signed_padded(i, 2).len() == 2,
        text::i64_value(text::signed_padded(i, 2)) == Some(i as i64),
{
    let n = if i < 0 {
        (-i) as nat
    } else {
        i as nat
    };
    let width: nat = if i < 0 {
        1
    } else {
        2
    };
    let digits = text::padded(n, width);
    text::lemma_padded(n, width);
    text::lemma_padded_width(n);
    text::lemma_digits_lack(digits, ':');
    text::law_padding_keeps_the_number(n, width);
    text::law_digits_are_read(digits);
    if i < 0 {
        text::lemma_lacks_concat(seq!['-'], digits, ':');
    }
    reveal_with_fuel(text::decimal, 2);
}

/// What the name of a segment says stands between its underscores: the recording first, then its
/// length, then the start, up to a dot. A name with fewer parts, without numbers there, or
/// without a time in front says nothing.
pub proof fn law_segment_name_is_read_part_by_part(name: Seq<char>, timestamp: Option<Timestamp>)
    ensures
        ({
            let parts = text::split(name, '_');
            let r = segment_value(name, timestamp);
            &&& r is Some <==> timestamp is Some && parts.len() >= 3 && text::i64_value(
                parts[1],
            ) is Some && text::i64_value(text::split(parts[2], '.')[0]) is Some
            &&& r matches Some(x) ==> x.stem == parts[0] && x.duration == text::i64_value(
                parts[1],
            )->0 && x.start_ms == text::i64_value(text::split(parts[2], '.')[0])->0 && Some(
                x.timestamp,
            ) == timestamp
        }),
{
}

/// The time that a segment is read with is the one that chrono reads from the part before the
/// first underscore.
pub proof fn law_segment_time_is_its_first_part(name: Seq<char>)
    ensures
        segment_timestamp(name) == time::from_pair(
            time::parsed_time(text::split(name, '_')[0], time::STAMP_FORMAT@),
        ),
{
}

/// The recording of a segment lies under the video root in the directories of camera, resolution,
/// year, month, day and hour of the time in the name of the segment, and is named by the first
/// part of that name and the length.
pub proof fn law_place_of_the_recording(
    video_root: Seq<char>,
    container: Seq<char>,
    resolution: Seq<char>,
    dir: Seq<char>,
    segment: SegmentModel,
)
    ensures
        ({
            let date = time::calendar_date(segment.timestamp.secs as int / 86_400);
            let hour = segment.timestamp.secs as int % 86_400 / 3600;
            let name = segment.stem + "_"@ + text::signed_decimal(segment.duration) + ".mp4"@;
            &&& source_path(video_root, container, resolution, segment) == path::joined_all(
                video_root,
                seq![
                    container,
                    resolution,
                    text::signed_decimal(date.0),
                    text::padded(date.1 as nat, 2),
                    text::padded(date.2 as nat, 2),
                    text::padded(hour as nat, 2),
                    name,
                ],
            )
            &&& plan_of(video_root, container, resolution, dir, segment).mp4_path
                == path::joined_path(dir, name)
            &&& plan_of(video_root, container, resolution, dir, segment).source_path == source_path(
                video_root,
                container,
                resolution,
                segment,
            )
            &&& plan_of(video_root, container, resolution, dir, segment).start_ms
                == segment.start_ms
        }),
{
    let date = time::calendar_date(segment.timestamp.secs as int / 86_400);
    let hour = segment.timestamp.secs as int % 86_400 / 3600;
    let name = segment.stem + "_"@ + text::signed_decimal(segment.duration) + ".mp4"@;
    assert(recordings::recorded_dirs(container, resolution, segment.timestamp).push(name) =~= seq![
        container,
        resolution,
        text::signed_decimal(date.0),
        text::padded(date.1 as nat, 2),
        text::padded(date.2 as nat, 2),
        text::padded(hour as nat, 2),
        name,
    ]);
}

/// The entry of a recorded file in the text of a playlist is read as that recording, with its
/// length, and with what all the recordings before it last together as its start.
pub proof fn law_lines_of_a_playlist_say_their_starts(
    files: Seq<playlist::ItemModel>,
    lengths: Seq<Seq<char>>,
    starts: Seq<int>,
    k: int,
    t: Timestamp,
    ms: i64,
)
    requires
        lengths.len() == files.len(),
        starts.len() == files.len() + 1,
        starts[0] == 0,
        forall|j: int|
            0 <= j < files.len() ==> starts[j + 1] == starts[j] + (#[trigger] files[j]).duration,
        forall|j: int| 0 <= j < files.len() ==> text::lacks((#[trigger] files[j]).relpath, '\n'),
        forall|j: int| 0 <= j < lengths.len() ==> text::lacks(#[trigger] lengths[j], '\n'),
        0 <= k < files.len(),
        files[k].relpath == time::stamp_text(t) + "_"@ + text::signed_decimal(ms as int) + ".mp4"@,
        -0x8000_0000_0000_0000 <= starts[k] <= 0x7fff_ffff_ffff_ffff,
    ensures
        ({
            let line = text::split(playlist::playlist_text(files, lengths), '\n')[2 * k + 4];
            let parts = text::split(line, '_');
            &&& parts[0] == time::stamp_text(t)
            &&& text::i64_value(parts[1]) == Some(ms)
            &&& text::i64_value(text::split(parts[2], '.')[0]) == Some(starts[k] as i64)
            &&& segment_value(line, Some(t)) == Some(
                SegmentModel {
                    stem: time::stamp_text(t),
                    duration: ms as int,
                    start_ms: starts[k],
                    timestamp: t,
                },
            )
        }),
{
    reveal_strlit("_");
    reveal_strlit(".mp4");
    assert("_"@ =~= seq!['_']);
    assert(".mp4"@ =~= seq!['.', 'm', 'p', '4']);
    assert(files[k].relpath =~= recordings::recorded_name(t, ms as int));
    playlist::law_lines_of_a_playlist(files, lengths, starts, k);
    lemma_entry_parts(t, ms, starts[k] as i64);
    let line = text::split(playlist::playlist_text(files, lengths), '\n')[2 * k + 4];
    assert(line == playlist::entry_name(recordings::recorded_name(t, ms as int), starts[k]));
}

} // verus!
