//! The description of the pipeline that captures, encodes and records a source.

use crate::model::{ClockParams, SourceConfig, StreamCompressionParams, StreamProfile};
use crate::name_map::Entry;
use crate::path;
use crate::recordings;
use crate::text;
use crate::time::Timestamp;
use vstd::prelude::*;
use vstd::string::*;

verus! {

/// Whether a source can be captured: the test picture, or a stream over HTTP.
pub open spec fn is_known_source(source: Seq<char>) -> bool {
    source == "test"@ || "http:"@.is_prefix_of(source)
}

/// The elements that produce the decoded pictures of a source.
pub open spec fn source_elements(source: Seq<char>) -> Seq<char> {
    if source == "test"@ {
        "videotestsrc"@
    } else {
        "souphttpsrc location=\""@ + source
            + "\" is-live=true do-timestamp=true ! multipartdemux ! image/jpeg ! jpegdec"@
    }
}

/// The element that brings the pictures to the rate and size of the profile.
pub open spec fn rate_element(profile: StreamProfile) -> Seq<char> {
    " ! videorate ! video/x-raw,framerate="@ + profile.framerate@ + ",width="@ + text::decimal(
        profile.width as nat,
    ) + ",height="@ + text::decimal(profile.height as nat)
}

/// The element that lays the clock over the picture, with the name of the source put in.
pub open spec fn clock_element(clock: Option<ClockParams>, name: Seq<char>) -> Seq<char> {
    match clock {
        Some(c) => " ! clockoverlay halignment="@ + c.halignment@ + " valignment="@ + c.valignment@
            + " shaded-background=true font-desc=\""@ + c.font@ + "\" time-format=\""@
            + text::replaced(c.format@, "${name}"@, name) + "\""@,
        None => Seq::<char>::empty(),
    }
}

/// The name of the element that records an encoding.
pub open spec fn recorder_name(encoding: Seq<char>) -> Seq<char> {
    "rec_"@ + encoding
}

/// The name of the element that hands out the frames of an encoding.
pub open spec fn sink_name(encoding: Seq<char>) -> Seq<char> {
    "app_"@ + encoding
}

/// The elements that scale and encode.
pub open spec fn encoder_elements(prm: StreamCompressionParams) -> Seq<char> {
    " decoded. ! queue"@ + " ! videoscale ! video/x-raw,width="@ + text::decimal(prm.width as nat)
        + ",height="@ + text::decimal(prm.height as nat) + " ! x264enc bframes=0 bitrate="@
        + text::decimal(prm.bitrate as nat) + " speed-preset="@ + prm.preset@ + " tune="@
        + prm.tune@ + " key-int-max="@ + text::decimal(prm.keyint as nat)
}

/// The elements behind the encoder: those that record, where that is wanted, and the one that
/// hands out the frames.
pub open spec fn output_elements(encoding: Seq<char>, prm: StreamCompressionParams) -> Seq<char> {
    if prm.record {
        " ! tee name=x264_"@ + encoding + " ! splitmuxsink max-size-time="@ + text::decimal(
            prm.segment_seconds as nat,
        ) + "000000000 muxer-factory=mp4mux name="@ + recorder_name(encoding) + " x264_"@ + encoding
            + ". ! h264parse ! video/x-h264,stream-format=byte-stream ! appsink name="@
            + sink_name(encoding)
    } else {
        " ! video/x-h264,stream-format=byte-stream"@ + " ! appsink name="@ + sink_name(encoding)
    }
}

/// The branches of the pipeline, one for each encoding.
pub open spec fn encodings_text(encodings: Seq<Entry<StreamCompressionParams>>) -> Seq<char>
    decreases encodings.len(),
{
    if encodings.len() == 0 {
        Seq::<char>::empty()
    } else {
        let e = encodings.last();
        encodings_text(encodings.drop_last()) + encoder_elements(e.value) + output_elements(
            e.name@,
            e.value,
        )
    }
}

/// The branch that shows the pictures on the machine itself.
pub open spec fn show_text(show: bool) -> Seq<char> {
    if show {
        " decoded. ! autovideosink"@
    } else {
        Seq::<char>::empty()
    }
}

/// The description of the pipeline of a source.
pub open spec fn pipeline(name: Seq<char>, params: SourceConfig, profile: StreamProfile) -> Seq<
    char,
> {
    source_elements(params.source@) + rate_element(profile) + clock_element(profile.clock, name)
        + " ! tee name=decoded"@ + encodings_text(profile.encode.entries@) + show_text(params.show)
}

/// Whether a source can be captured.
pub fn known_source(source: &str) -> (r: bool)
    ensures
        r == (source@ == "test"@ || "http:"@.is_prefix_of(source@)),
        r == is_known_source(source@),
{
    text::same_text(source, "test") || text::begins_with(source, "http:")
}

/// Adds the rate and the size of the pictures.
fn append_rate(t: &mut String, profile: &StreamProfile)
    ensures
        final(t)@ == old(t)@ + rate_element(*profile),
{
    let ghost before = t@;
    t.append(" ! videorate ! video/x-raw,framerate=");
    t.append(profile.framerate.as_str());
    t.append(",width=");
    t.append(text::decimal_text(profile.width as u64).as_str());
    t.append(",height=");
    t.append(text::decimal_text(profile.height as u64).as_str());
    assert(t@ =~= before + rate_element(*profile));
}

/// Adds the clock.
fn append_clock(t: &mut String, clock: &Option<ClockParams>, name: &str)
    ensures
        final(t)@ == old(t)@ + clock_element(*clock, name@),
{
    let ghost before = t@;
    match clock {
        Some(c) => {
            proof {
                reveal_strlit("${name}");
            }
            let format = text::replace_all(c.format.as_str(), "${name}", name);
            t.append(" ! clockoverlay halignment=");
            t.append(c.halignment.as_str());
            t.append(" valignment=");
            t.append(c.valignment.as_str());
            t.append(" shaded-background=true font-desc=\"");
            t.append(c.font.as_str());
            t.append("\" time-format=\"");
            t.append(format.as_str());
            t.append("\"");
        },
        None => {},
    }
    assert(t@ =~= before + clock_element(*clock, name@));
}

/// Adds the elements that scale and encode.
fn append_encoder(t: &mut String, prm: &StreamCompressionParams)
    ensures
        final(t)@ == old(t)@ + encoder_elements(*prm),
{
    let ghost before = t@;
    t.append(" decoded. ! queue");
    t.append(" ! videoscale ! video/x-raw,width=");
    t.append(text::decimal_text(prm.width as u64).as_str());
    t.append(",height=");
    t.append(text::decimal_text(prm.height as u64).as_str());
    t.append(" ! x264enc bframes=0 bitrate=");
    t.append(text::decimal_text(prm.bitrate as u64).as_str());
    t.append(" speed-preset=");
    t.append(prm.preset.as_str());
    t.append(" tune=");
    t.append(prm.tune.as_str());
    t.append(" key-int-max=");
    t.append(text::decimal_text(prm.keyint as u64).as_str());
    assert(t@ =~= before + encoder_elements(*prm));
}

/// Adds the elements behind an encoder.
fn append_output(t: &mut String, encoding: &str, prm: &StreamCompressionParams)
    ensures
        final(t)@ == old(t)@ + output_elements(encoding@, *prm),
{
    let ghost before = t@;
    if prm.record {
        t.append(" ! tee name=x264_");
        t.append(encoding);
        t.append(" ! splitmuxsink max-size-time=");
        t.append(text::decimal_text(prm.segment_seconds as u64).as_str());
        t.append("000000000 muxer-factory=mp4mux name=");
        t.append(recorder(encoding).as_str());
        t.append(" x264_");
        t.append(encoding);
        t.append(". ! h264parse ! video/x-h264,stream-format=byte-stream ! appsink name=");
        t.append(sink(encoding).as_str());
    } else {
        t.append(" ! video/x-h264,stream-format=byte-stream");
        t.append(" ! appsink name=");
        t.append(sink(encoding).as_str());
    }
    assert(t@ =~= before + output_elements(encoding@, *prm));
}

/// Writes the description of the pipeline of a source.
pub fn pipeline_text(name: &str, params: &SourceConfig, profile: &StreamProfile) -> (r: String)
    requires
        is_known_source(params.source@),
    ensures
        r@ == pipeline(name@, *params, *profile),
{
    let mut t = if text::same_text(params.source.as_str(), "test") {
        "videotestsrc".to_owned()
    } else {
        let mut t = "souphttpsrc location=\"".to_owned();
        t.append(params.source.as_str());
        t.append("\" is-live=true do-timestamp=true ! multipartdemux ! image/jpeg ! jpegdec");
        t
    };
    append_rate(&mut t, profile);
    append_clock(&mut t, &profile.clock, name);
    t.append(" ! tee name=decoded");
    let ghost head = t@;
    let ghost all = profile.encode.entries@;
    let len = profile.encode.entries.len();
    let mut k: usize = 0;
    assert(all.take(0) =~= Seq::<Entry<StreamCompressionParams>>::empty());
    assert(t@ =~= head + encodings_text(all.take(0)));
    while k < len
        invariant
            k <= len,
            len == all.len(),
            all == profile.encode.entries@,
            t@ == head + encodings_text(all.take(k as int)),
        decreases len - k,
    {
        let entry = &profile.encode.entries[k];
        let ghost before = encodings_text(all.take(k as int));
        assert(all.take(k + 1).drop_last() =~= all.take(k as int));
        assert(all.take(k + 1).last() == *entry);
        append_encoder(&mut t, &entry.value);
        append_output(&mut t, entry.name.as_str(), &entry.value);
        assert(t@ =~= head + encodings_text(all.take(k + 1)));
        k = k + 1;
    }
    assert(all.take(len as int) =~= all);
    if params.show {
        t.append(" decoded. ! autovideosink");
    }
    assert(t@ =~= pipeline(name@, *params, *profile));
    t
}

/// The name of the element that records an encoding.
pub fn recorder(encoding: &str) -> (r: String)
    ensures
        r@ == "rec_"@ + encoding@,
        r@ == recorder_name(encoding@),
{
    text::concat("rec_", encoding)
}

/// The name of the element that hands out the frames of an encoding.
pub fn sink(encoding: &str) -> (r: String)
    ensures
        r@ == "app_"@ + encoding@,
        r@ == sink_name(encoding@),
{
    text::concat("app_", encoding)
}

/// Where the next segment of a recording goes.
#[derive(Clone, Debug)]
pub struct SegmentLocation {
    pub dir: String,
    pub path: String,
}

/// The directory and the file for a segment that starts now.
pub fn segment_location(
    video_root: &str,
    source: &str,
    encoding: &str,
    now: &Timestamp,
    segment_seconds: u32,
) -> (r: SegmentLocation)
    requires
        now.wf(),
        segment_seconds * 1000 <= u32::MAX,
    ensures
        r.dir@ == path::joined_all(
            video_root@,
            recordings::recorded_dirs(source@, encoding@, *now),
        ),
        r.path@ == recordings::recorded_file(
            video_root@,
            source@,
            encoding@,
            *now,
            segment_seconds * 1000,
        ).path,
{
    let dir = recordings::recording_dir(video_root, source, encoding, now);
    let name = recordings::recording_name(now, (segment_seconds * 1000) as i64);
    let path = path::join(dir.as_str(), name.as_str());
    proof {
        let parts = recordings::recorded_parts(source@, encoding@, *now, segment_seconds * 1000);
        assert(parts.drop_last() =~= recordings::recorded_dirs(source@, encoding@, *now));
    }
    SegmentLocation { dir, path }
}

/// Whether a text occurs in another.
pub open spec fn occurs(part: Seq<char>, whole: Seq<char>) -> bool {
    exists|front: Seq<char>, back: Seq<char>| whole == #[trigger] (front + part + back)
}

/// A text between two others occurs in all of it.
proof fn lemma_occurs(front: Seq<char>, part: Seq<char>, back: Seq<char>)
    ensures
        occurs(part, front + part + back),
{
}

/// What occurs in a text occurs in it with more around.
proof fn lemma_occurs_wider(part: Seq<char>, whole: Seq<char>, front: Seq<char>, back: Seq<char>)
    requires
        occurs(part, whole),
    ensures
        occurs(part, front + whole + back),
{
    let (f, b) = choose|f: Seq<char>, b: Seq<char>| whole == #[trigger] (f + part + b);
    assert(front + whole + back =~= (front + f) + part + (b + back));
    lemma_occurs(front + f, part, b + back);
}

/// The elements behind an encoder have the names by which they are asked for.
proof fn lemma_output_names(encoding: Seq<char>, prm: StreamCompressionParams)
    ensures
        occurs(" name="@ + sink_name(encoding), output_elements(encoding, prm)),
        prm.record ==> occurs(
            " name="@ + recorder_name(encoding),
            output_elements(encoding, prm),
        ),
{
    let whole = output_elements(encoding, prm);
    let empty = Seq::<char>::empty();
    reveal_strlit(" name=");
    if prm.record {
        reveal_strlit("000000000 muxer-factory=mp4mux name=");
        reveal_strlit("000000000 muxer-factory=mp4mux");
        reveal_strlit(". ! h264parse ! video/x-h264,stream-format=byte-stream ! appsink name=");
        reveal_strlit(". ! h264parse ! video/x-h264,stream-format=byte-stream ! appsink");
        assert("000000000 muxer-factory=mp4mux name="@ =~= "000000000 muxer-factory=mp4mux"@
            + " name="@);
        assert(". ! h264parse ! video/x-h264,stream-format=byte-stream ! appsink name="@
            =~= ". ! h264parse ! video/x-h264,stream-format=byte-stream ! appsink"@ + " name="@);
        let head = " ! tee name=x264_"@ + encoding + " ! splitmuxsink max-size-time="@
            + text::decimal(prm.segment_seconds as nat) + "000000000 muxer-factory=mp4mux"@;
        let middle = " x264_"@ + encoding
            + ". ! h264parse ! video/x-h264,stream-format=byte-stream ! appsink"@;
        let rec = " name="@ + recorder_name(encoding);
        let app = " name="@ + sink_name(encoding);
        assert(whole =~= head + rec + (middle + app));
        lemma_occurs(head, rec, middle + app);
        assert(whole =~= (head + rec + middle) + app + empty);
        lemma_occurs(head + rec + middle, app, empty);
    } else {
        reveal_strlit(" ! appsink name=");
        reveal_strlit(" ! appsink");
        assert(" ! appsink name="@ =~= " ! appsink"@ + " name="@);
        let head = " ! video/x-h264,stream-format=byte-stream"@ + " ! appsink"@;
        let app = " name="@ + sink_name(encoding);
        assert(whole =~= head + app + empty);
        lemma_occurs(head, app, empty);
    }
}

proof fn lemma_encoding_names(encodings: Seq<Entry<StreamCompressionParams>>, k: int)
    requires
        0 <= k < encodings.len(),
    ensures
        occurs(" name="@ + sink_name(encodings[k].name@), encodings_text(encodings)),
        encodings[k].value.record ==> occurs(
            " name="@ + recorder_name(encodings[k].name@),
            encodings_text(encodings),
        ),
    decreases encodings.len(),
{
    let e = encodings[k];
    let front = encodings_text(encodings.drop_last());
    let empty = Seq::<char>::empty();
    let sink = " name="@ + sink_name(e.name@);
    let rec = " name="@ + recorder_name(e.name@);
    let whole = encodings_text(encodings);
    if k == encodings.len() - 1 {
        let out = output_elements(e.name@, e.value);
        lemma_output_names(e.name@, e.value);
        assert(whole =~= (front + encoder_elements(e.value)) + out + empty);
        lemma_occurs_wider(sink, out, front + encoder_elements(e.value), empty);
        if e.value.record {
            lemma_occurs_wider(rec, out, front + encoder_elements(e.value), empty);
        }
    } else {
        let last = encodings.last();
        let back = encoder_elements(last.value) + output_elements(last.name@, last.value);
        assert(encodings.drop_last()[k] == e);
        lemma_encoding_names(encodings.drop_last(), k);
        assert(whole =~= empty + front + back);
        lemma_occurs_wider(sink, front, empty, back);
        if e.value.record {
            lemma_occurs_wider(rec, front, empty, back);
        }
    }
}

/// Every encoding has an element in the pipeline that hands out its frames, and where it is
/// recorded one that records it, under the names by which they are asked for.
pub proof fn law_elements_are_named(
    name: Seq<char>,
    params: SourceConfig,
    profile: StreamProfile,
    k: int,
)
    requires
        0 <= k < profile.encode.entries@.len(),
    ensures
        occurs(
            " name="@ + sink_name(profile.encode.entries@[k].name@),
            pipeline(name, params, profile),
        ),
        profile.encode.entries@[k].value.record ==> occurs(
            " name="@ + recorder_name(profile.encode.entries@[k].name@),
            pipeline(name, params, profile),
        ),
{
    let e = profile.encode.entries@[k];
    let head = source_elements(params.source@) + rate_element(profile) + clock_element(
        profile.clock,
        name,
    ) + " ! tee name=decoded"@;
    let middle = encodings_text(profile.encode.entries@);
    lemma_encoding_names(profile.encode.entries@, k);
    lemma_occurs_wider(" name="@ + sink_name(e.name@), middle, head, show_text(params.show));
    if e.value.record {
        lemma_occurs_wider(
            " name="@ + recorder_name(e.name@),
            middle,
            head,
            show_text(params.show),
        );
    }
}

/// A pipeline brings the pictures of its source to the rate and size of the profile, lays the
/// clock over them where there is one, and hands them to the encodings and, where that is wanted,
/// to the screen.
pub proof fn law_pictures_are_brought_to_the_profile(
    name: Seq<char>,
    params: SourceConfig,
    profile: StreamProfile,
)
    ensures
        pipeline(name, params, profile) == (if params.source@ == "test"@ {
            "videotestsrc"@
        } else {
            "souphttpsrc location=\""@ + params.source@
                + "\" is-live=true do-timestamp=true ! multipartdemux ! image/jpeg ! jpegdec"@
        }) + " ! videorate ! video/x-raw,framerate="@ + profile.framerate@ + ",width="@
            + text::decimal(profile.width as nat) + ",height="@ + text::decimal(
            profile.height as nat,
        ) + (match profile.clock {
            Some(c) => " ! clockoverlay halignment="@ + c.halignment@ + " valignment="@
                + c.valignment@ + " shaded-background=true font-desc=\""@ + c.font@
                + "\" time-format=\""@ + text::replaced(c.format@, "${name}"@, name) + "\""@,
            None => Seq::<char>::empty(),
        }) + " ! tee name=decoded"@ + encodings_text(profile.encode.entries@) + (
        if params.show {
            " decoded. ! autovideosink"@
        } else {
            Seq::<char>::empty()
        }),
{
    let clock = match profile.clock {
        Some(c) => " ! clockoverlay halignment="@ + c.halignment@ + " valignment="@ + c.valignment@
            + " shaded-background=true font-desc=\""@ + c.font@ + "\" time-format=\""@
            + text::replaced(c.format@, "${name}"@, name) + "\""@,
        None => Seq::<char>::empty(),
    };
    let rate = " ! videorate ! video/x-raw,framerate="@ + profile.framerate@ + ",width="@
        + text::decimal(profile.width as nat) + ",height="@ + text::decimal(
        profile.height as nat,
    );
    assert(clock_element(profile.clock, name) == clock);
    assert(rate_element(profile) == rate);
    let source = source_elements(params.source@);
    let tee = " ! tee name=decoded"@;
    let rest = encodings_text(profile.encode.entries@);
    let show = show_text(params.show);
    assert(source + rate + clock + tee + rest + show =~= source
        + " ! videorate ! video/x-raw,framerate="@ + profile.framerate@ + ",width="@
        + text::decimal(profile.width as nat) + ",height="@ + text::decimal(profile.height as nat)
        + clock + tee + rest + show);
}

/// Each encoding adds a branch of its own, made as that encoding is configured: it scales to its
/// size, encodes with its bitrate, preset, tuning and distance of key frames, records segments of
/// its length where it is recorded, and hands its frames out. No encodings add nothing.
pub proof fn law_each_encoding_adds_its_branch(
    encodings: Seq<Entry<StreamCompressionParams>>,
    e: Entry<StreamCompressionParams>,
)
    ensures
        encodings_text(Seq::<Entry<StreamCompressionParams>>::empty()) == Seq::<char>::empty(),
        encodings_text(encodings.push(e)) == encodings_text(encodings) + (
            " decoded. ! queue"@ + " ! videoscale ! video/x-raw,width="@ + text::decimal(
                e.value.width as nat,
            ) + ",height="@ + text::decimal(e.value.height as nat)
                + " ! x264enc bframes=0 bitrate="@ + text::decimal(e.value.bitrate as nat)
                + " speed-preset="@ + e.value.preset@ + " tune="@ + e.value.tune@
                + " key-int-max="@ + text::decimal(e.value.keyint as nat) + if e.value.record {
                " ! tee name=x264_"@ + e.name@ + " ! splitmuxsink max-size-time="@
                    + text::decimal(e.value.segment_seconds as nat)
                    + "000000000 muxer-factory=mp4mux name="@ + "rec_"@ + e.name@ + " x264_"@
                    + e.name@
                    + ". ! h264parse ! video/x-h264,stream-format=byte-stream ! appsink name="@
                    + "app_"@ + e.name@
            } else {
                " ! video/x-h264,stream-format=byte-stream"@ + " ! appsink name="@ + "app_"@
                    + e.name@
            }
        ),
{
    assert(encodings.push(e).drop_last() =~= encodings);
    let own = encoder_elements(e.value) + output_elements(e.name@, e.value);
    assert(encodings_text(encodings.push(e)) =~= encodings_text(encodings) + own);
    assert(own =~= " decoded. ! queue"@ + " ! videoscale ! video/x-raw,width="@ + text::decimal(
                e.value.width as nat,
            ) + ",height="@ + text::decimal(e.value.height as nat)
                + " ! x264enc bframes=0 bitrate="@ + text::decimal(e.value.bitrate as nat)
                + " speed-preset="@ + e.value.preset@ + " tune="@ + e.value.tune@
                + " key-int-max="@ + text::decimal(e.value.keyint as nat) + if e.value.record {
                " ! tee name=x264_"@ + e.name@ + " ! splitmuxsink max-size-time="@
                    + text::decimal(e.value.segment_seconds as nat)
                    + "000000000 muxer-factory=mp4mux name="@ + "rec_"@ + e.name@ + " x264_"@
                    + e.name@
                    + ". ! h264parse ! video/x-h264,stream-format=byte-stream ! appsink name="@
                    + "app_"@ + e.name@
            } else {
                " ! video/x-h264,stream-format=byte-stream"@ + " ! appsink name="@ + "app_"@
                    + e.name@
            });
}

/// The settings of every encoding are in the pipeline, in one piece that ends with the name of the
/// element that hands out its frames: width, height, bitrate, preset, tuning and distance of key
/// frames, and the length of its segments where it is recorded.
pub proof fn law_settings_of_every_encoding_are_used(
    name: Seq<char>,
    params: SourceConfig,
    profile: StreamProfile,
    k: int,
    e: Entry<StreamCompressionParams>,
    branch: Seq<char>,
)
    requires
        0 <= k < profile.encode.entries@.len(),
        e == profile.encode.entries@[k],
        branch == (" decoded. ! queue"@ + " ! videoscale ! video/x-raw,width="@ + text::decimal(
                e.value.width as nat,
            ) + ",height="@ + text::decimal(e.value.height as nat)
                + " ! x264enc bframes=0 bitrate="@ + text::decimal(e.value.bitrate as nat)
                + " speed-preset="@ + e.value.preset@ + " tune="@ + e.value.tune@
                + " key-int-max="@ + text::decimal(e.value.keyint as nat) + if e.value.record {
                " ! tee name=x264_"@ + e.name@ + " ! splitmuxsink max-size-time="@
                    + text::decimal(e.value.segment_seconds as nat)
                    + "000000000 muxer-factory=mp4mux name="@ + "rec_"@ + e.name@ + " x264_"@
                    + e.name@
                    + ". ! h264parse ! video/x-h264,stream-format=byte-stream ! appsink name="@
                    + "app_"@ + e.name@
            } else {
                " ! video/x-h264,stream-format=byte-stream"@ + " ! appsink name="@ + "app_"@
                    + e.name@
            }),
    ensures
        exists|front: Seq<char>, back: Seq<char>|
            pipeline(name, params, profile) == #[trigger] (front + branch + back),
{
    let all = profile.encode.entries@;
    let none = Seq::<Entry<StreamCompressionParams>>::empty();
    law_each_encoding_adds_its_branch(none, e);
    assert(none.push(e) =~= seq![e]);
    assert(encodings_text(seq![e]) =~= branch);
    lemma_encoding_occurs(all, k);
    let head = source_elements(params.source@) + rate_element(profile) + clock_element(
        profile.clock,
        name,
    ) + " ! tee name=decoded"@;
    lemma_occurs_wider(branch, encodings_text(all), head, show_text(params.show));
}

/// The branch of an encoding occurs among the branches of all.
proof fn lemma_encoding_occurs(encodings: Seq<Entry<StreamCompressionParams>>, k: int)
    requires
        0 <= k < encodings.len(),
    ensures
        occurs(encodings_text(seq![encodings[k]]), encodings_text(encodings)),
    decreases encodings.len(),
{
    let e = encodings[k];
    let front = encodings_text(encodings.drop_last());
    let empty = Seq::<char>::empty();
    let last = encodings.last();
    let back = encoder_elements(last.value) + output_elements(last.name@, last.value);
    let one = encodings_text(seq![e]);
    assert(encodings_text(encodings) =~= front + back);
    if k == encodings.len() - 1 {
        let none = Seq::<Entry<StreamCompressionParams>>::empty();
        assert(seq![e].drop_last() =~= none);
        assert(encodings_text(none) =~= empty);
        assert(one =~= back);
        assert(encodings_text(encodings) =~= front + one + empty);
        lemma_occurs(front, one, empty);
    } else {
        assert(encodings.drop_last()[k] == e);
        lemma_encoding_occurs(encodings.drop_last(), k);
        assert(encodings_text(encodings) =~= empty + front + back);
        lemma_occurs_wider(one, front, empty, back);
    }
}

} // verus!
