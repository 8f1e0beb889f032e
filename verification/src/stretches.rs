//! The stretches of time that recordings cover together.

use crate::recordings;
use crate::recordings::{FoundFile, Recording, RecordingModel};
use crate::time;
use crate::time::Timestamp;
use vstd::prelude::*;

verus! {

/// Recordings that are less than this many milliseconds apart count as one stretch.
pub const VIDEO_JITTER_CORRECTION_MS: i64 = 5000;

/// A stretch of time that recordings cover.
#[derive(Clone, Copy, PartialEq, Eq, Structural, Debug)]
pub struct RecordingListItem {
    pub timestamp_min: Timestamp,
    pub timestamp_max: Timestamp,
}

/// When a recording ends, if that can be represented.
pub open spec fn end_of(r: RecordingModel) -> Option<Timestamp> {
    time::shifted(r.timestamp, r.duration)
}

/// The times around a stretch within which a recording still belongs to it.
pub open spec fn reach(s: RecordingListItem) -> (Option<Timestamp>, Option<Timestamp>) {
    (
        time::shifted(s.timestamp_min, -VIDEO_JITTER_CORRECTION_MS),
        time::shifted(s.timestamp_max, VIDEO_JITTER_CORRECTION_MS as int),
    )
}

/// Whether a recording from `start` to `end` meets a stretch, some jitter allowed for.
pub open spec fn meets(s: RecordingListItem, start: Timestamp, end: Timestamp) -> bool {
    reach(s).0->0.later(start).lt(reach(s).1->0.earlier(end))
}

/// The stretches once the time from `start` to `end` is added: to the last one, or as a new
/// one.
pub open spec fn extended(
    list: Seq<RecordingListItem>,
    start: Timestamp,
    end: Timestamp,
    to_last: bool,
) -> Seq<RecordingListItem> {
    if to_last {
        list.drop_last().push(
            RecordingListItem {
                timestamp_min: list.last().timestamp_min,
                timestamp_max: list.last().timestamp_max.later(end),
            },
        )
    } else {
        list.push(RecordingListItem { timestamp_min: start, timestamp_max: end })
    }
}

/// The stretches once another recording is taken in: it prolongs the last one where it meets
/// it, and makes a new one otherwise.
pub open spec fn taken_in(list: Seq<RecordingListItem>, r: RecordingModel) -> Seq<
    RecordingListItem,
> {
    let end = end_of(r)->0;
    extended(list, r.timestamp, end, list.len() > 0 && meets(list.last(), r.timestamp, end))
}

/// The stretches that recordings cover, taken in one after the other.
pub open spec fn stretches(rs: Seq<RecordingModel>) -> Seq<RecordingListItem>
    decreases rs.len(),
{
    if rs.len() == 0 {
        Seq::<RecordingListItem>::empty()
    } else {
        taken_in(stretches(rs.drop_last()), rs.last())
    }
}

/// Whether every time that is computed to take a recording in can be represented.
pub open spec fn can_take_in(list: Seq<RecordingListItem>, r: RecordingModel) -> bool {
    &&& r.timestamp.wf()
    &&& end_of(r) is Some
    &&& list.len() > 0 ==> reach(list.last()).0 is Some && reach(list.last()).1 is Some
}

/// Whether every time that is computed for the stretches can be represented.
pub open spec fn can_stretch(rs: Seq<RecordingModel>) -> bool
    decreases rs.len(),
{
    rs.len() > 0 ==> can_stretch(rs.drop_last()) && can_take_in(
        stretches(rs.drop_last()),
        rs.last(),
    )
}

/// Whether the ends of all stretches can be represented.
spec fn ends_wf(list: Seq<RecordingListItem>) -> bool {
    forall|k: int|
        0 <= k < list.len() ==> (#[trigger] list[k]).timestamp_min.wf()
            && list[k].timestamp_max.wf()
}

/// Takes a recording in, unless a time that it needs cannot be represented.
fn take_in(list: &mut Vec<RecordingListItem>, recording: &Recording) -> (done: bool)
    requires
        ends_wf(old(list)@),
    ensures
        ends_wf(final(list)@),
        done == can_take_in(old(list)@, recording@),
        done ==> final(list)@ == taken_in(old(list)@, recording@),
{
    let start = recording.timestamp;
    if !start.is_valid() {
        return false;
    }
    let end = match time::chrono_add(&start, recording.duration) {
        Some(end) => end,
        None => {
            return false;
        },
    };
    proof {
        time::lemma_shifted_wf(start, recording.duration as int);
    }
    let len = list.len();
    if len > 0 {
        let last = list[len - 1];
        let from = time::chrono_add(&last.timestamp_min, -VIDEO_JITTER_CORRECTION_MS);
        let to = time::chrono_add(&last.timestamp_max, VIDEO_JITTER_CORRECTION_MS);
        let (from, to) = match (from, to) {
            (Some(from), Some(to)) => (from, to),
            _ => {
                return false;
            },
        };
        if from.max_of(&start).is_before(&to.min_of(&end)) {
            let longer = RecordingListItem {
                timestamp_min: last.timestamp_min,
                timestamp_max: last.timestamp_max.max_of(&end),
            };
            list.set(len - 1, longer);
            assert(list@ =~= old(list)@.drop_last().push(longer));
            return true;
        }
    }
    list.push(RecordingListItem { timestamp_min: start, timestamp_max: end });
    true
}

/// The stretches of time that recordings cover, unless a time that they need cannot be
/// represented.
pub fn recordings_list(recordings: &Vec<Recording>) -> (r: Option<Vec<RecordingListItem>>)
    ensures
        r is Some <==> can_stretch(recordings::models(recordings@)),
        r matches Some(list) ==> list@ == stretches(recordings::models(recordings@)),
{
    let mut list: Vec<RecordingListItem> = Vec::new();
    let ghost all = recordings::models(recordings@);
    let len = recordings.len();
    let mut k: usize = 0;
    assert(all.take(0) =~= Seq::<RecordingModel>::empty());
    while k < len
        invariant
            k <= len,
            len == recordings@.len(),
            all == recordings::models(recordings@),
            ends_wf(list@),
            list@ == stretches(all.take(k as int)),
            can_stretch(all.take(k as int)),
        decreases len - k,
    {
        assert(all.take(k + 1).drop_last() =~= all.take(k as int));
        assert(all.take(k + 1).last() == recordings@[k as int]@);
        if !take_in(&mut list, &recordings[k]) {
            proof {
                if can_stretch(all) {
                    lemma_can_stretch_prefix(all, k + 1);
                }
            }
            return None;
        }
        k = k + 1;
    }
    assert(all.take(len as int) =~= all);
    Some(list)
}

/// The stretches of time that the recordings under the video root cover which start in a
/// time range, unless a time that they need cannot be represented. A file that was recorded
/// within the range lies within one of them.
pub fn handle_request_recordings_list(
    video_root: &str,
    files: &Vec<FoundFile>,
    timestamp_min: Timestamp,
    timestamp_max: Timestamp,
) -> (r: Option<Vec<RecordingListItem>>)
    ensures
        exists|found: Seq<RecordingModel>| #[trigger]
            recordings::stably_sorted(
                recordings::within(
                    recordings::all_recordings(video_root@, recordings::file_models(files@)),
                    timestamp_min,
                    timestamp_max,
                ),
                found,
            ) && (r is Some <==> can_stretch(found)) && (r matches Some(list) ==> list@
                == stretches(found)),
        forall|k: int, camera: Seq<char>, resolution: Seq<char>, t: Timestamp, ms: i64|
            #![trigger files@[k], recordings::recorded_file(video_root@, camera, resolution, t, ms as int)]
            r is Some && 0 <= k < files@.len() && recordings::recordable(camera, resolution, t)
                && files@[k]@ == recordings::recorded_file(
                video_root@,
                camera,
                resolution,
                t,
                ms as int,
            ) && timestamp_min.le(t.whole_millis()) && t.whole_millis().le(timestamp_max)
                ==> covered(
                r->0@,
                recordings::reread(video_root@, camera, resolution, t, ms as int),
            ),
{
    let found = recordings::find_recordings(video_root, files, timestamp_min, timestamp_max);
    let r = recordings_list(&found);
    proof {
        let models = recordings::models(found@);
        if r is Some {
            law_stretches_cover_recordings(models);
        }
        assert forall|k: int, camera: Seq<char>, resolution: Seq<char>, t: Timestamp, ms: i64|
            #![trigger files@[k], recordings::recorded_file(video_root@, camera, resolution, t, ms as int)]
            r is Some && 0 <= k < files@.len() && recordings::recordable(camera, resolution, t)
                && files@[k]@ == recordings::recorded_file(
                video_root@,
                camera,
                resolution,
                t,
                ms as int,
            ) && timestamp_min.le(t.whole_millis()) && t.whole_millis().le(
                timestamp_max,
            ) implies covered(
            r->0@,
            recordings::reread(video_root@, camera, resolution, t, ms as int),
        ) by {
            let reread = recordings::reread(video_root@, camera, resolution, t, ms as int);
            assert(models.contains(reread));
            let i = choose|i: int| 0 <= i < models.len() && models[i] == reread;
            assert(covered(stretches(models), models[i]));
        }
    }
    r
}

/// What can be computed for recordings can be computed for the first of them.
proof fn lemma_can_stretch_prefix(rs: Seq<RecordingModel>, n: int)
    requires
        0 <= n <= rs.len(),
        can_stretch(rs),
    ensures
        can_stretch(rs.take(n)),
    decreases rs.len(),
{
    if n == rs.len() {
        assert(rs.take(n) =~= rs);
    } else {
        assert(rs.drop_last().take(n) =~= rs.take(n));
        lemma_can_stretch_prefix(rs.drop_last(), n);
    }
}

/// Whether a stretch starts with one of the recordings and ends with one of them.
pub open spec fn made_of(s: RecordingListItem, rs: Seq<RecordingModel>) -> bool {
    &&& exists|i: int| 0 <= i < rs.len() && (#[trigger] rs[i]).timestamp == s.timestamp_min
    &&& exists|j: int| 0 <= j < rs.len() && end_of(#[trigger] rs[j]) == Some(s.timestamp_max)
}

/// Whether a stretch holds all of a recording.
pub open spec fn covers(s: RecordingListItem, r: RecordingModel) -> bool {
    s.timestamp_min.le(r.timestamp) && end_of(r)->0.le(s.timestamp_max)
}

/// Whether one of the stretches holds all of a recording.
pub open spec fn covered(list: Seq<RecordingListItem>, r: RecordingModel) -> bool {
    exists|k: int| 0 <= k < list.len() && covers(#[trigger] list[k], r)
}

/// Every stretch starts where a recording starts and ends where a recording ends.
pub proof fn law_stretches_are_recorded(rs: Seq<RecordingModel>)
    requires
        can_stretch(rs),
    ensures
        forall|k: int| 0 <= k < stretches(rs).len() ==> made_of(#[trigger] stretches(rs)[k], rs),
        stretches(rs).len() <= rs.len(),
        rs.len() > 0 ==> stretches(rs).len() > 0,
    decreases rs.len(),
{
    if rs.len() > 0 {
        let front = rs.drop_last();
        let before = stretches(front);
        let r = rs.last();
        law_stretches_are_recorded(front);
        assert(rs[rs.len() - 1] == r);
        assert forall|s: RecordingListItem| #[trigger] made_of(s, front) implies made_of(s, rs) by {
            let i = choose|i: int| 0 <= i < front.len() && (#[trigger] front[i]).timestamp
                == s.timestamp_min;
            let j = choose|j: int| 0 <= j < front.len() && end_of(#[trigger] front[j]) == Some(
                s.timestamp_max,
            );
            assert(rs[i].timestamp == s.timestamp_min);
            assert(end_of(rs[j]) == Some(s.timestamp_max));
        }
        assert forall|k: int| 0 <= k < stretches(rs).len() implies made_of(
            #[trigger] stretches(rs)[k],
            rs,
        ) by {
            if k < before.len() {
                assert(made_of(before[k], front));
                assert(made_of(before[k], rs));
            }
        }
    }
}

/// Adding time keeps the stretches that were there, the last one perhaps longer, and the last
/// one then holds the time that was added.
proof fn lemma_extended(
    list: Seq<RecordingListItem>,
    start: Timestamp,
    end: Timestamp,
    to_last: bool,
)
    requires
        to_last ==> list.len() > 0,
    ensures
        extended(list, start, end, to_last).len() >= list.len(),
        extended(list, start, end, to_last).len() > 0,
        forall|k: int|
            #![trigger list[k]]
            0 <= k < list.len() ==> extended(list, start, end, to_last)[k].timestamp_min
                == list[k].timestamp_min && list[k].timestamp_max.le(
                extended(list, start, end, to_last)[k].timestamp_max,
            ),
        end.le(extended(list, start, end, to_last).last().timestamp_max),
        extended(list, start, end, to_last).last().timestamp_min == if to_last {
            list.last().timestamp_min
        } else {
            start
        },
{
}

/// Recordings in the order of their starts all lie within one of the stretches.
pub proof fn law_stretches_cover_recordings(rs: Seq<RecordingModel>)
    requires
        recordings::in_order(rs),
        can_stretch(rs),
    ensures
        forall|j: int| 0 <= j < rs.len() ==> covered(stretches(rs), #[trigger] rs[j]),
    decreases rs.len(),
{
    if rs.len() > 0 {
        let front = rs.drop_last();
        let before = stretches(front);
        let after = stretches(rs);
        let r = rs.last();
        let end = end_of(r)->0;
        let to_last = before.len() > 0 && meets(before.last(), r.timestamp, end);
        law_stretches_cover_recordings(front);
        assert(after == extended(before, r.timestamp, end, to_last));
        lemma_extended(before, r.timestamp, end, to_last);
        assert forall|j: int| 0 <= j < front.len() implies covered(after, #[trigger] rs[j]) by {
            assert(covered(before, front[j]));
            let k = choose|k: int| 0 <= k < before.len() && covers(#[trigger] before[k], front[j]);
            lemma_still_covers(before[k], after[k], rs[j]);
        }
        if to_last {
            lemma_starts_ascend(rs);
        }
        lemma_covers(after[after.len() - 1], r, end);
        assert(rs[rs.len() - 1] == r);
    }
}

/// The last stretch starts no later than the last of recordings in the order of their starts.
proof fn lemma_starts_ascend(rs: Seq<RecordingModel>)
    requires
        rs.len() > 0,
        recordings::in_order(rs),
        can_stretch(rs),
        stretches(rs.drop_last()).len() > 0,
    ensures
        stretches(rs.drop_last()).last().timestamp_min.le(rs.last().timestamp),
{
    let front = rs.drop_last();
    let before = stretches(front);
    law_stretches_are_recorded(front);
    assert(made_of(before[before.len() - 1], front));
    let i = choose|i: int| 0 <= i < front.len() && (#[trigger] front[i]).timestamp
        == before.last().timestamp_min;
    assert(rs[i].timestamp.le(rs[rs.len() - 1].timestamp));
}

/// A stretch with these ends holds the recording.
proof fn lemma_covers(s: RecordingListItem, r: RecordingModel, end: Timestamp)
    requires
        s.timestamp_min.le(r.timestamp),
        end_of(r)->0 == end,
        end.le(s.timestamp_max),
    ensures
        covers(s, r),
{
}

/// A stretch that only ends later holds what it held.
proof fn lemma_still_covers(s: RecordingListItem, longer: RecordingListItem, r: RecordingModel)
    requires
        covers(s, r),
        longer.timestamp_min == s.timestamp_min,
        s.timestamp_max.le(longer.timestamp_max),
    ensures
        covers(longer, r),
{
}

/// Of two stretches of recordings that last some time, in the order of their starts, the later one
/// starts at least five seconds after the earlier one ends.
pub proof fn law_stretches_are_five_seconds_apart(rs: Seq<RecordingModel>, i: int, k: int)
    requires
        forall|a: int, b: int|
            0 <= a < b < rs.len() ==> (#[trigger] rs[a]).timestamp.le(
                (#[trigger] rs[b]).timestamp,
            ),
        can_stretch(rs),
        forall|j: int| 0 <= j < rs.len() ==> (#[trigger] rs[j]).duration > 0,
        0 <= i < k < stretches(rs).len(),
    ensures
        time::shifted(stretches(rs)[i].timestamp_max, 5000) is Some,
        time::shifted(stretches(rs)[i].timestamp_max, 5000)->0.le(stretches(rs)[k].timestamp_min),
{
    law_stretches_are_apart(rs);
    let s = stretches(rs)[i];
    let later = stretches(rs)[k];
    assert(reach(s).1 == time::shifted(s.timestamp_max, 5000));
}

/// Stretches of recordings that last some time, in the order of their starts, are at least as
/// far apart as the jitter that is allowed for.
pub proof fn law_stretches_are_apart(rs: Seq<RecordingModel>)
    requires
        recordings::in_order(rs),
        can_stretch(rs),
        forall|j: int| 0 <= j < rs.len() ==> (#[trigger] rs[j]).duration > 0,
    ensures
        forall|i: int, k: int|
            0 <= i < k < stretches(rs).len() ==> reach(#[trigger] stretches(rs)[i]).1 is Some
                && reach(stretches(rs)[i]).1->0.le((#[trigger] stretches(rs)[k]).timestamp_min),
    decreases rs.len(),
{
    if rs.len() > 0 {
        let front = rs.drop_last();
        let before = stretches(front);
        let after = stretches(rs);
        let r = rs.last();
        assert forall|j: int| 0 <= j < front.len() implies (#[trigger] front[j]).duration > 0 by {
            assert(front[j] == rs[j]);
        }
        law_stretches_are_apart(front);
        law_stretches_are_recorded(front);
        let end = end_of(r)->0;
        assert(rs[rs.len() - 1] == r);
        time::lemma_shifted_order(r.timestamp, r.duration);
        if before.len() > 0 {
            let last = before.last();
            lemma_starts_ascend(rs);
            assert(made_of(before[before.len() - 1], front));
            let i = choose|i: int| 0 <= i < front.len() && (#[trigger] front[i]).timestamp
                == last.timestamp_min;
            assert(rs[i] == front[i]);
            lemma_starts_wf(rs, i);
            time::lemma_shifted_order(last.timestamp_min, -VIDEO_JITTER_CORRECTION_MS);
            if !meets(last, r.timestamp, end) {
                assert(reach(last).1->0.le(r.timestamp));
                assert forall|a: int, b: int| 0 <= a < b < after.len() implies reach(
                    #[trigger] after[a],
                ).1 is Some && reach(after[a]).1->0.le((#[trigger] after[b]).timestamp_min) by {
                    if b < before.len() {
                        assert(after[a] == before[a] && after[b] == before[b]);
                    } else if a < before.len() - 1 {
                        assert(after[a] == before[a]);
                        assert(reach(before[a]).1->0.le(before[before.len() - 1].timestamp_min));
                    }
                }
            } else {
                assert forall|a: int, b: int| 0 <= a < b < after.len() implies reach(
                    #[trigger] after[a],
                ).1 is Some && reach(after[a]).1->0.le((#[trigger] after[b]).timestamp_min) by {
                    assert(after[a] == before[a]);
                    assert(after[b].timestamp_min == before[b].timestamp_min);
                }
            }
        }
    }
}

/// No stretch ends before it starts, as long as no recording does.
pub proof fn law_stretches_run_forward(rs: Seq<RecordingModel>)
    requires
        can_stretch(rs),
        forall|j: int| 0 <= j < rs.len() ==> (#[trigger] rs[j]).duration >= 0,
    ensures
        forall|k: int|
            0 <= k < stretches(rs).len() ==> (#[trigger] stretches(rs)[k]).timestamp_min.le(
                stretches(rs)[k].timestamp_max,
            ),
    decreases rs.len(),
{
    if rs.len() > 0 {
        let front = rs.drop_last();
        let before = stretches(front);
        let after = stretches(rs);
        let r = rs.last();
        let end = end_of(r)->0;
        let to_last = before.len() > 0 && meets(before.last(), r.timestamp, end);
        assert forall|j: int| 0 <= j < front.len() implies (#[trigger] front[j]).duration >= 0 by {
            assert(front[j] == rs[j]);
        }
        law_stretches_run_forward(front);
        assert(rs[rs.len() - 1] == r);
        time::lemma_shifted_order(r.timestamp, r.duration);
        assert(after == extended(before, r.timestamp, end, to_last));
        lemma_extended(before, r.timestamp, end, to_last);
        assert forall|k: int| 0 <= k < after.len() implies (#[trigger] after[k]).timestamp_min.le(
            after[k].timestamp_max,
        ) by {
            if k < before.len() {
                assert(before[k].timestamp_min.le(before[k].timestamp_max));
            }
        }
    }
}

/// Every stretch ends after it starts, as long as every recording does.
pub proof fn law_stretches_last_some_time(rs: Seq<RecordingModel>)
    requires
        can_stretch(rs),
        forall|j: int| 0 <= j < rs.len() ==> (#[trigger] rs[j]).duration > 0,
    ensures
        forall|k: int|
            0 <= k < stretches(rs).len() ==> (#[trigger] stretches(rs)[k]).timestamp_min.lt(
                stretches(rs)[k].timestamp_max,
            ),
    decreases rs.len(),
{
    if rs.len() > 0 {
        let front = rs.drop_last();
        let before = stretches(front);
        let after = stretches(rs);
        let r = rs.last();
        let end = end_of(r)->0;
        let to_last = before.len() > 0 && meets(before.last(), r.timestamp, end);
        assert forall|j: int| 0 <= j < front.len() implies (#[trigger] front[j]).duration > 0 by {
            assert(front[j] == rs[j]);
        }
        law_stretches_last_some_time(front);
        assert(rs[rs.len() - 1] == r);
        time::lemma_shifted_order(r.timestamp, r.duration);
        assert(after == extended(before, r.timestamp, end, to_last));
        lemma_extended(before, r.timestamp, end, to_last);
        assert forall|k: int| 0 <= k < after.len() implies (#[trigger] after[k]).timestamp_min.lt(
            after[k].timestamp_max,
        ) by {
            if k < before.len() {
                assert(before[k].timestamp_min.lt(before[k].timestamp_max));
            }
        }
    }
}

/// Whether a recording starts less than the jitter after another one ends.
pub open spec fn follows_on(earlier: RecordingModel, r: RecordingModel) -> bool {
    time::shifted(end_of(earlier)->0, VIDEO_JITTER_CORRECTION_MS as int) matches Some(t)
        && r.timestamp.lt(t)
}

/// Whether a recording starts within a stretch, but not at its start.
pub open spec fn starts_inside(s: RecordingListItem, r: RecordingModel) -> bool {
    s.timestamp_min.lt(r.timestamp) && r.timestamp.le(s.timestamp_max)
}

/// Whether one of the first `n` recordings lies within a stretch and leads on to a recording.
pub open spec fn led_to(
    s: RecordingListItem,
    rs: Seq<RecordingModel>,
    n: int,
    r: RecordingModel,
) -> bool {
    exists|i: int| 0 <= i < n && covers(s, #[trigger] rs[i]) && follows_on(rs[i], r)
}

/// No stretch of recordings in the order of their starts spans a gap: a recording that starts
/// inside a stretch starts less than the jitter after the end of an earlier recording that lies
/// within the stretch.
pub proof fn law_stretches_have_no_gaps(rs: Seq<RecordingModel>)
    requires
        recordings::in_order(rs),
        can_stretch(rs),
    ensures
        forall|k: int, j: int|
            0 <= k < stretches(rs).len() && 0 <= j < rs.len() && starts_inside(
                #[trigger] stretches(rs)[k],
                #[trigger] rs[j],
            ) ==> led_to(stretches(rs)[k], rs, j, rs[j]),
    decreases rs.len(),
{
    if rs.len() > 0 {
        let front = rs.drop_last();
        let before = stretches(front);
        let after = stretches(rs);
        let r = rs.last();
        let end = end_of(r)->0;
        let to_last = before.len() > 0 && meets(before.last(), r.timestamp, end);
        let n = front.len() as int;
        law_stretches_have_no_gaps(front);
        lemma_extended(before, r.timestamp, end, to_last);
        lemma_starts_settled(front);
        assert(after == extended(before, r.timestamp, end, to_last));
        assert forall|k: int, j: int|
            0 <= k < after.len() && 0 <= j < rs.len() && starts_inside(
                #[trigger] after[k],
                #[trigger] rs[j],
            ) implies led_to(after[k], rs, j, rs[j]) by {
            if k == before.len() {
                assert(rs[j].timestamp.le(r.timestamp));
            } else if j < n {
                assert(rs[j] == front[j]);
                assert(rs[j].timestamp.le(before[k].timestamp_max)) by {
                    if k == before.len() - 1 {
                        assert(settled(before.last(), front[j]));
                    } else {
                        assert(after[k] == before[k]);
                    }
                }
                assert(starts_inside(before[k], front[j]));
                assert(led_to(before[k], front, j, front[j]));
                let i = choose|i: int|
                    0 <= i < j && covers(before[k], #[trigger] front[i]) && follows_on(
                        front[i],
                        front[j],
                    );
                assert(rs[i] == front[i]);
                lemma_still_covers(before[k], after[k], rs[i]);
            } else {
                lemma_last_is_led_to(rs, k);
            }
        }
    }
}

/// A stretch that the last recording starts inside leads on to it.
proof fn lemma_last_is_led_to(rs: Seq<RecordingModel>, k: int)
    requires
        rs.len() > 0,
        recordings::in_order(rs),
        can_stretch(rs),
        0 <= k < stretches(rs.drop_last()).len(),
        starts_inside(stretches(rs)[k], rs.last()),
    ensures
        led_to(stretches(rs)[k], rs, rs.len() - 1, rs.last()),
{
    let front = rs.drop_last();
    let before = stretches(front);
    let after = stretches(rs);
    let r = rs.last();
    let end = end_of(r)->0;
    let to_last = before.len() > 0 && meets(before.last(), r.timestamp, end);
    let jitter = VIDEO_JITTER_CORRECTION_MS as int;
    let max = before[k].timestamp_max;
    let far = time::shifted(max, jitter);
    let i = lemma_ends_with(front, k);
    assert(after == extended(before, r.timestamp, end, to_last));
    lemma_extended(before, r.timestamp, end, to_last);
    assert(rs[i] == front[i]);
    lemma_still_covers(before[k], after[k], rs[i]);
    assert(far is Some) by {
        lemma_reach(rs, k);
    }
    assert(r.timestamp.lt(far->0)) by {
        if r.timestamp.le(max) {
            lemma_starts_wf(front, i);
            time::lemma_shifted_wf(front[i].timestamp, front[i].duration);
            time::lemma_shifted_order(max, jitter);
        } else {
            assert(k == before.len() - 1);
            assert(to_last);
        }
    }
    assert(follows_on(rs[i], r));
}

/// Whether a recording starts before a stretch ends, or no later than it starts.
spec fn settled(s: RecordingListItem, r: RecordingModel) -> bool {
    r.timestamp.le(s.timestamp_max) || r.timestamp.le(s.timestamp_min)
}

/// Recordings that were taken in do not start behind the last stretch.
proof fn lemma_starts_settled(rs: Seq<RecordingModel>)
    requires
        recordings::in_order(rs),
        can_stretch(rs),
    ensures
        forall|j: int| 0 <= j < rs.len() ==> settled(stretches(rs).last(), #[trigger] rs[j]),
    decreases rs.len(),
{
    if rs.len() > 0 {
        let front = rs.drop_last();
        let before = stretches(front);
        let r = rs.last();
        let end = end_of(r)->0;
        let to_last = before.len() > 0 && meets(before.last(), r.timestamp, end);
        lemma_starts_settled(front);
        lemma_extended(before, r.timestamp, end, to_last);
        assert(stretches(rs) == extended(before, r.timestamp, end, to_last));
        assert forall|j: int| 0 <= j < rs.len() implies settled(
            stretches(rs).last(),
            #[trigger] rs[j],
        ) by {
            if j < front.len() {
                assert(settled(before.last(), front[j]));
                assert(rs[j].timestamp.le(rs[rs.len() - 1].timestamp));
            }
        }
    }
}

/// A stretch ends with a recording that lies within it.
proof fn lemma_ends_with(rs: Seq<RecordingModel>, k: int) -> (i: int)
    requires
        recordings::in_order(rs),
        can_stretch(rs),
        0 <= k < stretches(rs).len(),
    ensures
        0 <= i < rs.len(),
        covers(stretches(rs)[k], rs[i]),
        end_of(rs[i]) == Some(stretches(rs)[k].timestamp_max),
    decreases rs.len(),
{
    let front = rs.drop_last();
    let before = stretches(front);
    let after = stretches(rs);
    let r = rs.last();
    let end = end_of(r)->0;
    let to_last = before.len() > 0 && meets(before.last(), r.timestamp, end);
    lemma_extended(before, r.timestamp, end, to_last);
    assert(after == extended(before, r.timestamp, end, to_last));
    if k < before.len() && after[k].timestamp_max == before[k].timestamp_max {
        let i = lemma_ends_with(front, k);
        assert(rs[i] == front[i]);
        lemma_still_covers(before[k], after[k], rs[i]);
        i
    } else {
        if to_last {
            lemma_starts_ascend(rs);
        }
        lemma_covers(after[k], r, end);
        rs.len() - 1
    }
}

/// How far a stretch reaches once another recording was taken in can be represented.
proof fn lemma_reach(rs: Seq<RecordingModel>, k: int)
    requires
        rs.len() > 0,
        can_stretch(rs),
        0 <= k < stretches(rs.drop_last()).len(),
    ensures
        reach(stretches(rs.drop_last())[k]).1 is Some,
    decreases rs.len(),
{
    let front = rs.drop_last();
    if k < stretches(front).len() - 1 {
        let before = stretches(front.drop_last());
        let r = front.last();
        let end = end_of(r)->0;
        let to_last = before.len() > 0 && meets(before.last(), r.timestamp, end);
        assert(stretches(front) == extended(before, r.timestamp, end, to_last));
        lemma_reach(front, k);
        assert(stretches(front)[k] == before[k]);
    }
}

/// Where the stretches can be computed, the starts can be represented.
proof fn lemma_starts_wf(rs: Seq<RecordingModel>, i: int)
    requires
        can_stretch(rs),
        0 <= i < rs.len(),
    ensures
        rs[i].timestamp.wf(),
        end_of(rs[i]) is Some,
    decreases rs.len(),
{
    if i < rs.len() - 1 {
        lemma_starts_wf(rs.drop_last(), i);
        assert(rs.drop_last()[i] == rs[i]);
    }
}

/// Recordings whose starts and ends stay clear of the first and the last time that can be
/// represented, by more than the jitter, can always be taken together.
pub proof fn law_ordinary_recordings_can_stretch(rs: Seq<RecordingModel>)
    requires
        forall|j: int|
            0 <= j < rs.len() ==> (#[trigger] rs[j]).timestamp.wf() && end_of(rs[j]) is Some
                && time::shifted(rs[j].timestamp, -VIDEO_JITTER_CORRECTION_MS) is Some
                && time::shifted(end_of(rs[j])->0, VIDEO_JITTER_CORRECTION_MS as int) is Some,
    ensures
        can_stretch(rs),
    decreases rs.len(),
{
    if rs.len() > 0 {
        let front = rs.drop_last();
        let before = stretches(front);
        assert forall|j: int| 0 <= j < front.len() implies (#[trigger] front[j]).timestamp.wf()
            && end_of(front[j]) is Some && time::shifted(
            front[j].timestamp,
            -VIDEO_JITTER_CORRECTION_MS,
        ) is Some && time::shifted(end_of(front[j])->0, VIDEO_JITTER_CORRECTION_MS as int) is Some by {
            assert(front[j] == rs[j]);
        }
        law_ordinary_recordings_can_stretch(front);
        law_stretches_are_recorded(front);
        assert(rs[rs.len() - 1] == rs.last());
        if before.len() > 0 {
            let last = before[before.len() - 1];
            assert(made_of(last, front));
            let i = choose|i: int| 0 <= i < front.len() && (#[trigger] front[i]).timestamp
                == last.timestamp_min;
            let j = choose|j: int| 0 <= j < front.len() && end_of(#[trigger] front[j]) == Some(
                last.timestamp_max,
            );
            assert(front[i].timestamp.wf());
            assert(end_of(front[j]) is Some);
        }
    }
}

/// Recordings that last some time and follow on within five seconds lie within the same stretch:
/// where one starts less than five seconds after an earlier one ends, one stretch holds all of
/// both. (A recording that ends in the leap second behind the second in which the earlier one
/// ends can hide that they follow on.)
pub proof fn law_recordings_that_follow_on_share_a_stretch(
    rs: Seq<RecordingModel>,
    i: int,
    j: int,
    end: Timestamp,
    last: Timestamp,
    limit: Timestamp,
)
    requires
        forall|a: int, b: int|
            0 <= a < b < rs.len() ==> (#[trigger] rs[a]).timestamp.le(
                (#[trigger] rs[b]).timestamp,
            ),
        can_stretch(rs),
        forall|k: int| 0 <= k < rs.len() ==> (#[trigger] rs[k]).duration > 0,
        0 <= i < j < rs.len(),
        time::shifted(rs[i].timestamp, rs[i].duration) == Some(end),
        time::shifted(rs[j].timestamp, rs[j].duration) == Some(last),
        time::shifted(end, 5000) == Some(limit),
        rs[j].timestamp.lt(limit),
        forall|k: int|
            0 <= k < rs.len() ==> (time::shifted(
                (#[trigger] rs[k]).timestamp,
                rs[k].duration,
            ) matches Some(t) ==> !(t.is_leap() && !end.is_leap() && t.secs == end.secs)),
    ensures
        exists|k: int|
            0 <= k < stretches(rs).len() && (#[trigger] stretches(rs)[k]).timestamp_min.le(
                rs[i].timestamp,
            ) && end.le(stretches(rs)[k].timestamp_max) && stretches(rs)[k].timestamp_min.le(
                rs[j].timestamp,
            ) && last.le(stretches(rs)[k].timestamp_max),
{
    let list = stretches(rs);
    law_stretches_cover_recordings(rs);
    assert(covered(list, rs[i]));
    assert(covered(list, rs[j]));
    let a = choose|k: int| 0 <= k < list.len() && covers(#[trigger] list[k], rs[i]);
    let b = choose|k: int| 0 <= k < list.len() && covers(#[trigger] list[k], rs[j]);
    lemma_starts_wf(rs, i);
    lemma_starts_wf(rs, j);
    time::lemma_shifted_wf(rs[i].timestamp, rs[i].duration);
    if a < b {
        law_stretches_are_five_seconds_apart(rs, a, b);
        let m = lemma_ends_with(rs, a);
        let max = list[a].timestamp_max;
        lemma_starts_wf(rs, m);
        time::lemma_shifted_wf(rs[m].timestamp, rs[m].duration);
        assert(time::shifted(rs[m].timestamp, rs[m].duration) == Some(max));
        assert(end.le(max));
        lemma_shifted_ascends(end, max);
        assert(false);
    } else if b < a {
        law_stretches_are_five_seconds_apart(rs, b, a);
        let m = lemma_ends_with(rs, b);
        let max = list[b].timestamp_max;
        lemma_starts_wf(rs, m);
        time::lemma_shifted_wf(rs[m].timestamp, rs[m].duration);
        time::lemma_shifted_order(rs[j].timestamp, rs[j].duration);
        time::lemma_shifted_order(max, 5000);
        assert(rs[i].timestamp.le(rs[j].timestamp));
        assert(false);
    }
}

/// Of two times, the later one is later after five seconds too, but for a leap second.
proof fn lemma_shifted_ascends(a: Timestamp, b: Timestamp)
    requires
        a.wf() && b.wf(),
        a.le(b),
        !(b.is_leap() && !a.is_leap() && a.secs == b.secs),
        time::shifted(a, 5000) is Some,
        time::shifted(b, 5000) is Some,
    ensures
        time::shifted(a, 5000)->0.le(time::shifted(b, 5000)->0),
{
}

/// One more recording changes the last stretch or adds one, and leaves all others as they are. It
/// is added to the last stretch where it lasts some time and lies less than five seconds before
/// or behind it; that stretch then ends with whichever ends later. Otherwise it is a stretch of
/// its own. No recordings make no stretches.
pub proof fn law_one_more_recording(rs: Seq<RecordingModel>, r: RecordingModel, end: Timestamp)
    requires
        can_stretch(rs.push(r)),
        time::shifted(r.timestamp, r.duration) == Some(end),
    ensures
        stretches(Seq::<RecordingModel>::empty()) == Seq::<RecordingListItem>::empty(),
        ({
            let before = stretches(rs);
            let after = stretches(rs.push(r));
            let from = time::shifted(before.last().timestamp_min, -5000)->0;
            let to = time::shifted(before.last().timestamp_max, 5000)->0;
            if before.len() > 0 && from.lt(to) && from.lt(end) && r.timestamp.lt(to)
                && r.timestamp.lt(end) {
                &&& after.len() == before.len()
                &&& after.drop_last() == before.drop_last()
                &&& after.last().timestamp_min == before.last().timestamp_min
                &&& after.last().timestamp_max == if before.last().timestamp_max.lt(end) {
                    end
                } else {
                    before.last().timestamp_max
                }
            } else {
                after == before.push(RecordingListItem { timestamp_min: r.timestamp, timestamp_max: end })
            }
        }),
{
    assert(rs.push(r).drop_last() =~= rs);
    let before = stretches(rs);
    let after = stretches(rs.push(r));
    if before.len() > 0 && meets(before.last(), r.timestamp, end) {
        assert(after.drop_last() =~= before.drop_last());
    }
}

/// Stretches can be computed for one more recording exactly where they can for those before it,
/// its start and its end can be represented, and so can the times five seconds around the last
/// stretch. For no recordings they can.
pub proof fn law_what_one_more_recording_needs(rs: Seq<RecordingModel>, r: RecordingModel)
    ensures
        can_stretch(Seq::<RecordingModel>::empty()),
        can_stretch(rs.push(r)) <==> can_stretch(rs) && r.timestamp.wf() && time::shifted(
            r.timestamp,
            r.duration,
        ) is Some && (stretches(rs).len() > 0 ==> time::shifted(
            stretches(rs).last().timestamp_min,
            -5000,
        ) is Some && time::shifted(stretches(rs).last().timestamp_max, 5000) is Some),
{
    assert(rs.push(r).drop_last() =~= rs);
}

} // verus!
