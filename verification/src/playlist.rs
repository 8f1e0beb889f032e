//! The playlist of a time range: one entry for each recording.

use crate::path;
use crate::recordings;
use crate::recordings::{FoundFile, Recording};
use crate::text;
use crate::time;
use crate::time::Timestamp;
use vstd::prelude::*;
use vstd::string::*;

verus! {

/// Up to this many milliseconds, which are two to the power of 39 seconds, a length in seconds
/// shows the same four digits behind the point when it is computed with binary fractions of 53
/// digits.
pub const EXACT_MS: i64 = 549_755_813_888_000;

/// The recordings of a time range.
#[derive(Clone, Debug)]
pub struct HlsPlaylist {
    pub files: Vec<HlsPlaylistItem>,
}

/// A recording: the name of its file, its start, and how many milliseconds it lasts.
#[derive(Clone, Debug)]
pub struct HlsPlaylistItem {
    pub relpath: String,
    pub timestamp: Timestamp,
    pub duration: i64,
}

/// An item of a playlist as a value.
pub struct ItemModel {
    pub relpath: Seq<char>,
    pub timestamp: Timestamp,
    pub duration: int,
}

impl View for HlsPlaylistItem {
    type V = ItemModel;

    open spec fn view(&self) -> ItemModel {
        ItemModel {
            relpath: self.relpath@,
            timestamp: self.timestamp,
            duration: self.duration as int,
        }
    }
}

/// The item that a recording makes.
pub open spec fn item_of(r: recordings::RecordingModel) -> ItemModel {
    ItemModel {
        relpath: match path::name_of(r.path) {
            Some(name) => name,
            None => Seq::<char>::empty(),
        },
        timestamp: r.timestamp,
        duration: r.duration,
    }
}

/// Milliseconds as seconds with four digits behind the point.
pub open spec fn seconds(ms: int) -> Seq<char> {
    if ms < 0 {
        seq!['-'] + seconds_unsigned((-ms) as nat)
    } else {
        seconds_unsigned(ms as nat)
    }
}

/// Milliseconds as seconds with four digits behind the point, without a sign.
pub open spec fn seconds_unsigned(ms: nat) -> Seq<char> {
    text::decimal(ms / 1000) + seq!['.'] + text::padded(ms % 1000, 3) + seq!['0']
}

/// The name under which a recording is asked for, with the time at which it starts within
/// the playlist.
pub open spec fn entry_name(relpath: Seq<char>, start: int) -> Seq<char> {
    text::replaced(relpath, ".mp4"@, Seq::<char>::empty()) + "_"@ + text::signed_decimal(start)
        + ".ts"@
}

/// When the item at a position starts within the playlist: what those before it last.
pub open spec fn start_of(files: Seq<ItemModel>, k: int) -> int
    decreases k,
{
    if k <= 0 {
        0
    } else {
        start_of(files, k - 1) + files[k - 1].duration
    }
}

/// The entries of the first items of a playlist.
pub open spec fn entries(files: Seq<ItemModel>, lengths: Seq<Seq<char>>, k: int) -> Seq<char>
    decreases k,
{
    if k <= 0 {
        Seq::<char>::empty()
    } else {
        entries(files, lengths, k - 1) + "#EXTINF:"@ + lengths[k - 1] + "\n"@ + entry_name(
            files[k - 1].relpath,
            start_of(files, k - 1),
        ) + "\n"@
    }
}

/// The text of a playlist, with the lengths of its items as they are written.
pub open spec fn playlist_text(files: Seq<ItemModel>, lengths: Seq<Seq<char>>) -> Seq<char> {
    "#EXTM3U\n#EXT-X-VERSION:3\n#EXT-X-MEDIA-SEQUENCE:0\n"@ + entries(
        files,
        lengths,
        files.len() as int,
    ) + "#EXT-X-ENDLIST"@
}

/// Writes milliseconds as seconds with four digits behind the point.
pub fn seconds_text(ms: i64) -> (r: String)
    ensures
        r@ == seconds(ms as int),
{
    let mut r = String::new();
    let magnitude: u64 = if ms < 0 {
        (-(ms as i128)) as u64
    } else {
        ms as u64
    };
    proof {
        reveal_strlit("-");
        reveal_strlit(".");
        reveal_strlit("0");
    }
    if ms < 0 {
        r.append("-");
    }
    r.append(text::decimal_text(magnitude / 1000).as_str());
    r.append(".");
    r.append(text::padded_text(magnitude % 1000, 3).as_str());
    r.append("0");
    assert(r@ =~= seconds(ms as int));
    r
}

/// Writes the name under which a recording is asked for.
pub fn entry_name_text(relpath: &str, start: i64) -> (r: String)
    ensures
        r@ == entry_name(relpath@, start as int),
{
    proof {
        reveal_strlit(".mp4");
        reveal_strlit("");
        assert(""@ =~= Seq::<char>::empty());
    }
    let mut r = text::replace_all(relpath, ".mp4", "");
    r.append("_");
    r.append(text::signed_text(start).as_str());
    r.append(".ts");
    r
}

impl HlsPlaylist {
    /// The items as values.
    pub open spec fn items(self) -> Seq<ItemModel> {
        self.files@.map_values(|i: HlsPlaylistItem| i@)
    }

    /// Whether all starts can be computed, the end of the last item included.
    pub open spec fn starts_fit(self) -> bool {
        forall|k: int|
            0 <= k <= self.files@.len() ==> i64::MIN <= #[trigger] start_of(self.items(), k)
                <= i64::MAX
    }

    /// Whether all lengths are exact.
    pub open spec fn lengths_exact(self) -> bool {
        forall|k: int|
            0 <= k < self.files@.len() ==> -EXACT_MS <= (#[trigger] self.files@[k]).duration
                <= EXACT_MS
    }

    /// The lengths of the items in seconds.
    pub open spec fn lengths(self) -> Seq<Seq<char>> {
        self.files@.map_values(|i: HlsPlaylistItem| seconds(i.duration as int))
    }

    /// The playlist of recordings, in their order.
    pub fn from_recordings(found: &Vec<Recording>) -> (r: HlsPlaylist)
        ensures
            r.items() == recordings::models(found@).map_values(
                |x: recordings::RecordingModel| item_of(x),
            ),
            r.files@.len() == found@.len(),
            forall|k: int|
                #![trigger r.files@[k]]
                #![trigger found@[k]]
                0 <= k < found@.len() ==> r.files@[k].timestamp == found@[k].timestamp
                    && r.files@[k].duration == found@[k].duration && (match path::name_of(
                    found@[k].path@,
                ) {
                    Some(name) => r.files@[k].relpath@ == name,
                    None => r.files@[k].relpath@.len() == 0,
                }),
    {
        let mut files: Vec<HlsPlaylistItem> = Vec::new();
        let len = found.len();
        let ghost all = recordings::models(found@).map_values(
            |x: recordings::RecordingModel| item_of(x),
        );
        let mut k: usize = 0;
        while k < len
            invariant
                k <= len,
                len == found@.len(),
                all == recordings::models(found@).map_values(
                    |x: recordings::RecordingModel| item_of(x),
                ),
                files@.map_values(|i: HlsPlaylistItem| i@) == all.take(k as int),
            decreases len - k,
        {
            let ghost before = files@.map_values(|i: HlsPlaylistItem| i@);
            let recording = &found[k];
            let relpath = match path::file_name(recording.path.as_str()) {
                Some(name) => name,
                None => String::new(),
            };
            let item = HlsPlaylistItem {
                relpath,
                timestamp: recording.timestamp,
                duration: recording.duration,
            };
            assert(item@ == item_of(recording@));
            files.push(item);
            assert(files@.map_values(|i: HlsPlaylistItem| i@) =~= before.push(item@));
            assert(all.take(k + 1) =~= all.take(k as int).push(all[k as int]));
            k = k + 1;
        }
        assert(all.take(len as int) =~= all);
        let r = HlsPlaylist { files };
        proof {
            assert(r.items().len() == r.files@.len());
            assert forall|k: int|
                #![trigger r.files@[k]]
                #![trigger found@[k]]
                0 <= k < found@.len() implies r.files@[k].timestamp == found@[k].timestamp
                && r.files@[k].duration == found@[k].duration && (match path::name_of(
                found@[k].path@,
            ) {
                Some(name) => r.files@[k].relpath@ == name,
                None => r.files@[k].relpath@.len() == 0,
            }) by {
                assert(r.items()[k] == r.files@[k]@);
                assert(recordings::models(found@)[k] == found@[k]@);
                assert(all[k] == item_of(found@[k]@));
            }
        }
        r
    }

    /// Whether all starts can be computed.
    pub fn check_starts(&self) -> (r: bool)
        ensures
            r == self.starts_fit(),
    {
        let mut start: i64 = 0;
        let len = self.files.len();
        let mut k: usize = 0;
        while k < len
            invariant
                k <= len,
                len == self.files@.len(),
                start == start_of(self.items(), k as int),
                forall|j: int|
                    0 <= j <= k ==> i64::MIN <= #[trigger] start_of(self.items(), j) <= i64::MAX,
            decreases len - k,
        {
            assert(self.items()[k as int] == self.files@[k as int]@);
            assert(start_of(self.items(), k + 1) == start + self.files@[k as int].duration);
            match start.checked_add(self.files[k].duration) {
                Some(next) => {
                    start = next;
                },
                None => {
                    return false;
                },
            }
            k = k + 1;
        }
        true
    }

    /// Whether all lengths are exact.
    pub fn check_lengths(&self) -> (r: bool)
        ensures
            r == self.lengths_exact(),
            r == (forall|k: int|
                0 <= k < self.files@.len() ==> -549_755_813_888_000 <= (
                #[trigger] self.files@[k]).duration <= 549_755_813_888_000),
    {
        let len = self.files.len();
        let mut k: usize = 0;
        while k < len
            invariant
                k <= len,
                len == self.files@.len(),
                forall|j: int|
                    0 <= j < k ==> -EXACT_MS <= (#[trigger] self.files@[j]).duration <= EXACT_MS,
            decreases len - k,
        {
            let duration = self.files[k].duration;
            if duration < -EXACT_MS || duration > EXACT_MS {
                return false;
            }
            k = k + 1;
        }
        true
    }

    /// Writes the playlist with lengths that were written before.
    pub fn write_with(&self, lengths: &Vec<String>) -> (r: String)
        requires
            self.starts_fit(),
            lengths@.len() == self.files@.len(),
        ensures
            r@ == playlist_text(self.items(), text::texts(lengths@)),
    {
        let mut t = "#EXTM3U\n#EXT-X-VERSION:3\n#EXT-X-MEDIA-SEQUENCE:0\n".to_owned();
        let ghost head = t@;
        let ghost written = text::texts(lengths@);
        let mut start: i64 = 0;
        let len = self.files.len();
        let mut k: usize = 0;
        assert(t@ =~= head + entries(self.items(), written, 0));
        while k < len
            invariant
                k <= len,
                len == self.files@.len(),
                lengths@.len() == len,
                written == text::texts(lengths@),
                self.starts_fit(),
                start == start_of(self.items(), k as int),
                t@ == head + entries(self.items(), written, k as int),
            decreases len - k,
        {
            let item = &self.files[k];
            assert(self.items()[k as int] == item@);
            assert(written[k as int] == lengths@[k as int]@);
            t.append("#EXTINF:");
            t.append(lengths[k].as_str());
            t.append("\n");
            t.append(entry_name_text(item.relpath.as_str(), start).as_str());
            t.append("\n");
            assert(t@ =~= head + entries(self.items(), written, k + 1));
            assert(start_of(self.items(), k + 1) == start + item.duration);
            start = start + item.duration;
            k = k + 1;
        }
        t.append("#EXT-X-ENDLIST");
        assert(t@ =~= playlist_text(self.items(), written));
        t
    }

    /// Writes the playlist.
    pub fn write(&self) -> (r: String)
        requires
            self.starts_fit(),
            self.lengths_exact(),
        ensures
            r@ == playlist_text(self.items(), self.lengths()),
    {
        let mut lengths: Vec<String> = Vec::new();
        let len = self.files.len();
        let mut k: usize = 0;
        while k < len
            invariant
                k <= len,
                len == self.files@.len(),
                text::texts(lengths@) == self.lengths().take(k as int),
            decreases len - k,
        {
            text::push_text(&mut lengths, seconds_text(self.files[k].duration).as_str());
            assert(self.lengths().take(k + 1) =~= self.lengths().take(k as int).push(
                self.lengths()[k as int],
            ));
            k = k + 1;
        }
        assert(self.lengths().take(len as int) =~= self.lengths());
        assert(text::texts(lengths@).len() == lengths@.len());
        self.write_with(&lengths)
    }
}

/// The playlist of the recordings under the video root that start in a time range. A file that
/// was recorded within the range is in it, under the name that it was given.
pub fn create_playlist(
    video_root: &str,
    files: &Vec<FoundFile>,
    begin: Timestamp,
    end: Timestamp,
) -> (r: HlsPlaylist)
    ensures
        exists|found: Seq<recordings::RecordingModel>| #[trigger]
            recordings::stably_sorted(
                recordings::within(
                    recordings::all_recordings(video_root@, recordings::file_models(files@)),
                    begin,
                    end,
                ),
                found,
            ) && r.items() == found.map_values(|x: recordings::RecordingModel| item_of(x)),
        forall|k: int, camera: Seq<char>, resolution: Seq<char>, t: Timestamp, ms: i64|
            #![trigger files@[k], recordings::recorded_file(video_root@, camera, resolution, t, ms as int)]
            0 <= k < files@.len() && recordings::recordable(camera, resolution, t) && files@[k]@
                == recordings::recorded_file(video_root@, camera, resolution, t, ms as int)
                && begin.le(t.whole_millis()) && t.whole_millis().le(end) ==> r.items().contains(
                recorded_item(t, ms as int),
            ),
{
    let found = recordings::find_recordings(video_root, files, begin, end);
    let r = HlsPlaylist::from_recordings(&found);
    proof {
        let models = recordings::models(found@);
        assert forall|k: int, camera: Seq<char>, resolution: Seq<char>, t: Timestamp, ms: i64|
            #![trigger files@[k], recordings::recorded_file(video_root@, camera, resolution, t, ms as int)]
            0 <= k < files@.len() && recordings::recordable(camera, resolution, t) && files@[k]@
                == recordings::recorded_file(video_root@, camera, resolution, t, ms as int)
                && begin.le(t.whole_millis()) && t.whole_millis().le(
                end,
            ) implies r.items().contains(recorded_item(t, ms as int)) by {
            let reread = recordings::reread(video_root@, camera, resolution, t, ms as int);
            assert(models.contains(reread));
            let i = choose|i: int| 0 <= i < models.len() && models[i] == reread;
            law_recorded_file_keeps_its_name(video_root@, camera, resolution, t, ms);
            assert(r.items()[i] == item_of(reread));
        }
    }
    r
}

/// The item of a recorded file.
pub open spec fn recorded_item(t: Timestamp, ms: int) -> ItemModel {
    ItemModel {
        relpath: recordings::recorded_name(t, ms),
        timestamp: t.whole_millis(),
        duration: ms,
    }
}

/// In a playlist a recorded file has the name that it was given.
pub proof fn law_recorded_file_keeps_its_name(
    video_root: Seq<char>,
    camera: Seq<char>,
    resolution: Seq<char>,
    t: Timestamp,
    ms: i64,
)
    requires
        recordings::recordable(camera, resolution, t),
    ensures
        item_of(recordings::reread(video_root, camera, resolution, t, ms as int)).relpath
            == recordings::recorded_name(t, ms as int),
{
    let parts = recordings::recorded_parts(camera, resolution, t, ms as int);
    recordings::lemma_recorded_parts_plain(camera, resolution, t, ms);
    path::law_join_then_strip(video_root, parts);
}

/// The entry of a recorded file is its start, its length and its place in the playlist.
pub proof fn lemma_recorded_entry(t: Timestamp, ms: i64, start: int)
    ensures
        entry_name(recordings::recorded_name(t, ms as int), start) == time::stamp_text(t) + "_"@
            + text::signed_decimal(ms as int) + "_"@ + text::signed_decimal(start) + ".ts"@,
{
    let stem = time::stamp_text(t) + seq!['_'] + text::signed_decimal(ms as int);
    reveal_strlit(".mp4");
    reveal_strlit("_");
    assert("_"@ =~= seq!['_']);
    assert(".mp4"@ =~= seq!['.', 'm', 'p', '4']);
    assert(recordings::recorded_name(t, ms as int) =~= stem + ".mp4"@);
    time::lemma_stamp_lacks(t, 'm');
    recordings::lemma_number_lacks(ms as int, 'm');
    text::lemma_lacks_concat(time::stamp_text(t), seq!['_'], 'm');
    text::lemma_lacks_concat(
        time::stamp_text(t) + seq!['_'],
        text::signed_decimal(ms as int),
        'm',
    );
    text::lemma_replaced_suffix(stem, ".mp4"@);
}

/// A recording is asked for by its name without `.mp4`, where it starts in the playlist, and
/// `.ts`.
pub proof fn law_name_of_an_entry(relpath: Seq<char>, start: int)
    ensures
        entry_name(relpath, start) == text::replaced(relpath, ".mp4"@, Seq::<char>::empty()) + "_"@
            + text::signed_decimal(start) + ".ts"@,
{
}

/// One more recording adds two lines before the end of the playlist: its length, and its entry,
/// which starts where all those before it together end. A playlist of no recordings has nothing
/// between its head and its end.
pub proof fn law_one_more_recording_adds_its_entry(
    files: Seq<ItemModel>,
    lengths: Seq<Seq<char>>,
    starts: Seq<int>,
    item: ItemModel,
    length: Seq<char>,
    before: Seq<char>,
)
    requires
        lengths.len() == files.len(),
        starts.len() == files.len() + 1,
        starts[0] == 0,
        forall|k: int|
            0 <= k < files.len() ==> starts[k + 1] == starts[k] + (#[trigger] files[k]).duration,
        playlist_text(files, lengths) == before + "#EXT-X-ENDLIST"@,
    ensures
        playlist_text(Seq::<ItemModel>::empty(), Seq::<Seq<char>>::empty())
            == "#EXTM3U\n#EXT-X-VERSION:3\n#EXT-X-MEDIA-SEQUENCE:0\n"@ + "#EXT-X-ENDLIST"@,
        playlist_text(files.push(item), lengths.push(length)) == before + "#EXTINF:"@ + length
            + "\n"@ + (text::replaced(item.relpath, ".mp4"@, Seq::<char>::empty()) + "_"@
            + text::signed_decimal(starts.last()) + ".ts"@) + "\n"@ + "#EXT-X-ENDLIST"@,
{
    let head = "#EXTM3U\n#EXT-X-VERSION:3\n#EXT-X-MEDIA-SEQUENCE:0\n"@;
    let end = "#EXT-X-ENDLIST"@;
    let n = files.len() as int;
    let more = files.push(item);
    let most = lengths.push(length);
    lemma_entries_prefix(files, lengths, item, length, n);
    lemma_sums(more, starts, n);
    assert(before =~= head + entries(files, lengths, n)) by {
        let whole = head + entries(files, lengths, n);
        assert((whole + end).take(whole.len() as int) =~= whole);
        assert((before + end).take(before.len() as int) =~= before);
        assert((before + end).len() == (whole + end).len());
    }
    assert(more[n] == item && most[n] == length);
    assert(entries(more, most, n + 1) == entries(more, most, n) + "#EXTINF:"@ + length + "\n"@
        + entry_name(item.relpath, start_of(more, n)) + "\n"@);
    assert(playlist_text(more, most) =~= before + "#EXTINF:"@ + length + "\n"@ + entry_name(
        item.relpath,
        starts.last(),
    ) + "\n"@ + end);
    let none = Seq::<ItemModel>::empty();
    assert(entries(none, Seq::<Seq<char>>::empty(), 0) =~= Seq::<char>::empty());
    assert(playlist_text(none, Seq::<Seq<char>>::empty()) =~= head + end);
}

/// What the items before one last together is where it starts.
proof fn lemma_sums(files: Seq<ItemModel>, starts: Seq<int>, n: int)
    requires
        0 <= n < starts.len(),
        n <= files.len(),
        starts[0] == 0,
        forall|k: int| 0 <= k < n ==> starts[k + 1] == starts[k] + (#[trigger] files[k]).duration,
    ensures
        start_of(files, n) == starts[n],
    decreases n,
{
    if n > 0 {
        lemma_sums(files, starts, n - 1);
        assert(starts[(n - 1) + 1] == starts[n - 1] + files[n - 1].duration);
    }
}

/// Items behind do not change the entries before them.
proof fn lemma_entries_prefix(
    files: Seq<ItemModel>,
    lengths: Seq<Seq<char>>,
    item: ItemModel,
    length: Seq<char>,
    n: int,
)
    requires
        0 <= n <= files.len(),
        lengths.len() == files.len(),
    ensures
        entries(files.push(item), lengths.push(length), n) == entries(files, lengths, n),
        start_of(files.push(item), n) == start_of(files, n),
    decreases n,
{
    if n > 0 {
        lemma_entries_prefix(files, lengths, item, length, n - 1);
        assert(files.push(item)[n - 1] == files[n - 1]);
        assert(lengths.push(length)[n - 1] == lengths[n - 1]);
    }
}

/// The text of a playlist has three lines of head, two lines for each recording and one line at
/// the end. The second line of a recording is its entry, and names as its start what all the
/// recordings before it last together.
pub proof fn law_lines_of_a_playlist(
    files: Seq<ItemModel>,
    lengths: Seq<Seq<char>>,
    starts: Seq<int>,
    k: int,
)
    requires
        lengths.len() == files.len(),
        starts.len() == files.len() + 1,
        starts[0] == 0,
        forall|j: int|
            0 <= j < files.len() ==> starts[j + 1] == starts[j] + (#[trigger] files[j]).duration,
        forall|j: int| 0 <= j < files.len() ==> text::lacks((#[trigger] files[j]).relpath, '\n'),
        forall|j: int| 0 <= j < lengths.len() ==> text::lacks(#[trigger] lengths[j], '\n'),
        0 <= k < files.len(),
    ensures
        ({
            let lines = text::split(playlist_text(files, lengths), '\n');
            &&& lines.len() == 2 * files.len() + 4
            &&& lines[0] == "#EXTM3U"@
            &&& lines[1] == "#EXT-X-VERSION:3"@
            &&& lines[2] == "#EXT-X-MEDIA-SEQUENCE:0"@
            &&& lines[2 * k + 3] == "#EXTINF:"@ + lengths[k]
            &&& lines[2 * k + 4] == text::replaced(files[k].relpath, ".mp4"@, Seq::<char>::empty())
                + "_"@ + text::signed_decimal(starts[k]) + ".ts"@
            &&& lines.last() == "#EXT-X-ENDLIST"@
        }),
{
    let head = "#EXTM3U\n#EXT-X-VERSION:3\n#EXT-X-MEDIA-SEQUENCE:0\n"@;
    let end = "#EXT-X-ENDLIST"@;
    let n = files.len() as int;
    lemma_head_lines();
    lemma_lines(files, lengths, starts, n, k);
    reveal_strlit("#EXT-X-ENDLIST");
    assert(text::lacks(end, '\n'));
    text::lemma_split_whole(end, '\n');
    let body = head + entries(files, lengths, n);
    assert(body.last() == '\n');
    let front = body.drop_last();
    assert(playlist_text(files, lengths) =~= front + seq!['\n'] + end);
    text::lemma_split_concat(front, '\n', end);
}

/// The lines of the head of a playlist.
proof fn lemma_head_lines()
    ensures
        ({
            let head = "#EXTM3U\n#EXT-X-VERSION:3\n#EXT-X-MEDIA-SEQUENCE:0\n"@;
            &&& head.len() > 0
            &&& head.last() == '\n'
            &&& text::split(head.drop_last(), '\n') == seq![
                "#EXTM3U"@,
                "#EXT-X-VERSION:3"@,
                "#EXT-X-MEDIA-SEQUENCE:0"@,
            ]
        }),
{
    reveal_strlit("#EXTM3U\n#EXT-X-VERSION:3\n#EXT-X-MEDIA-SEQUENCE:0\n");
    reveal_strlit("#EXTM3U");
    reveal_strlit("#EXT-X-VERSION:3");
    reveal_strlit("#EXT-X-MEDIA-SEQUENCE:0");
    let head = "#EXTM3U\n#EXT-X-VERSION:3\n#EXT-X-MEDIA-SEQUENCE:0\n"@;
    let a = "#EXTM3U"@;
    let b = "#EXT-X-VERSION:3"@;
    let c = "#EXT-X-MEDIA-SEQUENCE:0"@;
    assert(text::lacks(a, '\n') && text::lacks(b, '\n') && text::lacks(c, '\n'));
    assert(head.drop_last() =~= a + seq!['\n'] + (b + seq!['\n'] + c));
    text::lemma_split_concat(a, '\n', b + seq!['\n'] + c);
    text::lemma_split_concat(b, '\n', c);
    text::lemma_split_whole(a, '\n');
    text::lemma_split_whole(b, '\n');
    text::lemma_split_whole(c, '\n');
    assert(text::split(head.drop_last(), '\n') =~= seq![a, b, c]);
}

/// The lines of the head and the first items of a playlist.
proof fn lemma_lines(
    files: Seq<ItemModel>,
    lengths: Seq<Seq<char>>,
    starts: Seq<int>,
    n: int,
    k: int,
)
    requires
        lengths.len() == files.len(),
        starts.len() == files.len() + 1,
        starts[0] == 0,
        forall|j: int|
            0 <= j < files.len() ==> starts[j + 1] == starts[j] + (#[trigger] files[j]).duration,
        forall|j: int| 0 <= j < files.len() ==> text::lacks((#[trigger] files[j]).relpath, '\n'),
        forall|j: int| 0 <= j < lengths.len() ==> text::lacks(#[trigger] lengths[j], '\n'),
        0 <= n <= files.len(),
    ensures
        ({
            let head = "#EXTM3U\n#EXT-X-VERSION:3\n#EXT-X-MEDIA-SEQUENCE:0\n"@;
            let text = head + entries(files, lengths, n);
            let lines = text::split(text.drop_last(), '\n');
            &&& text.len() > 0
            &&& text.last() == '\n'
            &&& lines.len() == 2 * n + 3
            &&& lines[0] == "#EXTM3U"@
            &&& lines[1] == "#EXT-X-VERSION:3"@
            &&& lines[2] == "#EXT-X-MEDIA-SEQUENCE:0"@
            &&& 0 <= k < n ==> lines[2 * k + 3] == "#EXTINF:"@ + lengths[k] && lines[2 * k + 4]
                == entry_name(files[k].relpath, starts[k])
        }),
    decreases n,
{
    let head = "#EXTM3U\n#EXT-X-VERSION:3\n#EXT-X-MEDIA-SEQUENCE:0\n"@;
    let whole = head + entries(files, lengths, n);
    lemma_head_lines();
    if n == 0 {
        assert(whole =~= head);
    } else {
        let before = head + entries(files, lengths, n - 1);
        let length = "#EXTINF:"@ + lengths[n - 1];
        let entry = entry_name(files[n - 1].relpath, starts[n - 1]);
        lemma_lines(files, lengths, starts, n - 1, k);
        lemma_sums(files, starts, n - 1);
        reveal_strlit("\n");
        reveal_strlit("#EXTINF:");
        assert("\n"@ =~= seq!['\n']);
        assert(text::lacks("#EXTINF:"@, '\n'));
        assert(text::lacks(lengths[n - 1], '\n'));
        text::lemma_lacks_concat("#EXTINF:"@, lengths[n - 1], '\n');
        assert(text::lacks(files[n - 1].relpath, '\n'));
        lemma_entry_is_a_line(files[n - 1].relpath, starts[n - 1]);
        let front = before.drop_last();
        assert(whole =~= before + "#EXTINF:"@ + lengths[n - 1] + "\n"@ + entry + "\n"@);
        assert(whole.drop_last() =~= front + seq!['\n'] + (length + seq!['\n'] + entry));
        text::lemma_split_concat(front, '\n', length + seq!['\n'] + entry);
        text::lemma_split_concat(length, '\n', entry);
        text::lemma_split_whole(length, '\n');
        text::lemma_split_whole(entry, '\n');
        let old_lines = text::split(front, '\n');
        let lines = text::split(whole.drop_last(), '\n');
        assert(lines =~= old_lines + seq![length, entry]);
    }
}

/// An entry is one line, where the name of the recording is.
proof fn lemma_entry_is_a_line(relpath: Seq<char>, start: int)
    requires
        text::lacks(relpath, '\n'),
    ensures
        text::lacks(entry_name(relpath, start), '\n'),
{
    let stem = text::replaced(relpath, ".mp4"@, Seq::<char>::empty());
    let number = text::signed_decimal(start);
    reveal_strlit("_");
    reveal_strlit(".ts");
    reveal_strlit(".mp4");
    lemma_replaced_lacks(relpath, ".mp4"@, '\n');
    recordings::lemma_number_lacks(start, '\n');
    text::lemma_lacks_concat(stem, "_"@, '\n');
    text::lemma_lacks_concat(stem + "_"@, number, '\n');
    text::lemma_lacks_concat(stem + "_"@ + number, ".ts"@, '\n');
}

/// Taking a pattern out of a text adds no characters.
proof fn lemma_replaced_lacks(s: Seq<char>, pattern: Seq<char>, c: char)
    requires
        text::lacks(s, c),
    ensures
        text::lacks(text::replaced(s, pattern, Seq::<char>::empty()), c),
    decreases s.len(),
{
    let empty = Seq::<char>::empty();
    if pattern.len() > 0 && s.len() >= pattern.len() {
        let n = if pattern.is_prefix_of(s) {
            pattern.len() as int
        } else {
            1
        };
        let rest = s.skip(n);
        assert forall|k: int| 0 <= k < rest.len() implies #[trigger] rest[k] != c by {
            assert(s[k + n] != c);
        }
        lemma_replaced_lacks(rest, pattern, c);
        if pattern.is_prefix_of(s) {
            assert(text::replaced(s, pattern, empty) =~= text::replaced(rest, pattern, empty));
        } else {
            assert(s[0] != c);
            text::lemma_lacks_concat(seq![s[0]], text::replaced(rest, pattern, empty), c);
        }
    }
}

/// Milliseconds are written as seconds with four digits behind the point. Without the point they
/// are the number of tenths of milliseconds, and before the point stands a number without leading
/// zeros.
pub proof fn law_seconds_say_the_milliseconds(ms: nat)
    ensures
        ({
            let parts = text::split(seconds(ms as int), '.');
            &&& parts.len() == 2
            &&& parts[1].len() == 4
            &&& parts[0] == text::decimal(ms / 1000)
            &&& text::digits_value(parts[0] + parts[1]) == ms * 10
            &&& ms > 0 ==> seconds(-ms) == seq!['-'] + seconds(ms as int)
        }),
{
    let whole = text::decimal(ms / 1000);
    let part = text::padded(ms % 1000, 3);
    let tail = part + seq!['0'];
    text::lemma_decimal(ms / 1000);
    text::lemma_padded(ms % 1000, 3);
    text::lemma_padded_width(ms % 1000);
    text::lemma_padded_value(ms % 1000, 3);
    text::lemma_digits_lack(whole, '.');
    text::lemma_digits_lack(part, '.');
    text::lemma_lacks_concat(part, seq!['0'], '.');
    assert(seconds(ms as int) =~= whole + seq!['.'] + tail);
    text::lemma_split_concat(whole, '.', tail);
    text::lemma_split_whole(whole, '.');
    text::lemma_split_whole(tail, '.');
    assert(text::split(seconds(ms as int), '.') =~= seq![whole, tail]);
    assert(whole + tail =~= (whole + part).push('0'));
    text::law_digit_values(whole + part, '0');
    let a = whole.push(part[0]);
    let b = a.push(part[1]);
    assert(whole + part =~= b.push(part[2]));
    text::law_digit_values(whole, part[0]);
    text::law_digit_values(a, part[1]);
    text::law_digit_values(b, part[2]);
    let none = Seq::<char>::empty();
    assert(part =~= none.push(part[0]).push(part[1]).push(part[2]));
    text::law_digit_values(none, part[0]);
    text::law_digit_values(none.push(part[0]), part[1]);
    text::law_digit_values(none.push(part[0]).push(part[1]), part[2]);
}

/// The starts of a playlist can be computed exactly where all sums of its first lengths fit 64
/// bits.
pub proof fn law_starts_fit_where_the_sums_do(list: HlsPlaylist, starts: Seq<int>)
    requires
        starts.len() == list.files@.len() + 1,
        starts[0] == 0,
        forall|k: int|
            0 <= k < list.files@.len() ==> starts[k + 1] == starts[k] + (
            #[trigger] list.files@[k]).duration,
    ensures
        list.starts_fit() <==> (forall|k: int|
            0 <= k < starts.len() ==> -0x8000_0000_0000_0000 <= #[trigger] starts[k]
                <= 0x7fff_ffff_ffff_ffff),
{
    let files = list.items();
    assert forall|k: int| 0 <= k < starts.len() implies #[trigger] starts[k] == start_of(
        files,
        k,
    ) by {
        assert forall|j: int| 0 <= j < k implies starts[j + 1] == starts[j] + (
        #[trigger] files[j]).duration by {
            assert(files[j] == list.files@[j]@);
        }
        lemma_sums(files, starts, k);
    }
    if list.starts_fit() {
        assert forall|k: int| 0 <= k < starts.len() implies -0x8000_0000_0000_0000
            <= #[trigger] starts[k] <= 0x7fff_ffff_ffff_ffff by {
            assert(i64::MIN <= start_of(files, k) <= i64::MAX);
        }
    }
    if forall|k: int|
        0 <= k < starts.len() ==> -0x8000_0000_0000_0000 <= #[trigger] starts[k]
            <= 0x7fff_ffff_ffff_ffff {
        assert forall|k: int| 0 <= k <= list.files@.len() implies i64::MIN <= #[trigger] start_of(
            files,
            k,
        ) <= i64::MAX by {
            assert(starts[k] == start_of(files, k));
        }
    }
}

/// The items of a playlist are its files with their names, starts and lengths, in their order, and
/// the item of a recording has the last name of its path, its start and its length.
pub proof fn law_items_of_a_playlist(list: HlsPlaylist, k: int, r: recordings::RecordingModel)
    ensures
        list.items().len() == list.files@.len(),
        list.lengths().len() == list.files@.len(),
        0 <= k < list.files@.len() ==> list.items()[k].relpath == list.files@[k].relpath@
            && list.items()[k].timestamp == list.files@[k].timestamp && list.items()[k].duration
            == list.files@[k].duration && list.lengths()[k] == seconds(
            list.files@[k].duration as int,
        ),
        item_of(r).timestamp == r.timestamp && item_of(r).duration == r.duration,
        path::name_of(r.path) matches Some(name) ==> item_of(r).relpath == name,
        path::name_of(r.path) is None ==> item_of(r).relpath == Seq::<char>::empty(),
{
}

} // verus!
