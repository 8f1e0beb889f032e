//! The cache of files that were made for clients: what it holds, for how long, and where.

use crate::lists;
use crate::path;
use crate::text;
use crate::time;
use crate::time::Timestamp;
use vstd::prelude::*;
use vstd::string::*;

verus! {

/// Where recordings and cached files are, and how many milliseconds the latter are kept.
#[derive(Clone, Debug)]
pub struct VideoCacheParams {
    pub video_root: String,
    pub cache_root: String,
    pub keep_alive: i64,
}

/// A cached file or directory, and when it was last asked for.
#[derive(Clone, Debug)]
pub struct VideoCacheItem {
    pub path: String,
    pub timestamp: Timestamp,
}

/// An item and the path under which it is found.
#[derive(Clone, Debug)]
pub struct CacheEntry {
    pub key: String,
    pub item: VideoCacheItem,
}

/// The cache. No two of its entries are found under the same path.
#[derive(Clone, Debug)]
pub struct VideoCache {
    pub params: VideoCacheParams,
    pub entries: Vec<CacheEntry>,
}

/// What a client asks for: a file that is made from the recordings of a time range.
#[derive(Clone, Debug)]
pub struct VideoCacheReq {
    pub timestamp_min: Timestamp,
    pub timestamp_max: Timestamp,
    pub file_name: String,
    pub container: String,
    pub resolution: String,
}

/// Where a requested file is, and whether it is there already.
#[derive(Clone, Debug)]
pub struct RequestPlan {
    pub cache_dir: String,
    pub item_path: String,
    pub cached: bool,
}

/// A directory entry that was there when the cache was opened, with the time that is noted
/// in it.
#[derive(Clone, Debug)]
pub struct FoundEntry {
    pub path: String,
    pub is_dir: bool,
    pub timestamp: Option<Timestamp>,
}

/// A path as it is compared: whether it starts at the root, and its components.
pub struct PathKey {
    pub absolute: bool,
    pub components: Seq<Seq<char>>,
}

/// An item as a value.
pub struct ItemModel {
    pub path: Seq<char>,
    pub timestamp: Timestamp,
}

impl View for VideoCacheItem {
    type V = ItemModel;

    open spec fn view(&self) -> ItemModel {
        ItemModel { path: self.path@, timestamp: self.timestamp }
    }
}

/// What a path is compared by.
pub open spec fn path_key(p: Seq<char>) -> PathKey {
    PathKey { absolute: path::is_absolute(p), components: path::components(p) }
}

/// Whether an entry is found under a path.
pub open spec fn is_at(e: CacheEntry, key: PathKey) -> bool {
    path_key(e.key@) == key
}

/// What a list of entries holds under a path.
pub open spec fn held_in(entries: Seq<CacheEntry>, key: PathKey) -> Option<ItemModel> {
    if exists|k: int| 0 <= k < entries.len() && is_at(#[trigger] entries[k], key) {
        Some(
            entries[choose|k: int|
                0 <= k < entries.len() && is_at(#[trigger] entries[k], key)].item@,
        )
    } else {
        None
    }
}

/// The name of the directory in the cache for a time range of a recorded stream.
pub open spec fn cache_key(
    container: Seq<char>,
    resolution: Seq<char>,
    min: Timestamp,
    max: Timestamp,
) -> Seq<char> {
    text::joined(
        seq![container, resolution, time::stamp_text(min), time::stamp_text(max)],
        ':',
    )
}

/// The directory in the cache for a request.
pub open spec fn dir_for(cache_root: Seq<char>, req: VideoCacheReq) -> Seq<char> {
    path::joined_path(cache_root, key_of(req))
}

/// The file in the cache for a request.
pub open spec fn item_path_for(cache_root: Seq<char>, req: VideoCacheReq) -> Seq<char> {
    path::joined_path(dir_for(cache_root, req), text::after_last(req.file_name@, '/'))
}

/// Whether an item has not been asked for long enough to be dropped.
pub open spec fn is_expired(timestamp: Timestamp, now: Timestamp, keep_alive: int) -> bool {
    time::elapsed_nanos(now, timestamp) >= keep_alive * 1_000_000
}

/// What is done with a directory that is there when the cache is opened.
pub enum Startup {
    /// It is taken into the cache.
    Keep,
    /// It is removed.
    Remove,
    /// It is left alone.
    Ignore,
}

/// A directory whose noted time is recent is kept, one whose noted time is old is removed. What
/// has no time noted in it was not made by the cache, and is left alone.
pub open spec fn startup(entry: FoundEntry, now: Timestamp, keep_alive: int) -> Startup {
    if !entry.is_dir {
        Startup::Ignore
    } else {
        match entry.timestamp {
            Some(t) => if is_expired(t, now, keep_alive) {
                Startup::Remove
            } else {
                Startup::Keep
            },
            None => Startup::Ignore,
        }
    }
}

/// The paths of the entries that are removed when the cache is opened.
pub open spec fn removed_at_startup(
    found: Seq<FoundEntry>,
    now: Timestamp,
    keep_alive: int,
) -> Seq<Seq<char>>
    decreases found.len(),
{
    if found.len() == 0 {
        Seq::<Seq<char>>::empty()
    } else {
        let front = removed_at_startup(found.drop_last(), now, keep_alive);
        if startup(found.last(), now, keep_alive) is Remove {
            front.push(found.last().path@)
        } else {
            front
        }
    }
}

/// What is held under a path once the entries that are kept are taken in.
pub open spec fn held_at_startup(
    before: Option<ItemModel>,
    found: Seq<FoundEntry>,
    now: Timestamp,
    keep_alive: int,
    key: PathKey,
) -> Option<ItemModel>
    decreases found.len(),
{
    if found.len() == 0 {
        before
    } else {
        let e = found.last();
        if startup(e, now, keep_alive) is Keep && path_key(e.path@) == key {
            Some(ItemModel { path: e.path@, timestamp: e.timestamp->0 })
        } else {
            held_at_startup(before, found.drop_last(), now, keep_alive, key)
        }
    }
}

/// Writes the name of the directory in the cache for a time range of a recorded stream.
pub fn unpack(
    container: &str,
    resolution: &str,
    timestamp_min: &Timestamp,
    timestamp_max: &Timestamp,
) -> (r: String)
    requires
        timestamp_min.wf(),
        timestamp_max.wf(),
    ensures
        r@ == container@ + ":"@ + resolution@ + ":"@ + time::stamp_text(*timestamp_min) + ":"@
            + time::stamp_text(*timestamp_max),
        r@ == cache_key(container@, resolution@, *timestamp_min, *timestamp_max),
{
    let mut r = container.to_owned();
    r.append(":");
    r.append(resolution);
    r.append(":");
    r.append(time::chrono_format(timestamp_min, time::STAMP_FORMAT).as_str());
    r.append(":");
    r.append(time::chrono_format(timestamp_max, time::STAMP_FORMAT).as_str());
    proof {
        reveal_strlit(":");
        assert(":"@ =~= seq![':']);
        let parts = seq![
            container@,
            resolution@,
            time::stamp_text(*timestamp_min),
            time::stamp_text(*timestamp_max),
        ];
        let three = parts.drop_last();
        let two = three.drop_last();
        assert(two.drop_last().len() == 1);
        assert(text::joined(two.drop_last(), ':') == container@);
        assert(text::joined(two, ':') == container@ + seq![':'] + resolution@);
        assert(text::joined(three, ':') == text::joined(two, ':') + seq![':'] + parts[2]);
        assert(r@ =~= text::joined(parts, ':'));
    }
    r
}

/// The part of a file name behind its last slash.
pub fn bare_name(file_name: &str) -> (r: String)
    ensures
        r@ == text::after_last(file_name@, '/'),
{
    let mut parts = text::split_on(file_name, '/');
    assert(text::texts(parts@).len() == parts@.len());
    assert(text::texts(parts@).last() == parts@.last()@);
    match parts.pop() {
        Some(last) => last,
        None => String::new(),
    }
}

impl VideoCache {
    /// Whether no two entries are found under the same path, and all times can be represented.
    pub open spec fn wf(self) -> bool {
        &&& forall|i: int, j: int|
            0 <= i < j < self.entries@.len() ==> path_key((#[trigger] self.entries@[i]).key@)
                != path_key((#[trigger] self.entries@[j]).key@)
        &&& forall|k: int|
            0 <= k < self.entries@.len() ==> (#[trigger] self.entries@[k]).item.timestamp.wf()
    }

    /// What is held under a path.
    pub open spec fn held(self, key: PathKey) -> Option<ItemModel> {
        held_in(self.entries@, key)
    }

    /// Whether the file for a request is held.
    pub open spec fn has(self, req: VideoCacheReq) -> bool {
        self.held(path_key(item_path_for(self.params.cache_root@, req))) is Some
    }

    /// An entry is what is held under its path.
    pub proof fn lemma_entry(self, k: int)
        requires
            self.wf(),
            0 <= k < self.entries@.len(),
        ensures
            self.held(path_key(self.entries@[k].key@)) == Some(self.entries@[k].item@),
    {
        let key = path_key(self.entries@[k].key@);
        assert(is_at(self.entries@[k], key));
        let i = choose|i: int| 0 <= i < self.entries@.len() && is_at(#[trigger] self.entries@[i], key);
        if i < k {
            assert(path_key(self.entries@[i].key@) != path_key(self.entries@[k].key@));
        } else if k < i {
            assert(path_key(self.entries@[k].key@) != path_key(self.entries@[i].key@));
        }
    }

    /// A cache that holds nothing.
    pub fn empty(params: VideoCacheParams) -> (r: VideoCache)
        ensures
            r.wf(),
            r.params == params,
            forall|key: PathKey| #[trigger] r.held(key) is None,
    {
        VideoCache { params, entries: Vec::new() }
    }

    /// The position of the entry that is found under a path.
    fn position(&self, p: &str) -> (r: Option<usize>)
        requires
            self.wf(),
        ensures
            r is Some <==> self.held(path_key(p@)) is Some,
            r matches Some(k) ==> k < self.entries@.len() && is_at(
                self.entries@[k as int],
                path_key(p@),
            ) && self.held(path_key(p@)) == Some(self.entries@[k as int].item@),
    {
        let len = self.entries.len();
        let mut k: usize = 0;
        while k < len
            invariant
                k <= len,
                len == self.entries@.len(),
                self.wf(),
                forall|j: int| 0 <= j < k ==> !is_at(#[trigger] self.entries@[j], path_key(p@)),
            decreases len - k,
        {
            let here = path::same_path(self.entries[k].key.as_str(), p);
            assert(here == is_at(self.entries@[k as int], path_key(p@)));
            if here {
                proof {
                    self.lemma_entry(k as int);
                }
                return Some(k);
            }
            k = k + 1;
        }
        None
    }

    /// Puts an item under a path, in place of what was there.
    pub fn insert(&mut self, key: String, item: VideoCacheItem)
        requires
            old(self).wf(),
            item.timestamp.wf(),
        ensures
            final(self).wf(),
            final(self).params == old(self).params,
            forall|k: PathKey| #[trigger]
                final(self).held(k) == if k == path_key(key@) {
                    Some(item@)
                } else {
                    old(self).held(k)
                },
    {
        let ghost before = *self;
        let ghost value = item@;
        match self.position(key.as_str()) {
            Some(at) => {
                let old_key = self.entries[at].key.clone();
                let entry = CacheEntry { key: old_key, item };
                self.entries.set(at, entry);
                proof {
                    lemma_set(before, *self, at as int, entry);
                }
            },
            None => {
                let entry = CacheEntry { key, item };
                self.entries.push(entry);
                proof {
                    lemma_pushed(before, *self, entry);
                }
            },
        }
    }

    /// Finds the place of a requested file. Where the file is there already, it is noted that
    /// it was asked for now.
    pub fn handle_request(&mut self, req: &VideoCacheReq, now: Timestamp) -> (r: RequestPlan)
        requires
            old(self).wf(),
            now.wf(),
            req.timestamp_min.wf(),
            req.timestamp_max.wf(),
        ensures
            final(self).wf(),
            r.cache_dir@ == dir_for(old(self).params.cache_root@, *req),
            r.item_path@ == item_path_for(old(self).params.cache_root@, *req),
            r.cache_dir@ == path::joined_path(
                old(self).params.cache_root@,
                req.container@ + ":"@ + req.resolution@ + ":"@ + time::stamp_text(
                    req.timestamp_min,
                ) + ":"@ + time::stamp_text(req.timestamp_max),
            ),
            r.item_path@ == path::joined_path(
                r.cache_dir@,
                text::after_last(req.file_name@, '/'),
            ),
            r.cached == (old(self).held(path_key(r.item_path@)) is Some),
            r.cached == old(self).has(*req),
            final(self).params == old(self).params,
            forall|k: PathKey| #[trigger]
                final(self).held(k) == if r.cached && k == path_key(r.item_path@) {
                    Some(ItemModel { path: old(self).held(k)->0.path, timestamp: now })
                } else {
                    old(self).held(k)
                },
            is_requested(*old(self), *final(self), *req, now),
    {
        let ghost before = *self;
        let name = bare_name(req.file_name.as_str());
        let key = unpack(
            req.container.as_str(),
            req.resolution.as_str(),
            &req.timestamp_min,
            &req.timestamp_max,
        );
        let cache_dir = path::join(self.params.cache_root.as_str(), key.as_str());
        let item_path = path::join(cache_dir.as_str(), name.as_str());
        match self.position(item_path.as_str()) {
            Some(at) => {
                let old_key = self.entries[at].key.clone();
                let old_path = self.entries[at].item.path.clone();
                let entry = CacheEntry {
                    key: old_key,
                    item: VideoCacheItem { path: old_path, timestamp: now },
                };
                self.entries.set(at, entry);
                proof {
                    lemma_set(before, *self, at as int, entry);
                }
                RequestPlan { cache_dir, item_path, cached: true }
            },
            None => RequestPlan { cache_dir, item_path, cached: false },
        }
    }

    /// Takes a file in that was made for a request. It is found under its path in the cache.
    pub fn created(&mut self, item_path: &str, now: Timestamp)
        requires
            old(self).wf(),
            now.wf(),
        ensures
            final(self).wf(),
            final(self).params == old(self).params,
            forall|k: PathKey| #[trigger]
                final(self).held(k) == if k == path_key(item_path@) {
                    Some(ItemModel { path: item_path@, timestamp: now })
                } else {
                    old(self).held(k)
                },
            is_stored(*old(self), *final(self), item_path@, now),
    {
        self.insert(
            item_path.to_owned(),
            VideoCacheItem { path: item_path.to_owned(), timestamp: now },
        );
    }

    /// The entries that have not been asked for long enough to be dropped.
    pub open spec fn expired_entries(self, now: Timestamp) -> Seq<CacheEntry> {
        self.entries@.filter(
            |e: CacheEntry|
                is_expired(e.item.timestamp, now, self.params.keep_alive as int),
        )
    }

    /// The entries that have not been asked for long enough to be dropped.
    pub fn expired(&self, now: &Timestamp) -> (r: Vec<CacheEntry>)
        requires
            self.wf(),
            now.wf(),
        ensures
            r@ == self.expired_entries(*now),
            forall|e: CacheEntry| #[trigger]
                r@.contains(e) <==> self.entries@.contains(e) && time::elapsed_nanos(
                    *now,
                    e.item.timestamp,
                ) >= self.params.keep_alive * 1_000_000,
    {
        let mut r: Vec<CacheEntry> = Vec::new();
        let ghost pred = |e: CacheEntry|
            is_expired(e.item.timestamp, *now, self.params.keep_alive as int);
        let len = self.entries.len();
        let mut k: usize = 0;
        assert(self.entries@.take(0) =~= Seq::<CacheEntry>::empty());
        assert(r@ =~= self.entries@.take(0).filter(pred)) by {
            reveal(Seq::filter);
        }
        while k < len
            invariant
                k <= len,
                len == self.entries@.len(),
                self.wf(),
                now.wf(),
                pred == (|e: CacheEntry|
                    is_expired(e.item.timestamp, *now, self.params.keep_alive as int)),
                r@ == self.entries@.take(k as int).filter(pred),
            decreases len - k,
        {
            let e = &self.entries[k];
            assert(self.entries@.take(k + 1).drop_last() =~= self.entries@.take(k as int));
            proof {
                reveal(Seq::filter);
            }
            if time::elapsed_at_least(now, &e.item.timestamp, self.params.keep_alive) {
                r.push(
                    CacheEntry {
                        key: e.key.clone(),
                        item: VideoCacheItem {
                            path: e.item.path.clone(),
                            timestamp: e.item.timestamp,
                        },
                    },
                );
            }
            k = k + 1;
        }
        assert(self.entries@.take(len as int) =~= self.entries@);
        proof {
            assert forall|e: CacheEntry| #[trigger] r@.contains(e) <==> self.entries@.contains(e)
                && time::elapsed_nanos(*now, e.item.timestamp) >= self.params.keep_alive
                * 1_000_000 by {
                lists::lemma_filter_contains(self.entries@, pred, e);
            }
        }
        r
    }

    /// Forgets entries.
    pub fn forget(&mut self, gone: &Vec<CacheEntry>)
        requires
            old(self).wf(),
        ensures
            final(self).wf(),
            final(self).params == old(self).params,
            forall|k: PathKey| #[trigger]
                final(self).held(k) == if is_listed(gone@, k) {
                    None
                } else {
                    old(self).held(k)
                },
            forall|k: PathKey| #[trigger]
                final(self).held(k) == if exists|i: int|
                    0 <= i < gone@.len() && path_key((#[trigger] gone@[i]).key@) == k {
                    None
                } else {
                    old(self).held(k)
                },
    {
        let ghost before = *self;
        let len = gone.len();
        let mut n: usize = 0;
        while n < len
            invariant
                n <= len,
                len == gone@.len(),
                self.wf(),
                self.params == before.params,
                forall|k: PathKey| #[trigger]
                    self.held(k) == if is_listed(gone@.take(n as int), k) {
                        None
                    } else {
                        before.held(k)
                    },
            decreases len - n,
        {
            let ghost was = *self;
            let ghost key = path_key(gone@[n as int].key@);
            match self.position(gone[n].key.as_str()) {
                Some(at) => {
                    let removed = self.entries.remove(at);
                    proof {
                        lemma_removed(was, *self, at as int);
                    }
                },
                None => {},
            }
            proof {
                assert forall|k: PathKey| #[trigger] self.held(k) == if is_listed(
                    gone@.take(n + 1),
                    k,
                ) {
                    None
                } else {
                    before.held(k)
                } by {
                    lemma_listed_next(gone@, n as int, k);
                    assert(was.held(k) == if is_listed(gone@.take(n as int), k) {
                        None
                    } else {
                        before.held(k)
                    });
                }
            }
            n = n + 1;
        }
        assert(gone@.take(len as int) =~= gone@);
        proof {
            assert forall|k: PathKey| #[trigger] self.held(k) == if exists|i: int|
                0 <= i < gone@.len() && path_key((#[trigger] gone@[i]).key@) == k {
                None
            } else {
                before.held(k)
            } by {
                if exists|i: int| 0 <= i < gone@.len() && path_key((#[trigger] gone@[i]).key@) == k {
                    let i = choose|i: int|
                        0 <= i < gone@.len() && path_key((#[trigger] gone@[i]).key@) == k;
                    assert(is_at(gone@[i], k));
                }
            }
        }
    }

    /// Takes in the directories that are there when the cache is opened, and gives the paths
    /// of those that are to be removed.
    pub fn initialize_cache(&mut self, found: &Vec<FoundEntry>, now: &Timestamp) -> (r: Vec<
        String,
    >)
        requires
            old(self).wf(),
            now.wf(),
            forall|k: int|
                0 <= k < found@.len() ==> ((#[trigger] found@[k]).timestamp matches Some(t)
                    ==> t.wf()),
        ensures
            final(self).wf(),
            final(self).params == old(self).params,
            text::texts(r@) == removed_at_startup(
                found@,
                *now,
                old(self).params.keep_alive as int,
            ),
            forall|k: PathKey| #[trigger]
                final(self).held(k) == held_at_startup(
                    old(self).held(k),
                    found@,
                    *now,
                    old(self).params.keep_alive as int,
                    k,
                ),
    {
        let ghost before = *self;
        let keep_alive = self.params.keep_alive;
        let mut remove: Vec<String> = Vec::new();
        let len = found.len();
        let mut n: usize = 0;
        assert(found@.take(0) =~= Seq::<FoundEntry>::empty());
        assert(text::texts(remove@) =~= Seq::<Seq<char>>::empty());
        while n < len
            invariant
                n <= len,
                len == found@.len(),
                self.wf(),
                now.wf(),
                self.params == before.params,
                keep_alive == before.params.keep_alive,
                forall|k: int|
                    0 <= k < found@.len() ==> ((#[trigger] found@[k]).timestamp matches Some(t)
                        ==> t.wf()),
                text::texts(remove@) == removed_at_startup(
                    found@.take(n as int),
                    *now,
                    keep_alive as int,
                ),
                forall|k: PathKey| #[trigger]
                    self.held(k) == held_at_startup(
                        before.held(k),
                        found@.take(n as int),
                        *now,
                        keep_alive as int,
                        k,
                    ),
            decreases len - n,
        {
            let entry = &found[n];
            assert(found@.take(n + 1).drop_last() =~= found@.take(n as int));
            assert(found@.take(n + 1).last() == *entry);
            match startup_of(entry, now, keep_alive) {
                Startup::Keep => {
                    if let Some(timestamp) = entry.timestamp {
                        self.insert(
                            entry.path.clone(),
                            VideoCacheItem { path: entry.path.clone(), timestamp },
                        );
                    }
                },
                Startup::Remove => {
                    text::push_text(&mut remove, entry.path.as_str());
                },
                Startup::Ignore => {},
            }
            n = n + 1;
        }
        assert(found@.take(len as int) =~= found@);
        remove
    }
}

/// What a request at a given time changes: the time of its file, where that is held.
pub open spec fn is_requested(
    before: VideoCache,
    after: VideoCache,
    req: VideoCacheReq,
    now: Timestamp,
) -> bool {
    let file = path_key(item_path_for(before.params.cache_root@, req));
    &&& after.params == before.params
    &&& forall|k: PathKey| #[trigger]
        after.held(k) == if before.has(req) && k == file {
            Some(ItemModel { path: before.held(k)->0.path, timestamp: now })
        } else {
            before.held(k)
        }
}

/// What a file that was made at a given time changes: it is held under its path.
pub open spec fn is_stored(
    before: VideoCache,
    after: VideoCache,
    item_path: Seq<char>,
    now: Timestamp,
) -> bool {
    &&& after.params == before.params
    &&& forall|k: PathKey| #[trigger]
        after.held(k) == if k == path_key(item_path) {
            Some(ItemModel { path: item_path, timestamp: now })
        } else {
            before.held(k)
        }
}

/// Whether one cache comes from the other by a request, or by a file that was made.
pub open spec fn is_step(before: VideoCache, after: VideoCache) -> bool {
    ||| exists|req: VideoCacheReq, now: Timestamp| #[trigger]
        is_requested(before, after, req, now)
    ||| exists|item_path: Seq<char>, now: Timestamp| #[trigger]
        is_stored(before, after, item_path, now)
}

/// Whether two requests ask for the same file of the same time range and stream.
pub open spec fn same_request(a: VideoCacheReq, b: VideoCacheReq) -> bool {
    &&& a.timestamp_min == b.timestamp_min
    &&& a.timestamp_max == b.timestamp_max
    &&& a.file_name@ == b.file_name@
    &&& a.container@ == b.container@
    &&& a.resolution@ == b.resolution@
}

/// A request that is repeated once its file was made is answered from the cache, with the path
/// at which the file was made, and it makes the file as recent as the request.
pub proof fn law_made_file_is_found(
    before: VideoCache,
    made: VideoCache,
    after: VideoCache,
    req: VideoCacheReq,
    again: VideoCacheReq,
    then: Timestamp,
    now: Timestamp,
)
    requires
        is_stored(before, made, item_path_for(before.params.cache_root@, req), then),
        same_request(req, again),
        is_requested(made, after, again, now),
    ensures
        made.has(again),
        item_path_for(made.params.cache_root@, again) == item_path_for(
            before.params.cache_root@,
            req,
        ),
        after.held(path_key(item_path_for(before.params.cache_root@, req))) == Some(
            ItemModel {
                path: item_path_for(before.params.cache_root@, req),
                timestamp: now,
            },
        ),
{
}

/// A file that was made is found again however many requests are answered and files are made
/// meanwhile: as long as nothing is cleaned up, a repeated request is answered from the cache
/// with the same path.
pub proof fn law_made_file_stays_until_cleanup(
    states: Seq<VideoCache>,
    req: VideoCacheReq,
    again: VideoCacheReq,
    then: Timestamp,
)
    requires
        states.len() >= 2,
        is_stored(
            states[0],
            states[1],
            item_path_for(states[0].params.cache_root@, req),
            then,
        ),
        forall|i: int| 1 <= i < states.len() - 1 ==> #[trigger] is_step(states[i], states[i + 1]),
        same_request(req, again),
    ensures
        states.last().has(again),
        item_path_for(states.last().params.cache_root@, again) == item_path_for(
            states[0].params.cache_root@,
            req,
        ),
    decreases states.len(),
{
    if states.len() > 2 {
        let front = states.drop_last();
        let n = states.len() - 2;
        assert forall|i: int| 1 <= i < front.len() - 1 implies #[trigger] is_step(
            front[i],
            front[i + 1],
        ) by {
            assert(is_step(states[i], states[i + 1]));
        }
        law_made_file_stays_until_cleanup(front, req, again, then);
        assert(is_step(states[n], states[n + 1]));
        let key = path_key(item_path_for(states[0].params.cache_root@, req));
        assert(states[n].held(key) is Some);
        assert(states[n + 1].params == states[n].params);
        assert(states[n + 1].held(key) is Some);
    }
}

/// Requests for different files, or for time ranges or streams with different directories, have
/// different files in the cache, so that none of them takes the place of another.
pub proof fn law_cache_files_differ(cache_root: Seq<char>, a: VideoCacheReq, b: VideoCacheReq)
    requires
        is_ordinary(a),
        is_ordinary(b),
        path_key(item_path_for(cache_root, a)) == path_key(item_path_for(cache_root, b)),
    ensures
        text::after_last(a.file_name@, '/') == text::after_last(b.file_name@, '/'),
        key_of(a) == key_of(b),
{
    let x = seq![key_of(a), text::after_last(a.file_name@, '/')];
    let y = seq![key_of(b), text::after_last(b.file_name@, '/')];
    let base = path::components(cache_root);
    lemma_item_path(cache_root, a);
    lemma_item_path(cache_root, b);
    assert((base + x).skip(base.len() as int) =~= x);
    assert((base + y).skip(base.len() as int) =~= y);
    assert(x[0] == y[0] && x[1] == y[1]);
}

/// The name of the directory in the cache for a request.
pub open spec fn key_of(req: VideoCacheReq) -> Seq<char> {
    cache_key(req.container@, req.resolution@, req.timestamp_min, req.timestamp_max)
}

/// Whether a request names one directory and one file in the cache.
pub open spec fn is_ordinary(req: VideoCacheReq) -> bool {
    &&& text::lacks(req.container@, '/')
    &&& text::lacks(req.resolution@, '/')
    &&& path::is_plain(text::after_last(req.file_name@, '/'))
}

/// The name of the directory in the cache is a plain name, where stream and resolution have no
/// slash.
proof fn lemma_key_plain(
    container: Seq<char>,
    resolution: Seq<char>,
    min: Timestamp,
    max: Timestamp,
)
    requires
        text::lacks(container, '/'),
        text::lacks(resolution, '/'),
    ensures
        path::is_plain(cache_key(container, resolution, min, max)),
{
    let colon = seq![':'];
    let from = time::stamp_text(min);
    let to = time::stamp_text(max);
    let parts = seq![container, resolution, from, to];
    let two = container + colon + resolution;
    let three = two + colon + from;
    assert(parts.drop_last().drop_last().drop_last() =~= seq![container]);
    assert(text::joined(seq![container], ':') == container);
    assert(text::joined(parts.drop_last().drop_last(), ':') == two);
    assert(text::joined(parts.drop_last(), ':') == three);
    assert(text::joined(parts, ':') == three + colon + to);
    time::lemma_stamp_lacks(min, '/');
    time::lemma_stamp_lacks(max, '/');
    text::lemma_lacks_concat(container, colon, '/');
    text::lemma_lacks_concat(container + colon, resolution, '/');
    text::lemma_lacks_concat(two, colon, '/');
    text::lemma_lacks_concat(two + colon, from, '/');
    text::lemma_lacks_concat(three, colon, '/');
    text::lemma_lacks_concat(three + colon, to, '/');
}

/// The file for a request lies in the directory for it below the root of the cache.
proof fn lemma_item_path(cache_root: Seq<char>, req: VideoCacheReq)
    requires
        is_ordinary(req),
    ensures
        path::components(item_path_for(cache_root, req)) == path::components(cache_root) + seq![
            key_of(req),
            text::after_last(req.file_name@, '/'),
        ],
{
    let key = key_of(req);
    let name = text::after_last(req.file_name@, '/');
    let parts = seq![key, name];
    lemma_key_plain(req.container@, req.resolution@, req.timestamp_min, req.timestamp_max);
    path::law_join_then_strip(cache_root, parts);
    assert(parts.drop_last() =~= seq![key]);
    assert(seq![key].drop_last() =~= Seq::<Seq<char>>::empty());
    assert(path::joined_all(cache_root, Seq::<Seq<char>>::empty()) == cache_root);
    assert(path::joined_all(cache_root, seq![key]) == path::joined_path(cache_root, key));
    assert(path::joined_all(cache_root, parts) == item_path_for(cache_root, req));
}

/// Whether one of the entries is found under a path.
pub open spec fn is_listed(entries: Seq<CacheEntry>, key: PathKey) -> bool {
    exists|i: int| 0 <= i < entries.len() && is_at(#[trigger] entries[i], key)
}

proof fn lemma_listed_next(entries: Seq<CacheEntry>, n: int, key: PathKey)
    requires
        0 <= n < entries.len(),
    ensures
        is_listed(entries.take(n + 1), key) <==> is_listed(entries.take(n), key) || is_at(
            entries[n],
            key,
        ),
{
    let front = entries.take(n);
    let next = entries.take(n + 1);
    if is_listed(front, key) {
        let i = choose|i: int| 0 <= i < front.len() && is_at(#[trigger] front[i], key);
        assert(next[i] == front[i]);
    }
    if is_at(entries[n], key) {
        assert(next[n] == entries[n]);
    }
    if is_listed(next, key) {
        let i = choose|i: int| 0 <= i < next.len() && is_at(#[trigger] next[i], key);
        if i < n {
            assert(front[i] == next[i]);
        }
    }
}

/// Decides what is done with a directory entry that is there when the cache is opened.
pub fn startup_of(entry: &FoundEntry, now: &Timestamp, keep_alive: i64) -> (r: Startup)
    requires
        now.wf(),
        entry.timestamp matches Some(t) ==> t.wf(),
    ensures
        r == startup(*entry, *now, keep_alive as int),
        r is Remove <==> entry.is_dir && (entry.timestamp matches Some(t) && time::elapsed_nanos(
            *now,
            t,
        ) >= keep_alive * 1_000_000),
        r is Keep <==> entry.is_dir && (entry.timestamp matches Some(t) && time::elapsed_nanos(
            *now,
            t,
        ) < keep_alive * 1_000_000),
{
    if !entry.is_dir {
        return Startup::Ignore;
    }
    match entry.timestamp {
        Some(t) => if time::elapsed_at_least(now, &t, keep_alive) {
            Startup::Remove
        } else {
            Startup::Keep
        },
        None => Startup::Ignore,
    }
}

/// What a requested file is.
#[derive(Clone, Copy, PartialEq, Eq, Structural, Debug)]
pub enum FileKind {
    /// The playlist of the time range.
    Playlist,
    /// One of the segments.
    Segment,
    /// Nothing that can be made.
    Unknown,
}

/// What a requested file is, by its name.
pub open spec fn kind_of(name: Seq<char>) -> FileKind {
    if name == "playlist.m3u8"@ {
        FileKind::Playlist
    } else if ".ts"@.is_suffix_of(name) {
        FileKind::Segment
    } else {
        FileKind::Unknown
    }
}

/// Decides how a file in the cache is made.
pub fn file_kind(out_path: &str) -> (r: FileKind)
    requires
        path::name_of(out_path@) is Some,
    ensures
        r == kind_of(path::name_of(out_path@)->0),
        r == FileKind::Playlist <==> path::name_of(out_path@)->0 == "playlist.m3u8"@,
        r == FileKind::Segment <==> path::name_of(out_path@)->0 != "playlist.m3u8"@
            && ".ts"@.is_suffix_of(path::name_of(out_path@)->0),
{
    match path::file_name(out_path) {
        Some(name) => if text::same_text(name.as_str(), "playlist.m3u8") {
            FileKind::Playlist
        } else if text::finishes_with(name.as_str(), ".ts") {
            FileKind::Segment
        } else {
            FileKind::Unknown
        },
        None => FileKind::Unknown,
    }
}

/// What is said of a file that cannot be made.
pub fn unknown_file(out_path: &str) -> (r: String)
    ensures
        r@ == "Unable to create "@ + out_path@ + " file"@,
{
    let mut r = "Unable to create ".to_owned();
    r.append(out_path);
    r.append(" file");
    r
}

/// The file in a directory of the cache in which is noted when it was last asked for.
pub fn timestamp_file(dir: &str) -> (r: String)
    ensures
        r@ == path::joined_path(dir@, "timestamp"@),
{
    path::join(dir, "timestamp")
}

/// What is noted in a directory of the cache.
pub fn timestamp_note(now: &Timestamp) -> (r: String)
    requires
        now.wf(),
    ensures
        r@ == time::rfc3339_text(*now),
{
    time::chrono_to_rfc3339(now)
}

/// What `String::from_utf8_lossy` makes of bytes.
pub uninterp spec fn lossy_text(bytes: Seq<u8>) -> Seq<char>;

/// `String::from_utf8_lossy`. Beside the name of the result it states that bytes which are
/// valid UTF-8 are decoded as such.
#[verifier::external_body]
fn from_utf8_lossy(bytes: &Vec<u8>) -> (r: String)
    ensures
        r@ == lossy_text(bytes@),
        vstd::utf8::valid_utf8(bytes@) ==> r@ == vstd::utf8::decode_utf8(bytes@),
{
    String::from_utf8_lossy(bytes).into_owned()
}

/// Reads the time that is noted in a directory of the cache. What was noted is read back.
pub fn read_timestamp(bytes: &Vec<u8>) -> (r: Option<Timestamp>)
    ensures
        r == time::from_pair(time::rfc3339_time(lossy_text(bytes@))),
        r matches Some(t) ==> t.wf(),
        forall|t: Timestamp|
            t.wf() && bytes@ == vstd::utf8::encode_utf8(#[trigger] time::rfc3339_text(t)) ==> r
                == Some(t),
{
    let note = from_utf8_lossy(bytes);
    let r = time::chrono_from_rfc3339(note.as_str());
    proof {
        assert(time::from_pair(time::as_pair(r)) == r);
        assert forall|t: Timestamp|
            t.wf() && bytes@ == vstd::utf8::encode_utf8(#[trigger] time::rfc3339_text(t)) implies r
            == Some(t) by {
            vstd::utf8::encode_utf8_valid_utf8(time::rfc3339_text(t));
            vstd::utf8::encode_utf8_decode_utf8(time::rfc3339_text(t));
        }
    }
    r
}

/// Time ranges of recorded streams that are not the same, to the millisecond, have different
/// directories in the cache, as far as names without colons and times of a hundred years in a
/// row are concerned.
pub proof fn law_cache_keys_differ(
    a: (Seq<char>, Seq<char>, Timestamp, Timestamp),
    b: (Seq<char>, Seq<char>, Timestamp, Timestamp),
)
    requires
        cache_key(a.0, a.1, a.2, a.3) == cache_key(b.0, b.1, b.2, b.3),
        text::lacks(a.0, ':'),
        text::lacks(a.1, ':'),
        text::lacks(b.0, ':'),
        text::lacks(b.1, ':'),
        a.2.wf() && b.2.wf() && time::within_a_century(a.2, b.2),
        a.3.wf() && b.3.wf() && time::within_a_century(a.3, b.3),
    ensures
        a.0 == b.0,
        a.1 == b.1,
        a.2.whole_millis() == b.2.whole_millis(),
        a.3.whole_millis() == b.3.whole_millis(),
{
    let x = seq![a.0, a.1, time::stamp_text(a.2), time::stamp_text(a.3)];
    let y = seq![b.0, b.1, time::stamp_text(b.2), time::stamp_text(b.3)];
    time::lemma_stamp_lacks(a.2, ':');
    time::lemma_stamp_lacks(a.3, ':');
    time::lemma_stamp_lacks(b.2, ':');
    time::lemma_stamp_lacks(b.3, ':');
    text::lemma_split_joined(x, ':');
    text::lemma_split_joined(y, ':');
    assert(x == y);
    assert(x[0] == y[0] && x[1] == y[1] && x[2] == y[2] && x[3] == y[3]);
    time::law_stamps_tell_times_apart(a.2, b.2);
    time::law_stamps_tell_times_apart(a.3, b.3);
}

/// What was asked for at this moment is not dropped, if the cache keeps anything at all.
pub proof fn law_just_used_is_kept(now: Timestamp, keep_alive: int)
    requires
        now.wf(),
        keep_alive > 0,
    ensures
        !is_expired(now, now, keep_alive),
{
}

/// Once the expired entries are forgotten, the cache holds what was not expired, and nothing
/// else.
pub proof fn law_cleanup_keeps_what_is_recent(before: VideoCache, after: VideoCache, now: Timestamp)
    requires
        before.wf(),
        forall|k: PathKey| #[trigger]
            after.held(k) == if exists|i: int|
                0 <= i < before.expired_entries(now).len() && path_key(
                    (#[trigger] before.expired_entries(now)[i]).key@,
                ) == k {
                None
            } else {
                before.held(k)
            },
    ensures
        forall|k: PathKey| #[trigger]
            after.held(k) == match before.held(k) {
                Some(item) => if time::elapsed_nanos(now, item.timestamp)
                    >= before.params.keep_alive * 1_000_000 {
                    None
                } else {
                    Some(item)
                },
                None => None,
            },
{
    let keep_alive = before.params.keep_alive as int;
    let pred = |e: CacheEntry| is_expired(e.item.timestamp, now, keep_alive);
    let all = before.entries@;
    let gone = all.filter(pred);
    assert(gone == before.expired_entries(now));
    assert forall|k: PathKey| #[trigger] after.held(k) == match before.held(k) {
        Some(item) => if time::elapsed_nanos(now, item.timestamp) >= keep_alive * 1_000_000 {
            None
        } else {
            Some(item)
        },
        None => None,
    } by {
        if exists|i: int| 0 <= i < gone.len() && path_key((#[trigger] gone[i]).key@) == k {
            let i = choose|i: int| 0 <= i < gone.len() && path_key((#[trigger] gone[i]).key@) == k;
            lists::lemma_filter_contains(all, pred, gone[i]);
            assert(gone.contains(gone[i]));
            let j = choose|j: int| 0 <= j < all.len() && all[j] == gone[i];
            before.lemma_entry(j);
        } else if before.held(k) is Some {
            let j = choose|j: int| 0 <= j < all.len() && is_at(#[trigger] all[j], k);
            before.lemma_entry(j);
            assert(all.contains(all[j]));
            lists::lemma_filter_contains(all, pred, all[j]);
            if pred(all[j]) {
                let i = choose|i: int| 0 <= i < gone.len() && gone[i] == all[j];
                assert(path_key(gone[i].key@) == k);
            }
        }
    }
}

/// Replacing the item of an entry replaces what is held under its path, and nothing else.
proof fn lemma_set(before: VideoCache, after: VideoCache, at: int, entry: CacheEntry)
    requires
        before.wf(),
        0 <= at < before.entries@.len(),
        entry.key == before.entries@[at].key,
        entry.item.timestamp.wf(),
        after.entries@ == before.entries@.update(at, entry),
    ensures
        after.wf(),
        forall|k: PathKey| #[trigger]
            after.held(k) == if k == path_key(entry.key@) {
                Some(entry.item@)
            } else {
                before.held(k)
            },
{
    let was = before.entries@;
    let now = after.entries@;
    assert forall|i: int, j: int| 0 <= i < j < now.len() implies path_key((#[trigger] now[i]).key@)
        != path_key((#[trigger] now[j]).key@) by {
        assert(now[i].key == was[i].key && now[j].key == was[j].key);
    }
    assert forall|k: PathKey| #[trigger] after.held(k) == if k == path_key(entry.key@) {
        Some(entry.item@)
    } else {
        before.held(k)
    } by {
        if k == path_key(entry.key@) {
            after.lemma_entry(at);
            assert(now[at] == entry);
        } else {
            assert forall|i: int| 0 <= i < was.len() && is_at(#[trigger] was[i], k) implies now.contains(
                was[i],
            ) by {
                assert(now[i] == was[i]);
            }
            lemma_same_held(before, after, k);
        }
    }
}

/// Adding an entry under a new path adds what is held there, and changes nothing else.
proof fn lemma_pushed(before: VideoCache, after: VideoCache, entry: CacheEntry)
    requires
        before.wf(),
        before.held(path_key(entry.key@)) is None,
        entry.item.timestamp.wf(),
        after.entries@ == before.entries@.push(entry),
    ensures
        after.wf(),
        forall|k: PathKey| #[trigger]
            after.held(k) == if k == path_key(entry.key@) {
                Some(entry.item@)
            } else {
                before.held(k)
            },
{
    let was = before.entries@;
    let now = after.entries@;
    assert forall|i: int, j: int| 0 <= i < j < now.len() implies path_key((#[trigger] now[i]).key@)
        != path_key((#[trigger] now[j]).key@) by {
        assert(now[i] == was[i]);
        if j < was.len() {
            assert(now[j] == was[j]);
        } else {
            assert(!is_at(was[i], path_key(entry.key@)));
        }
    }
    assert forall|k: PathKey| #[trigger] after.held(k) == if k == path_key(entry.key@) {
        Some(entry.item@)
    } else {
        before.held(k)
    } by {
        if k == path_key(entry.key@) {
            after.lemma_entry(now.len() - 1);
        } else {
            assert forall|i: int| 0 <= i < was.len() && is_at(#[trigger] was[i], k) implies now.contains(
                was[i],
            ) by {
                assert(now[i] == was[i]);
            }
            lemma_same_held(before, after, k);
        }
    }
}

/// Taking an entry away takes away what is held under its path, and nothing else.
proof fn lemma_removed(before: VideoCache, after: VideoCache, at: int)
    requires
        before.wf(),
        0 <= at < before.entries@.len(),
        after.entries@ == before.entries@.remove(at),
    ensures
        after.wf(),
        forall|k: PathKey| #[trigger]
            after.held(k) == if k == path_key(before.entries@[at].key@) {
                None
            } else {
                before.held(k)
            },
{
    let was = before.entries@;
    let now = after.entries@;
    let gone = path_key(was[at].key@);
    assert forall|i: int, j: int| 0 <= i < j < now.len() implies path_key((#[trigger] now[i]).key@)
        != path_key((#[trigger] now[j]).key@) by {
        let a = if i < at {
            i
        } else {
            i + 1
        };
        let b = if j < at {
            j
        } else {
            j + 1
        };
        assert(now[i] == was[a] && now[j] == was[b]);
    }
    assert forall|k: PathKey| #[trigger] after.held(k) == if k == gone {
        None
    } else {
        before.held(k)
    } by {
        if k == gone {
            assert forall|j: int| 0 <= j < now.len() implies !is_at(#[trigger] now[j], k) by {
                if j < at {
                    assert(now[j] == was[j]);
                    assert(path_key(was[j].key@) != path_key(was[at].key@));
                } else {
                    assert(now[j] == was[j + 1]);
                    assert(path_key(was[at].key@) != path_key(was[j + 1].key@));
                }
            }
        } else {
            assert forall|i: int| 0 <= i < was.len() && is_at(#[trigger] was[i], k) implies now.contains(
                was[i],
            ) by {
                if i < at {
                    assert(now[i] == was[i]);
                } else {
                    assert(i != at);
                    assert(now[i - 1] == was[i]);
                }
            }
            lemma_same_held(before, after, k);
        }
    }
}

/// Caches that have the same entry under a path, or both none, hold the same there.
proof fn lemma_same_held(a: VideoCache, b: VideoCache, key: PathKey)
    requires
        a.wf(),
        b.wf(),
        forall|i: int|
            0 <= i < a.entries@.len() && is_at(#[trigger] a.entries@[i], key) ==> b.entries@.contains(
                a.entries@[i],
            ),
        forall|j: int|
            0 <= j < b.entries@.len() && is_at(#[trigger] b.entries@[j], key) ==> a.entries@.contains(
                b.entries@[j],
            ),
    ensures
        a.held(key) == b.held(key),
{
    if exists|i: int| 0 <= i < a.entries@.len() && is_at(#[trigger] a.entries@[i], key) {
        let i = choose|i: int| 0 <= i < a.entries@.len() && is_at(#[trigger] a.entries@[i], key);
        let j = choose|j: int| 0 <= j < b.entries@.len() && b.entries@[j] == a.entries@[i];
        a.lemma_entry(i);
        b.lemma_entry(j);
    }
}

/// An item expires once the time for which it is kept has passed since it was last asked for, and
/// stays expired from then on. Leap seconds apart, that is the difference of the two times.
pub proof fn law_items_expire_when_their_time_has_passed(
    then: Timestamp,
    now: Timestamp,
    later: Timestamp,
    keep_alive: int,
)
    requires
        then.wf() && now.wf() && later.wf(),
    ensures
        is_expired(then, now, keep_alive) <==> time::elapsed_nanos(now, then) >= keep_alive
            * 1_000_000,
        !then.is_leap() && !now.is_leap() ==> (is_expired(then, now, keep_alive) <==> (now.secs
            - then.secs) * 1_000_000_000 + now.nanos - then.nanos >= keep_alive * 1_000_000),
        !then.is_leap() && !now.is_leap() ==> (time::shifted(then, keep_alive) matches Some(end)
            ==> (is_expired(then, now, keep_alive) <==> end.le(now))),
        !then.is_leap() && !now.is_leap() && !later.is_leap() && now.le(later) && is_expired(
            then,
            now,
            keep_alive,
        ) ==> is_expired(then, later, keep_alive),
{
}

/// The entries that are dropped are those of the cache whose time has passed.
pub proof fn law_dropped_entries(cache: VideoCache, now: Timestamp, e: CacheEntry)
    ensures
        cache.expired_entries(now).contains(e) <==> cache.entries@.contains(e)
            && time::elapsed_nanos(now, e.item.timestamp) >= cache.params.keep_alive * 1_000_000,
{
    let pred = |e: CacheEntry| is_expired(e.item.timestamp, now, cache.params.keep_alive as int);
    lists::lemma_filter_contains(cache.entries@, pred, e);
}

/// When the cache is opened, a directory whose time has passed is removed and one whose time has
/// not is taken in. What is no directory, or has no time noted in it, is left alone.
pub proof fn law_old_directories_are_removed(entry: FoundEntry, now: Timestamp, keep_alive: int)
    ensures
        startup(entry, now, keep_alive) is Remove <==> entry.is_dir && (
        entry.timestamp matches Some(t) && time::elapsed_nanos(now, t) >= keep_alive * 1_000_000),
        startup(entry, now, keep_alive) is Keep <==> entry.is_dir && (
        entry.timestamp matches Some(t) && time::elapsed_nanos(now, t) < keep_alive * 1_000_000),
{
}

/// One more entry that is there when the cache is opened is removed where its time has passed, is
/// held under its path where it has not, and changes nothing otherwise.
pub proof fn law_one_more_entry_at_startup(
    before: Option<ItemModel>,
    found: Seq<FoundEntry>,
    e: FoundEntry,
    now: Timestamp,
    keep_alive: int,
    key: PathKey,
)
    ensures
        removed_at_startup(Seq::<FoundEntry>::empty(), now, keep_alive) == Seq::<Seq<char>>::empty(),
        held_at_startup(before, Seq::<FoundEntry>::empty(), now, keep_alive, key) == before,
        removed_at_startup(found.push(e), now, keep_alive) == if e.is_dir && (
        e.timestamp matches Some(t) && time::elapsed_nanos(now, t) >= keep_alive * 1_000_000) {
            removed_at_startup(found, now, keep_alive).push(e.path@)
        } else {
            removed_at_startup(found, now, keep_alive)
        },
        held_at_startup(before, found.push(e), now, keep_alive, key) == if e.is_dir && (
        e.timestamp matches Some(t) && time::elapsed_nanos(now, t) < keep_alive * 1_000_000)
            && key.absolute == path::is_absolute(e.path@) && key.components == path::components(
            e.path@,
        ) {
            Some(ItemModel { path: e.path@, timestamp: e.timestamp->0 })
        } else {
            held_at_startup(before, found, now, keep_alive, key)
        },
{
    assert(found.push(e).drop_last() =~= found);
    assert(found.push(e).last() == e);
}

/// Every entry of the cache is held under its path, and whatever is held is an entry whose path
/// starts at the root or not as asked for and has the components asked for.
pub proof fn law_entries_are_what_is_held(cache: VideoCache, k: int, key: PathKey)
    requires
        cache.wf(),
    ensures
        0 <= k < cache.entries@.len() && key.absolute == path::is_absolute(
            cache.entries@[k].key@,
        ) && key.components == path::components(cache.entries@[k].key@) ==> cache.held(key) == Some(
            ItemModel {
                path: cache.entries@[k].item.path@,
                timestamp: cache.entries@[k].item.timestamp,
            },
        ),
        cache.held(key) is Some ==> exists|i: int|
            0 <= i < cache.entries@.len() && path::is_absolute((#[trigger] cache.entries@[i]).key@)
                == key.absolute && path::components(cache.entries@[i].key@) == key.components,
{
    if 0 <= k < cache.entries@.len() {
        cache.lemma_entry(k);
    }
    if cache.held(key) is Some {
        let i = choose|i: int|
            0 <= i < cache.entries@.len() && is_at(#[trigger] cache.entries@[i], key);
        assert(path_key(cache.entries@[i].key@) == key);
    }
}

/// The directory in the cache for a time range is named by stream, resolution, begin and end, and
/// the file for a request lies in it under the bare name that was asked for.
pub proof fn law_place_of_a_request(cache_root: Seq<char>, req: VideoCacheReq)
    ensures
        key_of(req) == req.container@ + ":"@ + req.resolution@ + ":"@ + time::stamp_text(
            req.timestamp_min,
        ) + ":"@ + time::stamp_text(req.timestamp_max),
        dir_for(cache_root, req) == path::joined_path(cache_root, key_of(req)),
        item_path_for(cache_root, req) == path::joined_path(
            dir_for(cache_root, req),
            text::after_last(req.file_name@, '/'),
        ),
{
    reveal_strlit(":");
    assert(":"@ =~= seq![':']);
    let parts = seq![
        req.container@,
        req.resolution@,
        time::stamp_text(req.timestamp_min),
        time::stamp_text(req.timestamp_max),
    ];
    let three = parts.drop_last();
    let two = three.drop_last();
    assert(two.drop_last() =~= seq![req.container@]);
    assert(text::joined(seq![req.container@], ':') == req.container@);
    assert(text::joined(two, ':') == req.container@ + seq![':'] + req.resolution@);
    assert(text::joined(three, ':') == text::joined(two, ':') + seq![':'] + parts[2]);
    assert(text::joined(parts, ':') == text::joined(three, ':') + seq![':'] + parts[3]);
}

} // verus!
