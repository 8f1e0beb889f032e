//! Slash-separated paths as texts.

use crate::text;
use vstd::prelude::*;
use vstd::string::*;

verus! {

/// Whether a path starts at the root.
pub open spec fn is_absolute(p: Seq<char>) -> bool {
    p.len() > 0 && p[0] == '/'
}

/// A path with another one behind it; an absolute one takes its place.
pub open spec fn joined_path(base: Seq<char>, part: Seq<char>) -> Seq<char> {
    if is_absolute(part) {
        part
    } else if base.len() == 0 || base.last() == '/' {
        base + part
    } else {
        base + seq!['/'] + part
    }
}

/// A path with several parts put behind it, one after the other.
pub open spec fn joined_all(base: Seq<char>, parts: Seq<Seq<char>>) -> Seq<char>
    decreases parts.len(),
{
    if parts.len() == 0 {
        base
    } else {
        joined_path(joined_all(base, parts.drop_last()), parts.last())
    }
}

/// Whether a segment counts as a component: it is not empty, and it is no `.` but at the
/// very start.
pub open spec fn is_component(segments: Seq<Seq<char>>, i: int) -> bool {
    segments[i].len() > 0 && (i == 0 || segments[i] != seq!['.'])
}

/// The positions of the segments that count as components.
pub open spec fn component_positions(segments: Seq<Seq<char>>) -> Seq<int>
    decreases segments.len(),
{
    if segments.len() == 0 {
        Seq::<int>::empty()
    } else {
        let front = component_positions(segments.drop_last());
        if is_component(segments, segments.len() - 1) {
            front.push(segments.len() - 1)
        } else {
            front
        }
    }
}

/// The components of a path.
pub open spec fn components(p: Seq<char>) -> Seq<Seq<char>> {
    let segments = text::split(p, '/');
    component_positions(segments).map_values(|i: int| segments[i])
}

/// Whether two texts name the same path: repeated and trailing slashes do not count, nor do
/// `.` segments behind the first.
pub open spec fn same(a: Seq<char>, b: Seq<char>) -> bool {
    is_absolute(a) == is_absolute(b) && components(a) == components(b)
}

/// The last component of a path, if it is a name.
pub open spec fn name_of(p: Seq<char>) -> Option<Seq<char>> {
    let c = components(p);
    if c.len() == 0 || c.last() == seq!['.'] || c.last() == seq!['.', '.'] {
        None
    } else {
        Some(c.last())
    }
}

/// What follows the last dot of the name of a path, unless the name starts with it.
pub open spec fn extension_of(p: Seq<char>) -> Option<Seq<char>> {
    match name_of(p) {
        Some(name) => {
            let parts = text::split(name, '.');
            if parts.len() == 1 || (parts.len() == 2 && parts[0].len() == 0) {
                None
            } else {
                Some(parts.last())
            }
        },
        None => None,
    }
}

/// A path without its last component.
pub open spec fn parent_of(p: Seq<char>) -> Option<Seq<char>> {
    let segments = text::split(p, '/');
    let at = component_positions(segments);
    if at.len() == 0 {
        None
    } else if at.len() == 1 {
        Some(
            if is_absolute(p) {
                seq!['/']
            } else {
                Seq::<char>::empty()
            },
        )
    } else {
        Some(text::joined(segments.take(at[at.len() - 2] + 1), '/'))
    }
}

/// A path without the slashes at its end.
pub open spec fn trimmed(p: Seq<char>) -> Seq<char> {
    let segments = text::split(p, '/');
    let at = component_positions(segments);
    if at.len() > 0 {
        text::joined(segments.take(at.last() + 1), '/')
    } else if is_absolute(p) {
        seq!['/']
    } else {
        Seq::<char>::empty()
    }
}

/// What is left of a path behind a base that it starts with, component by component. The
/// root counts as a component here, and the empty base stands before every path.
pub open spec fn stripped(p: Seq<char>, base: Seq<char>) -> Option<Seq<char>> {
    let segments = text::split(p, '/');
    let at = component_positions(segments);
    let n = components(base).len() as int;
    if !is_absolute(base) && n == 0 {
        Some(trimmed(p))
    } else if is_absolute(p) != is_absolute(base) || !components(base).is_prefix_of(
        components(p),
    ) {
        None
    } else if n == at.len() {
        Some(Seq::<char>::empty())
    } else {
        Some(text::joined(segments.subrange(at[n], at.last() + 1), '/'))
    }
}

/// The positions are those of the components, in ascending order.
pub proof fn lemma_positions(segments: Seq<Seq<char>>)
    ensures
        forall|k: int|
            0 <= k < component_positions(segments).len() ==> 0 <= #[trigger] component_positions(
                segments,
            )[k] < segments.len() && is_component(segments, component_positions(segments)[k]),
        forall|j: int, k: int|
            0 <= j < k < component_positions(segments).len() ==> #[trigger] component_positions(
                segments,
            )[j] < #[trigger] component_positions(segments)[k],
    decreases segments.len(),
{
    if segments.len() > 0 {
        let front = segments.drop_last();
        lemma_positions(front);
        assert forall|k: int| 0 <= k < component_positions(segments).len() implies 0
            <= #[trigger] component_positions(segments)[k] < segments.len() && is_component(
            segments,
            component_positions(segments)[k],
        ) by {
            if k < component_positions(front).len() {
                assert(is_component(front, component_positions(front)[k]));
            }
        }
    }
}

/// Whether a path starts at the root.
pub fn starts_at_root(p: &str) -> (r: bool)
    ensures
        r == is_absolute(p@),
        r <==> p@.len() > 0 && p@[0] == '/',
{
    p.unicode_len() > 0 && p.get_char(0) == '/'
}

/// Puts a path behind another.
pub fn join(base: &str, part: &str) -> (r: String)
    ensures
        r@ == joined_path(base@, part@),
        part@.len() > 0 && part@[0] == '/' ==> r@ == part@,
        !(part@.len() > 0 && part@[0] == '/') ==> r@ == if base@.len() == 0 || base@.last() == '/' {
            base@ + part@
        } else {
            base@ + seq!['/'] + part@
        },
{
    if starts_at_root(part) {
        return part.to_owned();
    }
    let n = base.unicode_len();
    if n == 0 || base.get_char(n - 1) == '/' {
        text::concat(base, part)
    } else {
        let mut r = text::concat(base, "/");
        r.append(part);
        proof {
            reveal_strlit("/");
            assert("/"@ =~= seq!['/']);
        }
        r
    }
}

/// Puts several parts behind a path, one after the other.
pub fn join_all(base: &str, parts: &Vec<String>) -> (r: String)
    ensures
        r@ == joined_all(base@, text::texts(parts@)),
{
    let ghost all = text::texts(parts@);
    let mut r = base.to_owned();
    let len = parts.len();
    let mut k: usize = 0;
    assert(all.take(0) =~= Seq::<Seq<char>>::empty());
    while k < len
        invariant
            k <= len,
            len == parts@.len(),
            all == text::texts(parts@),
            r@ == joined_all(base@, all.take(k as int)),
        decreases len - k,
    {
        assert(all.take(k + 1).drop_last() =~= all.take(k as int));
        assert(all.take(k + 1).last() == parts@[k as int]@);
        r = join(r.as_str(), parts[k].as_str());
        k = k + 1;
    }
    assert(all.take(len as int) =~= all);
    r
}

/// The segments of a path and the positions of those that count as components.
fn segments_of(p: &str) -> (r: (Vec<String>, Vec<usize>))
    ensures
        text::texts(r.0@) == text::split(p@, '/'),
        r.1@.map_values(|i: usize| i as int) == component_positions(text::split(p@, '/')),
        forall|k: int| 0 <= k < r.1@.len() ==> (#[trigger] r.1@[k]) < r.0@.len(),
        forall|j: int, k: int| 0 <= j < k < r.1@.len() ==> #[trigger] r.1@[j] < #[trigger] r.1@[k],
{
    let segments = text::split_on(p, '/');
    let ghost all = text::split(p@, '/');
    let mut at: Vec<usize> = Vec::new();
    let len = segments.len();
    assert(all.take(0) =~= Seq::<Seq<char>>::empty());
    assert(at@.map_values(|i: usize| i as int) =~= component_positions(all.take(0)));
    let mut k: usize = 0;
    while k < len
        invariant
            k <= len,
            len == segments@.len(),
            text::texts(segments@) == all,
            at@.map_values(|i: usize| i as int) == component_positions(all.take(k as int)),
        decreases len - k,
    {
        let ghost before = at@.map_values(|i: usize| i as int);
        let segment = segments[k].as_str();
        assert(segment@ == all[k as int]);
        assert(all.take(k + 1).drop_last() =~= all.take(k as int));
        proof {
            reveal_strlit(".");
            assert("."@ =~= seq!['.']);
        }
        if segment.unicode_len() > 0 && (k == 0 || !text::same_text(segment, ".")) {
            assert(is_component(all.take(k + 1), k as int));
            at.push(k);
            assert(at@.map_values(|i: usize| i as int) =~= before.push(k as int));
        } else {
            assert(!is_component(all.take(k + 1), k as int));
        }
        k = k + 1;
    }
    assert(all.take(len as int) =~= all);
    proof {
        lemma_positions(all);
        let m = at@.map_values(|i: usize| i as int);
        assert forall|j: int| 0 <= j < at@.len() implies (#[trigger] at@[j]) < segments@.len() by {
            assert(m[j] == at@[j]);
        }
        assert forall|i: int, j: int| 0 <= i < j < at@.len() implies #[trigger] at@[i]
            < #[trigger] at@[j] by {
            assert(m[i] == at@[i] && m[j] == at@[j]);
        }
    }
    (segments, at)
}

/// The components of a path, one by one.
pub fn components_of(p: &str) -> (r: Vec<String>)
    ensures
        text::texts(r@) == components(p@),
{
    let (segments, at) = segments_of(p);
    let ghost all = text::split(p@, '/');
    let mut r: Vec<String> = Vec::new();
    let len = at.len();
    let mut k: usize = 0;
    while k < len
        invariant
            k <= len,
            len == at@.len(),
            all == text::split(p@, '/'),
            text::texts(segments@) == all,
            at@.map_values(|i: usize| i as int) == component_positions(all),
            forall|k: int| 0 <= k < at@.len() ==> (#[trigger] at@[k]) < segments@.len(),
            text::texts(r@) == components(p@).take(k as int),
        decreases len - k,
    {
        let ghost before = text::texts(r@);
        r.push(segments[at[k]].clone());
        proof {
            let m = at@.map_values(|i: usize| i as int);
            assert(m[k as int] == at@[k as int]);
            assert(text::texts(segments@)[at@[k as int] as int] == segments@[at@[k as int] as int]@);
            assert(text::texts(r@) =~= before.push(all[m[k as int]]));
            assert(components(p@).take(k + 1) =~= components(p@).take(k as int).push(
                components(p@)[k as int],
            ));
        }
        k = k + 1;
    }
    assert(at@.map_values(|i: usize| i as int).len() == at@.len());
    assert(components(p@).take(len as int) =~= components(p@));
    r
}

/// Whether the first list of texts is at the start of the second.
fn list_starts_with(a: &Vec<String>, b: &Vec<String>) -> (r: bool)
    ensures
        r == text::texts(a@).is_prefix_of(text::texts(b@)),
{
    if a.len() > b.len() {
        return false;
    }
    let len = a.len();
    let mut k: usize = 0;
    while k < len
        invariant
            k <= len,
            len == a@.len(),
            len <= b@.len(),
            forall|j: int| 0 <= j < k ==> #[trigger] text::texts(a@)[j] == text::texts(b@)[j],
        decreases len - k,
    {
        if a[k] != b[k] {
            assert(text::texts(a@)[k as int] != text::texts(b@)[k as int]);
            return false;
        }
        k = k + 1;
    }
    assert(text::texts(b@).take(len as int) =~= text::texts(a@));
    true
}

/// Whether two texts name the same path.
pub fn same_path(a: &str, b: &str) -> (r: bool)
    ensures
        r == same(a@, b@),
        r <==> is_absolute(a@) == is_absolute(b@) && components(a@) == components(b@),
{
    let x = components_of(a);
    let y = components_of(b);
    let r = starts_at_root(a) == starts_at_root(b) && x.len() == y.len() && list_starts_with(&x, &y);
    proof {
        assert(text::texts(x@).len() == x@.len() && text::texts(y@).len() == y@.len());
        if r {
            assert(components(a@) =~= components(b@));
        }
    }
    r
}

/// The name at the end of a path.
pub fn file_name(p: &str) -> (r: Option<String>)
    ensures
        r is Some <==> name_of(p@) is Some,
        r matches Some(name) ==> Some(name@) == name_of(p@),
{
    let mut c = components_of(p);
    proof {
        reveal_strlit(".");
        reveal_strlit("..");
        assert("."@ =~= seq!['.']);
        assert(".."@ =~= seq!['.', '.']);
        assert(text::texts(c@).len() == c@.len());
    }
    match c.pop() {
        None => None,
        Some(last) => {
            assert(last@ == components(p@).last());
            if text::same_text(last.as_str(), ".") || text::same_text(last.as_str(), "..") {
                None
            } else {
                Some(last)
            }
        },
    }
}

/// The extension of the name at the end of a path.
pub fn extension(p: &str) -> (r: Option<String>)
    ensures
        r is Some <==> extension_of(p@) is Some,
        r matches Some(ext) ==> Some(ext@) == extension_of(p@),
{
    match file_name(p) {
        None => None,
        Some(name) => {
            let mut parts = text::split_on(name.as_str(), '.');
            assert(text::texts(parts@).len() == parts@.len());
            assert(text::texts(parts@)[0] == parts@[0]@);
            if parts.len() == 1 || (parts.len() == 2 && parts[0].as_str().unicode_len() == 0) {
                None
            } else {
                assert(text::texts(parts@).last() == parts@.last()@);
                parts.pop()
            }
        },
    }
}

/// Puts segments `from` up to, but without, `to` together again.
fn join_segments(segments: &Vec<String>, from: usize, to: usize) -> (r: String)
    requires
        from <= to <= segments@.len(),
    ensures
        r@ == text::joined(text::texts(segments@).subrange(from as int, to as int), '/'),
{
    let ghost all = text::texts(segments@);
    let mut r = String::new();
    let mut k: usize = from;
    assert(all.subrange(from as int, from as int) =~= Seq::<Seq<char>>::empty());
    while k < to
        invariant
            from <= k <= to <= segments@.len(),
            all == text::texts(segments@),
            r@ == text::joined(all.subrange(from as int, k as int), '/'),
        decreases to - k,
    {
        let ghost now = all.subrange(from as int, k + 1);
        assert(now.drop_last() =~= all.subrange(from as int, k as int));
        assert(now.last() == segments@[k as int]@);
        if k > from {
            r.append("/");
            proof {
                reveal_strlit("/");
                assert("/"@ =~= seq!['/']);
            }
        }
        let ghost before = r@;
        r.append(segments[k].as_str());
        assert(r@ =~= text::joined(now, '/'));
        k = k + 1;
    }
    r
}

/// The path without its last component.
pub fn parent(p: &str) -> (r: Option<String>)
    ensures
        r is Some <==> parent_of(p@) is Some,
        r matches Some(dir) ==> Some(dir@) == parent_of(p@),
{
    let (segments, at) = segments_of(p);
    let ghost m = at@.map_values(|i: usize| i as int);
    assert(m.len() == at@.len());
    let n = at.len();
    if n == 0 {
        None
    } else if n == 1 {
        if starts_at_root(p) {
            proof {
                reveal_strlit("/");
                assert("/"@ =~= seq!['/']);
            }
            Some("/".to_owned())
        } else {
            Some(String::new())
        }
    } else {
        assert(m[n - 2] == at@[n - 2]);
        assert(at@[n - 2] < at@[n - 1]);
        assert(text::texts(segments@).len() == segments@.len());
        let to = at[n - 2] + 1;
        assert(text::texts(segments@).subrange(0, to as int) =~= text::texts(segments@).take(
            to as int,
        ));
        Some(join_segments(&segments, 0, to))
    }
}

/// What is left of a path behind a base that it starts with.
pub fn strip_prefix(p: &str, base: &str) -> (r: Option<String>)
    ensures
        r is Some <==> stripped(p@, base@) is Some,
        r matches Some(rest) ==> Some(rest@) == stripped(p@, base@),
{
    let (segments, at) = segments_of(p);
    let own = components_of(p);
    let front = components_of(base);
    let ghost m = at@.map_values(|i: usize| i as int);
    proof {
        assert(m.len() == at@.len());
        assert(text::texts(own@).len() == own@.len());
        assert(text::texts(front@).len() == front@.len());
        assert(components(p@).len() == m.len());
    }
    let n = front.len();
    let len = at.len();
    if !starts_at_root(base) && n == 0 {
        if len > 0 {
            assert(m.last() == at@[len - 1]);
            assert(at@[len - 1] < segments.len());
            let to = at[len - 1] + 1;
            assert(text::texts(segments@).len() == segments@.len());
            assert(text::texts(segments@).subrange(0, to as int) =~= text::texts(segments@).take(
                to as int,
            ));
            return Some(join_segments(&segments, 0, to));
        }
        if starts_at_root(p) {
            proof {
                reveal_strlit("/");
                assert("/"@ =~= seq!['/']);
            }
            return Some("/".to_owned());
        }
        return Some(String::new());
    }
    if starts_at_root(p) != starts_at_root(base) || !list_starts_with(&front, &own) {
        return None;
    }
    if n == len {
        Some(String::new())
    } else {
        assert(m[n as int] == at@[n as int]);
        assert(m.last() == at@[len - 1]);
        Some(join_segments(&segments, at[n], at[len - 1] + 1))
    }
}

/// Whether a text is the name of a file or directory and no more than that.
pub open spec fn is_plain(part: Seq<char>) -> bool {
    part.len() > 0 && text::lacks(part, '/') && part != seq!['.'] && part != seq!['.', '.']
}

/// How many segments of a base stand before what is put behind it.
spec fn kept_segments(base: Seq<char>) -> int {
    if base.len() == 0 {
        0
    } else if base.last() == '/' {
        text::split(base, '/').len() - 1
    } else {
        text::split(base, '/').len() as int
    }
}

/// Putting a plain name behind a path adds one segment and one component.
proof fn lemma_join_plain(base: Seq<char>, part: Seq<char>)
    requires
        is_plain(part),
    ensures
        ({
            let before = text::split(base, '/');
            let after = text::split(joined_path(base, part), '/');
            let m = kept_segments(base);
            &&& 0 <= m <= before.len()
            &&& after == before.take(m).push(part)
            &&& component_positions(after) == component_positions(before).push(m)
            &&& component_positions(before) == component_positions(before.take(m))
        }),
        is_absolute(joined_path(base, part)) == is_absolute(base),
        joined_path(base, part).len() > 0,
        joined_path(base, part).last() != '/',
{
    let before = text::split(base, '/');
    let after = text::split(joined_path(base, part), '/');
    let m = kept_segments(base);
    assert(part[0] != '/');
    assert(part[part.len() - 1] != '/');
    text::lemma_split_parts(base, '/');
    text::lemma_split_whole(part, '/');
    if base.len() == 0 {
        assert(base + part =~= part);
        assert(before.take(0).push(part) =~= seq![part]);
        assert(before[0].len() == 0);
        assert(before.drop_last() =~= Seq::<Seq<char>>::empty());
        assert(before.take(0) =~= Seq::<Seq<char>>::empty());
    } else if base.last() == '/' {
        let front = base.drop_last();
        assert(base + part =~= front + seq!['/'] + part);
        text::lemma_split_concat(front, '/', part);
        assert(before.drop_last() =~= text::split(front, '/'));
        assert(before.take(m) =~= before.drop_last());
        assert(after =~= before.take(m).push(part));
        assert(before.last().len() == 0);
        text::lemma_split_parts(front, '/');
    } else {
        text::lemma_split_concat(base, '/', part);
        assert(before.take(m) =~= before);
        assert(after =~= before.take(m).push(part));
    }
    assert(after.drop_last() =~= before.take(m));
    assert(is_component(after, after.len() - 1));
}

/// The segments and components of a path with plain names put behind it.
proof fn lemma_join_all(base: Seq<char>, parts: Seq<Seq<char>>)
    requires
        parts.len() > 0,
        forall|k: int| 0 <= k < parts.len() ==> is_plain(#[trigger] parts[k]),
    ensures
        ({
            let before = text::split(base, '/');
            let after = text::split(joined_all(base, parts), '/');
            let m = kept_segments(base);
            &&& 0 <= m <= before.len()
            &&& after == before.take(m) + parts
            &&& component_positions(after) == component_positions(before) + Seq::new(
                parts.len(),
                |k: int| m + k,
            )
            &&& component_positions(before) == component_positions(before.take(m))
        }),
        is_absolute(joined_all(base, parts)) == is_absolute(base),
        joined_all(base, parts).len() > 0,
        joined_all(base, parts).last() != '/',
    decreases parts.len(),
{
    let before = text::split(base, '/');
    let m = kept_segments(base);
    let front = parts.drop_last();
    assert(is_plain(parts[parts.len() - 1]));
    if parts.len() == 1 {
        assert(joined_all(base, front) == base);
        lemma_join_plain(base, parts.last());
        assert(before.take(m).push(parts.last()) =~= before.take(m) + parts);
        assert(component_positions(before).push(m) =~= component_positions(before) + Seq::new(
            parts.len(),
            |k: int| m + k,
        ));
    } else {
        assert forall|k: int| 0 <= k < front.len() implies is_plain(#[trigger] front[k]) by {
            assert(front[k] == parts[k]);
        }
        lemma_join_all(base, front);
        let middle = text::split(joined_all(base, front), '/');
        lemma_join_plain(joined_all(base, front), parts.last());
        assert(middle.take(middle.len() as int) =~= middle);
        assert(middle.push(parts.last()) =~= before.take(m) + parts);
        assert((component_positions(before) + Seq::new(front.len(), |k: int| m + k)).push(
            m + front.len(),
        ) =~= component_positions(before) + Seq::new(parts.len(), |k: int| m + k));
    }
}

/// Positions in the front of a list of segments do not depend on what follows.
proof fn lemma_positions_below(segments: Seq<Seq<char>>, m: int)
    requires
        0 <= m <= segments.len(),
        component_positions(segments) == component_positions(segments.take(m)),
    ensures
        forall|k: int|
            0 <= k < component_positions(segments).len() ==> 0 <= #[trigger] component_positions(
                segments,
            )[k] < m,
{
    lemma_positions(segments.take(m));
}

/// Plain names put behind a path add themselves to its components: the last one becomes its
/// name, and with the path taken away again they are left.
pub proof fn law_join_then_strip(base: Seq<char>, parts: Seq<Seq<char>>)
    requires
        parts.len() > 0,
        forall|k: int| 0 <= k < parts.len() ==> is_plain(#[trigger] parts[k]),
    ensures
        components(joined_all(base, parts)) == components(base) + parts,
        is_absolute(joined_all(base, parts)) == is_absolute(base),
        name_of(joined_all(base, parts)) == Some(parts.last()),
        stripped(joined_all(base, parts), base) == Some(text::joined(parts, '/')),
{
    let before = text::split(base, '/');
    let whole = joined_all(base, parts);
    let after = text::split(whole, '/');
    let m = kept_segments(base);
    let added = Seq::new(parts.len(), |k: int| m + k);
    lemma_join_all(base, parts);
    lemma_positions_below(before, m);
    let at = component_positions(after);
    let own = component_positions(before);
    assert forall|k: int| 0 <= k < at.len() implies after[#[trigger] at[k]] == (components(base)
        + parts)[k] by {
        if k < own.len() {
            assert(at[k] == own[k]);
            assert(after[own[k]] == before[own[k]]);
        } else {
            assert(at[k] == added[k - own.len()]);
        }
    }
    assert(components(whole) =~= components(base) + parts);
    assert(is_plain(parts[parts.len() - 1]));
    let n = components(base).len() as int;
    assert(at.last() == m + parts.len() - 1);
    if n == 0 && !is_absolute(base) {
        assert(base.len() == 0) by {
            if base.len() > 0 {
                lemma_first_segment(base);
                assert(is_component(before, 0));
                lemma_component_listed(before, 0);
            }
        }
        assert(after.take(at.last() + 1) =~= parts);
    } else {
        assert(at[n] == added[0]);
        assert(after.subrange(at[n], at.last() + 1) =~= parts);
        assert((components(base) + parts).take(n) =~= components(base));
    }
}

/// The first segment of a path that does not start at the root is not empty.
proof fn lemma_first_segment(p: Seq<char>)
    requires
        p.len() > 0,
        !is_absolute(p),
    ensures
        text::split(p, '/').len() > 0,
        text::split(p, '/')[0].len() > 0,
    decreases p.len(),
{
    text::lemma_split_parts(p, '/');
    text::lemma_split_parts(p.drop_last(), '/');
    if p.len() == 1 {
        assert(p.drop_last() =~= Seq::<char>::empty());
    } else {
        lemma_first_segment(p.drop_last());
    }
}

/// Every component is listed.
proof fn lemma_component_listed(segments: Seq<Seq<char>>, i: int)
    requires
        0 <= i < segments.len(),
        is_component(segments, i),
    ensures
        component_positions(segments).contains(i),
    decreases segments.len(),
{
    let front = segments.drop_last();
    let all = component_positions(segments);
    if i == segments.len() - 1 {
        assert(all[all.len() - 1] == i);
    } else {
        assert(is_component(front, i));
        lemma_component_listed(front, i);
        let k = choose|k: int|
            0 <= k < component_positions(front).len() && component_positions(front)[k] == i;
        assert(all[k] == i);
    }
}

/// Parts are put behind a path one after the other; each behind a slash, unless it starts at the
/// root itself or there is a slash, or nothing, before it.
pub proof fn law_parts_go_behind_one_another(
    base: Seq<char>,
    parts: Seq<Seq<char>>,
    part: Seq<char>,
)
    ensures
        joined_all(base, Seq::<Seq<char>>::empty()) == base,
        joined_all(base, parts.push(part)) == joined_path(joined_all(base, parts), part),
        part.len() > 0 && part[0] == '/' ==> joined_path(base, part) == part,
        (part.len() == 0 || part[0] != '/') && (base.len() == 0 || base.last() == '/')
            ==> joined_path(base, part) == base + part,
        (part.len() == 0 || part[0] != '/') && base.len() > 0 && base.last() != '/' ==> joined_path(
            base,
            part,
        ) == base + seq!['/'] + part,
{
    assert(parts.push(part).drop_last() =~= parts);
}

/// A text without slashes is its own only component, and one more segment behind a slash adds
/// itself, unless it is empty or a dot.
pub proof fn law_segments_are_components(p: Seq<char>, q: Seq<char>)
    requires
        forall|k: int| 0 <= k < q.len() ==> #[trigger] q[k] != '/',
    ensures
        components(q) == if q.len() == 0 {
            Seq::<Seq<char>>::empty()
        } else {
            seq![q]
        },
        components(p + seq!['/'] + q) == if q.len() == 0 || q == seq!['.'] {
            components(p)
        } else {
            components(p).push(q)
        },
        is_absolute(p) <==> p.len() > 0 && p[0] == '/',
{
    let one = text::split(q, '/');
    text::lemma_split_whole(q, '/');
    assert(one.drop_last() =~= Seq::<Seq<char>>::empty());
    assert(component_positions(one.drop_last()) =~= Seq::<int>::empty());
    assert(component_positions(one) =~= if q.len() == 0 {
        Seq::<int>::empty()
    } else {
        seq![0int]
    });
    assert(components(q) =~= if q.len() == 0 {
        Seq::<Seq<char>>::empty()
    } else {
        seq![q]
    });
    let before = text::split(p, '/');
    let after = text::split(p + seq!['/'] + q, '/');
    text::lemma_split_parts(p, '/');
    text::lemma_split_concat(p, '/', q);
    assert(after =~= before.push(q));
    assert(after.drop_last() =~= before);
    lemma_positions(before);
    assert(components(p + seq!['/'] + q) =~= if q.len() == 0 || q == seq!['.'] {
        components(p)
    } else {
        components(p).push(q)
    });
}

/// The name of a path is its last component, unless that is a dot or two.
pub proof fn law_name_is_the_last_component(p: Seq<char>)
    ensures
        name_of(p) is Some <==> components(p).len() > 0 && components(p).last() != seq!['.']
            && components(p).last() != seq!['.', '.'],
        name_of(p) matches Some(name) ==> name == components(p).last(),
{
}

/// The extension of a name is what follows its last dot. A name without a dot, or with one at its
/// start alone, has none.
pub proof fn law_extension_follows_the_last_dot(p: Seq<char>, stem: Seq<char>, ext: Seq<char>)
    requires
        forall|k: int| 0 <= k < ext.len() ==> #[trigger] ext[k] != '.',
    ensures
        stem.len() > 0 && name_of(p) == Some(stem + seq!['.'] + ext) ==> extension_of(p) == Some(ext),
        name_of(p) == Some(ext) ==> extension_of(p) is None,
        name_of(p) == Some(seq!['.'] + ext) ==> extension_of(p) is None,
        name_of(p) is None ==> extension_of(p) is None,
{
    let empty = Seq::<char>::empty();
    text::lemma_split_whole(ext, '.');
    text::lemma_split_whole(empty, '.');
    text::lemma_split_parts(stem, '.');
    text::lemma_split_concat(stem, '.', ext);
    text::lemma_split_concat(empty, '.', ext);
    assert(empty + seq!['.'] + ext =~= seq!['.'] + ext);
    assert(text::split(seq!['.'] + ext, '.') =~= seq![empty, ext]);
    if stem.len() > 0 && text::split(stem, '.').len() == 1 {
        text::law_split_undoes_joined(stem, seq![stem], '.');
        assert(text::split(stem, '.')[0] == stem);
    }
}

/// A path has a parent where it has a component. The parent has all components but the last, and
/// starts at the root where the path does. Behind a name, a slash and another name are taken away
/// to the letter.
pub proof fn law_parent_lacks_the_last_component(p: Seq<char>, front: Seq<char>, q: Seq<char>)
    ensures
        parent_of(p) is Some <==> components(p).len() > 0,
        parent_of(p) matches Some(dir) ==> components(dir) == components(p).drop_last()
            && is_absolute(dir) == is_absolute(p),
        is_plain(q) && is_plain(text::split(front, '/').last()) ==> parent_of(
            front + seq!['/'] + q,
        ) == Some(front),
{
    let segments = text::split(p, '/');
    let at = component_positions(segments);
    lemma_positions(segments);
    text::lemma_split_parts(p, '/');
    text::law_split_undoes_joined(p, segments, '/');
    if at.len() == 1 {
        let root = seq!['/'];
        let empty = Seq::<char>::empty();
        text::lemma_split_whole(empty, '/');
        assert(empty + root + empty =~= root);
        law_segments_are_components(empty, empty);
        assert(components(root) =~= Seq::<Seq<char>>::empty());
        assert(components(empty) =~= Seq::<Seq<char>>::empty());
        assert(components(p).drop_last() =~= Seq::<Seq<char>>::empty());
    } else if at.len() > 1 {
        let n = at.len() - 2;
        let kept = segments.take(at[n] + 1);
        let dir = text::joined(kept, '/');
        assert forall|k: int| 0 <= k < kept.len() implies text::lacks(#[trigger] kept[k], '/') by {
            assert(kept[k] == segments[k]);
        }
        text::lemma_split_joined(kept, '/');
        lemma_positions_of_front(segments, n);
        assert(components(dir) =~= components(p).drop_last()) by {
            assert forall|k: int| 0 <= k < n + 1 implies kept[#[trigger] at[k]] == segments[at[k]] by {
                if k < n {
                    assert(at[k] < at[n]);
                }
            }
        }
        lemma_same_start(p, dir);
        assert(segments[0] == kept[0]);
    }
    if is_plain(q) && is_plain(text::split(front, '/').last()) {
        let before = text::split(front, '/');
        let whole = front + seq!['/'] + q;
        text::lemma_split_parts(front, '/');
        text::lemma_split_whole(q, '/');
        text::lemma_split_concat(front, '/', q);
        let after = text::split(whole, '/');
        assert(after =~= before.push(q));
        assert(after.drop_last() =~= before);
        let own = component_positions(before);
        assert(is_component(before, before.len() - 1));
        assert(component_positions(after) == own.push(before.len() as int));
        if own.len() >= 1 {
            assert(own.last() == before.len() - 1);
            assert(after.take(before.len() as int) =~= before);
            text::law_split_undoes_joined(front, before, '/');
        }
    }
}

/// The components of the first segments of a path.
proof fn lemma_positions_of_front(segments: Seq<Seq<char>>, k: int)
    requires
        0 <= k < component_positions(segments).len(),
    ensures
        component_positions(segments.take(component_positions(segments)[k] + 1))
            == component_positions(segments).take(k + 1),
    decreases segments.len(),
{
    let at = component_positions(segments);
    let front = segments.drop_last();
    lemma_positions(segments);
    lemma_positions(front);
    if at[k] == segments.len() - 1 {
        assert(k == at.len() - 1) by {
            if k < at.len() - 1 {
                assert(at[k] < at[at.len() - 1]);
            }
        }
        assert(segments.take(at[k] + 1) =~= segments);
        assert(at.take(k + 1) =~= at);
    } else {
        let own = component_positions(front);
        assert(k < own.len());
        assert(own[k] == at[k]);
        lemma_positions_of_front(front, k);
        assert(segments.take(at[k] + 1) =~= front.take(own[k] + 1));
        assert(at.take(k + 1) =~= own.take(k + 1));
    }
}

/// Paths with the same first segment, of several, both start at the root or both do not.
proof fn lemma_same_start(a: Seq<char>, b: Seq<char>)
    requires
        text::split(a, '/')[0] == text::split(b, '/')[0],
        text::split(a, '/').len() > 1,
        text::split(b, '/').len() > 1 || text::split(b, '/')[0].len() > 0,
    ensures
        is_absolute(a) == is_absolute(b),
{
    lemma_starts_with_first_segment(a);
    lemma_starts_with_first_segment(b);
}

/// A path starts at the root where its first segment is empty and there are more.
proof fn lemma_starts_with_first_segment(p: Seq<char>)
    ensures
        is_absolute(p) <==> text::split(p, '/')[0].len() == 0 && text::split(p, '/').len() > 1,
    decreases p.len(),
{
    text::lemma_split_parts(p, '/');
    if p.len() > 0 {
        let front = p.drop_last();
        text::lemma_split_parts(front, '/');
        lemma_starts_with_first_segment(front);
        text::law_split_undoes_joined(front, text::split(front, '/'), '/');
        if p.len() == 1 {
            assert(front =~= Seq::<char>::empty());
        } else {
            assert(front[0] == p[0]);
            if text::split(front, '/').len() == 1 {
                assert(text::split(front, '/')[0] == front);
            }
        }
    }
}

/// A base can be taken away from a path exactly where the path starts with its components, and
/// starts at the root where the base does; the empty base can always.
pub proof fn law_only_a_base_is_taken_away(p: Seq<char>, base: Seq<char>)
    ensures
        stripped(p, base) is Some <==> (!is_absolute(base) && components(base).len() == 0) || (
        is_absolute(p) == is_absolute(base) && components(base).len() <= components(p).len()
            && components(p).take(components(base).len() as int) == components(base)),
        same(p, base) && components(base).len() > 0 ==> stripped(p, base) == Some(
            Seq::<char>::empty(),
        ),
        same(p, base) <==> is_absolute(p) == is_absolute(base) && components(p) == components(base),
        is_plain(p) <==> p.len() > 0 && p != seq!['.'] && p != seq!['.', '.'] && (forall|k: int|
            0 <= k < p.len() ==> #[trigger] p[k] != '/'),
{
    let c = components(base);
    if c.is_prefix_of(components(p)) {
        assert(components(p).take(c.len() as int) =~= c);
    }
    if c.len() <= components(p).len() && components(p).take(c.len() as int) == c {
        assert(c.is_prefix_of(components(p)));
    }
}

} // verus!
