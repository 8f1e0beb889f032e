//! A map from names to values that is walked in the order of the names.

use crate::text;
use vstd::prelude::*;

verus! {

/// Whether a name comes before another: character by character, the shorter one first.
pub open spec fn precedes(a: Seq<char>, b: Seq<char>) -> bool
    decreases a.len(),
{
    if b.len() == 0 {
        false
    } else if a.len() == 0 {
        true
    } else if a[0] != b[0] {
        a[0] < b[0]
    } else {
        precedes(a.skip(1), b.skip(1))
    }
}

/// A name and what it stands for.
#[derive(Clone, Debug)]
pub struct Entry<V> {
    pub name: String,
    pub value: V,
}

/// A map from names to values.
#[derive(Clone, Debug)]
pub struct NameMap<V> {
    pub entries: Vec<Entry<V>>,
}

/// What a list of entries holds for a name.
pub open spec fn lookup<V>(entries: Seq<Entry<V>>, name: Seq<char>) -> Option<V> {
    if exists|k: int| 0 <= k < entries.len() && (#[trigger] entries[k]).name@ == name {
        Some(
            entries[choose|k: int|
                0 <= k < entries.len() && (#[trigger] entries[k]).name@ == name].value,
        )
    } else {
        None
    }
}

/// The names of a list of entries.
pub open spec fn names_of<V>(entries: Seq<Entry<V>>) -> Seq<Seq<char>> {
    entries.map_values(|e: Entry<V>| e.name@)
}

/// No name comes before itself.
pub proof fn lemma_precedes_irreflexive(a: Seq<char>)
    ensures
        !precedes(a, a),
    decreases a.len(),
{
    if a.len() > 0 {
        lemma_precedes_irreflexive(a.skip(1));
    }
}

/// Names before a name before another come before that one.
pub proof fn lemma_precedes_transitive(a: Seq<char>, b: Seq<char>, c: Seq<char>)
    requires
        precedes(a, b),
        precedes(b, c),
    ensures
        precedes(a, c),
    decreases a.len(),
{
    if a.len() > 0 && a[0] == b[0] && b[0] == c[0] {
        lemma_precedes_transitive(a.skip(1), b.skip(1), c.skip(1));
    }
}

/// Of two different names one comes before the other.
pub proof fn lemma_precedes_total(a: Seq<char>, b: Seq<char>)
    ensures
        a == b || precedes(a, b) || precedes(b, a),
    decreases a.len(),
{
    if a.len() > 0 && b.len() > 0 && a[0] == b[0] {
        lemma_precedes_total(a.skip(1), b.skip(1));
        if a.skip(1) == b.skip(1) {
            assert(a =~= seq![a[0]] + a.skip(1));
            assert(b =~= seq![b[0]] + b.skip(1));
        }
    } else if a.len() == 0 && b.len() == 0 {
        assert(a =~= b);
    }
}

/// Whether a name comes before another.
pub fn comes_before(a: &str, b: &str) -> (r: bool)
    ensures
        r == precedes(a@, b@),
{
    let x = text::chars_of(a);
    let y = text::chars_of(b);
    let mut k: usize = 0;
    assert(x@.skip(0) =~= x@);
    assert(y@.skip(0) =~= y@);
    while k < x.len() && k < y.len() && x[k] == y[k]
        invariant
            k <= x@.len(),
            k <= y@.len(),
            precedes(x@, y@) == precedes(x@.skip(k as int), y@.skip(k as int)),
        decreases x@.len() - k,
    {
        assert(x@.skip(k as int).skip(1) =~= x@.skip(k + 1));
        assert(y@.skip(k as int).skip(1) =~= y@.skip(k + 1));
        k = k + 1;
    }
    if k == y.len() {
        false
    } else if k == x.len() {
        true
    } else {
        x[k] < y[k]
    }
}

impl<V> NameMap<V> {
    /// Whether the names ascend, so that none occurs twice.
    pub open spec fn wf(self) -> bool {
        forall|i: int, j: int|
            0 <= i < j < self.entries@.len() ==> precedes(
                (#[trigger] self.entries@[i]).name@,
                (#[trigger] self.entries@[j]).name@,
            )
    }

    /// What the map holds for a name.
    pub open spec fn value_of(self, name: Seq<char>) -> Option<V> {
        lookup(self.entries@, name)
    }

    /// The names in the map, in their order.
    pub open spec fn names(self) -> Seq<Seq<char>> {
        names_of(self.entries@)
    }

    /// A map without entries.
    pub fn new() -> (r: NameMap<V>)
        ensures
            r.wf(),
            r.entries@.len() == 0,
    {
        NameMap { entries: Vec::new() }
    }

    /// An entry is what the map holds for its name.
    pub proof fn lemma_entry(self, k: int)
        requires
            self.wf(),
            0 <= k < self.entries@.len(),
        ensures
            self.value_of(self.entries@[k].name@) == Some(self.entries@[k].value),
    {
        let name = self.entries@[k].name@;
        let i = choose|i: int|
            0 <= i < self.entries@.len() && (#[trigger] self.entries@[i]).name@ == name;
        lemma_precedes_irreflexive(name);
        if i < k {
            assert(precedes(self.entries@[i].name@, self.entries@[k].name@));
        } else if k < i {
            assert(precedes(self.entries@[k].name@, self.entries@[i].name@));
        }
    }

    /// Puts a value under a name, in place of what was there.
    pub fn insert(&mut self, name: String, value: V)
        requires
            old(self).wf(),
        ensures
            final(self).wf(),
            final(self).value_of(name@) == Some(value),
            forall|n: Seq<char>|
                n != name@ ==> #[trigger] final(self).value_of(n) == old(self).value_of(n),
    {
        let ghost before = *self;
        let ghost key = name@;
        let len = self.entries.len();
        let mut at: usize = 0;
        while at < len && comes_before(self.entries[at].name.as_str(), name.as_str())
            invariant
                at <= len,
                len == self.entries@.len(),
                *self == before,
                forall|j: int|
                    0 <= j < at ==> precedes((#[trigger] self.entries@[j]).name@, name@),
            decreases len - at,
        {
            at = at + 1;
        }
        proof {
            lemma_precedes_irreflexive(key);
        }
        if at < len && self.entries[at].name == name {
            let ghost entry = Entry { name, value };
            self.entries.set(at, Entry { name, value });
            proof {
                assert forall|i: int, j: int| 0 <= i < j < self.entries@.len() implies precedes(
                    (#[trigger] self.entries@[i]).name@,
                    (#[trigger] self.entries@[j]).name@,
                ) by {
                    assert(self.entries@[i].name@ == before.entries@[i].name@);
                    assert(self.entries@[j].name@ == before.entries@[j].name@);
                }
                self.lemma_entry(at as int);
                assert forall|n: Seq<char>| n != key implies #[trigger] self.value_of(n)
                    == before.value_of(n) by {
                    assert forall|i: int|
                        0 <= i < before.entries@.len() && (#[trigger] before.entries@[i]).name@
                            == n implies exists|j: int|
                        0 <= j < self.entries@.len() && #[trigger] self.entries@[j]
                            == before.entries@[i] by {
                        assert(self.entries@[i] == before.entries@[i]);
                    }
                    lemma_same_lookup(before, *self, n);
                }
            }
        } else {
            let ghost entry = Entry { name, value };
            self.entries.insert(at, Entry { name, value });
            proof {
                let now = self.entries@;
                let was = before.entries@;
                assert(now == was.insert(at as int, entry));
                if at < len {
                    lemma_precedes_total(was[at as int].name@, key);
                }
                assert forall|j: int| at <= j < len implies precedes(
                    key,
                    (#[trigger] was[j]).name@,
                ) by {
                    if j > at {
                        assert(precedes(was[at as int].name@, was[j].name@));
                        lemma_precedes_transitive(key, was[at as int].name@, was[j].name@);
                    }
                }
                assert forall|i: int, j: int| 0 <= i < j < now.len() implies precedes(
                    (#[trigger] now[i]).name@,
                    (#[trigger] now[j]).name@,
                ) by {
                    let a = if i < at {
                        i
                    } else {
                        i - 1
                    };
                    let b = if j < at {
                        j
                    } else {
                        j - 1
                    };
                    if i == at {
                        assert(now[j] == was[b]);
                    } else if j == at {
                        assert(now[i] == was[a]);
                    } else {
                        assert(now[i] == was[a] && now[j] == was[b]);
                    }
                }
                self.lemma_entry(at as int);
                assert forall|n: Seq<char>| n != key implies #[trigger] self.value_of(n)
                    == before.value_of(n) by {
                    assert forall|i: int|
                        0 <= i < was.len() && (#[trigger] was[i]).name@ == n implies exists|j: int|
                        0 <= j < now.len() && #[trigger] now[j] == was[i] by {
                        assert(now[if i < at {
                            i
                        } else {
                            i + 1
                        }] == was[i]);
                    }
                    assert forall|j: int|
                        0 <= j < now.len() && (#[trigger] now[j]).name@ == n implies exists|i: int|
                        0 <= i < was.len() && #[trigger] was[i] == now[j] by {
                        assert(now[j] == was[if j < at {
                            j
                        } else {
                            j - 1
                        }]);
                    }
                    lemma_same_lookup(before, *self, n);
                }
            }
        }
    }

    /// What the map holds for a name.
    pub fn get(&self, name: &str) -> (r: Option<&V>)
        requires
            self.wf(),
        ensures
            r is Some <==> self.value_of(name@) is Some,
            r matches Some(v) ==> Some(*v) == self.value_of(name@),
    {
        let len = self.entries.len();
        let mut k: usize = 0;
        while k < len
            invariant
                k <= len,
                len == self.entries@.len(),
                self.wf(),
                forall|j: int| 0 <= j < k ==> (#[trigger] self.entries@[j]).name@ != name@,
            decreases len - k,
        {
            if text::same_text(self.entries[k].name.as_str(), name) {
                proof {
                    self.lemma_entry(k as int);
                }
                return Some(&self.entries[k].value);
            }
            k = k + 1;
        }
        None
    }

    /// The names in the map, in their order.
    pub fn keys(&self) -> (r: Vec<String>)
        ensures
            text::texts(r@) == self.names(),
    {
        let mut r: Vec<String> = Vec::new();
        let len = self.entries.len();
        let mut k: usize = 0;
        while k < len
            invariant
                k <= len,
                len == self.entries@.len(),
                text::texts(r@) == self.names().take(k as int),
            decreases len - k,
        {
            let ghost before = text::texts(r@);
            r.push(self.entries[k].name.clone());
            assert(text::texts(r@) =~= before.push(self.entries@[k as int].name@));
            assert(self.names().take(k + 1) =~= before.push(self.entries@[k as int].name@));
            k = k + 1;
        }
        assert(self.names().take(len as int) =~= self.names());
        r
    }
}

/// Maps that have the same entry for a name, or both none, hold the same for it.
proof fn lemma_same_lookup<V>(a: NameMap<V>, b: NameMap<V>, name: Seq<char>)
    requires
        a.wf(),
        b.wf(),
        forall|i: int|
            0 <= i < a.entries@.len() && (#[trigger] a.entries@[i]).name@ == name ==> exists|j: int|
                0 <= j < b.entries@.len() && #[trigger] b.entries@[j] == a.entries@[i],
        forall|j: int|
            0 <= j < b.entries@.len() && (#[trigger] b.entries@[j]).name@ == name ==> exists|i: int|
                0 <= i < a.entries@.len() && #[trigger] a.entries@[i] == b.entries@[j],
    ensures
        a.value_of(name) == b.value_of(name),
{
    if exists|i: int| 0 <= i < a.entries@.len() && (#[trigger] a.entries@[i]).name@ == name {
        let i = choose|i: int|
            0 <= i < a.entries@.len() && (#[trigger] a.entries@[i]).name@ == name;
        let j = choose|j: int| 0 <= j < b.entries@.len() && #[trigger] b.entries@[j] == a.entries@[i];
        a.lemma_entry(i);
        b.lemma_entry(j);
    }
}

/// Names are ordered as in a dictionary: the first character in which they differ decides, and a
/// name comes before all those that it is the beginning of.
pub proof fn law_names_are_ordered(front: Seq<char>, a: Seq<char>, b: Seq<char>)
    ensures
        a.len() > 0 && b.len() > 0 && a[0] != b[0] ==> (precedes(front + a, front + b) <==> a[0]
            < b[0]),
        b.len() > 0 ==> precedes(front, front + b),
        !precedes(front + b, front),
    decreases front.len(),
{
    if front.len() > 0 {
        let rest = front.skip(1);
        law_names_are_ordered(rest, a, b);
        assert((front + a).skip(1) =~= rest + a);
        assert((front + b).skip(1) =~= rest + b);
    } else {
        assert(front + a =~= a);
        assert(front + b =~= b);
    }
}

/// Every entry of a map is what the map holds for its name, and a map holds nothing for a name
/// that no entry has.
pub proof fn law_entries_are_what_a_map_holds<V>(m: NameMap<V>, k: int, name: Seq<char>)
    requires
        m.wf(),
    ensures
        0 <= k < m.entries@.len() && m.entries@[k].name@ == name ==> m.value_of(name) == Some(
            m.entries@[k].value,
        ),
        m.value_of(name) is Some ==> exists|i: int|
            0 <= i < m.entries@.len() && (#[trigger] m.entries@[i]).name@ == name,
        m.names().len() == m.entries@.len(),
        0 <= k < m.entries@.len() ==> m.names()[k] == m.entries@[k].name@,
        0 < k < m.entries@.len() ==> precedes(m.entries@[k - 1].name@, m.entries@[k].name@),
{
    if 0 <= k < m.entries@.len() {
        m.lemma_entry(k);
    }
}

} // verus!
