//! A small table from text keys to values, kept in the order of insertion.
use crate::text;
use vstd::prelude::*;

verus! {

/// A map with text keys. Boards hold a handful of entries, so a search is a walk.
#[derive(Debug, Clone)]
pub struct Table<V> {
    entries: Vec<(String, V)>,
}

/// `i` is where `key` stands first.
pub open spec fn stands_at<V>(s: Seq<(String, V)>, key: Seq<char>, i: int) -> bool {
    &&& 0 <= i < s.len()
    &&& s[i].0@ == key
    &&& forall|j: int| 0 <= j < i ==> (#[trigger] s[j]).0@ != key
}

/// No key stands twice.
pub open spec fn keys_differ<V>(s: Seq<(String, V)>) -> bool {
    forall|i: int, j: int|
        0 <= i < j < s.len() ==> (#[trigger] s[i]).0@ != (#[trigger] s[j]).0@
}

/// The map that a list of entries stands for.
pub open spec fn map_of<V>(s: Seq<(String, V)>) -> Map<Seq<char>, V> {
    Map::new(
        |k: Seq<char>| exists|i: int| stands_at(s, k, i),
        |k: Seq<char>| s[choose|i: int| stands_at(s, k, i)].1,
    )
}

impl<V> View for Table<V> {
    type V = Map<Seq<char>, V>;

    closed spec fn view(&self) -> Map<Seq<char>, V> {
        map_of(self.entries@)
    }
}

proof fn found<V>(s: Seq<(String, V)>, key: Seq<char>, i: int)
    requires
        stands_at(s, key, i),
    ensures
        map_of(s).dom().contains(key),
        map_of(s)[key] == s[i].1,
{
    let c = choose|c: int| stands_at(s, key, c);
    assert(stands_at(s, key, c));
    assert(c == i) by {
        if c < i {
            assert(s[c].0@ != key);
        } else if i < c {
            assert(s[i].0@ != key);
        }
    }
}

proof fn not_found<V>(s: Seq<(String, V)>, key: Seq<char>)
    requires
        forall|j: int| 0 <= j < s.len() ==> (#[trigger] s[j]).0@ != key,
    ensures
        !map_of(s).dom().contains(key),
{
    if exists|i: int| stands_at(s, key, i) {
        let i = choose|i: int| stands_at(s, key, i);
        assert(s[i].0@ == key);
    }
}

/// A key that stands somewhere stands somewhere first.
proof fn has_first<V>(s: Seq<(String, V)>, key: Seq<char>, i: int)
    requires
        0 <= i < s.len(),
        s[i].0@ == key,
    ensures
        exists|f: int| stands_at(s, key, f),
    decreases i,
{
    if exists|j: int| 0 <= j < i && (#[trigger] s[j]).0@ == key {
        let j = choose|j: int| 0 <= j < i && (#[trigger] s[j]).0@ == key;
        has_first(s, key, j);
    } else {
        assert(stands_at(s, key, i));
    }
}

/// Replacing the value at the first place of a key replaces it in the map.
proof fn replaced<V>(s: Seq<(String, V)>, t: Seq<(String, V)>, key: Seq<char>, i: int, v: V)
    requires
        stands_at(s, key, i),
        t.len() == s.len(),
        forall|j: int| 0 <= j < s.len() ==> (#[trigger] t[j]).0@ == s[j].0@,
        forall|j: int| 0 <= j < s.len() && j != i ==> (#[trigger] t[j]).1 == s[j].1,
        t[i].1 == v,
    ensures
        map_of(t) == map_of(s).insert(key, v),
        keys_differ(s) ==> keys_differ(t),
{
    assert forall|k: Seq<char>, j: int| stands_at(s, k, j) == #[trigger] stands_at(t, k, j) by {
        if stands_at(s, k, j) {
            assert forall|l: int| 0 <= l < j implies (#[trigger] t[l]).0@ != k by {
                assert(s[l].0@ != k);
            }
        }
        if stands_at(t, k, j) {
            assert(s[j].0@ == t[j].0@);
            assert forall|l: int| 0 <= l < j implies (#[trigger] s[l]).0@ != k by {
                assert(t[l].0@ != k);
            }
        }
    }
    assert forall|k: Seq<char>|
        map_of(t).dom().contains(k) == map_of(s).insert(key, v).dom().contains(k) by {
        if exists|j: int| stands_at(s, k, j) {
            let j = choose|j: int| stands_at(s, k, j);
            assert(stands_at(t, k, j));
        }
        if exists|j: int| stands_at(t, k, j) {
            let j = choose|j: int| stands_at(t, k, j);
            assert(stands_at(s, k, j));
        }
        if k == key {
            assert(stands_at(t, k, i));
        }
    }
    assert forall|k: Seq<char>| map_of(t).dom().contains(k) implies map_of(t)[k] == map_of(
        s,
    ).insert(key, v)[k] by {
        let j = choose|j: int| stands_at(t, k, j);
        assert(stands_at(s, k, j));
        found(s, k, j);
        found(t, k, j);
        if k == key {
            found(t, k, i);
        }
    }
    assert(map_of(t) =~= map_of(s).insert(key, v));
    if keys_differ(s) {
        assert forall|a: int, b: int| 0 <= a < b < t.len() implies (#[trigger] t[a]).0@ != (
        #[trigger] t[b]).0@ by {
            assert(s[a].0@ != s[b].0@);
        }
    }
}

impl<V> Table<V> {
    /// The entries in the order of insertion.
    pub closed spec fn listing(&self) -> Seq<(String, V)> {
        self.entries@
    }

    /// No key stands twice.
    pub open spec fn distinct(&self) -> bool {
        keys_differ(self.listing())
    }

    /// What the listing and the map say of each other.
    pub proof fn listing_is_the_map(&self)
        ensures
            self@ == map_of(self.listing()),
            self.distinct() ==> forall|i: int|
                0 <= i < self.listing().len() ==> self@.dom().contains(
                    (#[trigger] self.listing()[i]).0@,
                ) && self@[self.listing()[i].0@] == self.listing()[i].1,
            forall|k: Seq<char>| #[trigger]
                self@.dom().contains(k) ==> exists|i: int|
                    0 <= i < self.listing().len() && (#[trigger] self.listing()[i]).0@ == k
                        && self.listing()[i].1 == self@[k],
    {
        let s = self.listing();
        if self.distinct() {
            assert forall|i: int| 0 <= i < s.len() implies self@.dom().contains(
                (#[trigger] s[i]).0@,
            ) && self@[s[i].0@] == s[i].1 by {
                assert(stands_at(s, s[i].0@, i));
                found(s, s[i].0@, i);
            }
        }
        assert forall|k: Seq<char>| #[trigger] self@.dom().contains(k) implies exists|i: int|
            0 <= i < s.len() && (#[trigger] s[i]).0@ == k && s[i].1 == self@[k] by {
            let i = choose|i: int| stands_at(s, k, i);
            found(s, k, i);
            assert(s[i].0@ == k && s[i].1 == self@[k]);
        }
    }

    /// An empty table.
    pub fn new() -> (r: Self)
        ensures
            r@ == Map::<Seq<char>, V>::empty(),
            r.distinct(),
    {
        let r = Table { entries: Vec::new() };
        proof {
            assert forall|k: Seq<char>| !r@.dom().contains(k) by {
                not_found(r.entries@, k);
            }
            assert(r@ =~= Map::<Seq<char>, V>::empty());
        }
        r
    }

    /// The entries in the order of insertion.
    pub fn entries(&self) -> (r: &Vec<(String, V)>)
        ensures
            r@ == self.listing(),
    {
        &self.entries
    }

    fn position(&self, key: &str) -> (r: Option<usize>)
        ensures
            match r {
                Some(i) => stands_at(self.entries@, key@, i as int),
                None => forall|j: int|
                    0 <= j < self.entries@.len() ==> (#[trigger] self.entries@[j]).0@ != key@,
            },
    {
        let mut i: usize = 0;
        while i < self.entries.len()
            invariant
                i <= self.entries@.len(),
                forall|j: int| 0 <= j < i ==> (#[trigger] self.entries@[j]).0@ != key@,
            decreases self.entries@.len() - i,
        {
            if text::same(self.entries[i].0.as_str(), key) {
                return Some(i);
            }
            i += 1;
        }
        None
    }

    /// The value of a key.
    pub fn get(&self, key: &str) -> (r: Option<&V>)
        ensures
            match r {
                Some(v) => self@.dom().contains(key@) && self@[key@] == *v,
                None => !self@.dom().contains(key@),
            },
    {
        match self.position(key) {
            Some(i) => {
                proof {
                    found(self.entries@, key@, i as int);
                }
                Some(&self.entries[i].1)
            },
            None => {
                proof {
                    not_found(self.entries@, key@);
                }
                None
            },
        }
    }

    /// The value of a key, to be changed in place.
    pub fn get_mut(&mut self, key: &str) -> (r: Option<&mut V>)
        ensures
            match r {
                Some(v) => {
                    &&& old(self)@.dom().contains(key@)
                    &&& old(self)@[key@] == *v
                    &&& final(self)@ == old(self)@.insert(key@, *final(v))
                    &&& old(self).distinct() ==> final(self).distinct()
                },
                None => !old(self)@.dom().contains(key@) && *final(self) == *old(self),
            },
    {
        match self.position(key) {
            Some(i) => {
                proof {
                    found(self.entries@, key@, i as int);
                    let s = self.entries@;
                    assert forall|v: V| #![trigger map_of(s).insert(key@, v)]
                        map_of(s.update(i as int, (s[i as int].0, v))) == map_of(s).insert(key@, v)
                            && (keys_differ(s) ==> keys_differ(
                            s.update(i as int, (s[i as int].0, v)),
                        )) by {
                        replaced(s, s.update(i as int, (s[i as int].0, v)), key@, i as int, v);
                    }
                }
                Some(&mut self.entries[i].1)
            },
            None => {
                proof {
                    not_found(self.entries@, key@);
                }
                None
            },
        }
    }

    /// Whether a key is there.
    pub fn contains(&self, key: &str) -> (r: bool)
        ensures
            r == self@.dom().contains(key@),
    {
        self.get(key).is_some()
    }

    /// Gives a key a value, whether or not it had one.
    pub fn insert(&mut self, key: String, v: V)
        ensures
            final(self)@ == old(self)@.insert(key@, v),
            old(self).distinct() ==> final(self).distinct(),
    {
        match self.position(key.as_str()) {
            Some(i) => {
                self.entries[i].1 = v;
                proof {
                    replaced(old(self).entries@, self.entries@, key@, i as int, v);
                }
            },
            None => {
                self.entries.push((key, v));
                proof {
                    let s = old(self).entries@;
                    let t = self.entries@;
                    let n = s.len() as int;
                    assert(stands_at(t, key@, n));
                    not_found(s, key@);
                    assert forall|k: Seq<char>| k != key@ implies #[trigger] map_of(
                        t,
                    ).dom().contains(k) == map_of(s).dom().contains(k) && (map_of(
                        s,
                    ).dom().contains(k) ==> map_of(t)[k] == map_of(s)[k]) by {
                        if exists|j: int| stands_at(t, k, j) {
                            let j = choose|j: int| stands_at(t, k, j);
                            assert(s[j] == t[j]);
                            assert forall|l: int| 0 <= l < j implies (#[trigger] s[l]).0@ != k by {
                                assert(t[l].0@ != k);
                            }
                            assert(stands_at(s, k, j));
                            found(s, k, j);
                            found(t, k, j);
                        }
                        if exists|j: int| stands_at(s, k, j) {
                            let j = choose|j: int| stands_at(s, k, j);
                            assert(t[j] == s[j]);
                            has_first(t, k, j);
                        }
                    }
                    found(t, key@, n);
                    assert(map_of(t) =~= map_of(s).insert(key@, v));
                }
            },
        }
    }

    /// Takes a key out.
    pub fn remove(&mut self, key: &str)
        ensures
            final(self)@ == old(self)@.remove(key@),
            old(self).distinct() ==> final(self).distinct(),
    {
        let ghost s = self.entries@;
        let mut i: usize = 0;
        while i < self.entries.len()
            invariant
                i <= self.entries@.len(),
                same_but(s, self.entries@, key@),
                forall|j: int| 0 <= j < i ==> (#[trigger] self.entries@[j]).0@ != key@,
                keys_differ(s) ==> keys_differ(self.entries@),
            decreases self.entries@.len() - i,
        {
            if text::same(self.entries[i].0.as_str(), key) {
                proof {
                    one_removed(self.entries@, i as int);
                }
                self.entries.remove(i);
            } else {
                i += 1;
            }
        }
        proof {
            not_found(self.entries@, key@);
            assert(map_of(self.entries@) =~= map_of(s).remove(key@));
        }
    }
}

/// Lists with the same keys and values stand for the same map.
proof fn same_entries_same_map<V>(s: Seq<(String, V)>, t: Seq<(String, V)>)
    requires
        s.len() == t.len(),
        forall|i: int| 0 <= i < s.len() ==> (#[trigger] s[i]).0@ == t[i].0@ && s[i].1 == t[i].1,
    ensures
        map_of(s) == map_of(t),
        keys_differ(s) ==> keys_differ(t),
{
    assert forall|k: Seq<char>, i: int| #[trigger] stands_at(s, k, i) == stands_at(t, k, i) by {
        if stands_at(s, k, i) {
            assert(s[i].0@ == t[i].0@);
            assert forall|j: int| 0 <= j < i implies (#[trigger] t[j]).0@ != k by {
                assert(s[j].0@ != k);
            }
        }
        if stands_at(t, k, i) {
            assert(s[i].0@ == t[i].0@);
            assert forall|j: int| 0 <= j < i implies (#[trigger] s[j]).0@ != k by {
                assert(t[j].0@ != k);
            }
        }
    }
    assert forall|k: Seq<char>| #[trigger] map_of(s).dom().contains(k) == map_of(
        t,
    ).dom().contains(k) && (map_of(s).dom().contains(k) ==> map_of(s)[k] == map_of(t)[k]) by {
        if exists|i: int| stands_at(s, k, i) {
            let i = choose|i: int| stands_at(s, k, i);
            assert(stands_at(t, k, i));
            found(s, k, i);
            found(t, k, i);
        }
        if exists|i: int| stands_at(t, k, i) {
            let i = choose|i: int| stands_at(t, k, i);
            assert(stands_at(s, k, i));
        }
    }
    assert(map_of(s) =~= map_of(t));
    if keys_differ(s) {
        assert forall|i: int, j: int| 0 <= i < j < t.len() implies (#[trigger] t[i]).0@ != (
        #[trigger] t[j]).0@ by {
            assert(s[i].0@ != s[j].0@);
        }
    }
}

impl Table<u32> {
    /// A table with the same entries.
    pub fn copy(&self) -> (r: Self)
        ensures
            r@ == self@,
            self.distinct() ==> r.distinct(),
    {
        let mut entries: Vec<(String, u32)> = Vec::new();
        let mut i: usize = 0;
        while i < self.entries.len()
            invariant
                i <= self.entries@.len(),
                entries@.len() == i,
                forall|j: int|
                    0 <= j < i ==> (#[trigger] self.entries@[j]).0@ == entries@[j].0@
                        && self.entries@[j].1 == entries@[j].1,
            decreases self.entries@.len() - i,
        {
            entries.push((self.entries[i].0.clone(), self.entries[i].1));
            i += 1;
        }
        proof {
            same_entries_same_map(self.entries@, entries@);
        }
        Table { entries }
    }
}

/// Two lists stand for the same map but for one key.
spec fn same_but<V>(s: Seq<(String, V)>, t: Seq<(String, V)>, key: Seq<char>) -> bool {
    forall|k: Seq<char>|
        k != key ==> #[trigger] map_of(t).dom().contains(k) == map_of(s).dom().contains(k) && (
        map_of(s).dom().contains(k) ==> map_of(t)[k] == map_of(s)[k])
}

/// Taking one entry out changes nothing for the other keys.
proof fn one_removed<V>(s: Seq<(String, V)>, i: int)
    requires
        0 <= i < s.len(),
    ensures
        same_but(s, s.remove(i), s[i].0@),
        keys_differ(s) ==> keys_differ(s.remove(i)),
{
    let t = s.remove(i);
    assert forall|k: Seq<char>| k != s[i].0@ implies #[trigger] map_of(t).dom().contains(k)
        == map_of(s).dom().contains(k) && (map_of(s).dom().contains(k) ==> map_of(t)[k] == map_of(
        s,
    )[k]) by {
        if exists|j: int| stands_at(t, k, j) {
            let j = choose|j: int| stands_at(t, k, j);
            let f = if j < i {
                j
            } else {
                j + 1
            };
            assert(s[f] == t[j]);
            assert forall|l: int| 0 <= l < f implies (#[trigger] s[l]).0@ != k by {
                if l < i {
                    assert(t[l] == s[l]);
                } else if l > i {
                    assert(t[l - 1] == s[l]);
                }
            }
            assert(stands_at(s, k, f));
            found(s, k, f);
            found(t, k, j);
        }
        if exists|j: int| stands_at(s, k, j) {
            let j = choose|j: int| stands_at(s, k, j);
            let w = if j < i {
                j
            } else {
                j - 1
            };
            assert(t[w] == s[j]);
            has_first(t, k, w);
        }
    }
    if keys_differ(s) {
        assert forall|a: int, b: int| 0 <= a < b < t.len() implies (#[trigger] t[a]).0@ != (
        #[trigger] t[b]).0@ by {
            let x = if a < i {
                a
            } else {
                a + 1
            };
            let y = if b < i {
                b
            } else {
                b + 1
            };
            assert(t[a] == s[x] && t[b] == s[y]);
        }
    }
}

} // verus!
