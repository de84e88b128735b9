//! Values under text keys: a map that remembers the order in which its keys came.

use vstd::prelude::*;

verus! {

/// Some entry of `s` has the key `key`.
pub open spec fn has_key<T>(s: Seq<(Seq<char>, T)>, key: Seq<char>) -> bool {
    exists|i: int| 0 <= i < s.len() && (#[trigger] s[i]).0 == key
}

/// No two entries of `s` have the same key.
pub open spec fn distinct_keys<T>(s: Seq<(Seq<char>, T)>) -> bool {
    forall|i: int, j: int| 0 <= i < j < s.len() ==> (#[trigger] s[i]).0 != (#[trigger] s[j]).0
}

/// The map that the entries of `s` make; of two entries with one key the later counts.
pub open spec fn as_map<T>(s: Seq<(Seq<char>, T)>) -> Map<Seq<char>, T>
    decreases s.len(),
{
    if s.len() == 0 {
        Map::empty()
    } else {
        as_map(s.drop_last()).insert(s.last().0, s.last().1)
    }
}

/// `s` with `value` under `key`: in place of what stood there, or at the end.
pub open spec fn upsert<T>(s: Seq<(Seq<char>, T)>, key: Seq<char>, value: T) -> Seq<
    (Seq<char>, T),
> {
    if has_key(s, key) {
        Seq::new(
            s.len(),
            |i: int|
                if s[i].0 == key {
                    (key, value)
                } else {
                    s[i]
                },
        )
    } else {
        s.push((key, value))
    }
}

/// The entries of `s`, put into an empty list one after the other.
pub open spec fn collected<T>(s: Seq<(Seq<char>, T)>) -> Seq<(Seq<char>, T)>
    decreases s.len(),
{
    if s.len() == 0 {
        Seq::empty()
    } else {
        upsert(collected(s.drop_last()), s.last().0, s.last().1)
    }
}

/// The keys of the map are the keys of the entries, and, where no key occurs twice, each key maps
/// to the value beside it.
pub proof fn lemma_as_map<T>(s: Seq<(Seq<char>, T)>)
    ensures
        forall|key: Seq<char>| #[trigger] as_map(s).contains_key(key) <==> has_key(s, key),
        distinct_keys(s) ==> forall|i: int|
            0 <= i < s.len() ==> as_map(s)[(#[trigger] s[i]).0] == s[i].1,
    decreases s.len(),
{
    if s.len() > 0 {
        let front = s.drop_last();
        lemma_as_map(front);
        assert forall|key: Seq<char>| #[trigger] as_map(s).contains_key(key) <==> has_key(
            s,
            key,
        ) by {
            assert(as_map(front).contains_key(key) <==> has_key(front, key));
            if has_key(front, key) {
                let i = choose|i: int| 0 <= i < front.len() && (#[trigger] front[i]).0 == key;
                assert(s[i].0 == key);
            }
            if has_key(s, key) && key != s.last().0 {
                let i = choose|i: int| 0 <= i < s.len() && (#[trigger] s[i]).0 == key;
                assert(front[i].0 == key);
            }
            if key == s.last().0 {
                assert(s[s.len() - 1].0 == key);
            }
        }
        if distinct_keys(s) {
            assert(distinct_keys(front)) by {
                assert forall|i: int, j: int| 0 <= i < j < front.len() implies (
                #[trigger] front[i]).0 != (#[trigger] front[j]).0 by {
                    assert(s[i].0 != s[j].0);
                }
            }
            assert forall|i: int| 0 <= i < s.len() implies as_map(s)[(#[trigger] s[i]).0]
                == s[i].1 by {
                if i < s.len() - 1 {
                    assert(s[i].0 != s[s.len() - 1].0);
                    assert(front[i] == s[i]);
                }
            }
        }
    }
}

/// The last entry with a key is the one that the key maps to.
pub proof fn lemma_last_counts<T>(s: Seq<(Seq<char>, T)>, i: int)
    requires
        0 <= i < s.len(),
        forall|j: int| i < j < s.len() ==> (#[trigger] s[j]).0 != s[i].0,
    ensures
        as_map(s).contains_key(s[i].0),
        as_map(s)[s[i].0] == s[i].1,
    decreases s.len(),
{
    if i < s.len() - 1 {
        let front = s.drop_last();
        assert forall|j: int| i < j < front.len() implies (#[trigger] front[j]).0 != front[i].0 by {
            assert(s[j].0 != s[i].0);
        }
        lemma_last_counts(front, i);
        assert(s[s.len() - 1].0 != s[i].0);
    }
}

/// Putting a value under a key keeps the keys distinct and does to the map what a map's insertion
/// does.
pub proof fn lemma_upsert<T>(s: Seq<(Seq<char>, T)>, key: Seq<char>, value: T)
    requires
        distinct_keys(s),
    ensures
        distinct_keys(upsert(s, key, value)),
        as_map(upsert(s, key, value)) == as_map(s).insert(key, value),
        forall|k: Seq<char>| #[trigger]
            has_key(upsert(s, key, value), k) <==> has_key(s, k) || k == key,
{
    let t = upsert(s, key, value);
    lemma_as_map(s);
    if has_key(s, key) {
        let at = choose|i: int| 0 <= i < s.len() && (#[trigger] s[i]).0 == key;
        assert forall|i: int| 0 <= i < s.len() implies (#[trigger] t[i]).0 == s[i].0 by {}
        assert forall|i: int, j: int| 0 <= i < j < t.len() implies (#[trigger] t[i]).0 != (
        #[trigger] t[j]).0 by {
            assert(s[i].0 != s[j].0);
        }
        lemma_as_map(t);
        assert forall|k: Seq<char>| has_key(t, k) <==> #[trigger] has_key(s, k) by {
            if has_key(t, k) {
                let i = choose|i: int| 0 <= i < t.len() && (#[trigger] t[i]).0 == k;
                assert(s[i].0 == k);
            }
            if has_key(s, k) {
                let i = choose|i: int| 0 <= i < s.len() && (#[trigger] s[i]).0 == k;
                assert(t[i].0 == k);
            }
        }
        assert forall|k: Seq<char>| #[trigger] as_map(t).contains_key(k) implies as_map(t)[k]
            == as_map(s).insert(key, value)[k] by {
            assert(has_key(t, k));
            let i = choose|i: int| 0 <= i < t.len() && (#[trigger] t[i]).0 == k;
            assert(as_map(t)[t[i].0] == t[i].1);
            assert(as_map(s)[s[i].0] == s[i].1);
        }
        assert(as_map(t) =~= as_map(s).insert(key, value));
    } else {
        assert(t.drop_last() =~= s);
        assert forall|i: int, j: int| 0 <= i < j < t.len() implies (#[trigger] t[i]).0 != (
        #[trigger] t[j]).0 by {
            assert(t[i] == s[i]);
            if j < s.len() {
                assert(t[j] == s[j]);
                assert(s[i].0 != s[j].0);
            }
        }
        lemma_as_map(t);
        assert forall|k: Seq<char>| #[trigger] has_key(t, k) <==> has_key(s, k) || k == key by {
            assert(as_map(t).contains_key(k) <==> has_key(t, k));
            assert(as_map(s).contains_key(k) <==> has_key(s, k));
        }
    }
}

/// A collected list holds each key once and is the same map as the entries it was collected from.
pub proof fn lemma_collected<T>(s: Seq<(Seq<char>, T)>)
    ensures
        distinct_keys(collected(s)),
        as_map(collected(s)) == as_map(s),
        forall|k: Seq<char>| #[trigger] has_key(collected(s), k) <==> has_key(s, k),
    decreases s.len(),
{
    if s.len() > 0 {
        lemma_collected(s.drop_last());
        lemma_upsert(collected(s.drop_last()), s.last().0, s.last().1);
    }
    lemma_as_map(s);
    lemma_as_map(collected(s));
    assert forall|k: Seq<char>| #[trigger] has_key(collected(s), k) <==> has_key(s, k) by {
        assert(as_map(s).contains_key(k) <==> has_key(s, k));
        assert(as_map(collected(s)).contains_key(k) <==> has_key(collected(s), k));
    }
}

proof fn lemma_last_with_key<T>(s: Seq<(Seq<char>, T)>, key: Seq<char>) -> (i: int)
    requires
        has_key(s, key),
    ensures
        0 <= i < s.len(),
        s[i].0 == key,
        forall|j: int| i < j < s.len() ==> (#[trigger] s[j]).0 != key,
    decreases s.len(),
{
    let last = s.len() - 1;
    if s[last].0 == key {
        last
    } else {
        let front = s.drop_last();
        let at = choose|i: int| 0 <= i < s.len() && (#[trigger] s[i]).0 == key;
        assert(front[at].0 == key);
        let i = lemma_last_with_key(front, key);
        assert forall|j: int| i < j < s.len() implies (#[trigger] s[j]).0 != key by {
            if j < last {
                assert(front[j].0 != key);
            }
        }
        i
    }
}

/// A collected list has one entry for each key of the entries it was collected from, and that is the
/// last of the entries with the key.
pub proof fn lemma_collected_entries<T>(s: Seq<(Seq<char>, T)>)
    ensures
        forall|e: int, f: int|
            0 <= e < f < collected(s).len() ==> (#[trigger] collected(s)[e]).0 != (
            #[trigger] collected(s)[f]).0,
        forall|key: Seq<char>|
            {
                &&& #[trigger] has_key(collected(s), key) <==> exists|e: int|
                    0 <= e < collected(s).len() && (#[trigger] collected(s)[e]).0 == key
                &&& has_key(collected(s), key) <==> exists|i: int|
                    0 <= i < s.len() && (#[trigger] s[i]).0 == key
            },
        forall|e: int|
            0 <= e < collected(s).len() ==> exists|i: int|
                0 <= i < s.len() && #[trigger] s[i] == #[trigger] collected(s)[e] && (forall|j: int|
                    i < j < s.len() ==> (#[trigger] s[j]).0 != s[i].0),
{
    let all = collected(s);
    lemma_collected(s);
    lemma_as_map(all);
    assert forall|key: Seq<char>| #[trigger] has_key(all, key) <==> exists|i: int|
        0 <= i < s.len() && (#[trigger] s[i]).0 == key by {
        assert(has_key(all, key) <==> has_key(s, key));
    }
    assert forall|e: int| 0 <= e < all.len() implies exists|i: int|
        0 <= i < s.len() && #[trigger] s[i] == #[trigger] all[e] && (forall|j: int|
            i < j < s.len() ==> (#[trigger] s[j]).0 != s[i].0) by {
        assert(has_key(all, all[e].0));
        assert(has_key(s, all[e].0));
        let i = lemma_last_with_key(s, all[e].0);
        lemma_last_counts(s, i);
        assert(as_map(all)[all[e].0] == all[e].1);
        assert(s[i] == all[e]);
    }
}

/// Values under text keys, each key once, in the order in which the keys first came.
pub struct KeyedList<V> {
    entries: Vec<(String, V)>,
}

impl<V> KeyedList<V> {
    #[verifier::type_invariant]
    spec fn well_formed(self) -> bool {
        forall|i: int, j: int|
            0 <= i < j < self.entries@.len() ==> (#[trigger] self.entries@[i]).0@ != (
            #[trigger] self.entries@[j]).0@
    }
}

impl<V: View> View for KeyedList<V> {
    type V = Seq<(Seq<char>, V::V)>;

    closed spec fn view(&self) -> Seq<(Seq<char>, V::V)> {
        self.entries@.map_values(|entry: (String, V)| (entry.0@, entry.1@))
    }
}

impl<V: View> KeyedList<V> {
    proof fn lemma_distinct_keys(&self)
        requires
            self.well_formed(),
        ensures
            distinct_keys(self@),
    {
        assert forall|i: int, j: int| 0 <= i < j < self@.len() implies (#[trigger] self@[i]).0 != (
        #[trigger] self@[j]).0 by {
            assert(self.entries@[i].0@ != self.entries@[j].0@);
        }
    }

    /// A list without entries.
    pub fn new() -> (list: Self)
        ensures
            list@ == Seq::<(Seq<char>, V::V)>::empty(),
    {
        let list = KeyedList { entries: Vec::new() };
        assert(list@ =~= Seq::<(Seq<char>, V::V)>::empty());
        list
    }

    /// How many keys there are.
    pub fn len(&self) -> (n: usize)
        ensures
            n == self@.len(),
            distinct_keys(self@),
    {
        proof {
            use_type_invariant(self);
            self.lemma_distinct_keys();
        }
        self.entries.len()
    }

    /// The entry at position `i`.
    pub fn entry(&self, i: usize) -> (entry: (&String, &V))
        requires
            i < self@.len(),
        ensures
            (entry.0@, entry.1@) == self@[i as int],
            distinct_keys(self@),
    {
        proof {
            use_type_invariant(self);
            self.lemma_distinct_keys();
        }
        let entry = &self.entries[i];
        (&entry.0, &entry.1)
    }

    fn position(&self, key: &str) -> (at: Option<usize>)
        ensures
            match at {
                Some(i) => i < self@.len() && self@[i as int].0 == key@,
                None => !has_key(self@, key@),
            },
    {
        let wanted = key.to_owned();
        let n: usize = self.entries.len();
        let mut i: usize = 0;
        while i < n
            invariant
                n == self.entries@.len(),
                n == self@.len(),
                i <= n,
                wanted@ == key@,
                forall|j: int| 0 <= j < i ==> (#[trigger] self@[j]).0 != key@,
            decreases n - i,
        {
            if self.entries[i].0 == wanted {
                return Some(i);
            }
            i += 1;
        }
        None
    }

    /// Whether some entry has the key.
    pub fn contains_key(&self, key: &str) -> (found: bool)
        ensures
            found == has_key(self@, key@),
            found <==> exists|i: int| 0 <= i < self@.len() && (#[trigger] self@[i]).0 == key@,
            distinct_keys(self@),
    {
        proof {
            use_type_invariant(self);
            self.lemma_distinct_keys();
        }
        match self.position(key) {
            Some(i) => {
                assert(self@[i as int].0 == key@);
                true
            },
            None => false,
        }
    }

    /// The list with `value` under `key`, in place of what stood there.
    pub fn insert(self, key: String, value: V) -> (list: Self)
        ensures
            list@ == upsert(self@, key@, value@),
            distinct_keys(list@),
            forall|i: int|
                0 <= i < self@.len() ==> (#[trigger] list@[i]).0 == self@[i].0 && list@[i].1 == (
                if self@[i].0 == key@ {
                    value@
                } else {
                    self@[i].1
                }),
            (exists|i: int| 0 <= i < self@.len() && (#[trigger] self@[i]).0 == key@)
                ==> list@.len() == self@.len(),
            (forall|i: int| 0 <= i < self@.len() ==> (#[trigger] self@[i]).0 != key@)
                ==> list@.len() == self@.len() + 1 && list@[self@.len() as int] == (key@, value@),
            forall|i: int, j: int|
                0 <= i < j < list@.len() ==> (#[trigger] list@[i]).0 != (#[trigger] list@[j]).0,
    {
        proof {
            use_type_invariant(&self);
        }
        let ghost before = self@;
        proof {
            self.lemma_distinct_keys();
            lemma_upsert(before, key@, value@);
        }
        let at = self.position(key.as_str());
        let mut entries = self.entries;
        let ghost after = upsert(before, key@, value@);
        match at {
            Some(i) => {
                entries.set(i, (key, value));
                assert(entries@.map_values(|entry: (String, V)| (entry.0@, entry.1@)) =~= after)
                    by {
                    assert(before[i as int].0 == key@);
                    assert forall|j: int| 0 <= j < before.len() && j != i implies (
                    #[trigger] before[j]).0 != key@ by {
                        if j < i {
                            assert(before[j].0 != before[i as int].0);
                        }
                    }
                }
            },
            None => {
                entries.push((key, value));
                assert(entries@.map_values(|entry: (String, V)| (entry.0@, entry.1@)) =~= after);
            },
        }
        assert forall|i: int, j: int| 0 <= i < j < entries@.len() implies (
        #[trigger] entries@[i]).0@ != (#[trigger] entries@[j]).0@ by {
            assert(after[i].0 != after[j].0);
        }
        KeyedList { entries }
    }
}

} // verus!
