//! A map from text to values whose keys stand in the order of text.

use vstd::prelude::*;
use vstd::seq_lib::seq_to_set_is_finite;

use crate::plain::{views, Plain};
use crate::text::{lemma_text_order, text_before, text_eq, text_lt};

verus! {

/// Keys in strictly increasing order.
pub open spec fn increasing(keys: Seq<Seq<char>>) -> bool {
    forall|i: int, j: int|
        0 <= i < j < keys.len() ==> text_before(#[trigger] keys[i], #[trigger] keys[j])
}

/// Two increasing lists of the same keys are the same list.
pub proof fn lemma_increasing_unique(a: Seq<Seq<char>>, b: Seq<Seq<char>>)
    requires
        increasing(a),
        increasing(b),
        forall|key: Seq<char>| #[trigger] a.contains(key) <==> b.contains(key),
    ensures
        a == b,
    decreases a.len(),
{
    if a.len() == 0 {
        if b.len() > 0 {
            assert(b.contains(b[0]));
            assert(a.contains(b[0]));
        }
        assert(a =~= b);
    } else {
        let n = a.len() as int;
        let x = a[n - 1];
        assert(a.contains(x));
        assert(b.contains(x));
        let m = b.len() as int;
        let y = b[m - 1];
        assert(b.contains(y));
        assert(a.contains(y));
        let i = a.index_of(y);
        let j = b.index_of(x);
        if i < n - 1 && j < m - 1 {
            assert(text_before(a[i], a[n - 1]));
            assert(text_before(b[j], b[m - 1]));
            lemma_text_order(x, y, x);
        }
        assert(x == y);
        lemma_text_order(x, x, x);
        let p = a.drop_last();
        let q = b.drop_last();
        assert forall|key: Seq<char>| #[trigger] p.contains(key) <==> q.contains(key) by {
            if p.contains(key) {
                let k = p.index_of(key);
                assert(a[k] == key);
                assert(text_before(a[k], a[n - 1]));
                assert(a.contains(key));
                assert(b.contains(key));
                let l = b.index_of(key);
                assert(q[l] == key);
            }
            if q.contains(key) {
                let k = q.index_of(key);
                assert(b[k] == key);
                assert(text_before(b[k], b[m - 1]));
                assert(b.contains(key));
                assert(a.contains(key));
                let l = a.index_of(key);
                assert(p[l] == key);
            }
        }
        assert forall|k: int, l: int| 0 <= k < l < p.len() implies text_before(
            #[trigger] p[k],
            #[trigger] p[l],
        ) by {
            assert(text_before(a[k], a[l]));
        }
        assert forall|k: int, l: int| 0 <= k < l < q.len() implies text_before(
            #[trigger] q[k],
            #[trigger] q[l],
        ) by {
            assert(text_before(b[k], b[l]));
        }
        lemma_increasing_unique(p, q);
        assert(a =~= p.push(x));
        assert(b =~= q.push(y));
    }
}

/// The list holds exactly the given keys, each once, in increasing order.
pub open spec fn lists(keys: Seq<Seq<char>>, set: Set<Seq<char>>) -> bool {
    increasing(keys) && forall|key: Seq<char>| #[trigger] keys.contains(key) <==> set.contains(key)
}

/// The given keys in increasing order.
pub open spec fn ordered(set: Set<Seq<char>>) -> Seq<Seq<char>> {
    choose|keys: Seq<Seq<char>>| lists(keys, set)
}

/// There is only one list of given keys in increasing order.
pub proof fn lemma_ordered(keys: Seq<Seq<char>>, set: Set<Seq<char>>)
    requires
        lists(keys, set),
    ensures
        ordered(set) == keys,
{
    assert(lists(ordered(set), set));
    lemma_increasing_unique(ordered(set), keys);
}

/// A finite set of keys can be listed in increasing order.
pub proof fn lemma_ordered_lists(set: Set<Seq<char>>)
    requires
        set.finite(),
    ensures
        lists(ordered(set), set),
    decreases set.len(),
{
    if set.len() == 0 {
        assert(set =~= Set::empty());
        let keys = Seq::<Seq<char>>::empty();
        assert(lists(keys, set));
    } else {
        let x = set.choose();
        let rest = set.remove(x);
        lemma_ordered_lists(rest);
        let keys = ordered(rest);
        let n = count_before(keys, x);
        lemma_count_before(keys, x);
        let all = keys.take(n).push(x) + keys.skip(n);
        assert forall|key: Seq<char>| #[trigger] all.contains(key) <==> set.contains(key) by {
            if all.contains(key) {
                let i = all.index_of(key);
                if i < n {
                    assert(keys[i] == key);
                    assert(keys.contains(key));
                } else if i > n {
                    assert(keys[i - 1] == key);
                    assert(keys.contains(key));
                }
            }
            if set.contains(key) {
                if key == x {
                    assert(all[n] == key);
                } else {
                    assert(rest.contains(key));
                    assert(keys.contains(key));
                    let i = keys.index_of(key);
                    let j = if i < n { i } else { i + 1 };
                    assert(all[j] == key);
                }
            }
        }
        assert forall|i: int, j: int| 0 <= i < j < all.len() implies text_before(
            #[trigger] all[i],
            #[trigger] all[j],
        ) by {
            let p = if i < n { i } else { i - 1 };
            let q = if j < n { j } else { j - 1 };
            if i == n {
                assert(all[j] == keys[q]);
                assert(keys.contains(keys[q]));
                assert(rest.contains(keys[q]));
                lemma_text_order(x, keys[q], x);
            } else if j == n {
                assert(all[i] == keys[p]);
            } else {
                assert(all[i] == keys[p]);
                assert(all[j] == keys[q]);
                assert(text_before(keys[p], keys[q]));
            }
        }
        assert(lists(all, set));
    }
}

/// The number of keys at the front that come before the given one.
spec fn count_before(keys: Seq<Seq<char>>, key: Seq<char>) -> int
    decreases keys.len(),
{
    if keys.len() == 0 {
        0
    } else if text_before(keys[0], key) {
        1 + count_before(keys.drop_first(), key)
    } else {
        0
    }
}

proof fn lemma_count_before(keys: Seq<Seq<char>>, key: Seq<char>)
    requires
        increasing(keys),
    ensures
        0 <= count_before(keys, key) <= keys.len(),
        forall|i: int| 0 <= i < count_before(keys, key) ==> text_before(#[trigger] keys[i], key),
        forall|i: int|
            count_before(keys, key) <= i < keys.len() ==> !text_before(#[trigger] keys[i], key),
    decreases keys.len(),
{
    if keys.len() > 0 {
        let rest = keys.drop_first();
        assert forall|i: int, j: int| 0 <= i < j < rest.len() implies text_before(
            #[trigger] rest[i],
            #[trigger] rest[j],
        ) by {
            assert(text_before(keys[i + 1], keys[j + 1]));
        }
        lemma_count_before(rest, key);
        let n = count_before(keys, key);
        if text_before(keys[0], key) {
            assert forall|i: int| 0 <= i < n implies text_before(#[trigger] keys[i], key) by {
                if i > 0 {
                    assert(rest[i - 1] == keys[i]);
                }
            }
            assert forall|i: int| n <= i < keys.len() implies !text_before(
                #[trigger] keys[i],
                key,
            ) by {
                assert(rest[i - 1] == keys[i]);
            }
        } else {
            assert forall|i: int| 0 <= i < keys.len() implies !text_before(
                #[trigger] keys[i],
                key,
            ) by {
                if i > 0 && text_before(keys[i], key) {
                    assert(text_before(keys[0], keys[i]));
                    lemma_text_order(keys[0], keys[i], key);
                }
            }
        }
    }
}

/// A map from text to values. Each key occurs once, and the entries are kept in the order of
/// their keys.
#[derive(Debug, PartialEq, Eq)]
pub struct TextMap<V> {
    entries: Vec<(String, V)>,
}

spec fn entry_keys<V>(entries: Seq<(String, V)>) -> Seq<Seq<char>> {
    entries.map_values(|entry: (String, V)| entry.0@)
}

spec fn entries_map<V: View>(entries: Seq<(String, V)>) -> Map<Seq<char>, V::V> {
    Map::new(
        |key: Seq<char>| entry_keys(entries).contains(key),
        |key: Seq<char>| entries[entry_keys(entries).index_of(key)].1@,
    )
}

proof fn lemma_position<V: View>(entries: Seq<(String, V)>, i: int)
    requires
        increasing(entry_keys(entries)),
        0 <= i < entries.len(),
    ensures
        entry_keys(entries)[i] == entries[i].0@,
        entry_keys(entries).index_of(entries[i].0@) == i,
        entries_map(entries).contains_key(entries[i].0@),
        entries_map(entries)[entries[i].0@] == entries[i].1@,
{
    let keys = entry_keys(entries);
    let key = entries[i].0@;
    assert(keys[i] == key);
    assert(keys.contains(key));
    let j = keys.index_of(key);
    assert(keys[j] == key);
    if j != i {
        lemma_text_order(key, key, key);
        if j < i {
            assert(text_before(keys[j], keys[i]));
        } else {
            assert(text_before(keys[i], keys[j]));
        }
    }
}

impl<V> TextMap<V> {
    #[verifier::type_invariant]
    spec fn in_order(self) -> bool {
        increasing(entry_keys(self.entries@))
    }
}

impl<V: View> View for TextMap<V> {
    type V = Map<Seq<char>, V::V>;

    closed spec fn view(&self) -> Map<Seq<char>, V::V> {
        entries_map(self.entries@)
    }
}

impl<V: View> TextMap<V> {
    /// The keys, in their order.
    pub closed spec fn keys(self) -> Seq<Seq<char>> {
        entry_keys(self.entries@)
    }

    /// The keys are those of the map, each once, in increasing order.
    pub open spec fn lists_keys(self) -> bool {
        &&& increasing(self.keys())
        &&& self.keys() == ordered(self@.dom())
        &&& forall|i: int|
            0 <= i < self.keys().len() ==> self@.contains_key(#[trigger] self.keys()[i])
        &&& forall|key: Seq<char>| #[trigger]
            self@.contains_key(key) ==> self.keys().contains(key)
    }

    /// The empty map.
    pub fn new() -> (map: Self)
        ensures
            map@ == Map::<Seq<char>, V::V>::empty(),
            map.keys().len() == 0,
    {
        let map = TextMap { entries: Vec::new() };
        assert(map@ =~= Map::<Seq<char>, V::V>::empty());
        map
    }

    /// The number of entries.
    pub fn len(&self) -> (count: usize)
        ensures
            count == self.keys().len(),
            self.lists_keys(),
    {
        proof {
            use_type_invariant(self);
            let keys = entry_keys(self.entries@);
            assert forall|i: int| 0 <= i < keys.len() implies self@.contains_key(
                #[trigger] keys[i],
            ) by {
                lemma_position(self.entries@, i);
            }
            assert forall|key: Seq<char>| #[trigger]
                keys.contains(key) <==> self@.dom().contains(key) by {
                if keys.contains(key) {
                    assert(self@.contains_key(keys[keys.index_of(key)]));
                }
            }
            lemma_ordered(keys, self@.dom());
        }
        self.entries.len()
    }

    /// The key at a position.
    pub fn key_at(&self, position: usize) -> (key: &String)
        requires
            position < self.keys().len(),
        ensures
            key@ == self.keys()[position as int],
            self@.contains_key(key@),
    {
        proof {
            use_type_invariant(self);
            lemma_position(self.entries@, position as int);
        }
        &self.entries[position].0
    }

    /// All the keys, in their order.
    pub fn key_list(&self) -> (list: Vec<String>)
        ensures
            views(list@) == ordered(self@.dom()),
    {
        let count: usize = self.len();
        let ghost keys = self.keys();
        let mut list: Vec<String> = Vec::new();
        let mut i: usize = 0;
        while i < count
            invariant
                count == keys.len(),
                keys == self.keys(),
                i <= count,
                views(list@) =~= keys.take(i as int),
            decreases count - i,
        {
            let ghost before = list@;
            list.push(self.key_at(i).duplicate());
            proof {
                assert(views(list@) =~= views(before).push(keys[i as int]));
                assert(keys.take(i + 1) =~= keys.take(i as int).push(keys[i as int]));
            }
            i = i + 1;
        }
        assert(keys.take(i as int) =~= keys);
        list
    }

    /// The value at a position.
    pub fn value_at(&self, position: usize) -> (value: &V)
        requires
            position < self.keys().len(),
        ensures
            self@.contains_key(self.keys()[position as int]),
            value@ == self@[self.keys()[position as int]],
    {
        proof {
            use_type_invariant(self);
            lemma_position(self.entries@, position as int);
        }
        &self.entries[position].1
    }

    /// Where a key stands: the number of keys before it, and whether it is there itself.
    fn find(&self, key: &str) -> (found: (usize, bool))
        ensures
            found.0 <= self.entries@.len(),
            forall|i: int| 0 <= i < found.0 ==> text_before(#[trigger] self.entries@[i].0@, key@),
            found.1 ==> found.0 < self.entries@.len() && self.entries@[found.0 as int].0@ == key@,
            !found.1 ==> forall|i: int|
                found.0 <= i < self.entries@.len() ==> text_before(
                    key@,
                    #[trigger] self.entries@[i].0@,
                ),
    {
        proof {
            use_type_invariant(self);
        }
        let ghost keys = entry_keys(self.entries@);
        let mut i: usize = 0;
        while i < self.entries.len()
            invariant
                increasing(keys),
                keys == entry_keys(self.entries@),
                i <= self.entries@.len(),
                forall|j: int| 0 <= j < i ==> text_before(#[trigger] self.entries@[j].0@, key@),
            decreases self.entries@.len() - i,
        {
            if text_eq(self.entries[i].0.as_str(), key) {
                return (i, true);
            }
            if !text_lt(self.entries[i].0.as_str(), key) {
                proof {
                    let here = self.entries@[i as int].0@;
                    lemma_text_order(here, key@, key@);
                    assert forall|j: int| i <= j < self.entries@.len() implies text_before(
                        key@,
                        #[trigger] self.entries@[j].0@,
                    ) by {
                        assert(keys[j] == self.entries@[j].0@);
                        assert(keys[i as int] == here);
                        if j > i {
                            assert(text_before(keys[i as int], keys[j]));
                            lemma_text_order(key@, here, self.entries@[j].0@);
                        }
                    }
                }
                return (i, false);
            }
            i = i + 1;
        }
        (i, false)
    }

    /// The value of a key.
    pub fn get(&self, key: &str) -> (value: Option<&V>)
        ensures
            value is Some <==> self@.contains_key(key@),
            value matches Some(found) ==> found@ == self@[key@],
    {
        let (position, present) = self.find(key);
        proof {
            use_type_invariant(self);
        }
        if present {
            proof {
                lemma_position(self.entries@, position as int);
            }
            Some(&self.entries[position].1)
        } else {
            proof {
                let keys = entry_keys(self.entries@);
                if keys.contains(key@) {
                    let i = keys.index_of(key@);
                    assert(self.entries@[i].0@ == key@);
                    lemma_text_order(key@, key@, key@);
                }
            }
            None
        }
    }

    /// Sets the value of a key.
    pub fn insert(&mut self, key: String, value: V)
        ensures
            final(self)@ == old(self)@.insert(key@, value@),
    {
        let (position, present) = self.find(key.as_str());
        proof {
            use_type_invariant(&*self);
        }
        let mut entries: Vec<(String, V)> = Vec::new();
        std::mem::swap(&mut entries, &mut self.entries);
        let ghost before = entries@;
        let ghost at = position as int;
        let ghost name = key@;
        let ghost stored = value@;
        if present {
            entries[position] = (key, value);
        } else {
            entries.insert(position, (key, value));
        }
        proof {
            let keys = entry_keys(before);
            let after = entry_keys(entries@);
            if present {
                assert(after =~= keys);
            } else {
                assert forall|i: int, j: int| 0 <= i < j < after.len() implies text_before(
                    #[trigger] after[i],
                    #[trigger] after[j],
                ) by {
                    let p = if i < at { i } else { i - 1 };
                    let q = if j < at { j } else { j - 1 };
                    if i == at {
                        assert(before[q].0@ == after[j]);
                    } else if j == at {
                        assert(before[p].0@ == after[i]);
                    } else {
                        assert(after[i] == keys[p]);
                        assert(after[j] == keys[q]);
                        assert(text_before(keys[p], keys[q]));
                    }
                }
            }
            lemma_insert(before, entries@, at, present, name, stored);
        }
        self.entries = entries;
    }
}

impl<V: View> TextMap<V> {
    /// Removes a key, if it is there.
    pub fn remove(&mut self, key: &str)
        ensures
            final(self)@ == old(self)@.remove(key@),
    {
        let (position, present) = self.find(key);
        proof {
            use_type_invariant(&*self);
        }
        if present {
            let mut entries: Vec<(String, V)> = Vec::new();
            std::mem::swap(&mut entries, &mut self.entries);
            let ghost before = entries@;
            entries.remove(position);
            proof {
                lemma_remove(before, entries@, position as int, key@);
            }
            self.entries = entries;
        } else {
            proof {
                let keys = entry_keys(self.entries@);
                if keys.contains(key@) {
                    let i = keys.index_of(key@);
                    assert(self.entries@[i].0@ == key@);
                    lemma_text_order(key@, key@, key@);
                }
                assert(!self@.contains_key(key@));
                assert(self@.remove(key@) =~= self@);
            }
        }
    }
}

proof fn lemma_remove<V: View>(
    before: Seq<(String, V)>,
    after: Seq<(String, V)>,
    at: int,
    name: Seq<char>,
)
    requires
        increasing(entry_keys(before)),
        0 <= at < before.len(),
        before[at].0@ == name,
        after == before.remove(at),
    ensures
        increasing(entry_keys(after)),
        entries_map(after) == entries_map(before).remove(name),
{
    let keys = entry_keys(before);
    let news = entry_keys(after);
    assert forall|i: int, j: int| 0 <= i < j < news.len() implies text_before(
        #[trigger] news[i],
        #[trigger] news[j],
    ) by {
        let p = if i < at { i } else { i + 1 };
        let q = if j < at { j } else { j + 1 };
        assert(news[i] == keys[p]);
        assert(news[j] == keys[q]);
        assert(text_before(keys[p], keys[q]));
    }
    let left = entries_map(after);
    let right = entries_map(before).remove(name);
    lemma_position(before, at);
    assert forall|key: Seq<char>| #[trigger] left.contains_key(key) implies right.contains_key(key)
        && left[key] == right[key] by {
        let i = news.index_of(key);
        assert(news[i] == after[i].0@);
        let j = if i < at { i } else { i + 1 };
        assert(before[j] == after[i]);
        lemma_position(before, j);
        lemma_position(after, i);
        assert(j != at);
    }
    assert forall|key: Seq<char>| #[trigger] right.contains_key(key) implies left.contains_key(
        key,
    ) by {
        let j = keys.index_of(key);
        assert(keys[j] == before[j].0@);
        assert(j != at);
        let i = if j < at { j } else { j - 1 };
        assert(after[i] == before[j]);
        lemma_position(after, i);
    }
    assert(left.dom() =~= right.dom());
    assert(left =~= right);
}

proof fn lemma_insert<V: View>(
    before: Seq<(String, V)>,
    after: Seq<(String, V)>,
    at: int,
    present: bool,
    name: Seq<char>,
    stored: V::V,
)
    requires
        increasing(entry_keys(before)),
        increasing(entry_keys(after)),
        0 <= at <= before.len(),
        present ==> at < before.len() && before[at].0@ == name,
        present ==> after.len() == before.len() && forall|i: int|
            0 <= i < before.len() && i != at ==> after[i] == before[i],
        !present ==> after.len() == before.len() + 1 && (forall|i: int|
            0 <= i < at ==> after[i] == before[i]) && (forall|i: int|
            at < i < after.len() ==> after[i] == before[i - 1]),
        after[at].0@ == name,
        after[at].1@ == stored,
    ensures
        entries_map(after) == entries_map(before).insert(name, stored),
{
    let left = entries_map(after);
    let right = entries_map(before).insert(name, stored);
    let keys = entry_keys(before);
    let news = entry_keys(after);
    lemma_position(after, at);
    assert forall|key: Seq<char>| #[trigger] left.contains_key(key) implies right.contains_key(key)
        && left[key] == right[key] by {
        if key != name {
            let i = news.index_of(key);
            assert(news[i] == after[i].0@);
            assert(i != at);
            let j = if present || i < at { i } else { i - 1 };
            assert(before[j] == after[i]);
            lemma_position(before, j);
            lemma_position(after, i);
        }
    }
    assert forall|key: Seq<char>| #[trigger] right.contains_key(key) implies left.contains_key(
        key,
    ) by {
        if key != name {
            let j = keys.index_of(key);
            assert(keys[j] == before[j].0@);
            let i = if present || j < at { j } else { j + 1 };
            assert(after[i] == before[j]);
            lemma_position(after, i);
        }
    }
    assert(left.dom() =~= right.dom());
    assert(left =~= right);
}

/// A clone stands for the same thing.
impl<V: Plain> Clone for TextMap<V> {
    fn clone(&self) -> (copy: Self)
        ensures
            copy@ == self@,
    {
        self.copied()
    }
}

impl<V: Plain> TextMap<V> {
    /// A second map that stands for the same thing.
    pub fn copied(&self) -> (copy: Self)
        ensures
            copy@ == self@,
    {
        proof {
            use_type_invariant(self);
        }
        let mut entries: Vec<(String, V)> = Vec::new();
        let mut i: usize = 0;
        while i < self.entries.len()
            invariant
                i <= self.entries@.len(),
                entries@.len() == i,
                forall|j: int|
                    0 <= j < i ==> (#[trigger] entries@[j]).0@ == self.entries@[j].0@
                        && entries@[j].1@ == self.entries@[j].1@,
            decreases self.entries@.len() - i,
        {
            entries.push((self.entries[i].0.duplicate(), self.entries[i].1.duplicate()));
            i = i + 1;
        }
        proof {
            assert(entry_keys(entries@) =~= entry_keys(self.entries@));
            assert(entries_map(entries@) =~= self@);
        }
        TextMap { entries }
    }

    /// Whether two maps stand for the same thing.
    pub fn equals(&self, other: &Self) -> (equal: bool)
        ensures
            equal == (self@ == other@),
    {
        let n: usize = self.len();
        let m: usize = other.len();
        let mut i: usize = 0;
        while i < n
            invariant
                n == self.keys().len(),
                self.lists_keys(),
                i <= n,
                forall|j: int|
                    0 <= j < i ==> other@.contains_key(#[trigger] self.keys()[j])
                        && other@[self.keys()[j]] == self@[self.keys()[j]],
            decreases n - i,
        {
            let key = self.key_at(i);
            match other.get(key.as_str()) {
                Some(value) => {
                    if !value.same(self.value_at(i)) {
                        return false;
                    }
                },
                None => {
                    return false;
                },
            }
            i = i + 1;
        }
        i = 0;
        while i < m
            invariant
                m == other.keys().len(),
                other.lists_keys(),
                i <= m,
                forall|j: int| 0 <= j < i ==> self@.contains_key(#[trigger] other.keys()[j]),
            decreases m - i,
        {
            let key = other.key_at(i);
            if self.get(key.as_str()).is_none() {
                return false;
            }
            i = i + 1;
        }
        proof {
            assert forall|key: Seq<char>| self@.contains_key(key) == other@.contains_key(key) && (
            self@.contains_key(key) ==> self@[key] == other@[key]) by {
                if self@.contains_key(key) {
                    let j = self.keys().index_of(key);
                    assert(self.keys()[j] == key);
                }
                if other@.contains_key(key) {
                    let j = other.keys().index_of(key);
                    assert(other.keys()[j] == key);
                }
            }
            assert(self@ =~= other@);
        }
        true
    }
}

/// A map has as many keys as it lists.
pub proof fn lemma_key_count<V: View>(map: TextMap<V>)
    requires
        map.lists_keys(),
    ensures
        map@.dom().len() == map.keys().len(),
        map@.dom().finite(),
{
    let keys = map.keys();
    assert(keys.no_duplicates()) by {
        assert forall|i: int, j: int|
            0 <= i < keys.len() && 0 <= j < keys.len() && i != j implies keys[i] != keys[j] by {
            lemma_text_order(keys[i], keys[i], keys[i]);
            if i < j {
                assert(text_before(keys[i], keys[j]));
            } else {
                assert(text_before(keys[j], keys[i]));
            }
        }
    }
    keys.unique_seq_to_set();
    assert(keys.to_set() =~= map@.dom()) by {
        assert forall|key: Seq<char>| keys.to_set().contains(key) <==> map@.dom().contains(key) by {
            if keys.contains(key) {
                let i = keys.index_of(key);
                assert(map@.contains_key(keys[i]));
            }
            if map@.contains_key(key) {
                assert(keys.contains(key));
            }
        }
    }
    seq_to_set_is_finite(keys);
}

} // verus!
