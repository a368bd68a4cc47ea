//! A small map keyed by text: entries kept in increasing order of their keys,
//! at most one per key.

use vstd::prelude::*;
use crate::comments::chars_of;

verus! {

/// Entries keyed by text, in increasing order of their keys (as text is
/// ordered by `Ord` for `String`), so that every key occurs at most once.
pub struct TextMap<V> {
    entries: Vec<(String, V)>,
}

/// `a` comes before `b` in the order of texts: at the first position where
/// they differ, `a` has the smaller character, or `a` is a proper prefix of
/// `b`. Comparing characters by code point orders texts as comparing their
/// UTF-8 bytes does.
pub open spec fn text_less(a: Seq<char>, b: Seq<char>) -> bool
    decreases a.len(),
{
    if a.len() == 0 {
        b.len() > 0
    } else if b.len() == 0 {
        false
    } else if a[0] != b[0] {
        a[0] < b[0]
    } else {
        text_less(a.drop_first(), b.drop_first())
    }
}

/// No text comes before itself.
pub proof fn lemma_text_less_irreflexive(a: Seq<char>)
    ensures
        !text_less(a, a),
    decreases a.len(),
{
    if a.len() > 0 {
        lemma_text_less_irreflexive(a.drop_first());
    }
}

/// Of two different texts, one comes before the other, and not both ways.
pub proof fn lemma_text_less_total(a: Seq<char>, b: Seq<char>)
    ensures
        a != b ==> text_less(a, b) || text_less(b, a),
        !(text_less(a, b) && text_less(b, a)),
    decreases a.len(),
{
    if a.len() > 0 && b.len() > 0 && a[0] == b[0] {
        lemma_text_less_total(a.drop_first(), b.drop_first());
        if a.drop_first() == b.drop_first() {
            assert(a =~= seq![a[0]] + a.drop_first());
            assert(b =~= seq![b[0]] + b.drop_first());
        }
    }
    if a.len() == 0 && b.len() == 0 {
        assert(a =~= b);
    }
}

/// `a` comes before `b` in dictionary order: `a` is a proper prefix of `b`,
/// or at the first place where they differ `a` has the smaller character.
pub open spec fn dictionary_before(a: Seq<char>, b: Seq<char>) -> bool {
    ||| (a.len() < b.len() && a == b.take(a.len() as int))
    ||| exists|k: int| 0 <= k < a.len() && k < b.len() && a.take(k) == b.take(k) && #[trigger] a[k] < b[k]
}

/// The order of texts is dictionary order.
pub proof fn lemma_text_less_is_dictionary_order(a: Seq<char>, b: Seq<char>)
    ensures
        text_less(a, b) <==> dictionary_before(a, b),
    decreases a.len(),
{
    if a.len() == 0 {
        if b.len() > 0 {
            assert(a =~= b.take(0));
        }
    } else if b.len() == 0 {
    } else if a[0] != b[0] {
        if a[0] < b[0] {
            assert(a.take(0) =~= b.take(0));
        }
        if dictionary_before(a, b) {
            if a.len() < b.len() && a == b.take(a.len() as int) {
                assert(a[0] == b[0]);
            } else {
                let k = choose|k: int| 0 <= k < a.len() && k < b.len() && a.take(k) == b.take(k) && #[trigger] a[k] < b[k];
                if k > 0 {
                    assert(a.take(k)[0] == b.take(k)[0]);
                }
            }
        }
    } else {
        let a1 = a.drop_first();
        let b1 = b.drop_first();
        lemma_text_less_is_dictionary_order(a1, b1);
        if dictionary_before(a1, b1) {
            if a1.len() < b1.len() && a1 == b1.take(a1.len() as int) {
                assert(a =~= b.take(a.len() as int)) by {
                    assert forall|j: int| 0 <= j < a.len() implies #[trigger] a[j] == b.take(a.len() as int)[j] by {
                        if j > 0 {
                            assert(a1[j - 1] == b1.take(a1.len() as int)[j - 1]);
                        }
                    }
                }
            } else {
                let k = choose|k: int| 0 <= k < a1.len() && k < b1.len() && a1.take(k) == b1.take(k) && #[trigger] a1[k] < b1[k];
                assert(a.take(k + 1) =~= b.take(k + 1)) by {
                    assert forall|j: int| 0 <= j < k + 1 implies #[trigger] a.take(k + 1)[j] == b.take(k + 1)[j] by {
                        if j > 0 {
                            assert(a1.take(k)[j - 1] == b1.take(k)[j - 1]);
                        }
                    }
                }
                assert(a[k + 1] < b[k + 1]);
            }
        }
        if dictionary_before(a, b) {
            if a.len() < b.len() && a == b.take(a.len() as int) {
                assert(a1 =~= b1.take(a1.len() as int)) by {
                    assert forall|j: int| 0 <= j < a1.len() implies #[trigger] a1[j] == b1.take(a1.len() as int)[j] by {
                        assert(a[j + 1] == b.take(a.len() as int)[j + 1]);
                    }
                }
            } else {
                let k = choose|k: int| 0 <= k < a.len() && k < b.len() && a.take(k) == b.take(k) && #[trigger] a[k] < b[k];
                assert(k > 0);
                assert(a1.take(k - 1) =~= b1.take(k - 1)) by {
                    assert forall|j: int| 0 <= j < k - 1 implies #[trigger] a1.take(k - 1)[j] == b1.take(k - 1)[j] by {
                        assert(a.take(k)[j + 1] == b.take(k)[j + 1]);
                    }
                }
                assert(a1[k - 1] < b1[k - 1]);
            }
        }
    }
}

/// The order of texts is transitive.
pub proof fn lemma_text_less_transitive(a: Seq<char>, b: Seq<char>, c: Seq<char>)
    requires
        text_less(a, b),
        text_less(b, c),
    ensures
        text_less(a, c),
    decreases a.len(),
{
    if a.len() > 0 && b.len() > 0 && c.len() > 0 && a[0] == b[0] && b[0] == c[0] {
        lemma_text_less_transitive(a.drop_first(), b.drop_first(), c.drop_first());
    }
}

/// The keys of `entries` are in increasing order.
pub open spec fn sorted_keys<V>(entries: Seq<(String, V)>) -> bool {
    forall|i: int, j: int|
        0 <= i < j < entries.len() ==> text_less(#[trigger] entries[i].0@, #[trigger] entries[j].0@)
}

/// The keys of `entries` are pairwise distinct.
pub open spec fn distinct_keys<V>(entries: Seq<(String, V)>) -> bool {
    forall|i: int, j: int|
        0 <= i < entries.len() && 0 <= j < entries.len() && i != j
            ==> #[trigger] entries[i].0@ != #[trigger] entries[j].0@
}

/// The map that a list of entries with distinct keys stands for.
pub open spec fn entries_map<V: View>(entries: Seq<(String, V)>) -> Map<Seq<char>, V::V> {
    Map::new(
        |k: Seq<char>| exists|i: int| 0 <= i < entries.len() && #[trigger] entries[i].0@ == k,
        |k: Seq<char>| entries[choose|i: int| 0 <= i < entries.len() && #[trigger] entries[i].0@ == k].1@,
    )
}

impl<V: View> View for TextMap<V> {
    type V = Map<Seq<char>, V::V>;

    closed spec fn view(&self) -> Map<Seq<char>, V::V> {
        entries_map(self.entries@)
    }
}

/// With distinct keys, the entry at `i` is what the map holds for its key.
pub proof fn lemma_entry_in_map<V: View>(entries: Seq<(String, V)>, i: int)
    requires
        distinct_keys(entries),
        0 <= i < entries.len(),
    ensures
        entries_map(entries).contains_key(entries[i].0@),
        entries_map(entries)[entries[i].0@] == entries[i].1@,
{
    let k = entries[i].0@;
    assert(entries[i].0@ == k);
    let j = choose|j: int| 0 <= j < entries.len() && #[trigger] entries[j].0@ == k;
    if j != i {
        assert(entries[j].0@ != entries[i].0@);
    }
}

/// The map of distinct-keyed entries has exactly one key per entry.
proof fn lemma_dom_len<V: View>(entries: Seq<(String, V)>)
    requires
        distinct_keys(entries),
    ensures
        entries_map(entries).dom().finite(),
        entries_map(entries).dom().len() == entries.len(),
    decreases entries.len(),
{
    let m = entries_map(entries);
    if entries.len() == 0 {
        assert(m.dom() =~= Set::<Seq<char>>::empty());
    } else {
        let init = entries.drop_last();
        assert(distinct_keys(init)) by {
            assert forall|a: int, b: int| 0 <= a < init.len() && 0 <= b < init.len() && a != b
                implies #[trigger] init[a].0@ != #[trigger] init[b].0@ by {
                assert(init[a] == entries[a] && init[b] == entries[b]);
            }
        }
        lemma_dom_len(init);
        let last = entries.last().0@;
        assert forall|a: int| 0 <= a < init.len() implies #[trigger] init[a].0@ != last by {
            assert(init[a] == entries[a]);
            assert(entries[a].0@ != entries[entries.len() - 1].0@);
        }
        assert(m.dom() =~= entries_map(init).dom().insert(last)) by {
            assert forall|k: Seq<char>| m.dom().contains(k) <==> entries_map(init).dom().insert(last).contains(k) by {
                if m.dom().contains(k) {
                    let j = choose|j: int| 0 <= j < entries.len() && #[trigger] entries[j].0@ == k;
                    if j < init.len() {
                        assert(init[j] == entries[j]);
                    }
                }
                if entries_map(init).dom().contains(k) {
                    let j = choose|j: int| 0 <= j < init.len() && #[trigger] init[j].0@ == k;
                    assert(entries[j] == init[j]);
                }
                if k == last {
                    assert(entries[entries.len() - 1].0@ == k);
                }
            }
        }
        assert(!entries_map(init).dom().contains(last)) by {
            if entries_map(init).dom().contains(last) {
                let j = choose|j: int| 0 <= j < init.len() && #[trigger] init[j].0@ == last;
            }
        }
    }
}

impl<V> TextMap<V> {
    /// The keys are in increasing order, hence pairwise distinct.
    #[verifier::type_invariant]
    spec fn keys_in_order(&self) -> bool {
        &&& sorted_keys(self.entries@)
        &&& distinct_keys(self.entries@)
    }
}

/// Whether `a` comes before `b` in the order of texts.
pub fn less_text(a: &str, b: &str) -> (r: bool)
    ensures
        r == text_less(a@, b@),
{
    let x = chars_of(a);
    let y = chars_of(b);
    let mut i: usize = 0;
    assert(x@.skip(0) =~= x@ && y@.skip(0) =~= y@);
    while i < x.len() && i < y.len()
        invariant
            x@ == a@,
            y@ == b@,
            i <= x@.len(),
            i <= y@.len(),
            text_less(a@, b@) == text_less(x@.skip(i as int), y@.skip(i as int)),
        decreases x@.len() - i,
    {
        assert(x@.skip(i as int).drop_first() =~= x@.skip(i + 1));
        assert(y@.skip(i as int).drop_first() =~= y@.skip(i + 1));
        if x[i] != y[i] {
            return x[i] < y[i];
        }
        i = i + 1;
    }
    x.len() < y.len()
}

impl<V: View> TextMap<V> {

    /// The keys, in increasing order.
    pub closed spec fn keys(&self) -> Seq<Seq<char>> {
        self.entries@.map_values(|e: (String, V)| e.0@)
    }

    /// An empty map.
    pub fn new() -> (m: Self)
        ensures
            m@ == Map::<Seq<char>, V::V>::empty(),
            m.keys().len() == 0,
    {
        let m = TextMap { entries: Vec::new() };
        assert(m@ =~= Map::<Seq<char>, V::V>::empty());
        m
    }

    /// The number of entries, which is the number of keys of the map; the keys
    /// of the entries are distinct and are exactly the keys of the map.
    pub fn len(&self) -> (n: usize)
        ensures
            n == self.keys().len(),
            n == self@.dom().len(),
            self@.dom().finite(),
            self.keys().no_duplicates(),
            self.keys().to_set() == self@.dom(),
            forall|i: int, j: int| 0 <= i < j < n ==> text_less(#[trigger] self.keys()[i], #[trigger] self.keys()[j]),
    {
        proof {
            use_type_invariant(self);
            lemma_dom_len(self.entries@);
            let ks = self.keys();
            assert(ks.no_duplicates()) by {
                assert forall|a: int, b: int| 0 <= a < ks.len() && 0 <= b < ks.len() && a != b
                    implies ks[a] != ks[b] by {
                    assert(self.entries@[a].0@ != self.entries@[b].0@);
                }
            }
            assert forall|k: Seq<char>| ks.to_set().contains(k) <==> self@.dom().contains(k) by {
                if ks.to_set().contains(k) {
                    let j = choose|j: int| 0 <= j < ks.len() && ks[j] == k;
                    assert(self.entries@[j].0@ == k);
                }
                if self@.dom().contains(k) {
                    let j = choose|j: int| 0 <= j < self.entries@.len() && #[trigger] self.entries@[j].0@ == k;
                    assert(ks[j] == k);
                }
            }
            assert(ks.to_set() =~= self@.dom());
        }
        self.entries.len()
    }

    /// The key and value of the entry at `index`.
    pub fn entry(&self, index: usize) -> (e: (&String, &V))
        requires
            index < self.keys().len(),
        ensures
            e.0@ == self.keys()[index as int],
            self@.contains_key(e.0@),
            self@[e.0@] == e.1@,
    {
        proof {
            use_type_invariant(self);
            lemma_entry_in_map(self.entries@, index as int);
        }
        let (k, v) = &self.entries[index];
        (k, v)
    }

    /// The position of the entry for `key`, if there is one.
    fn position(&self, key: &String) -> (r: Option<usize>)
        ensures
            match r {
                Some(i) => i < self.entries@.len() && self.entries@[i as int].0@ == key@,
                None => !self@.contains_key(key@),
            },
    {
        let n = self.entries.len();
        let mut i: usize = 0;
        while i < n
            invariant
                n == self.entries@.len(),
                i <= n,
                forall|j: int| 0 <= j < i ==> #[trigger] self.entries@[j].0@ != key@,
            decreases n - i,
        {
            if self.entries[i].0 == *key {
                return Some(i);
            }
            i = i + 1;
        }
        None
    }

    /// The value stored for `key`.
    pub fn get(&self, key: &String) -> (r: Option<&V>)
        ensures
            match r {
                Some(v) => self@.contains_key(key@) && self@[key@] == v@,
                None => !self@.contains_key(key@),
            },
    {
        match self.position(key) {
            Some(i) => {
                proof {
                    use_type_invariant(self);
                    lemma_entry_in_map(self.entries@, i as int);
                }
                Some(&self.entries[i].1)
            },
            None => None,
        }
    }

    /// Stores `value` for `key`, replacing what was stored for it before.
    pub fn insert(&mut self, key: String, value: V)
        ensures
            final(self)@ == old(self)@.insert(key@, value@),
    {
        proof {
            use_type_invariant(&*self);
        }
        let ghost k = key@;
        let ghost vv = value@;
        let ghost before = self.entries@;
        let n = self.entries.len();
        let mut p: usize = 0;
        while p < n
            invariant
                n == before.len(),
                before == self.entries@,
                key@ == k,
                p <= n,
                forall|j: int| 0 <= j < p ==> text_less(#[trigger] before[j].0@, k),
            ensures
                p <= n,
                forall|j: int| 0 <= j < p ==> text_less(#[trigger] before[j].0@, k),
                p < n ==> !text_less(before[p as int].0@, k),
            decreases n - p,
        {
            if !less_text(self.entries[p].0.as_str(), key.as_str()) {
                break;
            }
            p = p + 1;
        }
        let found = p < n && self.entries[p].0 == key;
        let mut entries: Vec<(String, V)> = Vec::new();
        std::mem::swap(&mut entries, &mut self.entries);
        assert(entries@ == before);
        if found {
            entries.set(p, (key, value));
            proof {
                let i = p as int;
                let after = entries@;
                assert forall|a: int| 0 <= a < after.len() implies #[trigger] after[a].0@ == before[a].0@ by {}
                assert(sorted_keys(after)) by {
                    assert forall|a: int, b: int| 0 <= a < b < after.len()
                        implies text_less(#[trigger] after[a].0@, #[trigger] after[b].0@) by {
                        assert(after[a].0@ == before[a].0@ && after[b].0@ == before[b].0@);
                    }
                }
                assert(distinct_keys(after)) by {
                    assert forall|a: int, b: int|
                        0 <= a < after.len() && 0 <= b < after.len() && a != b
                        implies #[trigger] after[a].0@ != #[trigger] after[b].0@ by {
                        assert(after[a].0@ == before[a].0@ && after[b].0@ == before[b].0@);
                    }
                }
                assert forall|kk: Seq<char>| entries_map(after).contains_key(kk)
                    <==> entries_map(before).insert(k, vv).contains_key(kk) by {
                    if entries_map(after).contains_key(kk) {
                        let j = choose|j: int| 0 <= j < after.len() && #[trigger] after[j].0@ == kk;
                        assert(before[j].0@ == kk);
                    }
                    if entries_map(before).contains_key(kk) {
                        let j = choose|j: int| 0 <= j < before.len() && #[trigger] before[j].0@ == kk;
                        assert(after[j].0@ == kk);
                    }
                    if kk == k {
                        assert(after[i].0@ == kk);
                    }
                }
                assert forall|kk: Seq<char>| #[trigger] entries_map(after).contains_key(kk)
                    implies entries_map(after)[kk] == entries_map(before).insert(k, vv)[kk] by {
                    let j = choose|j: int| 0 <= j < after.len() && #[trigger] after[j].0@ == kk;
                    lemma_entry_in_map(after, j);
                    if j != i {
                        assert(before[j].0@ == kk);
                        lemma_entry_in_map(before, j);
                    }
                }
                assert(entries_map(after) =~= entries_map(before).insert(k, vv));
            }
        } else {
            proof {
                assert forall|j: int| p <= j < n implies text_less(k, #[trigger] before[j].0@) by {
                    lemma_text_less_total(before[p as int].0@, k);
                    if j > p {
                        assert(text_less(before[p as int].0@, before[j].0@));
                        lemma_text_less_transitive(k, before[p as int].0@, before[j].0@);
                    }
                }
            }
            entries.insert(p, (key, value));
            proof {
                let q = p as int;
                let after = entries@;
                assert(after.len() == n + 1);
                assert(after[q].0@ == k);
                assert forall|a: int| 0 <= a < q implies #[trigger] after[a] == before[a] by {}
                assert forall|a: int| q < a <= n implies #[trigger] after[a] == before[a - 1] by {}
                assert(sorted_keys(after)) by {
                    assert forall|a: int, b: int| 0 <= a < b < after.len()
                        implies text_less(#[trigger] after[a].0@, #[trigger] after[b].0@) by {
                        if b < q {
                            assert(after[a] == before[a] && after[b] == before[b]);
                        } else if b == q {
                            assert(after[a] == before[a]);
                        } else if a == q {
                            assert(after[b] == before[b - 1]);
                        } else if a < q {
                            assert(after[a] == before[a] && after[b] == before[b - 1]);
                            lemma_text_less_transitive(before[a].0@, k, before[b - 1].0@);
                        } else {
                            assert(after[a] == before[a - 1] && after[b] == before[b - 1]);
                        }
                    }
                }
                assert(distinct_keys(after)) by {
                    assert forall|a: int, b: int|
                        0 <= a < after.len() && 0 <= b < after.len() && a != b
                        implies #[trigger] after[a].0@ != #[trigger] after[b].0@ by {
                        if a < b {
                            assert(text_less(after[a].0@, after[b].0@));
                        } else {
                            assert(text_less(after[b].0@, after[a].0@));
                        }
                        lemma_text_less_irreflexive(after[a].0@);
                    }
                }
                assert forall|j: int| 0 <= j < n implies #[trigger] before[j].0@ != k by {
                    lemma_text_less_irreflexive(k);
                }
                assert forall|kk: Seq<char>| entries_map(after).contains_key(kk)
                    <==> entries_map(before).insert(k, vv).contains_key(kk) by {
                    if entries_map(after).contains_key(kk) {
                        let j = choose|j: int| 0 <= j < after.len() && #[trigger] after[j].0@ == kk;
                        if j < q {
                            assert(before[j].0@ == kk);
                        } else if j > q {
                            assert(before[j - 1].0@ == kk);
                        }
                    }
                    if entries_map(before).contains_key(kk) {
                        let j = choose|j: int| 0 <= j < before.len() && #[trigger] before[j].0@ == kk;
                        if j < q {
                            assert(after[j].0@ == kk);
                        } else {
                            assert(after[j + 1].0@ == kk);
                        }
                    }
                    if kk == k {
                        assert(after[q].0@ == kk);
                    }
                }
                assert forall|kk: Seq<char>| #[trigger] entries_map(after).contains_key(kk)
                    implies entries_map(after)[kk] == entries_map(before).insert(k, vv)[kk] by {
                    let j = choose|j: int| 0 <= j < after.len() && #[trigger] after[j].0@ == kk;
                    lemma_entry_in_map(after, j);
                    if j < q {
                        assert(before[j].0@ == kk);
                        lemma_entry_in_map(before, j);
                    } else if j > q {
                        assert(before[j - 1].0@ == kk);
                        lemma_entry_in_map(before, j - 1);
                    }
                }
                assert(entries_map(after) =~= entries_map(before).insert(k, vv));
            }
        }
        self.entries = entries;
    }

    /// Drops the entry for `key`, if there is one.
    pub fn remove(&mut self, key: &String)
        ensures
            final(self)@ == old(self)@.remove(key@),
    {
        proof {
            use_type_invariant(&*self);
        }
        let ghost k = key@;
        let ghost before = self.entries@;
        match self.position(key) {
            Some(i) => {
                let mut entries: Vec<(String, V)> = Vec::new();
                std::mem::swap(&mut entries, &mut self.entries);
                assert(entries@ == before);
                entries.remove(i);
                proof {
                    let q = i as int;
                    let after = entries@;
                    assert forall|a: int| 0 <= a < q implies #[trigger] after[a] == before[a] by {}
                    assert forall|a: int| q <= a < after.len() implies #[trigger] after[a] == before[a + 1] by {}
                    assert(sorted_keys(after)) by {
                        assert forall|a: int, b: int| 0 <= a < b < after.len()
                            implies text_less(#[trigger] after[a].0@, #[trigger] after[b].0@) by {
                            let a2 = if a < q { a } else { a + 1 };
                            let b2 = if b < q { b } else { b + 1 };
                            assert(after[a] == before[a2] && after[b] == before[b2]);
                        }
                    }
                    assert(distinct_keys(after)) by {
                        assert forall|a: int, b: int|
                            0 <= a < after.len() && 0 <= b < after.len() && a != b
                            implies #[trigger] after[a].0@ != #[trigger] after[b].0@ by {
                            let a2 = if a < q { a } else { a + 1 };
                            let b2 = if b < q { b } else { b + 1 };
                            assert(after[a] == before[a2] && after[b] == before[b2]);
                        }
                    }
                    assert forall|kk: Seq<char>| entries_map(after).contains_key(kk)
                        <==> entries_map(before).remove(k).contains_key(kk) by {
                        if entries_map(after).contains_key(kk) {
                            let j = choose|j: int| 0 <= j < after.len() && #[trigger] after[j].0@ == kk;
                            let j2 = if j < q { j } else { j + 1 };
                            assert(before[j2].0@ == kk);
                            assert(before[j2].0@ != before[q].0@);
                        }
                        if entries_map(before).contains_key(kk) && kk != k {
                            let j = choose|j: int| 0 <= j < before.len() && #[trigger] before[j].0@ == kk;
                            if j < q {
                                assert(after[j].0@ == kk);
                            } else {
                                assert(j != q);
                                assert(after[j - 1].0@ == kk);
                            }
                        }
                    }
                    assert forall|kk: Seq<char>| #[trigger] entries_map(after).contains_key(kk)
                        implies entries_map(after)[kk] == entries_map(before).remove(k)[kk] by {
                        let j = choose|j: int| 0 <= j < after.len() && #[trigger] after[j].0@ == kk;
                        lemma_entry_in_map(after, j);
                        let j2 = if j < q { j } else { j + 1 };
                        assert(before[j2].0@ == kk);
                        assert(before[j2].0@ != before[q].0@);
                        lemma_entry_in_map(before, j2);
                    }
                    assert(entries_map(after) =~= entries_map(before).remove(k));
                }
                self.entries = entries;
            },
            None => {
                assert(before == self.entries@);
                assert(entries_map(before).remove(k) =~= entries_map(before));
            },
        }
    }
}


impl Clone for TextMap<String> {
    fn clone(&self) -> (m: Self)
        ensures
            m@ == self@,
            m.keys() == self.keys(),
    {
        proof {
            use_type_invariant(self);
        }
        let ghost src = self.entries@;
        let mut out: Vec<(String, String)> = Vec::new();
        let n = self.entries.len();
        let mut i: usize = 0;
        while i < n
            invariant
                n == src.len(),
                src == self.entries@,
                i <= n,
                out@.len() == i,
                forall|j: int| 0 <= j < i ==> (#[trigger] out@[j]).0@ == src[j].0@ && out@[j].1@ == src[j].1@,
            decreases n - i,
        {
            let k = self.entries[i].0.clone();
            let v = self.entries[i].1.clone();
            out.push((k, v));
            i = i + 1;
        }
        proof {
            let after = out@;
            assert(distinct_keys(after)) by {
                assert forall|a: int, b: int| 0 <= a < after.len() && 0 <= b < after.len() && a != b
                    implies #[trigger] after[a].0@ != #[trigger] after[b].0@ by {
                    assert(src[a].0@ != src[b].0@);
                }
            }
            assert forall|kk: Seq<char>| entries_map(after).contains_key(kk)
                <==> entries_map(src).contains_key(kk) by {
                if entries_map(after).contains_key(kk) {
                    let j = choose|j: int| 0 <= j < after.len() && #[trigger] after[j].0@ == kk;
                    assert(src[j].0@ == kk);
                }
                if entries_map(src).contains_key(kk) {
                    let j = choose|j: int| 0 <= j < src.len() && #[trigger] src[j].0@ == kk;
                    assert(after[j].0@ == kk);
                }
            }
            assert forall|kk: Seq<char>| #[trigger] entries_map(after).contains_key(kk)
                implies entries_map(after)[kk] == entries_map(src)[kk] by {
                let j = choose|j: int| 0 <= j < after.len() && #[trigger] after[j].0@ == kk;
                lemma_entry_in_map(after, j);
                assert(src[j].0@ == kk);
                lemma_entry_in_map(src, j);
            }
            assert(entries_map(after) =~= entries_map(src));
            assert(after.map_values(|e: (String, String)| e.0@) =~= src.map_values(|e: (String, String)| e.0@));
        }
        TextMap { entries: out }
    }
}

} // verus!
