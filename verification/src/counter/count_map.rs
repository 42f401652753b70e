//! A table from words to how many times each was seen.
use vstd::prelude::*;

use crate::text::string_views;

verus! {

/// The keys of `s` are pairwise distinct.
pub open spec fn keys_distinct(s: Seq<(Seq<char>, int)>) -> bool {
    forall|i: int, j: int| 0 <= i < j < s.len() ==> s[i].0 != s[j].0
}

/// The map that a list of (key, value) pairs with distinct keys stands for.
pub open spec fn map_of(s: Seq<(Seq<char>, int)>) -> Map<Seq<char>, int> {
    Map::new(
        |k: Seq<char>| exists|i: int| 0 <= i < s.len() && s[i].0 == k,
        |k: Seq<char>| s[choose|i: int| 0 <= i < s.len() && s[i].0 == k].1,
    )
}

/// The count of `k` in `m`, zero when `k` is absent.
pub open spec fn get0(m: Map<Seq<char>, int>, k: Seq<char>) -> int {
    if m.dom().contains(k) {
        m[k]
    } else {
        0
    }
}

/// How many times `k` occurs in `words`.
pub open spec fn occurrences(words: Seq<Seq<char>>, k: Seq<char>) -> nat
    decreases words.len(),
{
    if words.len() == 0 {
        0
    } else {
        occurrences(words.drop_last(), k) + if words.last() == k {
            1nat
        } else {
            0nat
        }
    }
}

/// The counts of `m` after each of `words` has been counted once more.
pub open spec fn counted(m: Map<Seq<char>, int>, words: Seq<Seq<char>>) -> Map<Seq<char>, int> {
    Map::new(
        |k: Seq<char>| m.dom().contains(k) || words.contains(k),
        |k: Seq<char>| get0(m, k) + occurrences(words, k),
    )
}

/// The counts of `a` and `b` added key by key.
pub open spec fn sum_counts(a: Map<Seq<char>, int>, b: Map<Seq<char>, int>) -> Map<Seq<char>, int> {
    Map::new(
        |k: Seq<char>| a.dom().contains(k) || b.dom().contains(k),
        |k: Seq<char>| get0(a, k) + get0(b, k),
    )
}

/// No word would be counted past `i32::MAX` by counting `words` into `m`.
pub open spec fn fits_counted(m: Map<Seq<char>, int>, words: Seq<Seq<char>>) -> bool {
    forall|k: Seq<char>| #[trigger] get0(m, k) + occurrences(words, k) <= i32::MAX
}

/// No word would be counted past `i32::MAX` by adding `b` to `a`.
pub open spec fn fits_sum(a: Map<Seq<char>, int>, b: Map<Seq<char>, int>) -> bool {
    forall|k: Seq<char>| #[trigger] get0(a, k) + get0(b, k) <= i32::MAX
}

/// The entries of a table: each key once, each with the count the map gives.
pub open spec fn lists_exactly(s: Seq<(Seq<char>, int)>, m: Map<Seq<char>, int>) -> bool {
    &&& keys_distinct(s)
    &&& forall|i: int|
        0 <= i < s.len() ==> m.dom().contains(#[trigger] s[i].0) && m[s[i].0] == s[i].1
    &&& forall|k: Seq<char>|
        m.dom().contains(k) ==> exists|i: int| 0 <= i < s.len() && #[trigger] s[i].0 == k
}

/// The (key, count) views of a list of entries.
pub open spec fn entry_views(s: Seq<(String, i32)>) -> Seq<(Seq<char>, int)> {
    s.map_values(|e: (String, i32)| (e.0@, e.1 as int))
}

pub proof fn lemma_map_of_index(s: Seq<(Seq<char>, int)>, i: int)
    requires
        keys_distinct(s),
        0 <= i < s.len(),
    ensures
        map_of(s).dom().contains(s[i].0),
        map_of(s)[s[i].0] == s[i].1,
{
    let k = s[i].0;
    assert(exists|j: int| 0 <= j < s.len() && s[j].0 == k);
    let j = choose|j: int| 0 <= j < s.len() && s[j].0 == k;
    assert(j == i);
}

pub proof fn lemma_map_of_lists(s: Seq<(Seq<char>, int)>)
    requires
        keys_distinct(s),
    ensures
        lists_exactly(s, map_of(s)),
{
    assert forall|i: int| 0 <= i < s.len() implies map_of(s).dom().contains(#[trigger] s[i].0)
        && map_of(s)[s[i].0] == s[i].1 by {
        lemma_map_of_index(s, i);
    }
}

pub proof fn lemma_map_of_push(s: Seq<(Seq<char>, int)>, k: Seq<char>, v: int)
    requires
        keys_distinct(s),
        !map_of(s).dom().contains(k),
    ensures
        keys_distinct(s.push((k, v))),
        map_of(s.push((k, v))) == map_of(s).insert(k, v),
{
    let t = s.push((k, v));
    assert forall|i: int| 0 <= i < s.len() implies s[i].0 != k by {
        if s[i].0 == k {
            assert(map_of(s).dom().contains(k));
        }
    }
    assert(keys_distinct(t));
    assert forall|x: Seq<char>| #[trigger] map_of(t).dom().contains(x) <==> map_of(s).insert(
        k,
        v,
    ).dom().contains(x) by {
        if map_of(s).dom().contains(x) {
            let i = choose|i: int| 0 <= i < s.len() && s[i].0 == x;
            assert(t[i].0 == x);
        }
        if map_of(t).dom().contains(x) && x != k {
            let i = choose|i: int| 0 <= i < t.len() && t[i].0 == x;
            assert(s[i].0 == x);
        }
        if x == k {
            assert(t[s.len() as int].0 == x);
        }
    }
    assert forall|x: Seq<char>| #[trigger] map_of(t).dom().contains(x) implies map_of(t)[x]
        == map_of(s).insert(k, v)[x] by {
        if x == k {
            lemma_map_of_index(t, s.len() as int);
        } else {
            let i = choose|i: int| 0 <= i < t.len() && t[i].0 == x;
            lemma_map_of_index(t, i);
            lemma_map_of_index(s, i);
        }
    }
    assert(map_of(t) =~= map_of(s).insert(k, v));
}

pub proof fn lemma_map_of_update(s: Seq<(Seq<char>, int)>, i: int, v: int)
    requires
        keys_distinct(s),
        0 <= i < s.len(),
    ensures
        keys_distinct(s.update(i, (s[i].0, v))),
        map_of(s.update(i, (s[i].0, v))) == map_of(s).insert(s[i].0, v),
{
    let k = s[i].0;
    let t = s.update(i, (k, v));
    assert(keys_distinct(t));
    lemma_map_of_index(s, i);
    assert forall|x: Seq<char>| #[trigger] map_of(t).dom().contains(x) <==> map_of(s).insert(
        k,
        v,
    ).dom().contains(x) by {
        if map_of(s).dom().contains(x) {
            let j = choose|j: int| 0 <= j < s.len() && s[j].0 == x;
            assert(t[j].0 == x);
        }
        if map_of(t).dom().contains(x) {
            let j = choose|j: int| 0 <= j < t.len() && t[j].0 == x;
            assert(s[j].0 == x);
        }
    }
    assert forall|x: Seq<char>| #[trigger] map_of(t).dom().contains(x) implies map_of(t)[x]
        == map_of(s).insert(k, v)[x] by {
        let j = choose|j: int| 0 <= j < t.len() && t[j].0 == x;
        lemma_map_of_index(t, j);
        if x != k {
            lemma_map_of_index(s, j);
        }
    }
    assert(map_of(t) =~= map_of(s).insert(k, v));
}

/// Counting one more word: the occurrences of a prefix grow by the last word.
pub proof fn lemma_occurrences_step(words: Seq<Seq<char>>, i: int, k: Seq<char>)
    requires
        0 <= i < words.len(),
    ensures
        occurrences(words.take(i + 1), k) == occurrences(words.take(i), k) + if words[i] == k {
            1nat
        } else {
            0nat
        },
{
    assert(words.take(i + 1).drop_last() =~= words.take(i));
}

/// The occurrences in a prefix never exceed those in the whole.
pub proof fn lemma_occurrences_prefix(words: Seq<Seq<char>>, i: int, k: Seq<char>)
    requires
        0 <= i <= words.len(),
    ensures
        occurrences(words.take(i), k) <= occurrences(words, k),
    decreases words.len() - i,
{
    if i < words.len() {
        lemma_occurrences_step(words, i, k);
        lemma_occurrences_prefix(words, i + 1, k);
    } else {
        assert(words.take(i) =~= words);
    }
}

/// A word occurs in a list exactly when it is counted there at least once.
pub proof fn lemma_occurrences_contains(words: Seq<Seq<char>>, k: Seq<char>)
    ensures
        words.contains(k) <==> occurrences(words, k) > 0,
    decreases words.len(),
{
    if words.len() > 0 {
        lemma_occurrences_contains(words.drop_last(), k);
        if words.drop_last().contains(k) {
            let j = choose|j: int| 0 <= j < words.drop_last().len() && words.drop_last()[j] == k;
            assert(words[j] == k);
        }
        if words.contains(k) && words.last() != k {
            let j = choose|j: int| 0 <= j < words.len() && words[j] == k;
            assert(words.drop_last()[j] == k);
        }
    }
}

/// The occurrences in two lists put together add up.
pub proof fn lemma_occurrences_concat(a: Seq<Seq<char>>, b: Seq<Seq<char>>, k: Seq<char>)
    ensures
        occurrences(a + b, k) == occurrences(a, k) + occurrences(b, k),
    decreases b.len(),
{
    if b.len() == 0 {
        assert(a + b =~= a);
    } else {
        assert((a + b).drop_last() =~= a + b.drop_last());
        lemma_occurrences_concat(a, b.drop_last(), k);
    }
}

/// Counting one list of words and then another gives the same counts as
/// counting both lists at once.
pub proof fn lemma_counted_concat(m: Map<Seq<char>, int>, a: Seq<Seq<char>>, b: Seq<Seq<char>>)
    ensures
        counted(counted(m, a), b) == counted(m, a + b),
{
    assert forall|k: Seq<char>| #[trigger] counted(counted(m, a), b).dom().contains(k)
        <==> counted(m, a + b).dom().contains(k) by {
        lemma_occurrences_contains(a, k);
        lemma_occurrences_contains(b, k);
        lemma_occurrences_contains(a + b, k);
        lemma_occurrences_concat(a, b, k);
    }
    assert forall|k: Seq<char>| #[trigger] counted(counted(m, a), b).dom().contains(k)
        implies counted(counted(m, a), b)[k] == counted(m, a + b)[k] by {
        lemma_occurrences_contains(a, k);
        lemma_occurrences_concat(a, b, k);
    }
    assert(counted(counted(m, a), b) =~= counted(m, a + b));
}

/// Adding two tables gives every word of either, counted as often as in both
/// together.
pub proof fn lemma_sum_counts_exact(a: Map<Seq<char>, int>, b: Map<Seq<char>, int>, k: Seq<char>)
    ensures
        sum_counts(a, b).dom().contains(k) <==> (a.dom().contains(k) || b.dom().contains(k)),
        get0(sum_counts(a, b), k) == get0(a, k) + get0(b, k),
{
}

/// Adding counts does not depend on the order of the two tables.
pub proof fn lemma_sum_counts_commutative(a: Map<Seq<char>, int>, b: Map<Seq<char>, int>)
    ensures
        sum_counts(a, b) == sum_counts(b, a),
{
    assert(sum_counts(a, b) =~= sum_counts(b, a));
}

/// Adding the counts of two lists gives the counts of both lists together:
/// merging the counters of two sites is counting all their synonyms at once.
pub proof fn lemma_sum_of_counted(a: Seq<Seq<char>>, b: Seq<Seq<char>>)
    ensures
        sum_counts(
            counted(Map::<Seq<char>, int>::empty(), a),
            counted(Map::<Seq<char>, int>::empty(), b),
        ) == counted(Map::<Seq<char>, int>::empty(), a + b),
{
    let e = Map::<Seq<char>, int>::empty();
    assert forall|k: Seq<char>| #[trigger] sum_counts(counted(e, a), counted(e, b)).dom().contains(
        k,
    ) <==> counted(e, a + b).dom().contains(k) by {
        lemma_occurrences_contains(a, k);
        lemma_occurrences_contains(b, k);
        lemma_occurrences_contains(a + b, k);
        lemma_occurrences_concat(a, b, k);
    }
    assert forall|k: Seq<char>| #[trigger] sum_counts(counted(e, a), counted(e, b)).dom().contains(
        k,
    ) implies sum_counts(counted(e, a), counted(e, b))[k] == counted(e, a + b)[k] by {
        lemma_occurrences_contains(a, k);
        lemma_occurrences_contains(b, k);
        lemma_occurrences_concat(a, b, k);
    }
    assert(sum_counts(counted(e, a), counted(e, b)) =~= counted(e, a + b));
}

/// Counting a list of words gives each word of the list, and only those,
/// with the number of times it occurs there.
pub proof fn lemma_counted_words(words: Seq<Seq<char>>, k: Seq<char>)
    ensures
        counted(Map::<Seq<char>, int>::empty(), words).dom().contains(k) <==> words.contains(k),
        get0(counted(Map::<Seq<char>, int>::empty(), words), k) == occurrences(words, k),
{
    lemma_occurrences_contains(words, k);
}

/// Words counted with how many times each was seen.  Each word is listed
/// once, with a count of at least one.
#[derive(Debug)]
pub struct CountMap {
    entries: Vec<(String, i32)>,
}

impl View for CountMap {
    type V = Map<Seq<char>, int>;

    closed spec fn view(&self) -> Map<Seq<char>, int> {
        map_of(entry_views(self.entries@))
    }
}

impl CountMap {
    #[verifier::type_invariant]
    closed spec fn well_formed(self) -> bool {
        &&& keys_distinct(entry_views(self.entries@))
        &&& forall|i: int| 0 <= i < self.entries@.len() ==> #[trigger] self.entries@[i].1 >= 1
    }

    /// An empty table.
    pub fn new() -> (m: CountMap)
        ensures
            m@ == Map::<Seq<char>, int>::empty(),
    {
        let m = CountMap { entries: Vec::new() };
        assert(m@ =~= Map::<Seq<char>, int>::empty());
        m
    }

    /// Where `key` stands in the list of entries, if it is there.
    fn position(&self, key: &String) -> (r: Option<usize>)
        ensures
            match r {
                Some(i) => i < self.entries@.len() && self.entries@[i as int].0@ == key@,
                None => !self@.dom().contains(key@),
            },
    {
        let mut i: usize = 0;
        while i < self.entries.len()
            invariant
                i <= self.entries@.len(),
                forall|j: int| 0 <= j < i ==> self.entries@[j].0@ != key@,
            decreases self.entries.len() - i,
        {
            if self.entries[i].0 == *key {
                return Some(i);
            }
            i = i + 1;
        }
        proof {
            let s = entry_views(self.entries@);
            if self@.dom().contains(key@) {
                let j = choose|j: int| 0 <= j < s.len() && s[j].0 == key@;
                assert(self.entries@[j].0@ == key@);
            }
        }
        None
    }

    /// The count of `key`, zero when it was never seen.
    pub fn get(&self, key: &String) -> (c: i32)
        ensures
            c == get0(self@, key@),
    {
        proof {
            use_type_invariant(self);
        }
        match self.position(key) {
            Some(i) => {
                proof {
                    lemma_map_of_index(entry_views(self.entries@), i as int);
                }
                self.entries[i].1
            },
            None => 0,
        }
    }

    /// Counts `key` `n` more times.
    pub fn add(&mut self, key: &String, n: i32)
        requires
            n >= 1,
            get0(old(self)@, key@) + n <= i32::MAX,
        ensures
            final(self)@ == old(self)@.insert(key@, get0(old(self)@, key@) + n),
    {
        proof {
            use_type_invariant(&*self);
        }
        let ghost old_view = self@;
        let pos = self.position(key);
        let mut entries: Vec<(String, i32)> = Vec::new();
        std::mem::swap(&mut entries, &mut self.entries);
        let ghost s = entry_views(entries@);
        match pos {
            Some(i) => {
                proof {
                    lemma_map_of_index(s, i as int);
                }
                let k = entries[i].0.clone();
                let c = entries[i].1;
                entries.set(i, (k, c + n));
                proof {
                    lemma_map_of_update(s, i as int, c + n);
                    assert(entry_views(entries@) =~= s.update(i as int, (s[i as int].0, c + n)));
                }
            },
            None => {
                entries.push((key.clone(), n));
                proof {
                    lemma_map_of_push(s, key@, n as int);
                    assert(entry_views(entries@) =~= s.push((key@, n as int)));
                }
            },
        }
        self.entries = entries;
    }

    /// Counts each of `words` once more.
    pub fn add_words(&mut self, words: &[String])
        requires
            fits_counted(old(self)@, string_views(words@)),
        ensures
            final(self)@ == counted(old(self)@, string_views(words@)),
    {
        let ghost m = self@;
        let ghost ws = string_views(words@);
        let mut i: usize = 0;
        while i < words.len()
            invariant
                i <= words@.len(),
                ws == string_views(words@),
                fits_counted(m, ws),
                self@ == counted(m, ws.take(i as int)),
            decreases words.len() - i,
        {
            let ghost before = self@;
            proof {
                lemma_occurrences_step(ws, i as int, ws[i as int]);
                lemma_occurrences_prefix(ws, i as int + 1, ws[i as int]);
                assert(ws[i as int] == words@[i as int]@);
                assert(get0(m, ws[i as int]) + occurrences(ws, ws[i as int]) <= i32::MAX);
                assert(ws.take(i as int + 1).contains(ws[i as int])) by {
                    assert(ws.take(i as int + 1)[i as int] == ws[i as int]);
                }
                assert(get0(before, ws[i as int]) == get0(m, ws[i as int]) + occurrences(
                    ws.take(i as int),
                    ws[i as int],
                )) by {
                    lemma_occurrences_contains(ws.take(i as int), ws[i as int]);
                }
            }
            self.add(&words[i], 1);
            proof {
                let t = ws.take(i as int + 1);
                assert forall|k: Seq<char>| #[trigger] self@.dom().contains(k) <==> counted(
                    m,
                    t,
                ).dom().contains(k) by {
                    if ws.take(i as int).contains(k) {
                        let j = choose|j: int| 0 <= j < i && ws.take(i as int)[j] == k;
                        assert(t[j] == k);
                    }
                    if t.contains(k) && k != ws[i as int] {
                        let j = choose|j: int| 0 <= j < i + 1 && t[j] == k;
                        assert(ws.take(i as int)[j] == k);
                    }
                }
                assert forall|k: Seq<char>| #[trigger] self@.dom().contains(k) implies self@[k]
                    == counted(m, t)[k] by {
                    lemma_occurrences_step(ws, i as int, k);
                    lemma_occurrences_contains(ws.take(i as int), k);
                }
                assert(self@ =~= counted(m, t));
            }
            i = i + 1;
        }
        proof {
            assert(ws.take(words@.len() as int) =~= ws);
        }
    }

    /// Adds the counts of `other` to these.
    pub fn add_all(&mut self, other: &CountMap)
        requires
            fits_sum(old(self)@, other@),
        ensures
            final(self)@ == sum_counts(old(self)@, other@),
    {
        proof {
            use_type_invariant(other);
        }
        let ghost a = self@;
        let ghost s = entry_views(other.entries@);
        let mut i: usize = 0;
        while i < other.entries.len()
            invariant
                i <= other.entries@.len(),
                s == entry_views(other.entries@),
                keys_distinct(s),
                other@ == map_of(s),
                forall|j: int| 0 <= j < other.entries@.len() ==> #[trigger] other.entries@[j].1 >= 1,
                fits_sum(a, other@),
                self@ == sum_counts(a, map_of(s.take(i as int))),
            decreases other.entries.len() - i,
        {
            let ghost before = self@;
            let ghost prefix = s.take(i as int);
            let ghost k = s[i as int].0;
            proof {
                lemma_map_of_index(s, i as int);
                assert(!map_of(prefix).dom().contains(k)) by {
                    if map_of(prefix).dom().contains(k) {
                        let j = choose|j: int| 0 <= j < prefix.len() && prefix[j].0 == k;
                        assert(s[j].0 == k);
                    }
                }
                assert(keys_distinct(prefix));
                assert(get0(before, k) == get0(a, k));
                assert(get0(a, k) + get0(other@, k) <= i32::MAX);
            }
            self.add(&other.entries[i].0, other.entries[i].1);
            proof {
                assert(s.take(i as int + 1) =~= prefix.push(s[i as int]));
                lemma_map_of_push(prefix, k, s[i as int].1);
                assert(self@ =~= sum_counts(a, map_of(s.take(i as int + 1))));
            }
            i = i + 1;
        }
        proof {
            assert(s.take(other.entries@.len() as int) =~= s);
        }
    }

    /// A copy of the list of entries.
    fn copy_entries(&self) -> (v: Vec<(String, i32)>)
        ensures
            v@ == self.entries@,
    {
        let mut v: Vec<(String, i32)> = Vec::new();
        let mut i: usize = 0;
        while i < self.entries.len()
            invariant
                i <= self.entries@.len(),
                v@ == self.entries@.take(i as int),
            decreases self.entries.len() - i,
        {
            v.push((self.entries[i].0.clone(), self.entries[i].1));
            i = i + 1;
            assert(v@ =~= self.entries@.take(i as int));
        }
        assert(v@ =~= self.entries@);
        v
    }

    /// The entries of the table, each word once with its count, in no
    /// particular order.
    pub fn entries(&self) -> (v: Vec<(String, i32)>)
        ensures
            lists_exactly(entry_views(v@), self@),
            forall|i: int| 0 <= i < v@.len() ==> #[trigger] v@[i].1 >= 1,
    {
        proof {
            use_type_invariant(self);
            lemma_map_of_lists(entry_views(self.entries@));
        }
        self.copy_entries()
    }
}

impl Clone for CountMap {
    fn clone(&self) -> (m: Self)
        ensures
            m@ == self@,
    {
        proof {
            use_type_invariant(self);
        }
        CountMap { entries: self.copy_entries() }
    }
}

} // verus!
