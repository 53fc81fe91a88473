use vstd::prelude::*;

verus! {

/// A frequency table: occurrence counts keyed by string value, keys
/// unique, each recorded count at least one, order of entries
/// irrelevant.
pub struct FrequencyTable {
    pub entries: Vec<(String, usize)>,
}

/// One line of a ranking: a value with its occurrence count.
pub struct RankedEntry {
    pub value: String,
    pub count: usize,
}

/// The count recorded for `key` by `entries`: the sum of the counts of
/// the entries whose key is `key`, zero if there is none.
pub open spec fn seq_count(entries: Seq<(String, usize)>, key: Seq<char>) -> int
    decreases entries.len(),
{
    if entries.len() == 0 {
        0
    } else if entries.last().0@ == key {
        entries.last().1 + seq_count(entries.drop_last(), key)
    } else {
        seq_count(entries.drop_last(), key)
    }
}

/// The sum of all counts recorded by `entries`.
pub open spec fn seq_total(entries: Seq<(String, usize)>) -> int
    decreases entries.len(),
{
    if entries.len() == 0 {
        0
    } else {
        entries.last().1 + seq_total(entries.drop_last())
    }
}

/// Counts are non-increasing along the sequence.
pub open spec fn sorted_desc(s: Seq<(String, usize)>) -> bool {
    forall|i: int, j: int| 0 <= i <= j < s.len() ==> (#[trigger] s[i]).1 >= (#[trigger] s[j]).1
}

/// Entries as plain values: the key's characters with the count.
pub open spec fn entry_views(s: Seq<(String, usize)>) -> Seq<(Seq<char>, int)> {
    s.map_values(|e: (String, usize)| (e.0@, e.1 as int))
}

/// Ranked entries as plain values: the value's characters with the
/// count.
pub open spec fn ranked_views(s: Seq<RankedEntry>) -> Seq<(Seq<char>, int)> {
    s.map_values(|e: RankedEntry| (e.value@, e.count as int))
}

/// How many entries a ranking keeps out of `total_keys` when `top` is
/// requested: all of them when `top` is zero, at most `top` otherwise.
pub open spec fn ranked_len(total_keys: int, top: int) -> int {
    if top == 0 || top > total_keys {
        total_keys
    } else {
        top
    }
}

proof fn lemma_seq_count_nonneg(entries: Seq<(String, usize)>, key: Seq<char>)
    ensures
        seq_count(entries, key) >= 0,
    decreases entries.len(),
{
    if entries.len() > 0 {
        lemma_seq_count_nonneg(entries.drop_last(), key);
    }
}

proof fn lemma_seq_total_nonneg(entries: Seq<(String, usize)>)
    ensures
        seq_total(entries) >= 0,
    decreases entries.len(),
{
    if entries.len() > 0 {
        lemma_seq_total_nonneg(entries.drop_last());
    }
}

proof fn lemma_entry_le_total(entries: Seq<(String, usize)>, i: int)
    requires
        0 <= i < entries.len(),
    ensures
        entries[i].1 <= seq_total(entries),
    decreases entries.len(),
{
    lemma_seq_total_nonneg(entries.drop_last());
    if i < entries.len() - 1 {
        lemma_entry_le_total(entries.drop_last(), i);
    }
}

proof fn lemma_seq_count_absent(entries: Seq<(String, usize)>, key: Seq<char>)
    requires
        forall|j: int| 0 <= j < entries.len() ==> (#[trigger] entries[j]).0@ != key,
    ensures
        seq_count(entries, key) == 0,
    decreases entries.len(),
{
    if entries.len() > 0 {
        lemma_seq_count_absent(entries.drop_last(), key);
    }
}

proof fn lemma_seq_count_ge_entry(entries: Seq<(String, usize)>, i: int)
    requires
        0 <= i < entries.len(),
    ensures
        seq_count(entries, entries[i].0@) >= entries[i].1,
    decreases entries.len(),
{
    lemma_seq_count_nonneg(entries.drop_last(), entries[i].0@);
    if i < entries.len() - 1 {
        lemma_seq_count_ge_entry(entries.drop_last(), i);
    }
}

proof fn lemma_seq_count_update(
    entries: Seq<(String, usize)>,
    i: int,
    e: (String, usize),
    key: Seq<char>,
)
    requires
        0 <= i < entries.len(),
    ensures
        seq_count(entries.update(i, e), key) == seq_count(entries, key) - (if entries[i].0@
            == key {
            entries[i].1 as int
        } else {
            0int
        }) + (if e.0@ == key {
            e.1 as int
        } else {
            0int
        }),
    decreases entries.len(),
{
    let u = entries.update(i, e);
    if i == entries.len() - 1 {
        assert(u.drop_last() =~= entries.drop_last());
        assert(u.last() == e);
    } else {
        assert(u.drop_last() =~= entries.drop_last().update(i, e));
        assert(u.last() == entries.last());
        lemma_seq_count_update(entries.drop_last(), i, e, key);
    }
}

proof fn lemma_seq_total_update(entries: Seq<(String, usize)>, i: int, e: (String, usize))
    requires
        0 <= i < entries.len(),
    ensures
        seq_total(entries.update(i, e)) == seq_total(entries) - entries[i].1 + e.1,
    decreases entries.len(),
{
    let u = entries.update(i, e);
    if i == entries.len() - 1 {
        assert(u.drop_last() =~= entries.drop_last());
        assert(u.last() == e);
    } else {
        assert(u.drop_last() =~= entries.drop_last().update(i, e));
        assert(u.last() == entries.last());
        lemma_seq_total_update(entries.drop_last(), i, e);
    }
}

/// The table records exactly the occurrences in `keys`: each value's
/// count, the total, and the set of distinct values.
pub open spec fn table_matches(t: FrequencyTable, keys: Seq<Seq<char>>) -> bool {
    &&& t.wf()
    &&& forall|k: Seq<char>| t.count_of(k) == keys.to_multiset().count(k)
    &&& t.total() == keys.len()
    &&& t.keys().to_set() == keys.to_set()
}

/// A table with no entries records an empty key sequence.
pub proof fn lemma_matches_empty(t: FrequencyTable, keys: Seq<Seq<char>>)
    requires
        t.num_keys() == 0,
        keys.len() == 0,
    ensures
        table_matches(t, keys),
{
    broadcast use vstd::multiset::group_multiset_axioms;

    assert forall|k: Seq<char>| t.count_of(k) == keys.to_multiset().count(k) by {
        vstd::seq_lib::to_multiset_contains(keys, k);
        assert(!keys.contains(k));
    }
    assert(t.keys().to_set() =~= keys.to_set());
}

/// Recording one more occurrence of `x` in a table that matched `keys`
/// yields a table that matches `keys.push(x)`.
pub proof fn lemma_matches_push(
    t0: FrequencyTable,
    t1: FrequencyTable,
    keys: Seq<Seq<char>>,
    x: Seq<char>,
)
    requires
        table_matches(t0, keys),
        t1.wf(),
        t1.count_of(x) == t0.count_of(x) + 1,
        forall|k: Seq<char>| k != x ==> t1.count_of(k) == t0.count_of(k),
        t1.total() == t0.total() + 1,
        t1.keys().to_set() == t0.keys().to_set().insert(x),
    ensures
        table_matches(t1, keys.push(x)),
{
    broadcast use vstd::multiset::group_multiset_axioms;
    broadcast use vstd::seq_lib::group_seq_properties;

    vstd::seq_lib::to_multiset_build(keys, x);
    assert(keys.push(x).to_set() =~= keys.to_set().insert(x));
}

fn sort_desc(list: &mut Vec<(String, usize)>)
    ensures
        final(list)@.len() == old(list)@.len(),
        final(list)@.to_multiset() == old(list)@.to_multiset(),
        sorted_desc(final(list)@),
{
    broadcast use vstd::seq_lib::group_seq_properties;
    broadcast use vstd::multiset::group_multiset_axioms;
    broadcast use vstd::seq_lib::to_multiset_remove;
    broadcast use vstd::seq_lib::to_multiset_insert;
    broadcast use vstd::seq_lib::to_multiset_contains;

    let ghost orig = list@;
    let n = list.len();
    if n <= 1 {
        return ;
    }
    let mut idx: usize = 1;
    while idx < n
        invariant
            1 <= idx <= n,
            n == list@.len(),
            list@.to_multiset() == orig.to_multiset(),
            sorted_desc(list@.take(idx as int)),
        decreases n - idx,
    {
        let ghost prev = list@;
        let e = list.remove(idx);
        let ghost rem = list@;
        proof {
            prev.remove_ensures(idx as int);
            assert(prev.contains(prev[idx as int]));
            assert(rem.take(idx as int) =~= prev.take(idx as int));
        }
        let mut j: usize = 0;
        while j < idx && list[j].1 >= e.1
            invariant
                j <= idx,
                idx < n,
                n - 1 == list@.len(),
                n == prev.len(),
                list@ == rem,
                e == prev[idx as int],
                forall|t: int| 0 <= t < j ==> (#[trigger] rem[t]).1 >= e.1,
            decreases idx - j,
        {
            j = j + 1;
        }
        list.insert(j, e);
        proof {
            rem.insert_ensures(j as int, e);
            vstd::seq_lib::to_multiset_insert(rem, j as int, e);
            vstd::seq_lib::to_multiset_remove(prev, idx as int);
            vstd::seq_lib::to_multiset_contains(prev, prev[idx as int]);
            assert(prev.to_multiset().count(prev[idx as int]) > 0);
            assert(list@.to_multiset() =~= prev.to_multiset());
            let s1 = list@.take(idx as int + 1);
            assert forall|a: int, b: int| 0 <= a <= b < s1.len() implies (#[trigger] s1[a]).1
                >= (#[trigger] s1[b]).1 by {
                assert(forall|t: int| 0 <= t < j ==> s1[t] == rem[t]);
                assert(s1[j as int] == e);
                assert(forall|t: int| j < t <= idx ==> s1[t] == rem[t - 1]);
                assert(sorted_desc(rem.take(idx as int)));
                assert(forall|t: int| 0 <= t < idx ==> rem.take(idx as int)[t] == rem[t]);
                if b > j {
                    assert(rem[b - 1].1 < e.1);
                }
            }
            assert(sorted_desc(s1));
        }
        idx = idx + 1;
    }
    proof {
        assert(list@.take(n as int) =~= list@);
    }
}

impl FrequencyTable {
    /// The keys on record, as character sequences, in entry order.
    pub open spec fn keys(self) -> Seq<Seq<char>> {
        self.entries@.map_values(|e: (String, usize)| e.0@)
    }

    /// Keys unique and every recorded count at least one.
    pub open spec fn wf(self) -> bool {
        &&& self.keys().no_duplicates()
        &&& forall|i: int| 0 <= i < self.entries@.len() ==> (#[trigger] self.entries@[i]).1 >= 1
    }

    /// The occurrence count recorded for `key`; zero if absent.
    pub open spec fn count_of(self, key: Seq<char>) -> int {
        seq_count(self.entries@, key)
    }

    /// The sum of all recorded counts.
    pub open spec fn total(self) -> int {
        seq_total(self.entries@)
    }

    /// The number of distinct keys on record.
    pub open spec fn num_keys(self) -> int {
        self.entries@.len() as int
    }

    /// An empty table: no keys, no counts.
    pub fn new() -> (t: FrequencyTable)
        ensures
            t.wf(),
            t.num_keys() == 0,
            t.total() == 0,
            forall|k: Seq<char>| t.count_of(k) == 0,
    {
        let t = FrequencyTable { entries: Vec::new() };
        proof {
            assert(forall|k: Seq<char>| seq_count(t.entries@, k) == 0);
        }
        t
    }

    /// The number of distinct keys on record.
    pub fn len(&self) -> (n: usize)
        ensures
            n == self.num_keys(),
    {
        self.entries.len()
    }

    /// Record one more occurrence of `key`: its count grows by one, all
    /// other counts stay, and the key joins the table if it was absent.
    pub fn bump(&mut self, key: String)
        requires
            old(self).wf(),
            old(self).total() < usize::MAX,
        ensures
            final(self).wf(),
            final(self).count_of(key@) == old(self).count_of(key@) + 1,
            forall|k: Seq<char>| k != key@ ==> final(self).count_of(k) == old(self).count_of(k),
            final(self).total() == old(self).total() + 1,
            final(self).keys().to_set() == old(self).keys().to_set().insert(key@),
            old(self).count_of(key@) > 0 ==> final(self).num_keys() == old(self).num_keys(),
            old(self).count_of(key@) == 0 ==> final(self).num_keys() == old(self).num_keys() + 1,
    {
        broadcast use vstd::seq_lib::group_seq_properties;

        let n = self.entries.len();
        let mut found: usize = n;
        let mut i: usize = 0;
        while i < n
            invariant
                i <= n,
                n == self.entries@.len(),
                *self == *old(self),
                found == n || (found < i && self.entries@[found as int].0@ == key@),
                found == n ==> forall|j: int|
                    0 <= j < i ==> (#[trigger] self.entries@[j]).0@ != key@,
            decreases n - i,
        {
            if found == n && self.entries[i].0.eq(&key) {
                found = i;
            }
            i = i + 1;
        }
        if found < n {
            let c = self.entries[found].1;
            proof {
                lemma_entry_le_total(self.entries@, found as int);
            }
            let ghost prev = self.entries@;
            let ghost e = (key, (c + 1) as usize);
            self.entries[found] = (key, c + 1);
            proof {
                assert(self.entries@ == prev.update(found as int, e));
                lemma_seq_count_update(prev, found as int, e, key@);
                assert forall|k: Seq<char>| k != key@ implies seq_count(self.entries@, k)
                    == seq_count(prev, k) by {
                    lemma_seq_count_update(prev, found as int, e, k);
                }
                lemma_seq_total_update(prev, found as int, e);
                lemma_seq_count_ge_entry(prev, found as int);
                assert(final(self).keys() =~= old(self).keys());
                assert(old(self).keys().contains(key@)) by {
                    assert(old(self).keys()[found as int] == key@);
                }
                assert(final(self).keys().to_set() =~= old(self).keys().to_set().insert(key@));
            }
        } else {
            let ghost prev = self.entries@;
            self.entries.push((key, 1));
            proof {
                let u = self.entries@;
                assert(u.drop_last() =~= prev);
                assert(u.last().0@ == key@ && u.last().1 == 1);
                lemma_seq_count_absent(prev, key@);
                assert(seq_count(u, key@) == 1);
                assert forall|k: Seq<char>| k != key@ implies seq_count(u, k) == seq_count(
                    prev,
                    k,
                ) by {}
                assert(final(self).keys() =~= old(self).keys().push(key@));
                assert(!old(self).keys().contains(key@)) by {
                    if old(self).keys().contains(key@) {
                        let j = choose|j: int|
                            0 <= j < old(self).keys().len() && old(self).keys()[j] == key@;
                        assert(old(self).entries@[j].0@ == key@);
                    }
                }
                assert(final(self).keys().no_duplicates());
                assert(final(self).keys().to_set() =~= old(self).keys().to_set().insert(key@));
            }
        }
    }

    /// The table's entries ranked by count, largest first; when `top`
    /// is not zero, only the first `top` entries of the ranking are
    /// kept. The order among entries of equal count is arbitrary.
    pub fn ranked(&self, top: usize) -> (r: Vec<RankedEntry>)
        ensures
            r@.len() == ranked_len(self.num_keys(), top as int),
            forall|i: int, j: int|
                0 <= i <= j < r@.len() ==> (#[trigger] r@[i]).count >= (#[trigger] r@[j]).count,
            exists|ss: Seq<(String, usize)>|
                #![trigger sorted_desc(ss)]
                {
                    &&& ss.to_multiset() == self.entries@.to_multiset()
                    &&& sorted_desc(ss)
                    &&& ranked_views(r@) == entry_views(ss).take(r@.len() as int)
                },
    {
        let n = self.entries.len();
        let mut list: Vec<(String, usize)> = Vec::new();
        let mut i: usize = 0;
        proof {
            assert(list@ =~= self.entries@.take(0));
        }
        while i < n
            invariant
                i <= n,
                n == self.entries@.len(),
                list@ == self.entries@.take(i as int),
            decreases n - i,
        {
            let s = self.entries[i].0.clone();
            let c = self.entries[i].1;
            list.push((s, c));
            proof {
                let ghost ei = self.entries@[i as int];
                assert((ei.0, ei.1) == ei);
                assert(list@ =~= self.entries@.take(i as int + 1));
            }
            i = i + 1;
        }
        proof {
            assert(self.entries@.take(n as int) =~= self.entries@);
        }
        sort_desc(&mut list);
        let k = if top == 0 {
            list.len()
        } else if top > list.len() {
            list.len()
        } else {
            top
        };
        let ghost ss = list@;
        list.truncate(k);
        proof {
            assert(list@ =~= ss.take(k as int));
        }
        let mut r: Vec<RankedEntry> = Vec::new();
        let mut t: usize = 0;
        while t < k
            invariant
                t <= k,
                k == list@.len(),
                list@ == ss.take(k as int),
                k <= ss.len(),
                r@.len() == t,
                forall|u: int|
                    0 <= u < t ==> (#[trigger] r@[u]).value@ == list@[u].0@ && r@[u].count
                        == list@[u].1,
            decreases k - t,
        {
            let v = list[t].0.clone();
            let c = list[t].1;
            r.push(RankedEntry { value: v, count: c });
            t = t + 1;
        }
        proof {
            assert(ss.to_multiset() == self.entries@.to_multiset());
            assert(sorted_desc(ss));
            assert(ranked_views(r@) =~= entry_views(ss).take(k as int));
            assert(forall|u: int| 0 <= u < k ==> (#[trigger] r@[u]).count == ss[u].1);
        }
        r
    }
}

} // verus!
