//! Grouping rows by key.

use crate::hash::{xxh3, xxh3_hash};
use crate::rows::{ints, lemma_rows_where, lemma_rows_where_same, rows_where};
use crate::text::bytes_eq;
use std::collections::HashMap;
use vstd::prelude::*;

verus! {

broadcast use vstd::std_specs::hash::group_hash_axioms;

/// Whether no row before `i` has its key.
pub open spec fn is_first<K>(keys: Seq<K>, i: int) -> bool {
    forall|j: int| 0 <= j < i ==> #[trigger] keys[j] != keys[i]
}

/// The rows that are the first with their key.
pub open spec fn first_rows<K>(keys: Seq<K>) -> Seq<int> {
    rows_where(keys.len(), |i: int| is_first(keys, i))
}

/// The rows with a key.
pub open spec fn rows_like<K>(keys: Seq<K>, key: K) -> Seq<int> {
    rows_where(keys.len(), |i: int| keys[i] == key)
}

/// The groups of rows with one key, in the order in which the keys first appear.
pub open spec fn key_groups<K>(keys: Seq<K>) -> Seq<Seq<int>> {
    first_rows(keys).map_values(|f: int| rows_like(keys, keys[f]))
}

/// The groups that row numbers make up.
pub open spec fn int_groups(groups: Seq<Vec<usize>>) -> Seq<Seq<int>> {
    groups.map_values(|g: Vec<usize>| ints(g@))
}

/// The contents of byte vectors.
pub open spec fn codes(rows: Seq<Vec<u8>>) -> Seq<Seq<u8>> {
    rows.map_values(|r: Vec<u8>| r@)
}

/// Every row has a first row with its key.
pub proof fn lemma_has_first<K>(keys: Seq<K>, i: int) -> (f: int)
    requires
        0 <= i < keys.len(),
    ensures
        0 <= f <= i,
        keys[f] == keys[i],
        is_first(keys, f),
        first_rows(keys).contains(f),
    decreases i,
{
    if is_first(keys, i) {
        let p = |i: int| is_first(keys, i);
        lemma_rows_where(keys.len(), p);
        assert(p(i));
        i
    } else {
        let j = choose|j: int| 0 <= j < i && #[trigger] keys[j] == keys[i];
        lemma_has_first(keys, j)
    }
}

/// The rows with a key are exactly those, ascending.
pub proof fn lemma_rows_like<K>(keys: Seq<K>, key: K)
    ensures
        rows_like(keys, key).len() <= keys.len(),
        forall|k: int|
            0 <= k < rows_like(keys, key).len() ==> 0 <= #[trigger] rows_like(keys, key)[k]
                < keys.len() && keys[rows_like(keys, key)[k]] == key,
        forall|i: int|
            0 <= i < keys.len() && #[trigger] keys[i] == key ==> rows_like(keys, key).contains(i),
{
    let p = |i: int| keys[i] == key;
    lemma_rows_where(keys.len(), p);
    assert forall|k: int| 0 <= k < rows_like(keys, key).len() implies 0
        <= #[trigger] rows_like(keys, key)[k] < keys.len() && keys[rows_like(keys, key)[k]]
        == key by {
        assert(p(rows_like(keys, key)[k]));
    }
    assert forall|i: int| 0 <= i < keys.len() && #[trigger] keys[i] == key implies rows_like(
        keys,
        key,
    ).contains(i) by {
        assert(p(i));
    }
}

/// The rows that are first with their key are in range, ascending, and no two have one key.
pub proof fn lemma_first_rows<K>(keys: Seq<K>)
    ensures
        forall|k: int|
            0 <= k < first_rows(keys).len() ==> 0 <= #[trigger] first_rows(keys)[k] < keys.len(),
        forall|a: int, b: int|
            0 <= a < b < first_rows(keys).len() ==> #[trigger] first_rows(keys)[a]
                < #[trigger] first_rows(keys)[b] && keys[first_rows(keys)[a]]
                != keys[first_rows(keys)[b]],
{
    let p = |i: int| is_first(keys, i);
    lemma_rows_where(keys.len(), p);
    let firsts = first_rows(keys);
    assert forall|a: int, b: int| 0 <= a < b < firsts.len() implies #[trigger] firsts[a]
        < #[trigger] firsts[b] && keys[firsts[a]] != keys[firsts[b]] by {
        assert(p(firsts[b]));
    }
}

/// Sequences that tell the same rows apart have the same groups.
pub proof fn lemma_same_groups<A, B>(a: Seq<A>, b: Seq<B>)
    requires
        a.len() == b.len(),
        forall|i: int, j: int|
            0 <= i < a.len() && 0 <= j < a.len() ==> ((#[trigger] a[i] == #[trigger] a[j]) <==> b[i]
                == b[j]),
    ensures
        first_rows(a) == first_rows(b),
        key_groups(a) == key_groups(b),
{
    let p = |i: int| is_first(a, i);
    let q = |i: int| is_first(b, i);
    assert forall|i: int| 0 <= i < a.len() implies #[trigger] p(i) == q(i) by {
        if !is_first(a, i) {
            let j = choose|j: int| 0 <= j < i && #[trigger] a[j] == a[i];
            assert(b[j] == b[i]);
        }
        if !is_first(b, i) {
            let j = choose|j: int| 0 <= j < i && #[trigger] b[j] == b[i];
            assert(a[j] == a[i]);
        }
    }
    lemma_rows_where_same(a.len(), p, q);
    lemma_rows_where(a.len(), p);
    assert forall|k: int| 0 <= k < first_rows(a).len() implies #[trigger] key_groups(a)[k]
        == key_groups(b)[k] by {
        let f = first_rows(a)[k];
        let like_a = |i: int| a[i] == a[f];
        let like_b = |i: int| b[i] == b[f];
        lemma_rows_where_same(a.len(), like_a, like_b);
    }
    assert(key_groups(a) =~= key_groups(b));
}

/// Rows in groups, with an index by hash from keys to groups.
pub struct RowGroups {
    /// The first row of each group.
    pub leaders: Vec<usize>,
    /// The rows of each group.
    pub groups: Vec<Vec<usize>>,
    /// For each hash, the groups whose keys have it.
    pub buckets: HashMap<u64, Vec<usize>>,
}

impl RowGroups {
    /// The groups of the first `n` rows are complete and can be found by the hashes of their
    /// keys.
    pub open spec fn holds(self, keys: Seq<Seq<u8>>, hashes: Seq<u64>, n: nat) -> bool {
        let leaders = self.leaders@;
        let firsts = rows_where(n, |i: int| is_first(keys, i));
        &&& n <= keys.len() == hashes.len()
        &&& ints(leaders) == firsts
        &&& self.groups@.len() == leaders.len()
        &&& forall|g: int|
            0 <= g < leaders.len() ==> ints((#[trigger] self.groups@[g])@) == rows_where(
                n,
                |i: int| keys[i] == keys[leaders[g] as int],
            )
        &&& forall|g: int|
            0 <= g < leaders.len() ==> {
                let h = hashes[(#[trigger] leaders[g]) as int];
                self.buckets@.contains_key(h) && self.buckets@[h]@.contains(g as usize)
            }
        &&& forall|h: u64, k: int|
            self.buckets@.contains_key(h) && 0 <= k < self.buckets@[h]@.len() ==> (
            #[trigger] self.buckets@[h]@[k]) < leaders.len()
    }

    /// The group of a key.
    fn find(
        &self,
        rows: &Vec<Vec<u8>>,
        hash: u64,
        key: &Vec<u8>,
        Ghost(hashes): Ghost<Seq<u64>>,
        Ghost(n): Ghost<nat>,
    ) -> (r: Option<usize>)
        requires
            self.holds(codes(rows@), hashes, n),
            forall|i: int|
                0 <= i < n && #[trigger] codes(rows@)[i] == key@ ==> hashes[i] == hash,
        ensures
            match r {
                Some(g) => g < self.leaders@.len() && codes(rows@)[self.leaders@[g as int] as int]
                    == key@,
                None => forall|i: int| 0 <= i < n ==> #[trigger] codes(rows@)[i] != key@,
            },
    {
        let ghost keys = codes(rows@);
        let ghost p = |i: int| is_first(keys, i);
        proof {
            lemma_rows_where(n, p);
            assert forall|g: int| 0 <= g < self.leaders@.len() implies 0 <= (
            #[trigger] self.leaders@[g]) < n by {
                assert(ints(self.leaders@)[g] == self.leaders@[g]);
            }
            // A key among the rows is that of a leader, which its bucket holds.
            assert forall|i: int| 0 <= i < n && #[trigger] keys[i] == key@ implies exists|g: int|
                0 <= g < self.leaders@.len() && #[trigger] keys[self.leaders@[g] as int] == key@
                    && self.buckets@.contains_key(hash) && self.buckets@[hash]@.contains(
                    g as usize,
                ) by {
                let f = lemma_has_first(keys, i);
                assert(p(f));
                assert(ints(self.leaders@).contains(f));
                let g = choose|g: int| 0 <= g < self.leaders@.len() && ints(self.leaders@)[g] == f;
                assert(self.leaders@[g] == f);
                assert(keys[f] == key@);
            }
        }
        match self.buckets.get(&hash) {
            Some(bucket) => {
                let mut k: usize = 0;
                while k < bucket.len()
                    invariant
                        k <= bucket@.len(),
                        keys == codes(rows@),
                        n <= keys.len(),
                        self.buckets@.contains_key(hash),
                        *bucket == self.buckets@[hash],
                        forall|h: u64, k: int|
                            self.buckets@.contains_key(h) && 0 <= k < self.buckets@[h]@.len() ==> (
                            #[trigger] self.buckets@[h]@[k]) < self.leaders@.len(),
                        forall|g: int|
                            0 <= g < self.leaders@.len() ==> 0 <= (#[trigger] self.leaders@[g])
                                < n,
                        forall|j: int|
                            0 <= j < k ==> keys[self.leaders@[#[trigger] bucket@[j] as int] as int]
                                != key@,
                    decreases bucket@.len() - k,
                {
                    let g = bucket[k];
                    assert(self.buckets@[hash]@[k as int] < self.leaders@.len());
                    let leader = self.leaders[g];
                    if bytes_eq(rows[leader].as_slice(), key.as_slice()) {
                        return Some(g);
                    }
                    k += 1;
                }
                proof {
                    assert forall|i: int| 0 <= i < n implies #[trigger] keys[i] != key@ by {
                        if keys[i] == key@ {
                            let g = choose|g: int|
                                0 <= g < self.leaders@.len() && #[trigger] keys[self.leaders@[g] as int]
                                    == key@ && self.buckets@[hash]@.contains(g as usize);
                            let j = choose|j: int|
                                0 <= j < bucket@.len() && bucket@[j] == g as usize;
                            assert(g <= self.leaders.len());
                            assert(keys[self.leaders@[bucket@[j] as int] as int] != key@);
                        }
                    }
                }
                None
            },
            None => None,
        }
    }

    /// Groups rows by their keys. Rows with one key have one hash.
    pub(crate) fn build(rows: &Vec<Vec<u8>>, hashes: &Vec<u64>) -> (r: RowGroups)
        requires
            rows@.len() == hashes@.len(),
            forall|i: int, j: int|
                0 <= i < rows@.len() && 0 <= j < rows@.len() && #[trigger] codes(rows@)[i]
                    == #[trigger] codes(rows@)[j] ==> hashes@[i] == hashes@[j],
        ensures
            r.holds(codes(rows@), hashes@, rows@.len()),
    {
        let ghost keys = codes(rows@);
        let ghost p = |i: int| is_first(keys, i);
        let mut r = RowGroups {
            leaders: Vec::new(),
            groups: Vec::new(),
            buckets: HashMap::new(),
        };
        let mut n: usize = 0;
        assert(ints(r.leaders@) =~= rows_where(0, p));
        while n < rows.len()
            invariant
                n <= rows@.len() == hashes@.len(),
                keys == codes(rows@),
                p == (|i: int| is_first(keys, i)),
                r.holds(keys, hashes@, n as nat),
                forall|i: int, j: int|
                    0 <= i < rows@.len() && 0 <= j < rows@.len() && #[trigger] keys[i]
                        == #[trigger] keys[j] ==> hashes@[i] == hashes@[j],
            decreases rows@.len() - n,
        {
            let hash = hashes[n];
            assert(keys[n as int] == rows@[n as int]@);
            let ghost before = r;
            let ghost leaders = r.leaders@;
            proof {
                lemma_rows_where(n as nat, p);
                assert forall|g: int| 0 <= g < leaders.len() implies 0 <= (#[trigger] leaders[g])
                    < n && is_first(keys, leaders[g] as int) by {
                    assert(ints(leaders)[g] == leaders[g]);
                    assert(p(leaders[g] as int));
                }
            }
            match r.find(rows, hash, &rows[n], Ghost(hashes@), Ghost(n as nat)) {
                Some(g) => {
                    let ghost leader = leaders[g as int] as int;
                    assert(!p(n as int)) by {
                        assert(keys[leader] == keys[n as int]);
                    }
                    r.groups[g].push(n);
                    proof {
                        assert forall|h: int| 0 <= h < leaders.len() implies ints(
                            (#[trigger] r.groups@[h])@,
                        ) == rows_where(
                            (n + 1) as nat,
                            |i: int| keys[i] == keys[leaders[h] as int],
                        ) by {
                            let like = |i: int| keys[i] == keys[leaders[h] as int];
                            if h == g {
                                assert(like(n as int));
                                assert(ints(r.groups@[h]@) =~= ints(before.groups@[h]@).push(
                                    n as int,
                                ));
                            } else {
                                assert(r.groups@[h] == before.groups@[h]);
                                if like(n as int) {
                                    let other = leaders[h] as int;
                                    assert(keys[leader] == keys[other]);
                                    assert(ints(leaders)[h] != ints(leaders)[g as int]);
                                }
                            }
                        }
                    }
                },
                None => {
                    assert(p(n as int)) by {
                        assert forall|j: int| 0 <= j < n implies #[trigger] keys[j]
                            != keys[n as int] by {
                            assert(codes(rows@)[j] != rows@[n as int]@);
                        }
                    }
                    let g = r.leaders.len();
                    let mut group: Vec<usize> = Vec::new();
                    group.push(n);
                    r.leaders.push(n);
                    r.groups.push(group);
                    let mut bucket = match r.buckets.remove(&hash) {
                        Some(b) => b,
                        None => Vec::new(),
                    };
                    let ghost old_bucket = bucket@;
                    bucket.push(g);
                    let ghost new_bucket = bucket@;
                    r.buckets.insert(hash, bucket);
                    proof {
                        let firsts = rows_where((n + 1) as nat, p);
                        assert(ints(r.leaders@) =~= firsts);
                        assert(new_bucket[new_bucket.len() - 1] == g);
                        assert forall|h: int| 0 <= h < r.leaders@.len() implies ints(
                            (#[trigger] r.groups@[h])@,
                        ) == rows_where(
                            (n + 1) as nat,
                            |i: int| keys[i] == keys[r.leaders@[h] as int],
                        ) by {
                            let like = |i: int| keys[i] == keys[r.leaders@[h] as int];
                            if h == g {
                                assert(like(n as int));
                                lemma_rows_where(n as nat, like);
                                assert(rows_where(n as nat, like) =~= Seq::empty()) by {
                                    if rows_where(n as nat, like).len() > 0 {
                                        let j = rows_where(n as nat, like)[0];
                                        assert(like(j));
                                        assert(keys[j] != keys[n as int]);
                                    }
                                }
                                assert(ints(r.groups@[h]@) =~= seq![n as int]);
                            } else {
                                assert(r.groups@[h] == before.groups@[h]);
                                assert(!like(n as int));
                            }
                        }
                        assert forall|h: int| 0 <= h < r.leaders@.len() implies ({
                            let x = hashes@[(#[trigger] r.leaders@[h]) as int];
                            r.buckets@.contains_key(x) && r.buckets@[x]@.contains(h as usize)
                        }) by {
                            let x = hashes@[r.leaders@[h] as int];
                            if h == g {
                                assert(r.buckets@[x]@[new_bucket.len() - 1] == g);
                            } else {
                                assert(before.leaders@[h] == r.leaders@[h]);
                                assert(before.buckets@[x]@.contains(h as usize));
                                let k = choose|k: int|
                                    0 <= k < before.buckets@[x]@.len() && before.buckets@[x]@[k]
                                        == h as usize;
                                assert(r.buckets@[x]@[k] == h as usize);
                            }
                        }
                        assert forall|h: u64, k: int|
                            r.buckets@.contains_key(h) && 0 <= k < r.buckets@[h]@.len() implies (
                        #[trigger] r.buckets@[h]@[k]) < r.leaders@.len() by {
                            if h == hash {
                                if k < old_bucket.len() {
                                    assert(before.buckets@[h]@[k] < leaders.len());
                                }
                            } else {
                                assert(before.buckets@[h]@[k] < leaders.len());
                            }
                        }
                    }
                },
            }
            n += 1;
        }
        r
    }

    /// Groups rows by their keys.
    pub(crate) fn of_codes(rows: &Vec<Vec<u8>>) -> (r: RowGroups)
        ensures
            r.holds(codes(rows@), code_hashes(codes(rows@)), rows@.len()),
    {
        let mut hashes: Vec<u64> = Vec::new();
        let mut i: usize = 0;
        while i < rows.len()
            invariant
                i <= rows@.len(),
                hashes@.len() == i,
                forall|j: int| 0 <= j < i ==> #[trigger] hashes@[j] == xxh3(0, rows@[j]@),
            decreases rows@.len() - i,
        {
            hashes.push(xxh3_hash(0, rows[i].as_slice()));
            i += 1;
        }
        assert(hashes@ =~= code_hashes(codes(rows@)));
        RowGroups::build(rows, &hashes)
    }

    /// The group of a key, in groups made by [`RowGroups::of_codes`].
    pub(crate) fn find_code(&self, rows: &Vec<Vec<u8>>, key: &Vec<u8>) -> (r: Option<usize>)
        requires
            self.holds(codes(rows@), code_hashes(codes(rows@)), rows@.len()),
        ensures
            match r {
                Some(g) => g < self.leaders@.len() && codes(rows@)[self.leaders@[g as int] as int]
                    == key@,
                None => forall|i: int|
                    0 <= i < rows@.len() ==> #[trigger] codes(rows@)[i] != key@,
            },
    {
        self.find(
            rows,
            xxh3_hash(0, key.as_slice()),
            key,
            Ghost(code_hashes(codes(rows@))),
            Ghost(rows@.len()),
        )
    }
}

/// The hashes by which keys are indexed.
pub open spec fn code_hashes(keys: Seq<Seq<u8>>) -> Seq<u64> {
    keys.map_values(|k: Seq<u8>| xxh3(0, k))
}

} // verus!
