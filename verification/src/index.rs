use vstd::prelude::*;

verus! {

/// The positions of `keys` that hold exactly the key `k`, in increasing
/// order: the result of scanning `keys` once from the front and appending
/// each matching position to the list. Duplicate occurrences of a key in
/// `keys` yield duplicate positions here, never deduplicated or sorted
/// after the fact.
pub open spec fn key_positions(keys: Seq<Seq<char>>, k: Seq<char>) -> Seq<int>
    decreases keys.len(),
{
    if keys.len() == 0 {
        Seq::empty()
    } else if keys.last() == k {
        key_positions(keys.drop_last(), k).push(keys.len() - 1)
    } else {
        key_positions(keys.drop_last(), k)
    }
}

/// How many entries of `keys` hold exactly the key `k`.
pub open spec fn count_matches(keys: Seq<Seq<char>>, k: Seq<char>) -> int
    decreases keys.len(),
{
    if keys.len() == 0 {
        0
    } else {
        count_matches(keys.drop_last(), k) + (if keys.last() == k { 1int } else { 0int })
    }
}

/// Everything a caller needs of `key_positions`: each listed position is
/// in bounds and holds the key, the list is strictly increasing (so no
/// position appears twice), every position that holds the key is listed,
/// and the list's length is the number of matching entries.
pub proof fn lemma_key_positions_props(keys: Seq<Seq<char>>, k: Seq<char>)
    ensures
        forall|n: int| 0 <= n < key_positions(keys, k).len() ==> {
            let p = #[trigger] key_positions(keys, k)[n];
            0 <= p < keys.len() && keys[p] == k
        },
        forall|a: int, b: int| 0 <= a < b < key_positions(keys, k).len() ==>
            #[trigger] key_positions(keys, k)[a] < #[trigger] key_positions(keys, k)[b],
        forall|p: int| 0 <= p < keys.len() && keys[p] == k ==>
            key_positions(keys, k).contains(p),
        key_positions(keys, k).len() == count_matches(keys, k),
    decreases keys.len(),
{
    if keys.len() == 0 {
    } else {
        let prev = keys.drop_last();
        lemma_key_positions_props(prev, k);
        let ps = key_positions(keys, k);
        let psp = key_positions(prev, k);
        assert forall|p: int| 0 <= p < keys.len() && keys[p] == k implies ps.contains(p) by {
            if p < keys.len() - 1 {
                assert(prev[p] == k);
                assert(psp.contains(p));
                let n = choose|n: int| 0 <= n < psp.len() && psp[n] == p;
                assert(ps[n] == p);
            } else {
                assert(keys.last() == k);
                assert(ps.last() == p);
            }
        }
    }
}

/// Scanning one more entry extends each key's position list by exactly
/// that entry's position, and no other key's list.
pub proof fn lemma_key_positions_take_step(keys: Seq<Seq<char>>, k: Seq<char>, i: int)
    requires
        0 <= i < keys.len(),
    ensures
        key_positions(keys.take(i + 1), k) == if keys[i] == k {
            key_positions(keys.take(i), k).push(i)
        } else {
            key_positions(keys.take(i), k)
        },
        count_matches(keys.take(i + 1), k) == count_matches(keys.take(i), k)
            + (if keys[i] == k { 1int } else { 0int }),
{
    assert(keys.take(i + 1).drop_last() =~= keys.take(i));
    assert(keys.take(i + 1).last() == keys[i]);
}

/// One bucket of an index: a key together with every position of the
/// indexed table whose key equals it, in source order.
#[derive(Debug, PartialEq, Eq)]
pub struct Bucket {
    pub key: String,
    pub positions: Vec<usize>,
}

/// A one-to-many mapping from string keys to ordered lists of positions
/// in an indexed table. Built once by a single pass over the table's key
/// column and read-only afterwards.
#[derive(Debug, PartialEq, Eq)]
pub struct Index {
    pub buckets: Vec<Bucket>,
}

/// The key column of a table of key strings, as character sequences.
pub open spec fn key_views(keys: Seq<String>) -> Seq<Seq<char>> {
    keys.map_values(|s: String| s@)
}

impl Index {
    /// Whether some bucket carries the key `k`.
    pub open spec fn contains_key(&self, k: Seq<char>) -> bool {
        exists|i: int| 0 <= i < self.buckets@.len() && (#[trigger] self.buckets@[i]).key@ == k
    }

    /// No two buckets carry the same key.
    pub open spec fn keys_distinct(&self) -> bool {
        forall|i: int, j: int| 0 <= i < j < self.buckets@.len() ==>
            (#[trigger] self.buckets@[i]).key@ != (#[trigger] self.buckets@[j]).key@
    }

    /// The positions recorded for `k`: those of its bucket, or the empty
    /// sequence where no bucket carries `k`.
    pub open spec fn positions_of(&self, k: Seq<char>) -> Seq<int> {
        if self.contains_key(k) {
            let i = choose|i: int| 0 <= i < self.buckets@.len()
                && (#[trigger] self.buckets@[i]).key@ == k;
            self.buckets@[i].positions@.map_values(|p: usize| p as int)
        } else {
            Seq::empty()
        }
    }

    /// The index faithfully represents the key column `keys`: bucket keys
    /// are pairwise distinct, each bucket lists exactly the positions of
    /// its key, and every key that occurs in the column has a bucket.
    pub open spec fn wf(&self, keys: Seq<Seq<char>>) -> bool {
        &&& self.keys_distinct()
        &&& forall|i: int| 0 <= i < self.buckets@.len() ==>
                (#[trigger] self.buckets@[i]).positions@.map_values(|p: usize| p as int)
                    == key_positions(keys, self.buckets@[i].key@)
        &&& forall|p: int| 0 <= p < keys.len() ==> self.contains_key(#[trigger] keys[p])
    }

    /// In a well-formed index the recorded positions of every key — also
    /// of one that no bucket carries — are exactly `key_positions`.
    pub proof fn lemma_wf_positions(&self, keys: Seq<Seq<char>>, k: Seq<char>)
        requires
            self.wf(keys),
        ensures
            self.positions_of(k) == key_positions(keys, k),
    {
        if self.contains_key(k) {
            let i = choose|i: int| 0 <= i < self.buckets@.len()
                && (#[trigger] self.buckets@[i]).key@ == k;
            assert(self.buckets@[i].positions@.map_values(|p: usize| p as int)
                == key_positions(keys, self.buckets@[i].key@));
        } else {
            lemma_key_positions_props(keys, k);
            if key_positions(keys, k).len() > 0 {
                let p = key_positions(keys, k)[0];
                assert(keys[p] == k);
                assert(self.contains_key(keys[p]));
            }
            assert(key_positions(keys, k) =~= Seq::empty());
        }
    }

    /// Look up a key: its bucket's positions where the key is present,
    /// `None` where it is absent.
    pub fn get(&self, k: &String) -> (r: Option<&Vec<usize>>)
        requires
            self.keys_distinct(),
        ensures
            match r {
                Some(ps) => self.contains_key(k@)
                    && ps@.map_values(|p: usize| p as int) == self.positions_of(k@),
                None => !self.contains_key(k@),
            },
    {
        let n = self.buckets.len();
        for i in 0..n
            invariant
                n == self.buckets@.len(),
                self.keys_distinct(),
                forall|j: int| 0 <= j < i ==> (#[trigger] self.buckets@[j]).key@ != k@,
        {
            if self.buckets[i].key == *k {
                proof {
                    assert(self.contains_key(k@));
                    let w = choose|w: int| 0 <= w < self.buckets@.len()
                        && (#[trigger] self.buckets@[w]).key@ == k@;
                    assert(w == i) by {
                        if w < i {
                            assert(self.buckets@[w].key@ != self.buckets@[i as int].key@);
                        } else if i < w {
                            assert(self.buckets@[i as int].key@ != self.buckets@[w].key@);
                        }
                    }
                }
                return Some(&self.buckets[i].positions);
            }
        }
        None
    }

    /// Build the index over the key column `keys` in one pass from the
    /// front, appending each position to its key's bucket and opening a
    /// new bucket at a key's first occurrence.
    pub fn build(keys: &Vec<String>) -> (r: Index)
        ensures
            r.wf(key_views(keys@)),
    {
        let mut r = Index { buckets: Vec::new() };
        let n = keys.len();
        assert(key_views(keys@).take(0) =~= Seq::empty());
        for p in 0..n
            invariant
                n == keys@.len(),
                r.wf(key_views(keys@).take(p as int)),
        {
            let ghost kv = key_views(keys@);
            let ghost pre = r;
            let m = r.buckets.len();
            let mut b: usize = 0;
            let mut found: bool = false;
            while !found && b < m
                invariant
                    m == r.buckets@.len(),
                    n == keys@.len(),
                    p < n,
                    b <= m,
                    !found ==> forall|j: int| 0 <= j < b ==>
                        (#[trigger] r.buckets@[j]).key@ != keys@[p as int]@,
                    found ==> b < m && r.buckets@[b as int].key@ == keys@[p as int]@,
                    r == pre,
                decreases m - b + (if found { 0int } else { 1int }),
            {
                if r.buckets[b].key == keys[p] {
                    found = true;
                } else {
                    b = b + 1;
                }
            }
            proof {
                lemma_key_positions_take_step(kv, kv[p as int], p as int);
                assert forall|k2: Seq<char>| k2 != kv[p as int] implies
                    key_positions(kv.take(p + 1), k2) == key_positions(kv.take(p as int), k2) by {
                    lemma_key_positions_take_step(kv, k2, p as int);
                }
            }
            if found {
                let ghost oldpos = r.buckets@[b as int].positions@;
                r.buckets[b].positions.push(p);
                proof {
                    assert(r.buckets@[b as int].positions@ =~= oldpos.push(p));
                    assert(r.buckets@[b as int].positions@.map_values(|q: usize| q as int)
                        =~= oldpos.map_values(|q: usize| q as int).push(p as int));
                    assert(r.buckets@ =~= pre.buckets@.update(b as int,
                        Bucket { key: pre.buckets@[b as int].key,
                                 positions: r.buckets@[b as int].positions }));
                    assert(r.wf(kv.take(p + 1))) by {
                        assert(r.keys_distinct());
                        assert forall|i: int| 0 <= i < r.buckets@.len() implies
                            (#[trigger] r.buckets@[i]).positions@.map_values(|q: usize| q as int)
                                == key_positions(kv.take(p + 1), r.buckets@[i].key@) by {
                            if i == b as int {
                                assert(pre.buckets@[i].key@ == kv[p as int]);
                            } else {
                                assert(pre.buckets@[i].key@ != pre.buckets@[b as int].key@);
                            }
                        }
                        assert forall|q: int| 0 <= q < kv.take(p + 1).len() implies
                            r.contains_key(#[trigger] kv.take(p + 1)[q]) by {
                            if q < p as int {
                                assert(pre.contains_key(kv.take(p as int)[q]));
                                let w = choose|w: int| 0 <= w < pre.buckets@.len()
                                    && (#[trigger] pre.buckets@[w]).key@ == kv.take(p as int)[q];
                                assert(r.buckets@[w].key@ == kv.take(p + 1)[q]);
                            } else {
                                assert(r.buckets@[b as int].key@ == kv[p as int]);
                            }
                        }
                    }
                }
            } else {
                let mut pos: Vec<usize> = Vec::new();
                pos.push(p);
                r.buckets.push(Bucket { key: keys[p].clone(), positions: pos });
                proof {
                    assert(kv[p as int] == keys@[p as int]@);
                    assert(!pre.contains_key(kv[p as int]));
                    pre.lemma_wf_positions(kv.take(p as int), kv[p as int]);
                    assert(key_positions(kv.take(p as int), kv[p as int]) =~= Seq::empty());
                    let nb = r.buckets@.len() - 1;
                    assert(r.buckets@[nb].positions@.map_values(|q: usize| q as int)
                        =~= Seq::empty().push(p as int));
                    assert(r.wf(kv.take(p + 1))) by {
                        assert forall|i: int, j: int| 0 <= i < j < r.buckets@.len() implies
                            (#[trigger] r.buckets@[i]).key@ != (#[trigger] r.buckets@[j]).key@ by {
                            if j == nb {
                                assert(r.buckets@[i] == pre.buckets@[i]);
                            }
                        }
                        assert forall|i: int| 0 <= i < r.buckets@.len() implies
                            (#[trigger] r.buckets@[i]).positions@.map_values(|q: usize| q as int)
                                == key_positions(kv.take(p + 1), r.buckets@[i].key@) by {
                            if i < nb {
                                assert(pre.buckets@[i].key@ != kv[p as int]) by {
                                    assert(!pre.contains_key(kv[p as int]));
                                }
                            }
                        }
                        assert forall|q: int| 0 <= q < kv.take(p + 1).len() implies
                            r.contains_key(#[trigger] kv.take(p + 1)[q]) by {
                            if q < p as int {
                                assert(pre.contains_key(kv.take(p as int)[q]));
                                let w = choose|w: int| 0 <= w < pre.buckets@.len()
                                    && (#[trigger] pre.buckets@[w]).key@ == kv.take(p as int)[q];
                                assert(r.buckets@[w].key@ == kv.take(p + 1)[q]);
                            } else {
                                assert(r.buckets@[nb].key@ == kv[p as int]);
                            }
                        }
                    }
                }
            }
        }
        proof {
            assert(key_views(keys@).take(n as int) =~= key_views(keys@));
        }
        r
    }
}

} // verus!
