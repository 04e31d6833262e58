//! A table of distinct terms with a count each, found through hash buckets.

use vstd::prelude::*;

use crate::text::views;

verus! {

broadcast use vstd::std_specs::hash::group_hash_axioms;

/// The bucket hash of a term: a polynomial hash of its characters, wrapping.
pub open spec fn term_hash(s: Seq<char>) -> u64
    decreases s.len(),
{
    if s.len() == 0 {
        0u64
    } else {
        term_hash(s.drop_last()).wrapping_mul(31u64).wrapping_add((s.last() as u32) as u64)
    }
}

/// The bucket hash of a term.
pub fn term_hash_exec(s: &str) -> (res: u64)
    ensures
        res == term_hash(s@),
{
    let mut h: u64 = 0;
    for c in it: s.chars()
        invariant
            it.seq() == s@,
            h == term_hash(s@.take(it.index() as int)),
    {
        proof {
            assert(s@.take(it.index() + 1).drop_last() == s@.take(it.index() as int));
            assert(s@.take(it.index() + 1).last() == c);
        }
        let code: u32 = c as u32;
        h = h.wrapping_mul(31).wrapping_add(code as u64);
    }
    assert(s@.take(s@.len() as int) == s@);
    h
}

/// Distinct terms, each with a count, in the order they were first added.
#[derive(Debug)]
pub struct TermTable {
    terms: Vec<String>,
    counts: Vec<usize>,
    buckets: std::collections::HashMap<u64, Vec<usize>>,
}

impl TermTable {
    /// The terms, in the order they were first added.
    pub closed spec fn keys(&self) -> Seq<Seq<char>> {
        views(self.terms@)
    }

    /// The count of each term, by position.
    pub closed spec fn counts(&self) -> Seq<usize> {
        self.counts@
    }

    /// The count of `t`, or 0 when it is not in the table.
    pub open spec fn count_of(&self, t: Seq<char>) -> nat {
        if self.keys().contains(t) {
            self.counts()[self.keys().index_of(t)] as nat
        } else {
            0
        }
    }

    /// The table's invariant: no term twice, one count per term, and every
    /// term found in the bucket of its hash.
    pub closed spec fn wf(&self) -> bool {
        &&& self.terms@.len() == self.counts@.len()
        &&& views(self.terms@).no_duplicates()
        &&& forall|i: int|
            0 <= i < self.terms@.len() ==> {
                let h = term_hash(#[trigger] self.terms@[i]@);
                &&& self.buckets@.contains_key(h)
                &&& self.buckets@[h]@.contains(i as usize)
            }
        &&& forall|h: u64, j: int|
            #![trigger self.buckets@[h]@[j]]
            self.buckets@.contains_key(h) && 0 <= j < self.buckets@[h]@.len() ==> {
                &&& self.buckets@[h]@[j] < self.terms@.len()
                &&& term_hash(self.terms@[self.buckets@[h]@[j] as int]@) == h
            }
    }

    /// What the invariant tells about the keys and counts.
    pub proof fn lemma_wf(&self)
        requires
            self.wf(),
        ensures
            self.keys().no_duplicates(),
            self.keys().len() == self.counts().len(),
    {
    }

    /// An empty table.
    pub fn new() -> (res: TermTable)
        ensures
            res.wf(),
            res.keys().len() == 0,
            res.counts().len() == 0,
    {
        let t = TermTable {
            terms: Vec::new(),
            counts: Vec::new(),
            buckets: std::collections::HashMap::new(),
        };
        assert(views(t.terms@) =~= Seq::<Seq<char>>::empty());
        t
    }

    /// The number of distinct terms.
    pub fn len(&self) -> (res: usize)
        requires
            self.wf(),
        ensures
            res == self.keys().len(),
    {
        self.terms.len()
    }

    /// The position of `term`, if it is in the table.
    pub fn find(&self, term: &str) -> (res: Option<usize>)
        requires
            self.wf(),
        ensures
            match res {
                Some(i) => i < self.keys().len() && self.keys()[i as int] == term@,
                None => !self.keys().contains(term@),
            },
    {
        let h = term_hash_exec(term);
        match self.buckets.get(&h) {
            None => {
                proof {
                    if self.keys().contains(term@) {
                        let i = choose|i: int| 0 <= i < self.keys().len() && self.keys()[i] == term@;
                        assert(self.terms@[i]@ == term@);
                    }
                }
                None
            },
            Some(bucket) => {
                let mut k: usize = 0;
                while k < bucket.len()
                    invariant
                        self.wf(),
                        self.buckets@.contains_key(h),
                        *bucket == self.buckets@[h],
                        h == term_hash(term@),
                        0 <= k <= bucket@.len(),
                        forall|m: int| 0 <= m < k ==> self.terms@[bucket@[m] as int]@ != term@,
                    decreases bucket@.len() - k,
                {
                    let idx = bucket[k];
                    assert(self.buckets@[h]@[k as int] == idx);
                    if crate::text::str_eq(self.terms[idx].as_str(), term) {
                        assert(self.keys()[idx as int] == self.terms@[idx as int]@);
                        return Some(idx);
                    }
                    k += 1;
                }
                proof {
                    if self.keys().contains(term@) {
                        let i = choose|i: int| 0 <= i < self.keys().len() && self.keys()[i] == term@;
                        assert(self.terms@[i]@ == term@);
                        assert(self.buckets@[h]@.contains(i as usize));
                        let m = choose|m: int|
                            0 <= m < bucket@.len() && bucket@[m] == i as usize;
                        assert(self.terms@.len() == self.terms.len());
                        assert((i as usize) as int == i);
                        assert(bucket@[m] as int == i);
                        assert(self.terms@[bucket@[m] as int]@ == term@);
                    }
                }
                None
            },
        }
    }

    /// The count at position `i`.
    pub fn count_at(&self, i: usize) -> (res: usize)
        requires
            self.wf(),
            i < self.keys().len(),
        ensures
            res == self.counts()[i as int],
    {
        self.counts[i]
    }

    /// The term at position `i`.
    pub fn term_at(&self, i: usize) -> (res: &String)
        requires
            self.wf(),
            i < self.keys().len(),
        ensures
            res@ == self.keys()[i as int],
    {
        &self.terms[i]
    }

    /// Adds one to the count of `term`, adding the term with count 1 when it
    /// is not in the table yet.
    pub fn increment(&mut self, term: &String)
        requires
            old(self).wf(),
            old(self).keys().contains(term@) ==> old(self).counts()[old(self).keys().index_of(
                term@,
            )] < usize::MAX,
        ensures
            final(self).wf(),
            old(self).keys().contains(term@) ==> {
                let i = old(self).keys().index_of(term@);
                &&& final(self).keys() == old(self).keys()
                &&& final(self).counts() == old(self).counts().update(i, (old(self).counts()[i] + 1) as usize)
            },
            !old(self).keys().contains(term@) ==> {
                &&& final(self).keys() == old(self).keys().push(term@)
                &&& final(self).counts() == old(self).counts().push(1)
            },
    {
        match self.find(term.as_str()) {
            Some(i) => {
                proof {
                    assert(old(self).keys().contains(term@));
                    self.keys().index_of_first_ensures(term@);
                    lemma_index_of_unique(self.keys(), term@, i as int);
                }
                let c = self.counts[i];
                assert(old(self).counts()[i as int] == c);
                self.counts.set(i, c + 1);
            },
            None => {
                self.insert_new(term);
            },
        }
    }

    /// Adds `term` with count 1 when it is not in the table yet; leaves the
    /// table unchanged otherwise. Returns whether it was added.
    pub fn insert_if_absent(&mut self, term: &String) -> (added: bool)
        requires
            old(self).wf(),
        ensures
            final(self).wf(),
            added == !old(self).keys().contains(term@),
            added ==> final(self).keys() == old(self).keys().push(term@) && final(self).counts()
                == old(self).counts().push(1),
            !added ==> final(self).keys() == old(self).keys() && final(self).counts()
                == old(self).counts(),
    {
        match self.find(term.as_str()) {
            Some(i) => {
                assert(self.keys().contains(term@));
                false
            },
            None => {
                self.insert_new(term);
                true
            },
        }
    }

    /// Adds `term`, which is not in the table, with count 1.
    fn insert_new(&mut self, term: &String)
        requires
            old(self).wf(),
            !old(self).keys().contains(term@),
        ensures
            final(self).wf(),
            final(self).keys() == old(self).keys().push(term@),
            final(self).counts() == old(self).counts().push(1),
    {
        self.insert_new_with(term, 1);
    }

    /// Adds `term` with `value` as its count when it is not in the table
    /// yet; leaves the table unchanged otherwise. Returns whether it was added.
    pub fn insert_value_if_absent(&mut self, term: &String, value: usize) -> (added: bool)
        requires
            old(self).wf(),
        ensures
            final(self).wf(),
            added == !old(self).keys().contains(term@),
            added ==> final(self).keys() == old(self).keys().push(term@) && final(self).counts()
                == old(self).counts().push(value),
            !added ==> final(self).keys() == old(self).keys() && final(self).counts()
                == old(self).counts(),
    {
        match self.find(term.as_str()) {
            Some(i) => {
                assert(self.keys().contains(term@));
                false
            },
            None => {
                self.insert_new_with(term, value);
                true
            },
        }
    }

    /// Adds `term`, which is not in the table, with count `value`.
    fn insert_new_with(&mut self, term: &String, value: usize)
        requires
            old(self).wf(),
            !old(self).keys().contains(term@),
        ensures
            final(self).wf(),
            final(self).keys() == old(self).keys().push(term@),
            final(self).counts() == old(self).counts().push(value),
    {
        let h = term_hash_exec(term.as_str());
        let idx = self.terms.len();
        let mut bucket: Vec<usize> = match self.buckets.get(&h) {
            Some(b) => b.clone(),
            None => Vec::new(),
        };
        let ghost old_bucket = bucket@;
        bucket.push(idx);
        let ghost old_terms = self.terms@;
        let ghost old_buckets = self.buckets@;
        self.terms.push(term.clone());
        self.counts.push(value);
        self.buckets.insert(h, bucket);
        proof {
            assert(views(self.terms@) =~= views(old_terms).push(term@));
            assert forall|i: int| 0 <= i < self.terms@.len() implies {
                let hh = term_hash(#[trigger] self.terms@[i]@);
                &&& self.buckets@.contains_key(hh)
                &&& self.buckets@[hh]@.contains(i as usize)
            } by {
                let hh = term_hash(self.terms@[i]@);
                if i < old_terms.len() {
                    assert(self.terms@[i] == old_terms[i]);
                    if hh == h {
                        let k = choose|k: int| 0 <= k < old_buckets[h]@.len() && old_buckets[h]@[k] == i as usize;
                        assert(bucket@[k] == i as usize);
                    }
                } else {
                    assert(bucket@[bucket@.len() - 1] == idx);
                }
            }
            assert forall|hh: u64, j: int|
                self.buckets@.contains_key(hh) && 0 <= j < self.buckets@[hh]@.len() implies {
                    &&& #[trigger] self.buckets@[hh]@[j] < self.terms@.len()
                    &&& term_hash(self.terms@[self.buckets@[hh]@[j] as int]@) == hh
                } by {
                if hh == h {
                    if j < old_bucket.len() {
                        assert(old_buckets.contains_key(h));
                        assert(old_buckets[h]@[j] == bucket@[j]);
                        assert(self.terms@[bucket@[j] as int] == old_terms[bucket@[j] as int]);
                    } else {
                        assert(bucket@[j] == idx);
                    }
                } else {
                    assert(old_buckets[hh] == self.buckets@[hh]);
                    assert(self.terms@[old_buckets[hh]@[j] as int] == old_terms[old_buckets[hh]@[j] as int]);
                }
            }
        }
    }
}

pub proof fn lemma_index_of_unique(s: Seq<Seq<char>>, x: Seq<char>, i: int)
    requires
        s.no_duplicates(),
        0 <= i < s.len(),
        s[i] == x,
    ensures
        s.index_of(x) == i,
{
    s.index_of_first_ensures(x);
    let k = s.index_of(x);
    assert(s[k] == x);
}

} // verus!
