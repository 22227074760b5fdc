//! A candidate batch: the `name -> address` proposals one strategy emits in
//! one round, to be merged into the bind database afterwards.

use vstd::prelude::*;

verus! {

/// An ordered batch of proposals with one entry per name; a later insert for
/// the same name replaces the earlier address.
pub struct Batch {
    pub entries: Vec<(String, u64)>,
}

/// The mapping a sequence of proposals stands for.
pub open spec fn batch_map(s: Seq<(String, u64)>) -> Map<Seq<char>, u64>
    decreases s.len(),
{
    if s.len() == 0 {
        Map::empty()
    } else {
        batch_map(s.drop_last()).insert(s.last().0@, s.last().1)
    }
}

/// A name is in the mapping exactly when some proposal bears it.
pub proof fn lemma_batch_map_domain(s: Seq<(String, u64)>, k: Seq<char>)
    ensures
        batch_map(s).contains_key(k) <==> exists|i: int| 0 <= i < s.len() && #[trigger] s[i].0@ == k,
    decreases s.len(),
{
    if s.len() > 0 {
        lemma_batch_map_domain(s.drop_last(), k);
        if s.last().0@ == k {
            assert(s[s.len() - 1].0@ == k);
        } else {
            if batch_map(s).contains_key(k) {
                let j = choose|j: int| 0 <= j < s.drop_last().len() && s.drop_last()[j].0@ == k;
                assert(s.drop_last()[j] == s[j]);
                assert(s[j].0@ == k);
            }
            if exists|i: int| 0 <= i < s.len() && #[trigger] s[i].0@ == k {
                let i = choose|i: int| 0 <= i < s.len() && #[trigger] s[i].0@ == k;
                assert(i < s.len() - 1);
                assert(s.drop_last()[i] == s[i]);
                assert(batch_map(s.drop_last()).contains_key(k));
            }
        }
    }
}

/// With distinct names, the mapping sends each proposal's name to its
/// address.
pub proof fn lemma_batch_map_index(s: Seq<(String, u64)>, i: int)
    requires
        forall|p: int, q: int| 0 <= p < q < s.len() ==> #[trigger] s[p].0@ != #[trigger] s[q].0@,
        0 <= i < s.len(),
    ensures
        batch_map(s).contains_key(s[i].0@),
        batch_map(s)[s[i].0@] == s[i].1,
    decreases s.len(),
{
    if i == s.len() - 1 {
    } else {
        lemma_batch_map_index(s.drop_last(), i);
        assert(s.drop_last()[i] == s[i]);
        assert(s[i].0@ != s.last().0@);
    }
}

impl View for Batch {
    type V = Map<Seq<char>, u64>;

    open spec fn view(&self) -> Map<Seq<char>, u64> {
        batch_map(self.entries@)
    }
}

impl Batch {
    /// Proposal names are pairwise distinct.
    pub open spec fn wf(self) -> bool {
        forall|p: int, q: int|
            0 <= p < q < self.entries@.len() ==> #[trigger] self.entries@[p].0@ != #[trigger] self.entries@[q].0@
    }

    /// The empty batch.
    pub fn new() -> (r: Batch)
        ensures
            r.wf(),
            r@ == Map::<Seq<char>, u64>::empty(),
    {
        Batch { entries: Vec::new() }
    }

    /// The index of the proposal bearing `name`, if one does.
    fn find_idx(&self, name: &String) -> (r: Option<usize>)
        ensures
            match r {
                Some(i) => i < self.entries@.len() && self.entries@[i as int].0@ == name@,
                None => forall|i: int| 0 <= i < self.entries@.len() ==> #[trigger] self.entries@[i].0@ != name@,
            },
    {
        let mut i: usize = 0;
        while i < self.entries.len()
            invariant
                i <= self.entries@.len(),
                forall|j: int| 0 <= j < i ==> #[trigger] self.entries@[j].0@ != name@,
            decreases self.entries@.len() - i,
        {
            if self.entries[i].0 == *name {
                return Some(i);
            }
            i = i + 1;
        }
        None
    }

    /// The address proposed for `name`, if any.
    pub fn get(&self, name: &String) -> (r: Option<u64>)
        requires
            self.wf(),
        ensures
            match r {
                Some(a) => self@.contains_key(name@) && a == self@[name@],
                None => !self@.contains_key(name@),
            },
    {
        proof {
            lemma_batch_map_domain(self.entries@, name@);
        }
        match self.find_idx(name) {
            Some(i) => {
                proof {
                    lemma_batch_map_index(self.entries@, i as int);
                }
                Some(self.entries[i].1)
            },
            None => None,
        }
    }

    /// Propose `addr` for `name`, replacing any earlier proposal.
    pub fn insert(&mut self, name: String, addr: u64)
        requires
            old(self).wf(),
        ensures
            final(self).wf(),
            final(self)@ == old(self)@.insert(name@, addr),
    {
        let ghost s_old = self.entries@;
        match self.find_idx(&name) {
            Some(i) => {
                self.entries.set(i, (name, addr));
                proof {
                    let s_new = self.entries@;
                    let ghost k = s_new[i as int].0@;
                    assert forall|p: int, q: int| 0 <= p < q < s_new.len() implies
                        #[trigger] s_new[p].0@ != #[trigger] s_new[q].0@ by {
                        assert(s_new[p].0@ == s_old[p].0@);
                        assert(s_new[q].0@ == s_old[q].0@);
                    }
                    assert forall|k2: Seq<char>| true implies
                        (#[trigger] batch_map(s_new).contains_key(k2) <==> batch_map(s_old).insert(k, addr).contains_key(k2)) by {
                        lemma_batch_map_domain(s_new, k2);
                        lemma_batch_map_domain(s_old, k2);
                        if exists|j: int| 0 <= j < s_new.len() && #[trigger] s_new[j].0@ == k2 {
                            let j = choose|j: int| 0 <= j < s_new.len() && #[trigger] s_new[j].0@ == k2;
                            assert(s_old[j].0@ == k2 || k2 == k);
                        }
                        if k2 != k && (exists|j: int| 0 <= j < s_old.len() && #[trigger] s_old[j].0@ == k2) {
                            let j = choose|j: int| 0 <= j < s_old.len() && #[trigger] s_old[j].0@ == k2;
                            assert(j != i);
                            assert(s_new[j].0@ == k2);
                        }
                    }
                    assert forall|k2: Seq<char>| #[trigger] batch_map(s_new).contains_key(k2) implies
                        batch_map(s_new)[k2] == batch_map(s_old).insert(k, addr)[k2] by {
                        lemma_batch_map_domain(s_new, k2);
                        let j = choose|j: int| 0 <= j < s_new.len() && #[trigger] s_new[j].0@ == k2;
                        lemma_batch_map_index(s_new, j);
                        if k2 == k {
                            assert(j == i) by {
                                if j != i {
                                    assert(s_new[j].0@ == s_old[j].0@);
                                    assert(s_old[j].0@ != s_old[i as int].0@);
                                }
                            }
                        } else {
                            assert(j != i);
                            assert(s_new[j] == s_old[j]);
                            lemma_batch_map_index(s_old, j);
                        }
                    }
                    assert(batch_map(s_new) =~= batch_map(s_old).insert(k, addr));
                }
            },
            None => {
                self.entries.push((name, addr));
                proof {
                    let s_new = self.entries@;
                    assert(s_new.drop_last() =~= s_old);
                    assert forall|p: int, q: int| 0 <= p < q < s_new.len() implies
                        #[trigger] s_new[p].0@ != #[trigger] s_new[q].0@ by {
                        if q == s_new.len() - 1 {
                            assert(s_old[p].0@ != s_new[q].0@);
                        }
                    }
                }
            },
        }
    }

    /// How many names the batch proposes an address for.
    pub fn len(&self) -> (r: usize)
        ensures
            r == self.entries@.len(),
    {
        self.entries.len()
    }
}

} // verus!
