//! Merging candidate batches into the bind database: the per-name merge
//! table, global reconciliation of addresses with several claimants, and the
//! `process` entry point that runs both.

use vstd::prelude::*;
use crate::db::{
    Bind, BindDB, BindEntry, BindV, count_unverified, count_verified, lemma_count_verified_le_len,
    lemma_entries_map_domain_all, lemma_entries_map_index, lemma_unique_claims_parts, sole_claimant,
    unique_claims, unique_verified, unverified_isolated,
};
use crate::batch::{Batch, lemma_batch_map_domain};

verus! {

/// The confirmation authority: a blocking three-valued prompt. `Some(true)`
/// is yes, `Some(false)` is no, `None` is ignore. Implementations may wire
/// this to a terminal or to a deterministic test double.
pub trait Oracle {
    /// Is `name` located at `addr`?
    fn ask(&mut self, name: &String, addr: u64) -> Option<bool>;
}

/// The merge table for one proposal `name -> v` against the map `m`, given
/// the answers the oracle would give: `a1` to "is `name` at `v`?", `a2` to
/// "is `name` at its current address?". Absent names enter as `Unverified`;
/// `Verified` and `Inline` are terminal; a conflicting `Unverified` is
/// resolved through the oracle or recorded as `Not`; a `Not` entry collects
/// further rejected addresses.
pub open spec fn merge_result(
    m: Map<Seq<char>, BindV>,
    name: Seq<char>,
    v: u64,
    a1: bool,
    a2: bool,
) -> Map<Seq<char>, BindV> {
    if !m.contains_key(name) {
        m.insert(name, BindV::Unverified(v))
    } else {
        match m[name] {
            BindV::Verified(_) => m,
            BindV::Inline => m,
            BindV::Unverified(a) => if a == v {
                m
            } else if a1 {
                m.insert(name, BindV::Verified(v))
            } else if a2 {
                m.insert(name, BindV::Verified(a))
            } else {
                m.insert(name, BindV::Not(seq![a, v]))
            },
            BindV::Not(rejected) => if rejected.contains(v) {
                m
            } else if a1 {
                m.insert(name, BindV::Verified(v))
            } else {
                m.insert(name, BindV::Not(rejected.push(v)))
            },
        }
    }
}

/// Does `rejected` already hold `v`?
fn contains_addr(rejected: &Vec<u64>, v: u64) -> (r: bool)
    ensures
        r == rejected@.contains(v),
{
    let mut i: usize = 0;
    while i < rejected.len()
        invariant
            i <= rejected@.len(),
            forall|j: int| 0 <= j < i ==> rejected@[j] != v,
        decreases rejected@.len() - i,
    {
        if rejected[i] == v {
            return true;
        }
        i = i + 1;
    }
    false
}

/// Merge one proposal `name -> v` into the database, asking the oracle on a
/// conflict. The result is the merge table's outcome for whatever the oracle
/// answered; an `ignore` counts as a no. Returns whether the entry became
/// `Verified` by this call.
pub fn merge_entry<O: Oracle>(db: &mut BindDB, oracle: &mut O, name: &String, v: u64) -> (became: bool)
    requires
        old(db).wf(),
    ensures
        final(db).wf(),
        exists|a1: bool, a2: bool| final(db)@ == merge_result(old(db)@, name@, v, a1, a2),
        became ==> final(db)@.contains_key(name@) && final(db)@[name@] is Verified,
        count_verified(final(db).binds@) == count_verified(old(db).binds@) + (if became {
            1nat
        } else {
            0nat
        }),
{
    let cur: Option<Bind> = match db.get(name) {
        None => None,
        Some(b) => Some(b.duplicate()),
    };
    match cur {
        None => {
            db.set(name, Bind::Unverified(v));
            proof {
                assert(db@ == merge_result(old(db)@, name@, v, false, false));
            }
            false
        },
        Some(Bind::Verified(_)) | Some(Bind::Inline) => {
            proof {
                assert(db@ == merge_result(old(db)@, name@, v, false, false));
            }
            false
        },
        Some(Bind::Unverified(a)) => {
            if a == v {
                proof {
                    assert(db@ == merge_result(old(db)@, name@, v, false, false));
                }
                false
            } else {
                let a1 = oracle.ask(name, v) == Some(true);
                if a1 {
                    db.set(name, Bind::Verified(v));
                    proof {
                        assert(db@ == merge_result(old(db)@, name@, v, true, false));
                    }
                    true
                } else {
                    let a2 = oracle.ask(name, a) == Some(true);
                    if a2 {
                        db.set(name, Bind::Verified(a));
                        proof {
                            assert(db@ == merge_result(old(db)@, name@, v, false, true));
                        }
                        true
                    } else {
                        let rejected = vec![a, v];
                        proof {
                            assert(rejected@ =~= seq![a, v]);
                            assert(rejected@.no_duplicates());
                        }
                        db.set(name, Bind::Not(rejected));
                        proof {
                            assert(db@ == merge_result(old(db)@, name@, v, false, false));
                        }
                        false
                    }
                }
            }
        },
        Some(Bind::Not(rejected)) => {
            if contains_addr(&rejected, v) {
                proof {
                    assert(db@ == merge_result(old(db)@, name@, v, false, false));
                }
                false
            } else {
                let a1 = oracle.ask(name, v) == Some(true);
                if a1 {
                    db.set(name, Bind::Verified(v));
                    proof {
                        assert(db@ == merge_result(old(db)@, name@, v, true, false));
                    }
                    true
                } else {
                    let mut extended = rejected;
                    extended.push(v);
                    proof {
                        assert(extended@.no_duplicates()) by {
                            assert(extended@.drop_last() =~= old(db)@[name@]->Not_0);
                        }
                    }
                    db.set(name, Bind::Not(extended));
                    proof {
                        assert(db@ == merge_result(old(db)@, name@, v, false, false));
                    }
                    false
                }
            }
        },
    }
}

/// The merge phase as a relation: `m1` is what merging the proposals into
/// `m0` in order can produce, for some sequence of oracle answers.
pub open spec fn merge_batch_rel(
    m0: Map<Seq<char>, BindV>,
    entries: Seq<(String, u64)>,
    m1: Map<Seq<char>, BindV>,
) -> bool
    decreases entries.len(),
{
    if entries.len() == 0 {
        m1 == m0
    } else {
        exists|a1: bool, a2: bool|
            merge_batch_rel(
                #[trigger] merge_result(m0, entries[0].0@, entries[0].1, a1, a2),
                entries.drop_first(),
                m1,
            )
    }
}

/// Extending a merge run by one more proposal.
proof fn lemma_merge_batch_rel_snoc(
    m0: Map<Seq<char>, BindV>,
    pre: Seq<(String, u64)>,
    cur: Map<Seq<char>, BindV>,
    e: (String, u64),
    cur2: Map<Seq<char>, BindV>,
)
    requires
        merge_batch_rel(m0, pre, cur),
        exists|a1: bool, a2: bool| cur2 == #[trigger] merge_result(cur, e.0@, e.1, a1, a2),
    ensures
        merge_batch_rel(m0, pre.push(e), cur2),
    decreases pre.len(),
{
    if pre.len() == 0 {
        assert(cur == m0);
        assert(pre.push(e)[0] == e);
        assert(pre.push(e).drop_first() =~= Seq::<(String, u64)>::empty());
        let (a1, a2) = choose|a1: bool, a2: bool| cur2 == #[trigger] merge_result(cur, e.0@, e.1, a1, a2);
        assert(merge_batch_rel(merge_result(m0, e.0@, e.1, a1, a2), pre.push(e).drop_first(), cur2));
    } else {
        let (b1, b2) = choose|b1: bool, b2: bool|
            merge_batch_rel(
                #[trigger] merge_result(m0, pre[0].0@, pre[0].1, b1, b2),
                pre.drop_first(),
                cur,
            );
        lemma_merge_batch_rel_snoc(merge_result(m0, pre[0].0@, pre[0].1, b1, b2), pre.drop_first(), cur, e, cur2);
        assert(pre.push(e)[0] == pre[0]);
        assert(pre.push(e).drop_first() =~= pre.drop_first().push(e));
        assert(merge_batch_rel(
            merge_result(m0, pre.push(e)[0].0@, pre.push(e)[0].1, b1, b2),
            pre.push(e).drop_first(),
            cur2,
        ));
    }
}

/// One conflicted address resolved, as reconciliation resolves it. Entries
/// not claiming `addr` are untouched. With a `Verified` claimant present,
/// the `Unverified` claimants are removed and every other claimant is kept
/// unchanged. With none, the claimants — all `Unverified` — are polled: a
/// claimant that stays becomes `Verified(addr)` or `Not([addr])`, at most
/// one becomes `Verified`, and claimants are removed only once one of them
/// was accepted.
pub open spec fn resolve_step(pre: Map<Seq<char>, BindV>, addr: u64, post: Map<Seq<char>, BindV>) -> bool {
    &&& forall|k: Seq<char>| #[trigger] post.contains_key(k) ==> pre.contains_key(k)
    &&& forall|k: Seq<char>|
        pre.contains_key(k) && (#[trigger] pre[k]).get_addr() != Some::<u64>(addr)
            ==> post.contains_key(k) && post[k] == pre[k]
    &&& ((exists|k: Seq<char>|
        pre.contains_key(k) && (#[trigger] pre[k]) is Verified && pre[k].get_addr() == Some::<u64>(
            addr,
        )) ==> forall|k: Seq<char>|
        pre.contains_key(k) && (#[trigger] pre[k]).get_addr() == Some::<u64>(addr)
            ==> ((pre[k] is Unverified ==> !post.contains_key(k)) && (!(pre[k] is Unverified)
            ==> post.contains_key(k) && post[k] == pre[k])))
    &&& (!(exists|k: Seq<char>|
        pre.contains_key(k) && (#[trigger] pre[k]) is Verified && pre[k].get_addr() == Some::<u64>(
            addr,
        )) ==> {
        &&& forall|k: Seq<char>|
            pre.contains_key(k) && (#[trigger] pre[k]).get_addr() == Some::<u64>(addr)
                && post.contains_key(k) ==> (post[k] == BindV::Verified(addr) || post[k]
                == BindV::Not(seq![addr]))
        &&& forall|k1: Seq<char>, k2: Seq<char>|
            pre.contains_key(k1) && (#[trigger] pre[k1]).get_addr() == Some::<u64>(addr)
                && pre.contains_key(k2) && (#[trigger] pre[k2]).get_addr() == Some::<u64>(addr)
                && k1 != k2 && post.contains_key(k1) && post.contains_key(k2) ==> !(post[k1] is Verified
                && post[k2] is Verified)
        &&& ((exists|k: Seq<char>|
            pre.contains_key(k) && (#[trigger] pre[k]).get_addr() == Some::<u64>(addr)
                && !post.contains_key(k)) ==> exists|k: Seq<char>|
            pre.contains_key(k) && (#[trigger] pre[k]).get_addr() == Some::<u64>(addr)
                && post.contains_key(k) && post[k] == BindV::Verified(addr))
    })
}

/// `post` arises from `pre` by `n` single-address resolutions, each on an
/// address that still had an `Unverified` conflict: the answer-indexed shape
/// of global reconciliation, with [`resolve_step`] as the step.
pub open spec fn reconcile_reaches(pre: Map<Seq<char>, BindV>, post: Map<Seq<char>, BindV>, n: nat) -> bool
    decreases n,
{
    if n == 0 {
        post == pre
    } else {
        exists|addr: u64, mid: Map<Seq<char>, BindV>|
            reconcile_reaches(pre, mid, (n - 1) as nat) && unverified_conflict_at(mid, addr)
                && #[trigger] resolve_step(mid, addr, post)
    }
}

/// What global reconciliation does: a chain of single-address resolutions
/// ([`reconcile_reaches`]) after which no `Unverified` entry shares an
/// address. Pointwise: `Verified`, `Inline` and `Not` entries survive
/// untouched, an `Unverified` entry whose address no other entry claims
/// survives untouched, no name appears, only `Unverified` names can
/// disappear, a surviving entry is unchanged or was `Unverified` and is now
/// `Verified` or `Not` at exactly its old address, and `Verified` collisions
/// are never created.
pub open spec fn reconciled(pre: Map<Seq<char>, BindV>, post: Map<Seq<char>, BindV>) -> bool {
    &&& unverified_isolated(post)
    &&& (unique_verified(pre) ==> unique_verified(post))
    &&& forall|k: Seq<char>|
        pre.contains_key(k) && ((#[trigger] pre[k]) is Verified || pre[k] is Inline || pre[k] is Not)
            ==> post.contains_key(k) && post[k] == pre[k]
    &&& forall|k: Seq<char>|
        pre.contains_key(k) && (#[trigger] pre[k]) is Unverified && sole_claimant(pre, k)
            ==> post.contains_key(k) && post[k] == pre[k]
    &&& forall|k: Seq<char>| #[trigger] post.contains_key(k) ==> pre.contains_key(k)
    &&& forall|k: Seq<char>| pre.contains_key(k) && !(#[trigger] post.contains_key(k)) ==> pre[k] is Unverified
    &&& forall|k: Seq<char>|
        #[trigger] post.contains_key(k) && post[k] is Unverified ==> pre.contains_key(k) && pre[k]
            == post[k]
    &&& forall|k: Seq<char>|
        #[trigger] post.contains_key(k) ==> post[k] == pre[k] || (pre[k] is Unverified && (post[k]
            == BindV::Verified(pre[k]->Unverified_0) || post[k] == BindV::Not(
            seq![pre[k]->Unverified_0],
        )))
    &&& exists|n: nat| #[trigger] reconcile_reaches(pre, post, n)
}

/// A pair of distinct names both claiming `addr`, at least one of them still
/// `Unverified`: what reconciliation has left to resolve.
pub open spec fn unverified_conflict_at(m: Map<Seq<char>, BindV>, addr: u64) -> bool {
    exists|k1: Seq<char>, k2: Seq<char>|
        #[trigger] m.contains_key(k1) && #[trigger] m.contains_key(k2) && k1 != k2
            && m[k1].get_addr() == Some::<u64>(addr) && m[k2].get_addr() == Some::<u64>(addr)
            && (m[k1] is Unverified || m[k2] is Unverified)
}

/// Find an address two entries claim while one of them is `Unverified`.
#[verifier::loop_isolation(false)]
fn find_unverified_conflict(db: &BindDB) -> (r: Option<u64>)
    requires
        db.wf(),
    ensures
        match r {
            Some(addr) => unverified_conflict_at(db@, addr),
            None => unverified_isolated(db@),
        },
{
    let n = db.binds.len();
    let mut i: usize = 0;
    while i < n
        invariant
            i <= n,
            forall|p: int, q: int|
                0 <= p < q < n && p < i ==> !(#[trigger] db.binds@[p].bind@.get_addr() is Some
                    && db.binds@[p].bind@.get_addr() == #[trigger] db.binds@[q].bind@.get_addr()
                    && (db.binds@[p].bind@ is Unverified || db.binds@[q].bind@ is Unverified)),
        decreases n - i,
    {
        if let Some(ai) = db.binds[i].bind.get_addr() {
            let unv_i = match &db.binds[i].bind {
                Bind::Unverified(_) => true,
                _ => false,
            };
            let mut j = i + 1;
            while j < n
                invariant
                    i < j <= n,
                    forall|q: int|
                        i < q < j ==> !(db.binds@[i as int].bind@.get_addr()
                            == #[trigger] db.binds@[q].bind@.get_addr() && (db.binds@[i as int].bind@ is Unverified
                            || db.binds@[q].bind@ is Unverified)),
                decreases n - j,
            {
                if let Some(aj) = db.binds[j].bind.get_addr() {
                    let unv_j = match &db.binds[j].bind {
                        Bind::Unverified(_) => true,
                        _ => false,
                    };
                    if ai == aj && (unv_i || unv_j) {
                        proof {
                            lemma_entries_map_index(db.binds@, i as int);
                            lemma_entries_map_index(db.binds@, j as int);
                            assert(db.binds@[i as int].name@ != db.binds@[j as int].name@);
                            assert(unverified_conflict_at(db@, ai)) by {
                                let k1 = db.binds@[i as int].name@;
                                let k2 = db.binds@[j as int].name@;
                                assert(db@.contains_key(k1) && db@.contains_key(k2) && k1 != k2
                                    && db@[k1].get_addr() == Some::<u64>(ai)
                                    && db@[k2].get_addr() == Some::<u64>(ai)
                                    && (db@[k1] is Unverified || db@[k2] is Unverified));
                            }
                        }
                        return Some(ai);
                    }
                }
                j = j + 1;
            }
        }
        i = i + 1;
    }
    proof {
        lemma_entries_map_domain_all(db.binds@);
        assert forall|k1: Seq<char>, k2: Seq<char>|
            db@.contains_key(k1) && db@.contains_key(k2) && k1 != k2 && (#[trigger] db@[k1]).get_addr() is Some
                && db@[k1].get_addr() == (#[trigger] db@[k2]).get_addr() implies !(db@[k1] is Unverified)
            && !(db@[k2] is Unverified) by {
            let p = choose|p: int| 0 <= p < db.binds@.len() && #[trigger] db.binds@[p].name@ == k1;
            let q = choose|q: int| 0 <= q < db.binds@.len() && #[trigger] db.binds@[q].name@ == k2;
            lemma_entries_map_index(db.binds@, p);
            lemma_entries_map_index(db.binds@, q);
            assert(p != q);
            if db@[k1] is Unverified || db@[k2] is Unverified {
                if p < q {
                    assert(!(db.binds@[p].bind@.get_addr() is Some
                        && db.binds@[p].bind@.get_addr() == db.binds@[q].bind@.get_addr()
                        && (db.binds@[p].bind@ is Unverified || db.binds@[q].bind@ is Unverified)));
                } else {
                    assert(!(db.binds@[q].bind@.get_addr() is Some
                        && db.binds@[q].bind@.get_addr() == db.binds@[p].bind@.get_addr()
                        && (db.binds@[q].bind@ is Unverified || db.binds@[p].bind@ is Unverified)));
                }
            }
        }
    }
    None
}

/// Does any `Verified` entry claim `addr`?
#[verifier::loop_isolation(false)]
pub(crate) fn exists_verified_claimant(db: &BindDB, addr: u64) -> (r: bool)
    requires
        db.wf(),
    ensures
        r == exists|k: Seq<char>|
            #[trigger] db@.contains_key(k) && db@[k] is Verified && db@[k].get_addr() == Some::<u64>(addr),
{
    let n = db.binds.len();
    let mut i: usize = 0;
    while i < n
        invariant
            i <= n,
            forall|p: int|
                0 <= p < i ==> !(#[trigger] db.binds@[p].bind@ is Verified
                    && db.binds@[p].bind@.get_addr() == Some::<u64>(addr)),
        decreases n - i,
    {
        let is_hit = match &db.binds[i].bind {
            Bind::Verified(a) => *a == addr,
            _ => false,
        };
        if is_hit {
            proof {
                lemma_entries_map_index(db.binds@, i as int);
                let k = db.binds@[i as int].name@;
                assert(db@.contains_key(k) && db@[k] is Verified && db@[k].get_addr() == Some::<u64>(addr));
            }
            return true;
        }
        i = i + 1;
    }
    proof {
        lemma_entries_map_domain_all(db.binds@);
        assert forall|k: Seq<char>|
            #[trigger] db@.contains_key(k) implies !(db@[k] is Verified && db@[k].get_addr() == Some::<u64>(addr)) by {
            let p = choose|p: int| 0 <= p < db.binds@.len() && #[trigger] db.binds@[p].name@ == k;
            lemma_entries_map_index(db.binds@, p);
        }
    }
    false
}

/// Find an `Unverified` entry claiming `addr`.
#[verifier::loop_isolation(false)]
fn find_unverified_claimant(db: &BindDB, addr: u64) -> (r: Option<usize>)
    requires
        db.wf(),
    ensures
        match r {
            Some(i) => i < db.binds@.len() && db.binds@[i as int].bind@ is Unverified
                && db.binds@[i as int].bind@.get_addr() == Some::<u64>(addr),
            None => forall|k: Seq<char>|
                #[trigger] db@.contains_key(k) ==> !(db@[k] is Unverified && db@[k].get_addr()
                    == Some::<u64>(addr)),
        },
{
    let n = db.binds.len();
    let mut i: usize = 0;
    while i < n
        invariant
            i <= n,
            forall|p: int|
                0 <= p < i ==> !(#[trigger] db.binds@[p].bind@ is Unverified
                    && db.binds@[p].bind@.get_addr() == Some::<u64>(addr)),
        decreases n - i,
    {
        let is_hit = match &db.binds[i].bind {
            Bind::Unverified(a) => *a == addr,
            _ => false,
        };
        if is_hit {
            return Some(i);
        }
        i = i + 1;
    }
    proof {
        lemma_entries_map_domain_all(db.binds@);
        assert forall|k: Seq<char>|
            #[trigger] db@.contains_key(k) implies !(db@[k] is Unverified && db@[k].get_addr()
                == Some::<u64>(addr)) by {
            let p = choose|p: int| 0 <= p < db.binds@.len() && #[trigger] db.binds@[p].name@ == k;
            lemma_entries_map_index(db.binds@, p);
        }
    }
    None
}

/// Remove every `Unverified` claimant of `addr`: a `Verified` claimant wins
/// and the losers are dropped.
#[verifier::loop_isolation(false)]
fn remove_unverified_claimants(db: &mut BindDB, addr: u64)
    requires
        old(db).wf(),
    ensures
        final(db).wf(),
        forall|k: Seq<char>|
            #[trigger] final(db)@.contains_key(k) <==> (old(db)@.contains_key(k) && !(old(db)@[k] is Unverified
                && old(db)@[k].get_addr() == Some::<u64>(addr))),
        forall|k: Seq<char>| #[trigger] final(db)@.contains_key(k) ==> final(db)@[k] == old(db)@[k],
        count_unverified(final(db).binds@) <= count_unverified(old(db).binds@),
        (exists|k: Seq<char>|
            #[trigger] old(db)@.contains_key(k) && old(db)@[k] is Unverified && old(db)@[k].get_addr()
                == Some::<u64>(addr)) ==> count_unverified(final(db).binds@) < count_unverified(
            old(db).binds@,
        ),
        count_verified(final(db).binds@) == count_verified(old(db).binds@),
{
    let ghost m0 = old(db)@;
    let ghost c0 = count_unverified(old(db).binds@);
    let ghost cv0 = count_verified(old(db).binds@);
    loop
        invariant
            db.wf(),
            forall|k: Seq<char>|
                #[trigger] db@.contains_key(k) ==> m0.contains_key(k) && db@[k] == m0[k],
            forall|k: Seq<char>|
                m0.contains_key(k) && !(m0[k] is Unverified && m0[k].get_addr() == Some::<u64>(addr))
                    ==> #[trigger] db@.contains_key(k),
            count_unverified(db.binds@) <= c0,
            db@ == m0 || count_unverified(db.binds@) < c0,
            count_verified(db.binds@) == cv0,
        decreases count_unverified(db.binds@),
    {
        let i = match find_unverified_claimant(db, addr) {
            None => {
                break;
            },
            Some(i) => i,
        };
        let name = db.binds[i].name.clone();
        proof {
            lemma_entries_map_index(db.binds@, i as int);
        }
        db.remove_name(&name);
        proof {
            assert(!db@.contains_key(name@));
        }
    }
    proof {
        assert forall|k: Seq<char>|
            m0.contains_key(k) && !(m0[k] is Unverified && m0[k].get_addr() == Some::<u64>(addr)) implies
            db@.contains_key(k) by {}
        if exists|k: Seq<char>|
            #[trigger] m0.contains_key(k) && m0[k] is Unverified && m0[k].get_addr() == Some::<u64>(addr) {
            let k = choose|k: Seq<char>|
                #[trigger] m0.contains_key(k) && m0[k] is Unverified && m0[k].get_addr() == Some::<u64>(addr);
            assert(!db@.contains_key(k));
            assert(db@ != m0) by {
                if db@ == m0 {
                    assert(db@.contains_key(k));
                }
            }
        }
    }
}

/// The names of every claimant of `addr`, in entry order.
#[verifier::loop_isolation(false)]
#[verifier::rlimit(30)]
fn claimant_names(db: &BindDB, addr: u64) -> (names: Vec<String>)
    requires
        db.wf(),
    ensures
        forall|p: int|
            0 <= p < names@.len() ==> db@.contains_key(#[trigger] names@[p]@)
                && db@[names@[p]@].get_addr() == Some::<u64>(addr),
        forall|k: Seq<char>|
            #[trigger] db@.contains_key(k) && db@[k].get_addr() == Some::<u64>(addr) ==> exists|p: int|
                0 <= p < names@.len() && #[trigger] names@[p]@ == k,
        forall|p: int, q: int| 0 <= p < q < names@.len() ==> names@[p]@ != names@[q]@,
{
    let n = db.binds.len();
    let mut names: Vec<String> = Vec::new();
    let mut i: usize = 0;
    while i < n
        invariant
            i <= n,
            n == db.binds@.len(),
            forall|p: int|
                0 <= p < names@.len() ==> exists|j: int|
                    0 <= j < i && #[trigger] names@[p]@ == db.binds@[j].name@
                        && db.binds@[j].bind@.get_addr() == Some::<u64>(addr),
            forall|j: int|
                0 <= j < i && #[trigger] db.binds@[j].bind@.get_addr() == Some::<u64>(addr)
                    ==> exists|p: int| 0 <= p < names@.len() && #[trigger] names@[p]@ == db.binds@[j].name@,
            forall|p: int, q: int| 0 <= p < q < names@.len() ==> names@[p]@ != names@[q]@,
        decreases n - i,
    {
        let is_claim = match db.binds[i].bind.get_addr() {
            Some(a) => a == addr,
            None => false,
        };
        if is_claim {
            let ghost names_before = names@;
            names.push(db.binds[i].name.clone());
            proof {
                let last = names@.len() - 1;
                assert(forall|p: int| 0 <= p < last ==> #[trigger] names@[p] == names_before[p]);
                assert(names@[last]@ == db.binds@[i as int].name@);
                assert forall|p: int, q: int| 0 <= p < q < names@.len() implies
                    names@[p]@ != names@[q]@ by {
                    if q == last {
                        let j = choose|j: int|
                            0 <= j < i && #[trigger] names_before[p]@ == db.binds@[j].name@
                                && db.binds@[j].bind@.get_addr() == Some::<u64>(addr);
                        assert(db.binds@[j].name@ != db.binds@[i as int].name@);
                    }
                }
                assert forall|p: int| 0 <= p < names@.len() implies exists|j: int|
                    0 <= j < i + 1 && #[trigger] names@[p]@ == db.binds@[j].name@
                        && db.binds@[j].bind@.get_addr() == Some::<u64>(addr) by {
                    if p < last {
                        let j0 = choose|j0: int|
                            0 <= j0 < i && #[trigger] names_before[p]@ == db.binds@[j0].name@
                                && db.binds@[j0].bind@.get_addr() == Some::<u64>(addr);
                        assert(0 <= j0 < i + 1 && names@[p]@ == db.binds@[j0].name@
                            && db.binds@[j0].bind@.get_addr() == Some::<u64>(addr));
                    } else {
                        let j0 = i as int;
                        assert(0 <= j0 < i + 1 && names@[p]@ == db.binds@[j0].name@
                            && db.binds@[j0].bind@.get_addr() == Some::<u64>(addr));
                    }
                }
                assert forall|j: int|
                    0 <= j < i + 1 && #[trigger] db.binds@[j].bind@.get_addr() == Some::<u64>(addr) implies
                    exists|p: int| 0 <= p < names@.len() && #[trigger] names@[p]@ == db.binds@[j].name@ by {
                    if j < i {
                        let p0 = choose|p0: int|
                            0 <= p0 < names_before.len() && #[trigger] names_before[p0]@ == db.binds@[j].name@;
                        assert(names@[p0]@ == db.binds@[j].name@);
                    } else {
                        assert(names@[last]@ == db.binds@[j].name@);
                    }
                }
            }
        }
        i = i + 1;
    }
    proof {
        lemma_entries_map_domain_all(db.binds@);
        assert forall|p: int| 0 <= p < names@.len() implies db@.contains_key(#[trigger] names@[p]@)
            && db@[names@[p]@].get_addr() == Some::<u64>(addr) by {
            let j = choose|j: int|
                0 <= j < n && #[trigger] names@[p]@ == db.binds@[j].name@
                    && db.binds@[j].bind@.get_addr() == Some::<u64>(addr);
            lemma_entries_map_index(db.binds@, j);
        }
        assert forall|k: Seq<char>|
            #[trigger] db@.contains_key(k) && db@[k].get_addr() == Some::<u64>(addr) implies exists|p: int|
            0 <= p < names@.len() && #[trigger] names@[p]@ == k by {
            let j = choose|j: int| 0 <= j < db.binds@.len() && #[trigger] db.binds@[j].name@ == k;
            lemma_entries_map_index(db.binds@, j);
            assert(db.binds@[j].bind@.get_addr() == Some::<u64>(addr));
            let p = choose|p: int| 0 <= p < names@.len() && #[trigger] names@[p]@ == db.binds@[j].name@;
            assert(names@[p]@ == k);
        }
    }
    names
}

/// Resolve one address claimed by several names, at least one `Unverified`.
/// With a `Verified` claimant present it wins and the `Unverified` losers are
/// removed; otherwise the oracle is polled over the claimants in entry order
/// until one is accepted, rejected claimants becoming `Not` and the rest
/// being removed.
#[verifier::loop_isolation(false)]
#[verifier::rlimit(100)]
fn handle_address<O: Oracle>(db: &mut BindDB, oracle: &mut O, addr: u64) -> (newly_verified: usize)
    requires
        old(db).wf(),
        unverified_conflict_at(old(db)@, addr),
    ensures
        final(db).wf(),
        newly_verified <= 1,
        count_unverified(final(db).binds@) < count_unverified(old(db).binds@),
        forall|k: Seq<char>|
            old(db)@.contains_key(k) && ((#[trigger] old(db)@[k]) is Verified || old(db)@[k] is Inline)
                ==> final(db)@.contains_key(k) && final(db)@[k] == old(db)@[k],
        forall|k: Seq<char>| #[trigger] final(db)@.contains_key(k) ==> old(db)@.contains_key(k),
        forall|k: Seq<char>|
            old(db)@.contains_key(k) && !(#[trigger] final(db)@.contains_key(k)) ==> old(db)@[k] is Unverified,
        forall|k: Seq<char>|
            #[trigger] final(db)@.contains_key(k) && final(db)@[k] is Unverified ==> old(db)@.contains_key(k)
                && old(db)@[k] == final(db)@[k],
        unique_verified(old(db)@) ==> unique_verified(final(db)@),
        count_verified(final(db).binds@) == count_verified(old(db).binds@) + newly_verified,
        forall|k: Seq<char>|
            old(db)@.contains_key(k) && (#[trigger] old(db)@[k]).get_addr() != Some::<u64>(addr)
                ==> final(db)@.contains_key(k) && final(db)@[k] == old(db)@[k],
        forall|k: Seq<char>|
            #[trigger] final(db)@.contains_key(k) ==> final(db)@[k] == old(db)@[k] || (old(
                db,
            )@[k] is Unverified && old(db)@[k].get_addr() == Some::<u64>(addr) && (final(db)@[k]
                == BindV::Verified(addr) || final(db)@[k] == BindV::Not(seq![addr]))),
        resolve_step(old(db)@, addr, final(db)@),
{
    let ghost m0 = old(db)@;
    let ghost c0 = count_unverified(old(db).binds@);
    let ghost cv0 = count_verified(old(db).binds@);
    if exists_verified_claimant(db, addr) {
        proof {
            let (k1, k2) = choose|k1: Seq<char>, k2: Seq<char>|
                #[trigger] m0.contains_key(k1) && #[trigger] m0.contains_key(k2) && k1 != k2
                    && m0[k1].get_addr() == Some::<u64>(addr) && m0[k2].get_addr() == Some::<u64>(addr)
                    && (m0[k1] is Unverified || m0[k2] is Unverified);
            if m0[k1] is Unverified {
                assert(m0.contains_key(k1) && m0[k1] is Unverified && m0[k1].get_addr() == Some::<u64>(addr));
            } else {
                assert(m0.contains_key(k2) && m0[k2] is Unverified && m0[k2].get_addr() == Some::<u64>(addr));
            }
        }
        remove_unverified_claimants(db, addr);
        proof {
            let kw = choose|kw: Seq<char>|
                #[trigger] m0.contains_key(kw) && m0[kw] is Verified && m0[kw].get_addr() == Some::<u64>(addr);
            assert(resolve_step(m0, addr, db@)) by {
                assert(exists|k: Seq<char>|
                    m0.contains_key(k) && (#[trigger] m0[k]) is Verified && m0[k].get_addr()
                        == Some::<u64>(addr));
                assert(forall|k: Seq<char>| #[trigger] db@.contains_key(k) ==> m0.contains_key(k));
                assert(forall|k: Seq<char>|
                    m0.contains_key(k) && (#[trigger] m0[k]).get_addr() != Some::<u64>(addr)
                        ==> db@.contains_key(k) && db@[k] == m0[k]);
                assert(forall|k: Seq<char>|
                    m0.contains_key(k) && (#[trigger] m0[k]).get_addr() == Some::<u64>(addr)
                        ==> ((m0[k] is Unverified ==> !db@.contains_key(k)) && (!(m0[k] is Unverified)
                        ==> db@.contains_key(k) && db@[k] == m0[k])));
            }
        }
        0
    } else {
        let names = claimant_names(db, addr);
        proof {
            let (k1, k2) = choose|k1: Seq<char>, k2: Seq<char>|
                #[trigger] m0.contains_key(k1) && #[trigger] m0.contains_key(k2) && k1 != k2
                    && m0[k1].get_addr() == Some::<u64>(addr) && m0[k2].get_addr() == Some::<u64>(addr)
                    && (m0[k1] is Unverified || m0[k2] is Unverified);
            assert(exists|p: int| 0 <= p < names@.len() && #[trigger] names@[p]@ == k1);
            assert(names@.len() >= 1);
        }
        let mut accepted = false;
        let ghost mut acc_name: Seq<char> = seq![];
        let mut nv: usize = 0;
        let mut idx: usize = 0;
        while idx < names.len()
            invariant
                db.wf(),
                idx <= names@.len(),
                nv == if accepted { 1usize } else { 0usize },
                accepted ==> db@.contains_key(acc_name) && db@[acc_name] == BindV::Verified(addr),
                accepted ==> m0.contains_key(acc_name) && m0[acc_name].get_addr() == Some::<u64>(addr),
                !accepted ==> forall|p: int| 0 <= p < idx ==> db@.contains_key(#[trigger] names@[p]@),
                count_verified(db.binds@) == cv0 + nv,
                forall|p: int|
                    0 <= p < idx && db@.contains_key(#[trigger] names@[p]@) ==> (db@[names@[p]@]
                        == BindV::Verified(addr) || db@[names@[p]@] == BindV::Not(seq![addr])),
                forall|p: int|
                    0 <= p < idx && db@.contains_key(#[trigger] names@[p]@) && db@[names@[p]@] is Verified
                        ==> accepted && names@[p]@ == acc_name,
                forall|p: int|
                    idx <= p < names@.len() ==> db@.contains_key(#[trigger] names@[p]@)
                        && db@[names@[p]@] == m0[names@[p]@],
                forall|k: Seq<char>|
                    m0.contains_key(k) && (#[trigger] m0[k]).get_addr() != Some::<u64>(addr)
                        ==> db@.contains_key(k) && db@[k] == m0[k],
                forall|k: Seq<char>| #[trigger] db@.contains_key(k) ==> m0.contains_key(k),
                count_unverified(db.binds@) + idx == c0,
            decreases names@.len() - idx,
        {
            proof {
                assert(db@.contains_key(names@[idx as int]@));
                assert(db@[names@[idx as int]@] == m0[names@[idx as int]@]);
                assert(m0[names@[idx as int]@].get_addr() == Some::<u64>(addr));
                assert(m0[names@[idx as int]@] is Unverified) by {
                    if m0[names@[idx as int]@] is Verified {
                        assert(m0.contains_key(names@[idx as int]@) && m0[names@[idx as int]@] is Verified
                            && m0[names@[idx as int]@].get_addr() == Some::<u64>(addr));
                    }
                }
            }
            if !accepted {
                let ans = oracle.ask(&names[idx], addr);
                if ans == Some(true) {
                    db.set(&names[idx], Bind::Verified(addr));
                    accepted = true;
                    proof {
                        acc_name = names@[idx as int]@;
                    }
                    nv = 1;
                } else {
                    let rejected = vec![addr];
                    proof {
                        assert(rejected@ =~= seq![addr]);
                        assert(rejected@.no_duplicates());
                    }
                    db.set(&names[idx], Bind::Not(rejected));
                }
            } else {
                proof {
                    assert(names@[idx as int]@ != acc_name) by {
                        if names@[idx as int]@ == acc_name {
                            assert(db@[acc_name] == m0[names@[idx as int]@]);
                        }
                    }
                }
                db.remove_name(&names[idx]);
            }
            idx = idx + 1;
        }
        proof {
            assert(count_unverified(db.binds@) + names@.len() == c0);
            assert(count_unverified(db.binds@) < c0);
            assert forall|k: Seq<char>|
                m0.contains_key(k) && ((#[trigger] m0[k]) is Verified || m0[k] is Inline) implies
                db@.contains_key(k) && db@[k] == m0[k] by {
                if m0[k].get_addr() == Some::<u64>(addr) {
                    assert(m0.contains_key(k) && m0[k] is Verified && m0[k].get_addr() == Some::<u64>(addr));
                }
            }
            assert forall|k: Seq<char>|
                m0.contains_key(k) && !(#[trigger] db@.contains_key(k)) implies m0[k] is Unverified by {
                assert(m0[k].get_addr() == Some::<u64>(addr));
                if m0[k] is Verified {
                    assert(false);
                }
            }
            assert forall|k: Seq<char>|
                #[trigger] db@.contains_key(k) && db@[k] is Unverified implies m0.contains_key(k)
                && m0[k] == db@[k] by {
                if m0[k].get_addr() == Some::<u64>(addr) {
                    let p = choose|p: int| 0 <= p < names@.len() && #[trigger] names@[p]@ == k;
                    assert(db@[k] == BindV::Verified(addr) || db@[k] == BindV::Not(seq![addr]));
                }
            }
            if unique_verified(m0) {
                assert forall|k1: Seq<char>, k2: Seq<char>|
                    db@.contains_key(k1) && db@.contains_key(k2) && k1 != k2 && (#[trigger] db@[k1]) is Verified
                        && (#[trigger] db@[k2]) is Verified implies db@[k1].get_addr() != db@[k2].get_addr() by {
                    let old1 = m0.contains_key(k1) && m0[k1].get_addr() != Some::<u64>(addr);
                    let old2 = m0.contains_key(k2) && m0[k2].get_addr() != Some::<u64>(addr);
                    if !old1 {
                        let p = choose|p: int| 0 <= p < names@.len() && #[trigger] names@[p]@ == k1;
                        assert(k1 == acc_name);
                        assert(db@[k1] == BindV::Verified(addr));
                    }
                    if !old2 {
                        let p = choose|p: int| 0 <= p < names@.len() && #[trigger] names@[p]@ == k2;
                        assert(k2 == acc_name);
                        assert(db@[k2] == BindV::Verified(addr));
                    }
                    if old1 && old2 {
                        assert(db@[k1] == m0[k1] && db@[k2] == m0[k2]);
                    } else if old1 && !old2 {
                        assert(db@[k2].get_addr() == Some::<u64>(addr));
                        assert(db@[k1] == m0[k1]);
                        assert(db@[k1].get_addr() != Some::<u64>(addr));
                    } else if !old1 && old2 {
                        assert(db@[k1].get_addr() == Some::<u64>(addr));
                        assert(db@[k2] == m0[k2]);
                        assert(db@[k2].get_addr() != Some::<u64>(addr));
                    } else {
                        assert(k1 == acc_name && k2 == acc_name);
                        assert(false);
                    }
                }
            }
            assert forall|k: Seq<char>|
                #[trigger] db@.contains_key(k) implies db@[k] == m0[k] || (m0[k] is Unverified
                && m0[k].get_addr() == Some::<u64>(addr) && (db@[k] == BindV::Verified(addr) || db@[k]
                == BindV::Not(seq![addr]))) by {
                if m0[k].get_addr() == Some::<u64>(addr) {
                    let p = choose|p: int| 0 <= p < names@.len() && #[trigger] names@[p]@ == k;
                    assert(db@[k] == BindV::Verified(addr) || db@[k] == BindV::Not(seq![addr]));
                    assert(!(m0[k] is Verified));
                    assert(m0[k] is Unverified);
                }
            }
            assert(resolve_step(m0, addr, db@)) by {
                assert(!(exists|k: Seq<char>|
                    m0.contains_key(k) && (#[trigger] m0[k]) is Verified && m0[k].get_addr()
                        == Some::<u64>(addr))) by {
                    if exists|k: Seq<char>|
                        m0.contains_key(k) && (#[trigger] m0[k]) is Verified && m0[k].get_addr()
                            == Some::<u64>(addr) {
                        let kw = choose|kw: Seq<char>|
                            m0.contains_key(kw) && (#[trigger] m0[kw]) is Verified && m0[kw].get_addr()
                                == Some::<u64>(addr);
                        assert(false);
                    }
                }
                assert forall|k: Seq<char>|
                    m0.contains_key(k) && (#[trigger] m0[k]).get_addr() == Some::<u64>(addr)
                        && db@.contains_key(k) implies (db@[k] == BindV::Verified(addr) || db@[k]
                        == BindV::Not(seq![addr])) by {
                    let p = choose|p: int| 0 <= p < names@.len() && #[trigger] names@[p]@ == k;
                }
                assert forall|k1: Seq<char>, k2: Seq<char>|
                    m0.contains_key(k1) && (#[trigger] m0[k1]).get_addr() == Some::<u64>(addr)
                        && m0.contains_key(k2) && (#[trigger] m0[k2]).get_addr() == Some::<u64>(addr)
                        && k1 != k2 && db@.contains_key(k1) && db@.contains_key(k2) implies !(
                db@[k1] is Verified && db@[k2] is Verified) by {
                    if db@[k1] is Verified && db@[k2] is Verified {
                        let p1 = choose|p1: int| 0 <= p1 < names@.len() && #[trigger] names@[p1]@ == k1;
                        let p2 = choose|p2: int| 0 <= p2 < names@.len() && #[trigger] names@[p2]@ == k2;
                        assert(k1 == acc_name && k2 == acc_name);
                        assert(false);
                    }
                }
                if exists|k: Seq<char>|
                    m0.contains_key(k) && (#[trigger] m0[k]).get_addr() == Some::<u64>(addr)
                        && !db@.contains_key(k) {
                    let kr = choose|kr: Seq<char>|
                        m0.contains_key(kr) && (#[trigger] m0[kr]).get_addr() == Some::<u64>(addr)
                            && !db@.contains_key(kr);
                    let pr = choose|pr: int| 0 <= pr < names@.len() && #[trigger] names@[pr]@ == kr;
                    assert(accepted);
                    assert(m0.contains_key(acc_name) && m0[acc_name].get_addr() == Some::<u64>(addr)
                        && db@.contains_key(acc_name) && db@[acc_name] == BindV::Verified(addr));
                }
            }
        }
        nv
    }
}

impl BindDB {
    /// Global reconciliation: while some address is claimed by several names
    /// with an `Unverified` side, resolve it — a `Verified` claimant wins
    /// outright, otherwise the oracle picks one claimant in entry order.
    /// Afterwards no `Unverified` entry shares its address with any other
    /// claimant, and if no two `Verified` entries collided before, no address
    /// has more than one claimant of any kind afterwards. Entries no conflict
    /// touches — `Verified`, `Inline`, `Not`, and an `Unverified` entry whose
    /// address nobody else claims — come through unchanged; see
    /// [`reconciled`] for the full relation.
    pub fn reconcile<O: Oracle>(&mut self, oracle: &mut O) -> (newly_verified: usize)
        requires
            old(self).wf(),
        ensures
            final(self).wf(),
            reconciled(old(self)@, final(self)@),
            unverified_isolated(final(self)@),
            unique_verified(old(self)@) ==> unique_verified(final(self)@),
            unique_verified(old(self)@) ==> unique_claims(final(self)@),
            forall|k: Seq<char>|
                old(self)@.contains_key(k) && ((#[trigger] old(self)@[k]) is Verified || old(
                    self,
                )@[k] is Inline) ==> final(self)@.contains_key(k) && final(self)@[k] == old(self)@[k],
            forall|k: Seq<char>| #[trigger] final(self)@.contains_key(k) ==> old(self)@.contains_key(k),
            forall|k: Seq<char>|
                old(self)@.contains_key(k) && !(#[trigger] final(self)@.contains_key(k)) ==> old(
                    self,
                )@[k] is Unverified,
            forall|k: Seq<char>|
                #[trigger] final(self)@.contains_key(k) && final(self)@[k] is Unverified ==> old(
                    self,
                )@.contains_key(k) && old(self)@[k] == final(self)@[k],
            count_verified(final(self).binds@) == count_verified(old(self).binds@) + newly_verified,
    {
        let ghost m0 = old(self)@;
        let ghost c0 = count_unverified(old(self).binds@);
        let ghost cv0 = count_verified(old(self).binds@);
        let ghost mut steps: nat = 0;
        proof {
            vstd::std_specs::vec::axiom_spec_len(&self.binds);
            crate::db::lemma_count_le_len(self.binds@);
            assert(reconcile_reaches(m0, self@, 0));
        }
        let mut nv: usize = 0;
        loop
            invariant
                self.wf(),
                nv + count_unverified(self.binds@) <= c0,
                c0 <= usize::MAX,
                forall|k: Seq<char>|
                    m0.contains_key(k) && ((#[trigger] m0[k]) is Verified || m0[k] is Inline
                        || m0[k] is Not) ==> self@.contains_key(k) && self@[k] == m0[k],
                forall|k: Seq<char>| #[trigger] self@.contains_key(k) ==> m0.contains_key(k),
                forall|k: Seq<char>|
                    m0.contains_key(k) && !(#[trigger] self@.contains_key(k)) ==> m0[k] is Unverified,
                forall|k: Seq<char>|
                    #[trigger] self@.contains_key(k) && self@[k] is Unverified ==> m0.contains_key(k)
                        && m0[k] == self@[k],
                unique_verified(m0) ==> unique_verified(self@),
                forall|k: Seq<char>|
                    m0.contains_key(k) && (#[trigger] m0[k]) is Unverified && sole_claimant(m0, k)
                        ==> self@.contains_key(k) && self@[k] == m0[k] && sole_claimant(self@, k),
                forall|k: Seq<char>|
                    #[trigger] self@.contains_key(k) ==> self@[k] == m0[k] || (m0[k] is Unverified
                        && (self@[k] == BindV::Verified(m0[k]->Unverified_0) || self@[k]
                        == BindV::Not(seq![m0[k]->Unverified_0]))),
                reconcile_reaches(m0, self@, steps),
                count_verified(self.binds@) == cv0 + nv,
            ensures
                self.wf(),
                unverified_isolated(self@),
                nv + count_unverified(self.binds@) <= c0,
                forall|k: Seq<char>|
                    m0.contains_key(k) && ((#[trigger] m0[k]) is Verified || m0[k] is Inline
                        || m0[k] is Not) ==> self@.contains_key(k) && self@[k] == m0[k],
                forall|k: Seq<char>| #[trigger] self@.contains_key(k) ==> m0.contains_key(k),
                forall|k: Seq<char>|
                    m0.contains_key(k) && !(#[trigger] self@.contains_key(k)) ==> m0[k] is Unverified,
                forall|k: Seq<char>|
                    #[trigger] self@.contains_key(k) && self@[k] is Unverified ==> m0.contains_key(k)
                        && m0[k] == self@[k],
                unique_verified(m0) ==> unique_verified(self@),
                forall|k: Seq<char>|
                    m0.contains_key(k) && (#[trigger] m0[k]) is Unverified && sole_claimant(m0, k)
                        ==> self@.contains_key(k) && self@[k] == m0[k] && sole_claimant(self@, k),
                forall|k: Seq<char>|
                    #[trigger] self@.contains_key(k) ==> self@[k] == m0[k] || (m0[k] is Unverified
                        && (self@[k] == BindV::Verified(m0[k]->Unverified_0) || self@[k]
                        == BindV::Not(seq![m0[k]->Unverified_0]))),
                reconcile_reaches(m0, self@, steps),
                count_verified(self.binds@) == cv0 + nv,
            decreases count_unverified(self.binds@),
        {
            let addr = match find_unverified_conflict(self) {
                None => {
                    break;
                },
                Some(addr) => addr,
            };
            let ghost pre = self@;
            proof {
                let (k1, k2) = choose|k1: Seq<char>, k2: Seq<char>|
                    #[trigger] pre.contains_key(k1) && #[trigger] pre.contains_key(k2) && k1 != k2
                        && pre[k1].get_addr() == Some::<u64>(addr) && pre[k2].get_addr() == Some::<u64>(addr)
                        && (pre[k1] is Unverified || pre[k2] is Unverified);
                if pre[k1] is Unverified {
                    assert(exists|i: int|
                        0 <= i < self.binds@.len() && (#[trigger] self.binds@[i].bind@) is Unverified) by {
                        crate::db::lemma_entries_map_domain(self.binds@, k1);
                        let i = choose|i: int| 0 <= i < self.binds@.len() && #[trigger] self.binds@[i].name@ == k1;
                        lemma_entries_map_index(self.binds@, i);
                        assert(self.binds@[i].bind@ is Unverified);
                    }
                } else {
                    assert(exists|i: int|
                        0 <= i < self.binds@.len() && (#[trigger] self.binds@[i].bind@) is Unverified) by {
                        crate::db::lemma_entries_map_domain(self.binds@, k2);
                        let i = choose|i: int| 0 <= i < self.binds@.len() && #[trigger] self.binds@[i].name@ == k2;
                        lemma_entries_map_index(self.binds@, i);
                        assert(self.binds@[i].bind@ is Unverified);
                    }
                }
                assert(count_unverified(self.binds@) >= 1) by {
                    let i = choose|i: int|
                        0 <= i < self.binds@.len() && (#[trigger] self.binds@[i].bind@) is Unverified;
                    lemma_count_positive(self.binds@, i);
                }
            }
            let added = handle_address(self, oracle, addr);
            proof {
                assert forall|k: Seq<char>|
                    m0.contains_key(k) && ((#[trigger] m0[k]) is Verified || m0[k] is Inline
                        || m0[k] is Not) implies self@.contains_key(k) && self@[k] == m0[k] by {
                    assert(pre.contains_key(k) && pre[k] == m0[k]);
                    if m0[k] is Not {
                        assert(pre[k].get_addr() != Some::<u64>(addr));
                    }
                }
                assert forall|k: Seq<char>|
                    m0.contains_key(k) && (#[trigger] m0[k]) is Unverified && sole_claimant(m0, k) implies
                    self@.contains_key(k) && self@[k] == m0[k] && sole_claimant(self@, k) by {
                    assert(pre.contains_key(k) && pre[k] == m0[k] && sole_claimant(pre, k));
                    let (k1, k2) = choose|k1: Seq<char>, k2: Seq<char>|
                        #[trigger] pre.contains_key(k1) && #[trigger] pre.contains_key(k2) && k1 != k2
                            && pre[k1].get_addr() == Some::<u64>(addr) && pre[k2].get_addr()
                            == Some::<u64>(addr) && (pre[k1] is Unverified || pre[k2] is Unverified);
                    assert(pre[k].get_addr() != Some::<u64>(addr)) by {
                        if pre[k].get_addr() == Some::<u64>(addr) {
                            if k1 != k {
                                assert(pre[k1].get_addr() == pre[k].get_addr());
                            } else {
                                assert(pre[k2].get_addr() == pre[k].get_addr());
                            }
                        }
                    }
                    assert(self@.contains_key(k) && self@[k] == pre[k]);
                    assert forall|k3: Seq<char>|
                        self@.contains_key(k3) && k3 != k implies (#[trigger] self@[k3]).get_addr()
                        != self@[k].get_addr() by {
                        assert(pre.contains_key(k3));
                        if self@[k3] == pre[k3] {
                        } else {
                            assert(self@[k3] == BindV::Verified(addr) || self@[k3] == BindV::Not(
                                seq![addr],
                            ));
                        }
                    }
                }
                assert forall|k: Seq<char>|
                    #[trigger] self@.contains_key(k) implies self@[k] == m0[k] || (m0[k] is Unverified
                    && (self@[k] == BindV::Verified(m0[k]->Unverified_0) || self@[k] == BindV::Not(
                    seq![m0[k]->Unverified_0],
                ))) by {
                    assert(pre.contains_key(k));
                    if self@[k] != pre[k] {
                        assert(pre[k] is Unverified && pre[k].get_addr() == Some::<u64>(addr)
                            && (self@[k] == BindV::Verified(addr) || self@[k] == BindV::Not(
                            seq![addr],
                        )));
                        assert(m0.contains_key(k) && m0[k] == pre[k]);
                    }
                }
                assert(reconcile_reaches(m0, self@, steps + 1)) by {
                    assert(reconcile_reaches(m0, pre, steps) && unverified_conflict_at(pre, addr)
                        && resolve_step(pre, addr, self@));
                }
                steps = steps + 1;
            }
            nv = nv + added;
        }
        proof {
            if unique_verified(m0) {
                lemma_unique_claims_parts(self@);
            }
            assert(reconcile_reaches(m0, self@, steps));
        }
        nv
    }
}

impl BindDB {
    /// Merge a candidate batch, then reconcile. Every proposal goes through
    /// the merge table, with the oracle deciding conflicts; afterwards no
    /// `Unverified` entry shares its address with another claimant. `Verified`
    /// and `Inline` entries are never changed; only `Unverified` entries can
    /// disappear; new names come only from the batch. Returns how many names
    /// were added and how many entries became `Verified` — one per
    /// confirmation the oracle granted — for observability.
    pub fn process<O: Oracle>(&mut self, new: Batch, oracle: &mut O) -> (counts: (usize, usize))
        requires
            old(self).wf(),
        ensures
            final(self).wf(),
            forall|k: Seq<char>|
                old(self)@.contains_key(k) && ((#[trigger] old(self)@[k]) is Verified || old(
                    self,
                )@[k] is Inline) ==> final(self)@.contains_key(k) && final(self)@[k] == old(self)@[k],
            forall|k: Seq<char>|
                #[trigger] final(self)@.contains_key(k) && !old(self)@.contains_key(k) ==> new@.contains_key(k),
            forall|k: Seq<char>|
                old(self)@.contains_key(k) && !(#[trigger] final(self)@.contains_key(k)) ==> old(
                    self,
                )@[k] is Unverified,
            unverified_isolated(final(self)@),
            exists|mid: Map<Seq<char>, BindV>|
                #[trigger] merge_batch_rel(old(self)@, new.entries@, mid) && reconciled(
                    mid,
                    final(self)@,
                ),
            counts.0 == if final(self).binds@.len() >= old(self).binds@.len() {
                final(self).binds@.len() - old(self).binds@.len()
            } else {
                0int
            },
            counts.1 + count_verified(old(self).binds@) == count_verified(final(self).binds@),
    {
        let before = self.binds.len();
        let ghost m_old = self@;
        let ghost cv_old = count_verified(old(self).binds@);
        proof {
            assert(new.entries@.subrange(0, 0) =~= Seq::<(String, u64)>::empty());
        }
        let mut mv: usize = 0;
        let mut idx: usize = 0;
        let n = new.entries.len();
        while idx < n
            invariant
                self.wf(),
                n == new.entries@.len(),
                idx <= n,
                merge_batch_rel(m_old, new.entries@.subrange(0, idx as int), self@),
                forall|k: Seq<char>| #[trigger] m_old.contains_key(k) ==> self@.contains_key(k),
                forall|k: Seq<char>|
                    m_old.contains_key(k) && ((#[trigger] m_old[k]) is Verified || m_old[k] is Inline)
                        ==> self@.contains_key(k) && self@[k] == m_old[k],
                forall|k: Seq<char>|
                    #[trigger] self@.contains_key(k) && !m_old.contains_key(k) ==> exists|i: int|
                        0 <= i < idx && #[trigger] new.entries@[i].0@ == k,
                forall|k: Seq<char>|
                    #[trigger] self@.contains_key(k) && self@[k] is Unverified && m_old.contains_key(k)
                        ==> m_old[k] == self@[k],
                count_verified(self.binds@) == cv_old + mv,
            decreases n - idx,
        {
            let ghost pre = self@;
            let ghost nm = new.entries@[idx as int].0@;
            let became = merge_entry(self, oracle, &new.entries[idx].0, new.entries[idx].1);
            if became {
                proof {
                    vstd::std_specs::vec::axiom_spec_len(&self.binds);
                    lemma_count_verified_le_len(self.binds@);
                }
                mv = mv + 1;
            }
            proof {
                let v = new.entries@[idx as int].1;
                assert(new.entries@.subrange(0, idx as int + 1) =~= new.entries@.subrange(
                    0,
                    idx as int,
                ).push(new.entries@[idx as int]));
                lemma_merge_batch_rel_snoc(
                    m_old,
                    new.entries@.subrange(0, idx as int),
                    pre,
                    new.entries@[idx as int],
                    self@,
                );
                let (a1, a2) = choose|a1: bool, a2: bool| self@ == merge_result(pre, nm, v, a1, a2);
                assert forall|k: Seq<char>| #[trigger] self@.contains_key(k) implies
                    pre.contains_key(k) || k == nm by {}
                assert forall|k: Seq<char>| #[trigger] pre.contains_key(k) implies
                    self@.contains_key(k) by {}
                assert forall|k: Seq<char>|
                    m_old.contains_key(k) && ((#[trigger] m_old[k]) is Verified || m_old[k] is Inline) implies
                    self@.contains_key(k) && self@[k] == m_old[k] by {
                    if k == nm {
                        assert(pre.contains_key(nm) && pre[nm] == m_old[k]);
                    }
                }
                assert forall|k: Seq<char>|
                    #[trigger] self@.contains_key(k) && self@[k] is Unverified && m_old.contains_key(k) implies
                    m_old[k] == self@[k] by {
                    if k == nm {
                        if pre.contains_key(nm) {
                            assert(self@[k] == pre[k]);
                        } else {
                            assert(!m_old.contains_key(k));
                        }
                    }
                }
            }
            idx = idx + 1;
        }
        proof {
            assert(new.entries@.subrange(0, n as int) =~= new.entries@);
        }
        let ghost mid = self@;
        let rv = self.reconcile(oracle);
        proof {
            assert(merge_batch_rel(m_old, new.entries@, mid) && reconciled(mid, self@));
            assert forall|k: Seq<char>|
                #[trigger] self@.contains_key(k) && !m_old.contains_key(k) implies new@.contains_key(k) by {
                let i = choose|i: int| 0 <= i < n && #[trigger] new.entries@[i].0@ == k;
                lemma_batch_map_domain(new.entries@, k);
            }
        }
        let after = self.binds.len();
        let added = if after >= before {
            after - before
        } else {
            0
        };
        proof {
            vstd::std_specs::vec::axiom_spec_len(&self.binds);
            lemma_count_verified_le_len(self.binds@);
        }
        let verified_total = mv + rv;
        (added, verified_total)
    }
}

/// An `Unverified` entry anywhere makes the count positive.
proof fn lemma_count_positive(s: Seq<BindEntry>, i: int)
    requires
        0 <= i < s.len(),
        s[i].bind@ is Unverified,
    ensures
        count_unverified(s) >= 1,
    decreases s.len(),
{
    if i == s.len() - 1 {
    } else {
        assert(s.drop_last()[i] == s[i]);
        lemma_count_positive(s.drop_last(), i);
    }
}

} // verus!
