//! The matching engine: the block matcher, xref- and block-level binding,
//! the propagation strategies, and vtable seeding.

use vstd::prelude::*;
use crate::db::{
    Address, Bind, BindDB, BindEntry, BindV, Block, Branch, Dest, ExecDB, ExecPair, Function,
    StringRef, Vtable, first_block, first_fn,
};
use crate::batch::Batch;

verus! {

/// The name of the input function whose entry address is `fa`, if it has
/// one.
pub open spec fn input_fn_name(pair: ExecPair, fa: u64) -> Option<Seq<char>> {
    match first_fn(pair.input.fns@, fa) {
        None => None,
        Some(f) => match f.name {
            None => None,
            Some(n) => Some(n@),
        },
    }
}

/// The output address `name` currently stands at, if the database binds it
/// to one.
pub open spec fn bound_addr(m: Map<Seq<char>, BindV>, name: Seq<char>) -> Option<u64> {
    if m.contains_key(name) {
        m[name].get_addr()
    } else {
        None
    }
}

/// Two blocks reference the same string literals, in the same order.
pub open spec fn strings_match(a: Block, b: Block) -> bool {
    a.strings.deep_view() == b.strings.deep_view()
}

/// One call slot of the input block is compatible with the corresponding
/// output slot: both unknown, or both known with the input callee's name
/// unbound (nothing refutes the match), named and bound to exactly the
/// output callee. A callee bound to no address (`Not`, `Inline`) refutes it.
pub open spec fn call_compatible(m: Map<Seq<char>, BindV>, pair: ExecPair, ic: Dest, oc: Dest) -> bool {
    match (ic, oc) {
        (Dest::Unknown, Dest::Unknown) => true,
        (Dest::Known(ia), Dest::Known(oa)) => match input_fn_name(pair, ia) {
            None => true,
            Some(nm) => if !m.contains_key(nm) {
                true
            } else {
                match m[nm].get_addr() {
                    Some(a) => a == oa,
                    None => false,
                }
            },
        },
        _ => false,
    }
}

/// The blocks have the same call count and every slot pair is compatible.
pub open spec fn calls_match(m: Map<Seq<char>, BindV>, pair: ExecPair, a: Block, b: Block) -> bool {
    &&& b.calls@.len() == a.calls@.len()
    &&& forall|k: int|
        0 <= k < a.calls@.len() ==> #[trigger] call_compatible(m, pair, a.calls@[k], b.calls@[k])
}

/// The candidate keeps only blocks inside the function at `t`.
pub open spec fn fn_addr_pred(t: u64) -> spec_fn(Block) -> bool {
    |b: Block| b.address.function_addr == t
}

/// The candidate's strings equal the reference block's.
pub open spec fn strings_pred(in_blk: Block) -> spec_fn(Block) -> bool {
    |b: Block| strings_match(in_blk, b)
}

/// The candidate's call shape is compatible with the reference block's.
pub open spec fn calls_pred(m: Map<Seq<char>, BindV>, pair: ExecPair, in_blk: Block) -> spec_fn(
    Block,
) -> bool {
    |b: Block| calls_match(m, pair, in_blk, b)
}

/// Both the string and the call filters accept the candidate.
pub open spec fn both_pred(m: Map<Seq<char>, BindV>, pair: ExecPair, in_blk: Block) -> spec_fn(
    Block,
) -> bool {
    |b: Block| strings_match(in_blk, b) && calls_match(m, pair, in_blk, b)
}

/// The blocks a sequence of references points at.
pub open spec fn deref_blocks(s: Seq<&Block>) -> Seq<Block> {
    s.map_values(|b: &Block| *b)
}

/// Where the database already binds the name of the reference block's
/// enclosing function, only candidates inside that output function survive.
pub open spec fn sanity_addr(m: Map<Seq<char>, BindV>, pair: ExecPair, in_blk: Block) -> Option<u64> {
    match input_fn_name(pair, in_blk.address.function_addr) {
        None => None,
        Some(nm) => bound_addr(m, nm),
    }
}

/// The cascaded filter: string equality, then call shape, then their
/// intersection; the first stage with a unique survivor decides.
pub open spec fn cascade_spec(m: Map<Seq<char>, BindV>, pair: ExecPair, in_blk: Block, cands: Seq<Block>) -> Option<
    Block,
> {
    let sm = cands.filter(strings_pred(in_blk));
    let cm = cands.filter(calls_pred(m, pair, in_blk));
    let bm = cands.filter(both_pred(m, pair, in_blk));
    if sm.len() == 1 {
        Some(sm[0])
    } else if cm.len() == 1 {
        Some(cm[0])
    } else if bm.len() == 1 {
        Some(bm[0])
    } else {
        None
    }
}

/// What the block matcher returns: the sanity pre-filter on the enclosing
/// function, then the cascade, with a unique survivor at any stage returned
/// immediately.
pub open spec fn block_compare_spec(
    m: Map<Seq<char>, BindV>,
    pair: ExecPair,
    in_blk: Block,
    cands: Seq<Block>,
) -> Option<Block> {
    match sanity_addr(m, pair, in_blk) {
        None => cascade_spec(m, pair, in_blk, cands),
        Some(t) => {
            let restricted = cands.filter(fn_addr_pred(t));
            if restricted.len() == 0 {
                None
            } else if restricted.len() == 1 {
                Some(restricted[0])
            } else {
                cascade_spec(m, pair, in_blk, restricted)
            }
        },
    }
}

/// Element-wise equality of two string lists.
fn strings_eq(a: &Vec<String>, b: &Vec<String>) -> (r: bool)
    ensures
        r == (a.deep_view() == b.deep_view()),
{
    if a.len() != b.len() {
        proof {
            assert(a.deep_view().len() == a@.len());
            assert(b.deep_view().len() == b@.len());
        }
        return false;
    }
    let n = a.len();
    let mut i: usize = 0;
    while i < n
        invariant
            i <= n,
            n == a@.len(),
            n == b@.len(),
            forall|j: int| 0 <= j < i ==> a.deep_view()[j] == b.deep_view()[j],
        decreases n - i,
    {
        if a[i] != b[i] {
            proof {
                assert(a.deep_view()[i as int] == a@[i as int]@);
                assert(b.deep_view()[i as int] == b@[i as int]@);
            }
            return false;
        }
        proof {
            assert(a.deep_view()[i as int] == a@[i as int]@);
            assert(b.deep_view()[i as int] == b@[i as int]@);
        }
        i = i + 1;
    }
    proof {
        assert(a.deep_view() =~= b.deep_view());
    }
    true
}

/// One call-slot compatibility test; see [`call_compatible`].
fn call_compatible_exec(db: &BindDB, pair: &ExecPair, ic: &Dest, oc: &Dest) -> (r: bool)
    requires
        db.wf(),
    ensures
        r == call_compatible(db@, *pair, *ic, *oc),
{
    match (ic, oc) {
        (Dest::Unknown, Dest::Unknown) => true,
        (Dest::Known(ia), Dest::Known(oa)) => {
            match pair.input.fn_at(*ia) {
                None => true,
                Some(f) => match &f.name {
                    None => true,
                    Some(nm) => match db.get(nm) {
                        None => true,
                        Some(b) => match b.get_addr() {
                            Some(a) => a == *oa,
                            None => false,
                        },
                    },
                },
            }
        },
        _ => false,
    }
}

/// Whole-block call-shape compatibility; see [`calls_match`].
fn calls_match_exec(db: &BindDB, pair: &ExecPair, a: &Block, b: &Block) -> (r: bool)
    requires
        db.wf(),
    ensures
        r == calls_match(db@, *pair, *a, *b),
{
    if a.calls.len() != b.calls.len() {
        return false;
    }
    let n = a.calls.len();
    let mut i: usize = 0;
    while i < n
        invariant
            i <= n,
            n == a.calls@.len(),
            n == b.calls@.len(),
            db.wf(),
            forall|k: int| 0 <= k < i ==> #[trigger] call_compatible(db@, *pair, a.calls@[k], b.calls@[k]),
        decreases n - i,
    {
        if !call_compatible_exec(db, pair, &a.calls[i], &b.calls[i]) {
            return false;
        }
        i = i + 1;
    }
    true
}

/// Keep the candidates inside the output function at `t`.
fn filter_fn_addr<'a>(cands: &Vec<&'a Block>, t: u64) -> (r: Vec<&'a Block>)
    ensures
        deref_blocks(r@) == deref_blocks(cands@).filter(fn_addr_pred(t)),
{
    let mut out: Vec<&Block> = Vec::new();
    let n = cands.len();
    let mut i: usize = 0;
    proof {
        reveal(Seq::filter);
        assert(cands@.subrange(0, 0).map_values(|b: &Block| *b) =~= Seq::<Block>::empty());
    }
    while i < n
        invariant
            i <= n,
            n == cands@.len(),
            deref_blocks(out@) == deref_blocks(cands@.subrange(0, i as int)).filter(fn_addr_pred(t)),
        decreases n - i,
    {
        let ghost pre = deref_blocks(cands@.subrange(0, i as int));
        if cands[i].address.function_addr == t {
            out.push(cands[i]);
        }
        proof {
            reveal(Seq::filter);
            let post = deref_blocks(cands@.subrange(0, i as int + 1));
            assert(post.drop_last() =~= pre);
            assert(post.last() == *cands@[i as int]);
            if (fn_addr_pred(t))(*cands@[i as int]) {
                assert(deref_blocks(out@) =~= pre.filter(fn_addr_pred(t)).push(*cands@[i as int]));
            }
        }
        i = i + 1;
    }
    proof {
        assert(cands@.subrange(0, n as int) =~= cands@);
    }
    out
}

/// Keep the candidates whose strings equal the reference block's.
fn filter_strings<'a>(in_blk: &Block, cands: &Vec<&'a Block>) -> (r: Vec<&'a Block>)
    ensures
        deref_blocks(r@) == deref_blocks(cands@).filter(strings_pred(*in_blk)),
{
    let mut out: Vec<&Block> = Vec::new();
    let n = cands.len();
    let mut i: usize = 0;
    proof {
        reveal(Seq::filter);
        assert(cands@.subrange(0, 0).map_values(|b: &Block| *b) =~= Seq::<Block>::empty());
    }
    while i < n
        invariant
            i <= n,
            n == cands@.len(),
            deref_blocks(out@) == deref_blocks(cands@.subrange(0, i as int)).filter(strings_pred(*in_blk)),
        decreases n - i,
    {
        let ghost pre = deref_blocks(cands@.subrange(0, i as int));
        if strings_eq(&in_blk.strings, &cands[i].strings) {
            out.push(cands[i]);
        }
        proof {
            reveal(Seq::filter);
            let post = deref_blocks(cands@.subrange(0, i as int + 1));
            assert(post.drop_last() =~= pre);
            assert(post.last() == *cands@[i as int]);
            if (strings_pred(*in_blk))(*cands@[i as int]) {
                assert(deref_blocks(out@) =~= pre.filter(strings_pred(*in_blk)).push(*cands@[i as int]));
            }
        }
        i = i + 1;
    }
    proof {
        assert(cands@.subrange(0, n as int) =~= cands@);
    }
    out
}

/// Keep the candidates whose call shape is compatible with the reference
/// block's.
fn filter_calls<'a>(db: &BindDB, pair: &ExecPair, in_blk: &Block, cands: &Vec<&'a Block>) -> (r: Vec<
    &'a Block,
>)
    requires
        db.wf(),
    ensures
        deref_blocks(r@) == deref_blocks(cands@).filter(calls_pred(db@, *pair, *in_blk)),
{
    let mut out: Vec<&Block> = Vec::new();
    let n = cands.len();
    let mut i: usize = 0;
    proof {
        reveal(Seq::filter);
        assert(cands@.subrange(0, 0).map_values(|b: &Block| *b) =~= Seq::<Block>::empty());
    }
    while i < n
        invariant
            i <= n,
            n == cands@.len(),
            db.wf(),
            deref_blocks(out@) == deref_blocks(cands@.subrange(0, i as int)).filter(
                calls_pred(db@, *pair, *in_blk),
            ),
        decreases n - i,
    {
        let ghost pre = deref_blocks(cands@.subrange(0, i as int));
        if calls_match_exec(db, pair, in_blk, cands[i]) {
            out.push(cands[i]);
        }
        proof {
            reveal(Seq::filter);
            let post = deref_blocks(cands@.subrange(0, i as int + 1));
            assert(post.drop_last() =~= pre);
            assert(post.last() == *cands@[i as int]);
            if (calls_pred(db@, *pair, *in_blk))(*cands@[i as int]) {
                assert(deref_blocks(out@) =~= pre.filter(calls_pred(db@, *pair, *in_blk)).push(
                    *cands@[i as int],
                ));
            }
        }
        i = i + 1;
    }
    proof {
        assert(cands@.subrange(0, n as int) =~= cands@);
    }
    out
}

/// Keep the candidates that pass both the string and the call filter.
fn filter_both<'a>(db: &BindDB, pair: &ExecPair, in_blk: &Block, cands: &Vec<&'a Block>) -> (r: Vec<
    &'a Block,
>)
    requires
        db.wf(),
    ensures
        deref_blocks(r@) == deref_blocks(cands@).filter(both_pred(db@, *pair, *in_blk)),
{
    let mut out: Vec<&Block> = Vec::new();
    let n = cands.len();
    let mut i: usize = 0;
    proof {
        reveal(Seq::filter);
        assert(cands@.subrange(0, 0).map_values(|b: &Block| *b) =~= Seq::<Block>::empty());
    }
    while i < n
        invariant
            i <= n,
            n == cands@.len(),
            db.wf(),
            deref_blocks(out@) == deref_blocks(cands@.subrange(0, i as int)).filter(
                both_pred(db@, *pair, *in_blk),
            ),
        decreases n - i,
    {
        let ghost pre = deref_blocks(cands@.subrange(0, i as int));
        if strings_eq(&in_blk.strings, &cands[i].strings) && calls_match_exec(db, pair, in_blk, cands[i]) {
            out.push(cands[i]);
        }
        proof {
            reveal(Seq::filter);
            let post = deref_blocks(cands@.subrange(0, i as int + 1));
            assert(post.drop_last() =~= pre);
            assert(post.last() == *cands@[i as int]);
            if (both_pred(db@, *pair, *in_blk))(*cands@[i as int]) {
                assert(deref_blocks(out@) =~= pre.filter(both_pred(db@, *pair, *in_blk)).push(
                    *cands@[i as int],
                ));
            }
        }
        i = i + 1;
    }
    proof {
        assert(cands@.subrange(0, n as int) =~= cands@);
    }
    out
}

/// Pick the unique best match for `in_blk` among `out_blks`, or none: the
/// sanity pre-filter on the already-bound enclosing function, then string
/// equality, call shape, and their intersection, each stage deciding when it
/// leaves exactly one survivor.
pub fn block_compare<'a>(
    bind_db: &BindDB,
    pair: &ExecPair,
    in_blk: &Block,
    out_blks: Vec<&'a Block>,
) -> (r: Option<&'a Block>)
    requires
        bind_db.wf(),
    ensures
        match r {
            Some(b) => block_compare_spec(bind_db@, *pair, *in_blk, deref_blocks(out_blks@)) == Some(*b),
            None => block_compare_spec(bind_db@, *pair, *in_blk, deref_blocks(out_blks@)) is None,
        },
{
    let ghost cands0 = deref_blocks(out_blks@);
    let sanity: Option<u64> = match pair.input.fn_at(in_blk.address.function_addr) {
        None => None,
        Some(f) => match &f.name {
            None => None,
            Some(nm) => match bind_db.get(nm) {
                None => None,
                Some(b) => b.get_addr(),
            },
        },
    };
    proof {
        assert(sanity == sanity_addr(bind_db@, *pair, *in_blk));
    }
    let mut cands = out_blks;
    if let Some(t) = sanity {
        let restricted = filter_fn_addr(&cands, t);
        if restricted.len() == 0 {
            return None;
        }
        if restricted.len() == 1 {
            let b = restricted[0];
            proof {
                assert(deref_blocks(restricted@)[0] == *b);
            }
            return Some(b);
        }
        cands = restricted;
    }
    let ghost cascade_cands = deref_blocks(cands@);
    let sm = filter_strings(in_blk, &cands);
    if sm.len() == 1 {
        let b = sm[0];
        proof {
            assert(deref_blocks(sm@)[0] == *b);
        }
        return Some(b);
    }
    let cm = filter_calls(bind_db, pair, in_blk, &cands);
    if cm.len() == 1 {
        let b = cm[0];
        proof {
            assert(deref_blocks(cm@)[0] == *b);
        }
        return Some(b);
    }
    let bm = filter_both(bind_db, pair, in_blk, &cands);
    if bm.len() == 1 {
        let b = bm[0];
        proof {
            assert(deref_blocks(bm@)[0] == *b);
        }
        return Some(b);
    }
    None
}

/// Insert a sequence of proposals into a mapping, first to last, a later
/// proposal for the same name replacing the earlier address.
pub open spec fn insert_all(m: Map<Seq<char>, u64>, bs: Seq<(Seq<char>, u64)>) -> Map<Seq<char>, u64>
    decreases bs.len(),
{
    if bs.len() == 0 {
        m
    } else {
        insert_all(m.insert(bs[0].0, bs[0].1), bs.drop_first())
    }
}

/// The bindings one aligned block pair yields, walking the call lists in
/// lockstep from slot `i`: a known-known pair with a named input callee
/// yields a binding unless that callee is marked `Inline`, which abandons
/// the rest of the pair; an unknown-known mismatch abandons it too; aligned
/// unknowns and unnamed callees are skipped.
pub open spec fn calls_walk(
    m: Map<Seq<char>, BindV>,
    pair: ExecPair,
    ics: Seq<Dest>,
    ocs: Seq<Dest>,
    i: int,
) -> Seq<(Seq<char>, u64)>
    decreases ics.len() - i,
{
    if i < 0 || i >= ics.len() || i >= ocs.len() {
        Seq::empty()
    } else {
        match (ics[i], ocs[i]) {
            (Dest::Unknown, Dest::Unknown) => calls_walk(m, pair, ics, ocs, i + 1),
            (Dest::Known(ia), Dest::Known(oa)) => match input_fn_name(pair, ia) {
                None => calls_walk(m, pair, ics, ocs, i + 1),
                Some(nm) => if m.contains_key(nm) && m[nm] is Inline {
                    Seq::empty()
                } else {
                    seq![(nm, oa)] + calls_walk(m, pair, ics, ocs, i + 1)
                },
            },
            _ => Seq::empty(),
        }
    }
}

/// The blocks a sequence of reference pairs points at.
pub open spec fn deref_block_pairs(s: Seq<(&Block, &Block)>) -> Seq<(Block, Block)> {
    s.map_values(|p: (&Block, &Block)| (*p.0, *p.1))
}

/// Fold [`calls_walk`] over aligned block pairs, first to last.
pub open spec fn block_binds_fold(
    m: Map<Seq<char>, BindV>,
    pair: ExecPair,
    pairs: Seq<(Block, Block)>,
    acc: Map<Seq<char>, u64>,
) -> Map<Seq<char>, u64>
    decreases pairs.len(),
{
    if pairs.len() == 0 {
        acc
    } else {
        block_binds_fold(
            m,
            pair,
            pairs.drop_first(),
            insert_all(acc, calls_walk(m, pair, pairs[0].0.calls@, pairs[0].1.calls@, 0)),
        )
    }
}

/// What [`block_binds`] returns for a list of aligned pairs.
pub open spec fn block_binds_spec(m: Map<Seq<char>, BindV>, pair: ExecPair, pairs: Seq<(Block, Block)>) -> Map<
    Seq<char>,
    u64,
> {
    block_binds_fold(m, pair, pairs, Map::empty())
}

/// Walk one aligned pair's calls and add its bindings to `out`.
#[verifier::loop_isolation(false)]
fn pair_binds_into(db: &BindDB, pair: &ExecPair, a: &Block, b: &Block, out: &mut Batch)
    requires
        db.wf(),
        old(out).wf(),
    ensures
        final(out).wf(),
        final(out)@ == insert_all(old(out)@, calls_walk(db@, *pair, a.calls@, b.calls@, 0)),
{
    let n = if a.calls.len() <= b.calls.len() {
        a.calls.len()
    } else {
        b.calls.len()
    };
    let mut i: usize = 0;
    while i < n
        invariant
            i <= n,
            out.wf(),
            insert_all(old(out)@, calls_walk(db@, *pair, a.calls@, b.calls@, 0)) == insert_all(
                out@,
                calls_walk(db@, *pair, a.calls@, b.calls@, i as int),
            ),
        decreases n - i,
    {
        let ghost walk_i = calls_walk(db@, *pair, a.calls@, b.calls@, i as int);
        match (&a.calls[i], &b.calls[i]) {
            (Dest::Unknown, Dest::Unknown) => {},
            (Dest::Known(ia), Dest::Known(oa)) => {
                match pair.input.fn_at(*ia) {
                    None => {},
                    Some(f) => match &f.name {
                        None => {},
                        Some(nm) => {
                            let halt = match db.get(nm) {
                                Some(Bind::Inline) => true,
                                _ => false,
                            };
                            if halt {
                                return ;
                            }
                            out.insert(nm.clone(), *oa);
                            proof {
                                let rest = calls_walk(db@, *pair, a.calls@, b.calls@, i as int + 1);
                                assert(walk_i == seq![(nm@, *oa)] + rest);
                                assert((seq![(nm@, *oa)] + rest).drop_first() =~= rest);
                                assert((seq![(nm@, *oa)] + rest)[0] == (nm@, *oa));
                            }
                        },
                    },
                }
            },
            _ => {
                return ;
            },
        }
        i = i + 1;
    }
}

/// Walk each aligned block pair's calls in lockstep and bind every named
/// input callee to the corresponding output callee, abandoning a pair at an
/// `Inline` callee or a known-unknown mismatch.
#[verifier::loop_isolation(false)]
pub fn block_binds(bind_db: &BindDB, pair: &ExecPair, blocks: Vec<(&Block, &Block)>) -> (r: Batch)
    requires
        bind_db.wf(),
    ensures
        r.wf(),
        r@ == block_binds_spec(bind_db@, *pair, deref_block_pairs(blocks@)),
{
    let mut out = Batch::new();
    let n = blocks.len();
    let ghost all = deref_block_pairs(blocks@);
    proof {
        assert(all.skip(0) =~= all);
    }
    let mut i: usize = 0;
    while i < n
        invariant
            i <= n,
            out.wf(),
            block_binds_fold(bind_db@, *pair, all, Map::empty()) == block_binds_fold(
                bind_db@,
                *pair,
                all.skip(i as int),
                out@,
            ),
        decreases n - i,
    {
        let ghost suffix = all.skip(i as int);
        proof {
            assert(suffix[0] == (*blocks@[i as int].0, *blocks@[i as int].1));
            assert(suffix.drop_first() =~= all.skip(i as int + 1));
        }
        pair_binds_into(bind_db, pair, blocks[i].0, blocks[i].1, &mut out);
        i = i + 1;
    }
    proof {
        assert(all.skip(n as int).len() == 0);
    }
    out
}

/// The address lists a sequence of xref pairs points at.
pub open spec fn deref_xref_pairs(s: Seq<(&Vec<Address>, &Vec<Address>)>) -> Seq<(Seq<Address>, Seq<Address>)> {
    s.map_values(|p: (&Vec<Address>, &Vec<Address>)| (p.0@, p.1@))
}

/// The binding an xref pair with exactly one site on each side yields: the
/// input site's enclosing function name, if it has one, bound to the output
/// site's enclosing function.
pub open spec fn single_bind(pair: ExecPair, xp: (Seq<Address>, Seq<Address>)) -> Option<(Seq<char>, u64)> {
    if xp.0.len() == 1 && xp.1.len() == 1 {
        match input_fn_name(pair, xp.0[0].function_addr) {
            None => None,
            Some(nm) => Some((nm, xp.1[0].function_addr)),
        }
    } else {
        None
    }
}

/// Fold the single-site rule over the xref pairs, first to last.
pub open spec fn singles_fold(
    pair: ExecPair,
    xs: Seq<(Seq<Address>, Seq<Address>)>,
    acc: Map<Seq<char>, u64>,
) -> Map<Seq<char>, u64>
    decreases xs.len(),
{
    if xs.len() == 0 {
        acc
    } else {
        singles_fold(
            pair,
            xs.drop_first(),
            match single_bind(pair, xs[0]) {
                None => acc,
                Some(b) => acc.insert(b.0, b.1),
            },
        )
    }
}

/// The blocks the sites resolve to, unresolvable sites skipped.
pub open spec fn resolved_blocks(db: ExecDB, ys: Seq<Address>) -> Seq<Block>
    decreases ys.len(),
{
    if ys.len() == 0 {
        Seq::empty()
    } else {
        match db.addr_to_block_spec(ys[0]) {
            None => resolved_blocks(db, ys.drop_first()),
            Some(b) => seq![b] + resolved_blocks(db, ys.drop_first()),
        }
    }
}

/// The bindings a many-sited xref pair yields from site `i` on: each input
/// site's block is matched against the resolved output blocks, and a unique
/// match with a named enclosing function yields a binding.
pub open spec fn multi_emits(
    m: Map<Seq<char>, BindV>,
    pair: ExecPair,
    xs_in: Seq<Address>,
    oblocks: Seq<Block>,
    i: int,
) -> Seq<(Seq<char>, u64)>
    decreases xs_in.len() - i,
{
    if i < 0 || i >= xs_in.len() {
        Seq::empty()
    } else {
        let rest = multi_emits(m, pair, xs_in, oblocks, i + 1);
        match pair.input.addr_to_block_spec(xs_in[i]) {
            None => rest,
            Some(ib) => match block_compare_spec(m, pair, ib, oblocks) {
                None => rest,
                Some(ob) => match input_fn_name(pair, ib.address.function_addr) {
                    None => rest,
                    Some(nm) => seq![(nm, ob.address.function_addr)] + rest,
                },
            },
        }
    }
}

/// The bindings one xref pair yields: the single-site rule needs no
/// matching; pairs with several sites on both ends go through the block
/// matcher; asymmetric pairs yield nothing.
pub open spec fn multi_pair_binds(m: Map<Seq<char>, BindV>, pair: ExecPair, xp: (Seq<Address>, Seq<Address>)) -> Seq<
    (Seq<char>, u64),
> {
    if xp.0.len() > 1 && xp.1.len() > 1 {
        multi_emits(m, pair, xp.0, resolved_blocks(pair.output, xp.1), 0)
    } else {
        Seq::empty()
    }
}

/// Fold the many-site rule over the xref pairs, first to last.
pub open spec fn multis_fold(
    m: Map<Seq<char>, BindV>,
    pair: ExecPair,
    xs: Seq<(Seq<Address>, Seq<Address>)>,
    acc: Map<Seq<char>, u64>,
) -> Map<Seq<char>, u64>
    decreases xs.len(),
{
    if xs.len() == 0 {
        acc
    } else {
        multis_fold(m, pair, xs.drop_first(), insert_all(acc, multi_pair_binds(m, pair, xs[0])))
    }
}

/// What [`xref_binds`] returns: the single-site pass, then the many-site
/// pass over the same pairs.
pub open spec fn xref_binds_spec(m: Map<Seq<char>, BindV>, pair: ExecPair, xs: Seq<(Seq<Address>, Seq<Address>)>) -> Map<
    Seq<char>,
    u64,
> {
    multis_fold(m, pair, xs, singles_fold(pair, xs, Map::empty()))
}

/// A fresh vector of the same block references.
fn dup_block_refs<'a>(v: &Vec<&'a Block>) -> (r: Vec<&'a Block>)
    ensures
        r@ == v@,
{
    let mut out: Vec<&Block> = Vec::new();
    let mut i: usize = 0;
    while i < v.len()
        invariant
            i <= v@.len(),
            out@ == v@.subrange(0, i as int),
        decreases v@.len() - i,
    {
        out.push(v[i]);
        i = i + 1;
    }
    proof {
        assert(out@ =~= v@);
    }
    out
}

/// Derive bindings from paired reference sites: a pair with exactly one
/// site on each side binds directly; a pair with several sites on both
/// sides runs each input block through the block matcher; asymmetric pairs
/// are dropped as ambiguous.
#[verifier::loop_isolation(false)]
pub fn xref_binds(bind_db: &BindDB, pair: &ExecPair, xrefs: Vec<(&Vec<Address>, &Vec<Address>)>) -> (r: Batch)
    requires
        bind_db.wf(),
    ensures
        r.wf(),
        r@ == xref_binds_spec(bind_db@, *pair, deref_xref_pairs(xrefs@)),
{
    let ghost xs = deref_xref_pairs(xrefs@);
    let mut out = Batch::new();
    let n = xrefs.len();
    proof {
        assert(xs.skip(0) =~= xs);
    }
    let mut i: usize = 0;
    while i < n
        invariant
            i <= n,
            out.wf(),
            singles_fold(*pair, xs, Map::empty()) == singles_fold(*pair, xs.skip(i as int), out@),
        decreases n - i,
    {
        let ghost suffix = xs.skip(i as int);
        proof {
            assert(suffix[0] == (xrefs@[i as int].0@, xrefs@[i as int].1@));
            assert(suffix.drop_first() =~= xs.skip(i as int + 1));
        }
        let x = xrefs[i].0;
        let y = xrefs[i].1;
        if x.len() == 1 && y.len() == 1 {
            match pair.input.fn_at(x[0].function_addr) {
                None => {},
                Some(f) => match &f.name {
                    None => {},
                    Some(nm) => {
                        out.insert(nm.clone(), y[0].function_addr);
                    },
                },
            }
        }
        i = i + 1;
    }
    proof {
        assert(xs.skip(n as int).len() == 0);
    }
    let ghost mid = out@;
    let mut i: usize = 0;
    while i < n
        invariant
            i <= n,
            out.wf(),
            multis_fold(bind_db@, *pair, xs, mid) == multis_fold(bind_db@, *pair, xs.skip(i as int), out@),
        decreases n - i,
    {
        let ghost suffix = xs.skip(i as int);
        proof {
            assert(suffix[0] == (xrefs@[i as int].0@, xrefs@[i as int].1@));
            assert(suffix.drop_first() =~= xs.skip(i as int + 1));
        }
        let x = xrefs[i].0;
        let y = xrefs[i].1;
        if x.len() > 1 && y.len() > 1 {
            let ghost obs = resolved_blocks(pair.output, y@);
            let mut oblocks: Vec<&Block> = Vec::new();
            proof {
                assert(y@.skip(0) =~= y@);
                assert(deref_blocks(oblocks@) + resolved_blocks(pair.output, y@) =~= resolved_blocks(
                    pair.output,
                    y@,
                ));
            }
            let mut j: usize = 0;
            while j < y.len()
                invariant
                    j <= y@.len(),
                    obs == deref_blocks(oblocks@) + resolved_blocks(pair.output, y@.skip(j as int)),
                decreases y@.len() - j,
            {
                let ghost ysuf = y@.skip(j as int);
                proof {
                    assert(ysuf[0] == y@[j as int]);
                    assert(ysuf.drop_first() =~= y@.skip(j as int + 1));
                }
                let ghost before = deref_blocks(oblocks@);
                match pair.output.addr_to_block(&y[j]) {
                    None => {},
                    Some(b) => {
                        oblocks.push(b);
                        proof {
                            assert(deref_blocks(oblocks@) =~= before + seq![*b]);
                            assert((before + seq![*b]) + resolved_blocks(pair.output, y@.skip(j as int + 1))
                                =~= before + (seq![*b] + resolved_blocks(pair.output, y@.skip(j as int + 1))));
                        }
                    },
                }
                j = j + 1;
            }
            proof {
                assert(y@.skip(y@.len() as int).len() == 0);
                assert(deref_blocks(oblocks@) + resolved_blocks(pair.output, y@.skip(y@.len() as int))
                    =~= deref_blocks(oblocks@));
                assert(obs == deref_blocks(oblocks@));
            }
            let ghost pre_out = out@;
            let mut k: usize = 0;
            while k < x.len()
                invariant
                    k <= x@.len(),
                    out.wf(),
                    obs == deref_blocks(oblocks@),
                    insert_all(pre_out, multi_emits(bind_db@, *pair, x@, obs, 0)) == insert_all(
                        out@,
                        multi_emits(bind_db@, *pair, x@, obs, k as int),
                    ),
                decreases x@.len() - k,
            {
                let ghost emits_k = multi_emits(bind_db@, *pair, x@, obs, k as int);
                match pair.input.addr_to_block(&x[k]) {
                    None => {},
                    Some(ib) => {
                        match block_compare(bind_db, pair, ib, dup_block_refs(&oblocks)) {
                            None => {},
                            Some(ob) => {
                                match pair.input.fn_at(ib.address.function_addr) {
                                    None => {},
                                    Some(f) => match &f.name {
                                        None => {},
                                        Some(nm) => {
                                            out.insert(nm.clone(), ob.address.function_addr);
                                            proof {
                                                let rest = multi_emits(
                                                    bind_db@,
                                                    *pair,
                                                    x@,
                                                    obs,
                                                    k as int + 1,
                                                );
                                                assert(emits_k == seq![(nm@, ob.address.function_addr)] + rest);
                                                assert((seq![(nm@, ob.address.function_addr)] + rest).drop_first()
                                                    =~= rest);
                                                assert((seq![(nm@, ob.address.function_addr)] + rest)[0]
                                                    == (nm@, ob.address.function_addr));
                                            }
                                        },
                                    },
                                }
                            },
                        }
                    },
                }
                k = k + 1;
            }
            proof {
                assert(multi_emits(bind_db@, *pair, x@, obs, x@.len() as int).len() == 0);
                assert(multi_pair_binds(bind_db@, *pair, suffix[0]) == multi_emits(
                    bind_db@,
                    *pair,
                    x@,
                    obs,
                    0,
                ));
            }
        } else {
            proof {
                assert(multi_pair_binds(bind_db@, *pair, suffix[0]).len() == 0);
            }
        }
        i = i + 1;
    }
    proof {
        assert(xs.skip(n as int).len() == 0);
    }
    out
}

/// The first string record bearing the literal `lit`.
pub open spec fn first_string(s: Seq<StringRef>, lit: Seq<char>) -> Option<StringRef>
    decreases s.len(),
{
    if s.len() == 0 {
        None
    } else if s[0].string@ == lit {
        Some(s[0])
    } else {
        first_string(s.drop_first(), lit)
    }
}

/// Look a string record up by its literal.
#[verifier::loop_isolation(false)]
fn find_string<'a>(v: &'a Vec<StringRef>, lit: &String) -> (r: Option<&'a StringRef>)
    ensures
        match r {
            Some(sr) => first_string(v@, lit@) == Some(*sr),
            None => first_string(v@, lit@) is None,
        },
{
    let n = v.len();
    proof {
        assert(v@.subrange(0, n as int) =~= v@);
    }
    let mut i: usize = 0;
    while i < n
        invariant
            i <= n,
            first_string(v@, lit@) == first_string(v@.subrange(i as int, n as int), lit@),
        decreases n - i,
    {
        let ghost suffix = v@.subrange(i as int, n as int);
        proof {
            assert(suffix[0] == v@[i as int]);
            assert(suffix.drop_first() =~= v@.subrange(i as int + 1, n as int));
        }
        if v[i].string == *lit {
            return Some(&v[i]);
        }
        i = i + 1;
    }
    proof {
        assert(v@.subrange(n as int, n as int).len() == 0);
    }
    None
}

/// The xref pairs the string strategy builds, from input string record `i`
/// on: each literal present in both binaries pairs its reference lists.
pub open spec fn string_pairs_spec(pair: ExecPair, i: int) -> Seq<(Seq<Address>, Seq<Address>)>
    decreases pair.input.strings@.len() - i,
{
    if i < 0 || i >= pair.input.strings@.len() {
        Seq::empty()
    } else {
        let rest = string_pairs_spec(pair, i + 1);
        match first_string(pair.output.strings@, pair.input.strings@[i].string@) {
            None => rest,
            Some(osr) => seq![(pair.input.strings@[i].xrefs@, osr.xrefs@)] + rest,
        }
    }
}

/// Bind names through string literals present in both binaries; see
/// [`xref_binds`].
#[verifier::loop_isolation(false)]
pub fn string_xref_strat(pair: &ExecPair, binds: &BindDB) -> (r: Batch)
    requires
        binds.wf(),
    ensures
        r.wf(),
        r@ == xref_binds_spec(binds@, *pair, string_pairs_spec(*pair, 0)),
{
    let mut pairs: Vec<(&Vec<Address>, &Vec<Address>)> = Vec::new();
    let n = pair.input.strings.len();
    let mut i: usize = 0;
    proof {
        assert(deref_xref_pairs(pairs@) + string_pairs_spec(*pair, 0) =~= string_pairs_spec(*pair, 0));
    }
    while i < n
        invariant
            i <= n,
            n == pair.input.strings@.len(),
            string_pairs_spec(*pair, 0) == deref_xref_pairs(pairs@) + string_pairs_spec(*pair, i as int),
        decreases n - i,
    {
        let ghost before = deref_xref_pairs(pairs@);
        match find_string(&pair.output.strings, &pair.input.strings[i].string) {
            None => {},
            Some(osr) => {
                pairs.push((&pair.input.strings[i].xrefs, &osr.xrefs));
                proof {
                    assert(deref_xref_pairs(pairs@) =~= before + seq![
                        (pair.input.strings@[i as int].xrefs@, osr.xrefs@),
                    ]);
                    assert((before + seq![(pair.input.strings@[i as int].xrefs@, osr.xrefs@)])
                        + string_pairs_spec(*pair, i as int + 1) =~= before + (seq![
                        (pair.input.strings@[i as int].xrefs@, osr.xrefs@),
                    ] + string_pairs_spec(*pair, i as int + 1)));
                }
            },
        }
        i = i + 1;
    }
    proof {
        assert(string_pairs_spec(*pair, n as int).len() == 0);
        assert(deref_xref_pairs(pairs@) + string_pairs_spec(*pair, n as int) =~= deref_xref_pairs(pairs@));
    }
    xref_binds(binds, pair, pairs)
}

/// The xref pairs the call strategies build, from input function `i` on:
/// each named input function already bound to an output address pairs its
/// incoming call sites with that output function's.
pub open spec fn call_pairs_spec(m: Map<Seq<char>, BindV>, pair: ExecPair, i: int) -> Seq<
    (Seq<Address>, Seq<Address>),
>
    decreases pair.input.fns@.len() - i,
{
    if i < 0 || i >= pair.input.fns@.len() {
        Seq::empty()
    } else {
        let rest = call_pairs_spec(m, pair, i + 1);
        match pair.input.fns@[i].name {
            None => rest,
            Some(nm) => match bound_addr(m, nm@) {
                None => rest,
                Some(t) => match first_fn(pair.output.fns@, t) {
                    None => rest,
                    Some(of) => seq![(pair.input.fns@[i].xrefs@, of.xrefs@)] + rest,
                },
            },
        }
    }
}

/// Collect the call-site pairs of every bound input function.
#[verifier::loop_isolation(false)]
fn collect_call_pairs<'a>(pair: &'a ExecPair, binds: &BindDB) -> (r: Vec<(&'a Vec<Address>, &'a Vec<Address>)>)
    requires
        binds.wf(),
    ensures
        deref_xref_pairs(r@) == call_pairs_spec(binds@, *pair, 0),
{
    let mut pairs: Vec<(&Vec<Address>, &Vec<Address>)> = Vec::new();
    let n = pair.input.fns.len();
    let mut i: usize = 0;
    proof {
        assert(deref_xref_pairs(pairs@) + call_pairs_spec(binds@, *pair, 0) =~= call_pairs_spec(
            binds@,
            *pair,
            0,
        ));
    }
    while i < n
        invariant
            i <= n,
            n == pair.input.fns@.len(),
            call_pairs_spec(binds@, *pair, 0) == deref_xref_pairs(pairs@) + call_pairs_spec(
                binds@,
                *pair,
                i as int,
            ),
        decreases n - i,
    {
        let ghost before = deref_xref_pairs(pairs@);
        let f = &pair.input.fns[i];
        match &f.name {
            None => {},
            Some(nm) => {
                let t = match binds.get(nm) {
                    None => None,
                    Some(b) => b.get_addr(),
                };
                proof {
                    assert(t == bound_addr(binds@, nm@));
                }
                match t {
                    None => {},
                    Some(t) => match pair.output.fn_at(t) {
                        None => {},
                        Some(of) => {
                            pairs.push((&f.xrefs, &of.xrefs));
                            proof {
                                assert(deref_xref_pairs(pairs@) =~= before + seq![(f.xrefs@, of.xrefs@)]);
                                assert((before + seq![(f.xrefs@, of.xrefs@)]) + call_pairs_spec(
                                    binds@,
                                    *pair,
                                    i as int + 1,
                                ) =~= before + (seq![(f.xrefs@, of.xrefs@)] + call_pairs_spec(
                                    binds@,
                                    *pair,
                                    i as int + 1,
                                )));
                            }
                        },
                    },
                }
            },
        }
        i = i + 1;
    }
    proof {
        assert(call_pairs_spec(binds@, *pair, n as int).len() == 0);
        assert(deref_xref_pairs(pairs@) + call_pairs_spec(binds@, *pair, n as int) =~= deref_xref_pairs(
            pairs@,
        ));
    }
    pairs
}

/// Bind names through the call sites of functions already bound; see
/// [`xref_binds`].
pub fn call_xref_strat(pair: &ExecPair, binds: &BindDB) -> (r: Batch)
    requires
        binds.wf(),
    ensures
        r.wf(),
        r@ == xref_binds_spec(binds@, *pair, call_pairs_spec(binds@, *pair, 0)),
{
    let call_pairs = collect_call_pairs(pair, binds);
    xref_binds(binds, pair, call_pairs)
}

/// Only blocks whose enclosing function is the bound address `t` survive.
pub open spec fn fn_opt_pred(t: Option<u64>) -> spec_fn(Block) -> bool {
    |b: Block| Some(b.address.function_addr) == t
}

/// Keep the candidates whose enclosing function is the bound address `t`.
fn filter_fn_opt<'a>(cands: &Vec<&'a Block>, t: Option<u64>) -> (r: Vec<&'a Block>)
    ensures
        deref_blocks(r@) == deref_blocks(cands@).filter(fn_opt_pred(t)),
{
    let mut out: Vec<&Block> = Vec::new();
    let n = cands.len();
    let mut i: usize = 0;
    proof {
        reveal(Seq::filter);
        assert(cands@.subrange(0, 0).map_values(|b: &Block| *b) =~= Seq::<Block>::empty());
    }
    while i < n
        invariant
            i <= n,
            n == cands@.len(),
            deref_blocks(out@) == deref_blocks(cands@.subrange(0, i as int)).filter(fn_opt_pred(t)),
        decreases n - i,
    {
        let ghost pre = deref_blocks(cands@.subrange(0, i as int));
        if Some(cands[i].address.function_addr) == t {
            out.push(cands[i]);
        }
        proof {
            reveal(Seq::filter);
            let post = deref_blocks(cands@.subrange(0, i as int + 1));
            assert(post.drop_last() =~= pre);
            assert(post.last() == *cands@[i as int]);
            if (fn_opt_pred(t))(*cands@[i as int]) {
                assert(deref_blocks(out@) =~= pre.filter(fn_opt_pred(t)).push(*cands@[i as int]));
            }
        }
        i = i + 1;
    }
    proof {
        assert(cands@.subrange(0, n as int) =~= cands@);
    }
    out
}

/// The aligned block pair one call site yields: the site's block, paired
/// with the unique resolved output block inside the function its enclosing
/// function's name is bound to.
pub open spec fn aligned_for_xref(m: Map<Seq<char>, BindV>, pair: ExecPair, x: Address, obs: Seq<Block>) -> Option<
    (Block, Block),
> {
    match input_fn_name(pair, x.function_addr) {
        None => None,
        Some(nm) => match pair.input.addr_to_block_spec(x) {
            None => None,
            Some(ib) => {
                let poss = obs.filter(fn_opt_pred(bound_addr(m, nm)));
                if poss.len() == 1 {
                    Some((ib, poss[0]))
                } else {
                    None
                }
            },
        },
    }
}

/// The aligned pairs one call-site pairing yields, from input site `k` on.
pub open spec fn aligned_pairs_for(
    m: Map<Seq<char>, BindV>,
    pair: ExecPair,
    ixs: Seq<Address>,
    obs: Seq<Block>,
    k: int,
) -> Seq<(Block, Block)>
    decreases ixs.len() - k,
{
    if k < 0 || k >= ixs.len() {
        Seq::empty()
    } else {
        let rest = aligned_pairs_for(m, pair, ixs, obs, k + 1);
        match aligned_for_xref(m, pair, ixs[k], obs) {
            None => rest,
            Some(p) => seq![p] + rest,
        }
    }
}

/// All aligned pairs the call-block strategy feeds to [`block_binds`], from
/// call-site pairing `j` on.
pub open spec fn call_block_pairs(
    m: Map<Seq<char>, BindV>,
    pair: ExecPair,
    cps: Seq<(Seq<Address>, Seq<Address>)>,
    j: int,
) -> Seq<(Block, Block)>
    decreases cps.len() - j,
{
    if j < 0 || j >= cps.len() {
        Seq::empty()
    } else {
        aligned_pairs_for(m, pair, cps[j].0, resolved_blocks(pair.output, cps[j].1), 0)
            + call_block_pairs(m, pair, cps, j + 1)
    }
}

/// Align the blocks around each bound function's call sites through the
/// database and walk the aligned pairs; see [`block_binds`].
#[verifier::loop_isolation(false)]
pub fn call_block_strat(pair: &ExecPair, binds: &BindDB) -> (r: Batch)
    requires
        binds.wf(),
    ensures
        r.wf(),
        r@ == block_binds_spec(
            binds@,
            *pair,
            call_block_pairs(binds@, *pair, call_pairs_spec(binds@, *pair, 0), 0),
        ),
{
    let call_pairs = collect_call_pairs(pair, binds);
    let ghost cps = deref_xref_pairs(call_pairs@);
    let mut blocks: Vec<(&Block, &Block)> = Vec::new();
    let nj = call_pairs.len();
    let mut j: usize = 0;
    proof {
        assert(deref_block_pairs(blocks@) + call_block_pairs(binds@, *pair, cps, 0) =~= call_block_pairs(
            binds@,
            *pair,
            cps,
            0,
        ));
    }
    while j < nj
        invariant
            j <= nj,
            nj == call_pairs@.len(),
            binds.wf(),
            cps == deref_xref_pairs(call_pairs@),
            call_block_pairs(binds@, *pair, cps, 0) == deref_block_pairs(blocks@) + call_block_pairs(
                binds@,
                *pair,
                cps,
                j as int,
            ),
        decreases nj - j,
    {
        let ixs = call_pairs[j].0;
        let oxs = call_pairs[j].1;
        proof {
            assert(cps[j as int] == (ixs@, oxs@));
        }
        let ghost obs = resolved_blocks(pair.output, oxs@);
        let mut oblocks: Vec<&Block> = Vec::new();
        proof {
            assert(oxs@.skip(0) =~= oxs@);
            assert(deref_blocks(oblocks@) + resolved_blocks(pair.output, oxs@) =~= resolved_blocks(
                pair.output,
                oxs@,
            ));
        }
        let mut p: usize = 0;
        while p < oxs.len()
            invariant
                p <= oxs@.len(),
                obs == deref_blocks(oblocks@) + resolved_blocks(pair.output, oxs@.skip(p as int)),
            decreases oxs@.len() - p,
        {
            let ghost ysuf = oxs@.skip(p as int);
            proof {
                assert(ysuf[0] == oxs@[p as int]);
                assert(ysuf.drop_first() =~= oxs@.skip(p as int + 1));
            }
            let ghost before = deref_blocks(oblocks@);
            match pair.output.addr_to_block(&oxs[p]) {
                None => {},
                Some(b) => {
                    oblocks.push(b);
                    proof {
                        assert(deref_blocks(oblocks@) =~= before + seq![*b]);
                        assert((before + seq![*b]) + resolved_blocks(pair.output, oxs@.skip(p as int + 1))
                            =~= before + (seq![*b] + resolved_blocks(pair.output, oxs@.skip(p as int + 1))));
                    }
                },
            }
            p = p + 1;
        }
        proof {
            assert(oxs@.skip(oxs@.len() as int).len() == 0);
            assert(deref_blocks(oblocks@) + resolved_blocks(pair.output, oxs@.skip(oxs@.len() as int))
                =~= deref_blocks(oblocks@));
            assert(obs == deref_blocks(oblocks@));
        }
        let ghost blocks_at_j = deref_block_pairs(blocks@);
        let ghost mut emitted: Seq<(Block, Block)> = Seq::empty();
        proof {
            assert(blocks_at_j + emitted =~= blocks_at_j);
        }
        let mut k: usize = 0;
        while k < ixs.len()
            invariant
                k <= ixs@.len(),
                binds.wf(),
                obs == deref_blocks(oblocks@),
                deref_block_pairs(blocks@) == blocks_at_j + emitted,
                aligned_pairs_for(binds@, *pair, ixs@, obs, 0) == emitted + aligned_pairs_for(
                    binds@,
                    *pair,
                    ixs@,
                    obs,
                    k as int,
                ),
            decreases ixs@.len() - k,
        {
            let ghost apk = aligned_pairs_for(binds@, *pair, ixs@, obs, k as int);
            let ghost apk1 = aligned_pairs_for(binds@, *pair, ixs@, obs, k as int + 1);
            let ghost cur = deref_block_pairs(blocks@);
            let x = &ixs[k];
            let mut pushed = false;
            match pair.input.fn_at(x.function_addr) {
                None => {},
                Some(f) => {
                    match &f.name {
                        None => {},
                        Some(nm) => {
                            match pair.input.addr_to_block(x) {
                                None => {},
                                Some(ib) => {
                                    let t = match binds.get(nm) {
                                        None => None,
                                        Some(b) => b.get_addr(),
                                    };
                                    proof {
                                        assert(t == bound_addr(binds@, nm@));
                                    }
                                    let possible = filter_fn_opt(&oblocks, t);
                                    if possible.len() == 1 {
                                        let ob = possible[0];
                                        blocks.push((ib, ob));
                                        pushed = true;
                                        proof {
                                            assert(deref_blocks(possible@)[0] == *ob);
                                            assert(aligned_for_xref(binds@, *pair, ixs@[k as int], obs)
                                                == Some((*ib, *ob)));
                                            assert(apk == seq![(*ib, *ob)] + apk1);
                                            assert(deref_block_pairs(blocks@) =~= cur + seq![(*ib, *ob)]);
                                            emitted = emitted.push((*ib, *ob));
                                            assert(cur + seq![(*ib, *ob)] =~= blocks_at_j + emitted);
                                            assert(emitted + apk1 =~= (emitted.drop_last()) + (seq![
                                                (*ib, *ob),
                                            ] + apk1));
                                        }
                                    }
                                },
                            }
                        },
                    }
                },
            }
            proof {
                if !pushed {
                    assert(aligned_for_xref(binds@, *pair, ixs@[k as int], obs) is None);
                    assert(apk == apk1);
                }
            }
            k = k + 1;
        }
        proof {
            let ap0 = aligned_pairs_for(binds@, *pair, ixs@, obs, 0);
            assert(aligned_pairs_for(binds@, *pair, ixs@, obs, ixs@.len() as int).len() == 0);
            assert(emitted + aligned_pairs_for(binds@, *pair, ixs@, obs, ixs@.len() as int) =~= emitted);
            assert(deref_block_pairs(blocks@) =~= blocks_at_j + ap0);
            assert(call_block_pairs(binds@, *pair, cps, j as int) == ap0 + call_block_pairs(
                binds@,
                *pair,
                cps,
                j as int + 1,
            ));
            assert(deref_block_pairs(blocks@) + call_block_pairs(binds@, *pair, cps, j as int + 1)
                =~= (blocks_at_j + ap0) + call_block_pairs(binds@, *pair, cps, j as int + 1));
            assert((blocks_at_j + ap0) + call_block_pairs(binds@, *pair, cps, j as int + 1)
                =~= blocks_at_j + (ap0 + call_block_pairs(binds@, *pair, cps, j as int + 1)));
        }
        j = j + 1;
    }
    proof {
        assert(call_block_pairs(binds@, *pair, cps, nj as int).len() == 0);
        assert(deref_block_pairs(blocks@) + call_block_pairs(binds@, *pair, cps, nj as int)
            =~= deref_block_pairs(blocks@));
    }
    block_binds(binds, pair, blocks)
}

/// The input block calls some callee whose name the database marks
/// `Inline`: positional alignment past it is unsound.
pub open spec fn has_inline_call(m: Map<Seq<char>, BindV>, pair: ExecPair, b: Block) -> bool {
    exists|k: int|
        0 <= k < b.calls@.len() && match #[trigger] b.calls@[k] {
            Dest::Known(a) => match input_fn_name(pair, a) {
                Some(nm) => m.contains_key(nm) && m[nm] is Inline,
                None => false,
            },
            Dest::Unknown => false,
        }
}

/// The branches of an aligned pair share the variant and name `x` and `y`
/// as corresponding destinations.
pub open spec fn branch_pair_has(a: Branch, b: Branch, x: u64, y: u64) -> bool {
    match (a, b) {
        (Branch::Neutral(Dest::Known(xa)), Branch::Neutral(Dest::Known(ya))) => xa == x && ya == y,
        (
            Branch::Equality(Dest::Known(xe), Dest::Known(xn)),
            Branch::Equality(Dest::Known(ye), Dest::Known(yn)),
        ) => (xe == x && ye == y) || (xn == x && yn == y),
        (
            Branch::Inequality(Dest::Known(xg), Dest::Known(xl)),
            Branch::Inequality(Dest::Known(yg), Dest::Known(yl)),
        ) => (xg == x && yg == y) || (xl == x && yl == y),
        _ => false,
    }
}

/// The pair `p` hands a child alignment on to destinations `x` and `y`: no
/// `Inline` callee cuts it off, and the branches agree on the variant.
pub open spec fn child_link(m: Map<Seq<char>, BindV>, pair: ExecPair, p: (Block, Block), x: u64, y: u64) -> bool {
    !has_inline_call(m, pair, p.0) && branch_pair_has(p.0.branch, p.1.branch, x, y)
}

/// The pair `c` is what destinations `x` and `y` of pair `p` resolve to.
pub open spec fn child_at(pair: ExecPair, p: (Block, Block), x: u64, y: u64, c: (Block, Block)) -> bool {
    &&& pair.input.addr_to_block_spec(
        (Address { addr: x, block_addr: x, function_addr: p.0.address.function_addr }),
    ) == Some(c.0)
    &&& pair.output.addr_to_block_spec(
        (Address { addr: y, block_addr: y, function_addr: p.1.address.function_addr }),
    ) == Some(c.1)
}

/// The pair `c` is a lockstep child of the pair `p`.
pub open spec fn lockstep_children(m: Map<Seq<char>, BindV>, pair: ExecPair, p: (Block, Block), c: (Block, Block)) -> bool {
    exists|x: u64, y: u64| #[trigger] child_link(m, pair, p, x, y) && child_at(pair, p, x, y, c)
}

/// No two pairs agree on both block addresses.
pub open spec fn pairs_distinct(s: Seq<(Block, Block)>) -> bool {
    forall|i: int, j: int|
        0 <= i < j < s.len() ==> !((#[trigger] s[i]).0.address == (#[trigger] s[j]).0.address
            && s[i].1.address == s[j].1.address)
}

/// Every pair is an initial pair or a lockstep child of a pair collected
/// strictly earlier: the derivation is well founded, so the whole collection
/// is reachable from the initial pairs.
pub open spec fn all_justified(
    m: Map<Seq<char>, BindV>,
    pair: ExecPair,
    roots: Seq<(Block, Block)>,
    s: Seq<(Block, Block)>,
) -> bool {
    forall|i: int|
        0 <= i < s.len() ==> roots.contains(#[trigger] s[i]) || exists|j: int|
            0 <= j < i && lockstep_children(m, pair, s[j], s[i])
}

/// Does the input block call an `Inline`-bound callee?
#[verifier::loop_isolation(false)]
fn has_inline_exec(db: &BindDB, pair: &ExecPair, b: &Block) -> (r: bool)
    requires
        db.wf(),
    ensures
        r == has_inline_call(db@, *pair, *b),
{
    let n = b.calls.len();
    let mut i: usize = 0;
    while i < n
        invariant
            i <= n,
            forall|k: int|
                0 <= k < i ==> !(match #[trigger] b.calls@[k] {
                    Dest::Known(a) => match input_fn_name(*pair, a) {
                        Some(nm) => db@.contains_key(nm) && db@[nm] is Inline,
                        None => false,
                    },
                    Dest::Unknown => false,
                }),
        decreases n - i,
    {
        match &b.calls[i] {
            Dest::Unknown => {},
            Dest::Known(a) => {
                match pair.input.fn_at(*a) {
                    None => {},
                    Some(f) => match &f.name {
                        None => {},
                        Some(nm) => {
                            let hit = match db.get(nm) {
                                Some(Bind::Inline) => true,
                                _ => false,
                            };
                            if hit {
                                return true;
                            }
                        },
                    },
                }
            },
        }
        i = i + 1;
    }
    false
}

/// Is a pair with these block addresses already collected?
fn contains_quad(v: &Vec<(&Block, &Block)>, a0: Address, a1: Address) -> (r: bool)
    ensures
        r == exists|i: int|
            0 <= i < v@.len() && (#[trigger] v@[i]).0.address == a0 && v@[i].1.address == a1,
{
    let mut i: usize = 0;
    while i < v.len()
        invariant
            i <= v@.len(),
            forall|j: int| 0 <= j < i ==> !((#[trigger] v@[j]).0.address == a0 && v@[j].1.address == a1),
        decreases v@.len() - i,
    {
        if v[i].0.address == a0 && v[i].1.address == a1 {
            return true;
        }
        i = i + 1;
    }
    false
}

/// A block that appears somewhere in a snapshot.
pub open spec fn in_db_block(db: ExecDB, b: Block) -> bool {
    exists|fi: int, bi: int|
        0 <= fi < db.fns@.len() && 0 <= bi < db.fns@[fi].blocks@.len()
            && #[trigger] db.fns@[fi].blocks@[bi] == b
}

/// How many blocks the functions before index `fi` hold.
pub open spec fn blocks_before(fns: Seq<Function>, fi: int) -> int
    decreases fi,
{
    if fi <= 0 {
        0
    } else {
        blocks_before(fns, fi - 1) + fns[fi - 1].blocks@.len()
    }
}

/// How many blocks a snapshot holds in all.
pub open spec fn total_block_count(db: ExecDB) -> int {
    blocks_before(db.fns@, db.fns@.len() as int)
}

proof fn lemma_blocks_before_mono(fns: Seq<Function>, fi1: int, fi2: int)
    requires
        0 <= fi1 <= fi2,
    ensures
        blocks_before(fns, fi1) <= blocks_before(fns, fi2),
    decreases fi2 - fi1,
{
    if fi1 < fi2 {
        lemma_blocks_before_mono(fns, fi1, fi2 - 1);
    }
}

/// The flat position of block `bi` of function `fi` lies below the total.
proof fn lemma_block_code_bounds(fns: Seq<Function>, fi: int, bi: int)
    requires
        0 <= fi < fns.len(),
        0 <= bi < fns[fi].blocks@.len(),
    ensures
        0 <= blocks_before(fns, fi) + bi < blocks_before(fns, fns.len() as int),
    decreases fi,
{
    lemma_blocks_before_mono(fns, 0, fi);
    lemma_blocks_before_mono(fns, fi + 1, fns.len() as int);
}

/// Distinct placements have distinct flat positions.
proof fn lemma_block_code_injective(fns: Seq<Function>, fi1: int, bi1: int, fi2: int, bi2: int)
    requires
        0 <= fi1 < fns.len(),
        0 <= bi1 < fns[fi1].blocks@.len(),
        0 <= fi2 < fns.len(),
        0 <= bi2 < fns[fi2].blocks@.len(),
        blocks_before(fns, fi1) + bi1 == blocks_before(fns, fi2) + bi2,
    ensures
        fi1 == fi2,
        bi1 == bi2,
{
    if fi1 < fi2 {
        lemma_blocks_before_mono(fns, fi1 + 1, fi2);
    } else if fi2 < fi1 {
        lemma_blocks_before_mono(fns, fi2 + 1, fi1);
    }
}

/// Some placement of `b` in the snapshot: a function index and a block
/// index within it.
pub open spec fn block_place(db: ExecDB, b: Block) -> (int, int) {
    choose|p: (int, int)|
        0 <= p.0 < db.fns@.len() && 0 <= p.1 < db.fns@[p.0].blocks@.len() && #[trigger] db.fns@[p.0].blocks@[p.1]
            == b
}

/// The flat position of that placement.
pub open spec fn block_code(db: ExecDB, b: Block) -> int {
    blocks_before(db.fns@, block_place(db, b).0) + block_place(db, b).1
}

proof fn lemma_block_place_valid(db: ExecDB, b: Block)
    requires
        in_db_block(db, b),
    ensures
        0 <= block_place(db, b).0 < db.fns@.len(),
        0 <= block_place(db, b).1 < db.fns@[block_place(db, b).0].blocks@.len(),
        db.fns@[block_place(db, b).0].blocks@[block_place(db, b).1] == b,
{
    let (fi, bi) = choose|fi: int, bi: int|
        0 <= fi < db.fns@.len() && 0 <= bi < db.fns@[fi].blocks@.len()
            && #[trigger] db.fns@[fi].blocks@[bi] == b;
    let w = (fi, bi);
    assert(0 <= w.0 < db.fns@.len() && 0 <= w.1 < db.fns@[w.0].blocks@.len() && db.fns@[w.0].blocks@[w.1]
        == b);
}

proof fn lemma_block_code_in_range(db: ExecDB, b: Block)
    requires
        in_db_block(db, b),
    ensures
        0 <= block_code(db, b) < total_block_count(db),
{
    lemma_block_place_valid(db, b);
    lemma_block_code_bounds(db.fns@, block_place(db, b).0, block_place(db, b).1);
}

/// Two snapshot blocks with the same flat position are the same block.
proof fn lemma_block_code_same(db: ExecDB, b1: Block, b2: Block)
    requires
        in_db_block(db, b1),
        in_db_block(db, b2),
        block_code(db, b1) == block_code(db, b2),
    ensures
        b1 == b2,
{
    lemma_block_place_valid(db, b1);
    lemma_block_place_valid(db, b2);
    let p1 = block_place(db, b1);
    let p2 = block_place(db, b2);
    lemma_block_code_injective(db.fns@, p1.0, p1.1, p2.0, p2.1);
}

/// A resolved address lands on a block of the snapshot.
proof fn lemma_addr_to_block_in_db(db: ExecDB, a: Address)
    requires
        db.addr_to_block_spec(a) is Some,
    ensures
        in_db_block(db, db.addr_to_block_spec(a).unwrap()),
{
    crate::db::lemma_first_fn_found(db.fns@, a.function_addr);
    let fi = choose|fi: int|
        0 <= fi < db.fns@.len() && #[trigger] db.fns@[fi] == first_fn(db.fns@, a.function_addr).unwrap()
            && db.fns@[fi].address.function_addr == a.function_addr;
    let f = db.fns@[fi];
    crate::db::lemma_first_block_found(f.blocks@, a.block_addr);
    let bi = choose|bi: int|
        0 <= bi < f.blocks@.len() && #[trigger] f.blocks@[bi] == first_block(f.blocks@, a.block_addr).unwrap()
            && f.blocks@[bi].address.block_addr == a.block_addr;
    assert(db.fns@[fi].blocks@[bi] == db.addr_to_block_spec(a).unwrap());
}

/// A pair of snapshot blocks, one from each side.
pub open spec fn db_pair(pr: ExecPair, c: (Block, Block)) -> bool {
    in_db_block(pr.input, c.0) && in_db_block(pr.output, c.1)
}

/// The position of `c` among the initial pairs.
pub open spec fn root_index(roots: Seq<(Block, Block)>, c: (Block, Block)) -> int {
    choose|j: int| 0 <= j < roots.len() && roots[j] == c
}

proof fn lemma_root_index_valid(roots: Seq<(Block, Block)>, c: (Block, Block))
    requires
        roots.contains(c),
    ensures
        0 <= root_index(roots, c) < roots.len(),
        roots[root_index(roots, c)] == c,
{
    let j = choose|j: int| 0 <= j < roots.len() && roots[j] == c;
    assert(0 <= j < roots.len() && roots[j] == c);
}

/// A distinguishing code for a collected pair: snapshot pairs get their flat
/// position pair, anything else must be an initial pair and gets its index
/// among the initial pairs, shifted past the snapshot codes.
pub open spec fn pair_code(pr: ExecPair, roots: Seq<(Block, Block)>, c: (Block, Block)) -> int {
    if db_pair(pr, c) {
        block_code(pr.input, c.0) * total_block_count(pr.output) + block_code(pr.output, c.1)
    } else {
        total_block_count(pr.input) * total_block_count(pr.output) + root_index(roots, c)
    }
}

/// The closure over [`pair_code`] used to map a collected sequence.
pub open spec fn pair_code_fn(pr: ExecPair, roots: Seq<(Block, Block)>) -> spec_fn((Block, Block)) -> int {
    |c: (Block, Block)| pair_code(pr, roots, c)
}

proof fn lemma_counts_nonneg(pr: ExecPair)
    ensures
        total_block_count(pr.input) >= 0,
        total_block_count(pr.output) >= 0,
        total_block_count(pr.input) * total_block_count(pr.output) >= 0,
{
    lemma_blocks_before_mono(pr.input.fns@, 0, pr.input.fns@.len() as int);
    lemma_blocks_before_mono(pr.output.fns@, 0, pr.output.fns@.len() as int);
    let nin = total_block_count(pr.input);
    let nout = total_block_count(pr.output);
    assert(nin * nout >= 0) by (nonlinear_arith)
        requires
            nin >= 0,
            nout >= 0;
}

proof fn lemma_pair_code_in_range(pr: ExecPair, roots: Seq<(Block, Block)>, c: (Block, Block))
    requires
        db_pair(pr, c) || roots.contains(c),
    ensures
        0 <= pair_code(pr, roots, c) < total_block_count(pr.input) * total_block_count(pr.output)
            + roots.len(),
{
    let nin = total_block_count(pr.input);
    let nout = total_block_count(pr.output);
    lemma_counts_nonneg(pr);
    if db_pair(pr, c) {
        lemma_block_code_in_range(pr.input, c.0);
        lemma_block_code_in_range(pr.output, c.1);
        let ci = block_code(pr.input, c.0);
        let co = block_code(pr.output, c.1);
        assert(0 <= ci * nout + co < nin * nout) by (nonlinear_arith)
            requires
                0 <= ci < nin,
                0 <= co < nout;
    } else {
        lemma_root_index_valid(roots, c);
    }
}

proof fn lemma_pair_code_injective(
    pr: ExecPair,
    roots: Seq<(Block, Block)>,
    c1: (Block, Block),
    c2: (Block, Block),
)
    requires
        db_pair(pr, c1) || roots.contains(c1),
        db_pair(pr, c2) || roots.contains(c2),
        pair_code(pr, roots, c1) == pair_code(pr, roots, c2),
    ensures
        c1 == c2,
{
    let nin = total_block_count(pr.input);
    let nout = total_block_count(pr.output);
    lemma_counts_nonneg(pr);
    if db_pair(pr, c1) && db_pair(pr, c2) {
        lemma_block_code_in_range(pr.input, c1.0);
        lemma_block_code_in_range(pr.output, c1.1);
        lemma_block_code_in_range(pr.input, c2.0);
        lemma_block_code_in_range(pr.output, c2.1);
        let a1 = block_code(pr.input, c1.0);
        let b1 = block_code(pr.output, c1.1);
        let a2 = block_code(pr.input, c2.0);
        let b2 = block_code(pr.output, c2.1);
        assert(a1 == a2 && b1 == b2) by (nonlinear_arith)
            requires
                a1 * nout + b1 == a2 * nout + b2,
                0 <= b1 < nout,
                0 <= b2 < nout,
                0 <= a1,
                0 <= a2;
        lemma_block_code_same(pr.input, c1.0, c2.0);
        lemma_block_code_same(pr.output, c1.1, c2.1);
        assert(c1 == (c1.0, c1.1));
        assert(c2 == (c2.0, c2.1));
    } else if !db_pair(pr, c1) && !db_pair(pr, c2) {
        lemma_root_index_valid(roots, c1);
        lemma_root_index_valid(roots, c2);
        assert(root_index(roots, c1) == root_index(roots, c2));
    } else if db_pair(pr, c1) {
        lemma_block_code_in_range(pr.input, c1.0);
        lemma_block_code_in_range(pr.output, c1.1);
        lemma_root_index_valid(roots, c2);
        let a1 = block_code(pr.input, c1.0);
        let b1 = block_code(pr.output, c1.1);
        assert(a1 * nout + b1 < nin * nout) by (nonlinear_arith)
            requires
                0 <= a1 < nin,
                0 <= b1 < nout;
        assert(false);
    } else {
        lemma_block_code_in_range(pr.input, c2.0);
        lemma_block_code_in_range(pr.output, c2.1);
        lemma_root_index_valid(roots, c1);
        let a2 = block_code(pr.input, c2.0);
        let b2 = block_code(pr.output, c2.1);
        assert(a2 * nout + b2 < nin * nout) by (nonlinear_arith)
            requires
                0 <= a2 < nin,
                0 <= b2 < nout;
        assert(false);
    }
}

/// The traversal can only ever collect finitely many distinct pairs: with
/// distinct address quadruples, each pair either an initial pair or a pair
/// of snapshot blocks, the count is bounded by the snapshot block product
/// plus the initial pairs.
proof fn lemma_traverse_bound(pr: ExecPair, roots: Seq<(Block, Block)>, s: Seq<(Block, Block)>)
    requires
        pairs_distinct(s),
        forall|i: int|
            0 <= i < s.len() ==> roots.contains(#[trigger] s[i]) || db_pair(pr, s[i]),
    ensures
        s.len() <= total_block_count(pr.input) * total_block_count(pr.output) + roots.len(),
{
    let bound = total_block_count(pr.input) * total_block_count(pr.output) + roots.len();
    lemma_counts_nonneg(pr);
    let codes = s.map_values(pair_code_fn(pr, roots));
    assert forall|i: int, j: int| 0 <= i < j < codes.len() implies codes[i] != codes[j] by {
        if codes[i] == codes[j] {
            lemma_pair_code_injective(pr, roots, s[i], s[j]);
        }
    }
    assert(codes.no_duplicates());
    codes.unique_seq_to_set();
    vstd::set_lib::lemma_int_range(0, bound);
    assert forall|x: int| #[trigger] codes.to_set().contains(x) implies vstd::set_lib::set_int_range(
        0,
        bound,
    ).contains(x) by {
        let i = choose|i: int| 0 <= i < codes.len() && codes[i] == x;
        lemma_pair_code_in_range(pr, roots, s[i]);
    }
    vstd::set_lib::lemma_len_subset(codes.to_set(), vstd::set_lib::set_int_range(0, bound));
}

/// A pair with these block addresses is already collected.
pub open spec fn quad_covered(total: Seq<(&Block, &Block)>, a0: Address, a1: Address) -> bool {
    exists|t: int| 0 <= t < total.len() && (#[trigger] total[t]).0.address == a0 && total[t].1.address == a1
}

/// The exact pair is already collected.
pub open spec fn pair_covered(total: Seq<(&Block, &Block)>, q: (&Block, &Block)) -> bool {
    exists|t: int| 0 <= t < total.len() && #[trigger] total[t] == q
}

/// Every resolvable lockstep child of `p` is collected by its addresses.
pub open spec fn expanded(
    m: Map<Seq<char>, BindV>,
    pr: ExecPair,
    total: Seq<(&Block, &Block)>,
    p: (Block, Block),
) -> bool {
    forall|x: u64, y: u64|
        #[trigger] child_link(m, pr, p, x, y) ==> match (
            pr.input.addr_to_block_spec(
                (Address { addr: x, block_addr: x, function_addr: p.0.address.function_addr }),
            ),
            pr.output.addr_to_block_spec(
                (Address { addr: y, block_addr: y, function_addr: p.1.address.function_addr }),
            ),
        ) {
            (Some(ci), Some(co)) => quad_covered(total, ci.address, co.address),
            _ => true,
        }
}

/// Every collected pair's resolvable children are collected.
pub open spec fn traverse_closed(m: Map<Seq<char>, BindV>, pr: ExecPair, s: Seq<(&Block, &Block)>) -> bool {
    forall|i: int| 0 <= i < s.len() ==> expanded(m, pr, s, (*(#[trigger] s[i]).0, *s[i].1))
}

/// A pair with these block addresses occurs among the collected values.
pub open spec fn vquad_covered(ps: Seq<(Block, Block)>, a0: Address, a1: Address) -> bool {
    exists|t: int| 0 <= t < ps.len() && (#[trigger] ps[t]).0.address == a0 && ps[t].1.address == a1
}

/// Every resolvable lockstep child of `p` occurs among the collected
/// values.
pub open spec fn vexpanded(
    m: Map<Seq<char>, BindV>,
    pr: ExecPair,
    ps: Seq<(Block, Block)>,
    p: (Block, Block),
) -> bool {
    forall|x: u64, y: u64|
        #[trigger] child_link(m, pr, p, x, y) ==> match (
            pr.input.addr_to_block_spec(
                (Address { addr: x, block_addr: x, function_addr: p.0.address.function_addr }),
            ),
            pr.output.addr_to_block_spec(
                (Address { addr: y, block_addr: y, function_addr: p.1.address.function_addr }),
            ),
        ) {
            (Some(ci), Some(co)) => vquad_covered(ps, ci.address, co.address),
            _ => true,
        }
}

/// Every collected value's resolvable children are collected.
pub open spec fn vtraverse_closed(m: Map<Seq<char>, BindV>, pr: ExecPair, ps: Seq<(Block, Block)>) -> bool {
    forall|i: int| 0 <= i < ps.len() ==> vexpanded(m, pr, ps, #[trigger] ps[i])
}

/// The reference-level closure carries over to the collected values.
proof fn lemma_traverse_closed_values(m: Map<Seq<char>, BindV>, pr: ExecPair, s: Seq<(&Block, &Block)>)
    requires
        traverse_closed(m, pr, s),
    ensures
        vtraverse_closed(m, pr, deref_block_pairs(s)),
{
    let ps = deref_block_pairs(s);
    assert forall|i: int| 0 <= i < ps.len() implies vexpanded(m, pr, ps, #[trigger] ps[i]) by {
        assert(ps[i] == (*s[i].0, *s[i].1));
        assert(expanded(m, pr, s, ps[i]));
        assert forall|x: u64, y: u64| #[trigger] child_link(m, pr, ps[i], x, y) implies match (
            pr.input.addr_to_block_spec(
                (Address { addr: x, block_addr: x, function_addr: ps[i].0.address.function_addr }),
            ),
            pr.output.addr_to_block_spec(
                (Address { addr: y, block_addr: y, function_addr: ps[i].1.address.function_addr }),
            ),
        ) {
            (Some(ci), Some(co)) => vquad_covered(ps, ci.address, co.address),
            _ => true,
        } by {
            match (
                pr.input.addr_to_block_spec(
                    (Address { addr: x, block_addr: x, function_addr: ps[i].0.address.function_addr }),
                ),
                pr.output.addr_to_block_spec(
                    (Address { addr: y, block_addr: y, function_addr: ps[i].1.address.function_addr }),
                ),
            ) {
                (Some(ci), Some(co)) => {
                    assert(quad_covered(s, ci.address, co.address));
                    let t = choose|t: int|
                        0 <= t < s.len() && (#[trigger] s[t]).0.address == ci.address && s[t].1.address
                            == co.address;
                    assert(ps[t].0.address == ci.address && ps[t].1.address == co.address);
                },
                _ => {},
            }
        }
    }
}

/// Every collected pair is an initial pair by value or a snapshot pair.
pub open spec fn roots_or_db(pr: ExecPair, roots: Seq<(Block, Block)>, s: Seq<(Block, Block)>) -> bool {
    forall|i: int| 0 <= i < s.len() ==> roots.contains(#[trigger] s[i]) || db_pair(pr, s[i])
}

/// What a pair already collected keeps when another pair is appended.
proof fn lemma_quad_covered_push(total: Seq<(&Block, &Block)>, e: (&Block, &Block), a0: Address, a1: Address)
    requires
        quad_covered(total, a0, a1),
    ensures
        quad_covered(total.push(e), a0, a1),
{
    let t = choose|t: int|
        0 <= t < total.len() && (#[trigger] total[t]).0.address == a0 && total[t].1.address == a1;
    assert(total.push(e)[t] == total[t]);
}

/// Expansion of a pair survives appending another pair to the collection.
proof fn lemma_expanded_push(
    m: Map<Seq<char>, BindV>,
    pr: ExecPair,
    total: Seq<(&Block, &Block)>,
    e: (&Block, &Block),
    p: (Block, Block),
)
    requires
        expanded(m, pr, total, p),
    ensures
        expanded(m, pr, total.push(e), p),
{
    assert forall|x: u64, y: u64| #[trigger] child_link(m, pr, p, x, y) implies match (
        pr.input.addr_to_block_spec(
            (Address { addr: x, block_addr: x, function_addr: p.0.address.function_addr }),
        ),
        pr.output.addr_to_block_spec(
            (Address { addr: y, block_addr: y, function_addr: p.1.address.function_addr }),
        ),
    ) {
        (Some(ci), Some(co)) => quad_covered(total.push(e), ci.address, co.address),
        _ => true,
    } by {
        match (
            pr.input.addr_to_block_spec(
                (Address { addr: x, block_addr: x, function_addr: p.0.address.function_addr }),
            ),
            pr.output.addr_to_block_spec(
                (Address { addr: y, block_addr: y, function_addr: p.1.address.function_addr }),
            ),
        ) {
            (Some(ci), Some(co)) => {
                lemma_quad_covered_push(total, e, ci.address, co.address);
            },
            _ => {},
        }
    }
}

/// Traverse the control-flow graphs of aligned pairs in lockstep, breadth
/// first: a pair's children are the pairwise-resolved destinations of its
/// matching branch variants, a pair with an `Inline` callee in its input
/// block is not expanded, and no pair is collected twice. The collected
/// pairs are exactly the closure of the initial pairs: every initial pair is
/// collected, every collected pair is an initial pair or a lockstep child of
/// a collected one, and every resolvable child of a collected pair is
/// collected.
#[verifier::loop_isolation(false)]
#[verifier::rlimit(100)]
pub fn block_traverse<'a>(
    binds: &BindDB,
    pair: &'a ExecPair,
    blocks: Vec<(&'a Block, &'a Block)>,
) -> (r: Vec<(&'a Block, &'a Block)>)
    requires
        binds.wf(),
    ensures
        pairs_distinct(deref_block_pairs(r@)),
        all_justified(binds@, *pair, deref_block_pairs(blocks@), deref_block_pairs(r@)),
        forall|j: int|
            0 <= j < blocks@.len() ==> quad_covered(
                r@,
                (#[trigger] blocks@[j]).0.address,
                blocks@[j].1.address,
            ),
        traverse_closed(binds@, *pair, r@),
{
    let ghost roots = deref_block_pairs(blocks@);
    let ghost bound = total_block_count(pair.input) * total_block_count(pair.output) + roots.len();
    let mut total: Vec<(&Block, &Block)> = Vec::new();
    let mut queue: Vec<(&Block, &Block)> = Vec::new();
    let mut i: usize = 0;
    while i < blocks.len()
        invariant
            i <= blocks@.len(),
            queue@ == total@,
            total@.len() <= i,
            pairs_distinct(deref_block_pairs(total@)),
            roots_or_db(*pair, roots, deref_block_pairs(total@)),
            forall|t: int|
                0 <= t < total@.len() ==> roots.contains(#[trigger] deref_block_pairs(total@)[t]),
            forall|j: int|
                0 <= j < i ==> quad_covered(total@, (#[trigger] blocks@[j]).0.address, blocks@[j].1.address),
        decreases blocks@.len() - i,
    {
        let root = blocks[i];
        let ghost traw = total@;
        if !contains_quad(&total, root.0.address, root.1.address) {
            let ghost tb = deref_block_pairs(total@);
            total.push(root);
            queue.push(root);
            proof {
                assert(deref_block_pairs(total@) =~= tb.push((*root.0, *root.1)));
                assert(roots[i as int] == (*root.0, *root.1));
                assert(roots.contains((*root.0, *root.1)));
            }
        }
        proof {
            assert forall|j: int| 0 <= j < i + 1 implies quad_covered(
                total@,
                (#[trigger] blocks@[j]).0.address,
                blocks@[j].1.address,
            ) by {
                if j < i {
                    let t0 = choose|t0: int|
                        0 <= t0 < traw.len() && (#[trigger] traw[t0]).0.address == blocks@[j].0.address
                            && traw[t0].1.address == blocks@[j].1.address;
                    assert(total@[t0] == traw[t0]);
                } else {
                    if quad_covered(traw, root.0.address, root.1.address) {
                        let t0 = choose|t0: int|
                            0 <= t0 < traw.len() && (#[trigger] traw[t0]).0.address == root.0.address
                                && traw[t0].1.address == root.1.address;
                        assert(total@[t0] == traw[t0]);
                    } else {
                        assert(total@[total@.len() - 1] == root);
                    }
                }
            }
        }
        i = i + 1;
    }
    proof {
        assert forall|t: int| 0 <= t < deref_block_pairs(total@).len() implies
            roots.contains(#[trigger] deref_block_pairs(total@)[t]) || exists|j: int|
                0 <= j < t && lockstep_children(
                    binds@,
                    *pair,
                    deref_block_pairs(total@)[j],
                    deref_block_pairs(total@)[t],
                ) by {}
        assert forall|q: int| #![trigger queue@[q]] 0 <= q < queue@.len() implies pair_covered(
            total@,
            queue@[q],
        ) by {
            assert(0 <= q < total@.len() && total@[q] == queue@[q]);
        }
        assert forall|t: int| 0 <= t < total@.len() implies pair_covered(queue@, #[trigger] total@[t])
            || expanded(binds@, *pair, total@, (*total@[t].0, *total@[t].1)) by {
            assert(queue@[t] == total@[t]);
        }
        lemma_traverse_bound(*pair, roots, deref_block_pairs(total@));
    }
    while queue.len() > 0
        invariant
            binds.wf(),
            total@.len() <= bound,
            pairs_distinct(deref_block_pairs(total@)),
            roots_or_db(*pair, roots, deref_block_pairs(total@)),
            all_justified(binds@, *pair, roots, deref_block_pairs(total@)),
            forall|q: int| #![trigger queue@[q]]
                0 <= q < queue@.len() ==> pair_covered(total@, queue@[q]),
            forall|j: int|
                0 <= j < blocks@.len() ==> quad_covered(
                    total@,
                    (#[trigger] blocks@[j]).0.address,
                    blocks@[j].1.address,
                ),
            forall|t: int|
                0 <= t < total@.len() ==> pair_covered(queue@, #[trigger] total@[t]) || expanded(
                    binds@,
                    *pair,
                    total@,
                    (*total@[t].0, *total@[t].1),
                ),
        decreases bound - total@.len(), queue@.len(),
    {
        let ghost total_start = total@.len();
        let ghost queue_start = queue@.len();
        let ghost qold = queue@;
        let p = queue.remove(0);
        let ghost pv = (*p.0, *p.1);
        proof {
            assert(p == qold[0]);
            assert(pair_covered(total@, p));
            assert forall|q: int| #![trigger queue@[q]] 0 <= q < queue@.len() implies pair_covered(
                total@,
                queue@[q],
            ) by {
                assert(queue@[q] == qold[q + 1]);
            }
            assert forall|t: int| 0 <= t < total@.len() implies pair_covered(queue@, #[trigger] total@[t])
                || expanded(binds@, *pair, total@, (*total@[t].0, *total@[t].1)) || total@[t] == p by {
                if pair_covered(qold, total@[t]) {
                    let q0 = choose|q0: int| 0 <= q0 < qold.len() && #[trigger] qold[q0] == total@[t];
                    if q0 > 0 {
                        assert(queue@[q0 - 1] == qold[q0]);
                    }
                }
            }
        }
        let inline_halt = has_inline_exec(binds, pair, p.0);
        if !inline_halt {
            let in_fa = p.0.address.function_addr;
            let out_fa = p.1.address.function_addr;
            let mut targets: Vec<(u64, u64)> = Vec::new();
            match (&p.0.branch, &p.1.branch) {
                (Branch::Neutral(Dest::Known(x)), Branch::Neutral(Dest::Known(y))) => {
                    targets.push((*x, *y));
                },
                (
                    Branch::Equality(Dest::Known(xe), Dest::Known(xn)),
                    Branch::Equality(Dest::Known(ye), Dest::Known(yn)),
                ) => {
                    targets.push((*xe, *ye));
                    targets.push((*xn, *yn));
                },
                (
                    Branch::Inequality(Dest::Known(xg), Dest::Known(xl)),
                    Branch::Inequality(Dest::Known(yg), Dest::Known(yl)),
                ) => {
                    targets.push((*xg, *yg));
                    targets.push((*xl, *yl));
                },
                _ => {},
            }
            let tcount = targets.len();
            proof {
                assert forall|w: int| 0 <= w < targets@.len() implies child_link(
                    binds@,
                    *pair,
                    pv,
                    (#[trigger] targets@[w]).0,
                    targets@[w].1,
                ) by {}
                assert forall|x: u64, y: u64| #[trigger] child_link(binds@, *pair, pv, x, y) implies
                    exists|w: int| 0 <= w < targets@.len() && #[trigger] targets@[w] == (x, y) by {
                    if targets@.len() >= 1 && targets@[0] == (x, y) {
                    } else if targets@.len() >= 2 && targets@[1] == (x, y) {
                    } else {
                        assert(false);
                    }
                }
            }
            let mut u: usize = 0;
            while u < tcount
                invariant
                    u <= tcount,
                    tcount == targets@.len(),
                    tcount <= 2,
                    binds.wf(),
                    forall|w: int|
                        0 <= w < targets@.len() ==> child_link(
                            binds@,
                            *pair,
                            pv,
                            (#[trigger] targets@[w]).0,
                            targets@[w].1,
                        ),
                    forall|x: u64, y: u64|
                        #[trigger] child_link(binds@, *pair, pv, x, y) ==> exists|w: int|
                            0 <= w < targets@.len() && #[trigger] targets@[w] == (x, y),
                    pv.0.address.function_addr == in_fa,
                    pv.1.address.function_addr == out_fa,
                    pv == (*p.0, *p.1),
                    pair_covered(total@, p),
                    total@.len() <= bound,
                    total_start <= total@.len(),
                    total@.len() + queue_start == queue@.len() + total_start + 1,
                    pairs_distinct(deref_block_pairs(total@)),
                    roots_or_db(*pair, roots, deref_block_pairs(total@)),
                    all_justified(binds@, *pair, roots, deref_block_pairs(total@)),
                    forall|q: int| #![trigger queue@[q]]
                        0 <= q < queue@.len() ==> pair_covered(total@, queue@[q]),
                    forall|j: int|
                        0 <= j < blocks@.len() ==> quad_covered(
                            total@,
                            (#[trigger] blocks@[j]).0.address,
                            blocks@[j].1.address,
                        ),
                    forall|t: int|
                        0 <= t < total@.len() ==> pair_covered(queue@, #[trigger] total@[t]) || expanded(
                            binds@,
                            *pair,
                            total@,
                            (*total@[t].0, *total@[t].1),
                        ) || total@[t] == p,
                    forall|w: int|
                        0 <= w < u ==> match (
                            pair.input.addr_to_block_spec(
                                (Address {
                                    addr: (#[trigger] targets@[w]).0,
                                    block_addr: targets@[w].0,
                                    function_addr: in_fa,
                                }),
                            ),
                            pair.output.addr_to_block_spec(
                                (Address {
                                    addr: targets@[w].1,
                                    block_addr: targets@[w].1,
                                    function_addr: out_fa,
                                }),
                            ),
                        ) {
                            (Some(ci), Some(co)) => quad_covered(total@, ci.address, co.address),
                            _ => true,
                        },
                decreases tcount - u,
            {
                let xy = targets[u];
                let x = xy.0;
                let y = xy.1;
                let ia = Address { addr: x, block_addr: x, function_addr: in_fa };
                let oa = Address { addr: y, block_addr: y, function_addr: out_fa };
                match (pair.input.addr_to_block(&ia), pair.output.addr_to_block(&oa)) {
                    (Some(cb_in), Some(cb_out)) => {
                        if !contains_quad(&total, cb_in.address, cb_out.address) {
                            let ghost tb = deref_block_pairs(total@);
                            let ghost traw = total@;
                            let ghost qraw = queue@;
                            let ghost cv = (*cb_in, *cb_out);
                            total.push((cb_in, cb_out));
                            queue.push((cb_in, cb_out));
                            proof {
                                let dt = deref_block_pairs(total@);
                                assert(dt =~= tb.push(cv));
                                let tp = choose|t: int| 0 <= t < traw.len() && #[trigger] traw[t] == p;
                                assert(total@[tp] == traw[tp]);
                                assert(pair_covered(total@, p));
                                assert(dt[tp] == pv);
                                assert(child_at(*pair, pv, x, y, cv)) by {
                                    assert(child_link(binds@, *pair, pv, x, y));
                                }
                                assert(lockstep_children(binds@, *pair, pv, cv)) by {
                                    assert(child_link(binds@, *pair, pv, x, y) && child_at(
                                        *pair,
                                        pv,
                                        x,
                                        y,
                                        cv,
                                    ));
                                }
                                lemma_addr_to_block_in_db(pair.input, ia);
                                lemma_addr_to_block_in_db(pair.output, oa);
                                assert forall|t: int| 0 <= t < dt.len() implies
                                    roots.contains(#[trigger] dt[t]) || db_pair(*pair, dt[t]) by {
                                    if t < tb.len() {
                                        assert(dt[t] == tb[t]);
                                    } else {
                                        assert(dt[t] == cv);
                                        assert(db_pair(*pair, cv));
                                    }
                                }
                                assert forall|t1: int, t2: int| 0 <= t1 < t2 < dt.len() implies !((
                                #[trigger] dt[t1]).0.address == (#[trigger] dt[t2]).0.address
                                    && dt[t1].1.address == dt[t2].1.address) by {
                                    if t2 == dt.len() - 1 {
                                        assert(dt[t1] == tb[t1]);
                                        assert(tb[t1].0.address == traw[t1].0.address
                                            && tb[t1].1.address == traw[t1].1.address);
                                        if dt[t1].0.address == cv.0.address && dt[t1].1.address == cv.1.address {
                                            assert(quad_covered(traw, cb_in.address, cb_out.address));
                                        }
                                    } else {
                                        assert(dt[t1] == tb[t1] && dt[t2] == tb[t2]);
                                    }
                                }
                                lemma_traverse_bound(*pair, roots, dt);
                                assert forall|t: int| 0 <= t < dt.len() implies roots.contains(
                                    #[trigger] dt[t],
                                ) || exists|j: int|
                                    0 <= j < t && lockstep_children(binds@, *pair, dt[j], dt[t]) by {
                                    if t < tb.len() {
                                        assert(dt[t] == tb[t]);
                                        if !roots.contains(tb[t]) {
                                            let j = choose|j: int|
                                                0 <= j < t && lockstep_children(
                                                    binds@,
                                                    *pair,
                                                    #[trigger] tb[j],
                                                    tb[t],
                                                );
                                            assert(dt[j] == tb[j]);
                                            assert(lockstep_children(binds@, *pair, dt[j], dt[t]));
                                        }
                                    } else {
                                        assert(dt[t] == cv);
                                        assert(dt[tp] == pv);
                                        assert(tp < t);
                                        assert(lockstep_children(binds@, *pair, dt[tp], dt[t]));
                                    }
                                }
                                assert forall|q: int| #![trigger queue@[q]] 0 <= q < queue@.len() implies
                                    pair_covered(total@, queue@[q]) by {
                                    if q < qraw.len() {
                                        assert(queue@[q] == qraw[q]);
                                        let t0 = choose|t0: int|
                                            0 <= t0 < traw.len() && #[trigger] traw[t0] == qraw[q];
                                        assert(total@[t0] == traw[t0]);
                                    } else {
                                        assert(total@[total@.len() - 1] == queue@[q]);
                                    }
                                }
                                assert forall|j: int| 0 <= j < blocks@.len() implies quad_covered(
                                    total@,
                                    (#[trigger] blocks@[j]).0.address,
                                    blocks@[j].1.address,
                                ) by {
                                    lemma_quad_covered_push(
                                        traw,
                                        (cb_in, cb_out),
                                        blocks@[j].0.address,
                                        blocks@[j].1.address,
                                    );
                                }
                                assert forall|t: int| 0 <= t < total@.len() implies pair_covered(
                                    queue@,
                                    #[trigger] total@[t],
                                ) || expanded(binds@, *pair, total@, (*total@[t].0, *total@[t].1))
                                    || total@[t] == p by {
                                    if t < traw.len() {
                                        assert(total@[t] == traw[t]);
                                        if pair_covered(qraw, traw[t]) {
                                            let q0 = choose|q0: int|
                                                0 <= q0 < qraw.len() && #[trigger] qraw[q0] == traw[t];
                                            assert(queue@[q0] == qraw[q0]);
                                        } else if expanded(binds@, *pair, traw, (*traw[t].0, *traw[t].1)) {
                                            lemma_expanded_push(
                                                binds@,
                                                *pair,
                                                traw,
                                                (cb_in, cb_out),
                                                (*traw[t].0, *traw[t].1),
                                            );
                                        }
                                    } else {
                                        assert(total@[t] == (cb_in, cb_out));
                                        assert(queue@[queue@.len() - 1] == (cb_in, cb_out));
                                    }
                                }
                                assert forall|w: int| 0 <= w < u + 1 implies match (
                                    pair.input.addr_to_block_spec(
                                        (Address {
                                            addr: (#[trigger] targets@[w]).0,
                                            block_addr: targets@[w].0,
                                            function_addr: in_fa,
                                        }),
                                    ),
                                    pair.output.addr_to_block_spec(
                                        (Address {
                                            addr: targets@[w].1,
                                            block_addr: targets@[w].1,
                                            function_addr: out_fa,
                                        }),
                                    ),
                                ) {
                                    (Some(ci), Some(co)) => quad_covered(total@, ci.address, co.address),
                                    _ => true,
                                } by {
                                    if w < u {
                                        match (
                                            pair.input.addr_to_block_spec(
                                                (Address {
                                                    addr: targets@[w].0,
                                                    block_addr: targets@[w].0,
                                                    function_addr: in_fa,
                                                }),
                                            ),
                                            pair.output.addr_to_block_spec(
                                                (Address {
                                                    addr: targets@[w].1,
                                                    block_addr: targets@[w].1,
                                                    function_addr: out_fa,
                                                }),
                                            ),
                                        ) {
                                            (Some(ci), Some(co)) => {
                                                lemma_quad_covered_push(
                                                    traw,
                                                    (cb_in, cb_out),
                                                    ci.address,
                                                    co.address,
                                                );
                                            },
                                            _ => {},
                                        }
                                    } else {
                                        assert(total@[total@.len() - 1] == (cb_in, cb_out));
                                        assert(quad_covered(total@, cb_in.address, cb_out.address));
                                    }
                                }
                            }
                        } else {
                            proof {
                                assert(quad_covered(total@, cb_in.address, cb_out.address));
                                assert forall|w: int| 0 <= w < u + 1 implies match (
                                    pair.input.addr_to_block_spec(
                                        (Address {
                                            addr: (#[trigger] targets@[w]).0,
                                            block_addr: targets@[w].0,
                                            function_addr: in_fa,
                                        }),
                                    ),
                                    pair.output.addr_to_block_spec(
                                        (Address {
                                            addr: targets@[w].1,
                                            block_addr: targets@[w].1,
                                            function_addr: out_fa,
                                        }),
                                    ),
                                ) {
                                    (Some(ci), Some(co)) => quad_covered(total@, ci.address, co.address),
                                    _ => true,
                                } by {}
                            }
                        }
                    },
                    _ => {
                        proof {
                            assert forall|w: int| 0 <= w < u + 1 implies match (
                                pair.input.addr_to_block_spec(
                                    (Address {
                                        addr: (#[trigger] targets@[w]).0,
                                        block_addr: targets@[w].0,
                                        function_addr: in_fa,
                                    }),
                                ),
                                pair.output.addr_to_block_spec(
                                    (Address {
                                        addr: targets@[w].1,
                                        block_addr: targets@[w].1,
                                        function_addr: out_fa,
                                    }),
                                ),
                            ) {
                                (Some(ci), Some(co)) => quad_covered(total@, ci.address, co.address),
                                _ => true,
                            } by {}
                        }
                    },
                }
                u = u + 1;
            }
            proof {
                assert(expanded(binds@, *pair, total@, pv)) by {
                    assert forall|x: u64, y: u64| #[trigger] child_link(binds@, *pair, pv, x, y) implies
                        match (
                        pair.input.addr_to_block_spec(
                            (Address { addr: x, block_addr: x, function_addr: pv.0.address.function_addr }),
                        ),
                        pair.output.addr_to_block_spec(
                            (Address { addr: y, block_addr: y, function_addr: pv.1.address.function_addr }),
                        ),
                    ) {
                        (Some(ci), Some(co)) => quad_covered(total@, ci.address, co.address),
                        _ => true,
                    } by {
                        let w = choose|w: int|
                            0 <= w < targets@.len() && #[trigger] targets@[w] == (x, y);
                        assert(targets@[w].0 == x && targets@[w].1 == y);
                    }
                }
                assert forall|t: int| 0 <= t < total@.len() implies pair_covered(queue@, #[trigger] total@[t])
                    || expanded(binds@, *pair, total@, (*total@[t].0, *total@[t].1)) by {
                    if total@[t] == p {
                        assert((*total@[t].0, *total@[t].1) == pv);
                    }
                }
            }
        } else {
            proof {
                assert(expanded(binds@, *pair, total@, pv)) by {
                    assert forall|x: u64, y: u64| #[trigger] child_link(binds@, *pair, pv, x, y) implies
                        false by {
                        assert(has_inline_call(binds@, *pair, pv.0));
                    }
                }
                assert forall|t: int| 0 <= t < total@.len() implies pair_covered(queue@, #[trigger] total@[t])
                    || expanded(binds@, *pair, total@, (*total@[t].0, *total@[t].1)) by {
                    if total@[t] == p {
                        assert((*total@[t].0, *total@[t].1) == pv);
                    }
                }
            }
        }
    }
    proof {
        assert forall|i2: int| 0 <= i2 < total@.len() implies expanded(
            binds@,
            *pair,
            total@,
            (*(#[trigger] total@[i2]).0, *total@[i2].1),
        ) by {
            if pair_covered(queue@, total@[i2]) {
                let q0 = choose|q0: int| 0 <= q0 < queue@.len() && #[trigger] queue@[q0] == total@[i2];
                assert(false);
            }
        }
    }
    total
}

/// The last input function bearing `nm` that has an entry block: the block
/// whose address equals the function's own entry address.
pub open spec fn last_named_entry_block(fns: Seq<Function>, nm: Seq<char>) -> Option<Block>
    decreases fns.len(),
{
    if fns.len() == 0 {
        None
    } else {
        let f = fns.last();
        let hit = match f.name {
            Some(n) => n@ == nm,
            None => false,
        };
        if hit {
            match first_block(f.blocks@, f.address.function_addr) {
                Some(b) => Some(b),
                None => last_named_entry_block(fns.drop_last(), nm),
            }
        } else {
            last_named_entry_block(fns.drop_last(), nm)
        }
    }
}

/// The first block in `blocks` whose block address is `addr`, by reference.
fn block_in<'a>(blocks: &'a Vec<Block>, addr: u64) -> (r: Option<&'a Block>)
    ensures
        match r {
            Some(b) => first_block(blocks@, addr) == Some(*b),
            None => first_block(blocks@, addr) is None,
        },
{
    let n = blocks.len();
    proof {
        assert(blocks@.subrange(0, n as int) =~= blocks@);
    }
    let mut i: usize = 0;
    while i < n
        invariant
            i <= n,
            n == blocks@.len(),
            first_block(blocks@, addr) == first_block(blocks@.subrange(i as int, n as int), addr),
        decreases n - i,
    {
        let ghost suffix = blocks@.subrange(i as int, n as int);
        proof {
            assert(suffix[0] == blocks@[i as int]);
            assert(suffix.drop_first() =~= blocks@.subrange(i as int + 1, n as int));
        }
        if blocks[i].address.block_addr == addr {
            return Some(&blocks[i]);
        }
        i = i + 1;
    }
    proof {
        assert(blocks@.subrange(n as int, n as int).len() == 0);
    }
    None
}

/// Find the last input function bearing `nm` that has an entry block.
#[verifier::loop_isolation(false)]
fn entry_block_by_name<'a>(fns: &'a Vec<Function>, nm: &String) -> (r: Option<&'a Block>)
    ensures
        match r {
            Some(b) => last_named_entry_block(fns@, nm@) == Some(*b),
            None => last_named_entry_block(fns@, nm@) is None,
        },
{
    let mut i = fns.len();
    proof {
        assert(fns@.subrange(0, i as int) =~= fns@);
    }
    while i > 0
        invariant
            i <= fns@.len(),
            last_named_entry_block(fns@, nm@) == last_named_entry_block(
                fns@.subrange(0, i as int),
                nm@,
            ),
        decreases i,
    {
        i = i - 1;
        let ghost prefix = fns@.subrange(0, i as int + 1);
        proof {
            assert(prefix.last() == fns@[i as int]);
            assert(prefix.drop_last() =~= fns@.subrange(0, i as int));
        }
        let f = &fns[i];
        let hit = match &f.name {
            Some(n) => *n == *nm,
            None => false,
        };
        if hit {
            match block_in(&f.blocks, f.address.function_addr) {
                Some(b) => {
                    return Some(b);
                },
                None => {},
            }
        }
    }
    proof {
        assert(fns@.subrange(0, 0).len() == 0);
    }
    None
}

/// The root pairs of the traversal strategy, from database entry `i` on:
/// each bound name aligns the entry block of the input function bearing it
/// with the entry block of the output function at its bound address.
pub open spec fn traverse_roots(entries: Seq<BindEntry>, pair: ExecPair, i: int) -> Seq<(Block, Block)>
    decreases entries.len() - i,
{
    if i < 0 || i >= entries.len() {
        Seq::empty()
    } else {
        let rest = traverse_roots(entries, pair, i + 1);
        match last_named_entry_block(pair.input.fns@, entries[i].name@) {
            None => rest,
            Some(ib) => match entries[i].bind@.get_addr() {
                None => rest,
                Some(t) => match pair.output.addr_to_block_spec(
                    (Address { addr: t, block_addr: t, function_addr: t }),
                ) {
                    None => rest,
                    Some(ob) => seq![(ib, ob)] + rest,
                },
            },
        }
    }
}

/// Every root pair's addresses appear among the collected pairs.
pub open spec fn roots_covered(roots: Seq<(Block, Block)>, ps: Seq<(Block, Block)>) -> bool {
    forall|j: int|
        0 <= j < roots.len() ==> exists|t: int|
            0 <= t < ps.len() && (#[trigger] ps[t]).0.address == (#[trigger] roots[j]).0.address
                && ps[t].1.address == roots[j].1.address
}

/// Align each bound name's entry blocks, traverse the graphs in lockstep
/// and walk the collected pairs; see [`block_traverse`] and [`block_binds`].
#[verifier::loop_isolation(false)]
pub fn block_traverse_strat(pair: &ExecPair, binds: &BindDB) -> (r: Batch)
    requires
        binds.wf(),
    ensures
        r.wf(),
        exists|ps: Seq<(Block, Block)>|
            {
                &&& pairs_distinct(ps)
                &&& all_justified(binds@, *pair, traverse_roots(binds.binds@, *pair, 0), ps)
                &&& roots_covered(traverse_roots(binds.binds@, *pair, 0), ps)
                &&& vtraverse_closed(binds@, *pair, ps)
                &&& r@ == #[trigger] block_binds_spec(binds@, *pair, ps)
            },
{
    let mut roots: Vec<(&Block, &Block)> = Vec::new();
    let n = binds.binds.len();
    let mut i: usize = 0;
    proof {
        assert(deref_block_pairs(roots@) + traverse_roots(binds.binds@, *pair, 0) =~= traverse_roots(
            binds.binds@,
            *pair,
            0,
        ));
    }
    while i < n
        invariant
            i <= n,
            n == binds.binds@.len(),
            binds.wf(),
            traverse_roots(binds.binds@, *pair, 0) == deref_block_pairs(roots@) + traverse_roots(
                binds.binds@,
                *pair,
                i as int,
            ),
        decreases n - i,
    {
        let ghost before = deref_block_pairs(roots@);
        match entry_block_by_name(&pair.input.fns, &binds.binds[i].name) {
            None => {},
            Some(ib) => {
                match binds.binds[i].bind.get_addr() {
                    None => {},
                    Some(t) => {
                        let target = Address { addr: t, block_addr: t, function_addr: t };
                        match pair.output.addr_to_block(&target) {
                            None => {},
                            Some(ob) => {
                                roots.push((ib, ob));
                                proof {
                                    assert(deref_block_pairs(roots@) =~= before + seq![(*ib, *ob)]);
                                    assert((before + seq![(*ib, *ob)]) + traverse_roots(
                                        binds.binds@,
                                        *pair,
                                        i as int + 1,
                                    ) =~= before + (seq![(*ib, *ob)] + traverse_roots(
                                        binds.binds@,
                                        *pair,
                                        i as int + 1,
                                    )));
                                }
                            },
                        }
                    },
                }
            },
        }
        i = i + 1;
    }
    proof {
        assert(traverse_roots(binds.binds@, *pair, n as int).len() == 0);
        assert(deref_block_pairs(roots@) + traverse_roots(binds.binds@, *pair, n as int)
            =~= deref_block_pairs(roots@));
    }
    let ghost root_pairs = deref_block_pairs(roots@);
    let ghost roots_raw = roots@;
    let collected = block_traverse(binds, pair, roots);
    let out = block_binds(binds, pair, collected);
    proof {
        let ps = deref_block_pairs(collected@);
        let rts = traverse_roots(binds.binds@, *pair, 0);
        assert(root_pairs == rts);
        assert forall|j: int| 0 <= j < rts.len() implies exists|t: int|
            0 <= t < ps.len() && (#[trigger] ps[t]).0.address == (#[trigger] rts[j]).0.address
                && ps[t].1.address == rts[j].1.address by {
            assert(rts[j] == root_pairs[j]);
            assert(root_pairs[j].0.address == roots_raw[j].0.address);
            assert(root_pairs[j].1.address == roots_raw[j].1.address);
            assert(quad_covered(collected@, roots_raw[j].0.address, roots_raw[j].1.address));
            let t = choose|t: int|
                0 <= t < collected@.len() && (#[trigger] collected@[t]).0.address == roots_raw[j].0.address
                    && collected@[t].1.address == roots_raw[j].1.address;
            assert(ps[t].0.address == collected@[t].0.address);
            assert(ps[t].1.address == collected@[t].1.address);
        }
        lemma_traverse_closed_values(binds@, *pair, collected@);
        assert(pairs_distinct(ps) && all_justified(binds@, *pair, rts, ps)
            && roots_covered(rts, ps) && vtraverse_closed(binds@, *pair, ps) && out@
            == block_binds_spec(binds@, *pair, ps));
    }
    out
}

/// The first vtable bearing class name `nm`.
pub open spec fn first_vtable(s: Seq<Vtable>, nm: Seq<char>) -> Option<Vtable>
    decreases s.len(),
{
    if s.len() == 0 {
        None
    } else if s[0].name@ == nm {
        Some(s[0])
    } else {
        first_vtable(s.drop_first(), nm)
    }
}

/// Look a vtable up by its class name.
#[verifier::loop_isolation(false)]
fn find_vtable<'a>(v: &'a Vec<Vtable>, nm: &String) -> (r: Option<&'a Vtable>)
    ensures
        match r {
            Some(vt) => first_vtable(v@, nm@) == Some(*vt),
            None => first_vtable(v@, nm@) is None,
        },
{
    let n = v.len();
    proof {
        assert(v@.subrange(0, n as int) =~= v@);
    }
    let mut i: usize = 0;
    while i < n
        invariant
            i <= n,
            first_vtable(v@, nm@) == first_vtable(v@.subrange(i as int, n as int), nm@),
        decreases n - i,
    {
        let ghost suffix = v@.subrange(i as int, n as int);
        proof {
            assert(suffix[0] == v@[i as int]);
            assert(suffix.drop_first() =~= v@.subrange(i as int + 1, n as int));
        }
        if v[i].name == *nm {
            return Some(&v[i]);
        }
        i = i + 1;
    }
    proof {
        assert(v@.subrange(n as int, n as int).len() == 0);
    }
    None
}

/// The seed bindings one class yields from slot `k` on: the common prefix of
/// the two method lists, slot by slot, wherever the input method is a named
/// function.
pub open spec fn vtable_slot_seeds(pair: ExecPair, ins: Seq<u64>, outs: Seq<u64>, k: int) -> Seq<
    (Seq<char>, u64),
>
    decreases ins.len() - k,
{
    if k < 0 || k >= ins.len() || k >= outs.len() {
        Seq::empty()
    } else {
        let rest = vtable_slot_seeds(pair, ins, outs, k + 1);
        match input_fn_name(pair, ins[k]) {
            None => rest,
            Some(nm) => seq![(nm, outs[k])] + rest,
        }
    }
}

/// All seed bindings, from input vtable `i` on: each class present in both
/// binaries contributes its slot seeds.
pub open spec fn vtable_seeds(pair: ExecPair, i: int) -> Seq<(Seq<char>, u64)>
    decreases pair.input.vtables@.len() - i,
{
    if i < 0 || i >= pair.input.vtables@.len() {
        Seq::empty()
    } else {
        let rest = vtable_seeds(pair, i + 1);
        match first_vtable(pair.output.vtables@, pair.input.vtables@[i].name@) {
            None => rest,
            Some(ov) => vtable_slot_seeds(
                pair,
                pair.input.vtables@[i].function_addrs@,
                ov.function_addrs@,
                0,
            ) + rest,
        }
    }
}

/// Record the seeds in order, each as a `Verified` binding, a later seed for
/// the same name replacing an earlier one.
pub open spec fn seed_map(m: Map<Seq<char>, BindV>, seeds: Seq<(Seq<char>, u64)>) -> Map<Seq<char>, BindV>
    decreases seeds.len(),
{
    if seeds.len() == 0 {
        m
    } else {
        seed_map(m.insert(seeds[0].0, BindV::Verified(seeds[0].1)), seeds.drop_first())
    }
}

impl BindDB {
    /// Seed a fresh bind database from vtable alignment: for each class name
    /// present in both binaries, the method lists are zipped slot by slot and
    /// every named input method is bound `Verified` to the output slot. This
    /// is the only automated source of `Verified` bindings. An empty input
    /// vtable list seeds an empty database.
    #[verifier::loop_isolation(false)]
    pub fn new(pair: &ExecPair) -> (r: BindDB)
        ensures
            r.wf(),
            r@ == seed_map(Map::<Seq<char>, BindV>::empty(), vtable_seeds(*pair, 0)),
            pair.input.vtables@.len() == 0 ==> r@ == Map::<Seq<char>, BindV>::empty(),
    {
        let mut db = BindDB { binds: Vec::new() };
        let ghost goal = seed_map(Map::<Seq<char>, BindV>::empty(), vtable_seeds(*pair, 0));
        let n = pair.input.vtables.len();
        let mut i: usize = 0;
        proof {
            assert(db@ =~= Map::<Seq<char>, BindV>::empty());
        }
        while i < n
            invariant
                i <= n,
                n == pair.input.vtables@.len(),
                db.wf(),
                goal == seed_map(db@, vtable_seeds(*pair, i as int)),
            decreases n - i,
        {
            let vt = &pair.input.vtables[i];
            match find_vtable(&pair.output.vtables, &vt.name) {
                None => {},
                Some(ov) => {
                    let ghost slots = vtable_slot_seeds(
                        *pair,
                        vt.function_addrs@,
                        ov.function_addrs@,
                        0,
                    );
                    let ghost rest = vtable_seeds(*pair, i as int + 1);
                    let m = if vt.function_addrs.len() <= ov.function_addrs.len() {
                        vt.function_addrs.len()
                    } else {
                        ov.function_addrs.len()
                    };
                    let mut k: usize = 0;
                    proof {
                        assert(vtable_seeds(*pair, i as int) == slots + rest);
                    }
                    while k < m
                        invariant
                            k <= m,
                            db.wf(),
                            m <= vt.function_addrs@.len(),
                            m <= ov.function_addrs@.len(),
                            m == vt.function_addrs@.len() || m == ov.function_addrs@.len(),
                            goal == seed_map(
                                db@,
                                vtable_slot_seeds(
                                    *pair,
                                    vt.function_addrs@,
                                    ov.function_addrs@,
                                    k as int,
                                ) + rest,
                            ),
                        decreases m - k,
                    {
                        let ghost sk = vtable_slot_seeds(
                            *pair,
                            vt.function_addrs@,
                            ov.function_addrs@,
                            k as int,
                        );
                        let ghost sk1 = vtable_slot_seeds(
                            *pair,
                            vt.function_addrs@,
                            ov.function_addrs@,
                            k as int + 1,
                        );
                        match pair.input.fn_at(vt.function_addrs[k]) {
                            None => {
                                proof {
                                    assert(sk == sk1);
                                }
                            },
                            Some(f) => match &f.name {
                                None => {
                                    proof {
                                        assert(sk == sk1);
                                    }
                                },
                                Some(nm) => {
                                    let o = ov.function_addrs[k];
                                    db.set(nm, Bind::Verified(o));
                                    proof {
                                        assert(sk == seq![(nm@, o)] + sk1);
                                        assert((seq![(nm@, o)] + sk1) + rest =~= seq![(nm@, o)] + (sk1
                                            + rest));
                                        assert((seq![(nm@, o)] + (sk1 + rest)).drop_first() =~= sk1 + rest);
                                        assert((seq![(nm@, o)] + (sk1 + rest))[0] == (nm@, o));
                                    }
                                },
                            },
                        }
                        k = k + 1;
                    }
                    proof {
                        assert(vtable_slot_seeds(
                            *pair,
                            vt.function_addrs@,
                            ov.function_addrs@,
                            m as int,
                        ).len() == 0);
                        assert(vtable_slot_seeds(*pair, vt.function_addrs@, ov.function_addrs@, m as int)
                            + rest =~= rest);
                    }
                },
            }
            i = i + 1;
        }
        proof {
            assert(vtable_seeds(*pair, n as int).len() == 0);
        }
        db
    }
}

/// The last value the seeds write to `k`, if any.
pub open spec fn seed_value(seeds: Seq<(Seq<char>, u64)>, k: Seq<char>) -> Option<u64>
    decreases seeds.len(),
{
    if seeds.len() == 0 {
        None
    } else {
        match seed_value(seeds.drop_first(), k) {
            Some(v) => Some(v),
            None => if seeds[0].0 == k {
                Some(seeds[0].1)
            } else {
                None
            },
        }
    }
}

/// What seeding does to each name: a seeded name ends `Verified` at the last
/// seed written to it; any other name keeps its prior state.
pub proof fn lemma_seed_map_char(m: Map<Seq<char>, BindV>, seeds: Seq<(Seq<char>, u64)>, k: Seq<char>)
    ensures
        match seed_value(seeds, k) {
            Some(v) => seed_map(m, seeds).contains_key(k) && seed_map(m, seeds)[k] == BindV::Verified(v),
            None => (seed_map(m, seeds).contains_key(k) <==> m.contains_key(k)) && (m.contains_key(k)
                ==> seed_map(m, seeds)[k] == m[k]),
        },
    decreases seeds.len(),
{
    if seeds.len() > 0 {
        lemma_seed_map_char(m.insert(seeds[0].0, BindV::Verified(seeds[0].1)), seeds.drop_first(), k);
    }
}

/// Seeding is idempotent: seeding the same vtable alignment onto a database
/// that already holds its seeds leaves the database exactly as one seeding
/// pass left it.
pub proof fn lemma_vtable_seed_idempotent(m: Map<Seq<char>, BindV>, pair: ExecPair)
    ensures
        seed_map(seed_map(m, vtable_seeds(pair, 0)), vtable_seeds(pair, 0)) == seed_map(
            m,
            vtable_seeds(pair, 0),
        ),
{
    let seeds = vtable_seeds(pair, 0);
    let once = seed_map(m, seeds);
    let twice = seed_map(once, seeds);
    assert forall|k: Seq<char>| #[trigger] twice.contains_key(k) implies once.contains_key(k)
        && twice[k] == once[k] by {
        lemma_seed_map_char(m, seeds, k);
        lemma_seed_map_char(once, seeds, k);
    }
    assert forall|k: Seq<char>| #[trigger] once.contains_key(k) implies twice.contains_key(k) by {
        lemma_seed_map_char(m, seeds, k);
        lemma_seed_map_char(once, seeds, k);
    }
    assert(twice =~= once);
}

/// The block matcher is left-identity: offered exactly the reference block
/// itself as the one candidate, it returns that block — provided the
/// enclosing function's name, if the database binds it at all, is bound to
/// that block's own function address, so the sanity pre-filter keeps it.
pub proof fn lemma_block_compare_left_identity(m: Map<Seq<char>, BindV>, pair: ExecPair, b: Block)
    requires
        match sanity_addr(m, pair, b) {
            Some(t) => t == b.address.function_addr,
            None => true,
        },
    ensures
        block_compare_spec(m, pair, b, seq![b]) == Some(b),
{
    reveal(Seq::filter);
    let cands = seq![b];
    assert(cands.drop_last() =~= Seq::<Block>::empty());
    assert(Seq::<Block>::empty().filter(strings_pred(b)) =~= Seq::<Block>::empty());
    assert(Seq::<Block>::empty().filter(fn_addr_pred(b.address.function_addr)) =~= Seq::<Block>::empty());
    assert(strings_match(b, b));
    assert((strings_pred(b))(b));
    assert(cands.filter(strings_pred(b)) =~= seq![b]);
    match sanity_addr(m, pair, b) {
        None => {
        },
        Some(t) => {
            assert((fn_addr_pred(t))(b));
            assert(cands.filter(fn_addr_pred(t)) =~= seq![b]);
        },
    }
}

/// With a single root whose branches both `Return`, every justified pair is
/// that root: a `Return` pair links to no child, and the justification is
/// well founded, so nothing else can enter the collection.
proof fn lemma_return_root_only(
    m: Map<Seq<char>, BindV>,
    pr: ExecPair,
    root: (Block, Block),
    ps: Seq<(Block, Block)>,
    i: int,
)
    requires
        root.0.branch is Return,
        root.1.branch is Return,
        all_justified(m, pr, seq![root], ps),
        0 <= i < ps.len(),
    ensures
        ps[i] == root,
    decreases i,
{
    if seq![root].contains(ps[i]) {
        let t = choose|t: int| 0 <= t < seq![root].len() && seq![root][t] == ps[i];
        assert(seq![root][t] == root);
    } else {
        let j = choose|j: int| 0 <= j < i && lockstep_children(m, pr, ps[j], ps[i]);
        lemma_return_root_only(m, pr, root, ps, j);
        let (x, y) = choose|x: u64, y: u64|
            #[trigger] child_link(m, pr, ps[j], x, y) && child_at(pr, ps[j], x, y, ps[i]);
        assert(branch_pair_has(root.0.branch, root.1.branch, x, y));
        assert(false);
    }
}

/// Traversal from a single aligned entry pair whose branches both `Return`
/// collects exactly that pair: the entry itself and no children. These are
/// the guarantees [`block_traverse`] gives of its result, restated over the
/// collected values.
pub proof fn lemma_return_entry_traversal(
    m: Map<Seq<char>, BindV>,
    pr: ExecPair,
    root: (Block, Block),
    ps: Seq<(Block, Block)>,
)
    requires
        root.0.branch is Return,
        root.1.branch is Return,
        pairs_distinct(ps),
        all_justified(m, pr, seq![root], ps),
        vquad_covered(ps, root.0.address, root.1.address),
    ensures
        ps =~= seq![root],
{
    assert forall|i: int| 0 <= i < ps.len() implies ps[i] == root by {
        lemma_return_root_only(m, pr, root, ps, i);
    }
    let t = choose|t: int|
        0 <= t < ps.len() && (#[trigger] ps[t]).0.address == root.0.address && ps[t].1.address
            == root.1.address;
    assert(ps.len() >= 1);
    assert(ps.len() <= 1) by {
        if ps.len() >= 2 {
            assert(ps[0] == root && ps[1] == root);
        }
    }
}

} // verus!
