//! The finder: targeted search for one symbol's output address, filtering
//! candidates by the names already bound among their call sites and calls,
//! with the oracle confirming the survivors.

use vstd::prelude::*;
use crate::db::{
    Address, Bind, BindDB, BindEntry, BindV, Block, Dest, ExecPair, Function, entries_map,
    entries_wf, first_fn,
};
use crate::analysis::{bound_addr, input_fn_name};
use crate::process::{Oracle, exists_verified_claimant};
use crate::util::{dec_digits, push_decimal};
use vstd::utf8::encode_utf8;
use vstd::multiset::Multiset;

verus! {

/// Containment without multiplicity: every element of `a` occurs somewhere
/// in `b`.
pub open spec fn name_subset(a: Seq<Seq<char>>, b: Seq<Seq<char>>) -> bool {
    forall|i: int| 0 <= i < a.len() ==> b.contains(#[trigger] a[i])
}

/// Does every name of `a` occur in `b`? Containment without multiplicity: a
/// name occurring twice in `a` and once in `b` still passes.
pub fn subset_of(a: &Vec<String>, b: &Vec<String>) -> (r: bool)
    ensures
        r == name_subset(a.deep_view(), b.deep_view()),
{
    let mut i: usize = 0;
    while i < a.len()
        invariant
            i <= a@.len(),
            forall|j: int| 0 <= j < i ==> b.deep_view().contains(#[trigger] a.deep_view()[j]),
        decreases a@.len() - i,
    {
        let mut found = false;
        let mut j: usize = 0;
        while j < b.len() && !found
            invariant
                j <= b@.len(),
                i < a@.len(),
                found ==> b.deep_view().contains(a.deep_view()[i as int]),
                !found ==> forall|q: int| 0 <= q < j ==> b.deep_view()[q] != a.deep_view()[i as int],
            decreases b@.len() - j, (if found { 0int } else { 1int }),
        {
            proof {
                assert(b.deep_view()[j as int] == b@[j as int]@);
                assert(a.deep_view()[i as int] == a@[i as int]@);
            }
            if a[i] == b[j] {
                found = true;
            } else {
                j = j + 1;
            }
        }
        if !found {
            proof {
                assert(forall|q: int|
                    0 <= q < b.deep_view().len() ==> b.deep_view()[q] != a.deep_view()[i as int]);
                assert(!b.deep_view().contains(a.deep_view()[i as int]));
            }
            return false;
        }
        i = i + 1;
    }
    true
}

/// How often `x` occurs among the names.
fn count_name(v: &Vec<String>, x: &String) -> (r: usize)
    ensures
        r == v.deep_view().to_multiset().count(x@),
{
    proof {
        broadcast use vstd::seq_lib::group_to_multiset_ensures;

        assert(v.deep_view().subrange(0, 0) =~= Seq::<Seq<char>>::empty());
        assert(Seq::<Seq<char>>::empty().to_multiset() =~= Multiset::empty());
    }
    let mut count: usize = 0;
    let mut i: usize = 0;
    while i < v.len()
        invariant
            i <= v@.len(),
            v@.len() == v.deep_view().len(),
            count == v.deep_view().subrange(0, i as int).to_multiset().count(x@),
            count <= i,
        decreases v@.len() - i,
    {
        let ghost pre = v.deep_view().subrange(0, i as int);
        proof {
            broadcast use vstd::seq_lib::group_to_multiset_ensures;

            assert(v.deep_view().subrange(0, i as int + 1) =~= pre.push(v.deep_view()[i as int]));
            assert(pre.push(v.deep_view()[i as int]).to_multiset() =~= pre.to_multiset().insert(
                v.deep_view()[i as int],
            ));
            assert(v.deep_view()[i as int] == v@[i as int]@);
        }
        if v[i] == *x {
            count = count + 1;
        }
        i = i + 1;
    }
    proof {
        assert(v.deep_view().subrange(0, v.deep_view().len() as int) =~= v.deep_view());
    }
    count
}

/// Do the two name lists hold the same names with the same multiplicities
/// (equality of the lists up to order, as comparing them sorted would)?
pub fn same_names(a: &Vec<String>, b: &Vec<String>) -> (r: bool)
    ensures
        r == (a.deep_view().to_multiset() == b.deep_view().to_multiset()),
{
    proof {
        broadcast use vstd::seq_lib::group_to_multiset_ensures;

    }
    if a.len() != b.len() {
        proof {
            assert(a.deep_view().to_multiset().len() == a.deep_view().len());
            assert(b.deep_view().to_multiset().len() == b.deep_view().len());
        }
        return false;
    }
    let mut i: usize = 0;
    while i < a.len()
        invariant
            i <= a@.len(),
            forall|j: int|
                0 <= j < i ==> a.deep_view().to_multiset().count(#[trigger] a.deep_view()[j])
                    == b.deep_view().to_multiset().count(a.deep_view()[j]),
        decreases a@.len() - i,
    {
        let ca = count_name(a, &a[i]);
        let cb = count_name(b, &a[i]);
        proof {
            assert(a.deep_view()[i as int] == a@[i as int]@);
        }
        if ca != cb {
            proof {
                broadcast use vstd::seq_lib::group_to_multiset_ensures;

            }
            return false;
        }
        i = i + 1;
    }
    let mut j: usize = 0;
    while j < b.len()
        invariant
            j <= b@.len(),
            forall|q: int|
                0 <= q < a.deep_view().len() ==> a.deep_view().to_multiset().count(
                    #[trigger] a.deep_view()[q],
                ) == b.deep_view().to_multiset().count(a.deep_view()[q]),
            forall|q: int|
                0 <= q < j ==> a.deep_view().to_multiset().count(#[trigger] b.deep_view()[q])
                    == b.deep_view().to_multiset().count(b.deep_view()[q]),
        decreases b@.len() - j,
    {
        let ca = count_name(a, &b[j]);
        let cb = count_name(b, &b[j]);
        proof {
            assert(b.deep_view()[j as int] == b@[j as int]@);
        }
        if ca != cb {
            proof {
                broadcast use vstd::seq_lib::group_to_multiset_ensures;

            }
            return false;
        }
        j = j + 1;
    }
    proof {
        broadcast use vstd::seq_lib::group_to_multiset_ensures;

        let da = a.deep_view();
        let db = b.deep_view();
        assert forall|x: Seq<char>| true implies #[trigger] da.to_multiset().count(x)
            == db.to_multiset().count(x) by {
            if da.contains(x) {
                let q = choose|q: int| 0 <= q < da.len() && da[q] == x;
            } else if db.contains(x) {
                let q = choose|q: int| 0 <= q < db.len() && db[q] == x;
            } else {
                assert(da.to_multiset().count(x) == 0);
                assert(db.to_multiset().count(x) == 0);
            }
        }
        assert(da.to_multiset() =~= db.to_multiset());
    }
    true
}

/// The first function bearing the name `nm`.
pub open spec fn first_fn_named(fns: Seq<Function>, nm: Seq<char>) -> Option<Function>
    decreases fns.len(),
{
    if fns.len() == 0 {
        None
    } else if match fns[0].name {
        Some(n) => n@ == nm,
        None => false,
    } {
        Some(fns[0])
    } else {
        first_fn_named(fns.drop_first(), nm)
    }
}

/// Look a function up by its name.
#[verifier::loop_isolation(false)]
fn find_fn_named<'a>(fns: &'a Vec<Function>, nm: &String) -> (r: Option<&'a Function>)
    ensures
        match r {
            Some(f) => first_fn_named(fns@, nm@) == Some(*f),
            None => first_fn_named(fns@, nm@) is None,
        },
{
    let n = fns.len();
    proof {
        assert(fns@.subrange(0, n as int) =~= fns@);
    }
    let mut i: usize = 0;
    while i < n
        invariant
            i <= n,
            first_fn_named(fns@, nm@) == first_fn_named(fns@.subrange(i as int, n as int), nm@),
        decreases n - i,
    {
        let ghost suffix = fns@.subrange(i as int, n as int);
        proof {
            assert(suffix[0] == fns@[i as int]);
            assert(suffix.drop_first() =~= fns@.subrange(i as int + 1, n as int));
        }
        let hit = match &fns[i].name {
            Some(n2) => *n2 == *nm,
            None => false,
        };
        if hit {
            return Some(&fns[i]);
        }
        i = i + 1;
    }
    proof {
        assert(fns@.subrange(n as int, n as int).len() == 0);
    }
    None
}

/// The first entry claiming `addr`, read in reverse: the name an output
/// address maps back to.
pub open spec fn rev_name(entries: Seq<BindEntry>, addr: u64) -> Option<Seq<char>>
    decreases entries.len(),
{
    if entries.len() == 0 {
        None
    } else if entries[0].bind@.get_addr() == Some::<u64>(addr) {
        Some(entries[0].name@)
    } else {
        rev_name(entries.drop_first(), addr)
    }
}

/// The name bound at `addr`, if any entry claims it.
#[verifier::loop_isolation(false)]
fn bound_name_at(binds: &BindDB, addr: u64) -> (r: Option<String>)
    ensures
        match r {
            Some(nm) => rev_name(binds.binds@, addr) == Some(nm@),
            None => rev_name(binds.binds@, addr) is None,
        },
{
    let n = binds.binds.len();
    proof {
        assert(binds.binds@.subrange(0, n as int) =~= binds.binds@);
    }
    let mut i: usize = 0;
    while i < n
        invariant
            i <= n,
            rev_name(binds.binds@, addr) == rev_name(binds.binds@.subrange(i as int, n as int), addr),
        decreases n - i,
    {
        let ghost suffix = binds.binds@.subrange(i as int, n as int);
        proof {
            assert(suffix[0] == binds.binds@[i as int]);
            assert(suffix.drop_first() =~= binds.binds@.subrange(i as int + 1, n as int));
        }
        let hit = match binds.binds[i].bind.get_addr() {
            Some(a) => a == addr,
            None => false,
        };
        if hit {
            return Some(binds.binds[i].name.clone());
        }
        i = i + 1;
    }
    proof {
        assert(binds.binds@.subrange(n as int, n as int).len() == 0);
    }
    None
}

/// The names of the already-bound functions among some reference sites,
/// from site `i` on: each site's enclosing input function, where it is
/// named and its name has a bound address.
pub open spec fn bound_xref_names(
    m: Map<Seq<char>, BindV>,
    pair: ExecPair,
    xrefs: Seq<Address>,
    i: int,
) -> Seq<Seq<char>>
    decreases xrefs.len() - i,
{
    if i < 0 || i >= xrefs.len() {
        Seq::empty()
    } else {
        let rest = bound_xref_names(m, pair, xrefs, i + 1);
        match input_fn_name(pair, xrefs[i].function_addr) {
            None => rest,
            Some(nm) => if bound_addr(m, nm) is Some {
                seq![nm] + rest
            } else {
                rest
            },
        }
    }
}

/// Collect [`bound_xref_names`].
#[verifier::loop_isolation(false)]
fn collect_bound_xref_names(binds: &BindDB, pair: &ExecPair, xrefs: &Vec<Address>) -> (r: Vec<String>)
    requires
        binds.wf(),
    ensures
        r.deep_view() == bound_xref_names(binds@, *pair, xrefs@, 0),
{
    let mut out: Vec<String> = Vec::new();
    let n = xrefs.len();
    let mut i: usize = 0;
    proof {
        assert(out.deep_view() + bound_xref_names(binds@, *pair, xrefs@, 0) =~= bound_xref_names(
            binds@,
            *pair,
            xrefs@,
            0,
        ));
    }
    while i < n
        invariant
            i <= n,
            n == xrefs@.len(),
            binds.wf(),
            bound_xref_names(binds@, *pair, xrefs@, 0) == out.deep_view() + bound_xref_names(
                binds@,
                *pair,
                xrefs@,
                i as int,
            ),
        decreases n - i,
    {
        let ghost before = out.deep_view();
        match pair.input.fn_at(xrefs[i].function_addr) {
            None => {},
            Some(f) => match &f.name {
                None => {},
                Some(nm) => {
                    let bound = match binds.get(nm) {
                        None => false,
                        Some(b) => b.get_addr().is_some(),
                    };
                    proof {
                        assert(bound == (bound_addr(binds@, nm@) is Some));
                    }
                    if bound {
                        out.push(nm.clone());
                        proof {
                            assert(out.deep_view() =~= before.push(nm@));
                            assert(before.push(nm@) =~= before + seq![nm@]);
                            assert((before + seq![nm@]) + bound_xref_names(
                                binds@,
                                *pair,
                                xrefs@,
                                i as int + 1,
                            ) =~= before + (seq![nm@] + bound_xref_names(
                                binds@,
                                *pair,
                                xrefs@,
                                i as int + 1,
                            )));
                        }
                    }
                },
            },
        }
        i = i + 1;
    }
    proof {
        assert(bound_xref_names(binds@, *pair, xrefs@, n as int).len() == 0);
        assert(out.deep_view() + bound_xref_names(binds@, *pair, xrefs@, n as int) =~= out.deep_view());
    }
    out
}

/// The names the reverse mapping gives some reference sites, from site `i`
/// on.
pub open spec fn rev_xref_names(entries: Seq<BindEntry>, xrefs: Seq<Address>, i: int) -> Seq<Seq<char>>
    decreases xrefs.len() - i,
{
    if i < 0 || i >= xrefs.len() {
        Seq::empty()
    } else {
        let rest = rev_xref_names(entries, xrefs, i + 1);
        match rev_name(entries, xrefs[i].function_addr) {
            None => rest,
            Some(nm) => seq![nm] + rest,
        }
    }
}

/// Collect [`rev_xref_names`].
#[verifier::loop_isolation(false)]
fn collect_rev_xref_names(binds: &BindDB, xrefs: &Vec<Address>) -> (r: Vec<String>)
    ensures
        r.deep_view() == rev_xref_names(binds.binds@, xrefs@, 0),
{
    let mut out: Vec<String> = Vec::new();
    let n = xrefs.len();
    let mut i: usize = 0;
    proof {
        assert(out.deep_view() + rev_xref_names(binds.binds@, xrefs@, 0) =~= rev_xref_names(
            binds.binds@,
            xrefs@,
            0,
        ));
    }
    while i < n
        invariant
            i <= n,
            n == xrefs@.len(),
            rev_xref_names(binds.binds@, xrefs@, 0) == out.deep_view() + rev_xref_names(
                binds.binds@,
                xrefs@,
                i as int,
            ),
        decreases n - i,
    {
        let ghost before = out.deep_view();
        match bound_name_at(binds, xrefs[i].function_addr) {
            None => {},
            Some(nm) => {
                let ghost nmv = nm@;
                out.push(nm);
                proof {
                    assert(out.deep_view() =~= before + seq![nmv]);
                    assert((before + seq![nmv]) + rev_xref_names(binds.binds@, xrefs@, i as int + 1)
                        =~= before + (seq![nmv] + rev_xref_names(binds.binds@, xrefs@, i as int + 1)));
                }
            },
        }
        i = i + 1;
    }
    proof {
        assert(rev_xref_names(binds.binds@, xrefs@, n as int).len() == 0);
        assert(out.deep_view() + rev_xref_names(binds.binds@, xrefs@, n as int) =~= out.deep_view());
    }
    out
}

/// The already-bound callee names of one call list, from slot `i` on.
pub open spec fn bound_call_names_blk(
    m: Map<Seq<char>, BindV>,
    pair: ExecPair,
    calls: Seq<Dest>,
    i: int,
) -> Seq<Seq<char>>
    decreases calls.len() - i,
{
    if i < 0 || i >= calls.len() {
        Seq::empty()
    } else {
        let rest = bound_call_names_blk(m, pair, calls, i + 1);
        match calls[i] {
            Dest::Unknown => rest,
            Dest::Known(a) => match input_fn_name(pair, a) {
                None => rest,
                Some(nm) => if bound_addr(m, nm) is Some {
                    seq![nm] + rest
                } else {
                    rest
                },
            },
        }
    }
}

/// The already-bound callee names across a function's blocks, from block
/// `b` on.
pub open spec fn bound_call_names(
    m: Map<Seq<char>, BindV>,
    pair: ExecPair,
    blocks: Seq<Block>,
    b: int,
) -> Seq<Seq<char>>
    decreases blocks.len() - b,
{
    if b < 0 || b >= blocks.len() {
        Seq::empty()
    } else {
        bound_call_names_blk(m, pair, blocks[b].calls@, 0) + bound_call_names(m, pair, blocks, b + 1)
    }
}

/// Collect [`bound_call_names`].
#[verifier::loop_isolation(false)]
fn collect_bound_call_names(binds: &BindDB, pair: &ExecPair, blocks: &Vec<Block>) -> (r: Vec<String>)
    requires
        binds.wf(),
    ensures
        r.deep_view() == bound_call_names(binds@, *pair, blocks@, 0),
{
    let mut out: Vec<String> = Vec::new();
    let nb = blocks.len();
    let mut b: usize = 0;
    proof {
        assert(out.deep_view() + bound_call_names(binds@, *pair, blocks@, 0) =~= bound_call_names(
            binds@,
            *pair,
            blocks@,
            0,
        ));
    }
    while b < nb
        invariant
            b <= nb,
            nb == blocks@.len(),
            binds.wf(),
            bound_call_names(binds@, *pair, blocks@, 0) == out.deep_view() + bound_call_names(
                binds@,
                *pair,
                blocks@,
                b as int,
            ),
        decreases nb - b,
    {
        let calls = &blocks[b].calls;
        let nc = calls.len();
        let mut c: usize = 0;
        while c < nc
            invariant
                c <= nc,
                nc == calls@.len(),
                binds.wf(),
                calls@ == blocks@[b as int].calls@,
                b < nb,
                nb == blocks@.len(),
                bound_call_names(binds@, *pair, blocks@, 0) == out.deep_view() + (bound_call_names_blk(
                    binds@,
                    *pair,
                    calls@,
                    c as int,
                ) + bound_call_names(binds@, *pair, blocks@, b as int + 1)),
            decreases nc - c,
        {
            let ghost before = out.deep_view();
            let ghost rest_b = bound_call_names(binds@, *pair, blocks@, b as int + 1);
            let ghost bk = bound_call_names_blk(binds@, *pair, calls@, c as int);
            let ghost bk1 = bound_call_names_blk(binds@, *pair, calls@, c as int + 1);
            match &calls[c] {
                Dest::Unknown => {},
                Dest::Known(a) => {
                    match pair.input.fn_at(*a) {
                        None => {},
                        Some(f) => match &f.name {
                            None => {},
                            Some(nm) => {
                                let bound = match binds.get(nm) {
                                    None => false,
                                    Some(bnd) => bnd.get_addr().is_some(),
                                };
                                proof {
                                    assert(bound == (bound_addr(binds@, nm@) is Some));
                                }
                                if bound {
                                    out.push(nm.clone());
                                    proof {
                                        assert(bk == seq![nm@] + bk1);
                                        assert(out.deep_view() =~= before + seq![nm@]);
                                        assert((before + seq![nm@]) + (bk1 + rest_b) =~= before + ((seq![
                                            nm@,
                                        ] + bk1) + rest_b));
                                    }
                                }
                            },
                        },
                    }
                },
            }
            c = c + 1;
        }
        proof {
            assert(bound_call_names_blk(binds@, *pair, calls@, nc as int).len() == 0);
            assert(bound_call_names_blk(binds@, *pair, calls@, nc as int) + bound_call_names(
                binds@,
                *pair,
                blocks@,
                b as int + 1,
            ) =~= bound_call_names(binds@, *pair, blocks@, b as int + 1));
        }
        b = b + 1;
    }
    proof {
        assert(bound_call_names(binds@, *pair, blocks@, nb as int).len() == 0);
        assert(out.deep_view() + bound_call_names(binds@, *pair, blocks@, nb as int) =~= out.deep_view());
    }
    out
}

/// The reverse-mapped callee names of one call list, from slot `i` on.
pub open spec fn rev_call_names_blk(entries: Seq<BindEntry>, calls: Seq<Dest>, i: int) -> Seq<Seq<char>>
    decreases calls.len() - i,
{
    if i < 0 || i >= calls.len() {
        Seq::empty()
    } else {
        let rest = rev_call_names_blk(entries, calls, i + 1);
        match calls[i] {
            Dest::Unknown => rest,
            Dest::Known(a) => match rev_name(entries, a) {
                None => rest,
                Some(nm) => seq![nm] + rest,
            },
        }
    }
}

/// The reverse-mapped callee names across a function's blocks, from block
/// `b` on.
pub open spec fn rev_call_names(entries: Seq<BindEntry>, blocks: Seq<Block>, b: int) -> Seq<Seq<char>>
    decreases blocks.len() - b,
{
    if b < 0 || b >= blocks.len() {
        Seq::empty()
    } else {
        rev_call_names_blk(entries, blocks[b].calls@, 0) + rev_call_names(entries, blocks, b + 1)
    }
}

/// Collect [`rev_call_names`].
#[verifier::loop_isolation(false)]
fn collect_rev_call_names(binds: &BindDB, blocks: &Vec<Block>) -> (r: Vec<String>)
    ensures
        r.deep_view() == rev_call_names(binds.binds@, blocks@, 0),
{
    let mut out: Vec<String> = Vec::new();
    let nb = blocks.len();
    let mut b: usize = 0;
    proof {
        assert(out.deep_view() + rev_call_names(binds.binds@, blocks@, 0) =~= rev_call_names(
            binds.binds@,
            blocks@,
            0,
        ));
    }
    while b < nb
        invariant
            b <= nb,
            nb == blocks@.len(),
            rev_call_names(binds.binds@, blocks@, 0) == out.deep_view() + rev_call_names(
                binds.binds@,
                blocks@,
                b as int,
            ),
        decreases nb - b,
    {
        let calls = &blocks[b].calls;
        let nc = calls.len();
        let mut c: usize = 0;
        while c < nc
            invariant
                c <= nc,
                nc == calls@.len(),
                calls@ == blocks@[b as int].calls@,
                b < nb,
                nb == blocks@.len(),
                rev_call_names(binds.binds@, blocks@, 0) == out.deep_view() + (rev_call_names_blk(
                    binds.binds@,
                    calls@,
                    c as int,
                ) + rev_call_names(binds.binds@, blocks@, b as int + 1)),
            decreases nc - c,
        {
            let ghost before = out.deep_view();
            let ghost rest_b = rev_call_names(binds.binds@, blocks@, b as int + 1);
            let ghost bk = rev_call_names_blk(binds.binds@, calls@, c as int);
            let ghost bk1 = rev_call_names_blk(binds.binds@, calls@, c as int + 1);
            match &calls[c] {
                Dest::Unknown => {},
                Dest::Known(a) => {
                    match bound_name_at(binds, *a) {
                        None => {},
                        Some(nm) => {
                            let ghost nmv = nm@;
                            out.push(nm);
                            proof {
                                assert(bk == seq![nmv] + bk1);
                                assert(out.deep_view() =~= before + seq![nmv]);
                                assert((before + seq![nmv]) + (bk1 + rest_b) =~= before + ((seq![nmv]
                                    + bk1) + rest_b));
                            }
                        },
                    }
                },
            }
            c = c + 1;
        }
        proof {
            assert(rev_call_names_blk(binds.binds@, calls@, nc as int).len() == 0);
            assert(rev_call_names_blk(binds.binds@, calls@, nc as int) + rev_call_names(
                binds.binds@,
                blocks@,
                b as int + 1,
            ) =~= rev_call_names(binds.binds@, blocks@, b as int + 1));
        }
        b = b + 1;
    }
    proof {
        assert(rev_call_names(binds.binds@, blocks@, nb as int).len() == 0);
        assert(out.deep_view() + rev_call_names(binds.binds@, blocks@, nb as int) =~= out.deep_view());
    }
    out
}

/// Does candidate `c` survive the call-site filter: its reverse-mapped
/// call-site names equal the symbol's bound call-site names up to order?
pub open spec fn stage1_keep(entries: Seq<BindEntry>, pair: ExecPair, vx: Seq<Seq<char>>, c: u64) -> bool {
    match first_fn(pair.output.fns@, c) {
        None => false,
        Some(f) => rev_xref_names(entries, f.xrefs@, 0).to_multiset() == vx.to_multiset(),
    }
}

/// The candidates surviving the call-site filter, from candidate `i` on.
pub open spec fn stage1_list(
    entries: Seq<BindEntry>,
    pair: ExecPair,
    vx: Seq<Seq<char>>,
    cands: Seq<u64>,
    i: int,
) -> Seq<u64>
    decreases cands.len() - i,
{
    if i < 0 || i >= cands.len() {
        Seq::empty()
    } else {
        let rest = stage1_list(entries, pair, vx, cands, i + 1);
        if stage1_keep(entries, pair, vx, cands[i]) {
            seq![cands[i]] + rest
        } else {
            rest
        }
    }
}

/// Does candidate `c` survive the call refinement: its reverse-mapped
/// callee names contain every bound callee name of the symbol?
pub open spec fn stage2_keep(entries: Seq<BindEntry>, pair: ExecPair, vc: Seq<Seq<char>>, c: u64) -> bool {
    match first_fn(pair.output.fns@, c) {
        None => false,
        Some(f) => name_subset(vc, rev_call_names(entries, f.blocks@, 0)),
    }
}

/// The candidates surviving the call refinement, from candidate `i` on.
pub open spec fn stage2_list(
    entries: Seq<BindEntry>,
    pair: ExecPair,
    vc: Seq<Seq<char>>,
    cands: Seq<u64>,
    i: int,
) -> Seq<u64>
    decreases cands.len() - i,
{
    if i < 0 || i >= cands.len() {
        Seq::empty()
    } else {
        let rest = stage2_list(entries, pair, vc, cands, i + 1);
        if stage2_keep(entries, pair, vc, cands[i]) {
            seq![cands[i]] + rest
        } else {
            rest
        }
    }
}

/// A survivor of the call-site filter came from the candidate list.
proof fn lemma_stage1_in_cands(
    entries: Seq<BindEntry>,
    pr: ExecPair,
    vx: Seq<Seq<char>>,
    cands: Seq<u64>,
    i: int,
    e: u64,
)
    requires
        0 <= i,
        stage1_list(entries, pr, vx, cands, i).contains(e),
    ensures
        cands.contains(e),
    decreases cands.len() - i,
{
    if i < cands.len() {
        let rest = stage1_list(entries, pr, vx, cands, i + 1);
        if stage1_keep(entries, pr, vx, cands[i]) {
            let full = seq![cands[i]] + rest;
            let t = choose|t: int| 0 <= t < full.len() && full[t] == e;
            if t == 0 {
                assert(cands[i] == e);
            } else {
                assert(rest[t - 1] == e);
                assert(rest.contains(e));
                lemma_stage1_in_cands(entries, pr, vx, cands, i + 1, e);
            }
        } else {
            lemma_stage1_in_cands(entries, pr, vx, cands, i + 1, e);
        }
    }
}

/// A survivor of the call refinement came from the candidate list.
proof fn lemma_stage2_in_cands(
    entries: Seq<BindEntry>,
    pr: ExecPair,
    vc: Seq<Seq<char>>,
    cands: Seq<u64>,
    i: int,
    e: u64,
)
    requires
        0 <= i,
        stage2_list(entries, pr, vc, cands, i).contains(e),
    ensures
        cands.contains(e),
    decreases cands.len() - i,
{
    if i < cands.len() {
        let rest = stage2_list(entries, pr, vc, cands, i + 1);
        if stage2_keep(entries, pr, vc, cands[i]) {
            let full = seq![cands[i]] + rest;
            let t = choose|t: int| 0 <= t < full.len() && full[t] == e;
            if t == 0 {
                assert(cands[i] == e);
            } else {
                assert(rest[t - 1] == e);
                assert(rest.contains(e));
                lemma_stage2_in_cands(entries, pr, vc, cands, i + 1, e);
            }
        } else {
            lemma_stage2_in_cands(entries, pr, vc, cands, i + 1, e);
        }
    }
}

/// Keep the candidates whose call-site names match the symbol's.
#[verifier::loop_isolation(false)]
fn filter_stage1(binds: &BindDB, pair: &ExecPair, vx: &Vec<String>, cands: &Vec<u64>) -> (r: Vec<u64>)
    ensures
        r@ == stage1_list(binds.binds@, *pair, vx.deep_view(), cands@, 0),
{
    let mut out: Vec<u64> = Vec::new();
    let n = cands.len();
    let mut i: usize = 0;
    proof {
        assert(out@ + stage1_list(binds.binds@, *pair, vx.deep_view(), cands@, 0) =~= stage1_list(
            binds.binds@,
            *pair,
            vx.deep_view(),
            cands@,
            0,
        ));
    }
    while i < n
        invariant
            i <= n,
            n == cands@.len(),
            stage1_list(binds.binds@, *pair, vx.deep_view(), cands@, 0) == out@ + stage1_list(
                binds.binds@,
                *pair,
                vx.deep_view(),
                cands@,
                i as int,
            ),
        decreases n - i,
    {
        let ghost before = out@;
        let keep = match pair.output.fn_at(cands[i]) {
            None => false,
            Some(f) => {
                let names = collect_rev_xref_names(binds, &f.xrefs);
                same_names(&names, vx)
            },
        };
        proof {
            assert(keep == stage1_keep(binds.binds@, *pair, vx.deep_view(), cands@[i as int]));
        }
        if keep {
            out.push(cands[i]);
            proof {
                assert(out@ =~= before + seq![cands@[i as int]]);
                assert((before + seq![cands@[i as int]]) + stage1_list(
                    binds.binds@,
                    *pair,
                    vx.deep_view(),
                    cands@,
                    i as int + 1,
                ) =~= before + (seq![cands@[i as int]] + stage1_list(
                    binds.binds@,
                    *pair,
                    vx.deep_view(),
                    cands@,
                    i as int + 1,
                )));
            }
        }
        i = i + 1;
    }
    proof {
        assert(stage1_list(binds.binds@, *pair, vx.deep_view(), cands@, n as int).len() == 0);
        assert(out@ + stage1_list(binds.binds@, *pair, vx.deep_view(), cands@, n as int) =~= out@);
    }
    out
}

/// Keep the candidates whose callee names contain the symbol's.
#[verifier::loop_isolation(false)]
fn filter_stage2(binds: &BindDB, pair: &ExecPair, vc: &Vec<String>, cands: &Vec<u64>) -> (r: Vec<u64>)
    ensures
        r@ == stage2_list(binds.binds@, *pair, vc.deep_view(), cands@, 0),
{
    let mut out: Vec<u64> = Vec::new();
    let n = cands.len();
    let mut i: usize = 0;
    proof {
        assert(out@ + stage2_list(binds.binds@, *pair, vc.deep_view(), cands@, 0) =~= stage2_list(
            binds.binds@,
            *pair,
            vc.deep_view(),
            cands@,
            0,
        ));
    }
    while i < n
        invariant
            i <= n,
            n == cands@.len(),
            stage2_list(binds.binds@, *pair, vc.deep_view(), cands@, 0) == out@ + stage2_list(
                binds.binds@,
                *pair,
                vc.deep_view(),
                cands@,
                i as int,
            ),
        decreases n - i,
    {
        let ghost before = out@;
        let keep = match pair.output.fn_at(cands[i]) {
            None => false,
            Some(f) => {
                let names = collect_rev_call_names(binds, &f.blocks);
                subset_of(vc, &names)
            },
        };
        proof {
            assert(keep == stage2_keep(binds.binds@, *pair, vc.deep_view(), cands@[i as int]));
        }
        if keep {
            out.push(cands[i]);
            proof {
                assert(out@ =~= before + seq![cands@[i as int]]);
                assert((before + seq![cands@[i as int]]) + stage2_list(
                    binds.binds@,
                    *pair,
                    vc.deep_view(),
                    cands@,
                    i as int + 1,
                ) =~= before + (seq![cands@[i as int]] + stage2_list(
                    binds.binds@,
                    *pair,
                    vc.deep_view(),
                    cands@,
                    i as int + 1,
                )));
            }
        }
        i = i + 1;
    }
    proof {
        assert(stage2_list(binds.binds@, *pair, vc.deep_view(), cands@, n as int).len() == 0);
        assert(out@ + stage2_list(binds.binds@, *pair, vc.deep_view(), cands@, n as int) =~= out@);
    }
    out
}

/// Does some `Verified` entry claim address `c`?
pub open spec fn claimed_verified(m: Map<Seq<char>, BindV>, c: u64) -> bool {
    exists|k: Seq<char>|
        #[trigger] m.contains_key(k) && m[k] is Verified && m[k].get_addr() == Some::<u64>(c)
}

/// The database after a rejection of address `c` for `symbol` is recorded: a
/// `Not` entry collects `c` unless it already holds it; any other state
/// becomes `Not([c])`.
pub open spec fn rejection_recorded(pre: Map<Seq<char>, BindV>, symbol: Seq<char>, c: u64) -> Map<
    Seq<char>,
    BindV,
> {
    if pre.contains_key(symbol) && pre[symbol] is Not {
        if pre[symbol]->Not_0.contains(c) {
            pre
        } else {
            pre.insert(symbol, BindV::Not(pre[symbol]->Not_0.push(c)))
        }
    } else {
        pre.insert(symbol, BindV::Not(seq![c]))
    }
}

/// The oracle pass over the surviving candidates, from candidate `i` on,
/// indexed by the answers: a candidate some name already holds `Verified`
/// is skipped without a prompt; otherwise a yes binds the symbol `Verified`
/// at that candidate and stops the pass, an ignore stops it with nothing
/// changed, and a no records the rejection and moves on.
pub open spec fn ask_run(
    pre: Map<Seq<char>, BindV>,
    symbol: Seq<char>,
    cands: Seq<u64>,
    i: int,
    post: Map<Seq<char>, BindV>,
) -> bool
    decreases cands.len() - i,
{
    if i < 0 || i >= cands.len() {
        post == pre
    } else if claimed_verified(pre, cands[i]) {
        ask_run(pre, symbol, cands, i + 1, post)
    } else {
        ||| post == pre.insert(symbol, BindV::Verified(cands[i]))
        ||| post == pre
        ||| ask_run(rejection_recorded(pre, symbol, cands[i]), symbol, cands, i + 1, post)
    }
}

/// What an oracle pass can do, read off the answer-indexed relation: other
/// names are untouched, no name disappears, and the symbol ends `Verified`
/// at one of the remaining candidates, `Not`, or as it began.
pub proof fn lemma_ask_run_frame(
    pre: Map<Seq<char>, BindV>,
    symbol: Seq<char>,
    cands: Seq<u64>,
    i: int,
    post: Map<Seq<char>, BindV>,
)
    requires
        ask_run(pre, symbol, cands, i, post),
    ensures
        forall|k: Seq<char>|
            k != symbol ==> ((#[trigger] post.contains_key(k) <==> pre.contains_key(k)) && (
            post.contains_key(k) ==> post[k] == pre[k])),
        forall|k: Seq<char>| #[trigger] pre.contains_key(k) ==> post.contains_key(k),
        post.contains_key(symbol) ==> (post[symbol] is Verified || post[symbol] is Not || (
        pre.contains_key(symbol) && post[symbol] == pre[symbol])),
        (post.contains_key(symbol) && post[symbol] is Verified && !(pre.contains_key(symbol)
            && pre[symbol] == post[symbol])) ==> exists|i0: int|
            i <= i0 < cands.len() && post[symbol] == BindV::Verified(#[trigger] cands[i0]),
    decreases cands.len() - i,
{
    if i < 0 || i >= cands.len() {
    } else if claimed_verified(pre, cands[i]) {
        lemma_ask_run_frame(pre, symbol, cands, i + 1, post);
    } else {
        if post == pre.insert(symbol, BindV::Verified(cands[i])) {
            assert(post[symbol] == BindV::Verified(cands[i]));
        } else if post == pre {
        } else {
            let mid = rejection_recorded(pre, symbol, cands[i]);
            assert(mid.contains_key(symbol) && mid[symbol] is Not);
            lemma_ask_run_frame(mid, symbol, cands, i + 1, post);
        }
    }
}

/// Poll the oracle over the surviving candidates from index `i` on. A
/// candidate some name already holds `Verified` is skipped; a yes binds the
/// symbol `Verified` there and ends the search; a no adds the candidate to
/// the symbol's rejected list; an ignore ends the search without a verdict.
/// The answer-indexed relation [`ask_run`] is exactly what one pass does.
#[verifier::loop_isolation(false)]
fn ask_candidates<O: Oracle>(
    binds: &mut BindDB,
    symbol: &String,
    cands: &Vec<u64>,
    i: usize,
    oracle: &mut O,
)
    requires
        old(binds).wf(),
    ensures
        final(binds).wf(),
        ask_run(old(binds)@, symbol@, cands@, i as int, final(binds)@),
    decreases cands@.len() - i,
{
    if i >= cands.len() {
        return ;
    }
    let c = cands[i];
    if exists_verified_claimant(binds, c) {
        proof {
            assert(claimed_verified(binds@, c));
        }
        ask_candidates(binds, symbol, cands, i + 1, oracle);
        return ;
    }
    let ans = oracle.ask(symbol, c);
    match ans {
        Some(true) => {
            binds.set(symbol, Bind::Verified(c));
            proof {
                assert(binds@ == old(binds)@.insert(symbol@, BindV::Verified(cands@[i as int])));
            }
        },
        Some(false) => {
            let ghost pre = binds@;
            let cur: Option<Bind> = match binds.get(symbol) {
                None => None,
                Some(b) => Some(b.duplicate()),
            };
            match cur {
                Some(Bind::Not(rejected)) => {
                    let mut already = false;
                    let mut j: usize = 0;
                    while j < rejected.len()
                        invariant
                            j <= rejected@.len(),
                            rejected@ == pre[symbol@]->Not_0,
                            already ==> rejected@.contains(c),
                            !already ==> forall|q: int| 0 <= q < j ==> rejected@[q] != c,
                        decreases rejected@.len() - j,
                    {
                        if rejected[j] == c {
                            already = true;
                        }
                        j = j + 1;
                    }
                    if !already {
                        let mut extended = rejected;
                        extended.push(c);
                        proof {
                            assert(extended@.no_duplicates()) by {
                                assert(extended@.drop_last() =~= binds@[symbol@]->Not_0);
                            }
                        }
                        binds.set(symbol, Bind::Not(extended));
                    }
                    proof {
                        assert(binds@ == rejection_recorded(pre, symbol@, c));
                    }
                },
                _ => {
                    let rejected = vec![c];
                    proof {
                        assert(rejected@ =~= seq![c]);
                        assert(rejected@.no_duplicates());
                    }
                    binds.set(symbol, Bind::Not(rejected));
                    proof {
                        assert(binds@ == rejection_recorded(pre, symbol@, c));
                    }
                },
            }
            ask_candidates(binds, symbol, cands, i + 1, oracle);
            proof {
                assert(ask_run(
                    rejection_recorded(pre, symbol@, cands@[i as int]),
                    symbol@,
                    cands@,
                    i as int + 1,
                    binds@,
                ));
            }
        },
        None => {},
    }
}

impl BindDB {
    /// The lattice-respecting statement of what a finder run can do to the
    /// searched symbol: it stays as it was, becomes `Verified`, or becomes
    /// `Not`; every other name is untouched.
    pub open spec fn finder_outcome(pre: Map<Seq<char>, BindV>, post: Map<Seq<char>, BindV>, symbol: Seq<char>) -> bool {
        &&& forall|k: Seq<char>|
            k != symbol ==> ((#[trigger] post.contains_key(k) <==> pre.contains_key(k)) && (
            post.contains_key(k) ==> post[k] == pre[k]))
        &&& forall|k: Seq<char>| #[trigger] pre.contains_key(k) ==> post.contains_key(k)
        &&& (post.contains_key(symbol) ==> (post[symbol] is Verified || post[symbol] is Not || (
        pre.contains_key(symbol) && post[symbol] == pre[symbol])))
        &&& (pre.contains_key(symbol) && pre[symbol] is Verified ==> post == pre)
    }
}

/// The candidate phase of one finder run over the entries `entries`: the
/// call-site filter first; when it leaves at most ten survivors, an oracle
/// pass ([`ask_run`]) over them; otherwise the call refinement, another
/// oracle pass when it leaves at most ten; and no change at all when both
/// stages leave more than ten.
pub open spec fn finder_search(
    entries: Seq<BindEntry>,
    pair: ExecPair,
    symbol: Seq<char>,
    candidates: Seq<u64>,
    post: Map<Seq<char>, BindV>,
) -> bool {
    let m = entries_map(entries);
    match first_fn_named(pair.input.fns@, symbol) {
        None => post == m,
        Some(f) => {
            let s1 = stage1_list(entries, pair, bound_xref_names(m, pair, f.xrefs@, 0), candidates, 0);
            if s1.len() <= 10 {
                ask_run(m, symbol, s1, 0, post)
            } else {
                let s2 = stage2_list(entries, pair, bound_call_names(m, pair, f.blocks@, 0), s1, 0);
                if s2.len() <= 10 {
                    ask_run(m, symbol, s2, 0, post)
                } else {
                    post == m
                }
            }
        },
    }
}

/// One finder run, end to end, indexed by the oracle's answers. A `Verified`
/// symbol is left alone. An `Unverified` symbol is confirmed first: a yes
/// binds it at its guessed address and stops, an ignore stops with nothing
/// changed, and a no rewrites its entry in place to `Not([guess])` before
/// the candidate search runs. Any other state goes straight to the search.
pub open spec fn finder_run(
    pre: Seq<BindEntry>,
    pair: ExecPair,
    symbol: Seq<char>,
    candidates: Seq<u64>,
    post: Map<Seq<char>, BindV>,
) -> bool {
    let m = entries_map(pre);
    if m.contains_key(symbol) && m[symbol] is Verified {
        post == m
    } else if m.contains_key(symbol) && m[symbol] is Unverified {
        ||| post == m.insert(symbol, BindV::Verified(m[symbol]->Unverified_0))
        ||| post == m
        ||| exists|e: BindEntry, j: int|
            0 <= j < pre.len() && pre[j].name@ == symbol && e.name@ == symbol && e.bind@
                == BindV::Not(seq![m[symbol]->Unverified_0]) && #[trigger] finder_search(
                pre.update(j, e),
                pair,
                symbol,
                candidates,
                post,
            )
    } else {
        finder_search(pre, pair, symbol, candidates, post)
    }
}

/// Packaging step for the finder contract: the guess pre-step left the
/// entries unchanged or rewrote the symbol's entry in place to
/// `Not([guess])`, and the candidate search ran over the result.
proof fn lemma_finder_package(
    pre: Seq<BindEntry>,
    mid: Seq<BindEntry>,
    pair: ExecPair,
    symbol: Seq<char>,
    candidates: Seq<u64>,
    post: Map<Seq<char>, BindV>,
)
    requires
        finder_search(mid, pair, symbol, candidates, post),
        !(entries_map(pre).contains_key(symbol) && entries_map(pre)[symbol] is Verified),
        (entries_map(pre).contains_key(symbol) && entries_map(pre)[symbol] is Unverified)
            ==> exists|e: BindEntry, j: int|
            0 <= j < pre.len() && pre[j].name@ == symbol && e.name@ == symbol && e.bind@
                == BindV::Not(seq![entries_map(pre)[symbol]->Unverified_0]) && mid
                == #[trigger] pre.update(j, e),
        !(entries_map(pre).contains_key(symbol) && entries_map(pre)[symbol] is Unverified)
            ==> mid == pre,
    ensures
        finder_run(pre, pair, symbol, candidates, post),
{
    let m = entries_map(pre);
    if m.contains_key(symbol) && m[symbol] is Unverified {
        let (e, j) = choose|e: BindEntry, j: int|
            0 <= j < pre.len() && pre[j].name@ == symbol && e.name@ == symbol && e.bind@
                == BindV::Not(seq![m[symbol]->Unverified_0]) && mid == #[trigger] pre.update(j, e);
        assert(finder_search(pre.update(j, e), pair, symbol, candidates, post));
    }
}

/// The entry addresses of the functions, in order: the candidate pool a
/// whole-binary search draws from.
pub open spec fn fn_addrs(fns: Seq<Function>) -> Seq<u64> {
    fns.map(|i: int, f: Function| f.address.function_addr)
}

/// A finder run for each symbol in turn, threaded through intermediate
/// entry sequences: the answer-indexed shape of a class-range search.
pub open spec fn finder_runs(
    pre: Seq<BindEntry>,
    pair: ExecPair,
    symbols: Seq<Seq<char>>,
    candidates: Seq<u64>,
    post: Map<Seq<char>, BindV>,
) -> bool
    decreases symbols.len(),
{
    &&& (symbols.len() == 0 ==> post == entries_map(pre))
    &&& (symbols.len() > 0 ==> exists|emid: Seq<BindEntry>|
        finder_runs(pre, pair, symbols.drop_last(), candidates, #[trigger] entries_map(emid))
            && entries_wf(emid) && finder_run(emid, pair, symbols.last(), candidates, post))
}

/// Extending a chain of finder runs by one more symbol.
proof fn lemma_finder_runs_snoc(
    pre: Seq<BindEntry>,
    pair: ExecPair,
    syms: Seq<Seq<char>>,
    candidates: Seq<u64>,
    emid: Seq<BindEntry>,
    sym: Seq<char>,
    post: Map<Seq<char>, BindV>,
)
    requires
        finder_runs(pre, pair, syms, candidates, entries_map(emid)),
        entries_wf(emid),
        finder_run(emid, pair, sym, candidates, post),
    ensures
        finder_runs(pre, pair, syms.push(sym), candidates, post),
{
    let t = syms.push(sym);
    assert(t.drop_last() =~= syms);
    assert(t.last() == sym);
    assert(exists|e2: Seq<BindEntry>|
        finder_runs(pre, pair, t.drop_last(), candidates, #[trigger] entries_map(e2))
            && entries_wf(e2) && finder_run(e2, pair, t.last(), candidates, post)) by {
        assert(finder_runs(pre, pair, t.drop_last(), candidates, entries_map(emid))
            && entries_wf(emid) && finder_run(emid, pair, t.last(), candidates, post));
    }
    assert(t.len() > 0);
    assert(finder_runs(pre, pair, t, candidates, post));
}

/// Search for one symbol's output address among the given candidate
/// functions: confirm an `Unverified` guess first, then filter the
/// candidates by their bound call-site names, refine by callee names when
/// still too many, and poll the oracle over at most ten survivors.
pub fn find_symbols<O: Oracle>(
    pair: &ExecPair,
    binds: &mut BindDB,
    symbol: &String,
    candidates: &Vec<u64>,
    oracle: &mut O,
)
    requires
        old(binds).wf(),
        first_fn_named(pair.input.fns@, symbol@) is Some,
    ensures
        final(binds).wf(),
        BindDB::finder_outcome(old(binds)@, final(binds)@, symbol@),
        (final(binds)@.contains_key(symbol@) && final(binds)@[symbol@] is Verified && !(old(
            binds,
        )@.contains_key(symbol@) && old(binds)@[symbol@] == final(binds)@[symbol@])) ==> ((old(
            binds,
        )@.contains_key(symbol@) && old(binds)@[symbol@] is Unverified && old(binds)@[symbol@].get_addr()
            == final(binds)@[symbol@].get_addr()) || exists|i: int|
            0 <= i < candidates@.len() && final(binds)@[symbol@] == BindV::Verified(
                #[trigger] candidates@[i],
            )),
        finder_run(old(binds).binds@, *pair, symbol@, candidates@, final(binds)@),
{
    let threshold: usize = 10;
    let ghost entries0 = binds.binds@;
    let input_fn = match find_fn_named(&pair.input.fns, symbol) {
        Some(f) => f,
        None => {
            proof {
                assert(false);
            }
            return ;
        },
    };
    let cur: Option<Bind> = match binds.get(symbol) {
        None => None,
        Some(b) => Some(b.duplicate()),
    };
    match cur {
        Some(Bind::Verified(_)) => {
            return ;
        },
        Some(Bind::Unverified(x)) => {
            let ans = oracle.ask(symbol, x);
            match ans {
                Some(true) => {
                    binds.set(symbol, Bind::Verified(x));
                    proof {
                        assert(binds@ == entries_map(entries0).insert(
                            symbol@,
                            BindV::Verified(entries_map(entries0)[symbol@]->Unverified_0),
                        ));
                    }
                    return ;
                },
                Some(false) => {
                    let rejected = vec![x];
                    proof {
                        assert(rejected@ =~= seq![x]);
                        assert(rejected@.no_duplicates());
                    }
                    binds.set(symbol, Bind::Not(rejected));
                    proof {
                        assert(exists|e: BindEntry, j: int|
                            0 <= j < entries0.len() && entries0[j].name@ == symbol@ && e.name@
                                == symbol@ && e.bind@ == BindV::Not(
                                seq![entries_map(entries0)[symbol@]->Unverified_0],
                            ) && binds.binds@ == #[trigger] entries0.update(j, e)) by {
                            let j0 = choose|j0: int|
                                0 <= j0 < entries0.len() && (#[trigger] entries0[j0]).name@
                                    == symbol@ && binds.binds@ == entries0.update(
                                    j0,
                                    (BindEntry { name: *symbol, bind: Bind::Not(rejected) }),
                                );
                            let e0 = BindEntry { name: *symbol, bind: Bind::Not(rejected) };
                            assert(e0.bind@ == BindV::Not(seq![x]));
                            assert(binds.binds@ == entries0.update(j0, e0));
                        }
                    }
                },
                None => {
                    return ;
                },
            }
        },
        _ => {},
    }
    let ghost mid = binds@;
    let ghost entries_mid = binds.binds@;
    proof {
        assert(!(entries_map(entries0).contains_key(symbol@) && entries_map(entries0)[symbol@] is Verified));
        assert(!(entries_map(entries0).contains_key(symbol@) && entries_map(
            entries0,
        )[symbol@] is Unverified) ==> entries_mid == entries0);
        assert((entries_map(entries0).contains_key(symbol@) && entries_map(
            entries0,
        )[symbol@] is Unverified) ==> exists|e: BindEntry, j: int|
            0 <= j < entries0.len() && entries0[j].name@ == symbol@ && e.name@ == symbol@ && e.bind@
                == BindV::Not(seq![entries_map(entries0)[symbol@]->Unverified_0]) && entries_mid
                == #[trigger] entries0.update(j, e));
    }
    let verified_xrefs = collect_bound_xref_names(binds, pair, &input_fn.xrefs);
    let cands1 = filter_stage1(binds, pair, &verified_xrefs, candidates);
    if cands1.len() <= threshold {
        ask_candidates(binds, symbol, &cands1, 0, oracle);
        proof {
            lemma_ask_run_frame(mid, symbol@, cands1@, 0, binds@);
            assert(finder_search(entries_mid, *pair, symbol@, candidates@, binds@)) by {
                assert(first_fn_named(pair.input.fns@, symbol@) == Some(*input_fn));
                assert(cands1@ == stage1_list(
                    entries_mid,
                    *pair,
                    bound_xref_names(mid, *pair, input_fn.xrefs@, 0),
                    candidates@,
                    0,
                ));
                assert(ask_run(mid, symbol@, cands1@, 0, binds@));
            }
            lemma_finder_package(entries0, entries_mid, *pair, symbol@, candidates@, binds@);
            lemma_finder_chain(old(binds)@, mid, binds@, symbol@);
            if binds@.contains_key(symbol@) && binds@[symbol@] is Verified && !(old(binds)@.contains_key(
                symbol@,
            ) && old(binds)@[symbol@] == binds@[symbol@]) {
                assert(!(mid.contains_key(symbol@) && mid[symbol@] == binds@[symbol@]));
                let i = choose|i: int|
                    0 <= i < cands1@.len() && binds@[symbol@] == BindV::Verified(#[trigger] cands1@[i]);
                assert(cands1@.contains(cands1@[i]));
                lemma_stage1_in_cands(
                    entries_mid,
                    *pair,
                    verified_xrefs.deep_view(),
                    candidates@,
                    0,
                    cands1@[i],
                );
                let j = choose|j: int| 0 <= j < candidates@.len() && candidates@[j] == cands1@[i];
                assert(binds@[symbol@] == BindV::Verified(candidates@[j]));
            }
        }
        return ;
    }
    let verified_calls = collect_bound_call_names(binds, pair, &input_fn.blocks);
    let cands2 = filter_stage2(binds, pair, &verified_calls, &cands1);
    if cands2.len() <= threshold {
        ask_candidates(binds, symbol, &cands2, 0, oracle);
        proof {
            lemma_ask_run_frame(mid, symbol@, cands2@, 0, binds@);
            assert(finder_search(entries_mid, *pair, symbol@, candidates@, binds@)) by {
                assert(first_fn_named(pair.input.fns@, symbol@) == Some(*input_fn));
                assert(cands1@ == stage1_list(
                    entries_mid,
                    *pair,
                    bound_xref_names(mid, *pair, input_fn.xrefs@, 0),
                    candidates@,
                    0,
                ));
                assert(cands1@.len() > 10);
                assert(cands2@ == stage2_list(
                    entries_mid,
                    *pair,
                    bound_call_names(mid, *pair, input_fn.blocks@, 0),
                    cands1@,
                    0,
                ));
                assert(ask_run(mid, symbol@, cands2@, 0, binds@));
            }
            lemma_finder_package(entries0, entries_mid, *pair, symbol@, candidates@, binds@);
            lemma_finder_chain(old(binds)@, mid, binds@, symbol@);
            if binds@.contains_key(symbol@) && binds@[symbol@] is Verified && !(old(binds)@.contains_key(
                symbol@,
            ) && old(binds)@[symbol@] == binds@[symbol@]) {
                assert(!(mid.contains_key(symbol@) && mid[symbol@] == binds@[symbol@]));
                let i = choose|i: int|
                    0 <= i < cands2@.len() && binds@[symbol@] == BindV::Verified(#[trigger] cands2@[i]);
                assert(cands2@.contains(cands2@[i]));
                lemma_stage2_in_cands(
                    entries_mid,
                    *pair,
                    verified_calls.deep_view(),
                    cands1@,
                    0,
                    cands2@[i],
                );
                assert(cands1@.contains(cands2@[i]));
                let i1 = choose|i1: int| 0 <= i1 < cands1@.len() && cands1@[i1] == cands2@[i];
                lemma_stage1_in_cands(
                    entries_mid,
                    *pair,
                    verified_xrefs.deep_view(),
                    candidates@,
                    0,
                    cands1@[i1],
                );
                let j = choose|j: int| 0 <= j < candidates@.len() && candidates@[j] == cands1@[i1];
                assert(binds@[symbol@] == BindV::Verified(candidates@[j]));
            }
        }
        return ;
    }
    proof {
        assert(finder_search(entries_mid, *pair, symbol@, candidates@, binds@)) by {
            assert(first_fn_named(pair.input.fns@, symbol@) == Some(*input_fn));
            assert(cands1@ == stage1_list(
                entries_mid,
                *pair,
                bound_xref_names(mid, *pair, input_fn.xrefs@, 0),
                candidates@,
                0,
            ));
            assert(cands1@.len() > 10);
            assert(cands2@ == stage2_list(
                entries_mid,
                *pair,
                bound_call_names(mid, *pair, input_fn.blocks@, 0),
                cands1@,
                0,
            ));
            assert(cands2@.len() > 10);
            assert(binds@ == mid);
        }
        lemma_finder_package(entries0, entries_mid, *pair, symbol@, candidates@, binds@);
    }
}

/// Chaining step for the finder contract: an intermediate state that only
/// rewrote the symbol to `Not`, followed by an oracle pass that respects the
/// outcome shape, still respects it relative to the starting state.
proof fn lemma_finder_chain(
    pre: Map<Seq<char>, BindV>,
    mid: Map<Seq<char>, BindV>,
    post: Map<Seq<char>, BindV>,
    symbol: Seq<char>,
)
    requires
        mid == pre || exists|x: u64| mid == pre.insert(symbol, BindV::Not(seq![x])),
        !(pre.contains_key(symbol) && pre[symbol] is Verified) || mid == pre,
        forall|k: Seq<char>|
            k != symbol ==> ((#[trigger] post.contains_key(k) <==> mid.contains_key(k)) && (
            post.contains_key(k) ==> post[k] == mid[k])),
        forall|k: Seq<char>| #[trigger] mid.contains_key(k) ==> post.contains_key(k),
        post.contains_key(symbol) ==> (post[symbol] is Verified || post[symbol] is Not || (
        mid.contains_key(symbol) && post[symbol] == mid[symbol])),
        !(pre.contains_key(symbol) && pre[symbol] is Verified),
    ensures
        BindDB::finder_outcome(pre, post, symbol),
{
    assert forall|k: Seq<char>|
        k != symbol implies ((#[trigger] post.contains_key(k) <==> pre.contains_key(k)) && (
    post.contains_key(k) ==> post[k] == pre[k])) by {
        assert(mid.contains_key(k) <==> pre.contains_key(k));
        if mid.contains_key(k) {
            assert(mid[k] == pre[k]);
        }
    }
    assert forall|k: Seq<char>| #[trigger] pre.contains_key(k) implies post.contains_key(k) by {
        assert(mid.contains_key(k));
    }
}

/// Search for one symbol among all output functions: the candidate pool is
/// every output function's entry address.
pub fn find_symbol<O: Oracle>(pair: &ExecPair, binds: &mut BindDB, symbol: String, oracle: &mut O)
    requires
        old(binds).wf(),
        first_fn_named(pair.input.fns@, symbol@) is Some,
    ensures
        final(binds).wf(),
        BindDB::finder_outcome(old(binds)@, final(binds)@, symbol@),
        finder_run(old(binds).binds@, *pair, symbol@, fn_addrs(pair.output.fns@), final(binds)@),
{
    let mut cands: Vec<u64> = Vec::new();
    let mut i: usize = 0;
    while i < pair.output.fns.len()
        invariant
            i <= pair.output.fns@.len(),
            cands@.len() == i,
            forall|k: int|
                0 <= k < i ==> #[trigger] cands@[k] == pair.output.fns@[k].address.function_addr,
        decreases pair.output.fns@.len() - i,
    {
        cands.push(pair.output.fns[i].address.function_addr);
        i = i + 1;
    }
    proof {
        assert(cands@ =~= fn_addrs(pair.output.fns@));
    }
    find_symbols(pair, binds, &symbol, &cands, oracle);
}

/// The Itanium-style prefix the class search matches: `_ZN`, the class
/// name's byte length in decimal, then the class name itself.
pub open spec fn class_prefix(cls: Seq<char>) -> Seq<char> {
    "_ZN"@ + dec_digits(encode_utf8(cls).len() as int) + cls
}

/// The names of the input functions whose name begins with `prefix`, from
/// function `i` on.
pub open spec fn prefixed_names(fns: Seq<Function>, prefix: Seq<char>, i: int) -> Seq<Seq<char>>
    decreases fns.len() - i,
{
    if i < 0 || i >= fns.len() {
        Seq::empty()
    } else {
        let rest = prefixed_names(fns, prefix, i + 1);
        match fns[i].name {
            None => rest,
            Some(n) => if n@.len() >= prefix.len() && n@.subrange(0, prefix.len() as int) == prefix {
                seq![n@] + rest
            } else {
                rest
            },
        }
    }
}

/// The output functions inside the address range, from function `i` on.
pub open spec fn range_candidates(fns: Seq<Function>, lo: u64, hi: u64, i: int) -> Seq<u64>
    decreases fns.len() - i,
{
    if i < 0 || i >= fns.len() {
        Seq::empty()
    } else {
        let rest = range_candidates(fns, lo, hi, i + 1);
        if lo <= fns[i].address.function_addr && fns[i].address.function_addr <= hi {
            seq![fns[i].address.function_addr] + rest
        } else {
            rest
        }
    }
}

/// Does `n` begin with `prefix`, character for character?
fn has_prefix(n: &String, prefix: &String) -> (r: bool)
    ensures
        r == (n@.len() >= prefix@.len() && n@.subrange(0, prefix@.len() as int) == prefix@),
{
    let pl = prefix.as_str().unicode_len();
    let nl = n.as_str().unicode_len();
    if nl < pl {
        return false;
    }
    let mut i: usize = 0;
    while i < pl
        invariant
            i <= pl,
            pl == prefix@.len(),
            nl == n@.len(),
            pl <= nl,
            forall|j: int| 0 <= j < i ==> n@[j] == prefix@[j],
        decreases pl - i,
    {
        if n.as_str().get_char(i) != prefix.as_str().get_char(i) {
            proof {
                assert(n@.subrange(0, prefix@.len() as int)[i as int] == n@[i as int]);
            }
            return false;
        }
        i = i + 1;
    }
    proof {
        assert(n@.subrange(0, prefix@.len() as int) =~= prefix@);
    }
    true
}

/// A function's own name always finds a function bearing it.
proof fn lemma_first_fn_named_some(fns: Seq<Function>, i: int)
    requires
        0 <= i < fns.len(),
        fns[i].name is Some,
    ensures
        first_fn_named(fns, fns[i].name.unwrap()@) is Some,
    decreases fns.len(),
{
    let nm = fns[i].name.unwrap()@;
    let hit = match fns[0].name {
        Some(n) => n@ == nm,
        None => false,
    };
    if !hit {
        assert(i > 0);
        assert(fns.drop_first()[i - 1] == fns[i]);
        lemma_first_fn_named_some(fns.drop_first(), i - 1);
    }
}

/// Search every input symbol of one class for an output address inside the
/// given range: the candidates are the output functions whose address lies
/// in `[range_begin, range_end]`, and every input function whose name
/// begins with the class's mangled prefix is searched in turn.
#[verifier::loop_isolation(false)]
pub fn find_range<O: Oracle>(
    pair: &ExecPair,
    binds: &mut BindDB,
    cls: String,
    range_begin: u64,
    range_end: u64,
    oracle: &mut O,
)
    requires
        old(binds).wf(),
    ensures
        final(binds).wf(),
        forall|k: Seq<char>| #[trigger] old(binds)@.contains_key(k) ==> final(binds)@.contains_key(k),
        forall|k: Seq<char>|
            old(binds)@.contains_key(k) && (#[trigger] old(binds)@[k]) is Verified ==> final(binds)@.contains_key(k) && final(binds)@[k] == old(binds)@[k],
        forall|k: Seq<char>|
            !prefixed_names(pair.input.fns@, class_prefix(cls@), 0).contains(k) ==> ((
            #[trigger] final(binds)@.contains_key(k) <==> old(binds)@.contains_key(k)) && (final(binds)@.contains_key(k) ==> final(binds)@[k] == old(binds)@[k])),
        forall|k: Seq<char>|
            #[trigger] final(binds)@.contains_key(k) && final(binds)@[k] is Verified && !(old(binds)@.contains_key(k)
                && old(binds)@[k] == final(binds)@[k]) ==> ((old(binds)@.contains_key(k) && old(binds)@[k] is Unverified
                && old(binds)@[k].get_addr() == final(binds)@[k].get_addr()) || (final(binds)@[k].get_addr() is Some
                && range_begin <= final(binds)@[k].get_addr().unwrap()
                && final(binds)@[k].get_addr().unwrap() <= range_end)),
        finder_runs(
            old(binds).binds@,
            *pair,
            prefixed_names(pair.input.fns@, class_prefix(cls@), 0),
            range_candidates(pair.output.fns@, range_begin, range_end, 0),
            final(binds)@,
        ),
{
    let mut prefix = String::new();
    prefix.append("_ZN");
    let byte_len = cls.as_str().as_bytes().len();
    proof {
        assert(byte_len as int == encode_utf8(cls@).len());
    }
    push_decimal(byte_len, &mut prefix);
    prefix.append(cls.as_str());
    proof {
        assert(prefix@ =~= class_prefix(cls@));
    }
    let mut candidates: Vec<u64> = Vec::new();
    let nf = pair.output.fns.len();
    let mut i: usize = 0;
    proof {
        assert(candidates@ + range_candidates(pair.output.fns@, range_begin, range_end, 0)
            =~= range_candidates(pair.output.fns@, range_begin, range_end, 0));
    }
    while i < nf
        invariant
            i <= nf,
            nf == pair.output.fns@.len(),
            forall|j: int|
                0 <= j < candidates@.len() ==> range_begin <= #[trigger] candidates@[j]
                    && candidates@[j] <= range_end,
            range_candidates(pair.output.fns@, range_begin, range_end, 0) == candidates@
                + range_candidates(pair.output.fns@, range_begin, range_end, i as int),
        decreases nf - i,
    {
        let ghost before = candidates@;
        let a = pair.output.fns[i].address.function_addr;
        if range_begin <= a && a <= range_end {
            candidates.push(a);
            proof {
                assert(candidates@ =~= before + seq![a]);
                assert((before + seq![a]) + range_candidates(
                    pair.output.fns@,
                    range_begin,
                    range_end,
                    i as int + 1,
                ) =~= before + (seq![a] + range_candidates(
                    pair.output.fns@,
                    range_begin,
                    range_end,
                    i as int + 1,
                )));
            }
        }
        i = i + 1;
    }
    proof {
        assert(range_candidates(pair.output.fns@, range_begin, range_end, nf as int).len() == 0);
        assert(candidates@ + range_candidates(pair.output.fns@, range_begin, range_end, nf as int)
            =~= candidates@);
    }
    let mut symbols: Vec<String> = Vec::new();
    let ghost plist = prefixed_names(pair.input.fns@, class_prefix(cls@), 0);
    let ni = pair.input.fns.len();
    let mut i: usize = 0;
    proof {
        assert(symbols.deep_view() + plist =~= plist);
    }
    while i < ni
        invariant
            i <= ni,
            ni == pair.input.fns@.len(),
            plist == symbols.deep_view() + prefixed_names(pair.input.fns@, class_prefix(cls@), i as int),
            forall|s: int|
                0 <= s < symbols@.len() ==> first_fn_named(
                    pair.input.fns@,
                    #[trigger] symbols@[s]@,
                ) is Some,
        decreases ni - i,
    {
        let ghost before = symbols.deep_view();
        match &pair.input.fns[i].name {
            None => {},
            Some(n) => {
                if has_prefix(n, &prefix) {
                    symbols.push(n.clone());
                    proof {
                        assert(symbols.deep_view() =~= before + seq![n@]);
                        assert((before + seq![n@]) + prefixed_names(
                            pair.input.fns@,
                            class_prefix(cls@),
                            i as int + 1,
                        ) =~= before + (seq![n@] + prefixed_names(
                            pair.input.fns@,
                            class_prefix(cls@),
                            i as int + 1,
                        )));
                        lemma_first_fn_named_some(pair.input.fns@, i as int);
                        assert forall|s: int| 0 <= s < symbols@.len() implies first_fn_named(
                            pair.input.fns@,
                            #[trigger] symbols@[s]@,
                        ) is Some by {
                            if s < symbols@.len() - 1 {
                                assert(symbols@[s]@ == before[s]);
                            } else {
                                assert(symbols@[s]@ == n@);
                            }
                        }
                    }
                }
            },
        }
        i = i + 1;
    }
    proof {
        assert(prefixed_names(pair.input.fns@, class_prefix(cls@), ni as int).len() == 0);
        assert(symbols.deep_view() + prefixed_names(pair.input.fns@, class_prefix(cls@), ni as int)
            =~= symbols.deep_view());
        assert(plist == symbols.deep_view());
    }
    let ghost entries_start = binds.binds@;
    let ns = symbols.len();
    let mut s: usize = 0;
    proof {
        assert(symbols.deep_view().subrange(0, 0) =~= Seq::<Seq<char>>::empty());
        assert(finder_runs(entries_start, *pair, symbols.deep_view().subrange(0, 0), candidates@, binds@));
    }
    while s < ns
        invariant
            s <= ns,
            ns == symbols@.len(),
            binds.wf(),
            plist == symbols.deep_view(),
            finder_runs(
                entries_start,
                *pair,
                symbols.deep_view().subrange(0, s as int),
                candidates@,
                binds@,
            ),
            forall|q: int|
                0 <= q < symbols@.len() ==> first_fn_named(
                    pair.input.fns@,
                    #[trigger] symbols@[q]@,
                ) is Some,
            forall|k: Seq<char>| #[trigger] old(binds)@.contains_key(k) ==> binds@.contains_key(k),
            forall|k: Seq<char>|
                old(binds)@.contains_key(k) && (#[trigger] old(binds)@[k]) is Verified ==> binds@.contains_key(
                    k,
                ) && binds@[k] == old(binds)@[k],
            forall|k: Seq<char>|
                !plist.contains(k) ==> ((#[trigger] binds@.contains_key(k) <==> old(binds)@.contains_key(
                    k,
                )) && (binds@.contains_key(k) ==> binds@[k] == old(binds)@[k])),
            forall|j: int|
                0 <= j < candidates@.len() ==> range_begin <= #[trigger] candidates@[j]
                    && candidates@[j] <= range_end,
            forall|k: Seq<char>|
                #[trigger] binds@.contains_key(k) && binds@[k] is Unverified ==> old(binds)@.contains_key(k)
                    && old(binds)@[k] == binds@[k],
            forall|k: Seq<char>|
                #[trigger] binds@.contains_key(k) && binds@[k] is Verified && !(old(binds)@.contains_key(k)
                    && old(binds)@[k] == binds@[k]) ==> ((old(binds)@.contains_key(k)
                    && old(binds)@[k] is Unverified && old(binds)@[k].get_addr() == binds@[k].get_addr())
                    || (binds@[k].get_addr() is Some && range_begin <= binds@[k].get_addr().unwrap()
                    && binds@[k].get_addr().unwrap() <= range_end)),
        decreases ns - s,
    {
        let ghost pre = binds@;
        let ghost pre_entries = binds.binds@;
        find_symbols(pair, binds, &symbols[s], &candidates, oracle);
        proof {
            assert(plist.contains(symbols@[s as int]@)) by {
                assert(symbols.deep_view()[s as int] == symbols@[s as int]@);
            }
            assert(symbols.deep_view()[s as int] == symbols@[s as int]@);
            lemma_finder_runs_snoc(
                entries_start,
                *pair,
                symbols.deep_view().subrange(0, s as int),
                candidates@,
                pre_entries,
                symbols@[s as int]@,
                binds@,
            );
            assert(symbols.deep_view().subrange(0, s as int + 1) =~= symbols.deep_view().subrange(
                0,
                s as int,
            ).push(symbols@[s as int]@));
            let sym = symbols@[s as int]@;
            assert forall|k: Seq<char>|
                old(binds)@.contains_key(k) && (#[trigger] old(binds)@[k]) is Verified implies binds@.contains_key(
                    k,
                ) && binds@[k] == old(binds)@[k] by {
                if k == sym {
                    assert(pre.contains_key(k) && pre[k] is Verified);
                    assert(binds@ == pre);
                }
            }
            assert forall|k: Seq<char>|
                #[trigger] binds@.contains_key(k) && binds@[k] is Verified && !(old(binds)@.contains_key(k)
                    && old(binds)@[k] == binds@[k]) implies ((old(binds)@.contains_key(k)
                    && old(binds)@[k] is Unverified && old(binds)@[k].get_addr() == binds@[k].get_addr())
                    || (binds@[k].get_addr() is Some && range_begin <= binds@[k].get_addr().unwrap()
                    && binds@[k].get_addr().unwrap() <= range_end)) by {
                if k == sym && !(pre.contains_key(k) && pre[k] == binds@[k]) {
                    if pre.contains_key(k) && pre[k] is Unverified && pre[k].get_addr()
                        == binds@[k].get_addr() {
                        assert(old(binds)@.contains_key(k) && old(binds)@[k] == pre[k]);
                    } else {
                        let i0 = choose|i0: int|
                            0 <= i0 < candidates@.len() && binds@[k] == BindV::Verified(
                                #[trigger] candidates@[i0],
                            );
                        assert(binds@[k].get_addr() == Some::<u64>(candidates@[i0]));
                    }
                }
            }
        }
        s = s + 1;
    }
    proof {
        assert(symbols.deep_view().subrange(0, ns as int) =~= symbols.deep_view());
    }
}

} // verus!
