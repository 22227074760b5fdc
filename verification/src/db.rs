//! The data model: immutable snapshots of the two binaries (`ExecDB`) and the
//! evolving name-to-address bind database (`BindDB`).

use vstd::prelude::*;

verus! {

/// The target of a call or a branch: a resolved address or unknown.
#[derive(Clone, Copy, Debug, PartialEq, Eq, Structural)]
pub enum Dest {
    Known(u64),
    Unknown,
}

/// The terminator of a basic block, with jump-condition polarity normalized
/// so that corresponding branches of the two binaries line up slot by slot.
#[derive(Clone, Copy, Debug, PartialEq, Eq, Structural)]
pub enum Branch {
    Return,
    Neutral(Dest),
    Equality(Dest, Dest),
    Inequality(Dest, Dest),
}

/// A code location: its byte address, the address of the basic block that
/// holds it, and the address of the function that holds that block.
#[derive(Clone, Copy, Debug, PartialEq, Eq, Structural)]
pub struct Address {
    pub addr: u64,
    pub block_addr: u64,
    pub function_addr: u64,
}

/// A literal string together with every location that references it.
#[derive(Debug)]
pub struct StringRef {
    pub string: String,
    pub xrefs: Vec<Address>,
}

/// A basic block: its address triple, its outgoing calls in order, its
/// terminator, and the string literals referenced from inside it.
#[derive(Debug)]
pub struct Block {
    pub address: Address,
    pub calls: Vec<Dest>,
    pub branch: Branch,
    pub strings: Vec<String>,
}

/// A function: an optional symbol name, its entry address triple, its basic
/// blocks, and the call sites that reference it.
#[derive(Debug)]
pub struct Function {
    pub name: Option<String>,
    pub address: Address,
    pub blocks: Vec<Block>,
    pub xrefs: Vec<Address>,
}

/// A vtable: the class name, the vtable's own address, and the method
/// addresses in slot order.
#[derive(Debug)]
pub struct Vtable {
    pub name: String,
    pub address: u64,
    pub function_addrs: Vec<u64>,
}

/// The static-analysis snapshot of one binary.
pub struct ExecDB {
    pub fns: Vec<Function>,
    pub vtables: Vec<Vtable>,
    pub strings: Vec<StringRef>,
}

/// The two snapshots under comparison: the named input binary and the
/// stripped output binary.
pub struct ExecPair {
    pub input: ExecDB,
    pub output: ExecDB,
}

/// The first function in `s` whose entry address is `addr`.
pub open spec fn first_fn(s: Seq<Function>, addr: u64) -> Option<Function>
    decreases s.len(),
{
    if s.len() == 0 {
        None
    } else if s[0].address.function_addr == addr {
        Some(s[0])
    } else {
        first_fn(s.drop_first(), addr)
    }
}

/// The first block in `s` whose block address is `addr`.
pub open spec fn first_block(s: Seq<Block>, addr: u64) -> Option<Block>
    decreases s.len(),
{
    if s.len() == 0 {
        None
    } else if s[0].address.block_addr == addr {
        Some(s[0])
    } else {
        first_block(s.drop_first(), addr)
    }
}

/// A found function is an element of the sequence with the address asked for.
pub proof fn lemma_first_fn_found(s: Seq<Function>, addr: u64)
    requires
        first_fn(s, addr) is Some,
    ensures
        exists|i: int|
            0 <= i < s.len() && #[trigger] s[i] == first_fn(s, addr).unwrap()
                && s[i].address.function_addr == addr,
    decreases s.len(),
{
    if s.len() > 0 && s[0].address.function_addr != addr {
        lemma_first_fn_found(s.drop_first(), addr);
        let i = choose|i: int|
            0 <= i < s.drop_first().len() && #[trigger] s.drop_first()[i] == first_fn(s.drop_first(), addr).unwrap()
                && s.drop_first()[i].address.function_addr == addr;
        assert(s[i + 1] == s.drop_first()[i]);
    }
}

/// A found block is an element of the sequence with the address asked for.
pub proof fn lemma_first_block_found(s: Seq<Block>, addr: u64)
    requires
        first_block(s, addr) is Some,
    ensures
        exists|i: int|
            0 <= i < s.len() && #[trigger] s[i] == first_block(s, addr).unwrap()
                && s[i].address.block_addr == addr,
    decreases s.len(),
{
    if s.len() > 0 && s[0].address.block_addr != addr {
        lemma_first_block_found(s.drop_first(), addr);
        let i = choose|i: int|
            0 <= i < s.drop_first().len() && #[trigger] s.drop_first()[i] == first_block(s.drop_first(), addr).unwrap()
                && s.drop_first()[i].address.block_addr == addr;
        assert(s[i + 1] == s.drop_first()[i]);
    }
}

impl ExecDB {
    /// The snapshot invariant: the adapter keys functions by entry address,
    /// vtables by class name and string records by literal, so no two
    /// entries share one. The lookups below resolve by first match, which
    /// under this invariant is the only match; a snapshot that breaks it is
    /// still looked up deterministically, first entry first.
    pub open spec fn wf(self) -> bool {
        &&& forall|i: int, j: int|
            0 <= i < j < self.fns@.len() ==> (#[trigger] self.fns@[i]).address.function_addr != (
            #[trigger] self.fns@[j]).address.function_addr
        &&& forall|i: int, j: int|
            0 <= i < j < self.vtables@.len() ==> (#[trigger] self.vtables@[i]).name@ != (
            #[trigger] self.vtables@[j]).name@
        &&& forall|i: int, j: int|
            0 <= i < j < self.strings@.len() ==> (#[trigger] self.strings@[i]).string@ != (
            #[trigger] self.strings@[j]).string@
    }

    /// The block `addr` points into: the first function bearing
    /// `addr.function_addr`, searched for the first block bearing
    /// `addr.block_addr`.
    pub open spec fn addr_to_block_spec(self, addr: Address) -> Option<Block> {
        match first_fn(self.fns@, addr.function_addr) {
            None => None,
            Some(f) => first_block(f.blocks@, addr.block_addr),
        }
    }

    /// Look a function up by its entry address.
    pub fn fn_at(&self, addr: u64) -> (r: Option<&Function>)
        ensures
            match r {
                Some(f) => first_fn(self.fns@, addr) == Some(*f),
                None => first_fn(self.fns@, addr) is None,
            },
    {
        let n = self.fns.len();
        proof {
            assert(self.fns@.subrange(0, n as int) =~= self.fns@);
        }
        let mut i: usize = 0;
        while i < n
            invariant
                i <= n,
                n == self.fns@.len(),
                first_fn(self.fns@, addr) == first_fn(self.fns@.subrange(i as int, n as int), addr),
            decreases n - i,
        {
            let ghost suffix = self.fns@.subrange(i as int, n as int);
            proof {
                assert(suffix[0] == self.fns@[i as int]);
                assert(suffix.drop_first() =~= self.fns@.subrange(i as int + 1, n as int));
            }
            if self.fns[i].address.function_addr == addr {
                return Some(&self.fns[i]);
            }
            i = i + 1;
        }
        proof {
            assert(self.fns@.subrange(n as int, n as int).len() == 0);
        }
        None
    }

    /// Resolve an address triple to the block it lies in, if the snapshot
    /// knows one.
    pub fn addr_to_block(&self, addr: &Address) -> (r: Option<&Block>)
        ensures
            match r {
                Some(b) => self.addr_to_block_spec(*addr) == Some(*b),
                None => self.addr_to_block_spec(*addr) is None,
            },
    {
        let f = match self.fn_at(addr.function_addr) {
            Some(f) => f,
            None => {
                return None;
            },
        };
        let n = f.blocks.len();
        proof {
            assert(f.blocks@.subrange(0, n as int) =~= f.blocks@);
        }
        let mut i: usize = 0;
        while i < n
            invariant
                i <= n,
                n == f.blocks@.len(),
                first_block(f.blocks@, addr.block_addr) == first_block(
                    f.blocks@.subrange(i as int, n as int),
                    addr.block_addr,
                ),
                first_fn(self.fns@, addr.function_addr) == Some(*f),
            decreases n - i,
        {
            let ghost suffix = f.blocks@.subrange(i as int, n as int);
            proof {
                assert(suffix[0] == f.blocks@[i as int]);
                assert(suffix.drop_first() =~= f.blocks@.subrange(i as int + 1, n as int));
            }
            if f.blocks[i].address.block_addr == addr.block_addr {
                return Some(&f.blocks[i]);
            }
            i = i + 1;
        }
        proof {
            assert(f.blocks@.subrange(n as int, n as int).len() == 0);
        }
        None
    }
}

/// Under the snapshot invariant the first function bearing an address is
/// the only one: any function with that entry address is the one every
/// lookup resolves to.
pub proof fn lemma_fn_at_unique(db: ExecDB, i: int)
    requires
        db.wf(),
        0 <= i < db.fns@.len(),
    ensures
        first_fn(db.fns@, db.fns@[i].address.function_addr) == Some(db.fns@[i]),
{
    lemma_first_fn_prefix(db.fns@, i);
}

/// A sequence of functions with pairwise distinct entry addresses resolves
/// index `i`'s address to exactly index `i`.
proof fn lemma_first_fn_prefix(s: Seq<Function>, i: int)
    requires
        forall|p: int, q: int|
            0 <= p < q < s.len() ==> (#[trigger] s[p]).address.function_addr != (
            #[trigger] s[q]).address.function_addr,
        0 <= i < s.len(),
    ensures
        first_fn(s, s[i].address.function_addr) == Some(s[i]),
    decreases s.len(),
{
    if i == 0 {
    } else {
        assert(s[0].address.function_addr != s[i].address.function_addr);
        assert(s.drop_first()[i - 1] == s[i]);
        lemma_first_fn_prefix(s.drop_first(), i - 1);
    }
}

/// The confidence state of one name in the bind database.
#[derive(Debug, PartialEq)]
pub enum Bind {
    /// Confirmed by a human or derived from vtable alignment; terminal.
    Verified(u64),
    /// Proposed by a strategy; a single address observed so far.
    Unverified(u64),
    /// Addresses a human has rejected for this name.
    Not(Vec<u64>),
    /// The symbol was inlined away in the output; terminal.
    Inline,
}

/// The mathematical value of a `Bind`, with the rejected list as a sequence.
pub enum BindV {
    Verified(u64),
    Unverified(u64),
    Not(Seq<u64>),
    Inline,
}

impl BindV {
    /// The address a bind stands for, if it stands for one.
    pub open spec fn get_addr(self) -> Option<u64> {
        match self {
            BindV::Verified(a) => Some(a),
            BindV::Unverified(a) => Some(a),
            _ => None,
        }
    }

    /// A rejected list never holds the same address twice.
    pub open spec fn wf(self) -> bool {
        match self {
            BindV::Not(rejected) => rejected.no_duplicates(),
            _ => true,
        }
    }
}

impl View for Bind {
    type V = BindV;

    open spec fn view(&self) -> BindV {
        match self {
            Bind::Verified(a) => BindV::Verified(*a),
            Bind::Unverified(a) => BindV::Unverified(*a),
            Bind::Not(rejected) => BindV::Not(rejected@),
            Bind::Inline => BindV::Inline,
        }
    }
}

impl Bind {
    /// The address this bind stands for: `Some` for `Verified` and
    /// `Unverified`, `None` for `Not` and `Inline`.
    pub fn get_addr(&self) -> (r: Option<u64>)
        ensures
            r == self@.get_addr(),
    {
        match self {
            Bind::Verified(x) => Some(*x),
            Bind::Unverified(x) => Some(*x),
            _ => None,
        }
    }

    /// A structural copy carrying the same mathematical value.
    pub fn duplicate(&self) -> (r: Bind)
        ensures
            r@ == self@,
    {
        match self {
            Bind::Verified(x) => Bind::Verified(*x),
            Bind::Unverified(x) => Bind::Unverified(*x),
            Bind::Not(rejected) => {
                let mut copy: Vec<u64> = Vec::new();
                let mut i: usize = 0;
                while i < rejected.len()
                    invariant
                        i <= rejected.len(),
                        copy@ == rejected@.subrange(0, i as int),
                    decreases rejected.len() - i,
                {
                    copy.push(rejected[i]);
                    i = i + 1;
                }
                proof {
                    assert(copy@ =~= rejected@);
                }
                Bind::Not(copy)
            },
            Bind::Inline => Bind::Inline,
        }
    }
}

/// One row of the bind database: a symbol name and its state.
#[derive(Debug)]
pub struct BindEntry {
    pub name: String,
    pub bind: Bind,
}

/// The bind database: one entry per symbol name.
#[derive(Debug)]
pub struct BindDB {
    pub binds: Vec<BindEntry>,
}

/// No `Unverified` entry shares its address with any other claimant.
pub open spec fn unverified_isolated(m: Map<Seq<char>, BindV>) -> bool {
    forall|k1: Seq<char>, k2: Seq<char>|
        m.contains_key(k1) && m.contains_key(k2) && k1 != k2 && (#[trigger] m[k1]).get_addr() is Some
            && m[k1].get_addr() == (#[trigger] m[k2]).get_addr() ==> !(m[k1] is Unverified) && !(
        m[k2] is Unverified)
}

/// At most one `Verified` claimant per address.
pub open spec fn unique_verified(m: Map<Seq<char>, BindV>) -> bool {
    forall|k1: Seq<char>, k2: Seq<char>|
        m.contains_key(k1) && m.contains_key(k2) && k1 != k2 && (#[trigger] m[k1]) is Verified
            && (#[trigger] m[k2]) is Verified ==> m[k1].get_addr() != m[k2].get_addr()
}

/// No other entry claims the address `k` is bound to.
pub open spec fn sole_claimant(m: Map<Seq<char>, BindV>, k: Seq<char>) -> bool {
    forall|k2: Seq<char>|
        m.contains_key(k2) && k2 != k ==> (#[trigger] m[k2]).get_addr() != m[k].get_addr()
}

/// At most one claimant per address, of any confidence.
pub open spec fn unique_claims(m: Map<Seq<char>, BindV>) -> bool {
    forall|k1: Seq<char>, k2: Seq<char>|
        m.contains_key(k1) && m.contains_key(k2) && k1 != k2 && (#[trigger] m[k1]).get_addr() is Some
            ==> m[k1].get_addr() != (#[trigger] m[k2]).get_addr()
}

/// Claims are unique exactly when no two `Verified` entries collide and no
/// `Unverified` entry shares an address.
pub proof fn lemma_unique_claims_parts(m: Map<Seq<char>, BindV>)
    requires
        unverified_isolated(m),
        unique_verified(m),
    ensures
        unique_claims(m),
{
    assert forall|k1: Seq<char>, k2: Seq<char>|
        m.contains_key(k1) && m.contains_key(k2) && k1 != k2 && (#[trigger] m[k1]).get_addr() is Some
            implies m[k1].get_addr() != (#[trigger] m[k2]).get_addr() by {
        if m[k1].get_addr() == m[k2].get_addr() {
            assert(!(m[k1] is Unverified) && !(m[k2] is Unverified));
            assert(m[k1] is Verified && m[k2] is Verified);
        }
    }
}

/// How many entries are in the `Unverified` state; the measure that shrinks
/// as reconciliation makes progress.
pub open spec fn count_unverified(s: Seq<BindEntry>) -> nat
    decreases s.len(),
{
    if s.len() == 0 {
        0
    } else {
        count_unverified(s.drop_last()) + if s.last().bind@ is Unverified {
            1nat
        } else {
            0nat
        }
    }
}

/// The count never exceeds the number of entries.
pub proof fn lemma_count_le_len(s: Seq<BindEntry>)
    ensures
        count_unverified(s) <= s.len(),
    decreases s.len(),
{
    if s.len() > 0 {
        lemma_count_le_len(s.drop_last());
    }
}

/// Replacing one entry trades its contribution to the count for the new
/// entry's contribution.
pub proof fn lemma_count_unverified_update(s: Seq<BindEntry>, i: int, e: BindEntry)
    requires
        0 <= i < s.len(),
    ensures
        count_unverified(s.update(i, e)) + (if s[i].bind@ is Unverified { 1nat } else { 0nat })
            == count_unverified(s) + (if e.bind@ is Unverified { 1nat } else { 0nat }),
    decreases s.len(),
{
    let t = s.update(i, e);
    if i == s.len() - 1 {
        assert(t.drop_last() =~= s.drop_last());
        assert(t.last() == e);
    } else {
        assert(t.drop_last() =~= s.drop_last().update(i, e));
        assert(t.last() == s.last());
        lemma_count_unverified_update(s.drop_last(), i, e);
    }
}

/// Pushing an entry adds its contribution to the count.
pub proof fn lemma_count_unverified_push(s: Seq<BindEntry>, e: BindEntry)
    ensures
        count_unverified(s.push(e)) == count_unverified(s) + (if e.bind@ is Unverified {
            1nat
        } else {
            0nat
        }),
{
    assert(s.push(e).drop_last() =~= s);
    assert(s.push(e).last() == e);
}

/// Removing an entry subtracts its contribution from the count.
pub proof fn lemma_count_unverified_remove(s: Seq<BindEntry>, i: int)
    requires
        0 <= i < s.len(),
    ensures
        count_unverified(s.remove(i)) + (if s[i].bind@ is Unverified { 1nat } else { 0nat })
            == count_unverified(s),
    decreases s.len(),
{
    let t = s.remove(i);
    if i == s.len() - 1 {
        assert(t =~= s.drop_last());
    } else {
        assert(t.drop_last() =~= s.drop_last().remove(i));
        assert(t.last() == s.last());
        lemma_count_unverified_remove(s.drop_last(), i);
    }
}

/// How many entries are in the `Verified` state; the measure that counts
/// the confirmations a run has accumulated.
pub open spec fn count_verified(s: Seq<BindEntry>) -> nat
    decreases s.len(),
{
    if s.len() == 0 {
        0
    } else {
        count_verified(s.drop_last()) + if s.last().bind@ is Verified {
            1nat
        } else {
            0nat
        }
    }
}

/// The verified count never exceeds the number of entries.
pub proof fn lemma_count_verified_le_len(s: Seq<BindEntry>)
    ensures
        count_verified(s) <= s.len(),
    decreases s.len(),
{
    if s.len() > 0 {
        lemma_count_verified_le_len(s.drop_last());
    }
}

/// Replacing one entry trades its contribution to the verified count for
/// the new entry's contribution.
pub proof fn lemma_count_verified_update(s: Seq<BindEntry>, i: int, e: BindEntry)
    requires
        0 <= i < s.len(),
    ensures
        count_verified(s.update(i, e)) + (if s[i].bind@ is Verified { 1nat } else { 0nat })
            == count_verified(s) + (if e.bind@ is Verified { 1nat } else { 0nat }),
    decreases s.len(),
{
    let t = s.update(i, e);
    if i == s.len() - 1 {
        assert(t.drop_last() =~= s.drop_last());
        assert(t.last() == e);
    } else {
        assert(t.drop_last() =~= s.drop_last().update(i, e));
        assert(t.last() == s.last());
        lemma_count_verified_update(s.drop_last(), i, e);
    }
}

/// Pushing an entry adds its contribution to the verified count.
pub proof fn lemma_count_verified_push(s: Seq<BindEntry>, e: BindEntry)
    ensures
        count_verified(s.push(e)) == count_verified(s) + (if e.bind@ is Verified {
            1nat
        } else {
            0nat
        }),
{
    assert(s.push(e).drop_last() =~= s);
    assert(s.push(e).last() == e);
}

/// Removing an entry subtracts its contribution from the verified count.
pub proof fn lemma_count_verified_remove(s: Seq<BindEntry>, i: int)
    requires
        0 <= i < s.len(),
    ensures
        count_verified(s.remove(i)) + (if s[i].bind@ is Verified { 1nat } else { 0nat })
            == count_verified(s),
    decreases s.len(),
{
    let t = s.remove(i);
    if i == s.len() - 1 {
        assert(t =~= s.drop_last());
    } else {
        assert(t.drop_last() =~= s.drop_last().remove(i));
        assert(t.last() == s.last());
        lemma_count_verified_remove(s.drop_last(), i);
    }
}

/// Entry names are pairwise distinct and every bind is well formed.
pub open spec fn entries_wf(s: Seq<BindEntry>) -> bool {
    &&& forall|i: int, j: int| 0 <= i < j < s.len() ==> #[trigger] s[i].name@ != #[trigger] s[j].name@
    &&& forall|i: int| 0 <= i < s.len() ==> (#[trigger] s[i].bind@).wf()
}

/// The mapping a sequence of entries stands for; a later entry for the same
/// name would shadow an earlier one, though well-formed sequences have none.
pub open spec fn entries_map(s: Seq<BindEntry>) -> Map<Seq<char>, BindV>
    decreases s.len(),
{
    if s.len() == 0 {
        Map::empty()
    } else {
        entries_map(s.drop_last()).insert(s.last().name@, s.last().bind@)
    }
}

/// A name is in the mapping exactly when some entry bears it.
pub proof fn lemma_entries_map_domain(s: Seq<BindEntry>, k: Seq<char>)
    ensures
        entries_map(s).contains_key(k) <==> exists|i: int| 0 <= i < s.len() && #[trigger] s[i].name@ == k,
    decreases s.len(),
{
    if s.len() > 0 {
        lemma_entries_map_domain(s.drop_last(), k);
        if s.last().name@ == k {
            assert(s[s.len() - 1].name@ == k);
        } else {
            if entries_map(s).contains_key(k) {
                let j = choose|j: int| 0 <= j < s.drop_last().len() && s.drop_last()[j].name@ == k;
                assert(s.drop_last()[j] == s[j]);
                assert(s[j].name@ == k);
            }
            if exists|i: int| 0 <= i < s.len() && #[trigger] s[i].name@ == k {
                let i = choose|i: int| 0 <= i < s.len() && #[trigger] s[i].name@ == k;
                assert(i < s.len() - 1);
                assert(s.drop_last()[i] == s[i]);
                assert(entries_map(s.drop_last()).contains_key(k));
            }
        }
    }
}

/// With distinct names, the mapping sends each entry's name to its bind.
pub proof fn lemma_entries_map_index(s: Seq<BindEntry>, i: int)
    requires
        forall|p: int, q: int| 0 <= p < q < s.len() ==> #[trigger] s[p].name@ != #[trigger] s[q].name@,
        0 <= i < s.len(),
    ensures
        entries_map(s).contains_key(s[i].name@),
        entries_map(s)[s[i].name@] == s[i].bind@,
    decreases s.len(),
{
    if i == s.len() - 1 {
    } else {
        lemma_entries_map_index(s.drop_last(), i);
        assert(s.drop_last()[i] == s[i]);
        assert(s[i].name@ != s.last().name@);
    }
}

/// The mapping of a sequence is empty only when nothing claims any name:
/// convenience form of the domain lemma for quantified use.
pub proof fn lemma_entries_map_domain_all(s: Seq<BindEntry>)
    ensures
        forall|k: Seq<char>|
            #[trigger] entries_map(s).contains_key(k) <==> exists|i: int| 0 <= i < s.len() && #[trigger] s[i].name@ == k,
{
    assert forall|k: Seq<char>| true implies
        (#[trigger] entries_map(s).contains_key(k) <==> exists|i: int| 0 <= i < s.len() && #[trigger] s[i].name@ == k) by {
        lemma_entries_map_domain(s, k);
    }
}

impl View for BindDB {
    type V = Map<Seq<char>, BindV>;

    open spec fn view(&self) -> Map<Seq<char>, BindV> {
        entries_map(self.binds@)
    }
}

impl BindDB {
    /// Distinct names, well-formed binds.
    pub open spec fn wf(self) -> bool {
        entries_wf(self.binds@)
    }

    /// The index of the entry bearing `name`, if one does.
    pub fn find_idx(&self, name: &String) -> (r: Option<usize>)
        ensures
            match r {
                Some(i) => i < self.binds@.len() && self.binds@[i as int].name@ == name@,
                None => forall|i: int| 0 <= i < self.binds@.len() ==> #[trigger] self.binds@[i].name@ != name@,
            },
    {
        let mut i: usize = 0;
        while i < self.binds.len()
            invariant
                i <= self.binds@.len(),
                forall|j: int| 0 <= j < i ==> #[trigger] self.binds@[j].name@ != name@,
            decreases self.binds@.len() - i,
        {
            if self.binds[i].name == *name {
                return Some(i);
            }
            i = i + 1;
        }
        None
    }

    /// The bind recorded for `name`, if any.
    pub fn get(&self, name: &String) -> (r: Option<&Bind>)
        requires
            self.wf(),
        ensures
            match r {
                Some(b) => self@.contains_key(name@) && b@ == self@[name@] && b@.wf(),
                None => !self@.contains_key(name@),
            },
    {
        proof {
            lemma_entries_map_domain(self.binds@, name@);
        }
        match self.find_idx(name) {
            Some(i) => {
                proof {
                    lemma_entries_map_index(self.binds@, i as int);
                }
                Some(&self.binds[i].bind)
            },
            None => None,
        }
    }

    /// Record `bind` for `name`, replacing any earlier state.
    pub fn set(&mut self, name: &String, bind: Bind)
        requires
            old(self).wf(),
            bind@.wf(),
        ensures
            final(self).wf(),
            final(self)@ == old(self)@.insert(name@, bind@),
            final(self).binds@.len() <= old(self).binds@.len() + 1,
            old(self).binds@.len() <= final(self).binds@.len(),
            count_unverified(final(self).binds@) + (if old(self)@.contains_key(name@) && old(
                self,
            )@[name@] is Unverified {
                1nat
            } else {
                0nat
            }) == count_unverified(old(self).binds@) + (if bind@ is Unverified {
                1nat
            } else {
                0nat
            }),
            count_verified(final(self).binds@) + (if old(self)@.contains_key(name@) && old(
                self,
            )@[name@] is Verified {
                1nat
            } else {
                0nat
            }) == count_verified(old(self).binds@) + (if bind@ is Verified {
                1nat
            } else {
                0nat
            }),
            (exists|j: int|
                0 <= j < old(self).binds@.len() && (#[trigger] old(self).binds@[j]).name@ == name@
                    && final(self).binds@ == old(self).binds@.update(
                    j,
                    (BindEntry { name: *name, bind: bind }),
                )) || (!old(self)@.contains_key(name@) && final(self).binds@ == old(
                self,
            ).binds@.push((BindEntry { name: *name, bind: bind }))),
    {
        let ghost s_old = self.binds@;
        match self.find_idx(name) {
            Some(i) => {
                let entry = BindEntry { name: name.clone(), bind };
                let ghost entry_g = entry;
                self.binds.set(i, entry);
                proof {
                    lemma_entries_map_index(s_old, i as int);
                    lemma_count_unverified_update(s_old, i as int, entry_g);
                    lemma_count_verified_update(s_old, i as int, entry_g);
                    assert(entry_g == (BindEntry { name: *name, bind: bind }));
                    assert(self.binds@ == s_old.update(i as int, (BindEntry { name: *name, bind: bind })));
                    let s_new = self.binds@;
                    assert forall|p: int, q: int| 0 <= p < q < s_new.len() implies
                        #[trigger] s_new[p].name@ != #[trigger] s_new[q].name@ by {
                        assert(s_new[p].name@ == s_old[p].name@);
                        assert(s_new[q].name@ == s_old[q].name@);
                    }
                    lemma_entries_map_domain_all(s_old);
                    lemma_entries_map_domain_all(s_new);
                    assert(s_new[i as int].name@ == name@);
                    assert forall|k: Seq<char>| #[trigger] entries_map(s_new).contains_key(k) implies
                        entries_map(s_old).insert(name@, bind@).contains_key(k)
                            && entries_map(s_new)[k] == entries_map(s_old).insert(name@, bind@)[k] by {
                        let j = choose|j: int| 0 <= j < s_new.len() && s_new[j].name@ == k;
                        lemma_entries_map_index(s_new, j);
                        if k == name@ {
                            assert(j == i) by {
                                if j != i {
                                    assert(s_new[j].name@ == s_old[j].name@);
                                    assert(s_old[j].name@ != s_old[i as int].name@);
                                }
                            }
                        } else {
                            assert(j != i);
                            assert(s_new[j] == s_old[j]);
                            lemma_entries_map_index(s_old, j);
                        }
                    }
                    assert forall|k: Seq<char>|
                        #[trigger] entries_map(s_old).insert(name@, bind@).contains_key(k) implies
                        entries_map(s_new).contains_key(k) by {
                        if k == name@ {
                            assert(s_new[i as int].name@ == k);
                        } else {
                            let j = choose|j: int| 0 <= j < s_old.len() && s_old[j].name@ == k;
                            assert(j != i);
                            assert(s_new[j].name@ == k);
                        }
                    }
                    assert(entries_map(s_new) =~= entries_map(s_old).insert(name@, bind@));
                }
            },
            None => {
                let entry = BindEntry { name: name.clone(), bind };
                let ghost entry_g = entry;
                self.binds.push(entry);
                proof {
                    lemma_entries_map_domain(s_old, name@);
                    lemma_count_unverified_push(s_old, entry_g);
                    lemma_count_verified_push(s_old, entry_g);
                    assert(entry_g == (BindEntry { name: *name, bind: bind }));
                    assert(self.binds@ == s_old.push((BindEntry { name: *name, bind: bind })));
                    let s_new = self.binds@;
                    assert(s_new.drop_last() =~= s_old);
                    assert(entries_map(s_new) == entries_map(s_old).insert(name@, bind@));
                    assert forall|p: int, q: int| 0 <= p < q < s_new.len() implies
                        #[trigger] s_new[p].name@ != #[trigger] s_new[q].name@ by {
                        if q == s_new.len() - 1 {
                            assert(s_old[p].name@ != name@);
                        }
                    }
                }
            },
        }
    }

    /// Drop the entry bearing `name`, if one does.
    pub fn remove_name(&mut self, name: &String)
        requires
            old(self).wf(),
        ensures
            final(self).wf(),
            final(self)@ == old(self)@.remove(name@),
            final(self).binds@.len() <= old(self).binds@.len(),
            count_unverified(final(self).binds@) + (if old(self)@.contains_key(name@) && old(
                self,
            )@[name@] is Unverified {
                1nat
            } else {
                0nat
            }) == count_unverified(old(self).binds@),
            count_verified(final(self).binds@) + (if old(self)@.contains_key(name@) && old(
                self,
            )@[name@] is Verified {
                1nat
            } else {
                0nat
            }) == count_verified(old(self).binds@),
    {
        let ghost s_old = self.binds@;
        match self.find_idx(name) {
            Some(i) => {
                self.binds.remove(i);
                proof {
                    lemma_entries_map_index(s_old, i as int);
                    lemma_count_unverified_remove(s_old, i as int);
                    lemma_count_verified_remove(s_old, i as int);
                    let s_new = self.binds@;
                    assert forall|p: int, q: int| 0 <= p < q < s_new.len() implies
                        #[trigger] s_new[p].name@ != #[trigger] s_new[q].name@ by {
                        let p0 = if p < i as int { p } else { p + 1 };
                        let q0 = if q < i as int { q } else { q + 1 };
                        assert(s_new[p] == s_old[p0]);
                        assert(s_new[q] == s_old[q0]);
                    }
                    assert forall|p: int| 0 <= p < s_new.len() implies (#[trigger] s_new[p].bind@).wf() by {
                        let p0 = if p < i as int { p } else { p + 1 };
                        assert(s_new[p] == s_old[p0]);
                    }
                    lemma_entries_map_domain_all(s_old);
                    lemma_entries_map_domain_all(s_new);
                    assert forall|k: Seq<char>| #[trigger] entries_map(s_new).contains_key(k) implies
                        entries_map(s_old).remove(name@).contains_key(k)
                            && entries_map(s_new)[k] == entries_map(s_old).remove(name@)[k] by {
                        let j = choose|j: int| 0 <= j < s_new.len() && s_new[j].name@ == k;
                        let j0 = if j < i as int { j } else { j + 1 };
                        assert(s_new[j] == s_old[j0]);
                        lemma_entries_map_index(s_new, j);
                        lemma_entries_map_index(s_old, j0);
                        assert(k != name@) by {
                            if k == name@ {
                                assert(s_old[j0].name@ == s_old[i as int].name@);
                            }
                        }
                    }
                    assert forall|k: Seq<char>| #[trigger] entries_map(s_old).remove(name@).contains_key(k) implies
                        entries_map(s_new).contains_key(k) by {
                        let j0 = choose|j0: int| 0 <= j0 < s_old.len() && s_old[j0].name@ == k;
                        assert(j0 != i);
                        let j = if j0 < i as int { j0 } else { j0 - 1 };
                        assert(s_new[j] == s_old[j0]);
                    }
                    assert(entries_map(s_new) =~= entries_map(s_old).remove(name@));
                }
            },
            None => {
                proof {
                    lemma_entries_map_domain(s_old, name@);
                    assert(entries_map(s_old) =~= entries_map(s_old).remove(name@));
                }
            },
        }
    }

    /// Drop every `Unverified` entry; everything else is kept unchanged.
    pub fn strip(&mut self)
        requires
            old(self).wf(),
        ensures
            final(self).wf(),
            forall|k: Seq<char>|
                #[trigger] final(self)@.contains_key(k) <==> (old(self)@.contains_key(k) && !(old(
                    self,
                )@[k] is Unverified)),
            forall|k: Seq<char>| #[trigger] final(self)@.contains_key(k) ==> final(self)@[k] == old(self)@[k],
    {
        let ghost s_old = self.binds@;
        let mut kept: Vec<BindEntry> = Vec::new();
        let n = self.binds.len();
        let mut i: usize = 0;
        while i < n
            invariant
                i <= n,
                n == s_old.len(),
                self.binds@ == s_old,
                entries_wf(s_old),
                entries_wf(kept@),
                forall|p: int|
                    0 <= p < kept@.len() ==> exists|j: int|
                        0 <= j < i && #[trigger] kept@[p].name@ == s_old[j].name@
                            && kept@[p].bind@ == s_old[j].bind@ && !(s_old[j].bind@ is Unverified),
                forall|j: int|
                    0 <= j < i && !(#[trigger] s_old[j].bind@ is Unverified) ==> exists|p: int|
                        0 <= p < kept@.len() && #[trigger] kept@[p].name@ == s_old[j].name@,
            decreases n - i,
        {
            let keep = match &self.binds[i].bind {
                Bind::Unverified(_) => false,
                _ => true,
            };
            if keep {
                let ghost kept_before = kept@;
                let entry = BindEntry {
                    name: self.binds[i].name.clone(),
                    bind: self.binds[i].bind.duplicate(),
                };
                kept.push(entry);
                proof {
                    let last = kept@.len() - 1;
                    assert(forall|p: int| 0 <= p < last ==> #[trigger] kept@[p] == kept_before[p]);
                    assert(kept@[last].name@ == s_old[i as int].name@);
                    assert(kept@[last].bind@ == s_old[i as int].bind@);
                    assert(!(s_old[i as int].bind@ is Unverified));
                    assert forall|p: int, q: int| 0 <= p < q < kept@.len() implies
                        #[trigger] kept@[p].name@ != #[trigger] kept@[q].name@ by {
                        if q == last {
                            let j = choose|j: int|
                                0 <= j < i && #[trigger] kept_before[p].name@ == s_old[j].name@
                                    && kept_before[p].bind@ == s_old[j].bind@
                                    && !(s_old[j].bind@ is Unverified);
                            assert(s_old[j].name@ != s_old[i as int].name@);
                        }
                    }
                    assert forall|p: int| 0 <= p < kept@.len() implies exists|j: int|
                        0 <= j < i + 1 && #[trigger] kept@[p].name@ == s_old[j].name@
                            && kept@[p].bind@ == s_old[j].bind@ && !(s_old[j].bind@ is Unverified) by {
                        if p < last {
                            let j0 = choose|j0: int|
                                0 <= j0 < i && #[trigger] kept_before[p].name@ == s_old[j0].name@
                                    && kept_before[p].bind@ == s_old[j0].bind@
                                    && !(s_old[j0].bind@ is Unverified);
                            assert(0 <= j0 < i + 1 && kept@[p].name@ == s_old[j0].name@
                                && kept@[p].bind@ == s_old[j0].bind@ && !(s_old[j0].bind@ is Unverified));
                        } else {
                            let j0 = i as int;
                            assert(0 <= j0 < i + 1 && kept@[p].name@ == s_old[j0].name@
                                && kept@[p].bind@ == s_old[j0].bind@ && !(s_old[j0].bind@ is Unverified));
                        }
                    }
                    assert forall|j: int|
                        0 <= j < i + 1 && !(#[trigger] s_old[j].bind@ is Unverified) implies exists|p: int|
                        0 <= p < kept@.len() && #[trigger] kept@[p].name@ == s_old[j].name@ by {
                        if j < i {
                            let p0 = choose|p0: int|
                                0 <= p0 < kept_before.len() && #[trigger] kept_before[p0].name@ == s_old[j].name@;
                            assert(kept@[p0].name@ == s_old[j].name@);
                        } else {
                            assert(kept@[last].name@ == s_old[j].name@);
                        }
                    }
                }
            }
            i = i + 1;
        }
        self.binds = kept;
        proof {
            let s_new = self.binds@;
            lemma_entries_map_domain_all(s_old);
            lemma_entries_map_domain_all(s_new);
            assert forall|k: Seq<char>| #[trigger] entries_map(s_new).contains_key(k) implies
                entries_map(s_old).contains_key(k) && !(entries_map(s_old)[k] is Unverified)
                    && entries_map(s_new)[k] == entries_map(s_old)[k] by {
                let p = choose|p: int| 0 <= p < s_new.len() && s_new[p].name@ == k;
                lemma_entries_map_index(s_new, p);
                let j = choose|j: int|
                    0 <= j < s_old.len() && #[trigger] s_new[p].name@ == s_old[j].name@
                        && s_new[p].bind@ == s_old[j].bind@ && !(s_old[j].bind@ is Unverified);
                lemma_entries_map_index(s_old, j);
            }
            assert forall|k: Seq<char>|
                #[trigger] entries_map(s_old).contains_key(k) && !(entries_map(s_old)[k] is Unverified) implies
                entries_map(s_new).contains_key(k) by {
                let j = choose|j: int| 0 <= j < s_old.len() && s_old[j].name@ == k;
                lemma_entries_map_index(s_old, j);
                let p = choose|p: int|
                    0 <= p < s_new.len() && #[trigger] s_new[p].name@ == s_old[j].name@;
                assert(s_new[p].name@ == k);
            }
        }
    }
}

} // verus!
