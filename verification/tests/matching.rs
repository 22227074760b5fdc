use symbo::adapter::get_branch_type;
use symbo::analysis::{block_binds, block_compare, block_traverse, string_xref_strat, xref_binds};
use symbo::batch::Batch;
use symbo::db::{
    Address, Bind, BindDB, BindEntry, Block, Branch, Dest, ExecDB, ExecPair, Function, StringRef,
};

fn addr(a: u64, b: u64, f: u64) -> Address {
    Address { addr: a, block_addr: b, function_addr: f }
}

fn block(baddr: u64, faddr: u64, calls: Vec<Dest>, branch: Branch, strings: Vec<&str>) -> Block {
    Block {
        address: addr(baddr, baddr, faddr),
        calls,
        branch,
        strings: strings.into_iter().map(|s| s.to_string()).collect(),
    }
}

fn func(name: Option<&str>, faddr: u64, blocks: Vec<Block>, xrefs: Vec<Address>) -> Function {
    Function {
        name: name.map(|s| s.to_string()),
        address: addr(faddr, faddr, faddr),
        blocks,
        xrefs,
    }
}

fn entry(name: &str, bind: Bind) -> BindEntry {
    BindEntry { name: name.to_string(), bind }
}

fn empty_db() -> ExecDB {
    ExecDB { fns: vec![], vtables: vec![], strings: vec![] }
}

fn batch_get(b: &Batch, name: &str) -> Option<u64> {
    b.entries.iter().find(|e| e.0 == name).map(|e| e.1)
}

#[test]
fn matcher_is_left_identity_on_a_singleton() {
    let binds = BindDB { binds: vec![] };
    let pair = ExecPair { input: empty_db(), output: empty_db() };
    let b = block(0x200, 0x100, vec![Dest::Unknown], Branch::Return, vec!["lit"]);
    let found = block_compare(&binds, &pair, &b, vec![&b]).expect("match");
    assert_eq!(found.address, b.address);
}

#[test]
fn matcher_picks_unique_string_match() {
    let binds = BindDB { binds: vec![] };
    let pair = ExecPair { input: empty_db(), output: empty_db() };
    let rb = block(0x200, 0x100, vec![], Branch::Return, vec!["alpha"]);
    let c1 = block(0x2000, 0x1000, vec![], Branch::Return, vec!["beta"]);
    let c2 = block(0x2010, 0x1000, vec![], Branch::Return, vec!["alpha"]);
    let found = block_compare(&binds, &pair, &rb, vec![&c1, &c2]).expect("match");
    assert_eq!(found.address.block_addr, 0x2010);
}

#[test]
fn matcher_returns_none_when_ambiguous() {
    let binds = BindDB { binds: vec![] };
    let pair = ExecPair { input: empty_db(), output: empty_db() };
    let rb = block(0x200, 0x100, vec![], Branch::Return, vec!["alpha"]);
    let c1 = block(0x2000, 0x1000, vec![], Branch::Return, vec!["alpha"]);
    let c2 = block(0x2010, 0x1000, vec![], Branch::Return, vec!["alpha"]);
    assert!(block_compare(&binds, &pair, &rb, vec![&c1, &c2]).is_none());
}

#[test]
fn matcher_call_shape_disambiguates_with_bound_callee() {
    // The reference block calls foo, bound to 0xF00; only the candidate
    // calling 0xF00 is compatible.
    let binds = BindDB { binds: vec![entry("foo", Bind::Verified(0xF00))] };
    let input = ExecDB {
        fns: vec![func(Some("foo"), 0xF0, vec![], vec![])],
        vtables: vec![],
        strings: vec![],
    };
    let pair = ExecPair { input, output: empty_db() };
    let rb = block(0x200, 0x100, vec![Dest::Known(0xF0)], Branch::Return, vec!["s"]);
    let c1 = block(0x2000, 0x1000, vec![Dest::Known(0xBAD)], Branch::Return, vec!["s"]);
    let c2 = block(0x2010, 0x1000, vec![Dest::Known(0xF00)], Branch::Return, vec!["s"]);
    let found = block_compare(&binds, &pair, &rb, vec![&c1, &c2]).expect("match");
    assert_eq!(found.address.block_addr, 0x2010);
}

#[test]
fn matcher_sanity_filter_restricts_to_bound_function() {
    // The reference block's enclosing function is bound to 0x1000, so the
    // candidate inside 0x2000 is discarded even though its strings match.
    let binds = BindDB { binds: vec![entry("holder", Bind::Unverified(0x1000))] };
    let input = ExecDB {
        fns: vec![func(Some("holder"), 0x100, vec![], vec![])],
        vtables: vec![],
        strings: vec![],
    };
    let pair = ExecPair { input, output: empty_db() };
    let rb = block(0x200, 0x100, vec![], Branch::Return, vec!["x"]);
    let inside = block(0x2000, 0x1000, vec![], Branch::Return, vec!["y"]);
    let outside = block(0x2010, 0x2000, vec![], Branch::Return, vec!["x"]);
    let found = block_compare(&binds, &pair, &rb, vec![&inside, &outside]).expect("match");
    assert_eq!(found.address.block_addr, 0x2000);
}

#[test]
fn single_site_pair_binds_directly() {
    // One reference site on each side: the enclosing input function's name
    // is bound to the output site's enclosing function.
    let input = ExecDB {
        fns: vec![func(Some("bar"), 0x300, vec![], vec![])],
        vtables: vec![],
        strings: vec![],
    };
    let pair = ExecPair { input, output: empty_db() };
    let binds = BindDB { binds: vec![] };
    let ix = vec![addr(0x204, 0x200, 0x300)];
    let ox = vec![addr(0x2004, 0x2000, 0xA000)];
    let batch = xref_binds(&binds, &pair, vec![(&ix, &ox)]);
    assert_eq!(batch_get(&batch, "bar"), Some(0xA000));
}

#[test]
fn single_site_pair_with_unnamed_function_is_skipped() {
    let input = ExecDB {
        fns: vec![func(None, 0x300, vec![], vec![])],
        vtables: vec![],
        strings: vec![],
    };
    let pair = ExecPair { input, output: empty_db() };
    let binds = BindDB { binds: vec![] };
    let ix = vec![addr(0x204, 0x200, 0x300)];
    let ox = vec![addr(0x2004, 0x2000, 0xA000)];
    let batch = xref_binds(&binds, &pair, vec![(&ix, &ox)]);
    assert_eq!(batch.entries.len(), 0);
}

#[test]
fn asymmetric_pairs_are_skipped() {
    let input = ExecDB {
        fns: vec![func(Some("bar"), 0x300, vec![], vec![])],
        vtables: vec![],
        strings: vec![],
    };
    let pair = ExecPair { input, output: empty_db() };
    let binds = BindDB { binds: vec![] };
    let ix = vec![addr(0x204, 0x200, 0x300)];
    let ox = vec![addr(0x2004, 0x2000, 0xA000), addr(0x2008, 0x2100, 0xB000)];
    let batch = xref_binds(&binds, &pair, vec![(&ix, &ox)]);
    assert_eq!(batch.entries.len(), 0);
}

#[test]
fn multi_site_pair_aligns_through_the_matcher() {
    // Two reference sites on each side; the caller blocks are told apart by
    // the already-bound callee foo -> 0xF00.
    let b1 = block(0x200, 0x300, vec![Dest::Known(0xF0)], Branch::Return, vec![]);
    let b2 = block(0x210, 0x310, vec![Dest::Known(0xA0)], Branch::Return, vec![]);
    let input = ExecDB {
        fns: vec![
            func(Some("foo"), 0xF0, vec![], vec![]),
            func(Some("callerA"), 0x300, vec![b1], vec![]),
            func(Some("callerB"), 0x310, vec![b2], vec![]),
        ],
        vtables: vec![],
        strings: vec![],
    };
    let o1 = block(0x2000, 0xA1, vec![Dest::Known(0xF00)], Branch::Return, vec![]);
    let o2 = block(0x2010, 0xA2, vec![Dest::Known(0xB00)], Branch::Return, vec![]);
    let output = ExecDB {
        fns: vec![func(None, 0xA1, vec![o1], vec![]), func(None, 0xA2, vec![o2], vec![])],
        vtables: vec![],
        strings: vec![],
    };
    let pair = ExecPair { input, output };
    let binds = BindDB { binds: vec![entry("foo", Bind::Unverified(0xF00))] };
    let ix = vec![addr(0x204, 0x200, 0x300), addr(0x214, 0x210, 0x310)];
    let ox = vec![addr(0x2004, 0x2000, 0xA1), addr(0x2014, 0x2010, 0xA2)];
    let batch = xref_binds(&binds, &pair, vec![(&ix, &ox)]);
    assert_eq!(batch_get(&batch, "callerA"), Some(0xA1));
}

#[test]
fn aligned_pair_walk_binds_named_callees() {
    let input = ExecDB {
        fns: vec![
            func(Some("foo"), 0x10, vec![], vec![]),
            func(Some("qux"), 0x30, vec![], vec![]),
        ],
        vtables: vec![],
        strings: vec![],
    };
    let pair = ExecPair { input, output: empty_db() };
    let binds = BindDB { binds: vec![] };
    let ib = block(
        0x200,
        0x100,
        vec![Dest::Known(0x10), Dest::Unknown, Dest::Known(0x30)],
        Branch::Return,
        vec![],
    );
    let ob = block(
        0x2000,
        0x1000,
        vec![Dest::Known(0x1010), Dest::Unknown, Dest::Known(0x1030)],
        Branch::Return,
        vec![],
    );
    let batch = block_binds(&binds, &pair, vec![(&ib, &ob)]);
    assert_eq!(batch_get(&batch, "foo"), Some(0x1010));
    assert_eq!(batch_get(&batch, "qux"), Some(0x1030));
}

#[test]
fn inline_callee_abandons_the_pair() {
    // Calls are [foo, helper, qux] against [foo_out, qux_out]; helper is
    // Inline, so the walk stops after binding foo and qux stays unbound.
    let input = ExecDB {
        fns: vec![
            func(Some("foo"), 0x10, vec![], vec![]),
            func(Some("helper"), 0x20, vec![], vec![]),
            func(Some("qux"), 0x30, vec![], vec![]),
        ],
        vtables: vec![],
        strings: vec![],
    };
    let pair = ExecPair { input, output: empty_db() };
    let binds = BindDB { binds: vec![entry("helper", Bind::Inline)] };
    let ib = block(
        0x200,
        0x100,
        vec![Dest::Known(0x10), Dest::Known(0x20), Dest::Known(0x30)],
        Branch::Return,
        vec![],
    );
    let ob = block(
        0x2000,
        0x1000,
        vec![Dest::Known(0x1010), Dest::Known(0x1030)],
        Branch::Return,
        vec![],
    );
    let batch = block_binds(&binds, &pair, vec![(&ib, &ob)]);
    assert_eq!(batch_get(&batch, "foo"), Some(0x1010));
    assert_eq!(batch_get(&batch, "qux"), None);
    assert_eq!(batch.entries.len(), 1);
}

#[test]
fn known_unknown_mismatch_abandons_the_pair() {
    let input = ExecDB {
        fns: vec![
            func(Some("foo"), 0x10, vec![], vec![]),
            func(Some("qux"), 0x30, vec![], vec![]),
        ],
        vtables: vec![],
        strings: vec![],
    };
    let pair = ExecPair { input, output: empty_db() };
    let binds = BindDB { binds: vec![] };
    let ib = block(
        0x200,
        0x100,
        vec![Dest::Known(0x10), Dest::Unknown, Dest::Known(0x30)],
        Branch::Return,
        vec![],
    );
    let ob = block(
        0x2000,
        0x1000,
        vec![Dest::Known(0x1010), Dest::Known(0x1020), Dest::Known(0x1030)],
        Branch::Return,
        vec![],
    );
    let batch = block_binds(&binds, &pair, vec![(&ib, &ob)]);
    assert_eq!(batch_get(&batch, "foo"), Some(0x1010));
    assert_eq!(batch.entries.len(), 1);
}

#[test]
fn traversal_of_returning_entries_collects_exactly_one_pair() {
    let ib = block(0x100, 0x100, vec![], Branch::Return, vec![]);
    let ob = block(0x1000, 0x1000, vec![], Branch::Return, vec![]);
    let input = ExecDB {
        fns: vec![func(Some("f"), 0x100, vec![ib], vec![])],
        vtables: vec![],
        strings: vec![],
    };
    let output = ExecDB {
        fns: vec![func(None, 0x1000, vec![ob], vec![])],
        vtables: vec![],
        strings: vec![],
    };
    let pair = ExecPair { input, output };
    let binds = BindDB { binds: vec![] };
    let ibr = &pair.input.fns[0].blocks[0];
    let obr = &pair.output.fns[0].blocks[0];
    let collected = block_traverse(&binds, &pair, vec![(ibr, obr)]);
    assert_eq!(collected.len(), 1);
    assert_eq!(collected[0].0.address.block_addr, 0x100);
    assert_eq!(collected[0].1.address.block_addr, 0x1000);
}

#[test]
fn traversal_follows_matching_branches() {
    let ia = block(0x100, 0x100, vec![], Branch::Neutral(Dest::Known(0x110)), vec![]);
    let ib = block(0x110, 0x100, vec![], Branch::Return, vec![]);
    let oa = block(0x1000, 0x1000, vec![], Branch::Neutral(Dest::Known(0x1010)), vec![]);
    let ob = block(0x1010, 0x1000, vec![], Branch::Return, vec![]);
    let input = ExecDB {
        fns: vec![func(Some("f"), 0x100, vec![ia, ib], vec![])],
        vtables: vec![],
        strings: vec![],
    };
    let output = ExecDB {
        fns: vec![func(None, 0x1000, vec![oa, ob], vec![])],
        vtables: vec![],
        strings: vec![],
    };
    let pair = ExecPair { input, output };
    let binds = BindDB { binds: vec![] };
    let r = &pair.input.fns[0].blocks[0];
    let s = &pair.output.fns[0].blocks[0];
    let collected = block_traverse(&binds, &pair, vec![(r, s)]);
    assert_eq!(collected.len(), 2);
}

#[test]
fn traversal_terminates_on_cycles() {
    // Both entry blocks jump back to themselves; the pair is collected once.
    let ia = block(0x100, 0x100, vec![], Branch::Neutral(Dest::Known(0x100)), vec![]);
    let oa = block(0x1000, 0x1000, vec![], Branch::Neutral(Dest::Known(0x1000)), vec![]);
    let input = ExecDB {
        fns: vec![func(Some("f"), 0x100, vec![ia], vec![])],
        vtables: vec![],
        strings: vec![],
    };
    let output = ExecDB {
        fns: vec![func(None, 0x1000, vec![oa], vec![])],
        vtables: vec![],
        strings: vec![],
    };
    let pair = ExecPair { input, output };
    let binds = BindDB { binds: vec![] };
    let r = &pair.input.fns[0].blocks[0];
    let s = &pair.output.fns[0].blocks[0];
    let collected = block_traverse(&binds, &pair, vec![(r, s)]);
    assert_eq!(collected.len(), 1);
}

#[test]
fn mismatched_branch_variants_stop_the_path() {
    let ia = block(0x100, 0x100, vec![], Branch::Neutral(Dest::Known(0x110)), vec![]);
    let ib = block(0x110, 0x100, vec![], Branch::Return, vec![]);
    let oa = block(0x1000, 0x1000, vec![], Branch::Equality(Dest::Known(0x1010), Dest::Known(0x1020)), vec![]);
    let input = ExecDB {
        fns: vec![func(Some("f"), 0x100, vec![ia, ib], vec![])],
        vtables: vec![],
        strings: vec![],
    };
    let output = ExecDB {
        fns: vec![func(None, 0x1000, vec![oa], vec![])],
        vtables: vec![],
        strings: vec![],
    };
    let pair = ExecPair { input, output };
    let binds = BindDB { binds: vec![] };
    let r = &pair.input.fns[0].blocks[0];
    let s = &pair.output.fns[0].blocks[0];
    let collected = block_traverse(&binds, &pair, vec![(r, s)]);
    assert_eq!(collected.len(), 1);
}

#[test]
fn string_strategy_binds_through_a_shared_literal() {
    // "hello" is referenced once in each binary; the input site lies in the
    // named function bar, so bar is proposed at the output site's function.
    let input = ExecDB {
        fns: vec![func(Some("bar"), 0x300, vec![], vec![])],
        vtables: vec![],
        strings: vec![StringRef {
            string: "hello".to_string(),
            xrefs: vec![addr(0x204, 0x200, 0x300)],
        }],
    };
    let output = ExecDB {
        fns: vec![],
        vtables: vec![],
        strings: vec![StringRef {
            string: "hello".to_string(),
            xrefs: vec![addr(0x2004, 0x2000, 0xA000)],
        }],
    };
    let pair = ExecPair { input, output };
    let binds = BindDB { binds: vec![] };
    let batch = string_xref_strat(&pair, &binds);
    assert_eq!(batch_get(&batch, "bar"), Some(0xA000));
}

#[test]
fn literal_present_in_one_binary_is_skipped() {
    let input = ExecDB {
        fns: vec![func(Some("bar"), 0x300, vec![], vec![])],
        vtables: vec![],
        strings: vec![StringRef {
            string: "only-here".to_string(),
            xrefs: vec![addr(0x204, 0x200, 0x300)],
        }],
    };
    let pair = ExecPair { input, output: empty_db() };
    let binds = BindDB { binds: vec![] };
    let batch = string_xref_strat(&pair, &binds);
    assert_eq!(batch.entries.len(), 0);
}

#[test]
fn matcher_intersection_breaks_ties() {
    // Two candidates match by strings, two by calls, but only one by both.
    let binds = BindDB { binds: vec![] };
    let pair = ExecPair { input: empty_db(), output: empty_db() };
    let rb = block(0x200, 0x100, vec![Dest::Unknown], Branch::Return, vec!["s"]);
    let c1 = block(0x2000, 0x1000, vec![Dest::Unknown], Branch::Return, vec!["s"]);
    let c2 = block(0x2010, 0x1000, vec![], Branch::Return, vec!["s"]);
    let c3 = block(0x2020, 0x1000, vec![Dest::Unknown], Branch::Return, vec!["t"]);
    let found = block_compare(&binds, &pair, &rb, vec![&c1, &c2, &c3]).expect("match");
    assert_eq!(found.address.block_addr, 0x2000);
}

#[test]
fn matcher_sanity_filter_can_empty_the_candidates() {
    let binds = BindDB { binds: vec![entry("holder", Bind::Unverified(0x9999))] };
    let input = ExecDB {
        fns: vec![func(Some("holder"), 0x100, vec![], vec![])],
        vtables: vec![],
        strings: vec![],
    };
    let pair = ExecPair { input, output: empty_db() };
    let rb = block(0x200, 0x100, vec![], Branch::Return, vec!["x"]);
    let c1 = block(0x2000, 0x1000, vec![], Branch::Return, vec!["x"]);
    assert!(block_compare(&binds, &pair, &rb, vec![&c1]).is_none());
}

#[test]
fn traversal_aligns_normalized_branch_polarity() {
    // The input compiles the test as jne, the output as je with the labels
    // swapped; normalization puts the semantically equal destinations in the
    // same slots, so the traversal pairs them correctly.
    let ia = block(0x100, 0x100, vec![], get_branch_type("jne 0x110", 0x110, 0x120), vec![]);
    let ieq = block(0x120, 0x100, vec![], Branch::Return, vec![]);
    let ine = block(0x110, 0x100, vec![], Branch::Return, vec![]);
    let oa = block(0x1000, 0x1000, vec![], get_branch_type("je 0x1110", 0x1110, 0x1120), vec![]);
    let oeq = block(0x1110, 0x1000, vec![], Branch::Return, vec![]);
    let one = block(0x1120, 0x1000, vec![], Branch::Return, vec![]);
    let input = ExecDB {
        fns: vec![func(Some("f"), 0x100, vec![ia, ieq, ine], vec![])],
        vtables: vec![],
        strings: vec![],
    };
    let output = ExecDB {
        fns: vec![func(None, 0x1000, vec![oa, oeq, one], vec![])],
        vtables: vec![],
        strings: vec![],
    };
    let pair = ExecPair { input, output };
    let binds = BindDB { binds: vec![] };
    let r = &pair.input.fns[0].blocks[0];
    let s = &pair.output.fns[0].blocks[0];
    let collected = block_traverse(&binds, &pair, vec![(r, s)]);
    assert_eq!(collected.len(), 3);
    // The input's equal-destination 0x120 pairs with the output's
    // equal-destination 0x1110.
    assert!(collected
        .iter()
        .any(|(a, b)| a.address.block_addr == 0x120 && b.address.block_addr == 0x1110));
    assert!(collected
        .iter()
        .any(|(a, b)| a.address.block_addr == 0x110 && b.address.block_addr == 0x1120));
}
