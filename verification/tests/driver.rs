use symbo::analysis::{block_traverse_strat, call_block_strat, call_xref_strat};
use symbo::batch::Batch;
use symbo::db::{
    Address, Bind, BindDB, BindEntry, Block, Branch, Dest, ExecDB, ExecPair, Function,
};
use symbo::find::{find_range, find_symbol, find_symbols, same_names, subset_of};
use symbo::process::{merge_entry, Oracle};

fn addr(a: u64, b: u64, f: u64) -> Address {
    Address { addr: a, block_addr: b, function_addr: f }
}

fn block(baddr: u64, faddr: u64, calls: Vec<Dest>, branch: Branch, strings: Vec<&str>) -> Block {
    Block {
        address: addr(baddr, baddr, faddr),
        calls,
        branch,
        strings: strings.into_iter().map(|s| s.to_string()).collect(),
    }
}

fn func(name: Option<&str>, faddr: u64, blocks: Vec<Block>, xrefs: Vec<Address>) -> Function {
    Function {
        name: name.map(|s| s.to_string()),
        address: addr(faddr, faddr, faddr),
        blocks,
        xrefs,
    }
}

fn entry(name: &str, bind: Bind) -> BindEntry {
    BindEntry { name: name.to_string(), bind }
}

fn lookup<'a>(db: &'a BindDB, name: &str) -> Option<&'a Bind> {
    db.binds.iter().find(|e| e.name == name).map(|e| &e.bind)
}

fn empty_db() -> ExecDB {
    ExecDB { fns: vec![], vtables: vec![], strings: vec![] }
}

fn batch_of(pairs: Vec<(&str, u64)>) -> Batch {
    let mut b = Batch::new();
    for (n, a) in pairs {
        b.insert(n.to_string(), a);
    }
    b
}

/// A scripted oracle: hands out the prepared answers in order and records
/// every question; once the script runs dry it keeps answering no.
struct Script {
    answers: Vec<Option<bool>>,
    asked: Vec<(String, u64)>,
}

impl Script {
    fn new(answers: Vec<Option<bool>>) -> Script {
        Script { answers, asked: Vec::new() }
    }
}

impl Oracle for Script {
    fn ask(&mut self, name: &String, addr: u64) -> Option<bool> {
        self.asked.push((name.clone(), addr));
        if self.answers.is_empty() {
            Some(false)
        } else {
            self.answers.remove(0)
        }
    }
}

#[test]
fn batch_insert_replaces_earlier_proposal() {
    let mut b = Batch::new();
    b.insert("x".to_string(), 1);
    b.insert("y".to_string(), 2);
    b.insert("x".to_string(), 3);
    assert_eq!(b.len(), 2);
    assert_eq!(b.get(&"x".to_string()), Some(3));
    assert_eq!(b.get(&"y".to_string()), Some(2));
    assert_eq!(b.get(&"z".to_string()), None);
}

#[test]
fn absent_names_enter_unverified() {
    let mut db = BindDB { binds: vec![] };
    let mut oracle = Script::new(vec![]);
    let (added, verified) = db.process(batch_of(vec![("foo", 0xAA)]), &mut oracle);
    assert_eq!(lookup(&db, "foo"), Some(&Bind::Unverified(0xAA)));
    assert_eq!(added, 1);
    assert_eq!(verified, 0);
    assert_eq!(oracle.asked.len(), 0);
}

#[test]
fn agreeing_proposal_changes_nothing() {
    let mut db = BindDB { binds: vec![entry("foo", Bind::Unverified(0xAA))] };
    let mut oracle = Script::new(vec![]);
    db.process(batch_of(vec![("foo", 0xAA)]), &mut oracle);
    assert_eq!(lookup(&db, "foo"), Some(&Bind::Unverified(0xAA)));
    assert_eq!(oracle.asked.len(), 0);
}

#[test]
fn conflict_rejected_on_both_sides_becomes_not() {
    let mut db = BindDB { binds: vec![entry("foo", Bind::Unverified(0xAA))] };
    let mut oracle = Script::new(vec![Some(false), Some(false)]);
    db.process(batch_of(vec![("foo", 0xBB)]), &mut oracle);
    assert_eq!(lookup(&db, "foo"), Some(&Bind::Not(vec![0xAA, 0xBB])));
    assert_eq!(
        oracle.asked,
        vec![("foo".to_string(), 0xBB), ("foo".to_string(), 0xAA)]
    );
}

#[test]
fn conflict_accepting_the_new_address_verifies_it() {
    let mut db = BindDB { binds: vec![entry("foo", Bind::Unverified(0xAA))] };
    let mut oracle = Script::new(vec![Some(true)]);
    let (_, verified) = db.process(batch_of(vec![("foo", 0xBB)]), &mut oracle);
    assert_eq!(lookup(&db, "foo"), Some(&Bind::Verified(0xBB)));
    assert_eq!(verified, 1);
}

#[test]
fn conflict_accepting_the_old_address_verifies_it() {
    let mut db = BindDB { binds: vec![entry("foo", Bind::Unverified(0xAA))] };
    let mut oracle = Script::new(vec![Some(false), Some(true)]);
    db.process(batch_of(vec![("foo", 0xBB)]), &mut oracle);
    assert_eq!(lookup(&db, "foo"), Some(&Bind::Verified(0xAA)));
}

#[test]
fn ignore_counts_as_no_during_merge() {
    let mut db = BindDB { binds: vec![entry("foo", Bind::Unverified(0xAA))] };
    let mut oracle = Script::new(vec![None, None]);
    db.process(batch_of(vec![("foo", 0xBB)]), &mut oracle);
    assert_eq!(lookup(&db, "foo"), Some(&Bind::Not(vec![0xAA, 0xBB])));
}

#[test]
fn verified_entries_survive_any_batch() {
    let mut db = BindDB { binds: vec![entry("foo", Bind::Verified(0xAA))] };
    let mut oracle = Script::new(vec![]);
    db.process(batch_of(vec![("foo", 0xBB)]), &mut oracle);
    assert_eq!(lookup(&db, "foo"), Some(&Bind::Verified(0xAA)));
    assert_eq!(oracle.asked.len(), 0);
}

#[test]
fn inline_entries_survive_any_batch() {
    let mut db = BindDB { binds: vec![entry("foo", Bind::Inline)] };
    let mut oracle = Script::new(vec![]);
    db.process(batch_of(vec![("foo", 0xBB)]), &mut oracle);
    assert_eq!(lookup(&db, "foo"), Some(&Bind::Inline));
}

#[test]
fn rejected_address_is_not_asked_again() {
    let mut db = BindDB { binds: vec![entry("foo", Bind::Not(vec![0xAA, 0xBB]))] };
    let mut oracle = Script::new(vec![]);
    db.process(batch_of(vec![("foo", 0xBB)]), &mut oracle);
    assert_eq!(lookup(&db, "foo"), Some(&Bind::Not(vec![0xAA, 0xBB])));
    assert_eq!(oracle.asked.len(), 0);
}

#[test]
fn new_address_for_a_not_entry_extends_or_verifies() {
    let mut db = BindDB { binds: vec![entry("foo", Bind::Not(vec![0xAA]))] };
    let mut oracle = Script::new(vec![Some(false)]);
    db.process(batch_of(vec![("foo", 0xBB)]), &mut oracle);
    assert_eq!(lookup(&db, "foo"), Some(&Bind::Not(vec![0xAA, 0xBB])));

    let mut db2 = BindDB { binds: vec![entry("foo", Bind::Not(vec![0xAA]))] };
    let mut oracle2 = Script::new(vec![Some(true)]);
    db2.process(batch_of(vec![("foo", 0xCC)]), &mut oracle2);
    assert_eq!(lookup(&db2, "foo"), Some(&Bind::Verified(0xCC)));
}

#[test]
fn merge_entry_reports_verification() {
    let mut db = BindDB { binds: vec![entry("foo", Bind::Unverified(1))] };
    let mut oracle = Script::new(vec![Some(true)]);
    assert!(merge_entry(&mut db, &mut oracle, &"foo".to_string(), 2));
    let mut oracle2 = Script::new(vec![]);
    assert!(!merge_entry(&mut db, &mut oracle2, &"bar".to_string(), 3));
}

#[test]
fn reconciliation_lets_a_verified_claimant_win() {
    let mut db = BindDB {
        binds: vec![entry("a", Bind::Verified(5)), entry("b", Bind::Unverified(5))],
    };
    let mut oracle = Script::new(vec![]);
    db.process(Batch::new(), &mut oracle);
    assert_eq!(lookup(&db, "a"), Some(&Bind::Verified(5)));
    assert_eq!(lookup(&db, "b"), None);
    assert_eq!(oracle.asked.len(), 0);
}

#[test]
fn reconciliation_polls_unverified_claimants_in_order() {
    let mut db = BindDB {
        binds: vec![entry("a", Bind::Unverified(5)), entry("b", Bind::Unverified(5))],
    };
    let mut oracle = Script::new(vec![Some(true)]);
    db.process(Batch::new(), &mut oracle);
    assert_eq!(lookup(&db, "a"), Some(&Bind::Verified(5)));
    assert_eq!(lookup(&db, "b"), None);
    assert_eq!(oracle.asked, vec![("a".to_string(), 5)]);
}

#[test]
fn reconciliation_rejects_and_moves_on() {
    let mut db = BindDB {
        binds: vec![entry("a", Bind::Unverified(5)), entry("b", Bind::Unverified(5))],
    };
    let mut oracle = Script::new(vec![Some(false), Some(true)]);
    db.process(Batch::new(), &mut oracle);
    assert_eq!(lookup(&db, "a"), Some(&Bind::Not(vec![5])));
    assert_eq!(lookup(&db, "b"), Some(&Bind::Verified(5)));
}

#[test]
fn reconciliation_leaves_distinct_addresses_alone() {
    let mut db = BindDB {
        binds: vec![entry("a", Bind::Unverified(5)), entry("b", Bind::Unverified(6))],
    };
    let mut oracle = Script::new(vec![]);
    db.process(Batch::new(), &mut oracle);
    assert_eq!(lookup(&db, "a"), Some(&Bind::Unverified(5)));
    assert_eq!(lookup(&db, "b"), Some(&Bind::Unverified(6)));
    assert_eq!(oracle.asked.len(), 0);
}

#[test]
fn subset_ignores_multiplicity() {
    let a = vec!["x".to_string(), "x".to_string()];
    let b = vec!["x".to_string(), "y".to_string()];
    assert!(subset_of(&a, &b));
    assert!(!subset_of(&b, &a));
    assert!(subset_of(&Vec::new(), &a));
}

#[test]
fn same_names_compares_up_to_order() {
    let a = vec!["x".to_string(), "y".to_string(), "x".to_string()];
    let b = vec!["y".to_string(), "x".to_string(), "x".to_string()];
    let c = vec!["y".to_string(), "y".to_string(), "x".to_string()];
    assert!(same_names(&a, &b));
    assert!(!same_names(&a, &c));
    assert!(!same_names(&a, &vec!["x".to_string()]));
}

fn finder_pair() -> ExecPair {
    // The symbol S at 0x50 is called from callerX (bound to 0xC1). Output
    // candidates 0xE1 and 0xE2 are both called from 0xC1, so both survive
    // the call-site filter.
    let input = ExecDB {
        fns: vec![
            func(Some("S"), 0x50, vec![], vec![addr(0x304, 0x300, 0x70)]),
            func(Some("callerX"), 0x70, vec![], vec![]),
        ],
        vtables: vec![],
        strings: vec![],
    };
    let output = ExecDB {
        fns: vec![
            func(None, 0xE1, vec![], vec![addr(0x1304, 0x1300, 0xC1)]),
            func(None, 0xE2, vec![], vec![addr(0x1404, 0x1400, 0xC1)]),
            func(None, 0xE3, vec![], vec![]),
        ],
        vtables: vec![],
        strings: vec![],
    };
    ExecPair { input, output }
}

#[test]
fn finder_accepts_the_second_candidate() {
    let pair = finder_pair();
    let mut db = BindDB { binds: vec![entry("callerX", Bind::Verified(0xC1))] };
    let mut oracle = Script::new(vec![Some(false), Some(true)]);
    find_symbol(&pair, &mut db, "S".to_string(), &mut oracle);
    assert_eq!(lookup(&db, "S"), Some(&Bind::Verified(0xE2)));
    assert_eq!(
        oracle.asked,
        vec![("S".to_string(), 0xE1), ("S".to_string(), 0xE2)]
    );
}

#[test]
fn finder_records_rejections() {
    let pair = finder_pair();
    let mut db = BindDB { binds: vec![entry("callerX", Bind::Verified(0xC1))] };
    let mut oracle = Script::new(vec![Some(false), Some(false)]);
    find_symbol(&pair, &mut db, "S".to_string(), &mut oracle);
    assert_eq!(lookup(&db, "S"), Some(&Bind::Not(vec![0xE1, 0xE2])));
}

#[test]
fn finder_stops_on_ignore() {
    let pair = finder_pair();
    let mut db = BindDB { binds: vec![entry("callerX", Bind::Verified(0xC1))] };
    let mut oracle = Script::new(vec![None]);
    find_symbol(&pair, &mut db, "S".to_string(), &mut oracle);
    assert_eq!(lookup(&db, "S"), None);
    assert_eq!(oracle.asked.len(), 1);
}

#[test]
fn finder_confirms_an_unverified_guess_first() {
    let pair = finder_pair();
    let mut db = BindDB {
        binds: vec![entry("callerX", Bind::Verified(0xC1)), entry("S", Bind::Unverified(0xAB))],
    };
    let mut oracle = Script::new(vec![Some(true)]);
    find_symbol(&pair, &mut db, "S".to_string(), &mut oracle);
    assert_eq!(lookup(&db, "S"), Some(&Bind::Verified(0xAB)));
    assert_eq!(oracle.asked, vec![("S".to_string(), 0xAB)]);
}

#[test]
fn finder_leaves_a_verified_symbol_alone() {
    let pair = finder_pair();
    let mut db = BindDB { binds: vec![entry("S", Bind::Verified(0xE9))] };
    let mut oracle = Script::new(vec![]);
    find_symbol(&pair, &mut db, "S".to_string(), &mut oracle);
    assert_eq!(lookup(&db, "S"), Some(&Bind::Verified(0xE9)));
    assert_eq!(oracle.asked.len(), 0);
}

#[test]
fn finder_skips_candidates_already_verified_elsewhere() {
    let pair = finder_pair();
    let mut db = BindDB {
        binds: vec![
            entry("callerX", Bind::Verified(0xC1)),
            entry("taken", Bind::Verified(0xE1)),
        ],
    };
    let mut oracle = Script::new(vec![Some(true)]);
    find_symbols(&pair, &mut db, &"S".to_string(), &vec![0xE1, 0xE2], &mut oracle);
    assert_eq!(lookup(&db, "S"), Some(&Bind::Verified(0xE2)));
    assert_eq!(oracle.asked, vec![("S".to_string(), 0xE2)]);
}

#[test]
fn finder_with_too_many_candidates_changes_nothing() {
    // Eleven indistinguishable candidates survive both filter stages, so the
    // finder gives up without prompting and without touching the database.
    let input = ExecDB {
        fns: vec![func(Some("S"), 0x50, vec![block(0x50, 0x50, vec![], Branch::Return, vec![])], vec![])],
        vtables: vec![],
        strings: vec![],
    };
    let mut out_fns = Vec::new();
    let mut cands = Vec::new();
    for i in 0..11u64 {
        let fa = 0x1000 + i * 0x10;
        out_fns.push(func(None, fa, vec![block(fa, fa, vec![], Branch::Return, vec![])], vec![]));
        cands.push(fa);
    }
    let pair = ExecPair {
        input,
        output: ExecDB { fns: out_fns, vtables: vec![], strings: vec![] },
    };
    let mut db = BindDB { binds: vec![] };
    let mut oracle = Script::new(vec![]);
    find_symbols(&pair, &mut db, &"S".to_string(), &cands, &mut oracle);
    assert!(db.binds.is_empty());
    assert!(oracle.asked.is_empty());
}

#[test]
fn range_search_only_touches_the_class() {
    // _ZN3Foo... names belong to class Foo; the Bar symbol stays untouched.
    let input = ExecDB {
        fns: vec![
            func(Some("_ZN3Foo4workEv"), 0x50, vec![], vec![addr(0x304, 0x300, 0x70)]),
            func(Some("_ZN3Bar4restEv"), 0x60, vec![], vec![]),
            func(Some("callerX"), 0x70, vec![], vec![]),
        ],
        vtables: vec![],
        strings: vec![],
    };
    let output = ExecDB {
        fns: vec![
            func(None, 0xE1, vec![], vec![addr(0x1304, 0x1300, 0xC1)]),
            func(None, 0xF9, vec![], vec![]),
        ],
        vtables: vec![],
        strings: vec![],
    };
    let pair = ExecPair { input, output };
    let mut db = BindDB { binds: vec![entry("callerX", Bind::Verified(0xC1))] };
    let mut oracle = Script::new(vec![Some(true)]);
    find_range(&pair, &mut db, "Foo".to_string(), 0xE0, 0xEF, &mut oracle);
    assert_eq!(lookup(&db, "_ZN3Foo4workEv"), Some(&Bind::Verified(0xE1)));
    assert_eq!(lookup(&db, "_ZN3Bar4restEv"), None);
    assert_eq!(oracle.asked, vec![("_ZN3Foo4workEv".to_string(), 0xE1)]);
}

#[test]
fn call_xref_strategy_pairs_bound_functions() {
    // foo is bound to 0x1000; its one call site and the output function's
    // one call site bind the calling function directly.
    let input = ExecDB {
        fns: vec![
            func(Some("foo"), 0x100, vec![], vec![addr(0x204, 0x200, 0x300)]),
            func(Some("callerA"), 0x300, vec![], vec![]),
        ],
        vtables: vec![],
        strings: vec![],
    };
    let output = ExecDB {
        fns: vec![func(None, 0x1000, vec![], vec![addr(0x1204, 0x1200, 0x1300)])],
        vtables: vec![],
        strings: vec![],
    };
    let pair = ExecPair { input, output };
    let binds = BindDB { binds: vec![entry("foo", Bind::Unverified(0x1000))] };
    let batch = call_xref_strat(&pair, &binds);
    assert_eq!(batch.entries.len(), 1);
    assert_eq!(batch.entries[0].0, "callerA");
    assert_eq!(batch.entries[0].1, 0x1300);
}

#[test]
fn call_block_strategy_walks_aligned_caller_blocks() {
    // foo is bound; the caller block around its input call site aligns with
    // the output block inside the bound caller, and binds qux.
    let ib = block(
        0x200,
        0x300,
        vec![Dest::Known(0x100), Dest::Known(0x110)],
        Branch::Return,
        vec![],
    );
    let input = ExecDB {
        fns: vec![
            func(Some("foo"), 0x100, vec![], vec![addr(0x204, 0x200, 0x300)]),
            func(Some("qux"), 0x110, vec![], vec![]),
            func(Some("callerA"), 0x300, vec![ib], vec![]),
        ],
        vtables: vec![],
        strings: vec![],
    };
    let ob = block(
        0x1200,
        0x1300,
        vec![Dest::Known(0x1000), Dest::Known(0x1110)],
        Branch::Return,
        vec![],
    );
    let output = ExecDB {
        fns: vec![
            func(None, 0x1000, vec![], vec![addr(0x1204, 0x1200, 0x1300)]),
            func(None, 0x1300, vec![ob], vec![]),
        ],
        vtables: vec![],
        strings: vec![],
    };
    let pair = ExecPair { input, output };
    let binds = BindDB {
        binds: vec![
            entry("foo", Bind::Unverified(0x1000)),
            entry("callerA", Bind::Unverified(0x1300)),
        ],
    };
    let batch = call_block_strat(&pair, &binds);
    assert_eq!(batch.get(&"qux".to_string()), Some(0x1110));
}

#[test]
fn traversal_strategy_descends_from_bound_entries() {
    // f is bound to 0x1000; the entry blocks both fall through to a second
    // block whose calls bind helper.
    let ia = block(0x100, 0x100, vec![], Branch::Neutral(Dest::Known(0x110)), vec![]);
    let ib = block(0x110, 0x100, vec![Dest::Known(0x500)], Branch::Return, vec![]);
    let input = ExecDB {
        fns: vec![
            func(Some("f"), 0x100, vec![ia, ib], vec![]),
            func(Some("helper"), 0x500, vec![], vec![]),
        ],
        vtables: vec![],
        strings: vec![],
    };
    let oa = block(0x1000, 0x1000, vec![], Branch::Neutral(Dest::Known(0x1010)), vec![]);
    let obk = block(0x1010, 0x1000, vec![Dest::Known(0x1500)], Branch::Return, vec![]);
    let output = ExecDB {
        fns: vec![func(None, 0x1000, vec![oa, obk], vec![])],
        vtables: vec![],
        strings: vec![],
    };
    let pair = ExecPair { input, output };
    let binds = BindDB { binds: vec![entry("f", Bind::Unverified(0x1000))] };
    let batch = block_traverse_strat(&pair, &binds);
    assert_eq!(batch.get(&"helper".to_string()), Some(0x1500));
}

#[test]
fn propagation_round_trip_from_string_seed() {
    // A shared literal seeds bar; processing the batch leaves it
    // Unverified at the output function, asking nothing.
    let input = ExecDB {
        fns: vec![func(Some("bar"), 0x300, vec![], vec![])],
        vtables: vec![],
        strings: vec![symbo::db::StringRef {
            string: "hello".to_string(),
            xrefs: vec![addr(0x204, 0x200, 0x300)],
        }],
    };
    let output = ExecDB {
        fns: vec![],
        vtables: vec![],
        strings: vec![symbo::db::StringRef {
            string: "hello".to_string(),
            xrefs: vec![addr(0x2004, 0x2000, 0xA000)],
        }],
    };
    let pair = ExecPair { input, output };
    let mut db = BindDB { binds: vec![] };
    let batch = symbo::analysis::string_xref_strat(&pair, &db);
    let mut oracle = Script::new(vec![]);
    let (added, _) = db.process(batch, &mut oracle);
    assert_eq!(added, 1);
    assert_eq!(lookup(&db, "bar"), Some(&Bind::Unverified(0xA000)));
    assert_eq!(oracle.asked.len(), 0);
}
