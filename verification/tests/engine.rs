use symbo::adapter::{get_branch_type, hex_to_u64, nearest_block};
use symbo::db::{
    Address, Bind, BindDB, BindEntry, Block, Branch, Dest, ExecDB, ExecPair, Function, StringRef,
    Vtable,
};
use symbo::util::{u64_to_hex, AsHex, AsSome};

fn addr(a: u64, b: u64, f: u64) -> Address {
    Address { addr: a, block_addr: b, function_addr: f }
}

fn block(baddr: u64, faddr: u64, calls: Vec<Dest>, branch: Branch, strings: Vec<&str>) -> Block {
    Block {
        address: addr(baddr, baddr, faddr),
        calls,
        branch,
        strings: strings.into_iter().map(|s| s.to_string()).collect(),
    }
}

fn func(name: Option<&str>, faddr: u64, blocks: Vec<Block>, xrefs: Vec<Address>) -> Function {
    Function {
        name: name.map(|s| s.to_string()),
        address: addr(faddr, faddr, faddr),
        blocks,
        xrefs,
    }
}

fn entry(name: &str, bind: Bind) -> BindEntry {
    BindEntry { name: name.to_string(), bind }
}

fn lookup<'a>(db: &'a BindDB, name: &str) -> Option<&'a Bind> {
    db.binds.iter().find(|e| e.name == name).map(|e| &e.bind)
}

#[test]
fn get_addr_of_each_state() {
    assert_eq!(Bind::Verified(7).get_addr(), Some(7));
    assert_eq!(Bind::Unverified(9).get_addr(), Some(9));
    assert_eq!(Bind::Not(vec![1, 2]).get_addr(), None);
    assert_eq!(Bind::Inline.get_addr(), None);
}

#[test]
fn duplicate_preserves_value() {
    let b = Bind::Not(vec![3, 4, 5]);
    assert_eq!(b.duplicate(), b);
    assert_eq!(Bind::Inline.duplicate(), Bind::Inline);
}

#[test]
fn hex_parses_plain_addresses() {
    assert_eq!(hex_to_u64("0x0"), Some(0));
    assert_eq!(hex_to_u64("0x1f"), Some(31));
    assert_eq!(hex_to_u64("0xDEADbeef"), Some(0xdead_beef));
    assert_eq!(hex_to_u64("0xffffffffffffffff"), Some(u64::MAX));
}

#[test]
fn hex_accepts_a_leading_plus() {
    assert_eq!(hex_to_u64("0x+ff"), Some(255));
}

#[test]
fn hex_rejects_missing_prefix_and_bad_digits() {
    assert_eq!(hex_to_u64("1f"), None);
    assert_eq!(hex_to_u64(""), None);
    assert_eq!(hex_to_u64("0x"), None);
    assert_eq!(hex_to_u64("0x+"), None);
    assert_eq!(hex_to_u64("0xzz"), None);
    assert_eq!(hex_to_u64("j"), None);
}

#[test]
fn hex_rejects_overflow() {
    assert_eq!(hex_to_u64("0x10000000000000000"), None);
}

#[test]
fn branch_return_family() {
    assert_eq!(get_branch_type("ret", 0x20, 0x30), Branch::Return);
}

#[test]
fn branch_less_than_family_puts_fallthrough_first() {
    assert_eq!(
        get_branch_type("ble 0x20", 0x20, 0x30),
        Branch::Inequality(Dest::Known(0x30), Dest::Known(0x20))
    );
    assert_eq!(
        get_branch_type("jbe 0x20", 0x20, 0x30),
        Branch::Inequality(Dest::Known(0x30), Dest::Known(0x20))
    );
}

#[test]
fn branch_greater_than_family_puts_jump_first() {
    assert_eq!(
        get_branch_type("ja 0x20", 0x20, 0x30),
        Branch::Inequality(Dest::Known(0x20), Dest::Known(0x30))
    );
}

#[test]
fn branch_equality_polarity() {
    assert_eq!(
        get_branch_type("je 0x20", 0x20, 0x30),
        Branch::Equality(Dest::Known(0x20), Dest::Known(0x30))
    );
    assert_eq!(
        get_branch_type("jne 0x20", 0x20, 0x30),
        Branch::Equality(Dest::Known(0x30), Dest::Known(0x20))
    );
}

#[test]
fn branch_unconditional_and_fallback() {
    assert_eq!(get_branch_type("jmp 0x20", 0x20, 0x30), Branch::Neutral(Dest::Known(0x20)));
    assert_eq!(get_branch_type("cmov 0x20", 0x20, 0x30), Branch::Neutral(Dest::Known(0x30)));
}

#[test]
fn branch_zero_jump_is_unknown() {
    assert_eq!(get_branch_type("jmp", 0, 0x30), Branch::Neutral(Dest::Unknown));
    assert_eq!(
        get_branch_type("je", 0, 0x30),
        Branch::Equality(Dest::Unknown, Dest::Known(0x30))
    );
}

#[test]
fn nearest_block_finds_exact_and_covering() {
    let pool = vec![0x10, 0x20, 0x30];
    assert_eq!(nearest_block(0x20, &pool), Some(0x20));
    assert_eq!(nearest_block(0x2f, &pool), Some(0x20));
    assert_eq!(nearest_block(0x10, &pool), Some(0x10));
    assert_eq!(nearest_block(0x99, &pool), Some(0x30));
}

#[test]
fn hex_rendering() {
    assert_eq!(u64_to_hex(0), "0x0");
    assert_eq!(u64_to_hex(255), "0xff");
    assert_eq!(0xdead_beef_u64.as_hex(), "0xdeadbeef");
}

#[test]
fn as_some_wraps() {
    assert_eq!(5u64.as_some(), Some(5u64));
    assert_eq!("x".to_string().as_some(), Some("x".to_string()));
}

#[test]
fn db_set_get_remove() {
    let mut db = BindDB { binds: vec![] };
    db.set(&"foo".to_string(), Bind::Unverified(1));
    db.set(&"bar".to_string(), Bind::Verified(2));
    assert_eq!(lookup(&db, "foo"), Some(&Bind::Unverified(1)));
    db.set(&"foo".to_string(), Bind::Verified(3));
    assert_eq!(lookup(&db, "foo"), Some(&Bind::Verified(3)));
    assert_eq!(db.binds.len(), 2);
    db.remove_name(&"foo".to_string());
    assert_eq!(lookup(&db, "foo"), None);
    assert_eq!(lookup(&db, "bar"), Some(&Bind::Verified(2)));
}

#[test]
fn strip_removes_only_unverified() {
    let mut db = BindDB {
        binds: vec![
            entry("a", Bind::Verified(1)),
            entry("b", Bind::Unverified(2)),
            entry("c", Bind::Not(vec![3])),
            entry("d", Bind::Inline),
            entry("e", Bind::Unverified(5)),
        ],
    };
    db.strip();
    assert_eq!(db.binds.len(), 3);
    assert_eq!(lookup(&db, "a"), Some(&Bind::Verified(1)));
    assert_eq!(lookup(&db, "b"), None);
    assert_eq!(lookup(&db, "c"), Some(&Bind::Not(vec![3])));
    assert_eq!(lookup(&db, "d"), Some(&Bind::Inline));
    assert_eq!(lookup(&db, "e"), None);
}

#[test]
fn addr_to_block_resolves_through_function() {
    let b1 = block(0x200, 0x100, vec![], Branch::Return, vec![]);
    let b2 = block(0x210, 0x100, vec![], Branch::Return, vec!["hi"]);
    let db = ExecDB {
        fns: vec![func(Some("f"), 0x100, vec![b1, b2], vec![])],
        vtables: vec![],
        strings: vec![],
    };
    let found = db.addr_to_block(&addr(0x214, 0x210, 0x100)).expect("block");
    assert_eq!(found.strings, vec!["hi".to_string()]);
    assert!(db.addr_to_block(&addr(0x214, 0x220, 0x100)).is_none());
    assert!(db.addr_to_block(&addr(0x214, 0x210, 0x999)).is_none());
}

#[test]
fn seeding_empty_vtables_yields_empty_db() {
    let pair = ExecPair {
        input: ExecDB { fns: vec![], vtables: vec![], strings: vec![] },
        output: ExecDB { fns: vec![], vtables: vec![], strings: vec![] },
    };
    let db = BindDB::new(&pair);
    assert_eq!(db.binds.len(), 0);
}

fn seed_pair() -> ExecPair {
    let input = ExecDB {
        fns: vec![
            func(Some("ctor"), 0x100, vec![], vec![]),
            func(Some("dtor"), 0x110, vec![], vec![]),
            func(None, 0x120, vec![], vec![]),
        ],
        vtables: vec![Vtable {
            name: "Widget".to_string(),
            address: 0x900,
            function_addrs: vec![0x100, 0x110, 0x120, 0x130],
        }],
        strings: vec![],
    };
    let output = ExecDB {
        fns: vec![],
        vtables: vec![Vtable {
            name: "Widget".to_string(),
            address: 0x1900,
            function_addrs: vec![0x1100, 0x1110, 0x1120],
        }],
        strings: vec![],
    };
    ExecPair { input, output }
}

#[test]
fn seeding_zips_common_prefix_of_named_methods() {
    let db = BindDB::new(&seed_pair());
    assert_eq!(db.binds.len(), 2);
    assert_eq!(lookup(&db, "ctor"), Some(&Bind::Verified(0x1100)));
    assert_eq!(lookup(&db, "dtor"), Some(&Bind::Verified(0x1110)));
}

#[test]
fn seeding_twice_yields_the_same_db() {
    let once = BindDB::new(&seed_pair());
    let again = BindDB::new(&seed_pair());
    assert_eq!(once.binds.len(), again.binds.len());
    for e in &once.binds {
        assert_eq!(lookup(&again, &e.name), Some(&e.bind));
    }
}

#[test]
fn seeding_skips_classes_absent_from_the_output() {
    let mut pair = seed_pair();
    pair.output.vtables[0].name = "Other".to_string();
    let db = BindDB::new(&pair);
    assert_eq!(db.binds.len(), 0);
}
