use satis::atom::Registry;
use satis::items::item::{Item, ItemDomain};
use satis::items::machine::{Machine, MachineDomain};

fn names(list: &[&str]) -> Vec<String> {
    list.iter().map(|s| s.to_string()).collect()
}

#[test]
fn idempotent_registration() {
    let mut reg: Registry<ItemDomain> = Registry::with_seed(7);
    reg.register(&names(&["iron_ingot", "iron_ingot", "copper_ingot"]));
    assert_eq!(reg.len(), 2);

    let first = reg.lookup("iron_ingot").unwrap().id();
    reg.register(&names(&["iron_ingot"]));
    assert_eq!(reg.len(), 2);
    let second = reg.lookup("iron_ingot").unwrap().id();
    assert_eq!(first, second);
}

#[test]
fn distinct_values_distinct_ids() {
    let mut reg: Registry<ItemDomain> = Registry::with_seed(1);
    reg.register(&names(&["a", "b", "c"]));
    let a = reg.lookup("a").unwrap().id();
    let b = reg.lookup("b").unwrap().id();
    let c = reg.lookup("c").unwrap().id();
    assert_ne!(a, b);
    assert_ne!(a, c);
    assert_ne!(b, c);
}

#[test]
fn round_trip() {
    let mut reg: Registry<ItemDomain> = Registry::with_seed(3);
    reg.register(&names(&["iron_ingot", "copper_ingot"]));
    for name in ["iron_ingot", "copper_ingot"] {
        let handle = Item::new(&reg, name).unwrap();
        assert_eq!(handle.cloned(&reg), name.to_string());
    }
}

#[test]
fn bijection_counts() {
    let mut reg: Registry<ItemDomain> = Registry::with_seed(11);
    reg.register(&names(&["a", "b", "c", "d"]));
    assert_eq!(reg.len(), 4);
    for name in ["a", "b", "c", "d"] {
        let atom = reg.lookup(name).unwrap();
        let back = reg.peek_value(atom).unwrap();
        assert_eq!(back, name);
    }
}

#[test]
fn scenario_register_construct_fail() {
    let mut reg: Registry<ItemDomain> = Registry::with_seed(5);
    reg.register(&names(&["iron_ingot", "copper_ingot"]));

    let iron = Item::new(&reg, "iron_ingot").unwrap();
    assert_eq!(iron.cloned(&reg), "iron_ingot".to_string());

    let gold = Item::new(&reg, "gold_ingot");
    match gold {
        Err(e) => assert_eq!(e.0, "gold_ingot".to_string()),
        Ok(_) => panic!("an unregistered name must be rejected"),
    }
}

#[test]
fn register_empty_is_noop() {
    let mut reg: Registry<ItemDomain> = Registry::with_seed(9);
    reg.register(&names(&["x"]));
    reg.register(&Vec::new());
    assert_eq!(reg.len(), 1);
}

#[test]
fn lookup_unknown_is_absent() {
    let reg: Registry<ItemDomain> = Registry::with_seed(2);
    assert!(reg.lookup("nothing").is_none());
}

#[test]
fn peek_foreign_atom_is_absent() {
    let mut reg1: Registry<ItemDomain> = Registry::with_seed(4);
    reg1.register(&names(&["iron_ingot"]));
    let atom = reg1.lookup("iron_ingot").unwrap();

    let reg2: Registry<ItemDomain> = Registry::with_seed(4);
    assert!(reg2.peek_value(atom).is_none());
}

#[test]
fn entropy_seeded_registry_works_too() {
    let mut reg: Registry<ItemDomain> = Registry::new();
    reg.register(&names(&["iron_ingot"]));
    assert_eq!(reg.len(), 1);
    assert!(reg.lookup("iron_ingot").is_some());
}

#[test]
fn machine_domain_has_its_own_registry() {
    let mut items: Registry<ItemDomain> = Registry::with_seed(8);
    let mut machines: Registry<MachineDomain> = Registry::with_seed(8);
    items.register(&names(&["iron_ingot"]));
    machines.register(&names(&["smelter"]));

    let m = Machine::new(&machines, "smelter").unwrap();
    assert_eq!(m.cloned(&machines), "smelter".to_string());

    match Machine::new(&machines, "iron_ingot") {
        Err(e) => assert_eq!(e.0, "iron_ingot".to_string()),
        Ok(_) => panic!("item names are not machine names"),
    }
}

#[test]
fn error_messages_carry_the_input() {
    let reg: Registry<ItemDomain> = Registry::with_seed(6);
    let err = Item::new(&reg, "gold_ingot").unwrap_err();
    assert_eq!(err.message(), "Unrecognized item name gold_ingot".to_string());

    let machines: Registry<MachineDomain> = Registry::with_seed(6);
    let merr = Machine::new(&machines, "foundry").unwrap_err();
    assert_eq!(
        merr.message(),
        "Unrecognized machine name foundry".to_string()
    );
}
