use satis::atom::Registry;
use satis::items::amount::{Amount, AmountError};
use satis::items::item::{Item, ItemDomain, ItemStack, ItemStacks};

fn setup() -> (Registry<ItemDomain>, Item, Item) {
    let mut reg: Registry<ItemDomain> = Registry::with_seed(42);
    reg.register(&vec!["iron_ingot".to_string(), "copper_ingot".to_string()]);
    let iron = Item::new(&reg, "iron_ingot").unwrap();
    let copper = Item::new(&reg, "copper_ingot").unwrap();
    (reg, iron, copper)
}

fn amt(v: i64) -> Amount {
    Amount::new(v).unwrap()
}

#[test]
fn amount_construction() {
    assert_eq!(amt(5).raw(), 5);
    assert_eq!(amt(0).raw(), 0);
    match Amount::new(-3) {
        Err(AmountError(v)) => assert_eq!(v, -3),
        Ok(_) => panic!("a negative raw value must be rejected"),
    }
}

#[test]
fn quantity_closure() {
    let a = amt(7);
    let b = amt(5);
    assert_eq!(a.add(b).raw(), 12);
    assert_eq!(a.multiply(b).raw(), 35);

    let d = a.checked_sub(b).unwrap();
    assert_eq!(d.raw(), 2);
    assert_eq!(d.add(b), a);

    assert!(b.checked_sub(a).is_none());
    assert!(a.checked_sub(a).is_some());
    assert_eq!(a.checked_sub(a).unwrap(), Amount::zero());
}

#[test]
fn amount_units() {
    assert_eq!(Amount::zero().raw(), 0);
    assert!(Amount::zero().is_zero());
    assert_eq!(Amount::one().raw(), 1);
    assert!(!Amount::one().is_zero());
}

#[test]
fn scenario_partial_then_failing_removal() {
    let (_reg, iron, _copper) = setup();
    let mut set = ItemStacks::empty();
    set.insert_one(ItemStack(iron, amt(5)));

    assert!(set.try_remove_one(ItemStack(iron, amt(3))).is_ok());
    assert_eq!(set.get(iron), Some(amt(2)));

    assert!(set.try_remove_one(ItemStack(iron, amt(10))).is_err());
    assert_eq!(set.get(iron), Some(amt(2)));
    assert_eq!(set.len(), 1);
}

#[test]
fn scenario_pruned_at_zero() {
    let (_reg, iron, _copper) = setup();
    let mut set = ItemStacks::empty();
    set.insert_one(ItemStack(iron, amt(2)));
    assert!(set.try_remove_one(ItemStack(iron, amt(2))).is_ok());
    assert_eq!(set.get(iron), None);
    assert_eq!(set.len(), 0);
}

#[test]
fn no_zero_entries_after_any_mutation() {
    let (_reg, iron, copper) = setup();
    let mut set = ItemStacks::empty();
    set.insert_one(ItemStack(iron, amt(0)));
    assert_eq!(set.len(), 0);

    set.insert_one(ItemStack(iron, amt(4)));
    set.insert_one(ItemStack(copper, amt(1)));
    set.insert_one(ItemStack(copper, amt(0)));
    assert!(set.try_remove_one(ItemStack(copper, amt(1))).is_ok());
    assert!(set.try_remove_one(ItemStack(iron, amt(1))).is_ok());

    for stack in set.stacks_iter() {
        assert!(!stack.1.is_zero());
    }
    assert_eq!(set.len(), 1);
    assert_eq!(set.get(iron), Some(amt(3)));
    assert_eq!(set.get(copper), None);
}

#[test]
fn removing_zero_of_an_absent_item_succeeds() {
    let (_reg, iron, _copper) = setup();
    let mut set = ItemStacks::empty();
    assert!(set.try_remove_one(ItemStack(iron, amt(0))).is_ok());
    assert_eq!(set.len(), 0);
}

#[test]
fn merging_adds_quantities() {
    let (_reg, iron, copper) = setup();
    let mut a = ItemStacks::empty();
    a.insert_one(ItemStack(iron, amt(2)));
    a.insert_one(ItemStack(copper, amt(1)));

    let mut b = ItemStacks::empty();
    b.insert_one(ItemStack(iron, amt(3)));

    a.insert(&b);
    assert_eq!(a.get(iron), Some(amt(5)));
    assert_eq!(a.get(copper), Some(amt(1)));
    assert_eq!(a.len(), 2);
}

#[test]
fn batch_removal_is_all_or_nothing() {
    let (_reg, iron, copper) = setup();
    let mut set = ItemStacks::empty();
    set.insert_one(ItemStack(iron, amt(5)));
    set.insert_one(ItemStack(copper, amt(1)));

    let mut too_much = ItemStacks::empty();
    too_much.insert_one(ItemStack(iron, amt(2)));
    too_much.insert_one(ItemStack(copper, amt(4)));

    assert!(set.try_remove(&too_much).is_err());
    assert_eq!(set.get(iron), Some(amt(5)));
    assert_eq!(set.get(copper), Some(amt(1)));

    let mut fits = ItemStacks::empty();
    fits.insert_one(ItemStack(iron, amt(2)));
    fits.insert_one(ItemStack(copper, amt(1)));

    assert!(set.try_remove(&fits).is_ok());
    assert_eq!(set.get(iron), Some(amt(3)));
    assert_eq!(set.get(copper), None);
    assert_eq!(set.len(), 1);
}

#[test]
fn building_from_stacks_merges_and_prunes() {
    let (_reg, iron, copper) = setup();
    let set = ItemStacks::new(vec![
        ItemStack(iron, amt(2)),
        ItemStack(iron, amt(3)),
        ItemStack(copper, amt(0)),
    ]);
    assert_eq!(set.get(iron), Some(amt(5)));
    assert_eq!(set.get(copper), None);
    assert_eq!(set.len(), 1);
}

#[test]
fn stacks_iter_lists_each_item_once() {
    let (_reg, iron, copper) = setup();
    let mut set = ItemStacks::empty();
    set.insert_one(ItemStack(iron, amt(4)));
    set.insert_one(ItemStack(copper, amt(6)));

    let listed = set.stacks_iter();
    assert_eq!(listed.len(), 2);
    let mut seen_iron = false;
    let mut seen_copper = false;
    for stack in listed {
        if stack.0 == iron {
            assert_eq!(stack.1, amt(4));
            seen_iron = true;
        } else if stack.0 == copper {
            assert_eq!(stack.1, amt(6));
            seen_copper = true;
        } else {
            panic!("an item that was never inserted was listed");
        }
    }
    assert!(seen_iron && seen_copper);
}
