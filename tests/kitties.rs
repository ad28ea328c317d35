use kitties::{Entropy, Error, Module};

fn entropy() -> Entropy {
    Entropy { random_seed: [9u8; 32], extrinsic_index: None }
}

fn new_registry() -> Module {
    Module::new(0)
}

#[test]
fn owned_kitties_can_append_values() {
    let mut m = new_registry();
    assert_eq!(m.create(1, &entropy(), true), Ok(0));
    assert_eq!(m.kitty_owner(0), Some(1));
}

#[test]
fn breed_kitties() {
    let mut m = new_registry();
    assert_eq!(m.create(1, &entropy(), true), Ok(0));
    assert_eq!(m.create(1, &entropy(), true), Ok(1));
    assert_eq!(m.breed(1, 0, 1, &entropy(), true), Ok(2));
    assert_eq!(m.kitty_owner(2), Some(1));
}

#[test]
fn breed_kitties_not_found() {
    let mut m = new_registry();
    assert_eq!(m.create(1, &entropy(), true), Ok(0));
    assert_eq!(m.breed(1, 0, 1, &entropy(), true), Err(Error::InvalidEntityId));
    assert_eq!(m.kitties_count(), 1);
    assert_eq!(m.account_kitties(1), vec![0]);
}

#[test]
fn breed_kitties_id_eq() {
    let mut m = new_registry();
    assert_eq!(m.create(1, &entropy(), true), Ok(0));
    assert_eq!(m.breed(1, 0, 0, &entropy(), true), Err(Error::RequireDifferentParents));
    assert_eq!(m.kitties_count(), 1);
    assert_eq!(m.account_kitties(1), vec![0]);
}

#[test]
fn breed_kitties_account_owned_kitties() {
    let mut m = new_registry();
    assert_eq!(m.create(1, &entropy(), true), Ok(0));
    assert_eq!(m.create(1, &entropy(), true), Ok(1));
    assert!(m.breed(1, 0, 1, &entropy(), true).is_ok());
    assert_eq!(m.account_kitties(1).len(), 3);
}

#[test]
fn transfer_kitties() {
    let mut m = new_registry();
    assert!(m.create(1, &entropy(), true).is_ok());
    assert_eq!(m.transfer(1, 2, 0, true), Ok(()));
    assert_eq!(m.kitty_owner(0), Some(2));
}

#[test]
fn transfer_kitties_not_owner() {
    let mut m = new_registry();
    assert!(m.create(1, &entropy(), true).is_ok());
    assert_eq!(m.transfer(2, 1, 0, true), Err(Error::NotOwner));
    assert_eq!(m.kitty_owner(0), Some(1));
    assert_eq!(m.account_kitties(1), vec![0]);
    assert_eq!(m.account_kitties(2), Vec::<u32>::new());
}

#[test]
fn account_owned_kitties() {
    let mut m = new_registry();
    assert_eq!(m.create(1, &entropy(), true), Ok(0));
    assert_eq!(m.account_kitties(1).contains(&0), true);
    assert_eq!(m.create(1, &entropy(), true), Ok(1));
    assert_eq!(m.create(1, &entropy(), true), Ok(2));
    assert_eq!(m.breed(1, 1, 2, &entropy(), true), Ok(3));
    assert_eq!(m.account_kitties(1).len(), 4);
}

#[test]
fn transfer_kitties_validate_account_count() {
    let mut m = new_registry();
    assert!(m.create(1, &entropy(), true).is_ok());
    assert!(m.transfer(1, 2, 0, true).is_ok());
    assert_eq!(m.account_kitties(1).len(), 0);
    assert_eq!(m.account_kitties(2).len(), 1);
}

#[test]
fn kitty_parent_children_count() {
    let mut m = new_registry();
    assert!(m.create(1, &entropy(), true).is_ok());
    assert!(m.create(1, &entropy(), true).is_ok());
    assert!(m.breed(1, 0, 1, &entropy(), true).is_ok());
    assert!(m.breed(1, 0, 1, &entropy(), true).is_ok());
    assert!(m.create(1, &entropy(), true).is_ok());
    assert!(m.breed(1, 2, 4, &entropy(), true).is_ok());
    assert_eq!(m.kitty_parents(2), (0, 1));
    assert_eq!(m.kitty_children(0).len(), 2);
    assert_eq!(m.kitty_mate(0, 1), Some(0));
    assert_eq!(m.kitty_mate(2, 4), Some(2));
}
