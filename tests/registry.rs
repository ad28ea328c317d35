use kitties::{combine_dna, random_value, Entropy, Error, Kitty, Module};

fn entropy(index: u32) -> Entropy {
    Entropy { random_seed: [3u8; 32], extrinsic_index: Some(index) }
}

#[test]
fn scenario_create_create_breed() {
    let mut m = Module::new(0);
    let a = 10;
    assert_eq!(m.create(a, &entropy(0), true), Ok(0));
    assert_eq!(m.create(a, &entropy(1), true), Ok(1));
    assert_eq!(m.breed(a, 0, 1, &entropy(2), true), Ok(2));
    assert_eq!(m.kitty_owner(2), Some(a));
    assert_eq!(m.account_kitties(a), vec![0, 1, 2]);
    assert_eq!(m.kitty_parents(2), (0, 1));
}

#[test]
fn start_offset_is_first_identifier() {
    let mut m = Module::new(5);
    assert_eq!(m.next_kitty_id(), Ok(5));
    assert_eq!(m.create(1, &entropy(0), true), Ok(5));
    assert_eq!(m.kitties_count(), 6);
    assert_eq!(m.next_kitty_id(), Ok(6));
}

#[test]
fn counter_overflow_is_reported() {
    let mut m = Module::new(u32::MAX);
    assert_eq!(m.next_kitty_id(), Err(Error::CounterOverflow));
    assert_eq!(m.create(1, &entropy(0), true), Err(Error::CounterOverflow));
    assert_eq!(m.account_kitties(1), Vec::<u32>::new());
    assert_eq!(m.kitties_count(), 0);
}

#[test]
fn last_identifier_then_overflow() {
    let mut m = Module::new(u32::MAX - 1);
    assert_eq!(m.create(1, &entropy(0), true), Ok(u32::MAX - 1));
    assert_eq!(m.create(1, &entropy(1), true), Err(Error::CounterOverflow));
    assert_eq!(m.account_kitties(1), vec![u32::MAX - 1]);
}

#[test]
fn create_without_stake_changes_nothing() {
    let mut m = Module::new(0);
    assert_eq!(m.create(1, &entropy(0), false), Err(Error::InsufficientBalance));
    assert_eq!(m.kitties_count(), 0);
    assert_eq!(m.kitties(0), None);
    assert_eq!(m.account_kitties(1), Vec::<u32>::new());
}

#[test]
fn breed_without_stake_changes_nothing() {
    let mut m = Module::new(0);
    assert!(m.create(1, &entropy(0), true).is_ok());
    assert!(m.create(1, &entropy(1), true).is_ok());
    assert_eq!(m.breed(1, 0, 1, &entropy(2), false), Err(Error::InsufficientBalance));
    assert_eq!(m.kitties_count(), 2);
    assert_eq!(m.kitty_children(0), Vec::<u32>::new());
    assert_eq!(m.kitty_mate(0, 1), None);
}

#[test]
fn transfer_of_missing_kitty_fails() {
    let mut m = Module::new(0);
    assert_eq!(m.transfer(1, 2, 0, true), Err(Error::InvalidEntityId));
    assert_eq!(m.can_transfer(1, 0), Err(Error::InvalidEntityId));
}

#[test]
fn failed_payment_keeps_owner() {
    let mut m = Module::new(0);
    assert!(m.create(1, &entropy(0), true).is_ok());
    assert_eq!(m.can_transfer(1, 0), Ok(()));
    assert_eq!(m.transfer(1, 2, 0, false), Err(Error::TransferFailure));
    assert_eq!(m.kitty_owner(0), Some(1));
    assert_eq!(m.account_kitties(1), vec![0]);
    assert_eq!(m.account_kitties(2), Vec::<u32>::new());
}

#[test]
fn unauthorized_transfer_changes_nothing() {
    let mut m = Module::new(0);
    assert!(m.create(1, &entropy(0), true).is_ok());
    assert!(m.create(2, &entropy(1), true).is_ok());
    assert_eq!(m.can_transfer(3, 0), Err(Error::NotOwner));
    assert_eq!(m.transfer(3, 2, 0, true), Err(Error::NotOwner));
    assert_eq!(m.kitty_owner(0), Some(1));
    assert_eq!(m.account_kitties(1), vec![0]);
    assert_eq!(m.account_kitties(2), vec![1]);
}

#[test]
fn transfer_moves_kitty_between_lists() {
    let mut m = Module::new(0);
    for i in 0..3 {
        assert!(m.create(1, &entropy(i), true).is_ok());
    }
    assert!(m.create(2, &entropy(3), true).is_ok());
    assert_eq!(m.transfer(1, 2, 1, true), Ok(()));
    assert_eq!(m.kitty_owner(1), Some(2));
    assert_eq!(m.account_kitties(1), vec![0, 2]);
    assert_eq!(m.account_kitties(2), vec![3, 1]);
}

#[test]
fn transfer_to_self_keeps_one_entry() {
    let mut m = Module::new(0);
    assert!(m.create(1, &entropy(0), true).is_ok());
    assert!(m.create(1, &entropy(1), true).is_ok());
    assert_eq!(m.transfer(1, 1, 0, true), Ok(()));
    assert_eq!(m.account_kitties(1), vec![1, 0]);
}

#[test]
fn create_uses_random_value_as_dna() {
    let mut m = Module::new(0);
    let e = entropy(4);
    assert_eq!(m.create(7, &e, true), Ok(0));
    assert_eq!(m.kitties(0), Some(Kitty(random_value(7, &e))));
}

#[test]
fn random_value_is_blake2_of_encoded_payload() {
    let e = Entropy { random_seed: [7u8; 32], extrinsic_index: Some(2) };
    assert_eq!(
        random_value(1, &e),
        [138, 91, 113, 187, 31, 138, 145, 255, 215, 175, 94, 47, 102, 30, 73, 195]
    );
    let e = Entropy { random_seed: [0u8; 32], extrinsic_index: None };
    assert_eq!(
        random_value(1, &e),
        [94, 85, 93, 3, 146, 178, 228, 254, 65, 171, 235, 35, 69, 153, 176, 209]
    );
}

#[test]
fn combine_dna_takes_bits_by_selector() {
    assert_eq!(combine_dna(0b1100_1010, 0b0101_0101, 0b1111_0000), 0b1100_0101);
    assert_eq!(combine_dna(0xAB, 0xCD, 0xFF), 0xAB);
    assert_eq!(combine_dna(0xAB, 0xCD, 0x00), 0xCD);
}

#[test]
fn do_breed_mixes_parent_dna() {
    let mut m = Module::new(0);
    assert!(m.create(1, &entropy(0), true).is_ok());
    assert!(m.create(1, &entropy(1), true).is_ok());
    let d0 = m.kitties(0).unwrap().0;
    let d1 = m.kitties(1).unwrap().0;
    let mut selector = [0u8; 16];
    for i in 0..16 {
        selector[i] = if i % 2 == 0 { 0xFF } else { 0x0F };
    }
    assert_eq!(m.do_breed(1, 0, 1, selector, true), Ok(2));
    let child = m.kitties(2).unwrap().0;
    for i in 0..16 {
        let expected = if i % 2 == 0 { d0[i] } else { (d0[i] & 0x0F) | (d1[i] & 0xF0) };
        assert_eq!(child[i], expected);
    }
}

#[test]
fn breed_records_lineage() {
    let mut m = Module::new(0);
    assert!(m.create(1, &entropy(0), true).is_ok());
    assert!(m.create(1, &entropy(1), true).is_ok());
    assert_eq!(m.breed(1, 1, 0, &entropy(2), true), Ok(2));
    assert_eq!(m.kitty_parents(2), (1, 0));
    assert_eq!(m.kitty_parents(0), (0, 0));
    assert_eq!(m.kitty_children(0), vec![2]);
    assert_eq!(m.kitty_children(1), vec![2]);
    assert_eq!(m.kitty_mate(1, 0), Some(1));
    assert_eq!(m.kitty_mate(0, 1), None);
    assert_eq!(m.kitties_count(), 3);
}

#[test]
fn breed_with_missing_parent_and_same_parent() {
    let mut m = Module::new(0);
    assert_eq!(m.breed(1, 4, 4, &entropy(0), true), Err(Error::InvalidEntityId));
    assert!(m.create(1, &entropy(0), true).is_ok());
    assert_eq!(m.breed(1, 0, 0, &entropy(1), true), Err(Error::RequireDifferentParents));
}

#[test]
fn can_breed_reports_what_breed_would() {
    let mut m = Module::new(0);
    assert_eq!(m.can_breed(0, 1), Err(Error::InvalidEntityId));
    assert!(m.create(1, &entropy(0), true).is_ok());
    assert!(m.create(1, &entropy(1), true).is_ok());
    assert_eq!(m.can_breed(0, 0), Err(Error::RequireDifferentParents));
    assert_eq!(m.can_breed(0, 1), Ok(2));
    assert_eq!(m.kitties_count(), 2);
}
