use asset_ledger::collections::{Error, Event, Pallet, DESTROY_LIMIT};
use asset_ledger::games::Origin;

const A: u64 = 1;
const B: u64 = 2;

fn bytes(s: &str) -> Vec<u8> {
    s.as_bytes().to_vec()
}

#[test]
fn minting_twice_adds_up() {
    let mut p = Pallet::new(64);
    assert_eq!(p.mint(Origin::Signed(A), bytes("armory"), bytes("sword"), A, 10), Ok(()));
    assert_eq!(p.mint(Origin::Signed(A), bytes("armory"), bytes("sword"), A, 10), Ok(()));
    assert_eq!(p.total_supply(&bytes("armory"), &bytes("sword")), Some(20));
    assert_eq!(p.balance(&bytes("armory"), A, &bytes("sword")), Some(20));
}

#[test]
fn supply_equals_sum_of_balances() {
    let mut p = Pallet::new(64);
    assert_eq!(p.mint(Origin::Signed(B), bytes("armory"), bytes("sword"), A, 7), Ok(()));
    assert_eq!(p.mint(Origin::Signed(B), bytes("armory"), bytes("sword"), B, 5), Ok(()));
    assert_eq!(p.mint(Origin::Signed(B), bytes("armory"), bytes("shield"), B, 3), Ok(()));
    assert_eq!(p.mint(Origin::Signed(B), bytes("vault"), bytes("sword"), A, 1), Ok(()));
    assert_eq!(p.total_supply(&bytes("armory"), &bytes("sword")), Some(12));
    assert_eq!(p.balance(&bytes("armory"), A, &bytes("sword")), Some(7));
    assert_eq!(p.balance(&bytes("armory"), B, &bytes("sword")), Some(5));
    assert_eq!(p.total_supply(&bytes("armory"), &bytes("shield")), Some(3));
    assert_eq!(p.balance(&bytes("armory"), A, &bytes("shield")), None);
    assert_eq!(p.total_supply(&bytes("vault"), &bytes("sword")), Some(1));
    assert_eq!(p.total_supply(&bytes("vault"), &bytes("shield")), None);
}

#[test]
fn mint_errors() {
    let mut p = Pallet::new(64);
    assert_eq!(p.mint(Origin::Unsigned, bytes("armory"), bytes("sword"), A, 1), Err(Error::BadOrigin));
    assert_eq!(p.mint(Origin::Signed(A), Vec::new(), bytes("sword"), A, 1), Err(Error::CollectionIsEmpty));
    assert_eq!(p.mint(Origin::Signed(A), bytes("armory"), Vec::new(), A, 1), Err(Error::AssetIsEmpty));
    assert_eq!(p.mint(Origin::Signed(A), Vec::new(), Vec::new(), A, 1), Err(Error::CollectionIsEmpty));
    assert_eq!(p.total_supply(&bytes("armory"), &bytes("sword")), None);
}

#[test]
fn mint_of_zero_makes_records() {
    let mut p = Pallet::new(64);
    assert_eq!(p.mint(Origin::Signed(A), bytes("armory"), bytes("sword"), B, 0), Ok(()));
    assert_eq!(p.total_supply(&bytes("armory"), &bytes("sword")), Some(0));
    assert_eq!(p.balance(&bytes("armory"), B, &bytes("sword")), Some(0));
}

#[test]
fn mint_up_to_the_largest_quantity() {
    let mut p = Pallet::new(64);
    assert_eq!(p.mint(Origin::Signed(A), bytes("c"), bytes("x"), A, u32::MAX - 1), Ok(()));
    assert_eq!(p.mint(Origin::Signed(A), bytes("c"), bytes("x"), A, 1), Ok(()));
    assert_eq!(p.total_supply(&bytes("c"), &bytes("x")), Some(u32::MAX));
}

#[test]
fn destroy_removes_at_most_the_limit() {
    let mut p = Pallet::new(64);
    for i in 0..12u8 {
        assert_eq!(p.mint(Origin::Signed(A), bytes("armory"), vec![b'a', i], A, 1), Ok(()));
    }
    assert_eq!(p.mint(Origin::Signed(A), bytes("vault"), bytes("coin"), B, 4), Ok(()));
    assert_eq!(p.remaining_in_collection(&bytes("armory")), 12);
    assert_eq!(p.destroy_collection(Origin::Signed(A), bytes("armory")), Ok(()));
    assert_eq!(p.remaining_in_collection(&bytes("armory")), 12 - DESTROY_LIMIT as usize);
    assert_eq!(p.total_supply(&bytes("armory"), &vec![b'a', 0]), None);
    assert_eq!(p.total_supply(&bytes("armory"), &vec![b'a', 9]), None);
    assert_eq!(p.total_supply(&bytes("armory"), &vec![b'a', 10]), Some(1));
    assert_eq!(p.total_supply(&bytes("vault"), &bytes("coin")), Some(4));
    assert_eq!(p.balance(&bytes("armory"), A, &vec![b'a', 0]), Some(1));
    assert_eq!(p.destroy_collection(Origin::Signed(A), bytes("armory")), Ok(()));
    assert_eq!(p.remaining_in_collection(&bytes("armory")), 0);
    assert_eq!(p.remaining_in_collection(&bytes("vault")), 1);
    assert_eq!(p.destroy_collection(Origin::Unsigned, bytes("vault")), Err(Error::BadOrigin));
    assert_eq!(p.remaining_in_collection(&bytes("vault")), 1);
}

#[test]
fn destroy_of_unknown_collection_is_harmless() {
    let mut p = Pallet::new(64);
    assert_eq!(p.mint(Origin::Signed(A), bytes("armory"), bytes("sword"), A, 2), Ok(()));
    assert_eq!(p.destroy_collection(Origin::Signed(A), bytes("arm")), Ok(()));
    assert_eq!(p.total_supply(&bytes("armory"), &bytes("sword")), Some(2));
}

#[test]
fn set_value_records_previous() {
    let mut p = Pallet::new(64);
    assert_eq!(p.value(), None);
    assert_eq!(p.set_value(Origin::Signed(A), 5), Ok(()));
    assert_eq!(p.set_value(Origin::Signed(B), 8), Ok(()));
    assert_eq!(p.set_value(Origin::Unsigned, 9), Err(Error::BadOrigin));
    assert_eq!(p.value(), Some(8));
    assert_eq!(
        p.events().clone(),
        vec![
            Event::ValueUpdated { owner: A, old: 0, new: 5 },
            Event::ValueUpdated { owner: B, old: 5, new: 8 },
        ]
    );
}
