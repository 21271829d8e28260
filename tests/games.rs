use asset_ledger::games::{Error, Event, Game, Origin, Pallet, Payment, MAX_GAMES_OWNED};
use asset_ledger::hashing::ExecutionContext;

const ALICE: u64 = 1;
const BOB: u64 = 2;

const DEFAULT_GAME: Game = Game { key_data: [0u8; 32], owner: 0, value: None };

fn genesis() -> ExecutionContext {
    ExecutionContext { parent_hash: [0u8; 32], block_number: 0, extrinsic_index: None }
}

fn new_test_ext() -> Pallet {
    Pallet::new(genesis())
}

fn at_block(n: u64) -> ExecutionContext {
    ExecutionContext { parent_hash: [0u8; 32], block_number: n, extrinsic_index: None }
}

#[test]
fn verify_signed_origin_for_game_creation() {
    let mut p = new_test_ext();
    assert_eq!(p.create_game(Origin::Signed(ALICE)), Ok(()));
    let count = p.game_count();
    assert_eq!(p.create_game(Origin::Unsigned), Err(Error::BadOrigin));
    assert_eq!(p.game_count(), count);
    assert_eq!(p.game_keys().len(), 1);
}

#[test]
fn event_emitted_on_game_creation() {
    let mut p = new_test_ext();
    p.set_context(at_block(1));
    assert_eq!(p.create_game(Origin::Signed(ALICE)), Ok(()));
    let last_event = p.last_event().expect("Event expected");
    match last_event {
        Event::GameCreated { owner, .. } => {
            assert_eq!(owner, ALICE);
        },
        _ => panic!("unexpected event"),
    }
}

#[test]
fn game_counter_increases_correctly() {
    let mut p = new_test_ext();
    assert_eq!(p.game_count(), u32::default());
    p.set_game_count(1337u32);
    assert_eq!(p.game_count(), 1337u32);
    p.set_game_count(1336u32);
    assert_ne!(p.game_count(), 1337u32);
    assert_eq!(p.game_count(), 1336u32);
}

#[test]
fn test_game_counter_increment_on_game_creation() {
    let mut p = new_test_ext();
    assert_eq!(p.game_count(), u32::default());
    p.set_context(at_block(1));
    assert_eq!(p.mint(ALICE, [0u8; 32]), Ok(()));
    assert_eq!(p.game_count(), 1);
}

#[test]
fn validate_game_added_to_map_on_creation() {
    let mut p = new_test_ext();
    let zero_key = [0u8; 32];
    assert!(!p.contains_game(zero_key));
    assert_eq!(p.mint(DEFAULT_GAME.owner, DEFAULT_GAME.key_data), Ok(()));
    assert!(p.contains_game(zero_key));
    assert_eq!(p.game(zero_key), Some(DEFAULT_GAME));
}

#[test]
fn game_map_increments_on_successful_creation() {
    let mut p = new_test_ext();
    assert_eq!(p.create_game(Origin::Signed(ALICE)), Ok(()));
    assert_eq!(p.game_keys().len(), 1);
}

#[test]
fn prevent_duplicate_game_creation() {
    let mut p = new_test_ext();
    assert_eq!(p.mint(ALICE, [0u8; 32]), Ok(()));
    assert_eq!(p.game_keys().len(), 1);
    assert_eq!(p.mint(BOB, [0u8; 32]), Err(Error::DuplicatedGame));
    assert_eq!(p.game_keys().len(), 1);
    assert_eq!(p.game_count(), 1);
    assert_eq!(p.games_owned_by(BOB).len(), 0);
}

#[test]
fn verify_owner_in_game_struct_after_creation() {
    let mut p = new_test_ext();
    assert_eq!(p.mint(1337, [42u8; 32]), Ok(()));
    let game = p.game([42u8; 32]).unwrap();
    assert_eq!(game.owner, 1337);
    assert_eq!(game.key_data, [42u8; 32]);
}

#[test]
fn validate_multiple_games_owned_by_user() {
    let mut p = new_test_ext();
    assert_eq!(p.games_owned_by(ALICE).len(), 0);
    assert_eq!(p.create_game(Origin::Signed(ALICE)), Ok(()));
    assert_eq!(p.create_game(Origin::Signed(ALICE)), Ok(()));
    assert_eq!(p.games_owned_by(ALICE).len(), 2);
}

#[test]
fn prevent_user_from_owning_too_many_games() {
    let mut p = new_test_ext();
    for _ in 0..100 {
        assert_eq!(p.create_game(Origin::Signed(ALICE)), Ok(()));
    }
    assert_eq!(p.create_game(Origin::Signed(1)), Err(Error::TooManyGamesOwned));
}

#[test]
fn transfer_game_emits_event_successfully() {
    let mut p = new_test_ext();
    p.set_context(at_block(1));
    assert_eq!(p.create_game(Origin::Signed(ALICE)), Ok(()));
    let game_id = p.game_keys()[0];
    assert_eq!(p.transfer_game(Origin::Signed(ALICE), BOB, game_id), Ok(()));
    assert_eq!(p.last_event(), Some(Event::GameTransferred { from: ALICE, to: BOB, id: game_id }));
}

#[test]
fn game_transfer_logic_verification() {
    let mut p = new_test_ext();
    assert_eq!(p.create_game(Origin::Signed(ALICE)), Ok(()));
    let game = p.game(p.game_keys()[0]).unwrap();
    let game_id = game.key_data;

    assert_eq!(game.owner, ALICE);
    assert_eq!(p.games_owned_by(ALICE), vec![game_id]);
    assert_eq!(p.games_owned_by(BOB), Vec::<[u8; 32]>::new());

    assert_eq!(p.do_transfer(ALICE, ALICE, game_id), Err(Error::TransferToSelf));
    assert_eq!(p.do_transfer(ALICE, BOB, [1u8; 32]), Err(Error::GameNotFound));
    assert_eq!(p.do_transfer(BOB, ALICE, game_id), Err(Error::NotAuthorized));
    assert_eq!(p.game(game_id).unwrap().owner, ALICE);
    assert_eq!(p.games_owned_by(ALICE), vec![game_id]);
}

#[test]
fn created_keys_are_distinct() {
    let mut p = new_test_ext();
    assert_eq!(p.create_game(Origin::Signed(ALICE)), Ok(()));
    assert_eq!(p.create_game(Origin::Signed(BOB)), Ok(()));
    let keys = p.game_keys();
    assert_eq!(keys.len(), 2);
    assert_ne!(keys[0], keys[1]);
}

#[test]
fn next_key_follows_counter_and_context() {
    let mut p = new_test_ext();
    let k0 = p.gen_game_key();
    assert_eq!(p.gen_game_key(), k0);
    assert_ne!(k0, [0u8; 32]);
    p.set_game_count(1);
    let k1 = p.gen_game_key();
    assert_ne!(k0, k1);
    p.set_game_count(0);
    p.set_context(at_block(9));
    assert_ne!(p.gen_game_key(), k0);
    p.set_context(genesis());
    assert_eq!(p.create_game(Origin::Signed(ALICE)), Ok(()));
    assert_eq!(p.game_keys(), vec![k0]);
}

#[test]
fn index_tracks_owners_through_transfers() {
    let mut p = new_test_ext();
    assert_eq!(p.mint(ALICE, [1u8; 32]), Ok(()));
    assert_eq!(p.mint(ALICE, [2u8; 32]), Ok(()));
    assert_eq!(p.mint(ALICE, [3u8; 32]), Ok(()));
    assert_eq!(p.do_transfer(ALICE, BOB, [2u8; 32]), Ok(()));
    assert_eq!(p.games_owned_by(ALICE), vec![[1u8; 32], [3u8; 32]]);
    assert_eq!(p.games_owned_by(BOB), vec![[2u8; 32]]);
    assert_eq!(p.do_transfer(BOB, ALICE, [2u8; 32]), Ok(()));
    assert_eq!(p.games_owned_by(ALICE), vec![[1u8; 32], [3u8; 32], [2u8; 32]]);
    assert_eq!(p.games_owned_by(BOB), Vec::<[u8; 32]>::new());
    for key in p.game_keys() {
        let owner = p.game(key).unwrap().owner;
        assert!(p.games_owned_by(owner).contains(&key));
    }
}

#[test]
fn transfer_to_full_index_changes_nothing() {
    let mut p = new_test_ext();
    for i in 0..100u8 {
        assert_eq!(p.mint(BOB, [i; 32]), Ok(()));
    }
    assert_eq!(p.games_owned_by(BOB).len(), MAX_GAMES_OWNED);
    assert_eq!(p.mint(ALICE, [200u8; 32]), Ok(()));
    let events = p.events().len();
    assert_eq!(p.do_transfer(ALICE, BOB, [200u8; 32]), Err(Error::TooManyGamesOwned));
    assert_eq!(p.game([200u8; 32]).unwrap().owner, ALICE);
    assert_eq!(p.games_owned_by(ALICE), vec![[200u8; 32]]);
    assert_eq!(p.games_owned_by(BOB).len(), MAX_GAMES_OWNED);
    assert_eq!(p.events().len(), events);
}

#[test]
fn self_transfer_rejected_whoever_owns() {
    let mut p = new_test_ext();
    assert_eq!(p.mint(ALICE, [5u8; 32]), Ok(()));
    assert_eq!(p.do_transfer(BOB, BOB, [5u8; 32]), Err(Error::TransferToSelf));
    assert_eq!(p.do_transfer(ALICE, ALICE, [5u8; 32]), Err(Error::TransferToSelf));
    assert_eq!(p.do_transfer(BOB, BOB, [6u8; 32]), Err(Error::TransferToSelf));
}

#[test]
fn hundred_and_first_creation_changes_nothing() {
    let mut p = new_test_ext();
    for _ in 0..100 {
        assert_eq!(p.create_game(Origin::Signed(ALICE)), Ok(()));
    }
    let keys = p.game_keys();
    let owned = p.games_owned_by(ALICE);
    let events = p.events().len();
    assert_eq!(p.game_count(), 100);
    assert_eq!(p.create_game(Origin::Signed(ALICE)), Err(Error::TooManyGamesOwned));
    assert_eq!(p.game_count(), 100);
    assert_eq!(p.game_keys(), keys);
    assert_eq!(p.games_owned_by(ALICE), owned);
    assert_eq!(p.events().len(), events);
    assert_eq!(p.create_game(Origin::Signed(BOB)), Ok(()));
}

#[test]
fn counter_at_maximum_refuses_creation() {
    let mut p = new_test_ext();
    p.set_game_count(u32::MAX);
    assert_eq!(p.create_game(Origin::Signed(ALICE)), Err(Error::TooManyGames));
    assert_eq!(p.mint(ALICE, [1u8; 32]), Err(Error::TooManyGames));
    assert_eq!(p.game_keys().len(), 0);
}

#[test]
fn duplicate_key_checked_after_counter_on_creation() {
    let mut p = new_test_ext();
    let key = p.gen_game_key();
    assert_eq!(p.mint_new_game(ALICE, key), Ok(()));
    assert_eq!(p.mint_new_game(BOB, key), Err(Error::DuplicatedGame));
    p.set_game_count(u32::MAX);
    assert_eq!(p.mint_new_game(BOB, key), Err(Error::TooManyGames));
    assert_eq!(p.mint(BOB, key), Err(Error::DuplicatedGame));
}

#[test]
fn price_setting_rules() {
    let mut p = new_test_ext();
    assert_eq!(p.mint(ALICE, [1u8; 32]), Ok(()));
    assert_eq!(p.do_set_price(ALICE, [9u8; 32], Some(5)), Err(Error::GameNotFound));
    assert_eq!(p.do_set_price(BOB, [1u8; 32], Some(5)), Err(Error::NotAuthorized));
    assert_eq!(p.set_game_price(Origin::Unsigned, [1u8; 32], Some(5)), Err(Error::BadOrigin));
    assert_eq!(p.set_game_price(Origin::Signed(ALICE), [1u8; 32], Some(5)), Ok(()));
    assert_eq!(p.game([1u8; 32]).unwrap().value, Some(5));
    assert_eq!(
        p.last_event(),
        Some(Event::PriceUpdated { owner: ALICE, id: [1u8; 32], price: Some(5) })
    );
    assert_eq!(p.do_set_price(ALICE, [1u8; 32], None), Ok(()));
    assert_eq!(p.game([1u8; 32]).unwrap().value, None);
}

#[test]
fn transfer_keeps_asking_price() {
    let mut p = new_test_ext();
    assert_eq!(p.mint(ALICE, [1u8; 32]), Ok(()));
    assert_eq!(p.do_set_price(ALICE, [1u8; 32], Some(7)), Ok(()));
    assert_eq!(p.transfer_game(Origin::Unsigned, BOB, [1u8; 32]), Err(Error::BadOrigin));
    assert_eq!(p.do_transfer(ALICE, BOB, [1u8; 32]), Ok(()));
    assert_eq!(p.game([1u8; 32]), Some(Game { key_data: [1u8; 32], owner: BOB, value: Some(7) }));
}

#[test]
fn purchase_below_asking_price_then_at_it() {
    let mut p = new_test_ext();
    assert_eq!(p.create_game(Origin::Signed(ALICE)), Ok(()));
    let id = p.game_keys()[0];
    assert_eq!(p.set_game_price(Origin::Signed(ALICE), id, Some(50)), Ok(()));

    assert_eq!(p.purchase_terms(BOB, id, 40), Err(Error::PriceTooLow));
    assert_eq!(p.buy_game(Origin::Signed(BOB), id, 40, true), Err(Error::PriceTooLow));
    assert_eq!(p.game(id).unwrap().owner, ALICE);

    let payment = p.purchase_terms(BOB, id, 60);
    assert_eq!(payment, Ok(Payment { from: BOB, to: ALICE, amount: 50 }));
    assert_eq!(p.buy_game(Origin::Signed(BOB), id, 60, true), Ok(()));
    assert_eq!(p.game(id), Some(Game { key_data: id, owner: BOB, value: None }));
    assert_eq!(p.games_owned_by(BOB), vec![id]);
    assert_eq!(p.games_owned_by(ALICE), Vec::<[u8; 32]>::new());
    let events = p.events();
    let n = events.len();
    assert_eq!(events[n - 3], Event::GameTransferred { from: ALICE, to: BOB, id });
    assert_eq!(events[n - 2], Event::PriceUpdated { owner: BOB, id, price: None });
    assert_eq!(events[n - 1], Event::GameSold { buyer: BOB, id, price: 50 });
}

#[test]
fn purchase_errors() {
    let mut p = new_test_ext();
    assert_eq!(p.mint(ALICE, [1u8; 32]), Ok(()));
    assert_eq!(p.do_buy_game(BOB, [2u8; 32], 10, true), Err(Error::GameNotFound));
    assert_eq!(p.do_buy_game(BOB, [1u8; 32], 10, true), Err(Error::NotForSale));
    assert_eq!(p.do_set_price(ALICE, [1u8; 32], Some(10)), Ok(()));
    assert_eq!(p.do_buy_game(ALICE, [1u8; 32], 10, true), Err(Error::TransferToSelf));
    assert_eq!(p.do_buy_game(BOB, [1u8; 32], 10, false), Err(Error::InsufficientFunds));
    assert_eq!(p.buy_game(Origin::Unsigned, [1u8; 32], 10, true), Err(Error::BadOrigin));
    assert_eq!(p.game([1u8; 32]), Some(Game { key_data: [1u8; 32], owner: ALICE, value: Some(10) }));
}

#[test]
fn purchase_into_full_index_fails_after_payment_check() {
    let mut p = new_test_ext();
    for i in 0..100u8 {
        assert_eq!(p.mint(BOB, [i; 32]), Ok(()));
    }
    assert_eq!(p.mint(ALICE, [200u8; 32]), Ok(()));
    assert_eq!(p.do_set_price(ALICE, [200u8; 32], Some(3)), Ok(()));
    assert_eq!(p.do_buy_game(BOB, [200u8; 32], 3, false), Err(Error::InsufficientFunds));
    assert_eq!(p.do_buy_game(BOB, [200u8; 32], 3, true), Err(Error::TooManyGamesOwned));
    assert_eq!(p.game([200u8; 32]).unwrap().value, Some(3));
}
