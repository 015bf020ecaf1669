use nft_ledger::Error;
use nft_ledger::Ledger;
use nft_ledger::Principal;
use nft_ledger::User;
use nft_ledger::AccountIdentifier;

fn p(id: u64) -> Principal {
    Principal { id }
}

fn u(id: u64) -> User {
    User::principal(p(id))
}

#[test]
fn mint_sequence_assigns_dense_indices() {
    let mut l = Ledger::new();
    for expected in 0u64..3 {
        assert_eq!(l.total_supply(), expected);
        let receipt = l.mintNFT(&p(1), &vec![expected as u8]).unwrap();
        assert_eq!(receipt.token_id, expected);
        assert_eq!(receipt.id, 1);
        assert_eq!(l.total_supply(), expected + 1);
    }
}

#[test]
fn mint_updates_owner_metadata_and_balance() {
    let mut l = Ledger::new();
    assert_eq!(l.balance_of(&u(7)), 0);
    let receipt = l.mintNFT(&p(7), &vec![1, 2, 3]).unwrap();
    let i = receipt.token_id;
    assert_eq!(l.owner_of(i), Ok(p(7)));
    assert_eq!(l.get_metadata(i), Ok(vec![1, 2, 3]));
    assert_eq!(l.balance_of(&u(7)), 1);
    assert!(l.get_token_ids_for_user(&p(7)).contains(&i));
}

#[test]
fn transfer_moves_token_and_balances() {
    let mut l = Ledger::new();
    l.mintNFT(&p(1), &vec![9]).unwrap();
    l.mintNFT(&p(1), &vec![8]).unwrap();
    assert_eq!(l.transfer(&u(1), &u(2), 0), Ok(()));
    assert_eq!(l.owner_of(0), Ok(p(2)));
    assert_eq!(l.balance_of(&u(1)), 1);
    assert_eq!(l.balance_of(&u(2)), 1);
    assert!(!l.get_token_ids_for_user(&p(1)).contains(&0));
    assert!(l.get_token_ids_for_user(&p(2)).contains(&0));
    assert_eq!(l.get_metadata(0), Ok(vec![9]));
}

#[test]
fn transfer_by_non_owner_is_unauthorized_and_changes_nothing() {
    let mut l = Ledger::new();
    l.mintNFT(&p(1), &vec![4]).unwrap();
    assert_eq!(l.transfer(&u(2), &u(3), 0), Err(Error::Unauthorized));
    assert_eq!(l.owner_of(0), Ok(p(1)));
    assert_eq!(l.balance_of(&u(1)), 1);
    assert_eq!(l.balance_of(&u(2)), 0);
    assert_eq!(l.balance_of(&u(3)), 0);
    assert_eq!(l.total_supply(), 1);
}

#[test]
fn transfer_of_unknown_token_is_not_found() {
    let mut l = Ledger::new();
    assert_eq!(l.transfer(&u(1), &u(2), 0), Err(Error::NotFound));
    l.mintNFT(&p(1), &vec![]).unwrap();
    assert_eq!(l.transfer(&u(1), &u(2), 5), Err(Error::NotFound));
}

#[test]
fn transfer_to_self_keeps_balance() {
    let mut l = Ledger::new();
    l.mintNFT(&p(1), &vec![]).unwrap();
    assert_eq!(l.transfer(&u(1), &u(1), 0), Ok(()));
    assert_eq!(l.owner_of(0), Ok(p(1)));
    assert_eq!(l.balance_of(&u(1)), 1);
}

#[test]
fn transfer_of_last_token_empties_the_owner() {
    let mut l = Ledger::new();
    l.mintNFT(&p(1), &vec![]).unwrap();
    assert_eq!(l.transfer(&u(1), &u(2), 0), Ok(()));
    assert_eq!(l.balance_of(&u(1)), 0);
    assert!(l.get_token_ids_for_user(&p(1)).is_empty());
}

#[test]
fn list_succeeds_only_for_owner_positive_price_unlisted() {
    let mut l = Ledger::new();
    l.mintNFT(&p(1), &vec![]).unwrap();
    assert_eq!(l.list(p(1), 9, 10, 100), Err(Error::NotFound));
    assert_eq!(l.list(p(2), 0, 10, 100), Err(Error::Unauthorized));
    assert_eq!(l.list(p(1), 0, 0, 100), Err(Error::InvalidArgument));
    assert!(l.active_listing_for(0).is_none());
    assert_eq!(l.list(p(1), 0, 10, 100), Ok(true));
    let booked = l.active_listing_for(0).unwrap();
    assert_eq!(booked.owner, p(1));
    assert_eq!(booked.token_id, 0);
    assert_eq!(booked.price, 10);
    assert_eq!(booked.time, 100);
    assert_eq!(l.list(p(1), 0, 20, 101), Err(Error::AlreadyListed));
    let still = l.active_listing_for(0).unwrap();
    assert_eq!(still.price, 10);
    assert_eq!(still.time, 100);
}

#[test]
fn delist_succeeds_once_then_reports_not_listed() {
    let mut l = Ledger::new();
    l.mintNFT(&p(1), &vec![]).unwrap();
    assert_eq!(l.delist(p(1), 9), Err(Error::NotFound));
    assert_eq!(l.delist(p(1), 0), Err(Error::NotListed));
    assert_eq!(l.list(p(1), 0, 10, 100), Ok(true));
    assert_eq!(l.delist(p(2), 0), Err(Error::Unauthorized));
    assert!(l.active_listing_for(0).is_some());
    assert_eq!(l.delist(p(1), 0), Ok(true));
    assert_eq!(l.delist(p(1), 0), Err(Error::NotListed));
}

#[test]
fn list_then_delist_restores_the_listing_book() {
    let mut l = Ledger::new();
    l.mintNFT(&p(1), &vec![]).unwrap();
    l.mintNFT(&p(1), &vec![]).unwrap();
    assert_eq!(l.list(p(1), 1, 33, 50), Ok(true));
    assert!(l.active_listing_for(0).is_none());
    assert_eq!(l.list(p(1), 0, 44, 60), Ok(true));
    assert_eq!(l.delist(p(1), 0), Ok(true));
    assert!(l.active_listing_for(0).is_none());
    let other = l.active_listing_for(1).unwrap();
    assert_eq!(other.price, 33);
    assert_eq!(other.time, 50);
}

#[test]
fn full_marketplace_scenario() {
    let mut l = Ledger::new();
    let a = p(10);
    let b = p(20);
    let ra = l.mintNFT(&a, &vec![0xaa]).unwrap();
    assert_eq!(ra.token_id, 0);
    assert_eq!(l.balance_of(&User::principal(a)), 1);
    let rb = l.mintNFT(&b, &vec![0xbb]).unwrap();
    assert_eq!(rb.token_id, 1);
    assert_eq!(l.transfer(&User::principal(a), &User::principal(b), 0), Ok(()));
    assert_eq!(l.balance_of(&User::principal(a)), 0);
    assert_eq!(l.balance_of(&User::principal(b)), 2);
    assert_eq!(l.owner_of(0), Ok(b));
    assert_eq!(l.list(b, 0, 100, 1000), Ok(true));
    assert_eq!(l.list(a, 0, 50, 1001), Err(Error::Unauthorized));
    assert_eq!(l.delist(b, 0), Ok(true));
    assert_eq!(l.delist(b, 0), Err(Error::NotListed));
}

#[test]
fn bearer_follows_ownership() {
    let mut l = Ledger::new();
    l.mintNFT(&p(5), &vec![]).unwrap();
    assert_eq!(l.bearer(0), Ok(AccountIdentifier::derive(p(5))));
    assert_eq!(l.transfer(&u(5), &u(6), 0), Ok(()));
    assert_eq!(l.bearer(0), Ok(AccountIdentifier::derive(p(6))));
    assert_eq!(l.bearer(3), Err(Error::NotFound));
}

#[test]
fn metadata_queries_agree() {
    let mut l = Ledger::new();
    l.mintNFT(&p(5), &vec![1, 2]).unwrap();
    assert_eq!(l.metadata(0), Ok(vec![1, 2]));
    assert_eq!(l.metadata(0), l.get_metadata(0));
    assert_eq!(l.metadata(1), Err(Error::NotFound));
    assert_eq!(l.get_metadata(1), Err(Error::NotFound));
}

#[test]
fn supply_reports_the_total_minted_count() {
    let mut l = Ledger::new();
    assert_eq!(l.supply(0), Ok(0));
    l.mintNFT(&p(1), &vec![]).unwrap();
    l.mintNFT(&p(2), &vec![]).unwrap();
    assert_eq!(l.supply(0), Ok(2));
    assert_eq!(l.supply(99), Ok(2));
}

#[test]
fn per_user_metadata_views_list_exactly_the_holdings() {
    let mut l = Ledger::new();
    l.mintNFT(&p(1), &vec![11]).unwrap();
    l.mintNFT(&p(2), &vec![22]).unwrap();
    l.mintNFT(&p(1), &vec![33]).unwrap();
    let rows = l.get_metadata_for_user(&p(1));
    assert_eq!(rows.len(), 2);
    assert_eq!(rows[0].token_id, 0);
    assert_eq!(rows[0].metadata_desc, vec![11]);
    assert_eq!(rows[1].token_id, 2);
    assert_eq!(rows[1].metadata_desc, vec![33]);
    let full = l.get_all_metadata_for_user(&u(1));
    assert_eq!(full.len(), 2);
    assert_eq!(full[0].principal, p(1));
    assert_eq!(full[0].account_identifier, AccountIdentifier::derive(p(1)));
    assert_eq!(full[0].metadata_desc, vec![11]);
    assert_eq!(full[1].metadata_desc, vec![33]);
    assert!(l.get_metadata_for_user(&p(9)).is_empty());
    assert!(l.get_all_metadata_for_user(&u(9)).is_empty());
}

#[test]
fn clear_empties_tokens_and_owners_but_keeps_listings() {
    let mut l = Ledger::new();
    l.mintNFT(&p(1), &vec![]).unwrap();
    assert_eq!(l.list(p(1), 0, 10, 5), Ok(true));
    l.clear();
    assert_eq!(l.total_supply(), 0);
    assert_eq!(l.balance_of(&u(1)), 0);
    assert_eq!(l.owner_of(0), Err(Error::NotFound));
    // the stale listing stays booked: a fresh token 0 cannot be listed again
    l.mintNFT(&p(2), &vec![]).unwrap();
    assert_eq!(l.list(p(2), 0, 10, 6), Err(Error::AlreadyListed));
}

#[test]
fn default_ledger_is_empty() {
    let l = Ledger::default();
    assert_eq!(l.total_supply(), 0);
    assert_eq!(l.balance_of(&u(1)), 0);
    assert!(l.active_listing_for(0).is_none());
}
