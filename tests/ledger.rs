use simple_token::account::Account;
use simple_token::ledger::{Ledger, TokenError};

fn account(b: u8) -> Account {
    Account::from_bytes(vec![b, 7, 9]).unwrap()
}

fn creator() -> Account {
    account(1)
}

fn other() -> Account {
    account(2)
}

fn text_of(a: &Account) -> String {
    candid::Principal::from_slice(a.as_bytes()).to_text()
}

/// The ledger of the scenarios: created by C, with 100 minted to C.
fn scenario_a() -> Ledger {
    let c = creator();
    let mut l = Ledger::new(c.clone());
    assert!(l.mint(&c, &c, 100).is_ok());
    l
}

/// After the first scenario, C has sent 40 to D.
fn scenario_b() -> Ledger {
    let mut l = scenario_a();
    assert!(l.transfer(&creator(), &other(), 40).is_ok());
    l
}

#[test]
fn new_ledger_has_defaults() {
    let c = creator();
    let l = Ledger::new(c.clone());
    let info = l.get_token_info();
    assert_eq!(info.name, "Simple Token");
    assert_eq!(info.symbol, "STK");
    assert_eq!(info.decimals, 8);
    assert_eq!(info.total_supply, 0);
    assert!(l.get_owner().unwrap() == c);
    assert_eq!(l.balance_of(&c), 0);
    assert!(l.get_all_balances().is_empty());
}

#[test]
fn mint_by_owner() {
    let c = creator();
    let l = scenario_a();
    assert_eq!(l.balance_of(&c), 100);
    assert_eq!(l.my_balance(&c), 100);
    assert_eq!(l.get_token_info().total_supply, 100);
}

#[test]
fn mint_message_names_amount_and_target() {
    let c = creator();
    let d = other();
    let mut l = Ledger::new(c.clone());
    let m = l.mint(&c, &d, 1234).unwrap();
    assert_eq!(m, format!("Successfully minted 1234 tokens to {}", text_of(&d)));
    assert!(m.ends_with(&candid::Principal::from_slice(&[2, 7, 9]).to_text()));
}

#[test]
fn transfer_moves_balance() {
    let l = scenario_b();
    assert_eq!(l.balance_of(&creator()), 60);
    assert_eq!(l.balance_of(&other()), 40);
    assert_eq!(l.get_token_info().total_supply, 100);
}

#[test]
fn transfer_message() {
    let c = creator();
    let d = other();
    let mut l = scenario_a();
    let m = l.transfer(&c, &d, 40).unwrap();
    assert_eq!(m, format!("Transferred 40 tokens from {} to {}", text_of(&c), text_of(&d)));
}

#[test]
fn transfer_to_self_is_refused() {
    let c = creator();
    let mut l = scenario_b();
    assert_eq!(l.transfer(&c, &c, 10), Err(TokenError::SelfTransfer));
    assert_eq!(l.balance_of(&c), 60);
    assert_eq!(l.balance_of(&other()), 40);
}

#[test]
fn mint_by_non_owner_is_refused() {
    let d = other();
    let mut l = scenario_b();
    assert_eq!(l.mint(&d, &d, 5), Err(TokenError::Unauthorized));
    assert_eq!(l.get_token_info().total_supply, 100);
    assert_eq!(l.balance_of(&d), 40);
}

#[test]
fn mint_by_non_owner_refused_for_any_amount() {
    let c = creator();
    let d = other();
    let mut l = scenario_a();
    for amount in [0u64, 1, 5, u64::MAX] {
        assert_eq!(l.mint(&d, &c, amount), Err(TokenError::Unauthorized));
        assert_eq!(l.balance_of(&c), 100);
        assert_eq!(l.balance_of(&d), 0);
        assert_eq!(l.get_token_info().total_supply, 100);
    }
}

#[test]
fn mint_zero_is_refused() {
    let c = creator();
    let mut l = scenario_a();
    assert_eq!(l.mint(&c, &c, 0), Err(TokenError::InvalidAmount));
    assert_eq!(l.get_token_info().total_supply, 100);
}

#[test]
fn burn_all_of_a_balance() {
    let c = creator();
    let d = other();
    let mut l = scenario_b();
    assert_eq!(l.burn(&d, 40), Ok("Successfully burned 40 tokens".to_string()));
    assert_eq!(l.balance_of(&d), 0);
    assert_eq!(l.get_token_info().total_supply, 60);
    let all = l.get_all_balances();
    assert_eq!(all.len(), 1);
    assert!(all[0].0 == c);
    assert_eq!(all[0].1, 60);
    assert!(!all.iter().any(|(a, _)| *a == d));
}

#[test]
fn transfer_beyond_balance_is_refused() {
    let c = creator();
    let d = other();
    let mut l = scenario_b();
    assert_eq!(l.transfer(&c, &d, 1000), Err(TokenError::InsufficientBalance));
    assert_eq!(l.balance_of(&c), 60);
    assert_eq!(l.balance_of(&d), 40);
    assert_eq!(l.get_token_info().total_supply, 100);
}

#[test]
fn transfer_zero_is_refused() {
    let mut l = scenario_a();
    assert_eq!(l.transfer(&creator(), &other(), 0), Err(TokenError::InvalidAmount));
    assert_eq!(l.balance_of(&creator()), 100);
}

#[test]
fn burn_zero_is_refused() {
    let mut l = scenario_a();
    assert_eq!(l.burn(&creator(), 0), Err(TokenError::InvalidAmount));
    assert_eq!(l.get_token_info().total_supply, 100);
}

#[test]
fn burn_boundary() {
    let c = creator();
    let mut l = scenario_a();
    assert_eq!(l.burn(&c, 101), Err(TokenError::InsufficientBalance));
    assert_eq!(l.balance_of(&c), 100);
    assert!(l.burn(&c, 100).is_ok());
    assert_eq!(l.balance_of(&c), 0);
    assert_eq!(l.get_token_info().total_supply, 0);
    assert_eq!(l.burn(&c, 1), Err(TokenError::InsufficientBalance));
}

#[test]
fn transfer_boundary() {
    let c = creator();
    let d = other();
    let mut l = scenario_a();
    assert_eq!(l.transfer(&c, &d, 101), Err(TokenError::InsufficientBalance));
    assert!(l.transfer(&c, &d, 100).is_ok());
    assert_eq!(l.balance_of(&c), 0);
    assert_eq!(l.balance_of(&d), 100);
}

#[test]
fn burn_by_unknown_account_is_refused() {
    let mut l = scenario_a();
    let e = account(3);
    assert_eq!(l.burn(&e, 1), Err(TokenError::InsufficientBalance));
    assert_eq!(l.get_token_info().total_supply, 100);
}

#[test]
fn repeated_transfer_is_not_idempotent() {
    let c = creator();
    let d = other();
    let mut l = scenario_a();
    assert!(l.transfer(&c, &d, 40).is_ok());
    assert!(l.transfer(&c, &d, 40).is_ok());
    assert_eq!(l.balance_of(&c), 20);
    assert_eq!(l.balance_of(&d), 80);
    assert_eq!(l.transfer(&c, &d, 40), Err(TokenError::InsufficientBalance));
    assert_eq!(l.balance_of(&c), 20);
    assert_eq!(l.balance_of(&d), 80);
}

#[test]
fn supply_is_sum_of_listed_balances() {
    let c = creator();
    let d = other();
    let e = account(3);
    let mut l = scenario_a();
    assert!(l.mint(&c, &e, 250).is_ok());
    assert!(l.transfer(&c, &d, 30).is_ok());
    assert!(l.transfer(&e, &d, 50).is_ok());
    assert!(l.burn(&d, 10).is_ok());
    let all = l.get_all_balances();
    let sum: u64 = all.iter().map(|(_, b)| *b).sum();
    assert_eq!(sum, l.get_token_info().total_supply);
    assert_eq!(sum, 340);
    assert_eq!(all.len(), 3);
}

#[test]
fn mint_up_to_the_largest_supply() {
    let c = creator();
    let d = other();
    let mut l = Ledger::new(c.clone());
    assert!(l.mint(&c, &d, u64::MAX - 1).is_ok());
    assert!(l.mint(&c, &c, 1).is_ok());
    assert_eq!(l.get_token_info().total_supply, u64::MAX);
    assert!(l.transfer(&c, &d, 1).is_ok());
    assert_eq!(l.balance_of(&d), u64::MAX);
}

#[test]
fn error_messages() {
    assert_eq!(TokenError::Unauthorized.message(), "Only the owner can mint tokens");
    assert_eq!(TokenError::InvalidAmount.message(), "Amount must be greater than 0");
    assert_eq!(TokenError::SelfTransfer.message(), "Cannot transfer to yourself");
    assert_eq!(TokenError::InsufficientBalance.message(), "Insufficient balance");
}
