use cw_sdk::bank::{BankState, BankError, InstantiateMsg, Balance, ExecuteMsg, receive};
use cw_sdk::coins::{Coin, Coins};
use cw_sdk::types::{TransferMsg, BankQuery, BankQueryResponse};

fn alice() -> Vec<u8> {
    b"alice".to_vec()
}

fn bob() -> Vec<u8> {
    b"bob".to_vec()
}

fn uatom() -> Vec<u8> {
    b"uatom".to_vec()
}

fn genesis_bank() -> BankState {
    let msg = InstantiateMsg {
        initial_balances: vec![Balance { address: alice(), coins: Coins::one(uatom(), 100) }],
    };
    BankState::instantiate(&msg).expect("genesis balances are valid")
}

#[test]
fn genesis_balance_and_supply() {
    let bank = genesis_bank();
    assert_eq!(bank.query_balance(&alice(), uatom()).amount, 100);
    assert_eq!(bank.query_supply(uatom()).amount, 100);
}

#[test]
fn genesis_rejects_duplicate_address() {
    let msg = InstantiateMsg {
        initial_balances: vec![
            Balance { address: alice(), coins: Coins::one(uatom(), 1) },
            Balance { address: alice(), coins: Coins::one(uatom(), 2) },
        ],
    };
    assert_eq!(BankState::instantiate(&msg).err(), Some(BankError::DuplicateAddress));
}

#[test]
fn genesis_rejects_supply_overflow() {
    let msg = InstantiateMsg {
        initial_balances: vec![
            Balance { address: alice(), coins: Coins::one(uatom(), u128::MAX) },
            Balance { address: bob(), coins: Coins::one(uatom(), 1) },
        ],
    };
    assert_eq!(BankState::instantiate(&msg).err(), Some(BankError::SupplyOverflow));
}

#[test]
fn transfer_moves_coins() {
    let mut bank = genesis_bank();
    let msg = TransferMsg { from: alice(), to: bob(), coins: Coins::one(uatom(), 30) };
    let resp = bank.transfer(&msg).expect("alice covers the transfer");
    assert_eq!(bank.query_balance(&alice(), uatom()).amount, 70);
    assert_eq!(bank.query_balance(&bob(), uatom()).amount, 30);
    assert_eq!(bank.query_supply(uatom()).amount, 100);
    // the response carries method, from, to, and the coins moved
    assert_eq!(resp.attributes.len(), 4);
    assert_eq!(resp.attributes[0].key, b"method".to_vec());
    assert_eq!(resp.attributes[0].value, b"send".to_vec());
    assert_eq!(resp.attributes[1].key, b"from".to_vec());
    assert_eq!(resp.attributes[1].value, alice());
    assert_eq!(resp.attributes[2].key, b"to".to_vec());
    assert_eq!(resp.attributes[2].value, bob());
    assert_eq!(resp.attributes[3].key, b"coins".to_vec());
    assert_eq!(resp.attributes[3].value, br#"{"uatom":"30"}"#.to_vec());
    assert!(resp.data.is_none());
    assert_eq!(resp.submsgs.len(), 0);
}

#[test]
fn transfer_underflow_changes_nothing() {
    let mut bank = genesis_bank();
    let msg = TransferMsg { from: alice(), to: bob(), coins: Coins::one(uatom(), 101) };
    assert_eq!(bank.transfer(&msg).err(), Some(BankError::BalanceUnderflow));
    assert_eq!(bank.query_balance(&alice(), uatom()).amount, 100);
    assert_eq!(bank.query_balance(&bob(), uatom()).amount, 0);
    assert_eq!(bank.query_supply(uatom()).amount, 100);
}

#[test]
fn burn_to_zero_removes_the_entry() {
    let mut bank = genesis_bank();
    let msg = TransferMsg { from: alice(), to: bob(), coins: Coins::one(uatom(), 30) };
    bank.transfer(&msg).expect("alice covers the transfer");
    bank.burn(&alice(), &uatom(), 70).expect("alice holds 70");
    assert_eq!(bank.query_balance(&alice(), uatom()).amount, 0);
    assert_eq!(bank.query_supply(uatom()).amount, 30);
    // the zero balance is gone, not stored: alice's page is empty
    let page = bank.query_balances(&alice(), None, None);
    assert_eq!(page.len(), 0);
}

#[test]
fn mint_then_burn_restores_the_state() {
    let mut bank = genesis_bank();
    let resp = bank.mint(&bob(), &uatom(), 55).expect("minting is open");
    assert_eq!(resp.attributes[0].key, b"method".to_vec());
    assert_eq!(resp.attributes[0].value, b"mint".to_vec());
    assert_eq!(resp.attributes[3].key, b"amount".to_vec());
    assert_eq!(resp.attributes[3].value, b"55".to_vec());
    bank.burn(&bob(), &uatom(), 55).expect("bob holds what was minted");
    assert_eq!(bank.query_balance(&alice(), uatom()).amount, 100);
    assert_eq!(bank.query_balance(&bob(), uatom()).amount, 0);
    assert_eq!(bank.query_supply(uatom()).amount, 100);
    let page = bank.query_balances(&bob(), None, None);
    assert_eq!(page.len(), 0);
}

#[test]
fn mint_overflow_is_refused() {
    let mut bank = genesis_bank();
    assert_eq!(bank.mint(&bob(), &uatom(), u128::MAX).err(), Some(BankError::SupplyOverflow));
    assert_eq!(bank.query_supply(uatom()).amount, 100);
}

#[test]
fn burn_more_than_supply_is_refused() {
    let mut bank = genesis_bank();
    assert_eq!(bank.burn(&alice(), &uatom(), 101).err(), Some(BankError::SupplyUnderflow));
}

#[test]
fn burn_more_than_balance_is_refused() {
    let mut bank = genesis_bank();
    bank.mint(&bob(), &uatom(), 50).expect("minting is open");
    // the supply covers 120, but alice holds only 100
    assert_eq!(bank.burn(&alice(), &uatom(), 120).err(), Some(BankError::BalanceUnderflow));
    assert_eq!(bank.query_balance(&alice(), uatom()).amount, 100);
}

#[test]
fn execute_dispatches_mint_and_burn() {
    let mut bank = genesis_bank();
    bank.execute(&ExecuteMsg::Mint { to: bob(), denom: uatom(), amount: 7 }).expect("mint");
    bank.execute(&ExecuteMsg::Burn { from: bob(), denom: uatom(), amount: 3 }).expect("burn");
    assert_eq!(bank.query_balance(&bob(), uatom()).amount, 4);
    assert_eq!(bank.query_supply(uatom()).amount, 104);
}

#[test]
fn receive_always_refuses() {
    assert_eq!(receive().err(), Some(BankError::UnexpectedFunds));
}

#[test]
fn balances_page_is_sorted_and_cursored() {
    let mut bank = genesis_bank();
    bank.mint(&alice(), &b"zatom".to_vec(), 5).expect("mint");
    bank.mint(&alice(), &b"batom".to_vec(), 9).expect("mint");
    let page = bank.query_balances(&alice(), None, None);
    assert_eq!(page.len(), 3);
    assert_eq!(page.get(0).denom, b"batom".to_vec());
    assert_eq!(page.get(0).amount, 9);
    assert_eq!(page.get(1).denom, b"uatom".to_vec());
    assert_eq!(page.get(2).denom, b"zatom".to_vec());
    // exclusive cursor and limit
    let page2 = bank.query_balances(&alice(), Some(&b"batom".to_vec()), Some(1));
    assert_eq!(page2.len(), 1);
    assert_eq!(page2.get(0).denom, b"uatom".to_vec());
}

#[test]
fn supplies_page_lists_every_denomination() {
    let mut bank = genesis_bank();
    bank.mint(&bob(), &b"ubtc".to_vec(), 8).expect("mint");
    let page = bank.query_supplies(None, None);
    assert_eq!(page.len(), 2);
    assert_eq!(page.get(0).denom, b"uatom".to_vec());
    assert_eq!(page.get(0).amount, 100);
    assert_eq!(page.get(1).denom, b"ubtc".to_vec());
    assert_eq!(page.get(1).amount, 8);
}

#[test]
fn query_bank_response_matches_the_request() {
    let bank = genesis_bank();
    match bank.query_bank(&BankQuery::Balance { address: alice(), denom: uatom() }) {
        BankQueryResponse::Balance(c) => assert_eq!(c.amount, 100),
        _ => panic!("the variant must match the request"),
    }
    match bank.query_bank(&BankQuery::Supplies { start_after: None, limit: None }) {
        BankQueryResponse::Supplies(c) => assert_eq!(c.len(), 1),
        _ => panic!("the variant must match the request"),
    }
}

#[test]
fn coins_are_canonical() {
    let c = Coins::from_vec(vec![
        Coin { denom: b"uatom".to_vec(), amount: 1 },
        Coin { denom: b"ubtc".to_vec(), amount: 2 },
    ])
    .expect("ascending denominations");
    assert_eq!(c.len(), 2);
    assert!(Coins::from_vec(vec![
        Coin { denom: b"ubtc".to_vec(), amount: 2 },
        Coin { denom: b"uatom".to_vec(), amount: 1 },
    ])
    .is_none());
    assert!(Coins::from_vec(vec![Coin { denom: b"uatom".to_vec(), amount: 0 }]).is_none());
    assert_eq!(Coins::one(uatom(), 0).len(), 0);
}
