use constellation::address::Address;
use constellation::assets::Assets;
use constellation::error::{Error, ErrorKind};
use constellation::ledger::{AllowanceValue, Ledger};

#[test]
fn credit_and_debit_keep_the_supply() {
    let mut ledger = Ledger::new();
    let a = Address::account(1);
    let b = Address::account(2);
    assert_eq!(ledger.balance(a), 0);
    assert_eq!(ledger.total_supply(), 0);
    assert_eq!(ledger.credit(a, 70), Ok(()));
    assert_eq!(ledger.credit(b, 30), Ok(()));
    assert_eq!(ledger.credit(a, 5), Ok(()));
    assert_eq!((ledger.balance(a), ledger.balance(b), ledger.total_supply()), (75, 30, 105));
    assert_eq!(ledger.debit(a, 76), Err(Error::InsufficientBalance));
    assert_eq!(ledger.debit(a, 0), Err(Error::ZeroOrNegativeAmount));
    assert_eq!(ledger.credit(a, 0), Err(Error::ZeroOrNegativeAmount));
    assert_eq!(ledger.credit(a, -3), Err(Error::ZeroOrNegativeAmount));
    assert_eq!((ledger.balance(a), ledger.balance(b), ledger.total_supply()), (75, 30, 105));
    assert_eq!(ledger.debit(a, 75), Ok(()));
    assert_eq!((ledger.balance(a), ledger.balance(b), ledger.total_supply()), (0, 30, 30));
}

#[test]
fn credit_stops_at_the_range_of_the_supply() {
    let mut ledger = Ledger::new();
    let a = Address::account(1);
    let b = Address::account(2);
    assert_eq!(ledger.credit(a, i128::MAX - 1), Ok(()));
    assert_eq!(ledger.credit(b, 2), Err(Error::ValueTooLargeOverflow));
    assert_eq!(ledger.balance(b), 0);
    assert_eq!(ledger.credit(b, 1), Ok(()));
    assert_eq!(ledger.total_supply(), i128::MAX);
    assert_eq!(ledger.transfer(a, b, 10), Ok(()));
    assert_eq!(ledger.balance(b), 11);
}

#[test]
fn transfer_to_oneself_changes_nothing() {
    let mut ledger = Ledger::new();
    let a = Address::account(1);
    ledger.credit(a, 10).unwrap();
    assert_eq!(ledger.transfer(a, a, 4), Ok(()));
    assert_eq!((ledger.balance(a), ledger.total_supply()), (10, 10));
    assert_eq!(ledger.transfer(a, a, 11), Err(Error::InsufficientBalance));
}

#[test]
fn grants_expire_and_are_drawn_on() {
    let mut ledger = Ledger::new();
    let owner = Address::account(1);
    let spender = Address::contract(2);
    let other = Address::account(3);
    ledger.credit(owner, 100).unwrap();
    assert_eq!(ledger.get_allowance(owner, spender), None);
    assert_eq!(ledger.allowance(owner, spender, 0), 0);
    assert_eq!(ledger.approve(owner, spender, 40, 50), Ok(()));
    assert_eq!(
        ledger.get_allowance(owner, spender),
        Some(AllowanceValue { amount: 40, expiration_ledger: 50 })
    );
    assert_eq!(ledger.get_allowance(spender, owner), None);
    assert_eq!(ledger.allowance(owner, spender, 50), 40);
    assert_eq!(ledger.allowance(owner, spender, 51), 0);

    assert_eq!(ledger.spend_allowance(owner, spender, 15, 50), Ok(()));
    assert_eq!(
        ledger.get_allowance(owner, spender),
        Some(AllowanceValue { amount: 25, expiration_ledger: 50 })
    );
    assert_eq!(ledger.spend_allowance(owner, spender, 26, 50), Err(Error::InsufficientAllowance));
    assert_eq!(ledger.spend_allowance(owner, spender, 1, 51), Err(Error::InsufficientAllowance));
    assert_eq!(ledger.spend_allowance(owner, spender, 0, 50), Err(Error::ZeroOrNegativeAmount));
    assert_eq!(ledger.spend_allowance(owner, other, 1, 1), Err(Error::InsufficientAllowance));

    // The grant is looked at before the balance.
    assert_eq!(ledger.approve(owner, spender, 500, 50), Ok(()));
    assert_eq!(
        ledger.transfer_from(spender, owner, other, 101, 1),
        Err(Error::InsufficientBalance)
    );
    assert_eq!(
        ledger.transfer_from(spender, owner, other, 501, 1),
        Err(Error::InsufficientAllowance)
    );
    assert_eq!(ledger.allowance(owner, spender, 1), 500);
    assert_eq!(ledger.transfer_from(spender, owner, other, 100, 1), Ok(()));
    assert_eq!((ledger.balance(owner), ledger.balance(other)), (0, 100));
    assert_eq!(ledger.allowance(owner, spender, 1), 400);

    // A grant of nothing is a grant.
    assert_eq!(ledger.approve(owner, spender, 0, 0), Ok(()));
    assert_eq!(
        ledger.get_allowance(owner, spender),
        Some(AllowanceValue { amount: 0, expiration_ledger: 0 })
    );
    let res = ledger.approve(owner, spender, -1, 50);
    assert_eq!(res, Err(Error::ZeroOrNegativeAmount));
    assert_eq!(res.unwrap_err().kind(), ErrorKind::Amount);
}

#[test]
fn duplicate_is_independent() {
    let mut ledger = Ledger::new();
    let a = Address::account(1);
    ledger.credit(a, 10).unwrap();
    ledger.approve(a, Address::account(2), 3, 9).unwrap();
    let copy = ledger.duplicate();
    ledger.debit(a, 10).unwrap();
    assert_eq!(copy.balance(a), 10);
    assert_eq!(copy.total_supply(), 10);
    assert_eq!(copy.allowance(a, Address::account(2), 9), 3);
    assert_eq!(ledger.balance(a), 0);
}

#[test]
fn assets_keep_separate_books() {
    let mut assets = Assets::new();
    let gold = Address::contract(11);
    let silver = Address::contract(12);
    let a = Address::account(1);
    let b = Address::account(2);
    assert_eq!(assets.balance(gold, a), 0);
    assert_eq!(assets.transfer(gold, a, b, 1), Err(Error::InsufficientBalance));
    assets.credit(gold, a, 10).unwrap();
    assets.credit(silver, a, 20).unwrap();
    assert_eq!(assets.transfer(gold, a, b, 4), Ok(()));
    assert_eq!((assets.balance(gold, a), assets.balance(gold, b)), (6, 4));
    assert_eq!((assets.balance(silver, a), assets.balance(silver, b)), (20, 0));
    assert_eq!(assets.transfer_from(silver, b, a, b, 5, 1), Err(Error::InsufficientAllowance));
    assets.approve(silver, a, b, 5, 7).unwrap();
    assert_eq!(assets.allowance(gold, a, b, 1), 0);
    assert_eq!(assets.allowance(silver, a, b, 7), 5);
    assert_eq!(assets.transfer_from(silver, b, a, b, 5, 8), Err(Error::InsufficientAllowance));
    assert_eq!(assets.transfer_from(silver, b, a, b, 5, 7), Ok(()));
    assert_eq!((assets.balance(silver, a), assets.balance(silver, b)), (15, 5));
    let copy = assets.duplicate();
    assets.transfer(gold, a, b, 6).unwrap();
    assert_eq!(copy.balance(gold, a), 6);
    assert_eq!(assets.balance(gold, a), 0);
}

#[test]
fn addresses_tell_accounts_from_contracts() {
    assert_ne!(Address::account(1), Address::contract(1));
    assert_eq!(Address::account(1), Address { contract: false, hi: 0, lo: 1 });
    assert_eq!(Address::contract(7), Address { contract: true, hi: 0, lo: 7 });
    assert_ne!(Address { contract: true, hi: 1, lo: 7 }, Address::contract(7));
}

#[test]
fn window_counts_what_is_held_elsewhere() {
    let a = Address::account(1);
    assert_eq!(Ledger::window(-1).err(), Some(Error::ZeroOrNegativeAmount));
    let mut ledger = Ledger::window(90).unwrap();
    assert_eq!(ledger.total_supply(), 90);
    assert_eq!(ledger.balance(a), 0);
    ledger.credit(a, 10).unwrap();
    assert_eq!((ledger.balance(a), ledger.total_supply()), (10, 100));
    assert_eq!(ledger.debit(a, 11), Err(Error::InsufficientBalance));
    ledger.debit(a, 10).unwrap();
    assert_eq!((ledger.balance(a), ledger.total_supply()), (0, 90));
    let mut full = Ledger::window(i128::MAX).unwrap();
    assert_eq!(full.credit(a, 1), Err(Error::ValueTooLargeOverflow));
}

#[test]
fn expired_grants_are_dropped() {
    let mut ledger = Ledger::new();
    let owner = Address::account(1);
    let early = Address::account(2);
    let late = Address::account(3);
    let never = Address::account(4);
    ledger.credit(owner, 100).unwrap();
    ledger.approve(owner, early, 10, 5).unwrap();
    ledger.approve(owner, late, 20, 9).unwrap();
    ledger.approve(early, owner, 30, 6).unwrap();
    ledger.drop_expired(6);
    assert_eq!(ledger.get_allowance(owner, early), None);
    assert_eq!(
        ledger.get_allowance(owner, late),
        Some(AllowanceValue { amount: 20, expiration_ledger: 9 })
    );
    assert_eq!(
        ledger.get_allowance(early, owner),
        Some(AllowanceValue { amount: 30, expiration_ledger: 6 })
    );
    assert_eq!(ledger.get_allowance(owner, never), None);
    assert_eq!(ledger.allowance(owner, late, 6), 20);
    assert_eq!(ledger.allowance(owner, early, 6), 0);
    assert_eq!((ledger.balance(owner), ledger.total_supply()), (100, 100));
    ledger.drop_expired(10);
    assert_eq!(ledger.get_allowance(owner, late), None);
    assert_eq!(ledger.get_allowance(early, owner), None);
}

#[test]
fn failures_fall_into_classes() {
    assert_eq!(Error::AlreadyInitialized.kind(), ErrorKind::Initialization);
    assert_eq!(Error::ZeroComponents.kind(), ErrorKind::Initialization);
    assert_eq!(Error::ComponentsAmountsLengthMismatch.kind(), ErrorKind::Initialization);
    assert_eq!(Error::ValueTooLargeOverflow.kind(), ErrorKind::Initialization);
    assert_eq!(Error::DuplicateComponent.kind(), ErrorKind::Initialization);
    assert_eq!(Error::ZeroValue.kind(), ErrorKind::Initialization);
    assert_eq!(Error::RequiresAdministrator.kind(), ErrorKind::Authorization);
    assert_eq!(Error::RequiresManager.kind(), ErrorKind::Authorization);
    assert_eq!(Error::RequiresAdapter.kind(), ErrorKind::Authorization);
    assert_eq!(Error::RequiresRegistry.kind(), ErrorKind::Authorization);
    assert_eq!(Error::RequiresFactory.kind(), ErrorKind::Authorization);
    assert_eq!(Error::RequiresExchangeRouter.kind(), ErrorKind::Authorization);
    assert_eq!(Error::ZeroOrNegativeAmount.kind(), ErrorKind::Amount);
    assert_eq!(Error::InsufficientBalance.kind(), ErrorKind::Amount);
    assert_eq!(Error::InsufficientAllowance.kind(), ErrorKind::Amount);
    assert_eq!(Error::AmountsInError.kind(), ErrorKind::Amount);
    assert_eq!(Error::ComponentNotFound.kind(), ErrorKind::Exchange);
    assert_eq!(Error::SwapError.kind(), ErrorKind::Exchange);
    assert_eq!(Error::ContractInvocationError.kind(), ErrorKind::Exchange);
    assert_eq!(Error::ExceedsMaxComponents.kind(), ErrorKind::Capacity);
}
