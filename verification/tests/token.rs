use constellation::address::Address;
use constellation::assets::Assets;
use constellation::error::{Error, ErrorKind};
use constellation::ledger::Ledger;
use constellation::token::{Component, ConstellationToken};

fn create_constellation_token() -> ConstellationToken {
    ConstellationToken::new(Address::contract(1))
}

/// A token with three components at 100 each, and its administrator and
/// manager.
fn initialize_token(mut ct: ConstellationToken) -> (ConstellationToken, Address, Address) {
    let components = vec![Address::contract(11), Address::contract(12), Address::contract(13)];
    let amounts = vec![100, 100, 100];
    let admin = Address::account(2);
    let manager = Address::account(3);
    ct.initialize(
        6,
        components,
        amounts,
        String::from("c_token"),
        String::from("token_symbol"),
        admin,
        manager,
    )
    .unwrap();
    (ct, admin, manager)
}

/// A basket of TokenA and TokenB at 1000 each, a user who holds `held` of
/// each and has let the basket draw `approved` of each.
fn basket_and_user(held: i128, approved: i128) -> (ConstellationToken, Assets, Address, Address) {
    let token_a = Address::contract(11);
    let token_b = Address::contract(12);
    let admin = Address::account(2);
    let user = Address::account(4);
    let mut ct = create_constellation_token();
    ct.initialize(
        6,
        vec![token_a, token_b],
        vec![1000, 1000],
        String::from("c_token"),
        String::from("token_symbol"),
        admin,
        Address::account(3),
    )
    .unwrap();
    let mut assets = Assets::new();
    if held > 0 {
        assets.credit(token_a, user, held).unwrap();
        assets.credit(token_b, user, held).unwrap();
    }
    assets.approve(token_a, user, ct.address(), approved, 1000).unwrap();
    assets.approve(token_b, user, ct.address(), approved, 1000).unwrap();
    (ct, assets, admin, user)
}

#[test]
fn test_initialize_should_panic_with_already_initalized() {
    let components = vec![Address::contract(11), Address::contract(12), Address::contract(13)];
    let amounts = vec![100, 100, 100];
    let decimal: u32 = 6;
    let admin = Address::account(2);
    let manager = Address::account(3);
    let mut ct = create_constellation_token();
    ct.initialize(
        decimal,
        components.clone(),
        amounts.clone(),
        String::from("c_token"),
        String::from("token_symbol"),
        admin,
        manager,
    )
    .unwrap();

    let res = ct.initialize(
        decimal,
        components,
        amounts,
        String::from("c_token"),
        String::from("token_symbol"),
        admin,
        manager,
    );

    assert_eq!(res, Err(Error::AlreadyInitialized));
    assert_eq!(ct.get_manager().unwrap(), manager);
    assert_eq!(ct.get_components().len(), 3);
}

#[test]
fn test_initialize_should_panic_with_components_amounts_length_mismatch() {
    let components = vec![
        Address::contract(11),
        Address::contract(12),
        Address::contract(13),
        Address::contract(14),
    ];
    let amounts = vec![100, 100, 100];
    let decimal: u32 = 6;
    let mut ct = create_constellation_token();

    let res = ct.initialize(
        decimal,
        components,
        amounts,
        String::from("c_token"),
        String::from("token_symbol"),
        Address::account(2),
        Address::account(3),
    );

    assert_eq!(res, Err(Error::ComponentsAmountsLengthMismatch));
}

#[test]
fn test_initialize_should_panic_with_zero_components() {
    let components: Vec<Address> = vec![];
    let amounts: Vec<i128> = vec![];
    let decimal: u32 = 6;
    let mut ct = create_constellation_token();

    let res = ct.initialize(
        decimal,
        components,
        amounts,
        String::from("c_token"),
        String::from("token_symbol"),
        Address::account(2),
        Address::account(3),
    );

    assert_eq!(res, Err(Error::ZeroComponents));
}

#[test]
fn test_initialize_should_panic_with_zero_or_negative_amount_not_allowed_1() {
    let components = vec![Address::contract(11), Address::contract(12), Address::contract(13)];
    let amounts = vec![100, 100, -1];
    let decimal: u32 = 6;
    let mut ct = create_constellation_token();

    let res = ct.initialize(
        decimal,
        components,
        amounts,
        String::from("c_token"),
        String::from("token_symbol"),
        Address::account(2),
        Address::account(3),
    );

    assert_eq!(res, Err(Error::ZeroOrNegativeAmount));
}

#[test]
fn test_initialize_should_panic_with_zero_or_negative_amount_not_allowed_2() {
    let components = vec![Address::contract(11), Address::contract(12), Address::contract(13)];
    let amounts = vec![100, 100, 0];
    let decimal: u32 = 6;
    let mut ct = create_constellation_token();

    let res = ct.initialize(
        decimal,
        components,
        amounts,
        String::from("c_token"),
        String::from("token_symbol"),
        Address::account(2),
        Address::account(3),
    );

    assert_eq!(res, Err(Error::ZeroOrNegativeAmount));
}

#[test]
fn test_initialize_successful() {
    let components = vec![Address::contract(11), Address::contract(12), Address::contract(13)];
    let amounts = vec![100, 100, 100];
    let decimal: u32 = 6;
    let admin = Address::account(2);
    let manager = Address::account(3);
    let mut ct = create_constellation_token();

    ct.initialize(
        decimal,
        components,
        amounts,
        String::from("c_token"),
        String::from("token_symbol"),
        admin,
        manager,
    )
    .unwrap();

    assert_eq!(ct.get_admin().unwrap(), admin);
    assert_eq!(ct.get_manager().unwrap(), manager);
    assert_eq!(ct.get_components().len(), 3);
}

#[test]
fn test_set_manager_panics_with_authorization_failed() {
    let new_manager = Address::account(9);

    let (mut ct, _admin, manager) = initialize_token(create_constellation_token());
    assert_eq!(ct.set_manager(new_manager, new_manager), Err(Error::RequiresManager));
    assert_eq!(ct.get_manager().unwrap(), manager);
    ct.set_manager(manager, new_manager).unwrap();
    assert_eq!(ct.get_manager().unwrap(), new_manager);
}

#[test]
fn mint_reverts_with_zero_or_negative_amount_not_allowed() {
    let mint_to = Address::account(5);
    let mut assets = Assets::new();

    let (mut ct, admin, _) = initialize_token(create_constellation_token());

    let restult = ct.mint(admin, &mut assets, mint_to, i128::from(0), 1);
    assert_eq!(restult, Err(Error::ZeroOrNegativeAmount));
}

#[test]
fn initialize_keeps_metadata_and_table() {
    let components = vec![Address::contract(11), Address::contract(12)];
    let mut ct = create_constellation_token();
    ct.initialize(
        7,
        components,
        vec![10000000000, 20000000000],
        String::from("c_token"),
        String::from("token_symbol"),
        Address::account(2),
        Address::account(3),
    )
    .unwrap();
    assert_eq!(ct.decimals(), 7);
    assert_eq!(ct.name(), "c_token");
    assert_eq!(ct.symbol(), "token_symbol");
    assert_eq!(ct.address(), Address::contract(1));
    assert_eq!(
        ct.get_components(),
        vec![
            Component { address: Address::contract(11), unit: 10000000000 },
            Component { address: Address::contract(12), unit: 20000000000 },
        ]
    );
    assert_eq!(ct.unit(Address::contract(12)), Some(20000000000));
    assert_eq!(ct.unit(Address::contract(13)), None);
    assert_eq!(ct.total_supply(), 0);
}

#[test]
fn initialize_refuses_decimal_beyond_a_byte() {
    let mut ct = create_constellation_token();
    let res = ct.initialize(
        256,
        vec![Address::contract(11)],
        vec![100],
        String::from("c_token"),
        String::from("token_symbol"),
        Address::account(2),
        Address::account(3),
    );
    assert_eq!(res, Err(Error::ValueTooLargeOverflow));
    assert_eq!(ct.get_admin(), None);
    let mut ct = create_constellation_token();
    let res = ct.initialize(
        255,
        vec![Address::contract(11)],
        vec![100],
        String::from("c_token"),
        String::from("token_symbol"),
        Address::account(2),
        Address::account(3),
    );
    assert_eq!(res, Ok(()));
}

#[test]
fn initialize_refuses_repeated_component() {
    let mut ct = create_constellation_token();
    let res = ct.initialize(
        6,
        vec![Address::contract(11), Address::contract(12), Address::contract(11)],
        vec![100, 100, 100],
        String::from("c_token"),
        String::from("token_symbol"),
        Address::account(2),
        Address::account(3),
    );
    assert_eq!(res, Err(Error::DuplicateComponent));
    assert_eq!(ct.get_components().len(), 0);
}

#[test]
fn second_initialize_leaves_first_untouched() {
    let (mut ct, admin, manager) = initialize_token(create_constellation_token());
    let res = ct.initialize(
        9,
        vec![Address::contract(21)],
        vec![5],
        String::from("other"),
        String::from("OTH"),
        Address::account(7),
        Address::account(8),
    );
    assert_eq!(res, Err(Error::AlreadyInitialized));
    assert_eq!(res.unwrap_err().kind(), ErrorKind::Initialization);
    assert_eq!(ct.get_admin(), Some(admin));
    assert_eq!(ct.get_manager(), Some(manager));
    assert_eq!(ct.decimals(), 6);
    assert_eq!(ct.name(), "c_token");
    assert_eq!(ct.symbol(), "token_symbol");
    assert_eq!(ct.get_components().len(), 3);
    assert_eq!(ct.get_components()[0], Component { address: Address::contract(11), unit: 100 });
}

#[test]
fn mint_locks_components_and_credits_baskets() {
    let (mut ct, mut assets, admin, user) = basket_and_user(10000, 10_000_000);
    let token_a = Address::contract(11);
    let token_b = Address::contract(12);

    assert_eq!(ct.mint(admin, &mut assets, user, 10, 1), Ok(()));

    assert_eq!(assets.balance(token_a, ct.address()), 10000);
    assert_eq!(assets.balance(token_b, ct.address()), 10000);
    assert_eq!(assets.balance(token_a, user), 0);
    assert_eq!(assets.balance(token_b, user), 0);
    assert_eq!(ct.balance(user), 10);
    assert_eq!(ct.total_supply(), 10);
    assert_eq!(assets.allowance(token_a, user, ct.address(), 1), 10_000_000 - 10000);
}

#[test]
fn mint_by_stranger_requires_administrator() {
    let (mut ct, mut assets, _admin, user) = basket_and_user(10000, 10_000_000);
    let token_a = Address::contract(11);

    let res = ct.mint(user, &mut assets, user, 10, 1);

    assert_eq!(res, Err(Error::RequiresAdministrator));
    assert_eq!(res.unwrap_err().kind(), ErrorKind::Authorization);
    assert_eq!(ct.balance(user), 0);
    assert_eq!(ct.total_supply(), 0);
    assert_eq!(assets.balance(token_a, user), 10000);
    assert_eq!(assets.balance(token_a, ct.address()), 0);
}

#[test]
fn mint_before_initialize_requires_administrator() {
    let mut ct = create_constellation_token();
    let mut assets = Assets::new();
    let res = ct.mint(Address::account(2), &mut assets, Address::account(4), 1, 1);
    assert_eq!(res, Err(Error::RequiresAdministrator));
}

#[test]
fn mint_and_redeem_refuse_amounts_that_are_not_positive() {
    let (mut ct, mut assets, admin, user) = basket_and_user(10000, 10_000_000);
    let token_a = Address::contract(11);
    for amount in [0i128, -1, i128::MIN] {
        let res = ct.mint(admin, &mut assets, user, amount, 1);
        assert_eq!(res, Err(Error::ZeroOrNegativeAmount));
        assert_eq!(res.unwrap_err().kind(), ErrorKind::Amount);
        let res = ct.redeem(admin, &mut assets, user, amount);
        assert_eq!(res, Err(Error::ZeroOrNegativeAmount));
        assert_eq!(ct.balance(user), 0);
        assert_eq!(ct.total_supply(), 0);
        assert_eq!(assets.balance(token_a, user), 10000);
    }
    // The amount is looked at before the caller.
    assert_eq!(ct.mint(user, &mut assets, user, 0, 1), Err(Error::ZeroOrNegativeAmount));
}

#[test]
fn mint_is_all_or_nothing() {
    let token_a = Address::contract(11);
    let token_b = Address::contract(12);
    let admin = Address::account(2);
    let user = Address::account(4);
    let mut ct = create_constellation_token();
    ct.initialize(
        6,
        vec![token_a, token_b],
        vec![6000, 6000],
        String::from("c_token"),
        String::from("token_symbol"),
        admin,
        Address::account(3),
    )
    .unwrap();
    let mut assets = Assets::new();
    assets.credit(token_a, user, 6000).unwrap();
    assets.credit(token_b, user, 5000).unwrap();
    assets.approve(token_a, user, ct.address(), 10000, 1000).unwrap();
    assets.approve(token_b, user, ct.address(), 10000, 1000).unwrap();

    // The first component could be locked, the second cannot.
    assert_eq!(ct.mint(admin, &mut assets, user, 1, 1), Err(Error::InsufficientBalance));
    assert_eq!(assets.balance(token_a, user), 6000);
    assert_eq!(assets.balance(token_b, user), 5000);
    assert_eq!(assets.balance(token_a, ct.address()), 0);
    assert_eq!(assets.allowance(token_a, user, ct.address(), 1), 10000);
    assert_eq!(ct.balance(user), 0);
}

#[test]
fn mint_needs_a_grant_that_has_not_expired() {
    let (mut ct, mut assets, admin, user) = basket_and_user(10000, 5000);
    assert_eq!(ct.mint(admin, &mut assets, user, 10, 1), Err(Error::InsufficientAllowance));
    let (mut ct, mut assets, admin, user) = basket_and_user(10000, 10_000_000);
    assert_eq!(ct.mint(admin, &mut assets, user, 10, 1001), Err(Error::InsufficientAllowance));
    assert_eq!(ct.mint(admin, &mut assets, user, 10, 1000), Ok(()));
}

#[test]
fn mint_refuses_quantities_beyond_the_range() {
    let (mut ct, mut assets, admin, user) = basket_and_user(10000, 10_000_000);
    let res = ct.mint(admin, &mut assets, user, i128::MAX / 999, 1);
    assert_eq!(res, Err(Error::ValueTooLargeOverflow));
    assert_eq!(ct.total_supply(), 0);
}

#[test]
fn redeem_after_mint_restores_everything() {
    let (mut ct, mut assets, admin, user) = basket_and_user(25000, 10_000_000);
    let token_a = Address::contract(11);
    let token_b = Address::contract(12);
    ct.mint(admin, &mut assets, user, 3, 1).unwrap();
    let reserve_a = assets.balance(token_a, ct.address());
    let reserve_b = assets.balance(token_b, ct.address());
    let held_a = assets.balance(token_a, user);
    let baskets = ct.balance(user);
    assert_eq!((reserve_a, reserve_b, held_a, baskets), (3000, 3000, 22000, 3));

    ct.mint(admin, &mut assets, user, 7, 1).unwrap();
    assert_eq!(assets.balance(token_a, ct.address()), 10000);
    ct.redeem(admin, &mut assets, user, 7).unwrap();

    assert_eq!(assets.balance(token_a, ct.address()), reserve_a);
    assert_eq!(assets.balance(token_b, ct.address()), reserve_b);
    assert_eq!(assets.balance(token_a, user), held_a);
    assert_eq!(ct.balance(user), baskets);
    assert_eq!(ct.total_supply(), 3);
}

#[test]
fn redeem_needs_baskets_and_administrator() {
    let (mut ct, mut assets, admin, user) = basket_and_user(10000, 10_000_000);
    ct.mint(admin, &mut assets, user, 10, 1).unwrap();
    assert_eq!(ct.redeem(user, &mut assets, user, 1), Err(Error::RequiresAdministrator));
    assert_eq!(ct.redeem(admin, &mut assets, user, 11), Err(Error::InsufficientBalance));
    assert_eq!(ct.balance(user), 10);
    assert_eq!(ct.redeem(admin, &mut assets, user, 10), Ok(()));
    assert_eq!(ct.balance(user), 0);
    assert_eq!(assets.balance(Address::contract(11), user), 10000);
    assert_eq!(assets.balance(Address::contract(11), ct.address()), 0);
}

#[test]
fn reserve_covers_supply_after_mint_and_redeem() {
    let (mut ct, mut assets, admin, user) = basket_and_user(50000, 10_000_000);
    let covered = |ct: &ConstellationToken, assets: &Assets| {
        ct.get_components()
            .iter()
            .all(|c| assets.balance(c.address, ct.address()) >= c.unit * ct.total_supply())
    };
    assert!(covered(&ct, &assets));
    ct.mint(admin, &mut assets, user, 12, 1).unwrap();
    assert!(covered(&ct, &assets));
    ct.redeem(admin, &mut assets, user, 5).unwrap();
    assert!(covered(&ct, &assets));
    assert_eq!(assets.balance(Address::contract(11), ct.address()), 7000);
}

#[test]
fn required_amounts_are_unit_times_amount() {
    let (ct, _, _) = initialize_token(create_constellation_token());
    assert_eq!(ct.required_amounts(7), Ok(vec![700, 700, 700]));
    assert_eq!(ct.required_amounts(0), Err(Error::ZeroOrNegativeAmount));
    assert_eq!(ct.required_amounts(i128::MAX / 50), Err(Error::ValueTooLargeOverflow));
}

#[test]
fn set_admin_is_for_the_administrator() {
    let (mut ct, admin, _manager) = initialize_token(create_constellation_token());
    let next = Address::account(9);
    assert_eq!(ct.set_admin(next, next), Err(Error::RequiresAdministrator));
    assert_eq!(ct.get_admin(), Some(admin));
    assert_eq!(ct.set_admin(admin, next), Ok(()));
    assert_eq!(ct.get_admin(), Some(next));
    assert_eq!(ct.set_admin(admin, admin), Err(Error::RequiresAdministrator));
    let mut fresh = create_constellation_token();
    assert_eq!(fresh.set_admin(admin, next), Err(Error::RequiresAdministrator));
    assert_eq!(fresh.set_manager(admin, next), Err(Error::RequiresManager));
}

#[test]
fn baskets_move_like_any_token() {
    let (mut ct, mut assets, admin, user) = basket_and_user(10000, 10_000_000);
    let friend = Address::account(6);
    let spender = Address::account(7);
    ct.mint(admin, &mut assets, user, 10, 1).unwrap();

    assert_eq!(ct.transfer(user, friend, 4), Ok(()));
    assert_eq!((ct.balance(user), ct.balance(friend)), (6, 4));
    assert_eq!(ct.transfer(user, friend, 7), Err(Error::InsufficientBalance));
    assert_eq!(ct.transfer(user, friend, 0), Err(Error::ZeroOrNegativeAmount));

    assert_eq!(ct.get_allowance(user, spender), None);
    assert_eq!(ct.approve(user, spender, 5, 200), Ok(()));
    assert_eq!(ct.approve(user, spender, -1, 200), Err(Error::ZeroOrNegativeAmount));
    assert_eq!(ct.allowance(user, spender, 200), 5);
    assert_eq!(ct.allowance(user, spender, 201), 0);
    assert_eq!(ct.get_allowance(user, spender).unwrap().amount, 5);
    assert_eq!(ct.get_allowance(user, spender).unwrap().expiration_ledger, 200);
    assert_eq!(ct.transfer_from(spender, user, friend, 6, 10), Err(Error::InsufficientAllowance));
    assert_eq!(ct.transfer_from(spender, user, friend, 2, 10), Ok(()));
    assert_eq!((ct.balance(user), ct.balance(friend)), (4, 6));
    assert_eq!(ct.allowance(user, spender, 10), 3);
    assert_eq!(ct.transfer_from(spender, user, friend, 2, 201), Err(Error::InsufficientAllowance));

    assert_eq!(ct.burn_from(spender, user, 3, 10), Ok(()));
    assert_eq!(ct.burn_from(spender, user, 1, 10), Err(Error::InsufficientAllowance));
    assert_eq!(ct.burn(friend, 6), Ok(()));
    assert_eq!(ct.burn(friend, 1), Err(Error::InsufficientBalance));
    assert_eq!((ct.balance(user), ct.balance(friend), ct.total_supply()), (1, 0, 1));
}

#[test]
fn set_component_unit_is_checked_against_the_reserve() {
    let (mut ct, mut assets, admin, user) = basket_and_user(10000, 10_000_000);
    let manager = Address::account(3);
    let token_a = Address::contract(11);
    let token_b = Address::contract(12);
    let token_c = Address::contract(13);
    ct.mint(admin, &mut assets, user, 10, 1).unwrap();
    assets.credit(token_c, ct.address(), 55).unwrap();

    assert_eq!(
        ct.set_component_unit(admin, &assets, token_a, token_c, 5),
        Err(Error::RequiresManager)
    );
    assert_eq!(
        ct.set_component_unit(manager, &assets, token_a, token_c, 0),
        Err(Error::ZeroOrNegativeAmount)
    );
    assert_eq!(
        ct.set_component_unit(manager, &assets, token_c, token_a, 5),
        Err(Error::ComponentNotFound)
    );
    assert_eq!(
        ct.set_component_unit(manager, &assets, token_a, token_b, 5),
        Err(Error::DuplicateComponent)
    );
    assert_eq!(
        ct.set_component_unit(manager, &assets, token_a, token_c, 6),
        Err(Error::InsufficientBalance)
    );
    assert_eq!(ct.unit(token_a), Some(1000));
    assert_eq!(ct.set_component_unit(manager, &assets, token_a, token_c, 5), Ok(()));
    assert_eq!(
        ct.get_components(),
        vec![
            Component { address: token_c, unit: 5 },
            Component { address: token_b, unit: 1000 },
        ]
    );
    // With the asset unchanged, the unit alone changes.
    assert_eq!(ct.set_component_unit(manager, &assets, token_b, token_b, 900), Ok(()));
    assert_eq!(ct.unit(token_b), Some(900));
    assert_eq!(
        ct.set_component_unit(manager, &assets, token_b, token_b, 1001),
        Err(Error::InsufficientBalance)
    );
}

#[test]
fn restore_puts_a_stored_instance_together() {
    let holder = Address::account(4);
    let admin = Address::account(2);
    let manager = Address::account(3);
    let mut ledger = Ledger::window(90).unwrap();
    ledger.credit(holder, 10).unwrap();
    let ct = ConstellationToken::restore(
        Address::contract(1),
        Some(admin),
        Some(manager),
        6,
        vec![Address::contract(11), Address::contract(12)],
        vec![1000, 500],
        String::from("c_token"),
        String::from("token_symbol"),
        ledger,
    )
    .unwrap();
    assert_eq!(ct.address(), Address::contract(1));
    assert_eq!(ct.get_admin(), Some(admin));
    assert_eq!(ct.get_manager(), Some(manager));
    assert_eq!(ct.decimals(), 6);
    assert_eq!(ct.name(), "c_token");
    assert_eq!(ct.unit(Address::contract(12)), Some(500));
    assert_eq!(ct.balance(holder), 10);
    assert_eq!(ct.total_supply(), 100);
    let copy = ct.duplicate();
    assert_eq!(copy.get_components(), ct.get_components());
    assert_eq!(copy.total_supply(), 100);
    assert_eq!(copy.symbol(), "token_symbol");
}

#[test]
fn restore_holds_the_parts_to_the_invariant() {
    let restore = |admin: Option<Address>,
                   decimal: u32,
                   components: Vec<Address>,
                   units: Vec<i128>| {
        ConstellationToken::restore(
            Address::contract(1),
            admin,
            None,
            decimal,
            components,
            units,
            String::new(),
            String::new(),
            Ledger::new(),
        )
        .err()
    };
    let a = Address::contract(11);
    let b = Address::contract(12);
    assert_eq!(restore(None, 0, vec![], vec![]), None);
    assert_eq!(restore(None, 256, vec![], vec![]), Some(Error::ValueTooLargeOverflow));
    assert_eq!(restore(Some(a), 0, vec![], vec![]), Some(Error::ZeroComponents));
    assert_eq!(restore(None, 0, vec![a], vec![]), Some(Error::ComponentsAmountsLengthMismatch));
    assert_eq!(restore(None, 0, vec![a, b], vec![1, 0]), Some(Error::ZeroOrNegativeAmount));
    assert_eq!(restore(None, 0, vec![a, a], vec![1, 1]), Some(Error::DuplicateComponent));
    assert_eq!(restore(Some(a), 255, vec![a, b], vec![1, 1]), None);
}

#[test]
fn supply_change_is_for_the_administrator() {
    let (ct, admin, manager) = initialize_token(create_constellation_token());
    assert_eq!(ct.supply_change(admin, 3), Ok(vec![300, 300, 300]));
    assert_eq!(ct.supply_change(manager, 3), Err(Error::RequiresAdministrator));
    assert_eq!(ct.supply_change(manager, 0), Err(Error::ZeroOrNegativeAmount));
    assert_eq!(ct.supply_change(admin, i128::MAX), Err(Error::ValueTooLargeOverflow));
}

#[test]
fn token_drops_expired_grants() {
    let (mut ct, _, _) = initialize_token(create_constellation_token());
    let owner = Address::account(4);
    let spender = Address::account(5);
    ct.approve(owner, spender, 5, 10).unwrap();
    ct.drop_expired(10);
    assert_eq!(ct.allowance(owner, spender, 10), 5);
    ct.drop_expired(11);
    assert_eq!(ct.get_allowance(owner, spender), None);
}
