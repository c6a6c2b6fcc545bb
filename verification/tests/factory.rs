use constellation::address::Address;
use constellation::error::{Error, ErrorKind};
use constellation::factory::Factory;

fn create(
    factory: &mut Factory,
    address: Address,
    components: Vec<Address>,
) -> Result<Address, Error> {
    let amounts = vec![100; components.len()];
    factory
        .create_constellation_token(
            address,
            6,
            String::from("c_token"),
            String::from("token_symbol"),
            Address::account(2),
            Address::account(3),
            components,
            amounts,
        )
        .map(|token| token.address())
}

#[test]
fn factory_limit_is_not_zero() {
    let mut factory = Factory::new();
    assert_eq!(factory.get_max_components(), None);
    assert_eq!(factory.initialize(None), Ok(()));
    assert_eq!(factory.get_max_components(), None);
    assert_eq!(factory.initialize(Some(0)), Err(Error::ZeroValue));
    assert_eq!(factory.get_max_components(), None);
    assert_eq!(factory.initialize(Some(3)), Ok(()));
    assert_eq!(factory.get_max_components(), Some(3));
    assert_eq!(factory.set_max_components(0), Err(Error::ZeroValue));
    assert_eq!(factory.get_max_components(), Some(3));
    assert_eq!(factory.set_max_components(5), Ok(()));
    assert_eq!(factory.get_max_components(), Some(5));
    assert_eq!(factory.initialize(None), Ok(()));
    assert_eq!(factory.get_max_components(), Some(5));
}

#[test]
fn factory_lists_what_it_made() {
    let mut factory = Factory::new();
    let first = Address::contract(60);
    let second = Address::contract(61);
    assert_eq!(create(&mut factory, first, vec![Address::contract(11)]), Ok(first));
    assert_eq!(
        create(&mut factory, second, vec![Address::contract(11), Address::contract(12)]),
        Ok(second)
    );
    assert_eq!(factory.get_token_list(), vec![first, second]);
    // An address is used once.
    assert_eq!(
        create(&mut factory, first, vec![Address::contract(11)]),
        Err(Error::AlreadyInitialized)
    );
    assert_eq!(factory.get_token_list(), vec![first, second]);
}

#[test]
fn factory_holds_tokens_to_the_limit() {
    let mut factory = Factory::new();
    factory.set_max_components(2).unwrap();
    let three = vec![Address::contract(11), Address::contract(12), Address::contract(13)];
    let res = create(&mut factory, Address::contract(60), three);
    assert_eq!(res, Err(Error::ExceedsMaxComponents));
    assert_eq!(res.unwrap_err().kind(), ErrorKind::Capacity);
    assert_eq!(factory.get_token_list().len(), 0);
    let two = vec![Address::contract(11), Address::contract(12)];
    assert_eq!(create(&mut factory, Address::contract(60), two), Ok(Address::contract(60)));
}

#[test]
fn factory_makes_no_token_that_is_refused() {
    let mut factory = Factory::new();
    assert_eq!(create(&mut factory, Address::contract(60), vec![]), Err(Error::ZeroComponents));
    let res = factory.create_constellation_token(
        Address::contract(60),
        6,
        String::from("c_token"),
        String::from("token_symbol"),
        Address::account(2),
        Address::account(3),
        vec![Address::contract(11)],
        vec![100, 100],
    );
    assert_eq!(res.err(), Some(Error::ComponentsAmountsLengthMismatch));
    assert_eq!(factory.get_token_list().len(), 0);
}

#[test]
fn factory_is_restored_from_its_parts() {
    let first = Address::contract(60);
    let mut factory = Factory::restore(Some(1), vec![first]);
    assert_eq!(factory.get_max_components(), Some(1));
    assert_eq!(factory.get_token_list(), vec![first]);
    assert_eq!(
        create(&mut factory, first, vec![Address::contract(11)]),
        Err(Error::AlreadyInitialized)
    );
    assert_eq!(
        create(&mut factory, Address::contract(61), vec![Address::contract(11)]),
        Ok(Address::contract(61))
    );
    assert_eq!(factory.get_token_list(), vec![first, Address::contract(61)]);
}
