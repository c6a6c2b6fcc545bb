//! The router: it takes one input asset from a caller, acquires with it the
//! components that a mint needs, mints, and hands back what it did not spend,
//! all or nothing.

use crate::address::Address;
use crate::assets::{Assets, AssetsView};
use crate::error::Error;
use crate::factory::{Factory, FactoryView};
use crate::moment::Moment;
use crate::token::{Component, ConstellationToken, TokenView};
use vstd::prelude::*;

verus! {

/// The router as mathematics: its own address, which holds what it has in
/// custody, and the factory and the exchange it works with, once set.
pub struct RouterView {
    pub address: Address,
    pub factory: Option<Address>,
    pub exchange: Option<Address>,
}

/// What an assembly is to do: mint `target_amount` baskets to `to`, paying
/// for the components with at most `max_input` of `input_asset`, before
/// `deadline` passes.
#[derive(Clone, Copy, Debug, PartialEq, Eq, Structural)]
pub struct Assembly {
    pub input_asset: Address,
    pub max_input: i128,
    pub target_amount: i128,
    pub to: Address,
    pub deadline: u64,
}

/// What one component costs in the input asset: the exchange's quote, or,
/// where the input asset is itself the component, the amount needed.
pub open spec fn leg_cost(
    component: Component,
    quote: i128,
    input_asset: Address,
    target: int,
) -> int {
    if component.address == input_asset {
        component.unit * target
    } else {
        quote as int
    }
}

/// What the first `i` components cost together, unless a quote is not
/// positive or the sum leaves the range of amounts.
pub open spec fn planned(
    components: Seq<Component>,
    quotes: Seq<i128>,
    input_asset: Address,
    target: int,
    i: int,
) -> Result<int, Error>
    decreases i,
{
    if i <= 0 {
        Ok(0)
    } else {
        match planned(components, quotes, input_asset, target, i - 1) {
            Err(e) => Err(e),
            Ok(total) => if components[i - 1].address != input_asset && quotes[i - 1] <= 0 {
                Err(Error::SwapError)
            } else if total + leg_cost(components[i - 1], quotes[i - 1], input_asset, target)
                > i128::MAX {
                Err(Error::AmountsInError)
            } else {
                Ok(total + leg_cost(components[i - 1], quotes[i - 1], input_asset, target))
            },
        }
    }
}

/// The world after one component was acquired for `to`: the router paid
/// `cost` of the input asset to the exchange and the exchange paid
/// `quantity` of the component to `to`; or, where the input asset is itself
/// the component, the router paid `quantity` of it to `to`.
pub open spec fn leg_acquired(
    world: AssetsView,
    router: Address,
    exchange: Address,
    to: Address,
    input_asset: Address,
    component: Address,
    cost: int,
    quantity: int,
) -> Result<AssetsView, Error> {
    if component == input_asset {
        match world.books[input_asset].debit_error(router, quantity) {
            Some(e) => Err(e),
            None => Ok(
                world.with_books(
                    input_asset,
                    world.books[input_asset].transferred(router, to, quantity),
                ),
            ),
        }
    } else {
        match world.books[input_asset].debit_error(router, cost) {
            Some(e) => Err(e),
            None => {
                let paid = world.with_books(
                    input_asset,
                    world.books[input_asset].transferred(router, exchange, cost),
                );
                if paid.books[component].debit_error(exchange, quantity) is Some {
                    Err(Error::SwapError)
                } else {
                    Ok(
                        paid.with_books(
                            component,
                            paid.books[component].transferred(exchange, to, quantity),
                        ),
                    )
                }
            },
        }
    }
}

/// The world after the first `i` components were acquired, in the order of
/// the table.
pub open spec fn acquired(
    world: AssetsView,
    router: Address,
    exchange: Address,
    to: Address,
    input_asset: Address,
    components: Seq<Component>,
    quotes: Seq<i128>,
    target: int,
    i: int,
) -> Result<AssetsView, Error>
    decreases i,
{
    if i <= 0 {
        Ok(world)
    } else {
        match acquired(
            world,
            router,
            exchange,
            to,
            input_asset,
            components,
            quotes,
            target,
            i - 1,
        ) {
            Err(e) => Err(e),
            Ok(before) => leg_acquired(
                before,
                router,
                exchange,
                to,
                input_asset,
                components[i - 1].address,
                leg_cost(components[i - 1], quotes[i - 1], input_asset, target),
                components[i - 1].unit * target,
            ),
        }
    }
}

/// The world after the router handed `refund` of the input asset back to
/// `caller`; nothing moves where nothing is left over.
pub open spec fn refunded(
    world: AssetsView,
    router: Address,
    caller: Address,
    input_asset: Address,
    refund: int,
) -> Result<AssetsView, Error> {
    if refund <= 0 {
        Ok(world)
    } else {
        match world.books[input_asset].debit_error(router, refund) {
            Some(e) => Err(e),
            None => Ok(
                world.with_books(
                    input_asset,
                    world.books[input_asset].transferred(router, caller, refund),
                ),
            ),
        }
    }
}

/// Some component needs more than an amount can hold.
pub open spec fn overflows(components: Seq<Component>, target: int) -> bool {
    exists|i: int| 0 <= i < components.len() && (#[trigger] components[i]).unit * target > i128::MAX
}

/// What an assembly comes to: the token, the world and the refund after it,
/// or why it fails. In order: the router needs its exchange; the amounts have
/// to be positive; the deadline must not have passed; the components'
/// quantities and costs are worked out and held against `max_input`; the
/// input is taken from the caller; the components are acquired; the baskets
/// are minted; what was not spent goes back.
pub open spec fn assembled(
    router: RouterView,
    token: TokenView,
    assets: AssetsView,
    caller: Address,
    assembly: Assembly,
    quotes: Seq<i128>,
    now: Moment,
) -> Result<(TokenView, AssetsView, int), Error> {
    let target = assembly.target_amount as int;
    let input = assembly.input_asset;
    let count = token.components.len() as int;
    if router.exchange is None {
        Err(Error::RequiresExchangeRouter)
    } else if assembly.target_amount <= 0 || assembly.max_input <= 0 {
        Err(Error::ZeroOrNegativeAmount)
    } else if assembly.deadline < now.timestamp {
        Err(Error::SwapError)
    } else if overflows(token.components, target) {
        Err(Error::ValueTooLargeOverflow)
    } else if quotes.len() != count {
        Err(Error::ContractInvocationError)
    } else {
        match planned(token.components, quotes, input, target, count) {
            Err(e) => Err(e),
            Ok(total) => if total > assembly.max_input {
                Err(Error::AmountsInError)
            } else {
                match assets.books[input].transfer_from_error(
                    router.address,
                    caller,
                    assembly.max_input as int,
                    now.sequence,
                ) {
                    Some(e) => Err(e),
                    None => match acquired(
                        assets.with_books(
                            input,
                            assets.books[input].transferred_from(
                                router.address,
                                caller,
                                router.address,
                                assembly.max_input as int,
                            ),
                        ),
                        router.address,
                        router.exchange->Some_0,
                        assembly.to,
                        input,
                        token.components,
                        quotes,
                        target,
                        count,
                    ) {
                        Err(e) => Err(e),
                        Ok(world) => match token.mint_error(
                            world,
                            router.address,
                            assembly.to,
                            target,
                            now.sequence,
                        ) {
                            Some(e) => Err(e),
                            None => match refunded(
                                token.locked(world, assembly.to, target),
                                router.address,
                                caller,
                                input,
                                assembly.max_input - total,
                            ) {
                                Err(e) => Err(e),
                                Ok(settled) => Ok(
                                    (
                                        token.minted(assembly.to, target),
                                        settled,
                                        assembly.max_input - total,
                                    ),
                                ),
                            },
                        },
                    },
                }
            },
        }
    }
}

/// The router.
#[derive(Debug)]
pub struct Router {
    address: Address,
    factory: Option<Address>,
    exchange: Option<Address>,
}

impl View for Router {
    type V = RouterView;

    closed spec fn view(&self) -> RouterView {
        RouterView { address: self.address, factory: self.factory, exchange: self.exchange }
    }
}

impl Router {
    /// The router as it is deployed at `address`: neither factory nor
    /// exchange is set.
    pub fn new(address: Address) -> (router: Router)
        ensures
            router@ == (RouterView { address, factory: None, exchange: None }),
    {
        Router { address, factory: None, exchange: None }
    }

    /// Sets, once, the factory and the exchange that the router works with.
    pub fn initialize(&mut self, factory: Address, exchange: Address) -> (result: Result<(), Error>)
        ensures
            if old(self)@.factory is Some || old(self)@.exchange is Some {
                result == Err::<(), Error>(Error::AlreadyInitialized) && final(self)@ == old(self)@
            } else {
                result == Ok::<(), Error>(()) && final(self)@ == (RouterView {
                    address: old(self)@.address,
                    factory: Some(factory),
                    exchange: Some(exchange),
                })
            },
    {
        if self.factory.is_some() || self.exchange.is_some() {
            return Err(Error::AlreadyInitialized);
        }
        self.factory = Some(factory);
        self.exchange = Some(exchange);
        Ok(())
    }

    /// The address at which the router is deployed.
    pub fn address(&self) -> (address: Address)
        ensures
            address == self@.address,
    {
        self.address
    }

    /// Has `factory` create the basket token deployed at `address`, with the
    /// router as its administrator.
    pub fn create_token(
        &self,
        factory: &mut Factory,
        address: Address,
        decimal: u32,
        name: String,
        symbol: String,
        manager: Address,
        components: Vec<Address>,
        amounts: Vec<i128>,
    ) -> (result: Result<ConstellationToken, Error>)
        ensures
            match if self@.factory is None {
                Some(Error::RequiresFactory)
            } else {
                old(factory)@.create_error(address, decimal, components@, amounts@)
            } {
                Some(e) => {
                    &&& result matches Err(error)
                    &&& error == e
                    &&& final(factory)@ == old(factory)@
                },
                None => {
                    &&& result matches Ok(token)
                    &&& token.wf()
                    &&& token@ == crate::factory::deployed(address).initialized(
                        decimal,
                        components@,
                        amounts@,
                        name@,
                        symbol@,
                        self@.address,
                        manager,
                    )
                    &&& final(factory)@ == (FactoryView {
                        token_list: old(factory)@.token_list.push(address),
                        ..old(factory)@
                    })
                },
            },
    {
        if self.factory.is_none() {
            return Err(Error::RequiresFactory);
        }
        factory.create_constellation_token(
            address,
            decimal,
            name,
            symbol,
            self.address,
            manager,
            components,
            amounts,
        )
    }

    /// What the components of `token` cost together at `quotes`.
    fn plan(
        components: &Vec<Component>,
        quantities: &Vec<i128>,
        quotes: &Vec<i128>,
        input_asset: Address,
        target: i128,
    ) -> (result: Result<i128, Error>)
        requires
            quotes@.len() == components@.len(),
            quantities@.len() == components@.len(),
            target > 0,
            forall|i: int|
                0 <= i < components@.len() ==> quantities@[i] == (#[trigger] components@[i]).unit
                    * target,
            forall|i: int| 0 <= i < components@.len() ==> (#[trigger] components@[i]).unit > 0,
        ensures
            match planned(
                components@,
                quotes@,
                input_asset,
                target as int,
                components@.len() as int,
            ) {
                Ok(total) => result == Ok::<i128, Error>(total as i128) && 0 <= total <= i128::MAX,
                Err(e) => result == Err::<i128, Error>(e),
            },
    {
        let mut total: i128 = 0;
        let mut i: usize = 0;
        while i < components.len()
            invariant
                i <= components@.len(),
                quotes@.len() == components@.len(),
                quantities@.len() == components@.len(),
                target > 0,
                forall|j: int|
                    0 <= j < components@.len() ==> quantities@[j] == (
                    #[trigger] components@[j]).unit * target,
                forall|j: int| 0 <= j < components@.len() ==> (#[trigger] components@[j]).unit > 0,
                0 <= total,
                planned(components@, quotes@, input_asset, target as int, i as int) == Ok::<
                    int,
                    Error,
                >(total as int),
            decreases components@.len() - i,
        {
            let component = components[i];
            assert(component.unit * target > 0) by (nonlinear_arith)
                requires
                    component.unit > 0,
                    target > 0,
            ;
            proof {
                reveal_with_fuel(planned, 2);
            }
            let cost: i128 = if component.address == input_asset {
                quantities[i]
            } else {
                if quotes[i] <= 0 {
                    proof {
                        lemma_planned_stays(
                            components@,
                            quotes@,
                            input_asset,
                            target as int,
                            i + 1,
                            components@.len() as int,
                        );
                    }
                    return Err(Error::SwapError);
                }
                quotes[i]
            };
            total = match total.checked_add(cost) {
                Some(sum) => sum,
                None => {
                    proof {
                        lemma_planned_stays(
                            components@,
                            quotes@,
                            input_asset,
                            target as int,
                            i + 1,
                            components@.len() as int,
                        );
                    }
                    return Err(Error::AmountsInError);
                },
            };
            i += 1;
        }
        Ok(total)
    }

    /// Acquires the components for `to`, in the order of the table.
    fn acquire(
        &self,
        assets: &mut Assets,
        exchange: Address,
        to: Address,
        input_asset: Address,
        components: &Vec<Component>,
        quantities: &Vec<i128>,
        quotes: &Vec<i128>,
        target: i128,
    ) -> (result: Result<(), Error>)
        requires
            old(assets).wf(),
            quotes@.len() == components@.len(),
            quantities@.len() == components@.len(),
            forall|i: int|
                0 <= i < components@.len() ==> quantities@[i] == (#[trigger] components@[i]).unit
                    * target,
        ensures
            final(assets).wf(),
            match acquired(
                old(assets)@,
                self@.address,
                exchange,
                to,
                input_asset,
                components@,
                quotes@,
                target as int,
                components@.len() as int,
            ) {
                Ok(world) => result == Ok::<(), Error>(()) && final(assets)@ == world,
                Err(e) => result == Err::<(), Error>(e),
            },
    {
        let ghost start = assets@;
        let router = self.address;
        let mut i: usize = 0;
        while i < components.len()
            invariant
                assets.wf(),
                start == old(assets)@,
                router == self@.address,
                i <= components@.len(),
                quotes@.len() == components@.len(),
                quantities@.len() == components@.len(),
                forall|j: int|
                    0 <= j < components@.len() ==> quantities@[j] == (
                    #[trigger] components@[j]).unit * target,
                acquired(
                    start,
                    router,
                    exchange,
                    to,
                    input_asset,
                    components@,
                    quotes@,
                    target as int,
                    i as int,
                ) == Ok::<AssetsView, Error>(assets@),
            decreases components@.len() - i,
        {
            let component = components[i];
            let quantity = quantities[i];
            proof {
                reveal_with_fuel(acquired, 2);
            }
            if component.address == input_asset {
                match assets.transfer(input_asset, router, to, quantity) {
                    Ok(()) => {},
                    Err(e) => {
                        proof {
                            lemma_acquired_stays(
                                start,
                                router,
                                exchange,
                                to,
                                input_asset,
                                components@,
                                quotes@,
                                target as int,
                                i + 1,
                                components@.len() as int,
                            );
                        }
                        return Err(e);
                    },
                }
            } else {
                match assets.transfer(input_asset, router, exchange, quotes[i]) {
                    Ok(()) => {},
                    Err(e) => {
                        proof {
                            lemma_acquired_stays(
                                start,
                                router,
                                exchange,
                                to,
                                input_asset,
                                components@,
                                quotes@,
                                target as int,
                                i + 1,
                                components@.len() as int,
                            );
                        }
                        return Err(e);
                    },
                }
                match assets.transfer(component.address, exchange, to, quantity) {
                    Ok(()) => {},
                    Err(_) => {
                        proof {
                            lemma_acquired_stays(
                                start,
                                router,
                                exchange,
                                to,
                                input_asset,
                                components@,
                                quotes@,
                                target as int,
                                i + 1,
                                components@.len() as int,
                            );
                        }
                        return Err(Error::SwapError);
                    },
                }
            }
            i += 1;
        }
        Ok(())
    }

    /// Assembles and mints: takes `assembly.max_input` of the input asset
    /// from `caller`, on the grant that the caller gave the router; pays the
    /// exchange what each component costs at `quotes`, one quote for each
    /// component in the order of the table, and has the component paid to
    /// `assembly.to`; mints `assembly.target_amount` baskets to
    /// `assembly.to` as the token's administrator; and hands what was not
    /// spent back to `caller`. The result is what was handed back. Where any
    /// step fails, nothing has changed.
    pub fn assemble_and_mint(
        &self,
        caller: Address,
        token: &mut ConstellationToken,
        assets: &mut Assets,
        assembly: Assembly,
        quotes: &Vec<i128>,
        now: Moment,
    ) -> (result: Result<i128, Error>)
        requires
            old(token).wf(),
            old(assets).wf(),
        ensures
            final(token).wf(),
            final(assets).wf(),
            match assembled(self@, old(token)@, old(assets)@, caller, assembly, quotes@, now) {
                Ok((minted, world, refund)) => {
                    &&& result == Ok::<i128, Error>(refund as i128)
                    &&& 0 <= refund <= assembly.max_input
                    &&& final(token)@ == minted
                    &&& final(assets)@ == world
                },
                Err(e) => {
                    &&& result == Err::<i128, Error>(e)
                    &&& final(token)@ == old(token)@
                    &&& final(assets)@ == old(assets)@
                },
            },
            result matches Ok(refund) ==> {
                &&& planned(
                    old(token)@.components,
                    quotes@,
                    assembly.input_asset,
                    assembly.target_amount as int,
                    old(token)@.components.len() as int,
                ) == Ok::<int, Error>(assembly.max_input - refund)
                &&& final(token)@.ledger.balances[assembly.to] == old(
                    token,
                )@.ledger.balances[assembly.to] + assembly.target_amount
                &&& final(token)@.ledger.supply == old(token)@.ledger.supply
                    + assembly.target_amount
            },
    {
        let exchange = match self.exchange {
            Some(exchange) => exchange,
            None => {
                return Err(Error::RequiresExchangeRouter);
            },
        };
        if assembly.target_amount <= 0 || assembly.max_input <= 0 {
            return Err(Error::ZeroOrNegativeAmount);
        }
        if assembly.deadline < now.timestamp {
            return Err(Error::SwapError);
        }
        proof {
            token.lemma_valid();
        }
        let quantities = match token.required_amounts(assembly.target_amount) {
            Ok(quantities) => quantities,
            Err(e) => {
                return Err(e);
            },
        };
        let components = token.get_components();
        proof {
            assert forall|i: int| 0 <= i < components@.len() implies (
            #[trigger] components@[i]).unit * assembly.target_amount <= i128::MAX by {
                assert(quantities@[i] == components@[i].unit * assembly.target_amount);
            }
            assert forall|i: int| 0 <= i < components@.len() implies quantities@[i] == (
            #[trigger] components@[i]).unit * assembly.target_amount by {
                assert(quantities@[i] == components@[i].unit * assembly.target_amount);
            }
        }
        if quotes.len() != components.len() {
            return Err(Error::ContractInvocationError);
        }
        let total = match Self::plan(
            &components,
            &quantities,
            quotes,
            assembly.input_asset,
            assembly.target_amount,
        ) {
            Ok(total) => total,
            Err(e) => {
                return Err(e);
            },
        };
        if total > assembly.max_input {
            return Err(Error::AmountsInError);
        }
        let mut staged = assets.duplicate();
        match staged.transfer_from(
            assembly.input_asset,
            self.address,
            caller,
            self.address,
            assembly.max_input,
            now.sequence,
        ) {
            Ok(()) => {},
            Err(e) => {
                return Err(e);
            },
        }
        match self.acquire(
            &mut staged,
            exchange,
            assembly.to,
            assembly.input_asset,
            &components,
            &quantities,
            quotes,
            assembly.target_amount,
        ) {
            Ok(()) => {},
            Err(e) => {
                return Err(e);
            },
        }
        let mut minted = token.duplicate();
        match minted.mint(
            self.address,
            &mut staged,
            assembly.to,
            assembly.target_amount,
            now.sequence,
        ) {
            Ok(()) => {},
            Err(e) => {
                return Err(e);
            },
        }
        let refund: i128 = assembly.max_input - total;
        if refund > 0 {
            match staged.transfer(assembly.input_asset, self.address, caller, refund) {
                Ok(()) => {},
                Err(e) => {
                    return Err(e);
                },
            }
        }
        *token = minted;
        *assets = staged;
        Ok(refund)
    }
}

/// Once the plan has failed, it stays failed however far it is carried.
pub proof fn lemma_planned_stays(
    components: Seq<Component>,
    quotes: Seq<i128>,
    input_asset: Address,
    target: int,
    i: int,
    n: int,
)
    requires
        0 <= i <= n,
        planned(components, quotes, input_asset, target, i) is Err,
    ensures
        planned(components, quotes, input_asset, target, n) == planned(
            components,
            quotes,
            input_asset,
            target,
            i,
        ),
    decreases n - i,
{
    if i < n {
        lemma_planned_stays(components, quotes, input_asset, target, i, n - 1);
    }
}

/// Once a component could not be acquired, the acquisition stays failed
/// however far it is carried.
pub proof fn lemma_acquired_stays(
    world: AssetsView,
    router: Address,
    exchange: Address,
    to: Address,
    input_asset: Address,
    components: Seq<Component>,
    quotes: Seq<i128>,
    target: int,
    i: int,
    n: int,
)
    requires
        0 <= i <= n,
        acquired(world, router, exchange, to, input_asset, components, quotes, target, i) is Err,
    ensures
        acquired(world, router, exchange, to, input_asset, components, quotes, target, n)
            == acquired(world, router, exchange, to, input_asset, components, quotes, target, i),
    decreases n - i,
{
    if i < n {
        lemma_acquired_stays(
            world,
            router,
            exchange,
            to,
            input_asset,
            components,
            quotes,
            target,
            i,
            n - 1,
        );
    }
}

/// A plan that holds for `n` components holds for the first `i` of them.
pub proof fn lemma_planned_prefix(
    components: Seq<Component>,
    quotes: Seq<i128>,
    input_asset: Address,
    target: int,
    i: int,
    n: int,
)
    requires
        0 <= i <= n,
        planned(components, quotes, input_asset, target, n) is Ok,
    ensures
        planned(components, quotes, input_asset, target, i) is Ok,
{
    if planned(components, quotes, input_asset, target, i) is Err {
        lemma_planned_stays(components, quotes, input_asset, target, i, n);
    }
}

/// Where the input asset is no component and the router is not the
/// exchange, acquiring the first `i` components moves what they cost
/// together, and nothing else, of the input asset from the router to the
/// exchange.
pub proof fn lemma_acquired_spends(
    world: AssetsView,
    router: Address,
    exchange: Address,
    to: Address,
    input_asset: Address,
    components: Seq<Component>,
    quotes: Seq<i128>,
    target: int,
    i: int,
)
    requires
        0 <= i <= components.len(),
        router != exchange,
        forall|j: int|
            0 <= j < components.len() ==> (#[trigger] components[j]).address != input_asset,
        acquired(world, router, exchange, to, input_asset, components, quotes, target, i) is Ok,
        planned(components, quotes, input_asset, target, i) is Ok,
    ensures
        ({
            let after = acquired(
                world,
                router,
                exchange,
                to,
                input_asset,
                components,
                quotes,
                target,
                i,
            )->Ok_0;
            let spent = planned(components, quotes, input_asset, target, i)->Ok_0;
            &&& after.balance(input_asset, router) == world.balance(input_asset, router) - spent
            &&& after.balance(input_asset, exchange) == world.balance(input_asset, exchange) + spent
            &&& forall|holder: Address|
                holder != router && holder != exchange ==> #[trigger] after.balance(
                    input_asset,
                    holder,
                ) == world.balance(input_asset, holder)
        }),
    decreases i,
{
    if i > 0 {
        assert(components[i - 1].address != input_asset);
        lemma_acquired_spends(
            world,
            router,
            exchange,
            to,
            input_asset,
            components,
            quotes,
            target,
            i - 1,
        );
        let before = acquired(
            world,
            router,
            exchange,
            to,
            input_asset,
            components,
            quotes,
            target,
            i - 1,
        )->Ok_0;
        let after = acquired(
            world,
            router,
            exchange,
            to,
            input_asset,
            components,
            quotes,
            target,
            i,
        )->Ok_0;
        let cost = quotes[i - 1] as int;
        let paid = before.with_books(
            input_asset,
            before.books[input_asset].transferred(router, exchange, cost),
        );
        assert(after.books[input_asset] == paid.books[input_asset]);
        assert(before.balance(input_asset, router) == world.balance(input_asset, router) - planned(
            components,
            quotes,
            input_asset,
            target,
            i - 1,
        )->Ok_0);
        assert forall|holder: Address| holder != router && holder != exchange implies #[trigger]
            after.balance(input_asset, holder) == world.balance(input_asset, holder) by {
            assert(before.balance(input_asset, holder) == world.balance(input_asset, holder));
        }
    }
}

/// The exact refund: where an assembly succeeds, the input asset is no
/// component, and the caller is neither the router nor the exchange, the
/// caller has paid of the input asset what the components cost and no more,
/// and, where the router is not the exchange either, the router has kept
/// nothing.
pub proof fn lemma_assembly_costs_what_was_spent(
    router: RouterView,
    token: TokenView,
    assets: AssetsView,
    caller: Address,
    assembly: Assembly,
    quotes: Seq<i128>,
    now: Moment,
)
    requires
        token.valid(),
        assets.valid(),
        assembled(router, token, assets, caller, assembly, quotes, now) is Ok,
        forall|j: int|
            0 <= j < token.components.len() ==> (#[trigger] token.components[j]).address
                != assembly.input_asset,
        caller != router.address,
        caller != router.exchange->Some_0,
        router.address != router.exchange->Some_0,
    ensures
        ({
            let (_, world, refund) = assembled(
                router,
                token,
                assets,
                caller,
                assembly,
                quotes,
                now,
            )->Ok_0;
            &&& world.balance(assembly.input_asset, caller) == assets.balance(
                assembly.input_asset,
                caller,
            ) - (assembly.max_input - refund)
            &&& world.balance(assembly.input_asset, router.address) == assets.balance(
                assembly.input_asset,
                router.address,
            )
            &&& world.balance(assembly.input_asset, router.exchange->Some_0) == assets.balance(
                assembly.input_asset,
                router.exchange->Some_0,
            ) + (assembly.max_input - refund)
        }),
{
    let input = assembly.input_asset;
    let target = assembly.target_amount as int;
    let count = token.components.len() as int;
    let exchange = router.exchange->Some_0;
    let pulled = assets.with_books(
        input,
        assets.books[input].transferred_from(
            router.address,
            caller,
            router.address,
            assembly.max_input as int,
        ),
    );
    assert(assets.books[input].valid());
    lemma_acquired_spends(
        pulled,
        router.address,
        exchange,
        assembly.to,
        input,
        token.components,
        quotes,
        target,
        count,
    );
    let acquired_world = acquired(
        pulled,
        router.address,
        exchange,
        assembly.to,
        input,
        token.components,
        quotes,
        target,
        count,
    )->Ok_0;
    let locked = token.locked(acquired_world, assembly.to, target);
    let s = crate::token::pairs(token.components);
    assert forall|j: int| 0 <= j < s.len() implies (#[trigger] s[j]).0 != input by {
        assert(token.components[j].address != input);
    }
    crate::assoc::lemma_lookup_absent(s, input);
    assert(locked.books[input] == acquired_world.books[input]);
    lemma_planned_prefix(token.components, quotes, input, target, count, count);
    let spent = planned(token.components, quotes, input, target, count)->Ok_0;
    assert(pulled.balance(input, caller) == assets.balance(input, caller) - assembly.max_input);
    assert(pulled.balance(input, router.address) == assets.balance(input, router.address)
        + assembly.max_input);
    assert(pulled.balance(input, exchange) == assets.balance(input, exchange));
    assert(acquired_world.balance(input, caller) == pulled.balance(input, caller));
    assert(acquired_world.balance(input, router.address) == pulled.balance(input, router.address)
        - spent);
    assert(acquired_world.balance(input, exchange) == pulled.balance(input, exchange) + spent);
}

} // verus!
