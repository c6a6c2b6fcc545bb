//! Rebalancing: the manager of a basket trades one component away for
//! another through an exchange, and the component table follows.
//!
//! A trade is a single pass through five states. What happens between the
//! states happens outside: an adapter is asked for instructions, and the
//! exchange carries them out. [`Trade::step`] holds the decisions;
//! [`Trade::trade`] runs a whole pass against the books of the assets, given
//! what the exchange pays.

use crate::address::Address;
use crate::assets::{Assets, AssetsView};
use crate::error::Error;
use crate::ledger::AllowanceValue;
use crate::moment::Moment;
use crate::registry::{Registry, RegistryView};
use crate::token::{lemma_unit_at, unit_of, ConstellationToken, TokenView};
use vstd::prelude::*;

verus! {

/// What the manager asks for: `amount_in` of the source asset for at least
/// `min_amount_out` of the destination asset, settled by `deadline`. The
/// exchange may pull the source asset until the ledger sequence number passes
/// `expiration`.
#[derive(Clone, Copy, Debug, PartialEq, Eq, Structural)]
pub struct TradeRequest {
    pub source_asset: Address,
    pub destination_asset: Address,
    pub amount_in: i128,
    pub min_amount_out: i128,
    pub deadline: u64,
    pub expiration: u32,
}

/// Where a trade stands.
#[derive(Clone, Copy, Debug, PartialEq, Eq, Structural)]
pub enum TradeState {
    /// No trade is under way.
    Idle,
    /// The manager has authorized the trade and the adapter is known.
    Authorized { exchange: Address, adapter: Address, request: TradeRequest },
    /// The exchange may pull the source asset from the reserve.
    Approved { exchange: Address, adapter: Address, request: TradeRequest },
    /// The exchange has paid `amount_out` of the destination asset.
    Swapped { request: TradeRequest, amount_out: i128 },
    /// The component table holds the destination asset.
    UnitsUpdated,
}

/// What the outside reports to a trade.
#[derive(Clone, Copy, Debug, PartialEq, Eq, Structural)]
pub enum TradeEvent {
    /// `caller` asks for a trade through `exchange`; `adapter` is what the
    /// registry at `registry` answered for that exchange.
    Requested {
        caller: Address,
        exchange: Address,
        request: TradeRequest,
        registry: Address,
        adapter: Option<Address>,
    },
    /// The approval instruction has been carried out.
    ApprovalInvoked,
    /// The exchange has swapped and paid `amount_out`.
    SwapSettled { amount_out: i128 },
    /// The exchange has refused the swap.
    SwapRefused,
    /// The component table has been written.
    UnitsWritten,
}

/// What a trade asks the outside to do next.
#[derive(Clone, Copy, Debug, PartialEq, Eq, Structural)]
pub enum TradeAction {
    /// Ask `adapter` for the approval instruction and carry it out: let
    /// `spender` pull `amount` of `asset` from the reserve until `expiration`.
    Approve { adapter: Address, asset: Address, spender: Address, amount: i128, expiration: u32 },
    /// Ask `adapter` for the swap instruction and carry it out on the
    /// exchange.
    Swap {
        adapter: Address,
        exchange: Address,
        asset_in: Address,
        asset_out: Address,
        amount_in: i128,
        min_amount_out: i128,
        recipient: Address,
        deadline: u64,
    },
    /// Put `destination`, at `unit` a basket, in the place of `source`.
    UpdateUnits { source: Address, destination: Address, unit: i128 },
    /// The trade is complete.
    Finish,
    /// The trade is off, and nothing of it may stay.
    Abort { error: Error },
}

/// The trade module as mathematics: the registry it trusts, once set.
pub struct TradeView {
    pub registry: Option<Address>,
}

/// Why a request is turned down, if it is: the caller is looked at first,
/// then the registry, the adapter, the amount, the component table, and the
/// time until which the exchange may pull.
pub open spec fn request_error(
    module: TradeView,
    token: TokenView,
    caller: Address,
    request: TradeRequest,
    registry: Address,
    adapter: Option<Address>,
    now: Moment,
) -> Option<Error> {
    if token.manager != Some(caller) {
        Some(Error::RequiresManager)
    } else if module.registry != Some(registry) {
        Some(Error::RequiresRegistry)
    } else if adapter is None {
        Some(Error::RequiresAdapter)
    } else if request.amount_in <= 0 {
        Some(Error::ZeroOrNegativeAmount)
    } else if unit_of(token.components, request.source_asset) is None {
        Some(Error::ComponentNotFound)
    } else if unit_of(token.components, request.destination_asset) is Some {
        Some(Error::DuplicateComponent)
    } else if request.expiration < now.sequence {
        Some(Error::SwapError)
    } else {
        None
    }
}

/// Why what the exchange paid cannot become a component, if it cannot: it is
/// less than was asked for, or it does not give every basket that exists a
/// whole unit.
pub open spec fn settle_error(token: TokenView, request: TradeRequest, amount_out: int) -> Option<
    Error,
> {
    if amount_out <= 0 || amount_out < request.min_amount_out {
        Some(Error::SwapError)
    } else if token.ledger.supply <= 0 || amount_out < token.ledger.supply {
        Some(Error::ZeroOrNegativeAmount)
    } else {
        None
    }
}

/// The transition table of a trade.
pub open spec fn next(
    module: TradeView,
    state: TradeState,
    event: TradeEvent,
    token: TokenView,
    now: Moment,
) -> (TradeState, TradeAction) {
    match (state, event) {
        (TradeState::Idle, TradeEvent::Requested { caller, exchange, request, registry, adapter })
        | (
            TradeState::UnitsUpdated,
            TradeEvent::Requested { caller, exchange, request, registry, adapter },
        ) => match request_error(module, token, caller, request, registry, adapter, now) {
            Some(error) => (TradeState::Idle, TradeAction::Abort { error }),
            None => (
                TradeState::Authorized { exchange, adapter: adapter->Some_0, request },
                TradeAction::Approve {
                    adapter: adapter->Some_0,
                    asset: request.source_asset,
                    spender: exchange,
                    amount: request.amount_in,
                    expiration: request.expiration,
                },
            ),
        },
        (TradeState::Authorized { exchange, adapter, request }, TradeEvent::ApprovalInvoked) => {
            if request.deadline < now.timestamp {
                (TradeState::Idle, TradeAction::Abort { error: Error::SwapError })
            } else {
                (
                    TradeState::Approved { exchange, adapter, request },
                    TradeAction::Swap {
                        adapter,
                        exchange,
                        asset_in: request.source_asset,
                        asset_out: request.destination_asset,
                        amount_in: request.amount_in,
                        min_amount_out: request.min_amount_out,
                        recipient: token.address,
                        deadline: request.deadline,
                    },
                )
            }
        },
        (
            TradeState::Approved { request, .. },
            TradeEvent::SwapSettled { amount_out },
        ) => match settle_error(token, request, amount_out as int) {
            Some(error) => (TradeState::Idle, TradeAction::Abort { error }),
            None => (
                TradeState::Swapped { request, amount_out },
                TradeAction::UpdateUnits {
                    source: request.source_asset,
                    destination: request.destination_asset,
                    unit: (amount_out as int / token.ledger.supply) as i128,
                },
            ),
        },
        (TradeState::Approved { .. }, TradeEvent::SwapRefused) => (
            TradeState::Idle,
            TradeAction::Abort { error: Error::SwapError },
        ),
        (TradeState::Swapped { .. }, TradeEvent::UnitsWritten) => (
            TradeState::UnitsUpdated,
            TradeAction::Finish,
        ),
        _ => (TradeState::Idle, TradeAction::Abort { error: Error::ContractInvocationError }),
    }
}

/// The world after the exchange was let pull, pulled `amount_in` of the
/// source asset from the basket's reserve and paid `settled` of the
/// destination asset into it.
pub open spec fn swapped(
    assets: AssetsView,
    basket: Address,
    exchange: Address,
    request: TradeRequest,
    settled: int,
) -> AssetsView {
    assets.with_books(
        request.source_asset,
        assets.books[request.source_asset].with_allowance(
            basket,
            exchange,
            AllowanceValue { amount: request.amount_in, expiration_ledger: request.expiration },
        ).transferred_from(exchange, basket, exchange, request.amount_in as int),
    ).with_books(
        request.destination_asset,
        assets.books[request.destination_asset].transferred(exchange, basket, settled),
    )
}

/// What the registry answers for `exchange`.
pub open spec fn resolved(registry: RegistryView, exchange: Address) -> Option<Address> {
    if registry.adapters.dom().contains(exchange) {
        Some(registry.adapters[exchange])
    } else {
        None
    }
}

/// Why a whole trade fails, if it fails: the request is looked at first,
/// then the deadline, the reserve of the source asset, what the exchange can
/// pay, what it paid, and the reserve of the destination asset.
pub open spec fn trade_error(
    module: TradeView,
    token: TokenView,
    assets: AssetsView,
    registry: RegistryView,
    caller: Address,
    exchange: Address,
    request: TradeRequest,
    settled: int,
    now: Moment,
) -> Option<Error> {
    if request_error(
        module,
        token,
        caller,
        request,
        registry.address,
        resolved(registry, exchange),
        now,
    ) is Some {
        request_error(
            module,
            token,
            caller,
            request,
            registry.address,
            resolved(registry, exchange),
            now,
        )
    } else if request.deadline < now.timestamp {
        Some(Error::SwapError)
    } else if assets.balance(request.source_asset, token.address) < request.amount_in {
        Some(Error::InsufficientBalance)
    } else if settled <= 0 || assets.balance(request.destination_asset, exchange) < settled {
        Some(Error::SwapError)
    } else if settle_error(token, request, settled) is Some {
        settle_error(token, request, settled)
    } else {
        token.set_unit_error(
            swapped(assets, token.address, exchange, request, settled),
            caller,
            request.source_asset,
            request.destination_asset,
            settled / token.ledger.supply,
        )
    }
}

/// The trade module.
#[derive(Debug)]
pub struct Trade {
    registry: Option<Address>,
}

impl View for Trade {
    type V = TradeView;

    closed spec fn view(&self) -> TradeView {
        TradeView { registry: self.registry }
    }
}

impl Trade {
    /// The module as it is deployed: no registry is set.
    pub fn new() -> (module: Trade)
        ensures
            module@ == (TradeView { registry: None }),
    {
        Trade { registry: None }
    }

    /// Sets, once, the registry whose adapters the module trusts.
    pub fn initialize(&mut self, id: Address) -> (result: Result<(), Error>)
        ensures
            match old(self)@.registry {
                Some(_) => result == Err::<(), Error>(Error::AlreadyInitialized) && final(self)@
                    == old(self)@,
                None => result == Ok::<(), Error>(()) && final(self)@ == (TradeView {
                    registry: Some(id),
                }),
            },
    {
        if self.registry.is_some() {
            return Err(Error::AlreadyInitialized);
        }
        self.registry = Some(id);
        Ok(())
    }

    /// The registry whose adapters the module trusts, once set.
    pub fn registry(&self) -> (registry: Option<Address>)
        ensures
            registry == self@.registry,
    {
        self.registry
    }

    /// One step of a trade: from the state the trade stands in and the
    /// event that the outside reports to the state that follows and the
    /// action to take. An event that the state does not wait for calls the
    /// trade off.
    pub fn step(
        &self,
        state: TradeState,
        event: TradeEvent,
        token: &ConstellationToken,
        now: Moment,
    ) -> (result: (TradeState, TradeAction))
        requires
            token.wf(),
        ensures
            result == next(self@, state, event, token@, now),
    {
        match (state, event) {
            (
                TradeState::Idle,
                TradeEvent::Requested { caller, exchange, request, registry, adapter },
            )
            | (
                TradeState::UnitsUpdated,
                TradeEvent::Requested { caller, exchange, request, registry, adapter },
            ) => match self.check_request(token, caller, request, registry, adapter, now) {
                Err(error) => (TradeState::Idle, TradeAction::Abort { error }),
                Ok(adapter) => (
                    TradeState::Authorized { exchange, adapter, request },
                    TradeAction::Approve {
                        adapter,
                        asset: request.source_asset,
                        spender: exchange,
                        amount: request.amount_in,
                        expiration: request.expiration,
                    },
                ),
            },
            (
                TradeState::Authorized { exchange, adapter, request },
                TradeEvent::ApprovalInvoked,
            ) => {
                if request.deadline < now.timestamp {
                    (TradeState::Idle, TradeAction::Abort { error: Error::SwapError })
                } else {
                    (
                        TradeState::Approved { exchange, adapter, request },
                        TradeAction::Swap {
                            adapter,
                            exchange,
                            asset_in: request.source_asset,
                            asset_out: request.destination_asset,
                            amount_in: request.amount_in,
                            min_amount_out: request.min_amount_out,
                            recipient: token.address(),
                            deadline: request.deadline,
                        },
                    )
                }
            },
            (TradeState::Approved { request, .. }, TradeEvent::SwapSettled { amount_out }) => {
                let supply = token.total_supply();
                if amount_out <= 0 || amount_out < request.min_amount_out {
                    (TradeState::Idle, TradeAction::Abort { error: Error::SwapError })
                } else if supply <= 0 || amount_out < supply {
                    (TradeState::Idle, TradeAction::Abort { error: Error::ZeroOrNegativeAmount })
                } else {
                    (
                        TradeState::Swapped { request, amount_out },
                        TradeAction::UpdateUnits {
                            source: request.source_asset,
                            destination: request.destination_asset,
                            unit: amount_out / supply,
                        },
                    )
                }
            },
            (TradeState::Approved { .. }, TradeEvent::SwapRefused) => (
                TradeState::Idle,
                TradeAction::Abort { error: Error::SwapError },
            ),
            (TradeState::Swapped { .. }, TradeEvent::UnitsWritten) => (
                TradeState::UnitsUpdated,
                TradeAction::Finish,
            ),
            _ => (TradeState::Idle, TradeAction::Abort { error: Error::ContractInvocationError }),
        }
    }

    /// A whole trade: the manager `caller` of `token` trades
    /// `request.amount_in` of a component away through the exchange at
    /// `exchange_id`, which pays `settled` of the destination asset. On
    /// success the exchange has pulled the source asset from the reserve, the
    /// reserve holds what the exchange paid, and the destination asset stands
    /// in the component table in the place of the source asset, at
    /// `settled / supply` a basket, rounded down. On failure nothing has
    /// changed.
    pub fn trade(
        &self,
        caller: Address,
        token: &mut ConstellationToken,
        assets: &mut Assets,
        registry: &Registry,
        exchange_id: Address,
        request: TradeRequest,
        settled: i128,
        now: Moment,
    ) -> (result: Result<(), Error>)
        requires
            old(token).wf(),
            old(assets).wf(),
            registry.wf(),
        ensures
            final(token).wf(),
            final(assets).wf(),
            match trade_error(
                self@,
                old(token)@,
                old(assets)@,
                registry@,
                caller,
                exchange_id,
                request,
                settled as int,
                now,
            ) {
                Some(e) => {
                    &&& result == Err::<(), Error>(e)
                    &&& final(token)@ == old(token)@
                    &&& final(assets)@ == old(assets)@
                },
                None => {
                    &&& result == Ok::<(), Error>(())
                    &&& final(token)@ == old(token)@.with_unit(
                        request.source_asset,
                        request.destination_asset,
                        (settled as int / old(token)@.ledger.supply) as i128,
                    )
                    &&& final(assets)@ == swapped(
                        old(assets)@,
                        old(token)@.address,
                        exchange_id,
                        request,
                        settled as int,
                    )
                },
            },
            result is Ok ==> {
                &&& unit_of(final(token)@.components, request.source_asset) is None
                &&& unit_of(final(token)@.components, request.destination_asset) == Some(
                    (settled as int / old(token)@.ledger.supply) as i128,
                )
                &&& final(token)@.ledger.supply == old(token)@.ledger.supply
            },
            result is Ok && old(token)@.backed_by(old(assets)@) ==> final(token)@.backed_by(
                final(assets)@,
            ),
    {
        let adapter = match registry.resolve(exchange_id) {
            Ok(adapter) => Some(adapter),
            Err(_) => None,
        };
        let basket = token.address();
        let requested = TradeEvent::Requested {
            caller,
            exchange: exchange_id,
            request,
            registry: registry.address(),
            adapter,
        };
        let (authorized, first) = self.step(TradeState::Idle, requested, token, now);
        match first {
            TradeAction::Approve { .. } => {},
            TradeAction::Abort { error } => {
                return Err(error);
            },
            _ => {
                return Err(Error::ContractInvocationError);
            },
        }
        let mut staged = assets.duplicate();
        match staged.approve(
            request.source_asset,
            basket,
            exchange_id,
            request.amount_in,
            request.expiration,
        ) {
            Ok(()) => {},
            Err(e) => {
                return Err(e);
            },
        }
        let (approved, second) = self.step(authorized, TradeEvent::ApprovalInvoked, token, now);
        match second {
            TradeAction::Swap { .. } => {},
            TradeAction::Abort { error } => {
                return Err(error);
            },
            _ => {
                return Err(Error::ContractInvocationError);
            },
        }
        match staged.transfer_from(
            request.source_asset,
            exchange_id,
            basket,
            exchange_id,
            request.amount_in,
            now.sequence,
        ) {
            Ok(()) => {},
            Err(e) => {
                return Err(e);
            },
        }
        match staged.transfer(request.destination_asset, exchange_id, basket, settled) {
            Ok(()) => {},
            Err(_) => {
                return Err(Error::SwapError);
            },
        }
        let (_, third) = self.step(
            approved,
            TradeEvent::SwapSettled { amount_out: settled },
            token,
            now,
        );
        let unit = match third {
            TradeAction::UpdateUnits { unit, .. } => unit,
            TradeAction::Abort { error } => {
                return Err(error);
            },
            _ => {
                return Err(Error::ContractInvocationError);
            },
        };
        proof {
            old(token).lemma_valid();
            assert(staged@.books =~= swapped(
                old(assets)@,
                basket,
                exchange_id,
                request,
                settled as int,
            ).books);
        }
        match token.set_component_unit(
            caller,
            &staged,
            request.source_asset,
            request.destination_asset,
            unit,
        ) {
            Ok(()) => {},
            Err(e) => {
                return Err(e);
            },
        }
        proof {
            if old(token)@.backed_by(old(assets)@) {
                lemma_trade_keeps_backing(
                    old(token)@,
                    old(assets)@,
                    staged@,
                    request.source_asset,
                    request.destination_asset,
                    unit,
                );
            }
        }
        *assets = staged;
        Ok(())
    }

    fn check_request(
        &self,
        token: &ConstellationToken,
        caller: Address,
        request: TradeRequest,
        registry: Address,
        adapter: Option<Address>,
        now: Moment,
    ) -> (result: Result<Address, Error>)
        requires
            token.wf(),
        ensures
            match request_error(self@, token@, caller, request, registry, adapter, now) {
                Some(e) => result == Err::<Address, Error>(e),
                None => adapter is Some && result == Ok::<Address, Error>(adapter->Some_0),
            },
    {
        match token.get_manager() {
            Some(manager) => {
                if manager != caller {
                    return Err(Error::RequiresManager);
                }
            },
            None => {
                return Err(Error::RequiresManager);
            },
        }
        match self.registry {
            Some(trusted) => {
                if trusted != registry {
                    return Err(Error::RequiresRegistry);
                }
            },
            None => {
                return Err(Error::RequiresRegistry);
            },
        }
        let adapter = match adapter {
            Some(adapter) => adapter,
            None => {
                return Err(Error::RequiresAdapter);
            },
        };
        if request.amount_in <= 0 {
            return Err(Error::ZeroOrNegativeAmount);
        }
        if token.unit(request.source_asset).is_none() {
            return Err(Error::ComponentNotFound);
        }
        if token.unit(request.destination_asset).is_some() {
            return Err(Error::DuplicateComponent);
        }
        if request.expiration < now.sequence {
            return Err(Error::SwapError);
        }
        Ok(adapter)
    }
}

/// A trade keeps the reserve guarantee: where every component was backed
/// before, and the books of no asset but the two traded have changed, and
/// the reserve of the destination asset covers its unit, every component is
/// backed after.
pub proof fn lemma_trade_keeps_backing(
    token: TokenView,
    before: AssetsView,
    after: AssetsView,
    source: Address,
    destination: Address,
    unit: i128,
)
    requires
        token.valid(),
        token.backed_by(before),
        unit_of(token.components, destination) is None,
        forall|asset: Address|
            asset != source && asset != destination ==> after.books[asset] == before.books[asset],
        after.balance(destination, token.address) >= unit * token.ledger.supply,
    ensures
        token.with_unit(source, destination, unit).backed_by(after),
{
    let traded = token.with_unit(source, destination, unit);
    assert forall|i: int| 0 <= i < traded.components.len() implies after.balance(
        (#[trigger] traded.components[i]).address,
        traded.address,
    ) >= traded.components[i].unit * traded.ledger.supply by {
        if token.components[i].address != source {
            lemma_unit_at(token.components, i);
            assert(traded.components[i] == token.components[i]);
            assert(after.books[token.components[i].address]
                == before.books[token.components[i].address]);
        }
    }
}

/// What an exchange other than the basket itself pays into the reserve
/// covers the unit that is made of it: such a trade does not fail for want
/// of reserve of the destination asset.
pub proof fn lemma_settlement_covers_unit(
    token: TokenView,
    assets: AssetsView,
    exchange: Address,
    request: TradeRequest,
    settled: int,
)
    requires
        token.valid(),
        assets.valid(),
        exchange != token.address,
        request.source_asset != request.destination_asset,
        settle_error(token, request, settled) is None,
    ensures
        swapped(assets, token.address, exchange, request, settled).balance(
            request.destination_asset,
            token.address,
        ) >= (settled / token.ledger.supply) * token.ledger.supply,
{
    let supply = token.ledger.supply;
    assert(assets.books[request.destination_asset].valid());
    assert((settled / supply) * supply <= settled) by (nonlinear_arith)
        requires
            supply > 0,
            settled >= 0,
    ;
}

/// The component table is only ever asked to change after a swap that the
/// exchange settled on the terms asked for: the unit is what was paid over
/// the number of baskets, rounded down, and it is positive.
pub proof fn lemma_units_follow_a_settled_swap(
    module: TradeView,
    state: TradeState,
    event: TradeEvent,
    token: TokenView,
    now: Moment,
)
    requires
        next(module, state, event, token, now).1 is UpdateUnits,
    ensures
        state is Approved,
        event is SwapSettled,
        event->amount_out >= state->Approved_request.min_amount_out,
        token.ledger.supply > 0,
        next(module, state, event, token, now).1->unit == event->amount_out as int
            / token.ledger.supply,
        next(module, state, event, token, now).1->unit > 0,
        next(module, state, event, token, now).1->source == state->Approved_request.source_asset,
        next(module, state, event, token, now).1->destination
            == state->Approved_request.destination_asset,
{
    let supply = token.ledger.supply;
    let paid = event->amount_out as int;
    assert(paid / supply > 0 && paid / supply <= paid) by (nonlinear_arith)
        requires
            supply > 0,
            paid >= supply,
    ;
}

/// A trade that is called off stands where no trade is under way.
pub proof fn lemma_abort_returns_to_idle(
    module: TradeView,
    state: TradeState,
    event: TradeEvent,
    token: TokenView,
    now: Moment,
)
    requires
        next(module, state, event, token, now).1 is Abort,
    ensures
        next(module, state, event, token, now).0 is Idle,
{
}

} // verus!
