//! The basket token: a component table, the books of its holders, and the
//! rules by which baskets are minted against component reserves and redeemed
//! for them.

use crate::address::Address;
use crate::assets::{Assets, AssetsView};
use crate::assoc::{
    absent, lemma_lookup_absent, lemma_lookup_at, lemma_lookup_none, lemma_lookup_update, lookup,
};
use crate::error::Error;
use crate::ledger::{settles, AllowanceValue, Ledger, LedgerView};
use vstd::prelude::*;

verus! {

/// One asset of the bundle, and how much of it backs one basket token.
#[derive(Clone, Copy, Debug, PartialEq, Eq, Structural)]
pub struct Component {
    pub address: Address,
    pub unit: i128,
}

/// Whether components flow into the basket's reserve or out of it.
#[derive(Clone, Copy, Debug, PartialEq, Eq, Structural)]
pub enum Direction {
    /// From a holder into the reserve, drawn on the holder's grant.
    Lock,
    /// From the reserve to a holder.
    Release,
}

/// The component table as pairs of asset and unit.
pub open spec fn pairs(components: Seq<Component>) -> Seq<(Address, i128)> {
    Seq::new(components.len(), |i: int| (components[i].address, components[i].unit))
}

/// The unit of `asset` in the table, if it is a component.
pub open spec fn unit_of(components: Seq<Component>, asset: Address) -> Option<i128> {
    lookup(pairs(components), asset)
}

/// Every unit is positive and no asset occurs twice.
pub open spec fn components_valid(components: Seq<Component>) -> bool {
    &&& forall|i: int| 0 <= i < components.len() ==> (#[trigger] components[i]).unit > 0
    &&& forall|i: int, j: int|
        0 <= i < j < components.len() ==> components[i].address != components[j].address
}

/// The table made of `addresses` and `units`, place by place.
pub open spec fn zipped(addresses: Seq<Address>, units: Seq<i128>) -> Seq<Component> {
    Seq::new(addresses.len(), |i: int| Component { address: addresses[i], unit: units[i] })
}

/// No address occurs twice.
pub open spec fn distinct(addresses: Seq<Address>) -> bool {
    forall|i: int, j: int| 0 <= i < j < addresses.len() ==> addresses[i] != addresses[j]
}

/// The table with `asset`, at `unit` a basket, in the place of `source`.
pub open spec fn replaced(
    components: Seq<Component>,
    source: Address,
    asset: Address,
    unit: i128,
) -> Seq<Component> {
    Seq::new(
        components.len(),
        |i: int|
            if components[i].address == source {
                Component { address: asset, unit }
            } else {
                components[i]
            },
    )
}

/// Why stored parts do not make an instance, if they do not.
pub open spec fn restore_error(
    administrator: Option<Address>,
    decimal: u32,
    components: Seq<Address>,
    units: Seq<i128>,
) -> Option<Error> {
    if decimal > u8::MAX {
        Some(Error::ValueTooLargeOverflow)
    } else if administrator is Some && components.len() == 0 {
        Some(Error::ZeroComponents)
    } else if components.len() != units.len() {
        Some(Error::ComponentsAmountsLengthMismatch)
    } else if exists|i: int| 0 <= i < units.len() && units[i] <= 0 {
        Some(Error::ZeroOrNegativeAmount)
    } else if !distinct(components) {
        Some(Error::DuplicateComponent)
    } else {
        None
    }
}

/// Why one component cannot flow, if it cannot.
pub open spec fn leg_error(
    books: LedgerView,
    basket: Address,
    holder: Address,
    quantity: int,
    now: u32,
    direction: Direction,
) -> Option<Error> {
    if quantity > i128::MAX {
        Some(Error::ValueTooLargeOverflow)
    } else {
        match direction {
            Direction::Lock => books.transfer_from_error(basket, holder, quantity, now),
            Direction::Release => books.debit_error(basket, quantity),
        }
    }
}

/// The books of one component's asset after it flowed.
pub open spec fn leg_done(
    books: LedgerView,
    basket: Address,
    holder: Address,
    quantity: int,
    direction: Direction,
) -> LedgerView {
    match direction {
        Direction::Lock => books.transferred_from(basket, holder, basket, quantity),
        Direction::Release => books.transferred(basket, holder, quantity),
    }
}

/// The failure of the first component, from place `i` on, that cannot flow.
pub open spec fn legs_error(
    components: Seq<Component>,
    assets: AssetsView,
    basket: Address,
    holder: Address,
    amount: int,
    now: u32,
    direction: Direction,
    i: int,
) -> Option<Error>
    decreases components.len() - i,
{
    if i < 0 || i >= components.len() {
        None
    } else if leg_error(
        assets.books[components[i].address],
        basket,
        holder,
        components[i].unit * amount,
        now,
        direction,
    ) is Some {
        leg_error(
            assets.books[components[i].address],
            basket,
            holder,
            components[i].unit * amount,
            now,
            direction,
        )
    } else {
        legs_error(components, assets, basket, holder, amount, now, direction, i + 1)
    }
}

/// The world after every component flowed: `unit * amount` of each.
pub open spec fn legs_done(
    components: Seq<Component>,
    assets: AssetsView,
    basket: Address,
    holder: Address,
    amount: int,
    direction: Direction,
) -> AssetsView {
    AssetsView {
        books: Map::total(
            |asset: Address|
                match unit_of(components, asset) {
                    Some(unit) => leg_done(
                        assets.books[asset],
                        basket,
                        holder,
                        unit * amount,
                        direction,
                    ),
                    None => assets.books[asset],
                },
        ),
    }
}

/// The basket token as mathematics.
pub struct TokenView {
    pub address: Address,
    pub administrator: Option<Address>,
    pub manager: Option<Address>,
    pub components: Seq<Component>,
    pub decimal: u32,
    pub name: Seq<char>,
    pub symbol: Seq<char>,
    pub ledger: LedgerView,
}

impl TokenView {
    /// The component table and the books are valid, an initialized token has
    /// a component, and the decimal fits a byte.
    pub open spec fn valid(self) -> bool {
        &&& components_valid(self.components)
        &&& self.administrator is Some ==> self.components.len() > 0
        &&& self.decimal <= u8::MAX
        &&& self.ledger.valid()
    }

    /// The central guarantee: of each component the basket holds at least
    /// its unit times the number of basket tokens that exist.
    pub open spec fn backed_by(self, assets: AssetsView) -> bool {
        forall|i: int|
            0 <= i < self.components.len() ==> assets.balance(
                (#[trigger] self.components[i]).address,
                self.address,
            ) >= self.components[i].unit * self.ledger.supply
    }

    /// The token with its books replaced.
    pub open spec fn with_ledger(self, ledger: LedgerView) -> TokenView {
        TokenView { ledger, ..self }
    }

    /// Why the token cannot be initialized, if it cannot.
    pub open spec fn initialize_error(
        self,
        decimal: u32,
        components: Seq<Address>,
        units: Seq<i128>,
    ) -> Option<Error> {
        if self.administrator is Some {
            Some(Error::AlreadyInitialized)
        } else if decimal > u8::MAX {
            Some(Error::ValueTooLargeOverflow)
        } else if components.len() == 0 {
            Some(Error::ZeroComponents)
        } else if components.len() != units.len() {
            Some(Error::ComponentsAmountsLengthMismatch)
        } else if exists|i: int| 0 <= i < units.len() && units[i] <= 0 {
            Some(Error::ZeroOrNegativeAmount)
        } else if !distinct(components) {
            Some(Error::DuplicateComponent)
        } else {
            None
        }
    }

    /// The token after its one initialization.
    pub open spec fn initialized(
        self,
        decimal: u32,
        components: Seq<Address>,
        units: Seq<i128>,
        name: Seq<char>,
        symbol: Seq<char>,
        admin: Address,
        manager: Address,
    ) -> TokenView {
        TokenView {
            address: self.address,
            administrator: Some(admin),
            manager: Some(manager),
            components: zipped(components, units),
            decimal,
            name,
            symbol,
            ledger: self.ledger,
        }
    }

    /// Why `caller` cannot put `asset`, at `new_unit` a basket, in the place
    /// of `source`, if it cannot: the caller is looked at first, then the
    /// unit, then the table, then the reserve, which has to cover the new
    /// unit for every basket that exists.
    pub open spec fn set_unit_error(
        self,
        assets: AssetsView,
        caller: Address,
        source: Address,
        asset: Address,
        new_unit: int,
    ) -> Option<Error> {
        if self.manager != Some(caller) {
            Some(Error::RequiresManager)
        } else if new_unit <= 0 {
            Some(Error::ZeroOrNegativeAmount)
        } else if unit_of(self.components, source) is None {
            Some(Error::ComponentNotFound)
        } else if asset != source && unit_of(self.components, asset) is Some {
            Some(Error::DuplicateComponent)
        } else if assets.balance(asset, self.address) < new_unit * self.ledger.supply {
            Some(Error::InsufficientBalance)
        } else {
            None
        }
    }

    /// The token with `asset`, at `unit` a basket, in the place of `source`.
    pub open spec fn with_unit(self, source: Address, asset: Address, unit: i128) -> TokenView {
        TokenView { components: replaced(self.components, source, asset, unit), ..self }
    }

    /// Why `caller` cannot mint `amount` to `to`, if it cannot: the amount
    /// is looked at first, then the caller, then each component in the
    /// order of the table, then the supply.
    pub open spec fn mint_error(
        self,
        assets: AssetsView,
        caller: Address,
        to: Address,
        amount: int,
        now: u32,
    ) -> Option<Error> {
        if amount <= 0 {
            Some(Error::ZeroOrNegativeAmount)
        } else if self.administrator != Some(caller) {
            Some(Error::RequiresAdministrator)
        } else if legs_error(
            self.components,
            assets,
            self.address,
            to,
            amount,
            now,
            Direction::Lock,
            0,
        ) is Some {
            legs_error(self.components, assets, self.address, to, amount, now, Direction::Lock, 0)
        } else {
            self.ledger.credit_error(amount)
        }
    }

    /// The world after a mint: `unit * amount` of each component moved from
    /// `to` into the basket's reserve, drawn on what `to` granted the basket.
    pub open spec fn locked(self, assets: AssetsView, to: Address, amount: int) -> AssetsView {
        legs_done(self.components, assets, self.address, to, amount, Direction::Lock)
    }

    /// The token after a mint.
    pub open spec fn minted(self, to: Address, amount: int) -> TokenView {
        self.with_ledger(self.ledger.credited(to, amount))
    }

    /// Why `caller` cannot redeem `amount` of `to`'s baskets, if it cannot:
    /// the amount is looked at first, then the caller, then `to`'s balance,
    /// then each component in the order of the table.
    pub open spec fn redeem_error(
        self,
        assets: AssetsView,
        caller: Address,
        to: Address,
        amount: int,
    ) -> Option<Error> {
        if amount <= 0 {
            Some(Error::ZeroOrNegativeAmount)
        } else if self.administrator != Some(caller) {
            Some(Error::RequiresAdministrator)
        } else if self.ledger.debit_error(to, amount) is Some {
            self.ledger.debit_error(to, amount)
        } else {
            legs_error(self.components, assets, self.address, to, amount, 0, Direction::Release, 0)
        }
    }

    /// The world after a redemption: `unit * amount` of each component moved
    /// from the basket's reserve to `to`.
    pub open spec fn released(self, assets: AssetsView, to: Address, amount: int) -> AssetsView {
        legs_done(self.components, assets, self.address, to, amount, Direction::Release)
    }

    /// The token after a redemption.
    pub open spec fn redeemed(self, to: Address, amount: int) -> TokenView {
        self.with_ledger(self.ledger.debited(to, amount))
    }
}

/// A basket token: one instance per deployed basket.
#[derive(Debug)]
pub struct ConstellationToken {
    address: Address,
    administrator: Option<Address>,
    manager: Option<Address>,
    components: Vec<Component>,
    decimal: u32,
    name: String,
    symbol: String,
    ledger: Ledger,
}

impl View for ConstellationToken {
    type V = TokenView;

    closed spec fn view(&self) -> TokenView {
        TokenView {
            address: self.address,
            administrator: self.administrator,
            manager: self.manager,
            components: self.components@,
            decimal: self.decimal,
            name: self.name@,
            symbol: self.symbol@,
            ledger: self.ledger@,
        }
    }
}

impl ConstellationToken {
    /// The invariant of the instance: the books are well formed, every unit
    /// is positive and no asset occurs twice in the component table, which is
    /// not empty once the instance is initialized, and the decimal fits a
    /// byte.
    pub closed spec fn wf(&self) -> bool {
        &&& self.ledger.wf()
        &&& components_valid(self.components@)
        &&& self.administrator is Some ==> self.components@.len() > 0
        &&& self.decimal <= u8::MAX
    }

    /// A well-formed instance has a valid view.
    pub proof fn lemma_valid(&self)
        requires
            self.wf(),
        ensures
            self@.valid(),
    {
        self.ledger.lemma_valid();
    }

    /// The instance as it is deployed at `address`: not yet initialized,
    /// with no components and empty books.
    pub fn new(address: Address) -> (token: ConstellationToken)
        ensures
            token.wf(),
            token@ == (TokenView {
                address,
                administrator: None,
                manager: None,
                components: Seq::empty(),
                decimal: 0,
                name: Seq::empty(),
                symbol: Seq::empty(),
                ledger: LedgerView::empty(),
            }),
    {
        ConstellationToken {
            address,
            administrator: None,
            manager: None,
            components: Vec::new(),
            decimal: 0,
            name: String::new(),
            symbol: String::new(),
            ledger: Ledger::new(),
        }
    }

    /// The instance as it was stored: what [`ConstellationToken::new`] and
    /// the operations on it would have left, put together from its parts.
    /// The parts are held to the invariant of the component table.
    pub fn restore(
        address: Address,
        administrator: Option<Address>,
        manager: Option<Address>,
        decimal: u32,
        components: Vec<Address>,
        units: Vec<i128>,
        name: String,
        symbol: String,
        ledger: Ledger,
    ) -> (result: Result<ConstellationToken, Error>)
        requires
            ledger.wf(),
        ensures
            match restore_error(administrator, decimal, components@, units@) {
                Some(e) => result matches Err(error) && error == e,
                None => {
                    &&& result matches Ok(token)
                    &&& token.wf()
                    &&& token@ == (TokenView {
                        address,
                        administrator,
                        manager,
                        components: zipped(components@, units@),
                        decimal,
                        name: name@,
                        symbol: symbol@,
                        ledger: ledger@,
                    })
                },
            },
    {
        if decimal > 255 {
            return Err(Error::ValueTooLargeOverflow);
        }
        if administrator.is_some() && components.len() == 0 {
            return Err(Error::ZeroComponents);
        }
        if components.len() != units.len() {
            return Err(Error::ComponentsAmountsLengthMismatch);
        }
        let table = match Self::table_of(&components, &units) {
            Ok(table) => table,
            Err(e) => {
                return Err(e);
            },
        };
        Ok(
            ConstellationToken {
                address,
                administrator,
                manager,
                components: table,
                decimal,
                name,
                symbol,
                ledger,
            },
        )
    }

    /// A second copy of this instance.
    pub fn duplicate(&self) -> (copy: ConstellationToken)
        requires
            self.wf(),
        ensures
            copy.wf(),
            copy@ == self@,
    {
        ConstellationToken {
            address: self.address,
            administrator: self.administrator,
            manager: self.manager,
            components: self.get_components(),
            decimal: self.decimal,
            name: self.name.clone(),
            symbol: self.symbol.clone(),
            ledger: self.ledger.duplicate(),
        }
    }

    /// The component table made of `components` and `units`, unless a unit
    /// is not positive or an asset occurs twice.
    fn table_of(components: &Vec<Address>, units: &Vec<i128>) -> (result: Result<
        Vec<Component>,
        Error,
    >)
        requires
            components@.len() == units@.len(),
        ensures
            match result {
                Ok(table) => {
                    &&& table@ == zipped(components@, units@)
                    &&& forall|j: int| 0 <= j < units@.len() ==> units@[j] > 0
                    &&& distinct(components@)
                },
                Err(e) => if exists|i: int| 0 <= i < units@.len() && units@[i] <= 0 {
                    e == Error::ZeroOrNegativeAmount
                } else {
                    e == Error::DuplicateComponent && !distinct(components@)
                },
            },
    {
        let mut i: usize = 0;
        while i < units.len()
            invariant
                i <= units@.len(),
                forall|j: int| 0 <= j < i ==> units@[j] > 0,
            decreases units@.len() - i,
        {
            if units[i] <= 0 {
                return Err(Error::ZeroOrNegativeAmount);
            }
            i += 1;
        }
        let mut table: Vec<Component> = Vec::new();
        let mut k: usize = 0;
        while k < components.len()
            invariant
                k <= components@.len(),
                components@.len() == units@.len(),
                forall|j: int| 0 <= j < units@.len() ==> units@[j] > 0,
                forall|a: int, b: int| 0 <= a < b < k ==> components@[a] != components@[b],
                table@ == zipped(components@, units@).take(k as int),
            decreases components@.len() - k,
        {
            let mut j: usize = 0;
            while j < k
                invariant
                    j <= k < components@.len(),
                    forall|a: int| 0 <= a < units@.len() ==> units@[a] > 0,
                    forall|a: int| 0 <= a < j ==> components@[a] != components@[k as int],
                decreases k - j,
            {
                if components[j] == components[k] {
                    assert(components@[j as int] == components@[k as int]);
                    return Err(Error::DuplicateComponent);
                }
                j += 1;
            }
            table.push(Component { address: components[k], unit: units[k] });
            proof {
                assert(table@ =~= zipped(components@, units@).take(k + 1));
            }
            k += 1;
        }
        proof {
            assert(table@ =~= zipped(components@, units@));
        }
        Ok(table)
    }

    /// Sets the instance up, once: its metadata, its administrator and
    /// manager, and its component table.
    pub fn initialize(
        &mut self,
        decimal: u32,
        components: Vec<Address>,
        units: Vec<i128>,
        name: String,
        symbol: String,
        admin: Address,
        manager: Address,
    ) -> (result: Result<(), Error>)
        requires
            old(self).wf(),
        ensures
            final(self).wf(),
            settles(
                result,
                old(self)@,
                final(self)@,
                old(self)@.initialize_error(decimal, components@, units@),
                old(self)@.initialized(
                    decimal,
                    components@,
                    units@,
                    name@,
                    symbol@,
                    admin,
                    manager,
                ),
            ),
    {
        if self.administrator.is_some() {
            return Err(Error::AlreadyInitialized);
        }
        if decimal > 255 {
            return Err(Error::ValueTooLargeOverflow);
        }
        if components.len() == 0 {
            return Err(Error::ZeroComponents);
        }
        if components.len() != units.len() {
            return Err(Error::ComponentsAmountsLengthMismatch);
        }
        let table = match Self::table_of(&components, &units) {
            Ok(table) => table,
            Err(e) => {
                return Err(e);
            },
        };
        self.administrator = Some(admin);
        self.manager = Some(manager);
        self.decimal = decimal;
        self.name = name;
        self.symbol = symbol;
        self.components = table;
        Ok(())
    }

    /// Hands the administration over to `new_admin`. Only the administrator
    /// may do so.
    pub fn set_admin(&mut self, caller: Address, new_admin: Address) -> (result: Result<(), Error>)
        requires
            old(self).wf(),
        ensures
            final(self).wf(),
            settles(
                result,
                old(self)@,
                final(self)@,
                if old(self)@.administrator == Some(caller) {
                    None
                } else {
                    Some(Error::RequiresAdministrator)
                },
                (TokenView { administrator: Some(new_admin), ..old(self)@ }),
            ),
    {
        match self.administrator {
            Some(admin) => {
                if admin == caller {
                    self.administrator = Some(new_admin);
                    Ok(())
                } else {
                    Err(Error::RequiresAdministrator)
                }
            },
            None => Err(Error::RequiresAdministrator),
        }
    }

    /// Hands the management over to `new_manager`. Only the manager may do
    /// so.
    pub fn set_manager(&mut self, caller: Address, new_manager: Address) -> (result: Result<
        (),
        Error,
    >)
        requires
            old(self).wf(),
        ensures
            final(self).wf(),
            settles(
                result,
                old(self)@,
                final(self)@,
                if old(self)@.manager == Some(caller) {
                    None
                } else {
                    Some(Error::RequiresManager)
                },
                (TokenView { manager: Some(new_manager), ..old(self)@ }),
            ),
    {
        match self.manager {
            Some(manager) => {
                if manager == caller {
                    self.manager = Some(new_manager);
                    Ok(())
                } else {
                    Err(Error::RequiresManager)
                }
            },
            None => Err(Error::RequiresManager),
        }
    }

    /// The address at which the instance is deployed.
    pub fn address(&self) -> (address: Address)
        ensures
            address == self@.address,
    {
        self.address
    }

    /// The administrator, once the instance is initialized.
    pub fn get_admin(&self) -> (admin: Option<Address>)
        ensures
            admin == self@.administrator,
    {
        self.administrator
    }

    /// The manager, once the instance is initialized.
    pub fn get_manager(&self) -> (manager: Option<Address>)
        ensures
            manager == self@.manager,
    {
        self.manager
    }

    /// The component table, in its order.
    pub fn get_components(&self) -> (components: Vec<Component>)
        ensures
            components@ == self@.components,
    {
        let mut components: Vec<Component> = Vec::new();
        let mut i: usize = 0;
        while i < self.components.len()
            invariant
                i <= self.components@.len(),
                components@ == self.components@.take(i as int),
            decreases self.components@.len() - i,
        {
            components.push(self.components[i]);
            proof {
                assert(components@ =~= self.components@.take(i + 1));
            }
            i += 1;
        }
        proof {
            assert(components@ =~= self.components@);
        }
        components
    }

    /// The grant from `from` to `spender` as it was written, if one was.
    pub fn get_allowance(&self, from: Address, spender: Address) -> (grant: Option<AllowanceValue>)
        requires
            self.wf(),
        ensures
            grant == if self@.ledger.allowances.dom().contains((from, spender)) {
                Some(self@.ledger.allowances[(from, spender)])
            } else {
                None
            },
    {
        self.ledger.get_allowance(from, spender)
    }

    /// What `spender` may draw of `from`'s baskets at ledger sequence number
    /// `now`.
    pub fn allowance(&self, from: Address, spender: Address, now: u32) -> (amount: i128)
        requires
            self.wf(),
        ensures
            amount == self@.ledger.allowance(from, spender, now),
    {
        self.ledger.allowance(from, spender, now)
    }

    /// How many baskets `id` holds.
    pub fn balance(&self, id: Address) -> (amount: i128)
        requires
            self.wf(),
        ensures
            amount == self@.ledger.balances[id],
    {
        self.ledger.balance(id)
    }

    /// How many baskets exist.
    pub fn total_supply(&self) -> (supply: i128)
        ensures
            supply == self@.ledger.supply,
    {
        self.ledger.total_supply()
    }

    /// The number of decimal places in which amounts of the basket are
    /// shown.
    pub fn decimals(&self) -> (decimal: u32)
        ensures
            decimal == self@.decimal,
    {
        self.decimal
    }

    /// The name of the basket.
    pub fn name(&self) -> (name: String)
        ensures
            name@ == self@.name,
    {
        self.name.clone()
    }

    /// The symbol of the basket.
    pub fn symbol(&self) -> (symbol: String)
        ensures
            symbol@ == self@.symbol,
    {
        self.symbol.clone()
    }

    /// Lets `spender` draw up to `amount` of `from`'s baskets until the
    /// ledger sequence number passes `expiration_ledger`.
    pub fn approve(
        &mut self,
        from: Address,
        spender: Address,
        amount: i128,
        expiration_ledger: u32,
    ) -> (result: Result<(), Error>)
        requires
            old(self).wf(),
        ensures
            final(self).wf(),
            settles(
                result,
                old(self)@,
                final(self)@,
                old(self)@.ledger.approve_error(amount as int),
                old(self)@.with_ledger(
                    old(self)@.ledger.with_allowance(
                        from,
                        spender,
                        AllowanceValue { amount, expiration_ledger },
                    ),
                ),
            ),
    {
        self.ledger.approve(from, spender, amount, expiration_ledger)
    }

    /// Moves `amount` baskets from `from` to `to`.
    pub fn transfer(&mut self, from: Address, to: Address, amount: i128) -> (result: Result<
        (),
        Error,
    >)
        requires
            old(self).wf(),
        ensures
            final(self).wf(),
            settles(
                result,
                old(self)@,
                final(self)@,
                old(self)@.ledger.debit_error(from, amount as int),
                old(self)@.with_ledger(old(self)@.ledger.transferred(from, to, amount as int)),
            ),
    {
        self.ledger.transfer(from, to, amount)
    }

    /// Moves `amount` baskets from `from` to `to` on the strength of what
    /// `from` granted to `spender`.
    pub fn transfer_from(
        &mut self,
        spender: Address,
        from: Address,
        to: Address,
        amount: i128,
        now: u32,
    ) -> (result: Result<(), Error>)
        requires
            old(self).wf(),
        ensures
            final(self).wf(),
            settles(
                result,
                old(self)@,
                final(self)@,
                old(self)@.ledger.transfer_from_error(spender, from, amount as int, now),
                old(self)@.with_ledger(
                    old(self)@.ledger.transferred_from(spender, from, to, amount as int),
                ),
            ),
    {
        self.ledger.transfer_from(spender, from, to, amount, now)
    }

    /// Destroys `amount` of `from`'s baskets. The components that backed
    /// them stay in the reserve.
    pub fn burn(&mut self, from: Address, amount: i128) -> (result: Result<(), Error>)
        requires
            old(self).wf(),
        ensures
            final(self).wf(),
            settles(
                result,
                old(self)@,
                final(self)@,
                old(self)@.ledger.debit_error(from, amount as int),
                old(self)@.with_ledger(old(self)@.ledger.debited(from, amount as int)),
            ),
    {
        self.ledger.burn(from, amount)
    }

    /// Destroys `amount` of `from`'s baskets on the strength of what `from`
    /// granted to `spender`.
    pub fn burn_from(&mut self, spender: Address, from: Address, amount: i128, now: u32) -> (result:
        Result<(), Error>)
        requires
            old(self).wf(),
        ensures
            final(self).wf(),
            settles(
                result,
                old(self)@,
                final(self)@,
                old(self)@.ledger.transfer_from_error(spender, from, amount as int, now),
                old(self)@.with_ledger(
                    old(self)@.ledger.burned_from(spender, from, amount as int),
                ),
            ),
    {
        self.ledger.burn_from(spender, from, amount, now)
    }

    fn find_component(&self, asset: Address) -> (found: Option<usize>)
        ensures
            match found {
                Some(i) => {
                    &&& i < self.components@.len()
                    &&& self.components@[i as int].address == asset
                },
                None => absent(pairs(self.components@), asset),
            },
    {
        let mut i: usize = 0;
        while i < self.components.len()
            invariant
                i <= self.components@.len(),
                forall|j: int| 0 <= j < i ==> (#[trigger] self.components@[j]).address != asset,
            decreases self.components@.len() - i,
        {
            if self.components[i].address == asset {
                return Some(i);
            }
            i += 1;
        }
        proof {
            let s = pairs(self.components@);
            assert forall|j: int| 0 <= j < s.len() implies (#[trigger] s[j]).0 != asset by {
                assert(self.components@[j].address != asset);
            }
        }
        None
    }

    /// The unit of `asset`, if it is a component.
    pub fn unit(&self, asset: Address) -> (unit: Option<i128>)
        requires
            self.wf(),
        ensures
            unit == unit_of(self@.components, asset),
    {
        match self.find_component(asset) {
            Some(i) => {
                proof {
                    lemma_unit_at(self.components@, i as int);
                }
                Some(self.components[i].unit)
            },
            None => {
                proof {
                    lemma_lookup_absent(pairs(self.components@), asset);
                }
                None
            },
        }
    }

    /// Puts `asset`, at `new_unit` a basket, in the place of `source` in the
    /// component table; with `asset` equal to `source` this changes the unit
    /// alone. Only the manager may do so, and only where the reserve in
    /// `assets` covers the new unit for every basket that exists.
    pub fn set_component_unit(
        &mut self,
        caller: Address,
        assets: &Assets,
        source: Address,
        asset: Address,
        new_unit: i128,
    ) -> (result: Result<(), Error>)
        requires
            old(self).wf(),
            assets.wf(),
        ensures
            final(self).wf(),
            settles(
                result,
                old(self)@,
                final(self)@,
                old(self)@.set_unit_error(assets@, caller, source, asset, new_unit as int),
                old(self)@.with_unit(source, asset, new_unit),
            ),
            result is Ok ==> unit_of(final(self)@.components, asset) == Some(new_unit),
            result is Ok && asset != source ==> unit_of(final(self)@.components, source) is None,
            result is Ok && old(self)@.backed_by(assets@) ==> final(self)@.backed_by(assets@),
    {
        match self.manager {
            Some(manager) => {
                if manager != caller {
                    return Err(Error::RequiresManager);
                }
            },
            None => {
                return Err(Error::RequiresManager);
            },
        }
        if new_unit <= 0 {
            return Err(Error::ZeroOrNegativeAmount);
        }
        let place = match self.find_component(source) {
            Some(place) => place,
            None => {
                proof {
                    lemma_lookup_absent(pairs(self.components@), source);
                }
                return Err(Error::ComponentNotFound);
            },
        };
        proof {
            lemma_unit_at(self.components@, place as int);
        }
        if asset != source {
            match self.find_component(asset) {
                Some(other) => {
                    proof {
                        lemma_unit_at(self.components@, other as int);
                    }
                    return Err(Error::DuplicateComponent);
                },
                None => {
                    proof {
                        lemma_lookup_absent(pairs(self.components@), asset);
                    }
                },
            }
        }
        proof {
            self.ledger.lemma_valid();
        }
        let supply = self.ledger.total_supply();
        assert(new_unit * supply >= 0) by (nonlinear_arith)
            requires
                new_unit > 0,
                supply >= 0,
        ;
        let reserve = assets.balance(asset, self.address);
        match new_unit.checked_mul(supply) {
            Some(needed) => {
                if reserve < needed {
                    return Err(Error::InsufficientBalance);
                }
            },
            None => {
                return Err(Error::InsufficientBalance);
            },
        }
        proof {
            lemma_replaced(self.components@, source, asset, new_unit);
            if self@.backed_by(assets@) {
                lemma_with_unit_backed(self@, assets@, source, asset, new_unit);
            }
        }
        self.components[place] = Component { address: asset, unit: new_unit };
        proof {
            assert(self.components@ =~= replaced(old(self).components@, source, asset, new_unit));
        }
        Ok(())
    }

    /// What a mint or a redemption of `amount` baskets by `caller` moves of
    /// each component, in the order of the table: the unit times the amount.
    /// The amount is looked at first, then the caller, who has to be the
    /// administrator.
    pub fn supply_change(&self, caller: Address, amount: i128) -> (result: Result<
        Vec<i128>,
        Error,
    >)
        requires
            self.wf(),
        ensures
            match result {
                Ok(quantities) => {
                    &&& amount > 0
                    &&& self@.administrator == Some(caller)
                    &&& quantities@.len() == self@.components.len()
                    &&& forall|i: int|
                        0 <= i < quantities@.len() ==> quantities@[i] == self@.components[i].unit
                            * amount
                },
                Err(e) => if amount <= 0 {
                    e == Error::ZeroOrNegativeAmount
                } else if self@.administrator != Some(caller) {
                    e == Error::RequiresAdministrator
                } else {
                    &&& e == Error::ValueTooLargeOverflow
                    &&& exists|i: int|
                        0 <= i < self@.components.len() && (#[trigger] self@.components[i]).unit
                            * amount > i128::MAX
                },
            },
    {
        if amount <= 0 {
            return Err(Error::ZeroOrNegativeAmount);
        }
        match self.administrator {
            Some(admin) => {
                if admin != caller {
                    return Err(Error::RequiresAdministrator);
                }
            },
            None => {
                return Err(Error::RequiresAdministrator);
            },
        }
        self.required_amounts(amount)
    }

    /// Drops the grants over baskets that have expired at ledger sequence
    /// number `now`.
    pub fn drop_expired(&mut self, now: u32)
        requires
            old(self).wf(),
        ensures
            final(self).wf(),
            final(self)@ == old(self)@.with_ledger(old(self)@.ledger.without_expired(now)),
    {
        self.ledger.drop_expired(now);
    }

    /// What `amount` baskets need of each component, in the order of the
    /// table: the unit times the amount.
    pub fn required_amounts(&self, amount: i128) -> (result: Result<Vec<i128>, Error>)
        requires
            self.wf(),
        ensures
            match result {
                Ok(quantities) => {
                    &&& amount > 0
                    &&& quantities@.len() == self@.components.len()
                    &&& forall|i: int|
                        0 <= i < quantities@.len() ==> quantities@[i] == self@.components[i].unit
                            * amount
                },
                Err(e) => if amount <= 0 {
                    e == Error::ZeroOrNegativeAmount
                } else {
                    &&& e == Error::ValueTooLargeOverflow
                    &&& exists|i: int|
                        0 <= i < self@.components.len() && (#[trigger] self@.components[i]).unit
                            * amount > i128::MAX
                },
            },
    {
        if amount <= 0 {
            return Err(Error::ZeroOrNegativeAmount);
        }
        let mut quantities: Vec<i128> = Vec::new();
        let mut i: usize = 0;
        while i < self.components.len()
            invariant
                self.wf(),
                amount > 0,
                i <= self.components@.len(),
                quantities@.len() == i,
                forall|j: int|
                    0 <= j < i ==> quantities@[j] == self.components@[j].unit * amount,
            decreases self.components@.len() - i,
        {
            let unit = self.components[i].unit;
            assert(unit * amount > 0) by (nonlinear_arith)
                requires
                    unit > 0,
                    amount > 0,
            ;
            match unit.checked_mul(amount) {
                Some(quantity) => {
                    quantities.push(quantity);
                },
                None => {
                    assert(self@.components[i as int].unit * amount > i128::MAX);
                    return Err(Error::ValueTooLargeOverflow);
                },
            }
            i += 1;
        }
        Ok(quantities)
    }

    /// Moves `unit * amount` of each component, in the order of the table,
    /// and stops at the first that cannot move.
    fn settle_components(
        &self,
        assets: &mut Assets,
        holder: Address,
        amount: i128,
        now: u32,
        direction: Direction,
    ) -> (result: Result<(), Error>)
        requires
            self.wf(),
            old(assets).wf(),
            amount > 0,
        ensures
            final(assets).wf(),
            match legs_error(
                self@.components,
                old(assets)@,
                self@.address,
                holder,
                amount as int,
                now,
                direction,
                0,
            ) {
                Some(e) => result == Err::<(), Error>(e),
                None => result == Ok::<(), Error>(()) && final(assets)@ == legs_done(
                    self@.components,
                    old(assets)@,
                    self@.address,
                    holder,
                    amount as int,
                    direction,
                ),
            },
    {
        let ghost before = assets@;
        let ghost table = self.components@;
        let basket = self.address;
        proof {
            assets.lemma_valid();
            assert(table.take(0) =~= Seq::<Component>::empty());
            assert(assets@.books =~= legs_done(
                table.take(0),
                before,
                basket,
                holder,
                amount as int,
                direction,
            ).books);
        }
        let mut i: usize = 0;
        while i < self.components.len()
            invariant
                self.wf(),
                assets.wf(),
                before.valid(),
                before == old(assets)@,
                amount > 0,
                table == self.components@,
                basket == self.address,
                i <= table.len(),
                legs_error(table, before, basket, holder, amount as int, now, direction, 0)
                    == legs_error(
                    table,
                    before,
                    basket,
                    holder,
                    amount as int,
                    now,
                    direction,
                    i as int,
                ),
                assets@ == legs_done(
                    table.take(i as int),
                    before,
                    basket,
                    holder,
                    amount as int,
                    direction,
                ),
            decreases table.len() - i,
        {
            let component = self.components[i];
            assert(component.unit * amount > 0) by (nonlinear_arith)
                requires
                    component.unit > 0,
                    amount > 0,
            ;
            proof {
                lemma_prefix_lacks(table, i as int);
            }
            let quantity = match component.unit.checked_mul(amount) {
                Some(quantity) => quantity,
                None => {
                    return Err(Error::ValueTooLargeOverflow);
                },
            };
            let moved = match direction {
                Direction::Lock => assets.transfer_from(
                    component.address,
                    basket,
                    holder,
                    basket,
                    quantity,
                    now,
                ),
                Direction::Release => assets.transfer(component.address, basket, holder, quantity),
            };
            match moved {
                Ok(()) => {},
                Err(e) => {
                    return Err(e);
                },
            }
            proof {
                lemma_prefix_grows(table, i as int);
                assert(assets@.books =~= legs_done(
                    table.take(i + 1),
                    before,
                    basket,
                    holder,
                    amount as int,
                    direction,
                ).books);
            }
            i += 1;
        }
        proof {
            assert(table.take(i as int) =~= table);
        }
        Ok(())
    }

    /// Mints `amount` baskets to `to`. Only the administrator may do so.
    /// Of each component, `unit * amount` is drawn from `to` into the
    /// basket's reserve, on the grant that `to` gave the basket; if one of
    /// them cannot be drawn, nothing is.
    pub fn mint(
        &mut self,
        caller: Address,
        assets: &mut Assets,
        to: Address,
        amount: i128,
        now: u32,
    ) -> (result: Result<(), Error>)
        requires
            old(self).wf(),
            old(assets).wf(),
        ensures
            final(self).wf(),
            final(assets).wf(),
            match old(self)@.mint_error(old(assets)@, caller, to, amount as int, now) {
                Some(e) => {
                    &&& result == Err::<(), Error>(e)
                    &&& final(self)@ == old(self)@
                    &&& final(assets)@ == old(assets)@
                },
                None => {
                    &&& result == Ok::<(), Error>(())
                    &&& final(self)@ == old(self)@.minted(to, amount as int)
                    &&& final(assets)@ == old(self)@.locked(old(assets)@, to, amount as int)
                },
            },
            result is Ok && to != old(self)@.address && old(self)@.backed_by(old(assets)@)
                ==> final(self)@.backed_by(final(assets)@),
    {
        if amount <= 0 {
            return Err(Error::ZeroOrNegativeAmount);
        }
        match self.administrator {
            Some(admin) => {
                if admin != caller {
                    return Err(Error::RequiresAdministrator);
                }
            },
            None => {
                return Err(Error::RequiresAdministrator);
            },
        }
        let mut staged = assets.duplicate();
        match self.settle_components(&mut staged, to, amount, now, Direction::Lock) {
            Ok(()) => {},
            Err(e) => {
                return Err(e);
            },
        }
        match self.ledger.credit(to, amount) {
            Ok(()) => {},
            Err(e) => {
                return Err(e);
            },
        }
        proof {
            old(self).lemma_valid();
            old(assets).lemma_valid();
            if to != old(self)@.address && old(self)@.backed_by(old(assets)@) {
                lemma_mint_keeps_backing(old(self)@, old(assets)@, caller, to, amount as int, now);
            }
        }
        *assets = staged;
        Ok(())
    }

    /// Redeems `amount` of the baskets that `to` holds. Only the
    /// administrator may do so. The baskets cease to exist, and of each
    /// component `unit * amount` leaves the reserve for `to`.
    pub fn redeem(
        &mut self,
        caller: Address,
        assets: &mut Assets,
        to: Address,
        amount: i128,
    ) -> (result: Result<(), Error>)
        requires
            old(self).wf(),
            old(assets).wf(),
        ensures
            final(self).wf(),
            final(assets).wf(),
            match old(self)@.redeem_error(old(assets)@, caller, to, amount as int) {
                Some(e) => {
                    &&& result == Err::<(), Error>(e)
                    &&& final(self)@ == old(self)@
                    &&& final(assets)@ == old(assets)@
                },
                None => {
                    &&& result == Ok::<(), Error>(())
                    &&& final(self)@ == old(self)@.redeemed(to, amount as int)
                    &&& final(assets)@ == old(self)@.released(old(assets)@, to, amount as int)
                },
            },
            result is Ok && old(self)@.backed_by(old(assets)@) ==> final(self)@.backed_by(
                final(assets)@,
            ),
    {
        if amount <= 0 {
            return Err(Error::ZeroOrNegativeAmount);
        }
        match self.administrator {
            Some(admin) => {
                if admin != caller {
                    return Err(Error::RequiresAdministrator);
                }
            },
            None => {
                return Err(Error::RequiresAdministrator);
            },
        }
        if self.ledger.balance(to) < amount {
            return Err(Error::InsufficientBalance);
        }
        let mut staged = assets.duplicate();
        match self.settle_components(&mut staged, to, amount, 0, Direction::Release) {
            Ok(()) => {},
            Err(e) => {
                return Err(e);
            },
        }
        match self.ledger.debit(to, amount) {
            Ok(()) => {},
            Err(e) => {
                return Err(e);
            },
        }
        proof {
            old(self).lemma_valid();
            old(assets).lemma_valid();
            if old(self)@.backed_by(old(assets)@) {
                lemma_redeem_keeps_backing(old(self)@, old(assets)@, caller, to, amount as int);
            }
        }
        *assets = staged;
        Ok(())
    }
}

/// The asset at place `i` of a valid table is not among those before it.
proof fn lemma_prefix_lacks(table: Seq<Component>, i: int)
    requires
        components_valid(table),
        0 <= i < table.len(),
    ensures
        unit_of(table.take(i), table[i].address) is None,
{
    let s = pairs(table.take(i));
    assert forall|j: int| 0 <= j < s.len() implies (#[trigger] s[j]).0 != table[i].address by {
        assert(table.take(i)[j] == table[j]);
    }
    lemma_lookup_absent(s, table[i].address);
}

/// One place more of the table adds the unit of the asset at that place and
/// changes no other.
proof fn lemma_prefix_grows(table: Seq<Component>, i: int)
    requires
        0 <= i < table.len(),
    ensures
        forall|asset: Address|
            unit_of(table.take(i + 1), asset) == if asset == table[i].address {
                Some(table[i].unit)
            } else {
                unit_of(table.take(i), asset)
            },
{
    let s = pairs(table.take(i));
    let e = (table[i].address, table[i].unit);
    assert(pairs(table.take(i + 1)) =~= s.push(e));
    assert forall|asset: Address|
        unit_of(table.take(i + 1), asset) == if asset == table[i].address {
            Some(table[i].unit)
        } else {
            unit_of(table.take(i), asset)
        } by {
        crate::assoc::lemma_lookup_push(s, e, asset);
    }
}

/// In a valid table the asset at place `i` has the unit at place `i`.
pub proof fn lemma_unit_at(table: Seq<Component>, i: int)
    requires
        components_valid(table),
        0 <= i < table.len(),
    ensures
        unit_of(table, table[i].address) == Some(table[i].unit),
{
    let s = pairs(table);
    assert forall|a: int, b: int| 0 <= a < b < s.len() implies s[a].0 != s[b].0 by {
        assert(table[a].address != table[b].address);
    }
    lemma_lookup_at(s, i);
}

/// Where no baskets exist, nothing has to be held in reserve: a token is
/// backed from its initialization until its first mint.
pub proof fn lemma_no_baskets_need_no_reserve(token: TokenView, assets: AssetsView)
    requires
        assets.valid(),
        token.ledger.supply == 0,
    ensures
        token.backed_by(assets),
{
    assert forall|i: int| 0 <= i < token.components.len() implies assets.balance(
        (#[trigger] token.components[i]).address,
        token.address,
    ) >= token.components[i].unit * token.ledger.supply by {
        assert(assets.books[token.components[i].address].valid());
    }
}

/// A mint to any holder but the basket itself keeps the reserve
/// guarantee: where every component was backed before, every component is
/// backed after.
pub proof fn lemma_mint_keeps_backing(
    token: TokenView,
    assets: AssetsView,
    caller: Address,
    to: Address,
    amount: int,
    now: u32,
)
    requires
        token.valid(),
        assets.valid(),
        token.mint_error(assets, caller, to, amount, now) is None,
        to != token.address,
        token.backed_by(assets),
    ensures
        token.minted(to, amount).backed_by(token.locked(assets, to, amount)),
{
    let after = token.minted(to, amount);
    let world = token.locked(assets, to, amount);
    assert forall|i: int| 0 <= i < after.components.len() implies world.balance(
        (#[trigger] after.components[i]).address,
        after.address,
    ) >= after.components[i].unit * after.ledger.supply by {
        let c = token.components[i];
        lemma_unit_at(token.components, i);
        assert(assets.balance(c.address, token.address) >= c.unit * token.ledger.supply);
        assert(c.unit * (token.ledger.supply + amount) == c.unit * token.ledger.supply + c.unit
            * amount) by (nonlinear_arith);
    }
}

/// The reserve guarantee survives whatever happens to the books of the
/// holders as long as the supply does not grow: baskets may move, be
/// granted and be burnt.
pub proof fn lemma_backing_outlasts_the_books(
    token: TokenView,
    assets: AssetsView,
    ledger: LedgerView,
)
    requires
        token.valid(),
        token.backed_by(assets),
        ledger.supply <= token.ledger.supply,
    ensures
        token.with_ledger(ledger).backed_by(assets),
{
    let after = token.with_ledger(ledger);
    assert forall|i: int| 0 <= i < after.components.len() implies assets.balance(
        (#[trigger] after.components[i]).address,
        after.address,
    ) >= after.components[i].unit * after.ledger.supply by {
        let unit = token.components[i].unit;
        assert(unit * ledger.supply <= unit * token.ledger.supply) by (nonlinear_arith)
            requires
                unit > 0,
                ledger.supply <= token.ledger.supply,
        ;
    }
}

/// A redemption keeps the reserve guarantee: where every component was
/// backed before, every component is backed after.
pub proof fn lemma_redeem_keeps_backing(
    token: TokenView,
    assets: AssetsView,
    caller: Address,
    to: Address,
    amount: int,
)
    requires
        token.valid(),
        assets.valid(),
        token.redeem_error(assets, caller, to, amount) is None,
        token.backed_by(assets),
    ensures
        token.redeemed(to, amount).backed_by(token.released(assets, to, amount)),
{
    let after = token.redeemed(to, amount);
    let world = token.released(assets, to, amount);
    assert forall|i: int| 0 <= i < after.components.len() implies world.balance(
        (#[trigger] after.components[i]).address,
        after.address,
    ) >= after.components[i].unit * after.ledger.supply by {
        let c = token.components[i];
        lemma_unit_at(token.components, i);
        assert(assets.balance(c.address, token.address) >= c.unit * token.ledger.supply);
        assert(c.unit * (token.ledger.supply - amount) == c.unit * token.ledger.supply - c.unit
            * amount) by (nonlinear_arith);
        assert(c.unit * amount > 0) by (nonlinear_arith)
            requires
                c.unit > 0,
                amount > 0,
        ;
    }
}

/// Where no component fails from place `i` on, none fails at a place `j`
/// behind `i`.
pub proof fn lemma_legs_each(
    components: Seq<Component>,
    assets: AssetsView,
    basket: Address,
    holder: Address,
    amount: int,
    now: u32,
    direction: Direction,
    i: int,
    j: int,
)
    requires
        0 <= i <= j < components.len(),
        legs_error(components, assets, basket, holder, amount, now, direction, i) is None,
    ensures
        leg_error(
            assets.books[components[j].address],
            basket,
            holder,
            components[j].unit * amount,
            now,
            direction,
        ) is None,
    decreases j - i,
{
    if i < j {
        lemma_legs_each(components, assets, basket, holder, amount, now, direction, i + 1, j);
    }
}

/// Where each component from place `i` on can flow, they all can.
pub proof fn lemma_legs_all(
    components: Seq<Component>,
    assets: AssetsView,
    basket: Address,
    holder: Address,
    amount: int,
    now: u32,
    direction: Direction,
    i: int,
)
    requires
        0 <= i,
        forall|j: int|
            i <= j < components.len() ==> leg_error(
                assets.books[(#[trigger] components[j]).address],
                basket,
                holder,
                components[j].unit * amount,
                now,
                direction,
            ) is None,
    ensures
        legs_error(components, assets, basket, holder, amount, now, direction, i) is None,
    decreases components.len() - i,
{
    if i < components.len() {
        assert(components[i].unit == components[i].unit);
        lemma_legs_all(components, assets, basket, holder, amount, now, direction, i + 1);
    }
}

/// The round trip: a mint followed at once by a redemption of the same
/// amount for the same holder leaves the basket token as it was, and in the
/// books of every asset each holder's balance and the supply as they were.
/// (What the holder had granted the basket has been drawn on.)
pub proof fn lemma_mint_redeem_round_trip(
    token: TokenView,
    assets: AssetsView,
    caller: Address,
    to: Address,
    amount: int,
    now: u32,
)
    requires
        token.valid(),
        assets.valid(),
        token.mint_error(assets, caller, to, amount, now) is None,
        token.minted(to, amount).redeem_error(
            token.locked(assets, to, amount),
            caller,
            to,
            amount,
        ) is None,
    ensures
        token.minted(to, amount).redeemed(to, amount) == token,
        forall|asset: Address|
            (#[trigger] token.minted(to, amount).released(
                token.locked(assets, to, amount),
                to,
                amount,
            ).books[asset]).balances == assets.books[asset].balances,
        forall|asset: Address|
            (#[trigger] token.minted(to, amount).released(
                token.locked(assets, to, amount),
                to,
                amount,
            ).books[asset]).supply == assets.books[asset].supply,
{
    let minted = token.minted(to, amount);
    let locked = token.locked(assets, to, amount);
    let redeemed = minted.redeemed(to, amount);
    let released = minted.released(locked, to, amount);
    assert(redeemed.ledger.balances =~= token.ledger.balances);
    assert(redeemed.ledger == token.ledger);
    assert forall|asset: Address|
        (#[trigger] released.books[asset]).balances == assets.books[asset].balances
            && released.books[asset].supply == assets.books[asset].supply by {
        assert(assets.books[asset].valid());
        assert(released.books[asset].balances =~= assets.books[asset].balances);
    }
}

/// After a mint to any holder but the basket itself, the same caller can
/// redeem the same amount for the same holder.
pub proof fn lemma_redeem_follows_mint(
    token: TokenView,
    assets: AssetsView,
    caller: Address,
    to: Address,
    amount: int,
    now: u32,
)
    requires
        token.valid(),
        assets.valid(),
        token.mint_error(assets, caller, to, amount, now) is None,
        to != token.address,
    ensures
        token.minted(to, amount).redeem_error(
            token.locked(assets, to, amount),
            caller,
            to,
            amount,
        ) is None,
{
    let minted = token.minted(to, amount);
    let locked = token.locked(assets, to, amount);
    let table = token.components;
    assert forall|j: int| 0 <= j < table.len() implies leg_error(
        locked.books[(#[trigger] table[j]).address],
        token.address,
        to,
        table[j].unit * amount,
        0,
        Direction::Release,
    ) is None by {
        lemma_unit_at(table, j);
        lemma_legs_each(table, assets, token.address, to, amount, now, Direction::Lock, 0, j);
        assert(assets.books[table[j].address].valid());
        assert(table[j].unit * amount > 0) by (nonlinear_arith)
            requires
                table[j].unit > 0,
                amount > 0,
        ;
    }
    lemma_legs_all(table, locked, token.address, to, amount, 0, Direction::Release, 0);
}

/// An instance is initialized once: after an initialization has succeeded,
/// every further one is refused as a repetition, whatever it asks for.
pub proof fn lemma_initialize_once(
    token: TokenView,
    decimal: u32,
    components: Seq<Address>,
    units: Seq<i128>,
    name: Seq<char>,
    symbol: Seq<char>,
    admin: Address,
    manager: Address,
    again_decimal: u32,
    again_components: Seq<Address>,
    again_units: Seq<i128>,
)
    requires
        token.initialize_error(decimal, components, units) is None,
    ensures
        token.initialized(
            decimal,
            components,
            units,
            name,
            symbol,
            admin,
            manager,
        ).initialize_error(again_decimal, again_components, again_units) == Some(
            Error::AlreadyInitialized,
        ),
{
}

/// What replacing a component does to a valid table: the table stays
/// valid, the new asset has the new unit, the old asset has none, and every
/// other asset keeps what it had.
pub proof fn lemma_replaced(table: Seq<Component>, source: Address, asset: Address, unit: i128)
    requires
        components_valid(table),
        unit > 0,
        unit_of(table, source) is Some,
        asset == source || unit_of(table, asset) is None,
    ensures
        components_valid(replaced(table, source, asset, unit)),
        forall|other: Address|
            unit_of(replaced(table, source, asset, unit), other) == if other == asset {
                Some(unit)
            } else if other == source {
                None
            } else {
                unit_of(table, other)
            },
{
    let s = pairs(table);
    let after = replaced(table, source, asset, unit);
    if absent(s, source) {
        lemma_lookup_absent(s, source);
    }
    let i = choose|i: int| 0 <= i < s.len() && (#[trigger] s[i]).0 == source;
    assert forall|a: int, b: int| 0 <= a < b < s.len() implies s[a].0 != s[b].0 by {
        assert(table[a].address != table[b].address);
    }
    assert forall|j: int| 0 <= j < table.len() && j != i implies (#[trigger] table[j]).address
        != source by {
        if j < i {
            assert(s[j].0 != s[i].0);
        } else {
            assert(s[i].0 != s[j].0);
        }
    }
    if asset != source {
        lemma_lookup_none(s, asset);
    }
    assert(pairs(after) =~= s.update(i, (asset, unit)));
    assert forall|other: Address|
        unit_of(after, other) == if other == asset {
            Some(unit)
        } else if other == source {
            None
        } else {
            unit_of(table, other)
        } by {
        lemma_lookup_update(s, i, (asset, unit), other);
    }
    lemma_lookup_update(s, i, (asset, unit), asset);
    let t = pairs(after);
    assert forall|a: int, b: int| 0 <= a < b < after.len() implies after[a].address
        != after[b].address by {
        assert(t[a].0 != t[b].0);
    }
}

/// A component put in place with its reserve covered keeps the reserve
/// guarantee.
pub proof fn lemma_with_unit_backed(
    token: TokenView,
    assets: AssetsView,
    source: Address,
    asset: Address,
    unit: i128,
)
    requires
        assets.balance(asset, token.address) >= unit * token.ledger.supply,
        token.backed_by(assets),
    ensures
        token.with_unit(source, asset, unit).backed_by(assets),
{
    let after = token.with_unit(source, asset, unit);
    assert forall|i: int| 0 <= i < after.components.len() implies assets.balance(
        (#[trigger] after.components[i]).address,
        after.address,
    ) >= after.components[i].unit * after.ledger.supply by {
        if token.components[i].address != source {
            assert(after.components[i] == token.components[i]);
        }
    }
}

/// An amount that is not positive is refused, whoever asks and whatever the
/// books hold: a mint or a redemption of it fails for the amount's sake, and
/// a failure changes nothing.
pub proof fn lemma_amount_has_to_be_positive(
    token: TokenView,
    assets: AssetsView,
    caller: Address,
    to: Address,
    amount: int,
    now: u32,
)
    requires
        amount <= 0,
    ensures
        token.mint_error(assets, caller, to, amount, now) == Some(Error::ZeroOrNegativeAmount),
        token.redeem_error(assets, caller, to, amount) == Some(Error::ZeroOrNegativeAmount),
        Error::ZeroOrNegativeAmount.spec_kind() == crate::error::ErrorKind::Amount,
{
}

} // verus!
