//! The factory: it brings basket tokens into being, within a limit on the
//! number of components, and keeps the list of those it made.

use crate::address::Address;
use crate::error::Error;
use crate::ledger::LedgerView;
use crate::token::{ConstellationToken, TokenView};
use vstd::prelude::*;

verus! {

/// The factory as mathematics.
pub struct FactoryView {
    pub max_components: Option<u32>,
    pub token_list: Seq<Address>,
}

/// The instance that stands at `address` before it is initialized.
pub open spec fn deployed(address: Address) -> TokenView {
    TokenView {
        address,
        administrator: None,
        manager: None,
        components: Seq::empty(),
        decimal: 0,
        name: Seq::empty(),
        symbol: Seq::empty(),
        ledger: LedgerView::empty(),
    }
}

impl FactoryView {
    /// Why a basket token cannot be created at `address`, if it cannot: the
    /// limit on the number of components is looked at first, then the
    /// address, then what the token itself asks of its initialization.
    pub open spec fn create_error(
        self,
        address: Address,
        decimal: u32,
        components: Seq<Address>,
        amounts: Seq<i128>,
    ) -> Option<Error> {
        if self.max_components is Some && components.len() > self.max_components->Some_0 {
            Some(Error::ExceedsMaxComponents)
        } else if self.token_list.contains(address) {
            Some(Error::AlreadyInitialized)
        } else {
            deployed(address).initialize_error(decimal, components, amounts)
        }
    }
}

/// The factory of basket tokens.
#[derive(Debug)]
pub struct Factory {
    max_components: Option<u32>,
    token_list: Vec<Address>,
}

impl View for Factory {
    type V = FactoryView;

    closed spec fn view(&self) -> FactoryView {
        FactoryView { max_components: self.max_components, token_list: self.token_list@ }
    }
}

impl Factory {
    /// The factory as it is deployed: no limit is set and no token made.
    pub fn new() -> (factory: Factory)
        ensures
            factory@ == (FactoryView { max_components: None, token_list: Seq::empty() }),
    {
        Factory { max_components: None, token_list: Vec::new() }
    }

    /// The factory as it was stored: its limit and the list of the tokens it
    /// made.
    pub fn restore(max_components: Option<u32>, token_list: Vec<Address>) -> (factory: Factory)
        ensures
            factory@ == (FactoryView { max_components, token_list: token_list@ }),
    {
        Factory { max_components, token_list }
    }

    /// Sets the limit on the number of components, if one is given. A limit
    /// of zero is refused.
    pub fn initialize(&mut self, max_components: Option<u32>) -> (result: Result<(), Error>)
        ensures
            match max_components {
                Some(max) => if max == 0 {
                    result == Err::<(), Error>(Error::ZeroValue) && final(self)@ == old(self)@
                } else {
                    result == Ok::<(), Error>(()) && final(self)@ == (FactoryView {
                        max_components: Some(max),
                        ..old(self)@
                    })
                },
                None => result == Ok::<(), Error>(()) && final(self)@ == old(self)@,
            },
    {
        match max_components {
            Some(max) => self.set_max_components(max),
            None => Ok(()),
        }
    }

    /// Sets the limit on the number of components. A limit of zero is
    /// refused.
    pub fn set_max_components(&mut self, max_components: u32) -> (result: Result<(), Error>)
        ensures
            if max_components == 0 {
                result == Err::<(), Error>(Error::ZeroValue) && final(self)@ == old(self)@
            } else {
                result == Ok::<(), Error>(()) && final(self)@ == (FactoryView {
                    max_components: Some(max_components),
                    ..old(self)@
                })
            },
    {
        if max_components == 0 {
            return Err(Error::ZeroValue);
        }
        self.max_components = Some(max_components);
        Ok(())
    }

    /// The limit on the number of components, if one is set.
    pub fn get_max_components(&self) -> (max_components: Option<u32>)
        ensures
            max_components == self@.max_components,
    {
        self.max_components
    }

    /// The addresses of the tokens that the factory made, oldest first.
    pub fn get_token_list(&self) -> (token_list: Vec<Address>)
        ensures
            token_list@ == self@.token_list,
    {
        let mut token_list: Vec<Address> = Vec::new();
        let mut i: usize = 0;
        while i < self.token_list.len()
            invariant
                i <= self.token_list@.len(),
                token_list@ == self.token_list@.take(i as int),
            decreases self.token_list@.len() - i,
        {
            token_list.push(self.token_list[i]);
            proof {
                assert(token_list@ =~= self.token_list@.take(i + 1));
            }
            i += 1;
        }
        proof {
            assert(token_list@ =~= self.token_list@);
        }
        token_list
    }

    fn knows(&self, address: Address) -> (known: bool)
        ensures
            known == self@.token_list.contains(address),
    {
        let mut i: usize = 0;
        while i < self.token_list.len()
            invariant
                i <= self.token_list@.len(),
                forall|j: int| 0 <= j < i ==> self.token_list@[j] != address,
            decreases self.token_list@.len() - i,
        {
            if self.token_list[i] == address {
                assert(self.token_list@[i as int] == address);
                return true;
            }
            i += 1;
        }
        false
    }

    /// Creates the basket token that is deployed at `address`, initializes
    /// it, and adds its address to the list. Where the token is refused,
    /// none is made and the list stays as it was.
    pub fn create_constellation_token(
        &mut self,
        address: Address,
        decimal: u32,
        name: String,
        symbol: String,
        admin: Address,
        manager: Address,
        components: Vec<Address>,
        amounts: Vec<i128>,
    ) -> (result: Result<ConstellationToken, Error>)
        ensures
            match old(self)@.create_error(address, decimal, components@, amounts@) {
                Some(e) => {
                    &&& result matches Err(error)
                    &&& error == e
                    &&& final(self)@ == old(self)@
                },
                None => {
                    &&& result matches Ok(token)
                    &&& token.wf()
                    &&& token@ == deployed(address).initialized(
                        decimal,
                        components@,
                        amounts@,
                        name@,
                        symbol@,
                        admin,
                        manager,
                    )
                    &&& final(self)@ == (FactoryView {
                        token_list: old(self)@.token_list.push(address),
                        ..old(self)@
                    })
                },
            },
    {
        match self.max_components {
            Some(max) => {
                if components.len() > max as usize {
                    return Err(Error::ExceedsMaxComponents);
                }
            },
            None => {},
        }
        if self.knows(address) {
            return Err(Error::AlreadyInitialized);
        }
        let mut token = ConstellationToken::new(address);
        match token.initialize(decimal, components, amounts, name, symbol, admin, manager) {
            Ok(()) => {},
            Err(e) => {
                return Err(e);
            },
        }
        self.token_list.push(address);
        Ok(token)
    }
}

} // verus!
