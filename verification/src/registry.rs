//! The adapter registry: which adapter speaks for which exchange.

use crate::address::Address;
use crate::assoc::{
    absent, keys_distinct, lemma_lookup_absent, lemma_lookup_at, lemma_lookup_push,
    lemma_lookup_with_value, lemma_push_distinct, lemma_with_value_distinct, lookup, with_value,
};
use crate::error::Error;
use vstd::prelude::*;

verus! {

/// The registry as mathematics: its own address, and the adapter of each
/// exchange that has one.
pub struct RegistryView {
    pub address: Address,
    pub adapters: Map<Address, Address>,
}

/// A registry of exchange adapters.
#[derive(Debug)]
pub struct Registry {
    address: Address,
    adapters: Vec<(Address, Address)>,
}

impl View for Registry {
    type V = RegistryView;

    closed spec fn view(&self) -> RegistryView {
        RegistryView {
            address: self.address,
            adapters: Map::new(
                |exchange: Address| lookup(self.adapters@, exchange) is Some,
                |exchange: Address| lookup(self.adapters@, exchange)->Some_0,
            ),
        }
    }
}

impl Registry {
    /// Each exchange is recorded once.
    pub closed spec fn wf(&self) -> bool {
        keys_distinct(self.adapters@)
    }

    /// The registry deployed at `address`, with no adapter yet.
    pub fn new(address: Address) -> (registry: Registry)
        ensures
            registry.wf(),
            registry@ == (RegistryView { address, adapters: Map::empty() }),
    {
        let registry = Registry { address, adapters: Vec::new() };
        proof {
            assert(registry@.adapters =~= Map::<Address, Address>::empty());
        }
        registry
    }

    /// The address at which the registry is deployed.
    pub fn address(&self) -> (address: Address)
        ensures
            address == self@.address,
    {
        self.address
    }

    fn find(&self, exchange: Address) -> (found: Option<usize>)
        ensures
            match found {
                Some(i) => i < self.adapters@.len() && self.adapters@[i as int].0 == exchange,
                None => absent(self.adapters@, exchange),
            },
    {
        let mut i: usize = 0;
        while i < self.adapters.len()
            invariant
                i <= self.adapters@.len(),
                forall|j: int| 0 <= j < i ==> (#[trigger] self.adapters@[j]).0 != exchange,
            decreases self.adapters@.len() - i,
        {
            if self.adapters[i].0 == exchange {
                return Some(i);
            }
            i += 1;
        }
        None
    }

    /// Makes `adapter` the adapter of `exchange`, in place of an earlier one
    /// if there was one.
    pub fn add_adapter(&mut self, exchange: Address, adapter: Address)
        requires
            old(self).wf(),
        ensures
            final(self).wf(),
            final(self)@ == (RegistryView {
                address: old(self)@.address,
                adapters: old(self)@.adapters.insert(exchange, adapter),
            }),
    {
        let ghost before = self.adapters@;
        match self.find(exchange) {
            Some(i) => {
                proof {
                    lemma_with_value_distinct(before, i as int, adapter);
                }
                self.adapters[i] = (exchange, adapter);
                proof {
                    assert(self.adapters@ =~= with_value(before, i as int, adapter));
                    assert forall|k: Address|
                        lookup(self.adapters@, k) == if k == exchange {
                            Some(adapter)
                        } else {
                            lookup(before, k)
                        } by {
                        lemma_lookup_with_value(before, i as int, adapter, k);
                    }
                }
            },
            None => {
                proof {
                    lemma_push_distinct(before, (exchange, adapter));
                }
                self.adapters.push((exchange, adapter));
                proof {
                    assert forall|k: Address|
                        lookup(self.adapters@, k) == if k == exchange {
                            Some(adapter)
                        } else {
                            lookup(before, k)
                        } by {
                        lemma_lookup_push(before, (exchange, adapter), k);
                    }
                }
            },
        }
        proof {
            assert(self@.adapters =~= old(self)@.adapters.insert(exchange, adapter));
        }
    }

    /// The adapter of `exchange`.
    pub fn resolve(&self, exchange: Address) -> (result: Result<Address, Error>)
        requires
            self.wf(),
        ensures
            result == if self@.adapters.dom().contains(exchange) {
                Ok::<Address, Error>(self@.adapters[exchange])
            } else {
                Err::<Address, Error>(Error::RequiresAdapter)
            },
    {
        match self.find(exchange) {
            Some(i) => {
                proof {
                    lemma_lookup_at(self.adapters@, i as int);
                }
                Ok(self.adapters[i].1)
            },
            None => {
                proof {
                    lemma_lookup_absent(self.adapters@, exchange);
                }
                Err(Error::RequiresAdapter)
            },
        }
    }
}

} // verus!
