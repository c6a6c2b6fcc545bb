//! The books of every asset that baskets are made of, keyed by the asset's
//! address.

use crate::address::Address;
use crate::assoc::{
    absent, keys_distinct, lemma_lookup_absent, lemma_lookup_at, lemma_lookup_push,
    lemma_lookup_with_value, lemma_push_distinct, lemma_with_value_distinct, lookup, with_value,
};
use crate::error::Error;
use crate::ledger::{settles, Ledger, LedgerView};
use vstd::prelude::*;

verus! {

/// The books of all assets as mathematics. Every address is in the domain of
/// `books`: an asset that nobody ever touched has empty books.
pub struct AssetsView {
    pub books: Map<Address, LedgerView>,
}

impl AssetsView {
    /// A world in which no asset is held by anybody.
    pub open spec fn empty() -> AssetsView {
        AssetsView { books: Map::total(|asset: Address| LedgerView::empty()) }
    }

    /// Each asset's books are valid.
    pub open spec fn valid(self) -> bool {
        &&& forall|asset: Address| self.books.dom().contains(asset)
        &&& forall|asset: Address| (#[trigger] self.books[asset]).valid()
    }

    /// What `holder` owns of `asset`.
    pub open spec fn balance(self, asset: Address, holder: Address) -> int {
        self.books[asset].balances[holder]
    }

    /// The world with the books of `asset` replaced.
    pub open spec fn with_books(self, asset: Address, books: LedgerView) -> AssetsView {
        AssetsView { books: self.books.insert(asset, books) }
    }
}

/// The pairs of `s`, each ledger taken by its view.
spec fn viewed(s: Seq<(Address, Ledger)>) -> Seq<(Address, LedgerView)> {
    Seq::new(s.len(), |i: int| (s[i].0, s[i].1@))
}

/// The books that `s` holds for `asset`: empty where it holds none.
spec fn books_of(s: Seq<(Address, LedgerView)>, asset: Address) -> LedgerView {
    match lookup(s, asset) {
        Some(books) => books,
        None => LedgerView::empty(),
    }
}

/// The books of every asset.
#[derive(Debug)]
pub struct Assets {
    books: Vec<(Address, Ledger)>,
}

impl View for Assets {
    type V = AssetsView;

    closed spec fn view(&self) -> AssetsView {
        AssetsView { books: Map::total(|asset: Address| books_of(viewed(self.books@), asset)) }
    }
}

impl Assets {
    /// Each asset has one ledger, and each ledger is well formed.
    pub closed spec fn wf(&self) -> bool {
        &&& keys_distinct(viewed(self.books@))
        &&& forall|i: int| 0 <= i < self.books@.len() ==> (#[trigger] self.books@[i]).1.wf()
    }

    /// A well-formed world has a valid view.
    pub proof fn lemma_valid(&self)
        requires
            self.wf(),
        ensures
            self@.valid(),
    {
        let s = viewed(self.books@);
        assert forall|asset: Address| (#[trigger] self@.books[asset]).valid() by {
            if lookup(s, asset) is Some {
                if absent(s, asset) {
                    lemma_lookup_absent(s, asset);
                }
                let i = choose|i: int| 0 <= i < s.len() && (#[trigger] s[i]).0 == asset;
                lemma_lookup_at(s, i);
                assert(self.books@[i].1.wf());
                self.books@[i].1.lemma_valid();
            }
        }
    }

    /// A world in which no asset is held by anybody.
    pub fn new() -> (assets: Assets)
        ensures
            assets.wf(),
            assets@ == AssetsView::empty(),
    {
        let assets = Assets { books: Vec::new() };
        proof {
            assert(assets@.books =~= AssetsView::empty().books);
        }
        assets
    }

    /// A second copy of this world.
    pub fn duplicate(&self) -> (copy: Assets)
        requires
            self.wf(),
        ensures
            copy.wf(),
            copy@ == self@,
    {
        let mut books: Vec<(Address, Ledger)> = Vec::new();
        let mut i: usize = 0;
        while i < self.books.len()
            invariant
                self.wf(),
                i <= self.books@.len(),
                books@.len() == i,
                forall|j: int| 0 <= j < i ==> (#[trigger] books@[j]).1.wf(),
                viewed(books@) == viewed(self.books@).take(i as int),
            decreases self.books@.len() - i,
        {
            assert(self.books@[i as int].1.wf());
            let ledger = self.books[i].1.duplicate();
            books.push((self.books[i].0, ledger));
            proof {
                assert(viewed(books@) =~= viewed(self.books@).take(i + 1));
            }
            i += 1;
        }
        let copy = Assets { books };
        proof {
            assert(viewed(copy.books@) =~= viewed(self.books@));
            assert(copy@.books =~= self@.books);
        }
        copy
    }

    fn find(&self, asset: Address) -> (found: Option<usize>)
        ensures
            match found {
                Some(i) => i < self.books@.len() && self.books@[i as int].0 == asset,
                None => absent(viewed(self.books@), asset),
            },
    {
        let mut i: usize = 0;
        while i < self.books.len()
            invariant
                i <= self.books@.len(),
                forall|j: int| 0 <= j < i ==> (#[trigger] self.books@[j]).0 != asset,
            decreases self.books@.len() - i,
        {
            if self.books[i].0 == asset {
                return Some(i);
            }
            i += 1;
        }
        proof {
            let s = viewed(self.books@);
            assert forall|j: int| 0 <= j < s.len() implies (#[trigger] s[j]).0 != asset by {
                assert(self.books@[j].0 != asset);
            }
        }
        None
    }

    /// The place of the ledger of `asset`, which is opened if there is none.
    fn slot(&mut self, asset: Address) -> (i: usize)
        requires
            old(self).wf(),
        ensures
            final(self).wf(),
            final(self)@ == old(self)@,
            i < final(self).books@.len(),
            final(self).books@[i as int].0 == asset,
            final(self).books@[i as int].1@ == old(self)@.books[asset],
    {
        match self.find(asset) {
            Some(i) => {
                proof {
                    lemma_lookup_at(viewed(self.books@), i as int);
                }
                i
            },
            None => {
                let ghost before = viewed(self.books@);
                let ledger = Ledger::new();
                let i = self.books.len();
                self.books.push((asset, ledger));
                proof {
                    let entry = (asset, LedgerView::empty());
                    assert(viewed(self.books@) =~= before.push(entry));
                    lemma_lookup_absent(before, asset);
                    lemma_push_distinct(before, entry);
                    assert forall|a: Address|
                        books_of(viewed(self.books@), a) == books_of(before, a) by {
                        lemma_lookup_push(before, entry, a);
                    }
                    assert(self@.books =~= old(self)@.books);
                }
                i
            },
        }
    }

    /// Replacing the ledger at `i` replaces the books of its asset and of no
    /// other.
    proof fn lemma_replaced(before: Seq<(Address, Ledger)>, after: Seq<(Address, Ledger)>, i: int)
        requires
            keys_distinct(viewed(before)),
            0 <= i < before.len(),
            after.len() == before.len(),
            after[i].0 == before[i].0,
            forall|j: int| 0 <= j < before.len() && j != i ==> after[j] == before[j],
        ensures
            keys_distinct(viewed(after)),
            forall|a: Address|
                books_of(viewed(after), a) == if a == before[i].0 {
                    after[i].1@
                } else {
                    books_of(viewed(before), a)
                },
    {
        let s = viewed(before);
        assert(viewed(after) =~= with_value(s, i, after[i].1@));
        lemma_with_value_distinct(s, i, after[i].1@);
        assert forall|a: Address|
            books_of(viewed(after), a) == if a == before[i].0 {
                after[i].1@
            } else {
                books_of(viewed(before), a)
            } by {
            lemma_lookup_with_value(s, i, after[i].1@, a);
        }
    }

    /// What `holder` owns of `asset`.
    pub fn balance(&self, asset: Address, holder: Address) -> (amount: i128)
        requires
            self.wf(),
        ensures
            amount == self@.balance(asset, holder),
    {
        match self.find(asset) {
            Some(i) => {
                proof {
                    lemma_lookup_at(viewed(self.books@), i as int);
                }
                self.books[i].1.balance(holder)
            },
            None => {
                proof {
                    lemma_lookup_absent(viewed(self.books@), asset);
                }
                0
            },
        }
    }

    /// What `spender` may draw of `from`'s holdings of `asset` at ledger
    /// sequence number `now`.
    pub fn allowance(&self, asset: Address, from: Address, spender: Address, now: u32) -> (amount:
        i128)
        requires
            self.wf(),
        ensures
            amount == self@.books[asset].allowance(from, spender, now),
    {
        match self.find(asset) {
            Some(i) => {
                proof {
                    lemma_lookup_at(viewed(self.books@), i as int);
                }
                self.books[i].1.allowance(from, spender, now)
            },
            None => {
                proof {
                    lemma_lookup_absent(viewed(self.books@), asset);
                }
                0
            },
        }
    }

    /// Issues `amount` of `asset` to `holder`.
    pub fn credit(&mut self, asset: Address, holder: Address, amount: i128) -> (result: Result<
        (),
        Error,
    >)
        requires
            old(self).wf(),
        ensures
            final(self).wf(),
            settles(
                result,
                old(self)@,
                final(self)@,
                old(self)@.books[asset].credit_error(amount as int),
                old(self)@.with_books(
                    asset,
                    old(self)@.books[asset].credited(holder, amount as int),
                ),
            ),
    {
        let i = self.slot(asset);
        let ghost before = self.books@;
        let result = self.books[i].1.credit(holder, amount);
        proof {
            Self::lemma_replaced(before, self.books@, i as int);
            assert(self@.books =~= old(self)@.books.insert(asset, self.books@[i as int].1@));
            assert(old(self)@.books.insert(asset, old(self)@.books[asset]) =~= old(self)@.books);
        }
        result
    }

    /// Lets `spender` draw up to `amount` of `from`'s holdings of `asset`
    /// until the ledger sequence number passes `expiration_ledger`.
    pub fn approve(
        &mut self,
        asset: Address,
        from: Address,
        spender: Address,
        amount: i128,
        expiration_ledger: u32,
    ) -> (result: Result<(), Error>)
        requires
            old(self).wf(),
        ensures
            final(self).wf(),
            settles(
                result,
                old(self)@,
                final(self)@,
                old(self)@.books[asset].approve_error(amount as int),
                old(self)@.with_books(
                    asset,
                    old(self)@.books[asset].with_allowance(
                        from,
                        spender,
                        crate::ledger::AllowanceValue { amount, expiration_ledger },
                    ),
                ),
            ),
    {
        let i = self.slot(asset);
        let ghost before = self.books@;
        let result = self.books[i].1.approve(from, spender, amount, expiration_ledger);
        proof {
            Self::lemma_replaced(before, self.books@, i as int);
            assert(self@.books =~= old(self)@.books.insert(asset, self.books@[i as int].1@));
            assert(old(self)@.books.insert(asset, old(self)@.books[asset]) =~= old(self)@.books);
        }
        result
    }

    /// Moves `amount` of `asset` from `from` to `to`.
    pub fn transfer(&mut self, asset: Address, from: Address, to: Address, amount: i128) -> (result:
        Result<(), Error>)
        requires
            old(self).wf(),
        ensures
            final(self).wf(),
            settles(
                result,
                old(self)@,
                final(self)@,
                old(self)@.books[asset].debit_error(from, amount as int),
                old(self)@.with_books(
                    asset,
                    old(self)@.books[asset].transferred(from, to, amount as int),
                ),
            ),
    {
        let i = self.slot(asset);
        let ghost before = self.books@;
        let result = self.books[i].1.transfer(from, to, amount);
        proof {
            Self::lemma_replaced(before, self.books@, i as int);
            assert(self@.books =~= old(self)@.books.insert(asset, self.books@[i as int].1@));
            assert(old(self)@.books.insert(asset, old(self)@.books[asset]) =~= old(self)@.books);
        }
        result
    }

    /// Moves `amount` of `asset` from `from` to `to` on the strength of what
    /// `from` granted to `spender`.
    pub fn transfer_from(
        &mut self,
        asset: Address,
        spender: Address,
        from: Address,
        to: Address,
        amount: i128,
        now: u32,
    ) -> (result: Result<(), Error>)
        requires
            old(self).wf(),
        ensures
            final(self).wf(),
            settles(
                result,
                old(self)@,
                final(self)@,
                old(self)@.books[asset].transfer_from_error(spender, from, amount as int, now),
                old(self)@.with_books(
                    asset,
                    old(self)@.books[asset].transferred_from(spender, from, to, amount as int),
                ),
            ),
    {
        let i = self.slot(asset);
        let ghost before = self.books@;
        let result = self.books[i].1.transfer_from(spender, from, to, amount, now);
        proof {
            Self::lemma_replaced(before, self.books@, i as int);
            assert(self@.books =~= old(self)@.books.insert(asset, self.books@[i as int].1@));
            assert(old(self)@.books.insert(asset, old(self)@.books[asset]) =~= old(self)@.books);
        }
        result
    }
}

} // verus!
