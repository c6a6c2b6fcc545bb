//! The books of one fungible token: what each holder owns, what each spender
//! may draw, and how much exists in all.

use crate::address::Address;
use crate::assoc::{
    absent, keys_distinct, lemma_lookup_absent, lemma_lookup_at, lemma_lookup_push,
    lemma_lookup_with_value, lemma_push_distinct, lemma_with_value_distinct, lookup, with_value,
};
use crate::error::Error;
use vstd::prelude::*;

verus! {

/// What a spender may draw from an owner, and the last ledger sequence number
/// at which the grant still counts.
#[derive(Clone, Copy, Debug, PartialEq, Eq, Structural)]
pub struct AllowanceValue {
    pub amount: i128,
    pub expiration_ledger: u32,
}

/// The books as mathematics. `balances` has every address in its domain: an
/// address that never held anything maps to zero. `allowances` holds the
/// grants that were written, expired or not.
pub struct LedgerView {
    pub balances: Map<Address, int>,
    pub allowances: Map<(Address, Address), AllowanceValue>,
    pub supply: int,
}

impl LedgerView {
    /// Books in which nobody holds anything.
    pub open spec fn empty() -> LedgerView {
        LedgerView {
            balances: Map::total(|holder: Address| 0int),
            allowances: Map::empty(),
            supply: 0,
        }
    }

    /// Every balance lies between zero and the supply, every grant is
    /// non-negative, and the supply is a number that the books can hold.
    pub open spec fn valid(self) -> bool {
        &&& forall|holder: Address| self.balances.dom().contains(holder)
        &&& forall|holder: Address| 0 <= #[trigger] self.balances[holder] <= self.supply
        &&& forall|key: (Address, Address)| #[trigger]
            self.allowances.dom().contains(key) ==> self.allowances[key].amount >= 0
        &&& 0 <= self.supply <= i128::MAX
    }

    /// What `spender` may draw from `from` at ledger sequence number `now`:
    /// the granted amount while the grant has not expired, zero afterwards
    /// and where nothing was granted.
    pub open spec fn allowance(self, from: Address, spender: Address, now: u32) -> int {
        if self.allowances.dom().contains((from, spender)) && self.allowances[(
            from,
            spender,
        )].expiration_ledger >= now {
            self.allowances[(from, spender)].amount as int
        } else {
            0
        }
    }

    /// What the holders in `holders` own together.
    pub open spec fn held_by(self, holders: Seq<Address>) -> int
        decreases holders.len(),
    {
        if holders.len() == 0 {
            0
        } else {
            self.held_by(holders.drop_last()) + self.balances[holders.last()]
        }
    }

    /// The books without the grants that have expired at `now`.
    pub open spec fn without_expired(self, now: u32) -> LedgerView {
        LedgerView {
            balances: self.balances,
            allowances: Map::new(
                |key: (Address, Address)|
                    self.allowances.dom().contains(key) && self.allowances[key].expiration_ledger
                        >= now,
                |key: (Address, Address)| self.allowances[key],
            ),
            supply: self.supply,
        }
    }

    /// The books with `holder`'s balance set to `amount`, the supply
    /// following.
    pub open spec fn with_balance(self, holder: Address, amount: int) -> LedgerView {
        LedgerView {
            balances: self.balances.insert(holder, amount),
            allowances: self.allowances,
            supply: self.supply - self.balances[holder] + amount,
        }
    }

    /// The books with the grant from `from` to `spender` set to `value`.
    pub open spec fn with_allowance(
        self,
        from: Address,
        spender: Address,
        value: AllowanceValue,
    ) -> LedgerView {
        LedgerView {
            balances: self.balances,
            allowances: self.allowances.insert((from, spender), value),
            supply: self.supply,
        }
    }

    /// Why `amount` cannot be credited, if it cannot.
    pub open spec fn credit_error(self, amount: int) -> Option<Error> {
        if amount <= 0 {
            Some(Error::ZeroOrNegativeAmount)
        } else if self.supply + amount > i128::MAX {
            Some(Error::ValueTooLargeOverflow)
        } else {
            None
        }
    }

    /// The books after `amount` came into being in `holder`'s hands.
    pub open spec fn credited(self, holder: Address, amount: int) -> LedgerView {
        self.with_balance(holder, self.balances[holder] + amount)
    }

    /// Why `amount` cannot be taken from `holder`, if it cannot.
    pub open spec fn debit_error(self, holder: Address, amount: int) -> Option<Error> {
        if amount <= 0 {
            Some(Error::ZeroOrNegativeAmount)
        } else if amount > self.balances[holder] {
            Some(Error::InsufficientBalance)
        } else {
            None
        }
    }

    /// The books after `amount` ceased to exist in `holder`'s hands.
    pub open spec fn debited(self, holder: Address, amount: int) -> LedgerView {
        self.with_balance(holder, self.balances[holder] - amount)
    }

    /// Why a grant of `amount` cannot be written, if it cannot.
    pub open spec fn approve_error(self, amount: int) -> Option<Error> {
        if amount < 0 {
            Some(Error::ZeroOrNegativeAmount)
        } else {
            None
        }
    }

    /// Why `spender` cannot draw `amount` on `from`'s grant at `now`, if it
    /// cannot.
    pub open spec fn spend_error(
        self,
        from: Address,
        spender: Address,
        amount: int,
        now: u32,
    ) -> Option<Error> {
        if amount <= 0 {
            Some(Error::ZeroOrNegativeAmount)
        } else if self.allowance(from, spender, now) < amount {
            Some(Error::InsufficientAllowance)
        } else {
            None
        }
    }

    /// The books after `spender` drew `amount` on `from`'s grant: the grant
    /// is smaller by `amount` and expires when it did.
    pub open spec fn spent(self, from: Address, spender: Address, amount: int) -> LedgerView {
        self.with_allowance(
            from,
            spender,
            AllowanceValue {
                amount: (self.allowances[(from, spender)].amount - amount) as i128,
                expiration_ledger: self.allowances[(from, spender)].expiration_ledger,
            },
        )
    }

    /// The books after `amount` moved from `from` to `to`.
    pub open spec fn transferred(self, from: Address, to: Address, amount: int) -> LedgerView {
        self.debited(from, amount).credited(to, amount)
    }

    /// Why `spender` cannot move `amount` from `from` at `now`, if it
    /// cannot: the grant is looked at before the balance.
    pub open spec fn transfer_from_error(
        self,
        spender: Address,
        from: Address,
        amount: int,
        now: u32,
    ) -> Option<Error> {
        if self.spend_error(from, spender, amount, now) is Some {
            self.spend_error(from, spender, amount, now)
        } else {
            self.debit_error(from, amount)
        }
    }

    /// The books after `spender` moved `amount` from `from` to `to`.
    pub open spec fn transferred_from(
        self,
        spender: Address,
        from: Address,
        to: Address,
        amount: int,
    ) -> LedgerView {
        self.spent(from, spender, amount).transferred(from, to, amount)
    }

    /// The books after `spender` destroyed `amount` of what `from` held.
    pub open spec fn burned_from(self, spender: Address, from: Address, amount: int) -> LedgerView {
        self.spent(from, spender, amount).debited(from, amount)
    }
}

/// An operation that either fails with `error` and leaves `before` as it
/// was, or succeeds and leaves `next`.
pub open spec fn settles<V>(
    result: Result<(), Error>,
    before: V,
    after: V,
    error: Option<Error>,
    next: V,
) -> bool {
    match error {
        Some(e) => result == Err::<(), Error>(e) && after == before,
        None => result == Ok::<(), Error>(()) && after == next,
    }
}

/// The sum of the amounts held.
spec fn total(s: Seq<(Address, i128)>) -> int
    decreases s.len(),
{
    if s.len() == 0 {
        0
    } else {
        total(s.drop_last()) + s.last().1
    }
}

/// No amount is negative.
spec fn amounts_non_negative(s: Seq<(Address, i128)>) -> bool {
    forall|i: int| 0 <= i < s.len() ==> (#[trigger] s[i]).1 >= 0
}

proof fn lemma_total_push(s: Seq<(Address, i128)>, e: (Address, i128))
    ensures
        total(s.push(e)) == total(s) + e.1,
{
    assert(s.push(e).drop_last() =~= s);
}

proof fn lemma_total_with_value(s: Seq<(Address, i128)>, i: int, v: i128)
    requires
        0 <= i < s.len(),
    ensures
        total(with_value(s, i, v)) == total(s) - s[i].1 + v,
    decreases s.len(),
{
    let t = with_value(s, i, v);
    if i == s.len() - 1 {
        assert(t.drop_last() =~= s.drop_last());
    } else {
        let s0 = s.drop_last();
        assert(s0[i] == s[i]);
        assert(t.drop_last() =~= with_value(s0, i, v));
        lemma_total_with_value(s0, i, v);
    }
}

proof fn lemma_total_bounds(s: Seq<(Address, i128)>, i: int)
    requires
        amounts_non_negative(s),
        0 <= i < s.len(),
    ensures
        0 <= s[i].1 <= total(s),
    decreases s.len(),
{
    lemma_total_non_negative(s.drop_last());
    if i < s.len() - 1 {
        let s0 = s.drop_last();
        assert(s0[i] == s[i]);
        lemma_total_bounds(s0, i);
    }
}

proof fn lemma_total_non_negative(s: Seq<(Address, i128)>)
    requires
        amounts_non_negative(s),
    ensures
        0 <= total(s),
    decreases s.len(),
{
    if s.len() > 0 {
        lemma_total_non_negative(s.drop_last());
    }
}

/// What `s` records for `holder`: zero where it records nothing.
spec fn held(s: Seq<(Address, i128)>, holder: Address) -> int {
    match lookup(s, holder) {
        Some(amount) => amount as int,
        None => 0,
    }
}

/// What `s` records for the holders in `holders` together.
spec fn held_together(s: Seq<(Address, i128)>, holders: Seq<Address>) -> int
    decreases holders.len(),
{
    if holders.len() == 0 {
        0
    } else {
        held_together(s, holders.drop_last()) + held(s, holders.last())
    }
}

proof fn lemma_held_together_push(
    s: Seq<(Address, i128)>,
    e: (Address, i128),
    holders: Seq<Address>,
)
    requires
        absent(s, e.0),
        holders.no_duplicates(),
    ensures
        held_together(s.push(e), holders) == held_together(s, holders) + if holders.contains(e.0) {
            e.1 as int
        } else {
            0
        },
    decreases holders.len(),
{
    if holders.len() > 0 {
        let rest = holders.drop_last();
        let last = holders.last();
        assert(rest.no_duplicates());
        lemma_held_together_push(s, e, rest);
        lemma_lookup_push(s, e, last);
        lemma_lookup_absent(s, e.0);
        assert(holders =~= rest.push(last));
        if last == e.0 {
            assert(!rest.contains(e.0)) by {
                if rest.contains(e.0) {
                    let i = choose|i: int| 0 <= i < rest.len() && rest[i] == e.0;
                    assert(holders[i] == holders[holders.len() - 1]);
                }
            }
            assert(holders[holders.len() - 1] == e.0);
        } else {
            assert(holders.contains(e.0) == rest.contains(e.0)) by {
                if holders.contains(e.0) {
                    let i = choose|i: int| 0 <= i < holders.len() && holders[i] == e.0;
                    assert(rest[i] == e.0);
                }
                if rest.contains(e.0) {
                    let i = choose|i: int| 0 <= i < rest.len() && rest[i] == e.0;
                    assert(holders[i] == e.0);
                }
            }
        }
    }
}

proof fn lemma_held_together_bound(s: Seq<(Address, i128)>, holders: Seq<Address>)
    requires
        keys_distinct(s),
        amounts_non_negative(s),
        holders.no_duplicates(),
    ensures
        0 <= held_together(s, holders) <= total(s),
    decreases s.len(), holders.len(),
{
    if s.len() == 0 {
        if holders.len() > 0 {
            lemma_held_together_bound(s, holders.drop_last());
        }
    } else {
        let rest = s.drop_last();
        let e = s.last();
        assert(s =~= rest.push(e));
        assert forall|i: int| 0 <= i < rest.len() implies (#[trigger] rest[i]).0 != e.0 by {
            assert(rest[i] == s[i]);
            assert(s[i].0 != s[s.len() - 1].0);
        }
        assert forall|i: int, j: int| 0 <= i < j < rest.len() implies rest[i].0 != rest[j].0 by {
            assert(rest[i] == s[i] && rest[j] == s[j]);
        }
        assert forall|i: int| 0 <= i < rest.len() implies (#[trigger] rest[i]).1 >= 0 by {
            assert(rest[i] == s[i]);
        }
        assert(e.1 >= 0);
        lemma_held_together_bound(rest, holders);
        lemma_held_together_push(rest, e, holders);
    }
}

/// The books of one fungible token.
#[derive(Debug)]
pub struct Ledger {
    holdings: Vec<(Address, i128)>,
    grants: Vec<((Address, Address), AllowanceValue)>,
    supply: i128,
    elsewhere: i128,
}

impl View for Ledger {
    type V = LedgerView;

    closed spec fn view(&self) -> LedgerView {
        LedgerView {
            balances: Map::total(|holder: Address| held(self.holdings@, holder)),
            allowances: Map::new(
                |key: (Address, Address)| lookup(self.grants@, key) is Some,
                |key: (Address, Address)| lookup(self.grants@, key)->Some_0,
            ),
            supply: self.supply as int,
        }
    }
}

impl Ledger {
    /// The invariant of the books: each holder and each pair of owner and
    /// spender is recorded once, no amount is negative, and the supply is the
    /// sum of what the holders own, those that the books were not opened on
    /// taken together.
    pub closed spec fn wf(&self) -> bool {
        &&& keys_distinct(self.holdings@)
        &&& keys_distinct(self.grants@)
        &&& amounts_non_negative(self.holdings@)
        &&& forall|i: int|
            0 <= i < self.grants@.len() ==> (#[trigger] self.grants@[i]).1.amount >= 0
        &&& self.elsewhere >= 0
        &&& self.supply == total(self.holdings@) + self.elsewhere
    }

    /// Well-formed books have a valid view.
    pub proof fn lemma_valid(&self)
        requires
            self.wf(),
        ensures
            self@.valid(),
    {
        lemma_total_non_negative(self.holdings@);
        assert forall|holder: Address| 0 <= #[trigger] self@.balances[holder] <= self@.supply by {
            self.lemma_held_bounds(holder);
        }
        assert forall|key: (Address, Address)| #[trigger]
            self@.allowances.dom().contains(key) implies self@.allowances[key].amount >= 0 by {
            self.lemma_grant_non_negative(key);
        }
    }

    /// The supply covers what any holders own together: the balances of
    /// holders that are told apart never add up to more than exists.
    pub proof fn lemma_supply_covers(&self, holders: Seq<Address>)
        requires
            self.wf(),
            holders.no_duplicates(),
        ensures
            0 <= self@.held_by(holders) <= self@.supply,
    {
        self.lemma_held_together(holders);
        lemma_held_together_bound(self.holdings@, holders);
    }

    proof fn lemma_held_together(&self, holders: Seq<Address>)
        ensures
            self@.held_by(holders) == held_together(self.holdings@, holders),
        decreases holders.len(),
    {
        if holders.len() > 0 {
            self.lemma_held_together(holders.drop_last());
        }
    }

    proof fn lemma_held_bounds(&self, holder: Address)
        requires
            self.wf(),
        ensures
            0 <= held(self.holdings@, holder) <= self.supply,
    {
        let s = self.holdings@;
        lemma_total_non_negative(s);
        if lookup(s, holder) is Some {
            if absent(s, holder) {
                lemma_lookup_absent(s, holder);
            }
            let i = choose|i: int| 0 <= i < s.len() && (#[trigger] s[i]).0 == holder;
            lemma_lookup_at(s, i);
            lemma_total_bounds(s, i);
        }
    }

    proof fn lemma_grant_non_negative(&self, key: (Address, Address))
        requires
            self.wf(),
            lookup(self.grants@, key) is Some,
        ensures
            lookup(self.grants@, key)->Some_0.amount >= 0,
    {
        let s = self.grants@;
        if absent(s, key) {
            lemma_lookup_absent(s, key);
        }
        let i = choose|i: int| 0 <= i < s.len() && (#[trigger] s[i]).0 == key;
        lemma_lookup_at(s, i);
    }

    /// Books in which nobody holds anything.
    pub fn new() -> (ledger: Ledger)
        ensures
            ledger.wf(),
            ledger@ == LedgerView::empty(),
    {
        let ledger = Ledger { holdings: Vec::new(), grants: Vec::new(), supply: 0, elsewhere: 0 };
        proof {
            assert(ledger@.balances =~= LedgerView::empty().balances);
            assert(ledger@.allowances =~= LedgerView::empty().allowances);
        }
        ledger
    }

    /// Books opened on a part of the holders: the holders that will be
    /// recorded hold nothing yet, and all others own `elsewhere` together,
    /// which counts towards the supply and is never touched.
    pub fn window(elsewhere: i128) -> (result: Result<Ledger, Error>)
        ensures
            match result {
                Ok(ledger) => {
                    &&& elsewhere >= 0
                    &&& ledger.wf()
                    &&& ledger@ == (LedgerView { supply: elsewhere as int, ..LedgerView::empty() })
                },
                Err(e) => elsewhere < 0 && e == Error::ZeroOrNegativeAmount,
            },
    {
        if elsewhere < 0 {
            return Err(Error::ZeroOrNegativeAmount);
        }
        let ledger = Ledger {
            holdings: Vec::new(),
            grants: Vec::new(),
            supply: elsewhere,
            elsewhere,
        };
        proof {
            assert(ledger@.balances =~= LedgerView::empty().balances);
            assert(ledger@.allowances =~= LedgerView::empty().allowances);
        }
        Ok(ledger)
    }

    /// A second copy of these books.
    pub fn duplicate(&self) -> (copy: Ledger)
        requires
            self.wf(),
        ensures
            copy.wf(),
            copy@ == self@,
    {
        let mut holdings: Vec<(Address, i128)> = Vec::new();
        let mut i: usize = 0;
        while i < self.holdings.len()
            invariant
                i <= self.holdings@.len(),
                holdings@ == self.holdings@.take(i as int),
            decreases self.holdings@.len() - i,
        {
            holdings.push(self.holdings[i]);
            proof {
                assert(self.holdings@.take(i + 1) =~= self.holdings@.take(i as int).push(
                    self.holdings@[i as int],
                ));
            }
            i += 1;
        }
        let mut grants: Vec<((Address, Address), AllowanceValue)> = Vec::new();
        let mut j: usize = 0;
        while j < self.grants.len()
            invariant
                j <= self.grants@.len(),
                grants@ == self.grants@.take(j as int),
            decreases self.grants@.len() - j,
        {
            grants.push(self.grants[j]);
            proof {
                assert(self.grants@.take(j + 1) =~= self.grants@.take(j as int).push(
                    self.grants@[j as int],
                ));
            }
            j += 1;
        }
        proof {
            assert(holdings@ =~= self.holdings@);
            assert(grants@ =~= self.grants@);
        }
        Ledger { holdings, grants, supply: self.supply, elsewhere: self.elsewhere }
    }

    fn find_holding(&self, holder: Address) -> (found: Option<usize>)
        ensures
            match found {
                Some(i) => i < self.holdings@.len() && self.holdings@[i as int].0 == holder,
                None => absent(self.holdings@, holder),
            },
    {
        let mut i: usize = 0;
        while i < self.holdings.len()
            invariant
                i <= self.holdings@.len(),
                forall|j: int| 0 <= j < i ==> (#[trigger] self.holdings@[j]).0 != holder,
            decreases self.holdings@.len() - i,
        {
            if self.holdings[i].0 == holder {
                return Some(i);
            }
            i += 1;
        }
        None
    }

    fn find_grant(&self, from: Address, spender: Address) -> (found: Option<usize>)
        ensures
            match found {
                Some(i) => i < self.grants@.len() && self.grants@[i as int].0 == (from, spender),
                None => absent(self.grants@, (from, spender)),
            },
    {
        let mut i: usize = 0;
        while i < self.grants.len()
            invariant
                i <= self.grants@.len(),
                forall|j: int| 0 <= j < i ==> (#[trigger] self.grants@[j]).0 != (from, spender),
            decreases self.grants@.len() - i,
        {
            if self.grants[i].0.0 == from && self.grants[i].0.1 == spender {
                return Some(i);
            }
            i += 1;
        }
        None
    }

    /// How much of the token exists.
    pub fn total_supply(&self) -> (supply: i128)
        ensures
            supply == self@.supply,
    {
        self.supply
    }

    /// What `holder` owns.
    pub fn balance(&self, holder: Address) -> (amount: i128)
        requires
            self.wf(),
        ensures
            amount == self@.balances[holder],
    {
        match self.find_holding(holder) {
            Some(i) => {
                proof {
                    lemma_lookup_at(self.holdings@, i as int);
                }
                self.holdings[i].1
            },
            None => {
                proof {
                    lemma_lookup_absent(self.holdings@, holder);
                }
                0
            },
        }
    }

    /// The grant from `from` to `spender` as it was written, if one was.
    pub fn get_allowance(&self, from: Address, spender: Address) -> (grant: Option<AllowanceValue>)
        requires
            self.wf(),
        ensures
            grant == if self@.allowances.dom().contains((from, spender)) {
                Some(self@.allowances[(from, spender)])
            } else {
                None
            },
    {
        match self.find_grant(from, spender) {
            Some(i) => {
                proof {
                    lemma_lookup_at(self.grants@, i as int);
                }
                Some(self.grants[i].1)
            },
            None => {
                proof {
                    lemma_lookup_absent(self.grants@, (from, spender));
                }
                None
            },
        }
    }

    /// What `spender` may draw from `from` at ledger sequence number `now`.
    pub fn allowance(&self, from: Address, spender: Address, now: u32) -> (amount: i128)
        requires
            self.wf(),
        ensures
            amount == self@.allowance(from, spender, now),
    {
        match self.get_allowance(from, spender) {
            Some(grant) => if grant.expiration_ledger < now {
                0
            } else {
                grant.amount
            },
            None => 0,
        }
    }

    fn set_balance(&mut self, holder: Address, amount: i128)
        requires
            old(self).wf(),
            amount >= 0,
            old(self)@.supply - old(self)@.balances[holder] + amount <= i128::MAX,
        ensures
            final(self).wf(),
            final(self)@ == old(self)@.with_balance(holder, amount as int),
    {
        let ghost before = self.holdings@;
        proof {
            self.lemma_held_bounds(holder);
        }
        match self.find_holding(holder) {
            Some(i) => {
                let previous = self.holdings[i].1;
                proof {
                    lemma_lookup_at(before, i as int);
                    lemma_total_with_value(before, i as int, amount);
                    lemma_with_value_distinct(before, i as int, amount);
                }
                self.holdings[i] = (holder, amount);
                self.supply = self.supply - previous + amount;
                proof {
                    assert(self.holdings@ =~= with_value(before, i as int, amount));
                    assert forall|h: Address| #[trigger]
                        held(self.holdings@, h) == old(self)@.with_balance(
                            holder,
                            amount as int,
                        ).balances[h] by {
                        lemma_lookup_with_value(before, i as int, amount, h);
                    }
                }
            },
            None => {
                proof {
                    lemma_lookup_absent(before, holder);
                    lemma_total_push(before, (holder, amount));
                    lemma_push_distinct(before, (holder, amount));
                }
                self.holdings.push((holder, amount));
                self.supply = self.supply + amount;
                proof {
                    assert forall|h: Address| #[trigger]
                        held(self.holdings@, h) == old(self)@.with_balance(
                            holder,
                            amount as int,
                        ).balances[h] by {
                        lemma_lookup_push(before, (holder, amount), h);
                    }
                }
            },
        }
        proof {
            assert(self@.balances =~= old(self)@.with_balance(holder, amount as int).balances);
            assert(self@.allowances =~= old(self)@.allowances);
        }
    }

    fn set_allowance(&mut self, from: Address, spender: Address, value: AllowanceValue)
        requires
            old(self).wf(),
            value.amount >= 0,
        ensures
            final(self).wf(),
            final(self)@ == old(self)@.with_allowance(from, spender, value),
    {
        let ghost before = self.grants@;
        let ghost key = (from, spender);
        match self.find_grant(from, spender) {
            Some(i) => {
                proof {
                    lemma_with_value_distinct(before, i as int, value);
                }
                self.grants[i] = ((from, spender), value);
                proof {
                    assert(self.grants@ =~= with_value(before, i as int, value));
                    assert forall|k: (Address, Address)|
                        lookup(self.grants@, k) == if k == key {
                            Some(value)
                        } else {
                            lookup(before, k)
                        } by {
                        lemma_lookup_with_value(before, i as int, value, k);
                    }
                }
            },
            None => {
                proof {
                    lemma_push_distinct(before, (key, value));
                }
                self.grants.push(((from, spender), value));
                proof {
                    assert forall|k: (Address, Address)|
                        lookup(self.grants@, k) == if k == key {
                            Some(value)
                        } else {
                            lookup(before, k)
                        } by {
                        lemma_lookup_push(before, (key, value), k);
                    }
                }
            },
        }
        proof {
            assert(self@.allowances =~= old(self)@.with_allowance(from, spender, value).allowances);
            assert(self@.balances =~= old(self)@.balances);
        }
    }

    /// Drops the grants that have expired at ledger sequence number `now`.
    /// What any spender may draw, now or later, is what it was: an expired
    /// grant reads as nothing whether it is kept or dropped.
    pub fn drop_expired(&mut self, now: u32)
        requires
            old(self).wf(),
        ensures
            final(self).wf(),
            final(self)@ == old(self)@.without_expired(now),
            forall|from: Address, spender: Address, later: u32|
                later >= now ==> #[trigger] final(self)@.allowance(from, spender, later) == old(
                    self,
                )@.allowance(from, spender, later),
    {
        let ghost before = self.grants@;
        let mut kept: Vec<((Address, Address), AllowanceValue)> = Vec::new();
        let mut i: usize = 0;
        while i < self.grants.len()
            invariant
                i <= self.grants@.len(),
                before == self.grants@,
                keys_distinct(before),
                keys_distinct(kept@),
                forall|j: int| 0 <= j < before.len() ==> (#[trigger] before[j]).1.amount >= 0,
                forall|j: int| 0 <= j < kept@.len() ==> (#[trigger] kept@[j]).1.amount >= 0,
                forall|key: (Address, Address)|
                    lookup(kept@, key) == match lookup(before.take(i as int), key) {
                        Some(value) => if value.expiration_ledger >= now {
                            Some(value)
                        } else {
                            None
                        },
                        None => None,
                    },
            decreases self.grants@.len() - i,
        {
            let entry = self.grants[i];
            let ghost seen = before.take(i as int);
            let ghost held = kept@;
            proof {
                assert(before.take(i + 1) =~= seen.push(entry));
                assert forall|j: int| 0 <= j < seen.len() implies (#[trigger] seen[j]).0
                    != entry.0 by {
                    assert(seen[j] == before[j]);
                }
                lemma_lookup_absent(seen, entry.0);
                crate::assoc::lemma_lookup_none(held, entry.0);
            }
            if entry.1.expiration_ledger >= now {
                kept.push(entry);
                proof {
                    lemma_push_distinct(held, entry);
                    assert forall|key: (Address, Address)|
                        lookup(kept@, key) == match lookup(before.take(i + 1), key) {
                            Some(value) => if value.expiration_ledger >= now {
                                Some(value)
                            } else {
                                None
                            },
                            None => None,
                        } by {
                        lemma_lookup_push(held, entry, key);
                        lemma_lookup_push(seen, entry, key);
                    }
                }
            } else {
                proof {
                    assert forall|key: (Address, Address)|
                        lookup(kept@, key) == match lookup(before.take(i + 1), key) {
                            Some(value) => if value.expiration_ledger >= now {
                                Some(value)
                            } else {
                                None
                            },
                            None => None,
                        } by {
                        lemma_lookup_push(seen, entry, key);
                    }
                }
            }
            i += 1;
        }
        proof {
            assert(before.take(i as int) =~= before);
        }
        self.grants = kept;
        proof {
            assert(self@.allowances =~= old(self)@.without_expired(now).allowances);
            assert(self@.balances =~= old(self)@.balances);
        }
    }

    /// Brings `amount` into being in `holder`'s hands.
    pub fn credit(&mut self, holder: Address, amount: i128) -> (result: Result<(), Error>)
        requires
            old(self).wf(),
        ensures
            final(self).wf(),
            settles(
                result,
                old(self)@,
                final(self)@,
                old(self)@.credit_error(amount as int),
                old(self)@.credited(holder, amount as int),
            ),
    {
        if amount <= 0 {
            return Err(Error::ZeroOrNegativeAmount);
        }
        proof {
            self.lemma_held_bounds(holder);
        }
        if amount > i128::MAX - self.supply {
            return Err(Error::ValueTooLargeOverflow);
        }
        let balance = self.balance(holder);
        self.set_balance(holder, balance + amount);
        Ok(())
    }

    /// Takes `amount` out of `holder`'s hands and out of existence.
    pub fn debit(&mut self, holder: Address, amount: i128) -> (result: Result<(), Error>)
        requires
            old(self).wf(),
        ensures
            final(self).wf(),
            settles(
                result,
                old(self)@,
                final(self)@,
                old(self)@.debit_error(holder, amount as int),
                old(self)@.debited(holder, amount as int),
            ),
    {
        if amount <= 0 {
            return Err(Error::ZeroOrNegativeAmount);
        }
        let balance = self.balance(holder);
        if amount > balance {
            return Err(Error::InsufficientBalance);
        }
        proof {
            self.lemma_held_bounds(holder);
        }
        self.set_balance(holder, balance - amount);
        Ok(())
    }

    /// Lets `spender` draw up to `amount` from `from` until the ledger
    /// sequence number passes `expiration_ledger`. An earlier grant between
    /// the two is replaced. A grant that has expired when it is written is
    /// written all the same, and reads as nothing.
    pub fn approve(
        &mut self,
        from: Address,
        spender: Address,
        amount: i128,
        expiration_ledger: u32,
    ) -> (result: Result<(), Error>)
        requires
            old(self).wf(),
        ensures
            final(self).wf(),
            settles(
                result,
                old(self)@,
                final(self)@,
                old(self)@.approve_error(amount as int),
                old(self)@.with_allowance(
                    from,
                    spender,
                    AllowanceValue { amount, expiration_ledger },
                ),
            ),
    {
        if amount < 0 {
            return Err(Error::ZeroOrNegativeAmount);
        }
        self.set_allowance(from, spender, AllowanceValue { amount, expiration_ledger });
        Ok(())
    }

    /// Uses up `amount` of what `spender` may draw from `from`.
    pub fn spend_allowance(
        &mut self,
        from: Address,
        spender: Address,
        amount: i128,
        now: u32,
    ) -> (result: Result<(), Error>)
        requires
            old(self).wf(),
        ensures
            final(self).wf(),
            settles(
                result,
                old(self)@,
                final(self)@,
                old(self)@.spend_error(from, spender, amount as int, now),
                old(self)@.spent(from, spender, amount as int),
            ),
    {
        if amount <= 0 {
            return Err(Error::ZeroOrNegativeAmount);
        }
        match self.get_allowance(from, spender) {
            Some(grant) => {
                if grant.expiration_ledger < now || grant.amount < amount {
                    return Err(Error::InsufficientAllowance);
                }
                self.set_allowance(
                    from,
                    spender,
                    AllowanceValue {
                        amount: grant.amount - amount,
                        expiration_ledger: grant.expiration_ledger,
                    },
                );
                Ok(())
            },
            None => Err(Error::InsufficientAllowance),
        }
    }

    /// Moves `amount` from `from` to `to`.
    pub fn transfer(&mut self, from: Address, to: Address, amount: i128) -> (result: Result<
        (),
        Error,
    >)
        requires
            old(self).wf(),
        ensures
            final(self).wf(),
            settles(
                result,
                old(self)@,
                final(self)@,
                old(self)@.debit_error(from, amount as int),
                old(self)@.transferred(from, to, amount as int),
            ),
    {
        if amount <= 0 {
            return Err(Error::ZeroOrNegativeAmount);
        }
        let balance = self.balance(from);
        if amount > balance {
            return Err(Error::InsufficientBalance);
        }
        proof {
            self.lemma_held_bounds(from);
        }
        self.set_balance(from, balance - amount);
        proof {
            self.lemma_held_bounds(to);
        }
        let received = self.balance(to);
        self.set_balance(to, received + amount);
        Ok(())
    }

    /// Moves `amount` from `from` to `to` on the strength of what `from`
    /// granted to `spender`.
    pub fn transfer_from(
        &mut self,
        spender: Address,
        from: Address,
        to: Address,
        amount: i128,
        now: u32,
    ) -> (result: Result<(), Error>)
        requires
            old(self).wf(),
        ensures
            final(self).wf(),
            settles(
                result,
                old(self)@,
                final(self)@,
                old(self)@.transfer_from_error(spender, from, amount as int, now),
                old(self)@.transferred_from(spender, from, to, amount as int),
            ),
    {
        if amount <= 0 {
            return Err(Error::ZeroOrNegativeAmount);
        }
        if self.allowance(from, spender, now) < amount {
            return Err(Error::InsufficientAllowance);
        }
        if self.balance(from) < amount {
            return Err(Error::InsufficientBalance);
        }
        match self.spend_allowance(from, spender, amount, now) {
            Ok(()) => self.transfer(from, to, amount),
            Err(e) => Err(e),
        }
    }

    /// Destroys `amount` of what `from` holds.
    pub fn burn(&mut self, from: Address, amount: i128) -> (result: Result<(), Error>)
        requires
            old(self).wf(),
        ensures
            final(self).wf(),
            settles(
                result,
                old(self)@,
                final(self)@,
                old(self)@.debit_error(from, amount as int),
                old(self)@.debited(from, amount as int),
            ),
    {
        self.debit(from, amount)
    }

    /// Destroys `amount` of what `from` holds on the strength of what
    /// `from` granted to `spender`.
    pub fn burn_from(&mut self, spender: Address, from: Address, amount: i128, now: u32) -> (result:
        Result<(), Error>)
        requires
            old(self).wf(),
        ensures
            final(self).wf(),
            settles(
                result,
                old(self)@,
                final(self)@,
                old(self)@.transfer_from_error(spender, from, amount as int, now),
                old(self)@.burned_from(spender, from, amount as int),
            ),
    {
        if amount <= 0 {
            return Err(Error::ZeroOrNegativeAmount);
        }
        if self.allowance(from, spender, now) < amount {
            return Err(Error::InsufficientAllowance);
        }
        if self.balance(from) < amount {
            return Err(Error::InsufficientBalance);
        }
        match self.spend_allowance(from, spender, amount, now) {
            Ok(()) => self.debit(from, amount),
            Err(e) => Err(e),
        }
    }
}

} // verus!
