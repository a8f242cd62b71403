//! The state of the exchange: every account and every market, each by its
//! identifier.

use crate::ordered_map::{has_key, keys_sorted, upsert, Duplicate, Key, OrderedMap};
use crate::text::text_lt;
use crate::types::{Account, AccountId, AccountView, Market, MarketView};
use vstd::prelude::*;

verus! {

/// The accounts and the markets, each in ascending order of its identifier.
#[derive(Debug, Clone, PartialEq, Eq)]
pub struct State {
    pub accounts: OrderedMap<Account>,
    pub markets: OrderedMap<Market>,
}

/// A state as contracts see it.
pub struct StateView {
    pub accounts: Seq<(Key, AccountView)>,
    pub markets: Seq<(Key, MarketView)>,
}

impl StateView {
    /// The accounts and the markets ascend by identifier, and so do the
    /// positions and the funding marks of every account. Every state that is
    /// held in memory is of this kind.
    pub open spec fn wf(self) -> bool {
        &&& keys_sorted(self.accounts)
        &&& keys_sorted(self.markets)
        &&& forall|i: int|
            0 <= i < self.accounts.len() ==> (#[trigger] self.accounts[i]).1.wf()
    }
}

impl View for State {
    type V = StateView;

    open spec fn view(&self) -> StateView {
        StateView { accounts: self.accounts@, markets: self.markets@ }
    }
}

impl Duplicate for State {
    fn duplicate(&self) -> (r: Self) {
        State { accounts: self.accounts.duplicate(), markets: self.markets.duplicate() }
    }
}

/// The accounts with one for `account_id`, a fresh one where none was there.
pub open spec fn with_account(accounts: Seq<(Key, AccountView)>, account_id: Key) -> Seq<
    (Key, AccountView),
> {
    if has_key(accounts, account_id) {
        accounts
    } else {
        upsert(accounts, account_id, AccountView::fresh(account_id))
    }
}

/// The identifiers of the accounts that hold a position in `market_id`, in
/// ascending order.
pub open spec fn holders(accounts: Seq<(Key, AccountView)>, market_id: Key) -> Seq<Key>
    decreases accounts.len(),
{
    if accounts.len() == 0 {
        Seq::empty()
    } else {
        let rest = holders(accounts.drop_last(), market_id);
        if has_key(accounts.last().1.positions, market_id) {
            rest.push(accounts.last().0)
        } else {
            rest
        }
    }
}

/// The identifiers ascend strictly: none occurs twice.
pub open spec fn ascending(ids: Seq<Key>) -> bool {
    forall|i: int, j: int| #![trigger ids[i], ids[j]] 0 <= i < j < ids.len() ==> text_lt(ids[i], ids[j])
}

/// `account_id` is the identifier of an account with a position in
/// `market_id`.
pub open spec fn holds(accounts: Seq<(Key, AccountView)>, market_id: Key, account_id: Key) -> bool {
    exists|j: int|
        0 <= j < accounts.len() && (#[trigger] accounts[j]).0 == account_id && has_key(
            accounts[j].1.positions,
            market_id,
        )
}

/// The holders of a market are accounts with a position there, each once,
/// in ascending order: the list is the ordered set of them.
pub proof fn lemma_holders_ascend(accounts: Seq<(Key, AccountView)>, market_id: Key)
    requires
        keys_sorted(accounts),
    ensures
        ascending(holders(accounts, market_id)),
        forall|i: int|
            0 <= i < holders(accounts, market_id).len() ==> holds(
                accounts,
                market_id,
                #[trigger] holders(accounts, market_id)[i],
            ),
    decreases accounts.len(),
{
    if accounts.len() > 0 {
        let n = accounts.len() - 1;
        let front = accounts.drop_last();
        assert forall|i: int, j: int| 0 <= i < j < front.len() implies text_lt(
            front[i].0,
            front[j].0,
        ) by {
            assert(text_lt(accounts[i].0, accounts[j].0));
        }
        lemma_holders_ascend(front, market_id);
        let rest = holders(front, market_id);
        let all = holders(accounts, market_id);
        assert forall|i: int| 0 <= i < all.len() implies holds(
            accounts,
            market_id,
            #[trigger] all[i],
        ) by {
            if i < rest.len() {
                assert(all[i] == rest[i]);
                assert(holds(front, market_id, rest[i]));
                let j = choose|j: int|
                    0 <= j < front.len() && (#[trigger] front[j]).0 == rest[i] && has_key(
                        front[j].1.positions,
                        market_id,
                    );
                assert(accounts[j] == front[j]);
            } else {
                assert(all[i] == accounts[n].0);
                assert(has_key(accounts[n].1.positions, market_id));
            }
        }
        assert forall|i: int, j: int| 0 <= i < j < all.len() implies text_lt(all[i], all[j]) by {
            assert(all[i] == rest[i]);
            if j < rest.len() {
                assert(all[j] == rest[j]);
                assert(text_lt(rest[i], rest[j]));
            } else {
                assert(all[j] == accounts[n].0);
                assert(holds(front, market_id, rest[i]));
                let a = choose|a: int|
                    0 <= a < front.len() && (#[trigger] front[a]).0 == rest[i] && has_key(
                        front[a].1.positions,
                        market_id,
                    );
                assert(front[a] == accounts[a]);
                assert(text_lt(accounts[a].0, accounts[n].0));
            }
        }
    }
}

/// Every account with a position in a market is among its holders.
pub proof fn lemma_holders_complete(accounts: Seq<(Key, AccountView)>, market_id: Key, j: int)
    requires
        0 <= j < accounts.len(),
        has_key(accounts[j].1.positions, market_id),
    ensures
        holders(accounts, market_id).contains(accounts[j].0),
    decreases accounts.len(),
{
    let n = accounts.len() - 1;
    let rest = holders(accounts.drop_last(), market_id);
    if j < n {
        assert(accounts.drop_last()[j] == accounts[j]);
        lemma_holders_complete(accounts.drop_last(), market_id, j);
        let i = choose|i: int| 0 <= i < rest.len() && rest[i] == accounts[j].0;
        assert(holders(accounts, market_id)[i] == rest[i]);
    } else {
        assert(holders(accounts, market_id) == rest.push(accounts[n].0));
        assert(holders(accounts, market_id)[rest.len() as int] == accounts[n].0);
    }
}

impl State {
    /// A state without accounts and markets.
    pub fn new() -> (r: Self)
        ensures
            r@.accounts == Seq::<(Key, AccountView)>::empty(),
            r@.markets == Seq::<(Key, MarketView)>::empty(),
    {
        State { accounts: OrderedMap::new(), markets: OrderedMap::new() }
    }

    /// Every state is well formed. This walks the accounts to bring the fact
    /// into a proof; it computes nothing.
    pub fn well_formed(&self)
        ensures
            self@.wf(),
    {
        let n = self.accounts.len();
        let _ = self.markets.len();
        let mut i: usize = 0;
        while i < n
            invariant
                n == self@.accounts.len(),
                i <= n,
                forall|j: int| 0 <= j < i ==> (#[trigger] self@.accounts[j]).1.wf(),
            decreases n - i,
        {
            let account = self.accounts.value_at(i);
            let _ = account.positions.len();
            let _ = account.last_funding.len();
            i = i + 1;
        }
    }

    /// Makes sure that there is an account for `account_id`.
    pub fn get_or_create_account(&mut self, account_id: &str)
        ensures
            final(self)@.accounts == with_account(old(self)@.accounts, account_id@),
            final(self)@.markets == old(self)@.markets,
    {
        if !self.accounts.contains_key(account_id) {
            let id: String = account_id.to_owned();
            self.accounts.insert(id.clone(), Account::new(id));
        }
    }

    /// The identifiers of the accounts that hold a position in `market_id`,
    /// in ascending order.
    pub fn accounts_with_position_in(&self, market_id: &str) -> (r: Vec<AccountId>)
        ensures
            r.deep_view() == holders(self@.accounts, market_id@),
    {
        let n = self.accounts.len();
        let mut found: Vec<AccountId> = Vec::new();
        let mut i: usize = 0;
        proof {
            assert(self@.accounts.take(0) =~= Seq::<(Key, AccountView)>::empty());
            assert(found.deep_view() =~= Seq::<Key>::empty());
        }
        while i < n
            invariant
                n == self@.accounts.len(),
                i <= n,
                found.deep_view() == holders(self@.accounts.take(i as int), market_id@),
            decreases n - i,
        {
            proof {
                assert(self@.accounts.take(i as int + 1).drop_last() =~= self@.accounts.take(
                    i as int,
                ));
            }
            let ghost before = found.deep_view();
            if self.accounts.value_at(i).positions.contains_key(market_id) {
                found.push(self.accounts.key_at(i).clone());
                proof {
                    assert(found.deep_view() =~= before.push(self@.accounts[i as int].0));
                }
            }
            i = i + 1;
        }
        proof {
            assert(self@.accounts.take(n as int) =~= self@.accounts);
        }
        found
    }
}

} // verus!
