//! A multi-class balance ledger: the quantity issued of each asset class
//! in a collection, and what each account holds of it.

use vstd::prelude::*;
use crate::games::Origin;

verus! {

/// The longest asset-class identifier.
pub const MAX_ASSET_LEN: usize = 32;

/// How many supply records one `destroy_collection` call removes at most.
pub const DESTROY_LIMIT: u32 = 10;

#[derive(Clone, Copy, Debug, PartialEq, Eq, Structural)]
pub enum Error {
    /// The call was not signed by an account.
    BadOrigin,
    /// The collection identifier is empty.
    CollectionIsEmpty,
    /// The asset-class identifier is empty.
    AssetIsEmpty,
}

/// What a successful call records for outside observers.
#[derive(Clone, Copy, Debug, PartialEq, Eq)]
pub enum Event {
    ValueUpdated { owner: u64, old: u32, new: u32 },
}

/// The sum of the amounts of the records whose key satisfies `p`.
pub open spec fn sum_where<K>(recs: Seq<(K, u32)>, p: spec_fn(K) -> bool) -> nat
    decreases recs.len(),
{
    if recs.len() == 0 {
        0
    } else {
        sum_where(recs.drop_last(), p) + if p(recs.last().0) {
            recs.last().1 as nat
        } else {
            0
        }
    }
}

/// Replacing the amount of one record changes the sum by the difference,
/// where that record counts.
proof fn lemma_sum_update<K>(recs: Seq<(K, u32)>, p: spec_fn(K) -> bool, i: int, v: u32)
    requires
        0 <= i < recs.len(),
    ensures
        sum_where(recs.update(i, (recs[i].0, v)), p) + (if p(recs[i].0) {
            recs[i].1 as nat
        } else {
            0
        }) == sum_where(recs, p) + (if p(recs[i].0) {
            v as nat
        } else {
            0
        }),
    decreases recs.len(),
{
    let recs2 = recs.update(i, (recs[i].0, v));
    if i == recs.len() - 1 {
        assert(recs2.drop_last() =~= recs.drop_last());
    } else {
        assert(recs2.drop_last() =~= recs.drop_last().update(i, (recs[i].0, v)));
        lemma_sum_update(recs.drop_last(), p, i, v);
    }
}

/// Appending a record adds its amount, where it counts.
proof fn lemma_sum_push<K>(recs: Seq<(K, u32)>, p: spec_fn(K) -> bool, x: (K, u32))
    ensures
        sum_where(recs.push(x), p) == sum_where(recs, p) + if p(x.0) {
            x.1 as nat
        } else {
            0
        },
{
    assert(recs.push(x).drop_last() =~= recs);
}

/// A record that counts is no larger than the sum.
proof fn lemma_entry_le_sum<K>(recs: Seq<(K, u32)>, p: spec_fn(K) -> bool, i: int)
    requires
        0 <= i < recs.len(),
        p(recs[i].0),
    ensures
        recs[i].1 <= sum_where(recs, p),
    decreases recs.len(),
{
    if i < recs.len() - 1 {
        lemma_entry_le_sum(recs.drop_last(), p, i);
    }
}

/// Where exactly one record counts, the sum is its amount; where none
/// does, the sum is zero.
proof fn lemma_sum_single<K>(recs: Seq<(K, u32)>, p: spec_fn(K) -> bool)
    requires
        forall|i: int, j: int|
            0 <= i < recs.len() && 0 <= j < recs.len() && i != j && p(recs[i].0) ==> !p(
                recs[j].0,
            ),
    ensures
        forall|i: int| 0 <= i < recs.len() && p(recs[i].0) ==> sum_where(recs, p) == recs[i].1,
        (forall|i: int| 0 <= i < recs.len() ==> !p(recs[i].0)) ==> sum_where(recs, p) == 0,
    decreases recs.len(),
{
    if recs.len() > 0 {
        let init = recs.drop_last();
        let n = recs.len() - 1;
        assert forall|i: int, j: int|
            0 <= i < init.len() && 0 <= j < init.len() && i != j && p(init[i].0) implies !p(
                init[j].0,
            ) by {
            assert(init[i] == recs[i] && init[j] == recs[j]);
        }
        lemma_sum_single(init, p);
        if p(recs[n].0) {
            assert forall|i: int| 0 <= i < init.len() implies !p(init[i].0) by {
                assert(init[i] == recs[i]);
            }
        }
        assert forall|i: int| 0 <= i < recs.len() && p(recs[i].0) implies sum_where(recs, p)
            == recs[i].1 by {
            if i < n {
                assert(init[i] == recs[i]);
                assert(!p(recs[n].0));
            }
        }
        if forall|i: int| 0 <= i < recs.len() ==> !p(recs[i].0) {
            assert(!p(recs[n].0));
            assert forall|i: int| 0 <= i < init.len() implies !p(init[i].0) by {
                assert(init[i] == recs[i]);
            }
        }
    }
}

/// The records of `recs` that belong to collection `c`.
pub open spec fn count_in(recs: Seq<((Seq<u8>, Seq<u8>), u32)>, c: Seq<u8>) -> nat
    decreases recs.len(),
{
    if recs.len() == 0 {
        0
    } else {
        count_in(recs.drop_last(), c) + if recs.last().0.0 == c {
            1nat
        } else {
            0
        }
    }
}

/// `recs` without the first `limit` records of collection `c`, the rest
/// in their order.
pub open spec fn cleared(recs: Seq<((Seq<u8>, Seq<u8>), u32)>, c: Seq<u8>, limit: nat) -> Seq<
    ((Seq<u8>, Seq<u8>), u32),
>
    decreases recs.len(),
{
    if recs.len() == 0 {
        Seq::empty()
    } else if recs.last().0.0 == c && count_in(recs.drop_last(), c) < limit {
        cleared(recs.drop_last(), c, limit)
    } else {
        cleared(recs.drop_last(), c, limit).push(recs.last())
    }
}

/// The issued quantity of one asset class of one collection.
struct SupplyEntry {
    collection: Vec<u8>,
    asset: Vec<u8>,
    amount: u32,
}

/// What one account holds of one asset class of one collection.
struct BalanceEntry {
    collection: Vec<u8>,
    account: u64,
    asset: Vec<u8>,
    amount: u32,
}

impl SupplyEntry {
    spec fn record(&self) -> ((Seq<u8>, Seq<u8>), u32) {
        ((self.collection@, self.asset@), self.amount)
    }
}

impl BalanceEntry {
    spec fn record(&self) -> ((Seq<u8>, u64, Seq<u8>), u32) {
        ((self.collection@, self.account, self.asset@), self.amount)
    }
}

/// The ledger state: supply and balance records, a stored value and the
/// event log.
pub struct Pallet {
    max_collection_len: usize,
    supply: Vec<SupplyEntry>,
    balances: Vec<BalanceEntry>,
    value: Option<u32>,
    events: Vec<Event>,
}

/// Whether two byte strings are equal.
fn same_bytes(x: &Vec<u8>, y: &Vec<u8>) -> (r: bool)
    ensures
        r == (x@ == y@),
{
    if x.len() != y.len() {
        return false;
    }
    let mut i: usize = 0;
    while i < x.len()
        invariant
            i <= x@.len(),
            x@.len() == y@.len(),
            forall|j: int| 0 <= j < i ==> x@[j] == y@[j],
        decreases x@.len() - i,
    {
        if x[i] != y[i] {
            return false;
        }
        i = i + 1;
    }
    assert(x@ =~= y@);
    true
}

/// A fresh vector with the same bytes.
fn copy_bytes(x: &Vec<u8>) -> (r: Vec<u8>)
    ensures
        r@ == x@,
{
    let mut out: Vec<u8> = Vec::new();
    let mut i: usize = 0;
    while i < x.len()
        invariant
            i <= x@.len(),
            out@ =~= x@.subrange(0, i as int),
        decreases x@.len() - i,
    {
        out.push(x[i]);
        i = i + 1;
    }
    assert(out@ =~= x@);
    out
}

impl Pallet {
    /// The supply records, in storage order.
    pub closed spec fn supply_records(&self) -> Seq<((Seq<u8>, Seq<u8>), u32)> {
        self.supply@.map_values(|e: SupplyEntry| e.record())
    }

    /// The balance records, in storage order.
    pub closed spec fn balance_records(&self) -> Seq<((Seq<u8>, u64, Seq<u8>), u32)> {
        self.balances@.map_values(|e: BalanceEntry| e.record())
    }

    /// The longest collection identifier this ledger takes.
    pub closed spec fn max_collection_len_view(&self) -> usize {
        self.max_collection_len
    }

    /// The stored value.
    pub closed spec fn value_view(&self) -> Option<u32> {
        self.value
    }

    /// The events recorded so far, oldest first.
    pub closed spec fn events_view(&self) -> Seq<Event> {
        self.events@
    }

    /// The issued quantity of asset class `a` in collection `c`.
    pub open spec fn supply_of(&self, c: Seq<u8>, a: Seq<u8>) -> nat {
        sum_where(self.supply_records(), |k: (Seq<u8>, Seq<u8>)| k == (c, a))
    }

    /// Whether a supply record exists for asset class `a` in collection `c`.
    pub open spec fn has_supply(&self, c: Seq<u8>, a: Seq<u8>) -> bool {
        exists|i: int|
            0 <= i < self.supply_records().len() && #[trigger] self.supply_records()[i].0 == (c, a)
    }

    /// What `account` holds of asset class `a` in collection `c`.
    pub open spec fn balance_of(&self, c: Seq<u8>, account: u64, a: Seq<u8>) -> nat {
        sum_where(self.balance_records(), |k: (Seq<u8>, u64, Seq<u8>)| k == (c, account, a))
    }

    /// Whether a balance record exists for `account`, `a` and `c`.
    pub open spec fn has_balance(&self, c: Seq<u8>, account: u64, a: Seq<u8>) -> bool {
        exists|i: int|
            0 <= i < self.balance_records().len() && #[trigger] self.balance_records()[i].0 == (
                c,
                account,
                a,
            )
    }

    /// What all accounts together hold of asset class `a` in collection `c`.
    pub open spec fn class_total(&self, c: Seq<u8>, a: Seq<u8>) -> nat {
        sum_where(
            self.balance_records(),
            |k: (Seq<u8>, u64, Seq<u8>)| k.0 == c && k.2 == a,
        )
    }

    /// Every issued quantity equals what the accounts hold of it.
    pub open spec fn supply_consistent(&self) -> bool {
        forall|c: Seq<u8>, a: Seq<u8>| #[trigger] self.supply_of(c, a) == self.class_total(c, a)
    }

    /// The ledger's invariant: each key has at most one record.
    pub closed spec fn wf(&self) -> bool {
        &&& forall|i: int, j: int|
            0 <= i < self.supply@.len() && 0 <= j < self.supply@.len() && i != j
                ==> #[trigger] self.supply@[i].record().0 != #[trigger] self.supply@[j].record().0
        &&& forall|i: int, j: int|
            0 <= i < self.balances@.len() && 0 <= j < self.balances@.len() && i != j
                ==> #[trigger] self.balances@[i].record().0 != #[trigger] self.balances@[j].record().0
    }

    /// An empty ledger whose collection identifiers are at most
    /// `max_collection_len` bytes long.
    pub fn new(max_collection_len: usize) -> (r: Self)
        ensures
            r.wf(),
            r.supply_records() == Seq::<((Seq<u8>, Seq<u8>), u32)>::empty(),
            r.balance_records() == Seq::<((Seq<u8>, u64, Seq<u8>), u32)>::empty(),
            r.supply_consistent(),
            r.max_collection_len_view() == max_collection_len,
            r.value_view() == None::<u32>,
            r.events_view() == Seq::<Event>::empty(),
    {
        let r = Pallet {
            max_collection_len,
            supply: Vec::new(),
            balances: Vec::new(),
            value: None,
            events: Vec::new(),
        };
        assert(r.supply_records() =~= Seq::<((Seq<u8>, Seq<u8>), u32)>::empty());
        assert(r.balance_records() =~= Seq::<((Seq<u8>, u64, Seq<u8>), u32)>::empty());
        r
    }

    /// Where the supply record of `c` and `a` is stored.
    fn find_supply(&self, c: &Vec<u8>, a: &Vec<u8>) -> (r: Option<usize>)
        ensures
            match r {
                Some(i) => i < self.supply@.len() && self.supply_records()[i as int].0 == (c@, a@),
                None => !self.has_supply(c@, a@),
            },
    {
        let mut i: usize = 0;
        while i < self.supply.len()
            invariant
                i <= self.supply@.len(),
                forall|j: int| 0 <= j < i ==> self.supply_records()[j].0 != (c@, a@),
            decreases self.supply@.len() - i,
        {
            if same_bytes(&self.supply[i].collection, c) && same_bytes(&self.supply[i].asset, a) {
                return Some(i);
            }
            i = i + 1;
        }
        None
    }

    /// Where the balance record of `c`, `account` and `a` is stored.
    fn find_balance(&self, c: &Vec<u8>, account: u64, a: &Vec<u8>) -> (r: Option<usize>)
        ensures
            match r {
                Some(i) => i < self.balances@.len() && self.balance_records()[i as int].0 == (
                    c@,
                    account,
                    a@,
                ),
                None => !self.has_balance(c@, account, a@),
            },
    {
        let mut i: usize = 0;
        while i < self.balances.len()
            invariant
                i <= self.balances@.len(),
                forall|j: int| 0 <= j < i ==> self.balance_records()[j].0 != (c@, account, a@),
            decreases self.balances@.len() - i,
        {
            if self.balances[i].account == account && same_bytes(&self.balances[i].collection, c)
                && same_bytes(&self.balances[i].asset, a) {
                return Some(i);
            }
            i = i + 1;
        }
        None
    }

    /// Adds `amount` to the supply record of `c` and `a`, making it if absent.
    fn add_supply(&mut self, c: &Vec<u8>, a: &Vec<u8>, amount: u32)
        requires
            old(self).wf(),
            old(self).supply_of(c@, a@) + amount <= u32::MAX,
        ensures
            final(self).wf(),
            forall|p: spec_fn((Seq<u8>, Seq<u8>)) -> bool|
                #[trigger] sum_where(final(self).supply_records(), p) == sum_where(
                    old(self).supply_records(),
                    p,
                ) + if p((c@, a@)) {
                    amount as nat
                } else {
                    0
                },
            forall|x: Seq<u8>, y: Seq<u8>|
                #[trigger] final(self).has_supply(x, y) <==> (old(self).has_supply(x, y) || (x, y)
                    == (c@, a@)),
            final(self).balances == old(self).balances,
            final(self).max_collection_len == old(self).max_collection_len,
            final(self).value == old(self).value,
            final(self).events == old(self).events,
    {
        let ghost pre = self.supply_records();
        match self.find_supply(c, a) {
            Some(i) => {
                proof {
                    lemma_entry_le_sum(pre, |k: (Seq<u8>, Seq<u8>)| k == (c@, a@), i as int);
                }
                let new_amount = self.supply[i].amount + amount;
                self.supply[i].amount = new_amount;
                proof {
                    assert(self.supply_records() =~= pre.update(i as int, (pre[i as int].0, new_amount)));
                    assert forall|p: spec_fn((Seq<u8>, Seq<u8>)) -> bool|
                        #[trigger] sum_where(self.supply_records(), p) == sum_where(pre, p) + if p(
                            (c@, a@),
                        ) {
                            amount as nat
                        } else {
                            0
                        } by {
                        lemma_sum_update(pre, p, i as int, new_amount);
                    }
                    assert forall|x: Seq<u8>, y: Seq<u8>|
                        #[trigger] self.has_supply(x, y) <==> (old(self).has_supply(x, y) || (x, y)
                            == (c@, a@)) by {
                        if old(self).has_supply(x, y) {
                            let j = choose|j: int| 0 <= j < pre.len() && pre[j].0 == (x, y);
                            assert(self.supply_records()[j].0 == (x, y));
                        }
                        if self.has_supply(x, y) {
                            let j = choose|j: int|
                                0 <= j < pre.len() && self.supply_records()[j].0 == (x, y);
                            assert(pre[j].0 == (x, y));
                        }
                        assert(self.supply_records()[i as int].0 == (c@, a@));
                    }
                }
            },
            None => {
                let entry = SupplyEntry { collection: copy_bytes(c), asset: copy_bytes(a), amount };
                self.supply.push(entry);
                proof {
                    assert(self.supply_records() =~= pre.push(((c@, a@), amount)));
                    assert forall|p: spec_fn((Seq<u8>, Seq<u8>)) -> bool|
                        #[trigger] sum_where(self.supply_records(), p) == sum_where(pre, p) + if p(
                            (c@, a@),
                        ) {
                            amount as nat
                        } else {
                            0
                        } by {
                        lemma_sum_push(pre, p, ((c@, a@), amount));
                    }
                    assert forall|x: Seq<u8>, y: Seq<u8>|
                        #[trigger] self.has_supply(x, y) <==> (old(self).has_supply(x, y) || (x, y)
                            == (c@, a@)) by {
                        if old(self).has_supply(x, y) {
                            let j = choose|j: int| 0 <= j < pre.len() && pre[j].0 == (x, y);
                            assert(self.supply_records()[j].0 == (x, y));
                        }
                        if self.has_supply(x, y) {
                            let j = choose|j: int|
                                0 <= j < self.supply_records().len() && self.supply_records()[j].0
                                    == (x, y);
                            if j < pre.len() {
                                assert(pre[j].0 == (x, y));
                            }
                        }
                        assert(self.supply_records()[pre.len() as int].0 == (c@, a@));
                    }
                    assert forall|i: int, j: int|
                        0 <= i < self.supply@.len() && 0 <= j < self.supply@.len() && i != j
                            implies #[trigger] self.supply@[i].record().0
                            != #[trigger] self.supply@[j].record().0 by {
                        assert(self.supply@[i].record() == self.supply_records()[i]);
                        assert(self.supply@[j].record() == self.supply_records()[j]);
                        if i < pre.len() && j < pre.len() {
                            assert(old(self).supply@[i].record() == pre[i]);
                            assert(old(self).supply@[j].record() == pre[j]);
                        } else if i < pre.len() {
                            assert(pre[i].0 != (c@, a@));
                        } else {
                            assert(pre[j].0 != (c@, a@));
                        }
                    }
                }
            },
        }
    }

    /// Adds `amount` to the balance record of `c`, `account` and `a`,
    /// making it if absent.
    fn add_balance(&mut self, c: Vec<u8>, account: u64, a: Vec<u8>, amount: u32)
        requires
            old(self).wf(),
            old(self).balance_of(c@, account, a@) + amount <= u32::MAX,
        ensures
            final(self).wf(),
            forall|p: spec_fn((Seq<u8>, u64, Seq<u8>)) -> bool|
                #[trigger] sum_where(final(self).balance_records(), p) == sum_where(
                    old(self).balance_records(),
                    p,
                ) + if p((c@, account, a@)) {
                    amount as nat
                } else {
                    0
                },
            forall|x: Seq<u8>, u: u64, y: Seq<u8>|
                #[trigger] final(self).has_balance(x, u, y) <==> (old(self).has_balance(x, u, y)
                    || (x, u, y) == (c@, account, a@)),
            final(self).supply == old(self).supply,
            final(self).max_collection_len == old(self).max_collection_len,
            final(self).value == old(self).value,
            final(self).events == old(self).events,
    {
        let ghost pre = self.balance_records();
        let ghost key = (c@, account, a@);
        match self.find_balance(&c, account, &a) {
            Some(i) => {
                proof {
                    lemma_entry_le_sum(pre, |k: (Seq<u8>, u64, Seq<u8>)| k == key, i as int);
                }
                let new_amount = self.balances[i].amount + amount;
                self.balances[i].amount = new_amount;
                proof {
                    assert(self.balance_records() =~= pre.update(
                        i as int,
                        (pre[i as int].0, new_amount),
                    ));
                    assert forall|p: spec_fn((Seq<u8>, u64, Seq<u8>)) -> bool|
                        #[trigger] sum_where(self.balance_records(), p) == sum_where(pre, p) + if p(
                            key,
                        ) {
                            amount as nat
                        } else {
                            0
                        } by {
                        lemma_sum_update(pre, p, i as int, new_amount);
                    }
                    assert forall|x: Seq<u8>, u: u64, y: Seq<u8>|
                        #[trigger] self.has_balance(x, u, y) <==> (old(self).has_balance(x, u, y)
                            || (x, u, y) == key) by {
                        if old(self).has_balance(x, u, y) {
                            let j = choose|j: int| 0 <= j < pre.len() && pre[j].0 == (x, u, y);
                            assert(self.balance_records()[j].0 == (x, u, y));
                        }
                        if self.has_balance(x, u, y) {
                            let j = choose|j: int|
                                0 <= j < pre.len() && self.balance_records()[j].0 == (x, u, y);
                            assert(pre[j].0 == (x, u, y));
                        }
                        assert(self.balance_records()[i as int].0 == key);
                    }
                }
            },
            None => {
                self.balances.push(BalanceEntry { collection: c, account, asset: a, amount });
                proof {
                    assert(self.balance_records() =~= pre.push((key, amount)));
                    assert forall|p: spec_fn((Seq<u8>, u64, Seq<u8>)) -> bool|
                        #[trigger] sum_where(self.balance_records(), p) == sum_where(pre, p) + if p(
                            key,
                        ) {
                            amount as nat
                        } else {
                            0
                        } by {
                        lemma_sum_push(pre, p, (key, amount));
                    }
                    assert forall|x: Seq<u8>, u: u64, y: Seq<u8>|
                        #[trigger] self.has_balance(x, u, y) <==> (old(self).has_balance(x, u, y)
                            || (x, u, y) == key) by {
                        if old(self).has_balance(x, u, y) {
                            let j = choose|j: int| 0 <= j < pre.len() && pre[j].0 == (x, u, y);
                            assert(self.balance_records()[j].0 == (x, u, y));
                        }
                        if self.has_balance(x, u, y) {
                            let j = choose|j: int|
                                0 <= j < self.balance_records().len()
                                    && self.balance_records()[j].0 == (x, u, y);
                            if j < pre.len() {
                                assert(pre[j].0 == (x, u, y));
                            }
                        }
                        assert(self.balance_records()[pre.len() as int].0 == key);
                    }
                    assert forall|i: int, j: int|
                        0 <= i < self.balances@.len() && 0 <= j < self.balances@.len() && i != j
                            implies #[trigger] self.balances@[i].record().0
                            != #[trigger] self.balances@[j].record().0 by {
                        assert(self.balances@[i].record() == self.balance_records()[i]);
                        assert(self.balances@[j].record() == self.balance_records()[j]);
                        if i < pre.len() && j < pre.len() {
                            assert(old(self).balances@[i].record() == pre[i]);
                            assert(old(self).balances@[j].record() == pre[j]);
                        } else if i < pre.len() {
                            assert(pre[i].0 != key);
                        } else {
                            assert(pre[j].0 != key);
                        }
                    }
                }
            },
        }
    }

    /// The error that a mint call meets, if any; checked in this order.
    pub open spec fn mint_error(origin: Origin, c: Seq<u8>, a: Seq<u8>) -> Option<Error> {
        if origin is Unsigned {
            Some(Error::BadOrigin)
        } else if c.len() == 0 {
            Some(Error::CollectionIsEmpty)
        } else if a.len() == 0 {
            Some(Error::AssetIsEmpty)
        } else {
            None
        }
    }

    /// `post` is `self` with `amount` more of asset class `a` in collection
    /// `c` issued, all of it to `recipient`; records are made where absent,
    /// every other quantity is kept.
    pub open spec fn minted(
        &self,
        post: &Pallet,
        c: Seq<u8>,
        recipient: u64,
        a: Seq<u8>,
        amount: u32,
    ) -> bool {
        &&& forall|x: Seq<u8>, y: Seq<u8>|
            #[trigger] post.supply_of(x, y) == self.supply_of(x, y) + if (x, y) == (c, a) {
                amount as nat
            } else {
                0
            }
        &&& forall|x: Seq<u8>, u: u64, y: Seq<u8>|
            #[trigger] post.balance_of(x, u, y) == self.balance_of(x, u, y) + if (x, u, y) == (
                c,
                recipient,
                a,
            ) {
                amount as nat
            } else {
                0
            }
        &&& forall|x: Seq<u8>, y: Seq<u8>|
            #[trigger] post.class_total(x, y) == self.class_total(x, y) + if (x, y) == (c, a) {
                amount as nat
            } else {
                0
            }
        &&& forall|x: Seq<u8>, y: Seq<u8>|
            #[trigger] post.has_supply(x, y) <==> (self.has_supply(x, y) || (x, y) == (c, a))
        &&& forall|x: Seq<u8>, u: u64, y: Seq<u8>|
            #[trigger] post.has_balance(x, u, y) <==> (self.has_balance(x, u, y) || (x, u, y) == (
                c,
                recipient,
                a,
            ))
        &&& post.max_collection_len_view() == self.max_collection_len_view()
        &&& post.value_view() == self.value_view()
        &&& post.events_view() == self.events_view()
    }

    /// Issues `amount` of asset class `asset` in `collection` to
    /// `recipient`. Anyone who signs may mint.
    pub fn mint(
        &mut self,
        origin: Origin,
        collection: Vec<u8>,
        asset: Vec<u8>,
        recipient: u64,
        amount: u32,
    ) -> (r: Result<(), Error>)
        requires
            old(self).wf(),
            collection@.len() <= old(self).max_collection_len_view(),
            asset@.len() <= MAX_ASSET_LEN,
            old(self).supply_of(collection@, asset@) + amount <= u32::MAX,
            old(self).balance_of(collection@, recipient, asset@) + amount <= u32::MAX,
        ensures
            final(self).wf(),
            match Self::mint_error(origin, collection@, asset@) {
                Some(e) => r == Err::<(), Error>(e) && *final(self) == *old(self),
                None => r == Ok::<(), Error>(()) && old(self).minted(
                    final(self),
                    collection@,
                    recipient,
                    asset@,
                    amount,
                ),
            },
    {
        if let Origin::Unsigned = origin {
            return Err(Error::BadOrigin);
        }
        if collection.len() == 0 {
            return Err(Error::CollectionIsEmpty);
        }
        if asset.len() == 0 {
            return Err(Error::AssetIsEmpty);
        }
        let ghost pre = *self;
        let ghost c = collection@;
        let ghost a = asset@;
        self.add_supply(&collection, &asset, amount);
        let ghost mid = *self;
        self.add_balance(collection, recipient, asset, amount);
        proof {
            assert forall|x: Seq<u8>, y: Seq<u8>| #[trigger] self.supply_of(x, y) == pre.supply_of(x, y)
                + if (x, y) == (c, a) {
                amount as nat
            } else {
                0
            } by {
                assert(mid.supply_of(x, y) == pre.supply_of(x, y) + if (x, y) == (c, a) {
                    amount as nat
                } else {
                    0
                });
                assert(self.supply_records() == mid.supply_records());
            }
            assert forall|x: Seq<u8>, u: u64, y: Seq<u8>| #[trigger]
                self.balance_of(x, u, y) == pre.balance_of(x, u, y) + if (x, u, y) == (
                    c,
                    recipient,
                    a,
                ) {
                    amount as nat
                } else {
                    0
                } by {
                assert(mid.balance_records() == pre.balance_records());
                let p = |k: (Seq<u8>, u64, Seq<u8>)| k == (x, u, y);
                assert(sum_where(self.balance_records(), p) == sum_where(mid.balance_records(), p)
                    + if p((c, recipient, a)) {
                    amount as nat
                } else {
                    0
                });
            }
            assert forall|x: Seq<u8>, y: Seq<u8>| #[trigger] self.class_total(x, y)
                == pre.class_total(x, y) + if (x, y) == (c, a) {
                amount as nat
            } else {
                0
            } by {
                assert(mid.balance_records() == pre.balance_records());
                let p = |k: (Seq<u8>, u64, Seq<u8>)| k.0 == x && k.2 == y;
                assert(sum_where(self.balance_records(), p) == sum_where(mid.balance_records(), p)
                    + if p((c, recipient, a)) {
                    amount as nat
                } else {
                    0
                });
            }
            assert forall|x: Seq<u8>, y: Seq<u8>|
                #[trigger] self.has_supply(x, y) <==> (pre.has_supply(x, y) || (x, y) == (c, a)) by {
                assert(mid.has_supply(x, y) <==> (pre.has_supply(x, y) || (x, y) == (c, a)));
                assert(self.supply_records() == mid.supply_records());
            }
            assert forall|x: Seq<u8>, u: u64, y: Seq<u8>|
                #[trigger] self.has_balance(x, u, y) <==> (pre.has_balance(x, u, y) || (x, u, y) == (
                    c,
                    recipient,
                    a,
                )) by {
                assert(mid.has_balance(x, u, y) == pre.has_balance(x, u, y)) by {
                    assert(mid.balance_records() == pre.balance_records());
                }
            }
        }
        Ok(())
    }

    /// The records' keys in the order of storage, each once.
    proof fn lemma_supply_keys_unique(&self)
        requires
            self.wf(),
        ensures
            forall|i: int, j: int|
                0 <= i < self.supply_records().len() && 0 <= j < self.supply_records().len() && i
                    != j ==> self.supply_records()[i].0 != self.supply_records()[j].0,
            forall|i: int, j: int|
                0 <= i < self.balance_records().len() && 0 <= j < self.balance_records().len() && i
                    != j ==> self.balance_records()[i].0 != self.balance_records()[j].0,
    {
        assert forall|i: int, j: int|
            0 <= i < self.supply_records().len() && 0 <= j < self.supply_records().len() && i != j
                implies self.supply_records()[i].0 != self.supply_records()[j].0 by {
            assert(self.supply@[i].record() != self.supply@[j].record() || self.supply@[i].record().0
                != self.supply@[j].record().0);
        }
        assert forall|i: int, j: int|
            0 <= i < self.balance_records().len() && 0 <= j < self.balance_records().len() && i
                != j implies self.balance_records()[i].0 != self.balance_records()[j].0 by {
            assert(self.balances@[i].record().0 != self.balances@[j].record().0);
        }
    }

    /// The issued quantity of `asset` in `collection`, if it was ever minted
    /// and not since removed.
    pub fn total_supply(&self, collection: &Vec<u8>, asset: &Vec<u8>) -> (r: Option<u32>)
        requires
            self.wf(),
        ensures
            r == if self.has_supply(collection@, asset@) {
                Some(self.supply_of(collection@, asset@) as u32)
            } else {
                None::<u32>
            },
    {
        proof {
            self.lemma_supply_keys_unique();
            lemma_sum_single(
                self.supply_records(),
                |k: (Seq<u8>, Seq<u8>)| k == (collection@, asset@),
            );
        }
        match self.find_supply(collection, asset) {
            Some(i) => Some(self.supply[i].amount),
            None => None,
        }
    }

    /// What `account` holds of `asset` in `collection`, if a record exists.
    pub fn balance(&self, collection: &Vec<u8>, account: u64, asset: &Vec<u8>) -> (r: Option<u32>)
        requires
            self.wf(),
        ensures
            r == if self.has_balance(collection@, account, asset@) {
                Some(self.balance_of(collection@, account, asset@) as u32)
            } else {
                None::<u32>
            },
    {
        proof {
            self.lemma_supply_keys_unique();
            lemma_sum_single(
                self.balance_records(),
                |k: (Seq<u8>, u64, Seq<u8>)| k == (collection@, account, asset@),
            );
        }
        match self.find_balance(collection, account, asset) {
            Some(i) => Some(self.balances[i].amount),
            None => None,
        }
    }

    /// How many supply records `collection` still has.
    pub fn remaining_in_collection(&self, collection: &Vec<u8>) -> (r: usize)
        ensures
            r == count_in(self.supply_records(), collection@),
    {
        let ghost recs = self.supply_records();
        let mut n: usize = 0;
        let mut i: usize = 0;
        while i < self.supply.len()
            invariant
                recs == self.supply_records(),
                i <= recs.len(),
                n == count_in(recs.take(i as int), collection@),
                n <= i,
            decreases recs.len() - i,
        {
            assert(recs.take(i + 1).drop_last() =~= recs.take(i as int));
            if same_bytes(&self.supply[i].collection, collection) {
                n = n + 1;
            }
            i = i + 1;
        }
        assert(recs.take(i as int) =~= recs);
        n
    }

    /// Removes the supply records of `collection`, at most `DESTROY_LIMIT`
    /// of them, the earliest first; balance records stay. Whether any are
    /// left shows in `remaining_in_collection`.
    pub fn destroy_collection(&mut self, origin: Origin, collection: Vec<u8>) -> (r: Result<
        (),
        Error,
    >)
        requires
            old(self).wf(),
            collection@.len() <= old(self).max_collection_len_view(),
        ensures
            final(self).wf(),
            match origin {
                Origin::Unsigned => r == Err::<(), Error>(Error::BadOrigin) && *final(self)
                    == *old(self),
                Origin::Signed(_) => {
                    &&& r == Ok::<(), Error>(())
                    &&& final(self).supply_records() == cleared(
                        old(self).supply_records(),
                        collection@,
                        DESTROY_LIMIT as nat,
                    )
                    &&& final(self).balance_records() == old(self).balance_records()
                    &&& final(self).max_collection_len_view() == old(self).max_collection_len_view()
                    &&& final(self).value_view() == old(self).value_view()
                    &&& final(self).events_view() == old(self).events_view()
                },
            },
    {
        if let Origin::Unsigned = origin {
            return Err(Error::BadOrigin);
        }
        let ghost recs = self.supply_records();
        let ghost c = collection@;
        proof {
            self.lemma_supply_keys_unique();
        }
        let mut stored: Vec<SupplyEntry> = Vec::new();
        std::mem::swap(&mut stored, &mut self.supply);
        assert(stored@.map_values(|e: SupplyEntry| e.record()) == recs);
        let mut kept: Vec<SupplyEntry> = Vec::new();
        let mut removed: u32 = 0;
        let mut i: usize = 0;
        while i < stored.len()
            invariant
                recs == stored@.map_values(|e: SupplyEntry| e.record()),
                c == collection@,
                forall|x: int, y: int|
                    0 <= x < recs.len() && 0 <= y < recs.len() && x != y ==> recs[x].0
                        != recs[y].0,
                i <= recs.len(),
                kept@.map_values(|e: SupplyEntry| e.record()) == cleared(
                    recs.take(i as int),
                    c,
                    DESTROY_LIMIT as nat,
                ),
                removed <= DESTROY_LIMIT,
                removed as nat == count_in(recs.take(i as int), c) || (removed == DESTROY_LIMIT
                    && count_in(recs.take(i as int), c) >= DESTROY_LIMIT),
                forall|k: int|
                    #![trigger kept@[k]]
                    0 <= k < kept@.len() ==> exists|j: int|
                        0 <= j < i && #[trigger] recs[j].0 == kept@[k].record().0,
                forall|x: int, y: int|
                    0 <= x < kept@.len() && 0 <= y < kept@.len() && x != y
                        ==> #[trigger] kept@[x].record().0 != #[trigger] kept@[y].record().0,
            decreases recs.len() - i,
        {
            let ghost before = kept@;
            proof {
                assert(recs.take(i + 1).drop_last() =~= recs.take(i as int));
                assert(recs.take(i + 1).last() == recs[i as int]);
                assert(recs[i as int] == stored@[i as int].record());
            }
            if same_bytes(&stored[i].collection, &collection) && removed < DESTROY_LIMIT {
                removed = removed + 1;
            } else {
                let e = SupplyEntry {
                    collection: copy_bytes(&stored[i].collection),
                    asset: copy_bytes(&stored[i].asset),
                    amount: stored[i].amount,
                };
                kept.push(e);
                proof {
                    assert(kept@.map_values(|e: SupplyEntry| e.record()) =~= before.map_values(
                        |e: SupplyEntry| e.record(),
                    ).push(recs[i as int]));
                    assert forall|k: int|
                        #![trigger kept@[k]]
                        0 <= k < kept@.len() implies exists|j: int|
                        0 <= j < i + 1 && #[trigger] recs[j].0 == kept@[k].record().0 by {
                        if k < before.len() {
                            assert(kept@[k] == before[k]);
                            let j = choose|j: int|
                                0 <= j < i && #[trigger] recs[j].0 == before[k].record().0;
                            assert(recs[j].0 == kept@[k].record().0);
                        } else {
                            assert(recs[i as int].0 == kept@[k].record().0);
                        }
                    }
                    assert forall|x: int, y: int|
                        0 <= x < kept@.len() && 0 <= y < kept@.len() && x != y
                            implies #[trigger] kept@[x].record().0
                            != #[trigger] kept@[y].record().0 by {
                        if x < before.len() && y < before.len() {
                            assert(kept@[x] == before[x] && kept@[y] == before[y]);
                        } else if x < before.len() {
                            assert(kept@[x] == before[x]);
                            let j = choose|j: int|
                                0 <= j < i && #[trigger] recs[j].0 == before[x].record().0;
                            assert(recs[j].0 != recs[i as int].0);
                        } else {
                            assert(kept@[y] == before[y]);
                            let j = choose|j: int|
                                0 <= j < i && #[trigger] recs[j].0 == before[y].record().0;
                            assert(recs[j].0 != recs[i as int].0);
                        }
                    }
                }
            }
            i = i + 1;
        }
        proof {
            assert(recs.take(i as int) =~= recs);
        }
        self.supply = kept;
        Ok(())
    }

    /// Stores `value`, recording the previous one (zero where none was).
    pub fn set_value(&mut self, origin: Origin, value: u32) -> (r: Result<(), Error>)
        requires
            old(self).wf(),
        ensures
            final(self).wf(),
            match origin {
                Origin::Unsigned => r == Err::<(), Error>(Error::BadOrigin) && *final(self)
                    == *old(self),
                Origin::Signed(who) => {
                    &&& r == Ok::<(), Error>(())
                    &&& final(self).value_view() == Some(value)
                    &&& final(self).events_view() == old(self).events_view().push(
                        Event::ValueUpdated {
                            owner: who,
                            old: match old(self).value_view() {
                                Some(v) => v,
                                None => 0,
                            },
                            new: value,
                        },
                    )
                    &&& final(self).supply_records() == old(self).supply_records()
                    &&& final(self).balance_records() == old(self).balance_records()
                    &&& final(self).max_collection_len_view() == old(self).max_collection_len_view()
                },
            },
    {
        match origin {
            Origin::Unsigned => Err(Error::BadOrigin),
            Origin::Signed(who) => {
                let previous = match self.value {
                    Some(v) => v,
                    None => 0,
                };
                self.value = Some(value);
                self.events.push(Event::ValueUpdated { owner: who, old: previous, new: value });
                Ok(())
            },
        }
    }

    /// The longest collection identifier this ledger takes.
    pub fn max_collection_len(&self) -> (r: usize)
        ensures
            r == self.max_collection_len_view(),
    {
        self.max_collection_len
    }

    /// The stored value.
    pub fn value(&self) -> (r: Option<u32>)
        ensures
            r == self.value_view(),
    {
        self.value
    }

    /// The events recorded so far, oldest first.
    pub fn events(&self) -> (r: &Vec<Event>)
        ensures
            r@ == self.events_view(),
    {
        &self.events
    }
}

/// Minting keeps every issued quantity equal to the sum of what the
/// accounts hold of it. An empty ledger starts that way, so after any
/// sequence of mints alone the two agree.
pub proof fn lemma_mint_keeps_supply_consistent(
    s0: &Pallet,
    s1: &Pallet,
    c: Seq<u8>,
    recipient: u64,
    a: Seq<u8>,
    amount: u32,
)
    requires
        s0.supply_consistent(),
        s0.minted(s1, c, recipient, a, amount),
    ensures
        s1.supply_consistent(),
{
    assert forall|x: Seq<u8>, y: Seq<u8>| #[trigger] s1.supply_of(x, y) == s1.class_total(x, y) by {
        assert(s0.supply_of(x, y) == s0.class_total(x, y));
    }
}

} // verus!
