use crate::types::{Order, OrderV, Side};
use vstd::prelude::*;

verus! {

// ---------------------------------------------------------------------------
// Spec model
// ---------------------------------------------------------------------------

/// Spec-level image of one user's balances: per asset, what is free and
/// what is escrowed against open orders.
pub struct UserBalanceV {
    pub available: Map<Seq<char>, int>,
    pub locked: Map<Seq<char>, int>,
}

/// A user with no balances yet.
pub open spec fn empty_user() -> UserBalanceV {
    UserBalanceV { available: Map::empty(), locked: Map::empty() }
}

/// A balance map entry, or 0 where the asset has no entry.
pub open spec fn bal_or0(m: Map<Seq<char>, int>, k: Seq<char>) -> int {
    if m.contains_key(k) {
        m[k]
    } else {
        0
    }
}

/// A user's available balance of an asset (0 for an unknown user or asset).
pub open spec fn avail_of(l: Map<Seq<char>, UserBalanceV>, u: Seq<char>, a: Seq<char>) -> int {
    if l.contains_key(u) {
        bal_or0(l[u].available, a)
    } else {
        0
    }
}

/// A user's locked balance of an asset (0 for an unknown user or asset).
pub open spec fn locked_of(l: Map<Seq<char>, UserBalanceV>, u: Seq<char>, a: Seq<char>) -> int {
    if l.contains_key(u) {
        bal_or0(l[u].locked, a)
    } else {
        0
    }
}

/// Every balance is non-negative and each user/asset's available and
/// locked amounts sum within the machine bound.
pub open spec fn sums_ok(l: Map<Seq<char>, UserBalanceV>) -> bool {
    forall|u: Seq<char>, a: Seq<char>|
        {
            &&& 0 <= #[trigger] avail_of(l, u, a)
            &&& 0 <= locked_of(l, u, a)
            &&& avail_of(l, u, a) + locked_of(l, u, a) <= u64::MAX
        }
}

/// The asset an order escrows: a buy locks the fixed quote unit, a sell
/// locks the market's base asset.
pub open spec fn escrow_asset(o: OrderV, base_asset: Seq<char>) -> Seq<char> {
    if o.side == Side::Buy {
        "USDT"@
    } else {
        base_asset
    }
}

/// The amount an order escrows: price times quantity for a buy, the bare
/// quantity for a sell.
pub open spec fn escrow_amount(o: OrderV) -> int {
    if o.side == Side::Buy {
        o.price * o.quantity
    } else {
        o.quantity
    }
}

/// The full effect of an escrow attempt: the user's record is created if
/// absent; if the asset entry exists with at least `required` available,
/// that much moves from available to locked and the attempt succeeds,
/// otherwise nothing else changes and it fails.
pub open spec fn spec_lock(
    l: Map<Seq<char>, UserBalanceV>,
    user: Seq<char>,
    asset: Seq<char>,
    required: int,
) -> (bool, Map<Seq<char>, UserBalanceV>) {
    let l1 = if l.contains_key(user) {
        l
    } else {
        l.insert(user, empty_user())
    };
    let ub = l1[user];
    if ub.available.contains_key(asset) && ub.available[asset] >= required {
        (
            true,
            l1.insert(
                user,
                UserBalanceV {
                    available: ub.available.insert(asset, ub.available[asset] - required),
                    locked: ub.locked.insert(asset, bal_or0(ub.locked, asset) + required),
                },
            ),
        )
    } else {
        (false, l1)
    }
}

/// The full effect of a deposit: the user's record is created if absent
/// and `amount` is added to its available balance of `asset`.
pub open spec fn spec_credit(
    l: Map<Seq<char>, UserBalanceV>,
    user: Seq<char>,
    asset: Seq<char>,
    amount: int,
) -> Map<Seq<char>, UserBalanceV> {
    let l1 = if l.contains_key(user) {
        l
    } else {
        l.insert(user, empty_user())
    };
    let ub = l1[user];
    l1.insert(
        user,
        UserBalanceV {
            available: ub.available.insert(asset, bal_or0(ub.available, asset) + amount),
            locked: ub.locked,
        },
    )
}

// ---------------------------------------------------------------------------
// Exec representation: association vectors with unique keys
// ---------------------------------------------------------------------------

/// One asset's balance entry.
pub struct AssetEntry {
    pub asset: String,
    pub amount: u64,
}

/// Per-asset balances of one user, keyed by asset name.
pub struct AssetBalances {
    pub entries: Vec<AssetEntry>,
}

/// The map an entry sequence stands for (later entries would shadow
/// earlier ones; well-formed sequences have unique keys).
pub open spec fn asset_map(s: Seq<AssetEntry>) -> Map<Seq<char>, int>
    decreases s.len(),
{
    if s.len() == 0 {
        Map::empty()
    } else {
        asset_map(s.drop_last()).insert(s.last().asset@, s.last().amount as int)
    }
}

/// No two entries share an asset name.
pub open spec fn assets_unique(s: Seq<AssetEntry>) -> bool {
    forall|i: int, j: int| 0 <= i < j < s.len() ==> (#[trigger] s[i]).asset@ != (#[trigger] s[j]).asset@
}

impl View for AssetBalances {
    type V = Map<Seq<char>, int>;

    open spec fn view(&self) -> Map<Seq<char>, int> {
        asset_map(self.entries@)
    }
}

/// The map's domain is exactly the entries' keys.
pub proof fn lemma_asset_map_domain(s: Seq<AssetEntry>)
    ensures
        forall|i: int| 0 <= i < s.len() ==> asset_map(s).contains_key((#[trigger] s[i]).asset@),
        forall|k: Seq<char>|
            #[trigger] asset_map(s).contains_key(k) ==> exists|i: int|
                0 <= i < s.len() && (#[trigger] s[i]).asset@ == k,
    decreases s.len(),
{
    if s.len() > 0 {
        lemma_asset_map_domain(s.drop_last());
        assert forall|i: int| 0 <= i < s.len() implies asset_map(s).contains_key(
            (#[trigger] s[i]).asset@,
        ) by {
            if i < s.len() - 1 {
                assert(s.drop_last()[i] == s[i]);
            }
        }
        assert forall|k: Seq<char>| #[trigger] asset_map(s).contains_key(k) implies exists|i: int|
            0 <= i < s.len() && (#[trigger] s[i]).asset@ == k by {
            if k != s.last().asset@ {
                assert(asset_map(s.drop_last()).contains_key(k));
                let i = choose|i: int|
                    0 <= i < s.drop_last().len() && (#[trigger] s.drop_last()[i]).asset@ == k;
                assert(s.drop_last()[i] == s[i]);
                assert(s[i].asset@ == k);
            } else {
                assert(s[s.len() - 1].asset@ == k);
            }
        }
    }
}

/// With unique keys, entry `i` gives its key's value.
pub proof fn lemma_asset_map_index(s: Seq<AssetEntry>, i: int)
    requires
        assets_unique(s),
        0 <= i < s.len(),
    ensures
        asset_map(s).contains_key(s[i].asset@),
        asset_map(s)[s[i].asset@] == s[i].amount as int,
    decreases s.len(),
{
    lemma_asset_map_domain(s);
    if i < s.len() - 1 {
        assert(assets_unique(s.drop_last())) by {
            assert forall|a: int, b: int|
                0 <= a < b < s.drop_last().len() implies (#[trigger] s.drop_last()[a]).asset@ != (
            #[trigger] s.drop_last()[b]).asset@ by {
                assert(s.drop_last()[a] == s[a]);
                assert(s.drop_last()[b] == s[b]);
            }
        }
        assert(s.drop_last()[i] == s[i]);
        lemma_asset_map_index(s.drop_last(), i);
        assert(s[i].asset@ != s.last().asset@);
    }
}

/// Updating entry `i`'s amount updates just its key in the map.
pub proof fn lemma_asset_map_update(s: Seq<AssetEntry>, i: int, e: AssetEntry)
    requires
        assets_unique(s),
        0 <= i < s.len(),
        e.asset@ == s[i].asset@,
    ensures
        asset_map(s.update(i, e)) == asset_map(s).insert(e.asset@, e.amount as int),
        assets_unique(s.update(i, e)),
    decreases s.len(),
{
    let s1 = s.update(i, e);
    assert forall|a: int, b: int| 0 <= a < b < s1.len() implies (#[trigger] s1[a]).asset@ != (
    #[trigger] s1[b]).asset@ by {
        assert(s1[a].asset@ == s[a].asset@);
        assert(s1[b].asset@ == s[b].asset@);
    }
    if i == s.len() - 1 {
        assert(s1.drop_last() =~= s.drop_last());
        assert(asset_map(s1) =~= asset_map(s).insert(e.asset@, e.amount as int));
    } else {
        assert(assets_unique(s.drop_last())) by {
            assert forall|a: int, b: int|
                0 <= a < b < s.drop_last().len() implies (#[trigger] s.drop_last()[a]).asset@ != (
            #[trigger] s.drop_last()[b]).asset@ by {
                assert(s.drop_last()[a] == s[a]);
                assert(s.drop_last()[b] == s[b]);
            }
        }
        assert(s1.drop_last() =~= s.drop_last().update(i, e));
        assert(s.drop_last()[i] == s[i]);
        lemma_asset_map_update(s.drop_last(), i, e);
        assert(s1.last() == s.last());
        assert(s.last().asset@ != e.asset@);
        assert(asset_map(s1) == asset_map(s.drop_last()).insert(e.asset@, e.amount as int).insert(
            s.last().asset@,
            s.last().amount as int,
        ));
        assert(asset_map(s1) =~= asset_map(s).insert(e.asset@, e.amount as int));
    }
}

impl AssetBalances {
    /// Representation invariant: one entry per asset.
    pub open spec fn wf(&self) -> bool {
        assets_unique(self.entries@)
    }

    /// An empty balance table.
    pub fn new() -> (b: Self)
        ensures
            b@ == Map::<Seq<char>, int>::empty(),
            b.wf(),
    {
        let b = AssetBalances { entries: Vec::new() };
        proof {
            assert(b.entries@.len() == 0);
        }
        b
    }

    /// The position of `asset`'s entry, if any.
    fn find(&self, asset: &String) -> (r: Option<usize>)
        ensures
            ({
                match r {
                    Option::Some(i) => (i as int) < self.entries@.len()
                        && self.entries@[i as int].asset@ == asset@,
                    Option::None => forall|i: int|
                        0 <= i < self.entries@.len() ==> (#[trigger] self.entries@[i]).asset@
                            != asset@,
                }
            }),
    {
        let mut i: usize = 0;
        while i < self.entries.len()
            invariant
                i <= self.entries.len(),
                forall|j: int| 0 <= j < i as int ==> (#[trigger] self.entries@[j]).asset@ != asset@,
            decreases self.entries.len() - i,
        {
            if self.entries[i].asset == *asset {
                return Some(i);
            }
            i = i + 1;
        }
        None
    }

    /// The available entry for `asset`, if one exists.
    pub fn get(&self, asset: &String) -> (r: Option<u64>)
        requires
            self.wf(),
        ensures
            ({
                match r {
                    Option::Some(v) => self@.contains_key(asset@) && self@[asset@] == v as int,
                    Option::None => !self@.contains_key(asset@),
                }
            }),
    {
        let found = self.find(asset);
        match found {
            Some(i) => {
                proof {
                    lemma_asset_map_index(self.entries@, i as int);
                }
                Some(self.entries[i].amount)
            },
            None => {
                proof {
                    lemma_asset_map_domain(self.entries@);
                    if self@.contains_key(asset@) {
                        let i = choose|i: int|
                            0 <= i < self.entries@.len() && (#[trigger] self.entries@[i]).asset@
                                == asset@;
                    }
                }
                None
            },
        }
    }

    /// Add `amount` to `asset`'s balance, creating the entry if absent.
    pub fn credit(&mut self, asset: &String, amount: u64)
        requires
            old(self).wf(),
            bal_or0(old(self)@, asset@) + amount <= u64::MAX,
            bal_or0(old(self)@, asset@) >= 0,
        ensures
            final(self).wf(),
            final(self)@ == old(self)@.insert(asset@, bal_or0(old(self)@, asset@) + amount),
    {
        let ghost s0 = self.entries@;
        let found = self.find(asset);
        match found {
            Some(i) => {
                proof {
                    lemma_asset_map_index(s0, i as int);
                }
                let cur = self.entries[i].amount;
                let e = self.entries.remove(i);
                let e2 = AssetEntry { asset: e.asset, amount: cur + amount };
                self.entries.insert(i, e2);
                proof {
                    assert(self.entries@ =~= s0.update(i as int, self.entries@[i as int]));
                    lemma_asset_map_update(s0, i as int, self.entries@[i as int]);
                }
            },
            None => {
                self.entries.push(AssetEntry { asset: asset.clone(), amount });
                proof {
                    let s1 = self.entries@;
                    assert(s1.drop_last() =~= s0);
                    assert(s1.last().asset@ == asset@);
                    lemma_asset_map_domain(s0);
                    assert forall|a: int, b: int| 0 <= a < b < s1.len() implies (
                    #[trigger] s1[a]).asset@ != (#[trigger] s1[b]).asset@ by {
                        if b < s1.len() - 1 {
                            assert(s1[a] == s0[a]);
                            assert(s1[b] == s0[b]);
                        } else {
                            assert(s1[a] == s0[a]);
                        }
                    }
                }
            },
        }
    }

    /// Lower `asset`'s existing balance to `v`.
    fn set_existing(&mut self, asset: &String, v: u64)
        requires
            old(self).wf(),
            old(self)@.contains_key(asset@),
        ensures
            final(self).wf(),
            final(self)@ == old(self)@.insert(asset@, v as int),
    {
        let ghost s0 = self.entries@;
        let found = self.find(asset);
        match found {
            Some(i) => {
                let e = self.entries.remove(i);
                let e2 = AssetEntry { asset: e.asset, amount: v };
                self.entries.insert(i, e2);
                proof {
                    assert(self.entries@ =~= s0.update(i as int, self.entries@[i as int]));
                    lemma_asset_map_update(s0, i as int, self.entries@[i as int]);
                }
            },
            None => {
                proof {
                    lemma_asset_map_domain(s0);
                    let i = choose|i: int|
                        0 <= i < s0.len() && (#[trigger] s0[i]).asset@ == asset@;
                    assert(false);
                }
            },
        }
    }
}

/// One user's balances: what is immediately usable and what escrow holds.
pub struct UserBalance {
    pub available: AssetBalances,
    pub locked: AssetBalances,
}

impl View for UserBalance {
    type V = UserBalanceV;

    open spec fn view(&self) -> UserBalanceV {
        UserBalanceV { available: self.available@, locked: self.locked@ }
    }
}

impl UserBalance {
    /// Representation invariant of both tables.
    pub open spec fn wf(&self) -> bool {
        self.available.wf() && self.locked.wf()
    }

    /// A user record with no balances.
    pub fn new() -> (u: Self)
        ensures
            u@ == empty_user(),
            u.wf(),
    {
        UserBalance { available: AssetBalances::new(), locked: AssetBalances::new() }
    }
}

/// One user's row in the shared ledger.
pub struct UserEntry {
    pub user: String,
    pub balance: UserBalance,
}

/// The single shared table of user balances, keyed by user id.
pub struct Ledger {
    pub users: Vec<UserEntry>,
}

/// The map a user entry sequence stands for.
pub open spec fn user_map(s: Seq<UserEntry>) -> Map<Seq<char>, UserBalanceV>
    decreases s.len(),
{
    if s.len() == 0 {
        Map::empty()
    } else {
        user_map(s.drop_last()).insert(s.last().user@, s.last().balance@)
    }
}

/// No two entries share a user id.
pub open spec fn users_unique(s: Seq<UserEntry>) -> bool {
    forall|i: int, j: int| 0 <= i < j < s.len() ==> (#[trigger] s[i]).user@ != (#[trigger] s[j]).user@
}

impl View for Ledger {
    type V = Map<Seq<char>, UserBalanceV>;

    open spec fn view(&self) -> Map<Seq<char>, UserBalanceV> {
        user_map(self.users@)
    }
}

/// The map's domain is exactly the entries' keys.
pub proof fn lemma_user_map_domain(s: Seq<UserEntry>)
    ensures
        forall|i: int| 0 <= i < s.len() ==> user_map(s).contains_key((#[trigger] s[i]).user@),
        forall|k: Seq<char>|
            #[trigger] user_map(s).contains_key(k) ==> exists|i: int|
                0 <= i < s.len() && (#[trigger] s[i]).user@ == k,
    decreases s.len(),
{
    if s.len() > 0 {
        lemma_user_map_domain(s.drop_last());
        assert forall|i: int| 0 <= i < s.len() implies user_map(s).contains_key(
            (#[trigger] s[i]).user@,
        ) by {
            if i < s.len() - 1 {
                assert(s.drop_last()[i] == s[i]);
            }
        }
        assert forall|k: Seq<char>| #[trigger] user_map(s).contains_key(k) implies exists|i: int|
            0 <= i < s.len() && (#[trigger] s[i]).user@ == k by {
            if k != s.last().user@ {
                assert(user_map(s.drop_last()).contains_key(k));
                let i = choose|i: int|
                    0 <= i < s.drop_last().len() && (#[trigger] s.drop_last()[i]).user@ == k;
                assert(s.drop_last()[i] == s[i]);
                assert(s[i].user@ == k);
            } else {
                assert(s[s.len() - 1].user@ == k);
            }
        }
    }
}

/// With unique keys, entry `i` gives its key's value.
pub proof fn lemma_user_map_index(s: Seq<UserEntry>, i: int)
    requires
        users_unique(s),
        0 <= i < s.len(),
    ensures
        user_map(s).contains_key(s[i].user@),
        user_map(s)[s[i].user@] == s[i].balance@,
    decreases s.len(),
{
    lemma_user_map_domain(s);
    if i < s.len() - 1 {
        assert(users_unique(s.drop_last())) by {
            assert forall|a: int, b: int|
                0 <= a < b < s.drop_last().len() implies (#[trigger] s.drop_last()[a]).user@ != (
            #[trigger] s.drop_last()[b]).user@ by {
                assert(s.drop_last()[a] == s[a]);
                assert(s.drop_last()[b] == s[b]);
            }
        }
        assert(s.drop_last()[i] == s[i]);
        lemma_user_map_index(s.drop_last(), i);
        assert(s[i].user@ != s.last().user@);
    }
}

/// Updating entry `i`'s balance updates just its key in the map.
pub proof fn lemma_user_map_update(s: Seq<UserEntry>, i: int, e: UserEntry)
    requires
        users_unique(s),
        0 <= i < s.len(),
        e.user@ == s[i].user@,
    ensures
        user_map(s.update(i, e)) == user_map(s).insert(e.user@, e.balance@),
        users_unique(s.update(i, e)),
    decreases s.len(),
{
    let s1 = s.update(i, e);
    assert forall|a: int, b: int| 0 <= a < b < s1.len() implies (#[trigger] s1[a]).user@ != (
    #[trigger] s1[b]).user@ by {
        assert(s1[a].user@ == s[a].user@);
        assert(s1[b].user@ == s[b].user@);
    }
    if i == s.len() - 1 {
        assert(s1.drop_last() =~= s.drop_last());
        assert(user_map(s1) =~= user_map(s).insert(e.user@, e.balance@));
    } else {
        assert(users_unique(s.drop_last())) by {
            assert forall|a: int, b: int|
                0 <= a < b < s.drop_last().len() implies (#[trigger] s.drop_last()[a]).user@ != (
            #[trigger] s.drop_last()[b]).user@ by {
                assert(s.drop_last()[a] == s[a]);
                assert(s.drop_last()[b] == s[b]);
            }
        }
        assert(s1.drop_last() =~= s.drop_last().update(i, e));
        assert(s.drop_last()[i] == s[i]);
        lemma_user_map_update(s.drop_last(), i, e);
        assert(s1.last() == s.last());
        assert(s.last().user@ != e.user@);
        assert(user_map(s1) == user_map(s.drop_last()).insert(e.user@, e.balance@).insert(
            s.last().user@,
            s.last().balance@,
        ));
        assert(user_map(s1) =~= user_map(s).insert(e.user@, e.balance@));
    }
}

impl Ledger {
    /// Ledger invariant: unique users, well-formed balance tables, and
    /// every user/asset's available and locked amounts non-negative with a
    /// representable sum.
    pub open spec fn wf(&self) -> bool {
        &&& users_unique(self.users@)
        &&& forall|i: int| 0 <= i < self.users@.len() ==> (#[trigger] self.users@[i]).balance.wf()
        &&& sums_ok(self@)
    }

    /// An empty ledger.
    pub fn new() -> (l: Self)
        ensures
            l@ == Map::<Seq<char>, UserBalanceV>::empty(),
            l.wf(),
    {
        let l = Ledger { users: Vec::new() };
        proof {
            assert(l.users@.len() == 0);
            assert(l@ =~= Map::<Seq<char>, UserBalanceV>::empty());
        }
        l
    }

    /// The position of `user`'s entry, if any.
    fn find_user(&self, user: &String) -> (r: Option<usize>)
        ensures
            ({
                match r {
                    Option::Some(i) => (i as int) < self.users@.len() && self.users@[i as int].user@
                        == user@,
                    Option::None => forall|i: int|
                        0 <= i < self.users@.len() ==> (#[trigger] self.users@[i]).user@ != user@,
                }
            }),
    {
        let mut i: usize = 0;
        while i < self.users.len()
            invariant
                i <= self.users.len(),
                forall|j: int| 0 <= j < i as int ==> (#[trigger] self.users@[j]).user@ != user@,
            decreases self.users.len() - i,
        {
            if self.users[i].user == *user {
                return Some(i);
            }
            i = i + 1;
        }
        None
    }

    /// The position of `user`'s entry, creating an empty record if absent.
    fn ensure_user(&mut self, user: &String) -> (i: usize)
        requires
            old(self).wf(),
        ensures
            final(self).wf(),
            (i as int) < final(self).users@.len(),
            final(self).users@[i as int].user@ == user@,
            final(self)@ == (if old(self)@.contains_key(user@) {
                old(self)@
            } else {
                old(self)@.insert(user@, empty_user())
            }),
            final(self)@.contains_key(user@),
            final(self)@[user@] == final(self).users@[i as int].balance@,
    {
        let ghost s0 = self.users@;
        let ghost l0 = self@;
        let found = self.find_user(user);
        match found {
            Some(i) => {
                proof {
                    lemma_user_map_index(s0, i as int);
                }
                i
            },
            None => {
                proof {
                    lemma_user_map_domain(s0);
                    if l0.contains_key(user@) {
                        let i = choose|i: int|
                            0 <= i < s0.len() && (#[trigger] s0[i]).user@ == user@;
                        assert(false);
                    }
                }
                self.users.push(UserEntry { user: user.clone(), balance: UserBalance::new() });
                proof {
                    let s1 = self.users@;
                    assert(s1.drop_last() =~= s0);
                    assert(s1.last().user@ == user@);
                    assert forall|a: int, b: int| 0 <= a < b < s1.len() implies (
                    #[trigger] s1[a]).user@ != (#[trigger] s1[b]).user@ by {
                        if b < s1.len() - 1 {
                            assert(s1[a] == s0[a]);
                            assert(s1[b] == s0[b]);
                        } else {
                            assert(s1[a] == s0[a]);
                        }
                    }
                    assert forall|i2: int|
                        0 <= i2 < s1.len() implies (#[trigger] s1[i2]).balance.wf() by {
                        if i2 < s1.len() - 1 {
                            assert(s1[i2] == s0[i2]);
                        }
                    }
                    // sums still hold: the new user has no balances
                    assert forall|u: Seq<char>, a: Seq<char>|
                        {
                            &&& 0 <= #[trigger] avail_of(self@, u, a)
                            &&& 0 <= locked_of(self@, u, a)
                            &&& avail_of(self@, u, a) + locked_of(self@, u, a) <= u64::MAX
                        } by {
                        if u == user@ {
                            assert(avail_of(self@, u, a) == 0);
                            assert(locked_of(self@, u, a) == 0);
                        } else {
                            assert(avail_of(self@, u, a) == avail_of(l0, u, a));
                            assert(locked_of(self@, u, a) == locked_of(l0, u, a));
                        }
                    }
                    lemma_user_map_index(s1, s1.len() - 1);
                }
                self.users.len() - 1
            },
        }
    }

    /// Credit `amount` to the user's available balance of `asset`,
    /// creating the user and/or asset entry if absent. The bound keeps the
    /// stored sum representable; within it a deposit always succeeds.
    pub fn add_balance(&mut self, user_id: String, asset: String, amount: u64)
        requires
            old(self).wf(),
            avail_of(old(self)@, user_id@, asset@) + locked_of(old(self)@, user_id@, asset@)
                + amount <= u64::MAX,
        ensures
            final(self).wf(),
            final(self)@ == spec_credit(old(self)@, user_id@, asset@, amount as int),
    {
        let ghost l0 = self@;
        let i = self.ensure_user(&user_id);
        let ghost s1 = self.users@;
        let ghost l1 = self@;
        proof {
            assert(bal_or0(l1[user_id@].available, asset@) == avail_of(l1, user_id@, asset@));
            assert(avail_of(l1, user_id@, asset@) + locked_of(l1, user_id@, asset@)
                == avail_of(l0, user_id@, asset@) + locked_of(l0, user_id@, asset@));
        }
        let mut entry = self.users.remove(i);
        entry.balance.available.credit(&asset, amount);
        self.users.insert(i, entry);
        proof {
            let s2 = self.users@;
            assert(s2 =~= s1.update(i as int, s2[i as int]));
            assert(s2[i as int].user@ == user_id@);
            lemma_user_map_update(s1, i as int, s2[i as int]);
            assert(self@ == spec_credit(l0, user_id@, asset@, amount as int)) by {
                assert(s2[i as int].balance@ == (UserBalanceV {
                    available: l1[user_id@].available.insert(
                        asset@,
                        bal_or0(l1[user_id@].available, asset@) + amount,
                    ),
                    locked: l1[user_id@].locked,
                }));
            }
            assert forall|i2: int| 0 <= i2 < s2.len() implies (#[trigger] s2[i2]).balance.wf() by {
                if i2 != i as int {
                    assert(s2[i2] == s1[i2]);
                }
            }
            // the sums stay representable: only this user/asset grew, and
            // the growth was bounded by the caller
            assert forall|u: Seq<char>, a: Seq<char>|
                {
                    &&& 0 <= #[trigger] avail_of(self@, u, a)
                    &&& 0 <= locked_of(self@, u, a)
                    &&& avail_of(self@, u, a) + locked_of(self@, u, a) <= u64::MAX
                } by {
                if u == user_id@ {
                    assert(locked_of(self@, u, a) == locked_of(l1, u, a));
                    if a == asset@ {
                        assert(avail_of(self@, u, a) == avail_of(l1, u, a) + amount);
                    } else {
                        assert(avail_of(self@, u, a) == avail_of(l1, u, a));
                    }
                } else {
                    assert(avail_of(self@, u, a) == avail_of(l1, u, a));
                    assert(locked_of(self@, u, a) == locked_of(l1, u, a));
                }
            }
        }
    }

    /// Escrow the funds an order needs, as [`spec_lock`] describes: all or
    /// nothing, available to locked, and the sole admission gate. Returns
    /// whether the funds were locked.
    pub fn lock_funds(&mut self, order: &Order, base_asset: &String) -> (ok: bool)
        requires
            old(self).wf(),
            order@.side == Side::Buy ==> order@.price * order@.quantity <= u64::MAX,
        ensures
            final(self).wf(),
            ({
                let lr = spec_lock(
                    old(self)@,
                    order@.user_id,
                    escrow_asset(order@, base_asset@),
                    escrow_amount(order@),
                );
                ok == lr.0 && final(self)@ == lr.1
            }),
    {
        let ghost l0 = self@;
        let required: u64 = if order.side == Side::Buy {
            order.price * order.quantity
        } else {
            order.quantity
        };
        let asset_name: String = if order.side == Side::Buy {
            "USDT".to_owned()
        } else {
            base_asset.clone()
        };
        let ghost asset = escrow_asset(order@, base_asset@);
        proof {
            assert(asset_name@ == asset);
            assert(required as int == escrow_amount(order@));
        }
        let i = self.ensure_user(&order.user_id);
        let ghost s1 = self.users@;
        let ghost l1 = self@;
        let ghost user = order@.user_id;
        let mut entry = self.users.remove(i);
        let got = entry.balance.available.get(&asset_name);
        let sufficient = match got {
            Some(a) => a >= required,
            None => false,
        };
        if sufficient {
            let avail = match got {
                Some(a) => a,
                None => 0,
            };
            proof {
                assert(l1[user].available.contains_key(asset));
                assert(avail as int == l1[user].available[asset]);
                assert(bal_or0(l1[user].available, asset) == avail as int);
                assert(avail_of(l1, user, asset) == avail as int);
                assert(locked_of(l1, user, asset) == bal_or0(l1[user].locked, asset));
                assert(avail_of(l1, user, asset) + locked_of(l1, user, asset) <= u64::MAX);
            }
            entry.balance.available.set_existing(&asset_name, avail - required);
            entry.balance.locked.credit(&asset_name, required);
            self.users.insert(i, entry);
            proof {
                let s2 = self.users@;
                assert(s2 =~= s1.update(i as int, s2[i as int]));
                assert(s2[i as int].user@ == user);
                lemma_user_map_update(s1, i as int, s2[i as int]);
                assert(self@ == spec_lock(l0, user, asset, required as int).1) by {
                    assert(s2[i as int].balance@ == (UserBalanceV {
                        available: l1[user].available.insert(
                            asset,
                            l1[user].available[asset] - required,
                        ),
                        locked: l1[user].locked.insert(
                            asset,
                            bal_or0(l1[user].locked, asset) + required,
                        ),
                    }));
                }
                assert forall|i2: int|
                    0 <= i2 < s2.len() implies (#[trigger] s2[i2]).balance.wf() by {
                    if i2 != i as int {
                        assert(s2[i2] == s1[i2]);
                    }
                }
                // escrow conserves each sum, so the bounds survive
                assert forall|u: Seq<char>, a: Seq<char>|
                    {
                        &&& 0 <= #[trigger] avail_of(self@, u, a)
                        &&& 0 <= locked_of(self@, u, a)
                        &&& avail_of(self@, u, a) + locked_of(self@, u, a) <= u64::MAX
                    } by {
                    if u == user && a == asset {
                        assert(avail_of(self@, u, a) == avail_of(l1, u, a) - required);
                        assert(locked_of(self@, u, a) == locked_of(l1, u, a) + required);
                    } else if u == user {
                        assert(avail_of(self@, u, a) == avail_of(l1, u, a));
                        assert(locked_of(self@, u, a) == locked_of(l1, u, a));
                    } else {
                        assert(avail_of(self@, u, a) == avail_of(l1, u, a));
                        assert(locked_of(self@, u, a) == locked_of(l1, u, a));
                    }
                }
            }
            true
        } else {
            self.users.insert(i, entry);
            proof {
                let s2 = self.users@;
                assert(s2 =~= s1.update(i as int, s2[i as int]));
                assert(s2[i as int] == s1[i as int]);
                assert(s2 =~= s1);
                assert(self@ == l1);
            }
            false
        }
    }

    /// The user's available balance of `asset` (0 where no entry exists).
    pub fn available_balance(&self, user: &String, asset: &String) -> (v: u64)
        requires
            self.wf(),
        ensures
            v as int == avail_of(self@, user@, asset@),
    {
        let found = self.find_user(user);
        match found {
            Some(i) => {
                proof {
                    lemma_user_map_index(self.users@, i as int);
                }
                match self.users[i].balance.available.get(asset) {
                    Some(v) => v,
                    None => 0,
                }
            },
            None => {
                proof {
                    lemma_user_map_domain(self.users@);
                    if self@.contains_key(user@) {
                        let i = choose|i: int|
                            0 <= i < self.users@.len() && (#[trigger] self.users@[i]).user@
                                == user@;
                        assert(false);
                    }
                }
                0
            },
        }
    }

    /// The user's locked balance of `asset` (0 where no entry exists).
    pub fn locked_balance(&self, user: &String, asset: &String) -> (v: u64)
        requires
            self.wf(),
        ensures
            v as int == locked_of(self@, user@, asset@),
    {
        let found = self.find_user(user);
        match found {
            Some(i) => {
                proof {
                    lemma_user_map_index(self.users@, i as int);
                }
                match self.users[i].balance.locked.get(asset) {
                    Some(v) => v,
                    None => 0,
                }
            },
            None => {
                proof {
                    lemma_user_map_domain(self.users@);
                    if self@.contains_key(user@) {
                        let i = choose|i: int|
                            0 <= i < self.users@.len() && (#[trigger] self.users@[i]).user@
                                == user@;
                        assert(false);
                    }
                }
                0
            },
        }
    }
}

} // verus!
