//! The share-weighted, multi-currency reward pool.
//!
//! Each account holds a share amount and, per reward currency, a
//! withdrawn-reward baseline: the part of the pool's rewards already
//! attributed to it. An account's entitlement in a currency is its
//! proportional part of the pool's total reward, less its baseline, so no
//! event has to visit every account.
use crate::arith::{mul_div, mul_div_spec};
use crate::balances::CurrencyBalances;
use crate::sums::{lemma_share_le_sum, lemma_share_sum_insert, lemma_share_sum_remove_any, sum_shares};
use crate::types::{AccountId, Error};
use crate::{Balance, FungibleTokenId};
use std::collections::BTreeMap;
use vstd::prelude::*;

verus! {

broadcast use vstd::std_specs::btree::group_btree_axioms, vstd::laws_cmp::group_laws_cmp;

/// Pool-side totals of one reward currency.
#[derive(Clone, Copy, Debug, PartialEq, Eq, Structural)]
pub struct RewardInfo {
    pub currency: FungibleTokenId,
    /// Reward issued to date.
    pub total_reward: Balance,
    /// Reward attributed to accounts to date.
    pub total_withdrawn_reward: Balance,
}

/// The pool record: total shares and the totals of each reward currency.
#[derive(Clone, Debug, PartialEq, Eq)]
pub struct InnovationStakingPoolInfo {
    pub total_shares: Balance,
    pub rewards: Vec<RewardInfo>,
}

impl Default for InnovationStakingPoolInfo {
    /// A pool record with no shares and no reward currency.
    fn default() -> (r: InnovationStakingPoolInfo)
        ensures
            r.total_shares == 0,
            r.rewards@.len() == 0,
    {
        InnovationStakingPoolInfo { total_shares: 0, rewards: Vec::new() }
    }
}

/// An account's share amount and withdrawn-reward baselines.
#[derive(Clone, Debug, PartialEq, Eq)]
pub struct ShareRecord {
    pub share: Balance,
    pub withdrawn_rewards: CurrencyBalances,
}

/// The pool, the share records and the realized-but-unpaid rewards.
#[derive(Clone)]
pub struct RewardPool {
    /// Absent until shares are first added, and again once none are left.
    pub pool_info: Option<InnovationStakingPoolInfo>,
    pub shares: BTreeMap<AccountId, ShareRecord>,
    pub pending_rewards: BTreeMap<AccountId, CurrencyBalances>,
}

/// Abstract pool record.
pub struct PoolInfoModel {
    pub total_shares: Balance,
    pub rewards: Seq<RewardInfo>,
}

/// Abstract share record.
pub struct ShareModel {
    pub share: Balance,
    pub withdrawn: Map<FungibleTokenId, Balance>,
}

/// Abstract state of the reward pool.
pub struct RewardPoolModel {
    pub pool: Option<PoolInfoModel>,
    pub shares: Map<AccountId, ShareModel>,
    pub pending: Map<AccountId, Map<FungibleTokenId, Balance>>,
}

pub open spec fn amount_in(m: Map<FungibleTokenId, Balance>, c: FungibleTokenId) -> int {
    if m.contains_key(c) {
        m[c] as int
    } else {
        0
    }
}

pub open spec fn total_shares_of(p: Option<PoolInfoModel>) -> int {
    match p {
        Some(i) => i.total_shares as int,
        None => 0,
    }
}

pub open spec fn rewards_of(p: Option<PoolInfoModel>) -> Seq<RewardInfo> {
    match p {
        Some(i) => i.rewards,
        None => Seq::empty(),
    }
}

pub open spec fn share_of(m: RewardPoolModel, who: AccountId) -> int {
    if m.shares.contains_key(who) {
        m.shares[who].share as int
    } else {
        0
    }
}

pub open spec fn withdrawn_of(m: RewardPoolModel, who: AccountId) -> Map<FungibleTokenId, Balance> {
    if m.shares.contains_key(who) {
        m.shares[who].withdrawn
    } else {
        Map::empty()
    }
}

pub open spec fn pending_of(m: RewardPoolModel, who: AccountId) -> Map<FungibleTokenId, Balance> {
    if m.pending.contains_key(who) {
        m.pending[who]
    } else {
        Map::empty()
    }
}

/// Whether currency `c` has an entry among the first `n` of `rs`.
pub open spec fn listed_before(rs: Seq<RewardInfo>, c: FungibleTokenId, n: int) -> bool {
    exists|j: int| 0 <= j < n && j < rs.len() && #[trigger] rs[j].currency == c
}

pub open spec fn listed(rs: Seq<RewardInfo>, c: FungibleTokenId) -> bool {
    listed_before(rs, c, rs.len() as int)
}

/// Position of currency `c` in `rs`.
pub open spec fn position(rs: Seq<RewardInfo>, c: FungibleTokenId) -> int {
    choose|j: int| 0 <= j < rs.len() && #[trigger] rs[j].currency == c
}

pub open spec fn currencies_distinct(rs: Seq<RewardInfo>) -> bool {
    forall|i: int, j: int|
        0 <= i < rs.len() && 0 <= j < rs.len() && i != j ==> #[trigger] rs[i].currency
            != #[trigger] rs[j].currency
}

/// Withdrawn never exceeds issued, and an entry with nothing issued is pruned.
pub open spec fn rewards_sound(rs: Seq<RewardInfo>) -> bool {
    forall|i: int|
        0 <= i < rs.len() ==> #[trigger] rs[i].total_withdrawn_reward <= rs[i].total_reward
            && rs[i].total_reward > 0
}

/// Invariants of the pool: consistent currencies, withdrawn never above
/// issued, share amounts that add up to the pool's total.
pub open spec fn model_wf(m: RewardPoolModel) -> bool {
    &&& m.shares.dom().finite()
    &&& forall|a: AccountId| #[trigger] m.shares.contains_key(a) ==> m.shares[a].share > 0
    &&& sum_shares(m.shares) == total_shares_of(m.pool)
    &&& match m.pool {
        Some(p) => {
            &&& p.total_shares > 0
            &&& currencies_distinct(p.rewards)
            &&& rewards_sound(p.rewards)
        },
        None => true,
    }
}

// ---------------------------------------------------------------- add_share

/// Reward inflation for currency entry `e` when `a` shares join `prev` shares.
pub open spec fn inflation(prev: int, a: int, e: RewardInfo) -> int {
    if prev == 0 {
        0
    } else {
        mul_div_spec(a, e.total_reward as int, prev)
    }
}

pub open spec fn inflate(prev: int, a: int, e: RewardInfo) -> RewardInfo {
    RewardInfo {
        currency: e.currency,
        total_reward: (e.total_reward + inflation(prev, a, e)) as u128,
        total_withdrawn_reward: (e.total_withdrawn_reward + inflation(prev, a, e)) as u128,
    }
}

/// The account's baselines after the inflation of the first `n` entries of `rs`.
pub open spec fn inflated_withdrawn(
    w: Map<FungibleTokenId, Balance>,
    rs: Seq<RewardInfo>,
    prev: int,
    a: int,
    n: int,
) -> Map<FungibleTokenId, Balance> {
    Map::new(
        |c: FungibleTokenId| w.contains_key(c) || listed_before(rs, c, n),
        |c: FungibleTokenId|
            if listed_before(rs, c, n) {
                (amount_in(w, c) + inflation(prev, a, rs[position(rs, c)])) as u128
            } else {
                w[c]
            },
    )
}

/// Whether adding `a` shares for `who` leaves the range of a balance.
pub open spec fn add_share_overflows(m: RewardPoolModel, who: AccountId, a: int) -> bool {
    let prev = total_shares_of(m.pool);
    let rs = rewards_of(m.pool);
    let w = withdrawn_of(m, who);
    ||| prev + a > u128::MAX
    ||| share_of(m, who) + a > u128::MAX
    ||| exists|i: int|
        0 <= i < rs.len() && (#[trigger] rs[i].total_reward + inflation(prev, a, rs[i])
            > u128::MAX || amount_in(w, rs[i].currency) + inflation(prev, a, rs[i]) > u128::MAX)
}

/// The pool after `who` adds `a` shares: every currency's totals grow by the
/// inflation, and so does the account's baseline, so that rewards issued
/// before the account joined are not claimable by it.
pub open spec fn add_share_model(m: RewardPoolModel, who: AccountId, a: int) -> RewardPoolModel {
    if a == 0 {
        m
    } else {
        let prev = total_shares_of(m.pool);
        let rs = rewards_of(m.pool);
        RewardPoolModel {
            pool: Some(
                PoolInfoModel {
                    total_shares: (prev + a) as u128,
                    rewards: rs.map_values(|e: RewardInfo| inflate(prev, a, e)),
                },
            ),
            shares: m.shares.insert(
                who,
                ShareModel {
                    share: (share_of(m, who) + a) as u128,
                    withdrawn: inflated_withdrawn(withdrawn_of(m, who), rs, prev, a, rs.len() as int),
                },
            ),
            pending: m.pending,
        }
    }
}


// ------------------------------------------------------------ claim_rewards

/// Reward of one currency that an account with `share` of `total_shares`
/// and baseline `w` can claim from entry `e`: its proportional part less
/// what it already has, capped at what the pool still holds unattributed.
pub open spec fn claim_amount(share: int, total_shares: int, e: RewardInfo, w: int) -> int {
    reward_to_withdraw_spec(share, e.total_reward as int, total_shares, w, e.total_withdrawn_reward as int)
}

pub open spec fn reward_to_withdraw_spec(
    share: int,
    total_reward: int,
    total_shares: int,
    withdrawn_reward: int,
    total_withdrawn_reward: int,
) -> int {
    let proportion = mul_div_spec(share, total_reward, total_shares);
    let owed = if proportion > withdrawn_reward { proportion - withdrawn_reward } else { 0 };
    let left = if total_reward >= total_withdrawn_reward { total_reward - total_withdrawn_reward } else { 0 };
    if owed < left { owed } else { left }
}

/// Reward an account with `share` of `total_shares` and baseline
/// `withdrawn_reward` can claim from a currency with `total_reward` issued
/// and `total_withdrawn_reward` attributed.
pub fn reward_to_withdraw(
    share: Balance,
    total_reward: Balance,
    total_shares: Balance,
    withdrawn_reward: Balance,
    total_withdrawn_reward: Balance,
) -> (r: Balance)
    ensures
        r == reward_to_withdraw_spec(
            share as int,
            total_reward as int,
            total_shares as int,
            withdrawn_reward as int,
            total_withdrawn_reward as int,
        ),
{
    let proportion = mul_div(share, total_reward, total_shares);
    let owed: Balance = if proportion > withdrawn_reward { proportion - withdrawn_reward } else { 0 };
    let left: Balance = if total_reward >= total_withdrawn_reward { total_reward - total_withdrawn_reward } else { 0 };
    if owed < left { owed } else { left }
}

/// What `who` receives in currency `c` from claiming in state `m`.
pub open spec fn claim_of(m: RewardPoolModel, who: AccountId, c: FungibleTokenId) -> int {
    let rs = rewards_of(m.pool);
    if m.shares.contains_key(who) && m.pool is Some && listed(rs, c) {
        claim_amount(
            share_of(m, who),
            total_shares_of(m.pool),
            rs[position(rs, c)],
            amount_in(withdrawn_of(m, who), c),
        )
    } else {
        0
    }
}

pub open spec fn saturating_add_spec(a: int, b: int) -> int {
    if a + b > u128::MAX { u128::MAX as int } else { a + b }
}

pub open spec fn claimed_entry(m: RewardPoolModel, who: AccountId, e: RewardInfo) -> RewardInfo {
    RewardInfo {
        currency: e.currency,
        total_reward: e.total_reward,
        total_withdrawn_reward: (e.total_withdrawn_reward + claim_of(m, who, e.currency)) as u128,
    }
}

/// The pool after `who` claims: each currency's realized reward moves to the
/// account's baseline, to the pool's withdrawn total and to the account's
/// pending rewards.
pub open spec fn claim_model(m: RewardPoolModel, who: AccountId) -> RewardPoolModel {
    if !m.shares.contains_key(who) || m.pool is None {
        m
    } else {
        let w = withdrawn_of(m, who);
        let p = pending_of(m, who);
        let paid = exists|c: FungibleTokenId| #[trigger] claim_of(m, who, c) > 0;
        RewardPoolModel {
            pool: Some(
                PoolInfoModel {
                    total_shares: total_shares_of(m.pool) as u128,
                    rewards: rewards_of(m.pool).map_values(|e: RewardInfo| claimed_entry(m, who, e)),
                },
            ),
            shares: m.shares.insert(
                who,
                ShareModel {
                    share: share_of(m, who) as u128,
                    withdrawn: Map::new(
                        |c: FungibleTokenId| w.contains_key(c) || claim_of(m, who, c) > 0,
                        |c: FungibleTokenId|
                            if claim_of(m, who, c) > 0 {
                                (amount_in(w, c) + claim_of(m, who, c)) as u128
                            } else {
                                w[c]
                            },
                    ),
                },
            ),
            pending: if m.pending.contains_key(who) || paid {
                m.pending.insert(
                    who,
                    Map::new(
                        |c: FungibleTokenId| p.contains_key(c) || claim_of(m, who, c) > 0,
                        |c: FungibleTokenId|
                            if claim_of(m, who, c) > 0 {
                                saturating_add_spec(amount_in(p, c), claim_of(m, who, c)) as u128
                            } else {
                                p[c]
                            },
                    ),
                )
            } else {
                m.pending
            },
        }
    }
}


// -------------------------------------------------------- accumulate_reward

/// The pool after `inc` more reward is issued in currency `c`.
pub open spec fn accumulate_model(m: RewardPoolModel, c: FungibleTokenId, inc: int) -> RewardPoolModel {
    let rs = rewards_of(m.pool);
    if inc == 0 || m.pool is None {
        m
    } else {
        RewardPoolModel {
            pool: Some(
                PoolInfoModel {
                    total_shares: total_shares_of(m.pool) as u128,
                    rewards: if listed(rs, c) {
                        rs.update(
                            position(rs, c),
                            RewardInfo {
                                currency: c,
                                total_reward: (rs[position(rs, c)].total_reward + inc) as u128,
                                total_withdrawn_reward: rs[position(rs, c)].total_withdrawn_reward,
                            },
                        )
                    } else {
                        rs.push(RewardInfo { currency: c, total_reward: inc as u128, total_withdrawn_reward: 0 })
                    },
                },
            ),
            ..m
        }
    }
}

/// Why issuing `inc` of currency `c` fails, if it does.
pub open spec fn accumulate_error(m: RewardPoolModel, c: FungibleTokenId, inc: int) -> Option<Error> {
    let rs = rewards_of(m.pool);
    if inc == 0 {
        None
    } else if m.pool is None {
        Some(Error::RewardPoolDoesNotExist)
    } else if listed(rs, c) && rs[position(rs, c)].total_reward + inc > u128::MAX {
        Some(Error::ArithmeticOverflow)
    } else {
        None
    }
}


// ------------------------------------------------------------- remove_share

pub open spec fn saturating_sub_spec(a: int, b: int) -> int {
    if a >= b { a - b } else { 0 }
}

/// Part of a baseline `v` that leaves together with `x` of `share` shares.
pub open spec fn leaving_part(x: int, v: int, share: int) -> int {
    mul_div_spec(x, v, share)
}

/// Entry `e` once the leaving part of the account's baseline `w` in its
/// currency is taken out of both pool totals.
pub open spec fn reduced_entry(w: Map<FungibleTokenId, Balance>, x: int, share: int, e: RewardInfo) -> RewardInfo {
    if w.contains_key(e.currency) {
        let d = leaving_part(x, w[e.currency] as int, share);
        RewardInfo {
            currency: e.currency,
            total_reward: saturating_sub_spec(e.total_reward as int, d) as u128,
            total_withdrawn_reward: saturating_sub_spec(e.total_withdrawn_reward as int, d) as u128,
        }
    } else {
        e
    }
}

/// The entries of `rs` that still hold issued reward, in order.
pub open spec fn prune(rs: Seq<RewardInfo>) -> Seq<RewardInfo>
    decreases rs.len(),
{
    if rs.len() == 0 {
        rs
    } else if rs.last().total_reward > 0 {
        prune(rs.drop_last()).push(rs.last())
    } else {
        prune(rs.drop_last())
    }
}

/// Takes `amount` shares (at most all of them) from `who` once its rewards
/// are settled; a record or pool left with nothing is deleted.
pub open spec fn settle_model(m: RewardPoolModel, who: AccountId, amount: int) -> RewardPoolModel {
    if !m.shares.contains_key(who) || m.pool is None {
        m
    } else {
        let s = share_of(m, who);
        let x = if amount < s { amount } else { s };
        let w = withdrawn_of(m, who);
        let total = saturating_sub_spec(total_shares_of(m.pool), x);
        RewardPoolModel {
            pool: if total == 0 {
                None
            } else {
                Some(
                    PoolInfoModel {
                        total_shares: total as u128,
                        rewards: prune(rewards_of(m.pool).map_values(|e: RewardInfo| reduced_entry(w, x, s, e))),
                    },
                )
            },
            shares: if s - x == 0 {
                m.shares.remove(who)
            } else {
                m.shares.insert(
                    who,
                    ShareModel {
                        share: (s - x) as u128,
                        withdrawn: w.map_values(|v: Balance| (v - leaving_part(x, v as int, s)) as u128),
                    },
                )
            },
            pending: m.pending,
        }
    }
}

/// The pool after `who` removes `amount` shares: rewards are claimed first,
/// then the shares leave with their part of the baselines.
pub open spec fn remove_share_model(m: RewardPoolModel, who: AccountId, amount: int) -> RewardPoolModel {
    if amount == 0 {
        m
    } else {
        settle_model(claim_model(m, who), who, amount)
    }
}

pub proof fn lemma_leaving_part_le(x: int, v: int, share: int)
    requires
        0 <= x <= share,
        0 < share,
        0 <= v <= u128::MAX,
    ensures
        0 <= leaving_part(x, v, share) <= v,
{
    assert(x * v <= share * v) by (nonlinear_arith)
        requires
            0 <= x <= share,
            0 <= v,
    ;
    assert(x * v / share <= v) by (nonlinear_arith)
        requires
            x * v <= share * v,
            0 < share,
            0 <= x * v,
    ;
    assert(0 <= x * v / share) by (nonlinear_arith)
        requires
            0 < share,
            0 <= x,
            0 <= v,
    ;
}

pub proof fn lemma_prune(rs: Seq<RewardInfo>)
    ensures
        forall|i: int| 0 <= i < prune(rs).len() ==> (#[trigger] prune(rs)[i]).total_reward > 0,
        forall|i: int| 0 <= i < prune(rs).len() ==> exists|j: int| 0 <= j < rs.len() && rs[j] == #[trigger] prune(rs)[i],
        currencies_distinct(rs) ==> currencies_distinct(prune(rs)),
    decreases rs.len(),
{
    if rs.len() > 0 {
        let rest = rs.drop_last();
        lemma_prune(rest);
        let p = prune(rs);
        assert forall|i: int| 0 <= i < p.len() implies exists|j: int| 0 <= j < rs.len() && rs[j] == #[trigger] p[i] by {
            if i < prune(rest).len() {
                let j = choose|j: int| 0 <= j < rest.len() && rest[j] == prune(rest)[i];
                assert(rs[j] == p[i]);
            } else {
                assert(rs[rs.len() - 1] == p[i]);
            }
        }
        if currencies_distinct(rs) {
            assert(currencies_distinct(rest));
            if rs.last().total_reward > 0 {
                assert forall|i: int, j: int|
                    0 <= i < p.len() && 0 <= j < p.len() && i != j implies #[trigger] p[i].currency
                        != #[trigger] p[j].currency by {
                    let n = prune(rest).len();
                    if i < n && j < n {
                    } else if i < n {
                        let k = choose|k: int| 0 <= k < rest.len() && rest[k] == prune(rest)[i];
                        assert(rs[k] == p[i]);
                        assert(rs[rs.len() - 1] == p[j]);
                    } else if j < n {
                        let k = choose|k: int| 0 <= k < rest.len() && rest[k] == prune(rest)[j];
                        assert(rs[k] == p[j]);
                        assert(rs[rs.len() - 1] == p[i]);
                    }
                }
            }
        }
    }
}


// ----------------------------------------------------------------- payouts

/// The entries of `s` with a non-zero amount, in order.
pub open spec fn nonzero_entries(s: Seq<(FungibleTokenId, Balance)>) -> Seq<(FungibleTokenId, Balance)>
    decreases s.len(),
{
    if s.len() == 0 {
        s
    } else if s.last().1 > 0 {
        nonzero_entries(s.drop_last()).push(s.last())
    } else {
        nonzero_entries(s.drop_last())
    }
}

/// The pool once `who`'s pending reward in `c` has been paid out.
pub open spec fn paid_out_model(m: RewardPoolModel, who: AccountId, c: FungibleTokenId) -> RewardPoolModel {
    if amount_in(pending_of(m, who), c) > 0 {
        RewardPoolModel { pending: m.pending.insert(who, pending_of(m, who).insert(c, 0)), ..m }
    } else {
        m
    }
}

pub proof fn lemma_position(rs: Seq<RewardInfo>, i: int)
    requires
        currencies_distinct(rs),
        0 <= i < rs.len(),
    ensures
        position(rs, rs[i].currency) == i,
        listed(rs, rs[i].currency),
{
    assert(listed_before(rs, rs[i].currency, rs.len() as int));
}

impl RewardPool {
    pub open spec fn view(&self) -> RewardPoolModel {
        RewardPoolModel {
            pool: match self.pool_info {
                Some(p) => Some(PoolInfoModel { total_shares: p.total_shares, rewards: p.rewards@ }),
                None => None,
            },
            shares: self.shares@.map_values(
                |r: ShareRecord| ShareModel { share: r.share, withdrawn: r.withdrawn_rewards@ },
            ),
            pending: self.pending_rewards@.map_values(|b: CurrencyBalances| b@),
        }
    }

    /// The stored maps are well formed and the model's invariants hold.
    pub open spec fn wf(&self) -> bool {
        &&& forall|a: AccountId| #[trigger]
            self.shares@.contains_key(a) ==> self.shares@[a].withdrawn_rewards.wf()
        &&& forall|a: AccountId| #[trigger]
            self.pending_rewards@.contains_key(a) ==> self.pending_rewards@[a].wf()
        &&& model_wf(self@)
    }

    /// An empty pool.
    pub fn new() -> (r: RewardPool)
        ensures
            r.wf(),
            r@.pool is None,
            r@.shares == Map::<AccountId, ShareModel>::empty(),
            r@.pending == Map::<AccountId, Map<FungibleTokenId, Balance>>::empty(),
    {
        let r = RewardPool { pool_info: None, shares: BTreeMap::new(), pending_rewards: BTreeMap::new() };
        assert(r@.shares =~= Map::<AccountId, ShareModel>::empty());
        assert(r@.pending =~= Map::<AccountId, Map<FungibleTokenId, Balance>>::empty());
        r
    }

    /// Adds `add_amount` shares for `who`; see `add_share_model`.
    pub fn add_share(&mut self, who: AccountId, add_amount: Balance) -> (r: Result<(), Error>)
        requires
            old(self).wf(),
        ensures
            final(self).wf(),
            r is Err <==> add_amount > 0 && add_share_overflows(old(self)@, who, add_amount as int),
            r is Err ==> r == Err::<(), Error>(Error::ArithmeticOverflow) && *final(self) == *old(self),
            r is Ok ==> final(self)@ == add_share_model(old(self)@, who, add_amount as int),
    {
        if add_amount == 0 {
            return Ok(());
        }
        let ghost m = self@;
        let no_rewards: Vec<RewardInfo> = Vec::new();
        let no_withdrawn = CurrencyBalances::new();
        let prev: Balance = match &self.pool_info {
            Some(p) => p.total_shares,
            None => 0,
        };
        let rs: &Vec<RewardInfo> = match &self.pool_info {
            Some(p) => &p.rewards,
            None => &no_rewards,
        };
        let (share, w): (Balance, &CurrencyBalances) = match self.shares.get(&who) {
            Some(rec) => (rec.share, &rec.withdrawn_rewards),
            None => (0, &no_withdrawn),
        };
        assert(rs@ == rewards_of(m.pool));
        assert(w@ == withdrawn_of(m, who));
        if prev > u128::MAX - add_amount || share > u128::MAX - add_amount {
            return Err(Error::ArithmeticOverflow);
        }
        let mut i: usize = 0;
        while i < rs.len()
            invariant
                i <= rs@.len(),
                w.wf(),
                self.wf(),
                self@ == m,
                rs@ == rewards_of(m.pool),
                w@ == withdrawn_of(m, who),
                prev == total_shares_of(m.pool),
                forall|j: int|
                    0 <= j < i ==> !(#[trigger] rs@[j].total_reward + inflation(prev as int, add_amount as int, rs@[j])
                        > u128::MAX || amount_in(w@, rs@[j].currency) + inflation(prev as int, add_amount as int, rs@[j])
                        > u128::MAX),
            decreases rs@.len() - i,
        {
            let e = rs[i];
            let infl = if prev == 0 { 0 } else { mul_div(add_amount, e.total_reward, prev) };
            if e.total_reward > u128::MAX - infl || w.get(e.currency) > u128::MAX - infl {
                proof {
                    assert(e == rs@[i as int]);
                    assert(rs@[i as int].total_reward + inflation(prev as int, add_amount as int, rs@[i as int]) > u128::MAX
                        || amount_in(w@, rs@[i as int].currency) + inflation(prev as int, add_amount as int, rs@[i as int]) > u128::MAX);
                }
                return Err(Error::ArithmeticOverflow);
            }
            i = i + 1;
        }
        assert(!add_share_overflows(m, who, add_amount as int));
        let mut info = match self.pool_info.take() {
            Some(p) => p,
            None => InnovationStakingPoolInfo::default(),
        };
        let mut record = match self.shares.remove(&who) {
            Some(rec) => rec,
            None => ShareRecord { share: 0, withdrawn_rewards: CurrencyBalances::new() },
        };
        let ghost rs0 = info.rewards@;
        let ghost w0 = record.withdrawn_rewards@;
        assert(rs0 =~= rewards_of(m.pool));
        assert(w0 == withdrawn_of(m, who));
        assert(w0 =~= inflated_withdrawn(w0, rs0, prev as int, add_amount as int, 0));
        let n = info.rewards.len();
        let mut i: usize = 0;
        while i < n
            invariant
                n == rs0.len(),
                i <= n,
                info.rewards@.len() == n,
                m.pool matches Some(p) ==> currencies_distinct(p.rewards) && rewards_sound(p.rewards),
                rs0 == rewards_of(m.pool),
                w0 == withdrawn_of(m, who),
                prev == total_shares_of(m.pool),
                record.withdrawn_rewards.wf(),
                forall|j: int| 0 <= j < i ==> info.rewards@[j] == #[trigger] inflate(prev as int, add_amount as int, rs0[j]),
                forall|j: int| i <= j < n ==> info.rewards@[j] == #[trigger] rs0[j],
                record.withdrawn_rewards@ == inflated_withdrawn(w0, rs0, prev as int, add_amount as int, i as int),
                !add_share_overflows(m, who, add_amount as int),
            decreases n - i,
        {
            let e = info.rewards[i];
            let infl = if prev == 0 { 0 } else { mul_div(add_amount, e.total_reward, prev) };
            proof {
                assert(e == rs0[i as int]);
                assert(!(rs0[i as int].total_reward + inflation(prev as int, add_amount as int, rs0[i as int]) > u128::MAX));
                assert(!listed_before(rs0, e.currency, i as int));
            }
            let cur = record.withdrawn_rewards.get(e.currency);
            proof {
                assert(cur == amount_in(w0, e.currency));
            }
            info.rewards.set(i, RewardInfo {
                currency: e.currency,
                total_reward: e.total_reward + infl,
                total_withdrawn_reward: e.total_withdrawn_reward + infl,
            });
            record.withdrawn_rewards.set(e.currency, cur + infl);
            proof {
                lemma_position(rs0, i as int);
                let next = inflated_withdrawn(w0, rs0, prev as int, add_amount as int, i as int + 1);
                assert forall|c: FungibleTokenId| c != e.currency implies #[trigger] listed_before(rs0, c, i as int + 1)
                    == listed_before(rs0, c, i as int) by {
                    if listed_before(rs0, c, i as int + 1) {
                        let j = choose|j: int| 0 <= j < i + 1 && j < rs0.len() && #[trigger] rs0[j].currency == c;
                        assert(j != i);
                    }
                }
                assert(listed_before(rs0, e.currency, i as int + 1));
                assert(record.withdrawn_rewards@ =~= next);
            }
            i = i + 1;
        }
        info.total_shares = prev + add_amount;
        record.share = share + add_amount;
        proof {
            assert(info.rewards@ =~= rs0.map_values(|e: RewardInfo| inflate(prev as int, add_amount as int, e)));
            lemma_share_sum_insert(m.shares, who, ShareModel { share: record.share, withdrawn: record.withdrawn_rewards@ });
        }
        self.shares.insert(who, record);
        self.pool_info = Some(info);
        proof {
            let m2 = add_share_model(m, who, add_amount as int);
            assert(self@.shares =~= m2.shares);
            assert(self@.pending =~= m2.pending);
            assert(self@.pool == m2.pool);
            let rs2 = rewards_of(m2.pool);
            assert forall|j: int| 0 <= j < rs2.len() implies #[trigger] rs2[j].total_withdrawn_reward <= rs2[j].total_reward
                && rs2[j].total_reward > 0 by {
                assert(rs2[j] == inflate(prev as int, add_amount as int, rs0[j]));
            }
            assert forall|a: AccountId| #[trigger] self.shares@.contains_key(a) implies self.shares@[a].withdrawn_rewards.wf() by {
                if a != who {
                    assert(old(self).shares@.contains_key(a));
                }
            }
            assert forall|a: AccountId| #[trigger] self@.shares.contains_key(a) implies self@.shares[a].share > 0 by {
                if a != who {
                    assert(m.shares.contains_key(a));
                }
            }
        }
        Ok(())
    }

    /// Realizes `who`'s entitlement in every reward currency into its
    /// pending rewards; see `claim_model`.
    pub fn claim_rewards(&mut self, who: AccountId)
        requires
            old(self).wf(),
        ensures
            final(self).wf(),
            final(self)@ == claim_model(old(self)@, who),
    {
        let ghost m = self@;
        let share: Balance = match self.shares.get(&who) {
            Some(rec) => rec.share,
            None => { return; },
        };
        if self.pool_info.is_none() {
            return;
        }
        let mut info = match self.pool_info.take() {
            Some(p) => p,
            None => { return; },
        };
        let mut record = match self.shares.remove(&who) {
            Some(rec) => rec,
            None => { return; },
        };
        assert(record == old(self).shares@[who]);
        assert(share == old(self).shares@[who].share);
        let had_pending = self.pending_rewards.contains_key(&who);
        let mut pend = match self.pending_rewards.remove(&who) {
            Some(p) => p,
            None => CurrencyBalances::new(),
        };
        let ghost rs0 = info.rewards@;
        let ghost w0 = record.withdrawn_rewards@;
        let ghost pend0 = pend@;
        assert(rs0 == rewards_of(m.pool));
        assert(w0 == withdrawn_of(m, who));
        assert(pend0 == pending_of(m, who));
        assert(share == share_of(m, who));
        let total_shares = info.total_shares;
        let n = info.rewards.len();
        let mut paid = false;
        let mut i: usize = 0;
        while i < n
            invariant
                n == rs0.len(),
                i <= n,
                info.rewards@.len() == n,
                info.total_shares == total_shares,
                m.pool matches Some(p) && currencies_distinct(p.rewards) && rewards_sound(p.rewards),
                m.shares.contains_key(who),
                rs0 == rewards_of(m.pool),
                w0 == withdrawn_of(m, who),
                pend0 == pending_of(m, who),
                share == share_of(m, who),
                total_shares == total_shares_of(m.pool),
                record.share == share,
                record.withdrawn_rewards.wf(),
                pend.wf(),
                forall|j: int| 0 <= j < i ==> info.rewards@[j] == #[trigger] claimed_entry(m, who, rs0[j]),
                forall|j: int| i <= j < n ==> info.rewards@[j] == #[trigger] rs0[j],
                record.withdrawn_rewards@ == Map::new(
                    |c: FungibleTokenId| w0.contains_key(c) || (listed_before(rs0, c, i as int) && claim_of(m, who, c) > 0),
                    |c: FungibleTokenId|
                        if listed_before(rs0, c, i as int) && claim_of(m, who, c) > 0 {
                            (amount_in(w0, c) + claim_of(m, who, c)) as u128
                        } else {
                            w0[c]
                        },
                ),
                pend@ == Map::new(
                    |c: FungibleTokenId| pend0.contains_key(c) || (listed_before(rs0, c, i as int) && claim_of(m, who, c) > 0),
                    |c: FungibleTokenId|
                        if listed_before(rs0, c, i as int) && claim_of(m, who, c) > 0 {
                            saturating_add_spec(amount_in(pend0, c), claim_of(m, who, c)) as u128
                        } else {
                            pend0[c]
                        },
                ),
                paid <==> exists|j: int| 0 <= j < i && #[trigger] claim_of(m, who, rs0[j].currency) > 0,
            decreases n - i,
        {
            let e = info.rewards[i];
            let c = e.currency;
            proof {
                assert(e == rs0[i as int]);
                lemma_position(rs0, i as int);
                assert(!listed_before(rs0, c, i as int));
            }
            let w = record.withdrawn_rewards.get(c);
            let reward = reward_to_withdraw(share, e.total_reward, total_shares, w, e.total_withdrawn_reward);
            proof {
                assert(w == amount_in(w0, c));
                assert(reward == claim_of(m, who, c));
            }
            if reward > 0 {
                info.rewards.set(i, RewardInfo {
                    currency: c,
                    total_reward: e.total_reward,
                    total_withdrawn_reward: e.total_withdrawn_reward + reward,
                });
                record.withdrawn_rewards.set(c, w + reward);
                let before = pend.get(c);
                proof {
                    assert(before == amount_in(pend0, c));
                }
                let after: Balance = if before > u128::MAX - reward { u128::MAX } else { before + reward };
                pend.set(c, after);
                paid = true;
            }
            proof {
                assert forall|d: FungibleTokenId| d != c implies #[trigger] listed_before(rs0, d, i as int + 1)
                    == listed_before(rs0, d, i as int) by {
                    if listed_before(rs0, d, i as int + 1) {
                        let j = choose|j: int| 0 <= j < i + 1 && j < rs0.len() && #[trigger] rs0[j].currency == d;
                        assert(j != i);
                    }
                }
                assert(listed_before(rs0, c, i as int + 1));
                assert(info.rewards@[i as int] == claimed_entry(m, who, rs0[i as int]));
                assert(record.withdrawn_rewards@ =~= Map::new(
                    |d: FungibleTokenId| w0.contains_key(d) || (listed_before(rs0, d, i as int + 1) && claim_of(m, who, d) > 0),
                    |d: FungibleTokenId|
                        if listed_before(rs0, d, i as int + 1) && claim_of(m, who, d) > 0 {
                            (amount_in(w0, d) + claim_of(m, who, d)) as u128
                        } else {
                            w0[d]
                        },
                ));
                assert(pend@ =~= Map::new(
                    |d: FungibleTokenId| pend0.contains_key(d) || (listed_before(rs0, d, i as int + 1) && claim_of(m, who, d) > 0),
                    |d: FungibleTokenId|
                        if listed_before(rs0, d, i as int + 1) && claim_of(m, who, d) > 0 {
                            saturating_add_spec(amount_in(pend0, d), claim_of(m, who, d)) as u128
                        } else {
                            pend0[d]
                        },
                ));
                if reward > 0 {
                    assert(claim_of(m, who, rs0[i as int].currency) > 0);
                }
            }
            i = i + 1;
        }
        proof {
            // claims are only ever paid in listed currencies
            assert forall|c: FungibleTokenId| #[trigger] claim_of(m, who, c) > 0 implies listed_before(rs0, c, n as int) by {}
            assert((exists|c: FungibleTokenId| #[trigger] claim_of(m, who, c) > 0) <==> paid) by {
                if paid {
                    let j = choose|j: int| 0 <= j < n && #[trigger] claim_of(m, who, rs0[j].currency) > 0;
                    assert(claim_of(m, who, rs0[j].currency) > 0);
                }
                if exists|c: FungibleTokenId| #[trigger] claim_of(m, who, c) > 0 {
                    let c = choose|c: FungibleTokenId| #[trigger] claim_of(m, who, c) > 0;
                    assert(listed_before(rs0, c, n as int));
                    let j = choose|j: int| 0 <= j < n && j < rs0.len() && #[trigger] rs0[j].currency == c;
                    assert(claim_of(m, who, rs0[j].currency) > 0);
                }
            }
            assert(info.rewards@ =~= rs0.map_values(|e: RewardInfo| claimed_entry(m, who, e)));
        }
        let ghost w1 = record.withdrawn_rewards@;
        let ghost rec1 = record;
        let ghost pend1 = pend;
        self.shares.insert(who, record);
        self.pool_info = Some(info);
        if had_pending || paid {
            self.pending_rewards.insert(who, pend);
        }
        proof {
            let m2 = claim_model(m, who);
            assert(self.shares@ =~= old(self).shares@.insert(who, rec1));
            assert(self@.shares =~= m.shares.insert(who, ShareModel { share: rec1.share, withdrawn: rec1.withdrawn_rewards@ }));
            assert(rec1.share == share);
            assert(m.shares[who].share == share);
            assert(m2.shares[who].withdrawn == w1);
            assert(m2.shares[who] == ShareModel { share: share as u128, withdrawn: w1 });
            if had_pending || paid {
                assert(m.pending.contains_key(who) || exists|c: FungibleTokenId| #[trigger] claim_of(m, who, c) > 0);
                assert(pend1@ =~= m2.pending[who]);
                assert(self.pending_rewards@ =~= old(self).pending_rewards@.insert(who, pend1));
                assert(self@.pending =~= m.pending.insert(who, pend1@));
            } else {
                assert(self.pending_rewards@ =~= old(self).pending_rewards@);
            }
            assert(w1 =~= withdrawn_of(m2, who));
            assert(self@.shares =~= m2.shares);
            assert(self@.pending =~= m2.pending);
            assert(self@.pool == m2.pool);
            lemma_share_sum_insert(m.shares, who, ShareModel { share: share as u128, withdrawn: w1 });
            assert(m.shares.insert(who, ShareModel { share: share as u128, withdrawn: w1 }) == self@.shares);
            let rs2 = rewards_of(m2.pool);
            assert forall|j: int| 0 <= j < rs2.len() implies #[trigger] rs2[j].total_withdrawn_reward <= rs2[j].total_reward
                && rs2[j].total_reward > 0 by {
                assert(rs2[j] == claimed_entry(m, who, rs0[j]));
                lemma_position(rs0, j);
            }
            assert forall|a: AccountId| #[trigger] self.shares@.contains_key(a) implies self.shares@[a].withdrawn_rewards.wf() by {
                if a != who {
                    assert(old(self).shares@.contains_key(a));
                }
            }
            assert forall|a: AccountId| #[trigger] self.pending_rewards@.contains_key(a) implies self.pending_rewards@[a].wf() by {
                if a != who {
                    assert(old(self).pending_rewards@.contains_key(a));
                }
            }
            assert forall|a: AccountId| #[trigger] self@.shares.contains_key(a) implies self@.shares[a].share > 0 by {
                if a != who {
                    assert(m.shares.contains_key(a));
                }
            }
        }
    }

    /// Position of currency `c` among the pool's rewards.
    fn find_reward(rewards: &Vec<RewardInfo>, c: FungibleTokenId) -> (r: Option<usize>)
        requires
            currencies_distinct(rewards@),
        ensures
            match r {
                Some(i) => i < rewards@.len() && rewards@[i as int].currency == c && listed(rewards@, c)
                    && position(rewards@, c) == i,
                None => !listed(rewards@, c),
            },
    {
        let mut i: usize = 0;
        while i < rewards.len()
            invariant
                i <= rewards@.len(),
                currencies_distinct(rewards@),
                forall|k: int| 0 <= k < i ==> #[trigger] rewards@[k].currency != c,
            decreases rewards@.len() - i,
        {
            if rewards[i].currency == c {
                proof {
                    lemma_position(rewards@, i as int);
                }
                return Some(i);
            }
            i = i + 1;
        }
        None
    }

    /// Issues `reward_increment` more reward in `reward_currency`; see
    /// `accumulate_model` and `accumulate_error`.
    pub fn accumulate_reward(&mut self, reward_currency: FungibleTokenId, reward_increment: Balance) -> (r: Result<(), Error>)
        requires
            old(self).wf(),
        ensures
            final(self).wf(),
            match accumulate_error(old(self)@, reward_currency, reward_increment as int) {
                Some(e) => r == Err::<(), Error>(e) && *final(self) == *old(self),
                None => r is Ok && final(self)@ == accumulate_model(old(self)@, reward_currency, reward_increment as int),
            },
    {
        if reward_increment == 0 {
            return Ok(());
        }
        let ghost m = self@;
        let mut info = match self.pool_info.take() {
            Some(p) => p,
            None => {
                return Err(Error::RewardPoolDoesNotExist);
            },
        };
        let ghost rs0 = info.rewards@;
        match RewardPool::find_reward(&info.rewards, reward_currency) {
            Some(i) => {
                let e = info.rewards[i];
                if e.total_reward > u128::MAX - reward_increment {
                    self.pool_info = Some(info);
                    return Err(Error::ArithmeticOverflow);
                }
                info.rewards.set(i, RewardInfo {
                    currency: reward_currency,
                    total_reward: e.total_reward + reward_increment,
                    total_withdrawn_reward: e.total_withdrawn_reward,
                });
            },
            None => {
                info.rewards.push(RewardInfo {
                    currency: reward_currency,
                    total_reward: reward_increment,
                    total_withdrawn_reward: 0,
                });
            },
        }
        self.pool_info = Some(info);
        proof {
            let rs = info.rewards@;
            assert(self@.pool == accumulate_model(m, reward_currency, reward_increment as int).pool);
            assert forall|i: int, j: int|
                0 <= i < rs.len() && 0 <= j < rs.len() && i != j implies #[trigger] rs[i].currency
                    != #[trigger] rs[j].currency by {
                if i < rs0.len() && j < rs0.len() {
                    if rs[i].currency == reward_currency || rs[j].currency == reward_currency {
                        lemma_position(rs0, i);
                        lemma_position(rs0, j);
                    }
                } else if i < rs0.len() {
                    assert(rs0[i].currency == rs[i].currency);
                    assert(listed_before(rs0, rs0[i].currency, rs0.len() as int));
                } else if j < rs0.len() {
                    assert(rs0[j].currency == rs[j].currency);
                    assert(listed_before(rs0, rs0[j].currency, rs0.len() as int));
                }
            }
            assert(rewards_sound(rs));
        }
        Ok(())
    }

    /// Removes up to `remove_amount` shares from `who`, settling its rewards
    /// first; see `remove_share_model`.
    pub fn remove_share(&mut self, who: AccountId, remove_amount: Balance)
        requires
            old(self).wf(),
        ensures
            final(self).wf(),
            final(self)@ == remove_share_model(old(self)@, who, remove_amount as int),
    {
        if remove_amount == 0 {
            return;
        }
        self.claim_rewards(who);
        let ghost m = self@;
        let ghost shares1 = self.shares@;
        let s: Balance = match self.shares.get(&who) {
            Some(rec) => rec.share,
            None => { return; },
        };
        if self.pool_info.is_none() {
            return;
        }
        let mut info = match self.pool_info.take() {
            Some(p) => p,
            None => { return; },
        };
        let mut record = match self.shares.remove(&who) {
            Some(rec) => rec,
            None => { return; },
        };
        let x: Balance = if remove_amount < s { remove_amount } else { s };
        let ghost rs0 = info.rewards@;
        let ghost w0 = record.withdrawn_rewards;
        proof {
            assert(m.shares[who].share == s);
            assert(record == shares1[who]);
            lemma_share_le_sum(m.shares, who);
            assert(rs0 == rewards_of(m.pool));
            assert(w0@ == withdrawn_of(m, who));
        }
        let n = record.withdrawn_rewards.entries.len();
        let mut k: usize = 0;
        while k < n
            invariant
                n == w0.entries@.len(),
                k <= n,
                0 < x <= s,
                w0.wf(),
                m.pool matches Some(p) && currencies_distinct(p.rewards) && rewards_sound(p.rewards),
                rs0 == rewards_of(m.pool),
                info.rewards@.len() == rs0.len(),
                info.total_shares == total_shares_of(m.pool),
                record.share == s,
                record.withdrawn_rewards.entries@.len() == n,
                forall|i: int| 0 <= i < k ==> #[trigger] record.withdrawn_rewards.entries@[i]
                    == (w0.entries@[i].0, (w0.entries@[i].1 - leaving_part(x as int, w0.entries@[i].1 as int, s as int)) as u128),
                forall|i: int| k <= i < n ==> #[trigger] record.withdrawn_rewards.entries@[i] == w0.entries@[i],
                forall|j: int| 0 <= j < rs0.len() ==> #[trigger] info.rewards@[j] == if w0.has_key_at(rs0[j].currency) && w0.index_of(rs0[j].currency) < k {
                    reduced_entry(w0@, x as int, s as int, rs0[j])
                } else {
                    rs0[j]
                },
            decreases n - k,
        {
            let (c, v) = record.withdrawn_rewards.entries[k];
            let d = mul_div(x, v, s);
            proof {
                assert((c, v) == w0.entries@[k as int]);
                w0.lemma_entry(k as int);
                lemma_leaving_part_le(x as int, v as int, s as int);
                assert forall|i: int, j: int|
                    0 <= i < info.rewards@.len() && 0 <= j < info.rewards@.len() && i != j implies #[trigger] info.rewards@[i].currency
                        != #[trigger] info.rewards@[j].currency by {
                    assert(info.rewards@[i].currency == rs0[i].currency);
                    assert(info.rewards@[j].currency == rs0[j].currency);
                }
            }
            let ghost before = info.rewards@;
            match RewardPool::find_reward(&info.rewards, c) {
                Some(j) => {
                    let e = info.rewards[j];
                    let total_reward: Balance = if e.total_reward >= d { e.total_reward - d } else { 0 };
                    let total_withdrawn: Balance = if e.total_withdrawn_reward >= d { e.total_withdrawn_reward - d } else { 0 };
                    proof {
                        assert(info.rewards@[j as int].currency == rs0[j as int].currency);
                        assert(info.rewards@[j as int] == rs0[j as int]);
                    }
                    info.rewards.set(j, RewardInfo {
                        currency: c,
                        total_reward,
                        total_withdrawn_reward: total_withdrawn,
                    });
                },
                None => {},
            }
            record.withdrawn_rewards.entries.set(k, (c, v - d));
            proof {
                assert forall|j: int| 0 <= j < rs0.len() implies #[trigger] info.rewards@[j] == if w0.has_key_at(rs0[j].currency) && w0.index_of(rs0[j].currency) < k + 1 {
                    reduced_entry(w0@, x as int, s as int, rs0[j])
                } else {
                    rs0[j]
                } by {
                    if rs0[j].currency == c {
                        assert(before[j].currency == c);
                        assert(listed(before, c)) by {
                            assert(listed_before(before, c, before.len() as int));
                        }
                    } else if w0.has_key_at(rs0[j].currency) {
                        w0.lemma_entry(w0.index_of(rs0[j].currency));
                        assert(before[j].currency == rs0[j].currency);
                    }
                }
            }
            k = k + 1;
        }
        proof {
            CurrencyBalances::lemma_rewritten(w0, record.withdrawn_rewards, |v: Balance| (v - leaving_part(x as int, v as int, s as int)) as u128);
            assert forall|j: int| 0 <= j < rs0.len() implies #[trigger] info.rewards@[j] == reduced_entry(w0@, x as int, s as int, rs0[j]) by {
                if w0.has_key_at(rs0[j].currency) {
                    w0.lemma_entry(w0.index_of(rs0[j].currency));
                }
            }
            assert(info.rewards@ =~= rs0.map_values(|e: RewardInfo| reduced_entry(w0@, x as int, s as int, e)));
        }
        let ghost rs1 = info.rewards@;
        let mut kept: Vec<RewardInfo> = Vec::new();
        let mut j: usize = 0;
        while j < info.rewards.len()
            invariant
                info.rewards@ == rs1,
                j <= rs1.len(),
                kept@ == prune(rs1.subrange(0, j as int)),
            decreases rs1.len() - j,
        {
            let e = info.rewards[j];
            if e.total_reward > 0 {
                kept.push(e);
            }
            proof {
                assert(rs1.subrange(0, j as int + 1).drop_last() =~= rs1.subrange(0, j as int));
            }
            j = j + 1;
        }
        proof {
            assert(rs1.subrange(0, rs1.len() as int) =~= rs1);
            lemma_prune(rs1);
            assert forall|i: int, j: int|
                0 <= i < rs1.len() && 0 <= j < rs1.len() && i != j implies #[trigger] rs1[i].currency
                    != #[trigger] rs1[j].currency by {
                assert(rs1[i].currency == rs0[i].currency);
                assert(rs1[j].currency == rs0[j].currency);
            }
            assert forall|i: int| 0 <= i < kept@.len() implies #[trigger] kept@[i].total_withdrawn_reward <= kept@[i].total_reward
                && kept@[i].total_reward > 0 by {
                let j = choose|j: int| 0 <= j < rs1.len() && rs1[j] == kept@[i];
                assert(rs1[j] == reduced_entry(w0@, x as int, s as int, rs0[j]));
            }
        }
        info.rewards = kept;
        info.total_shares = info.total_shares - x;
        record.share = s - x;
        let ghost rec1 = record;
        if info.total_shares > 0 {
            self.pool_info = Some(info);
        }
        if record.share > 0 {
            self.shares.insert(who, record);
        }
        proof {
            let m2 = settle_model(m, who, remove_amount as int);
            assert(w0@ == withdrawn_of(m, who));
            assert(rec1.withdrawn_rewards@ == w0@.map_values(|v: Balance| (v - leaving_part(x as int, v as int, s as int)) as u128));
            assert(self@.pool == m2.pool);
            if rec1.share > 0 {
                assert(self.shares@ =~= shares1.insert(who, rec1));
                assert(self@.shares =~= m.shares.insert(who, ShareModel { share: rec1.share, withdrawn: rec1.withdrawn_rewards@ }));
                lemma_share_sum_insert(m.shares, who, ShareModel { share: rec1.share, withdrawn: rec1.withdrawn_rewards@ });
            } else {
                assert(self.shares@ =~= shares1.remove(who));
                assert(self@.shares =~= m.shares.remove(who));
                lemma_share_sum_remove_any(m.shares, who);
            }
            assert(self@.shares =~= m2.shares);
            assert(self@.pending == m2.pending);
            assert forall|a: AccountId| #[trigger] self.shares@.contains_key(a) implies self.shares@[a].withdrawn_rewards.wf() by {
                if a != who {
                    assert(shares1.contains_key(a));
                }
            }
            assert forall|a: AccountId| #[trigger] self@.shares.contains_key(a) implies self@.shares[a].share > 0 by {
                if a != who {
                    assert(m.shares.contains_key(a));
                }
            }
        }
    }

    /// `who`'s pending rewards that are due, in stored order.
    pub fn pending_payouts(&self, who: AccountId) -> (r: Vec<(FungibleTokenId, Balance)>)
        ensures
            self.pending_rewards@.contains_key(who) ==> r@ == nonzero_entries(self.pending_rewards@[who].entries@),
            !self.pending_rewards@.contains_key(who) ==> r@.len() == 0,
    {
        let mut out: Vec<(FungibleTokenId, Balance)> = Vec::new();
        match self.pending_rewards.get(&who) {
            Some(p) => {
                let ghost es = p.entries@;
                let mut i: usize = 0;
                while i < p.entries.len()
                    invariant
                        p.entries@ == es,
                        i <= es.len(),
                        out@ == nonzero_entries(es.subrange(0, i as int)),
                    decreases es.len() - i,
                {
                    let e = p.entries[i];
                    if e.1 > 0 {
                        out.push(e);
                    }
                    proof {
                        assert(es.subrange(0, i as int + 1).drop_last() =~= es.subrange(0, i as int));
                    }
                    i = i + 1;
                }
                proof {
                    assert(es.subrange(0, es.len() as int) =~= es);
                }
            },
            None => {},
        }
        out
    }

    /// Marks `who`'s pending reward in `c` as paid; returns what was pending.
    pub fn clear_pending(&mut self, who: AccountId, c: FungibleTokenId) -> (r: Balance)
        requires
            old(self).wf(),
        ensures
            final(self).wf(),
            r == amount_in(pending_of(old(self)@, who), c),
            final(self)@ == paid_out_model(old(self)@, who, c),
    {
        let ghost m = self@;
        if !self.pending_rewards.contains_key(&who) {
            return 0;
        }
        let mut p = match self.pending_rewards.remove(&who) {
            Some(p) => p,
            None => {
                return 0;
            },
        };
        let ghost pend0 = p;
        let amount = p.get(c);
        if amount > 0 {
            p.set(c, 0);
        }
        self.pending_rewards.insert(who, p);
        proof {
            assert(pend0@ == pending_of(m, who));
            if amount > 0 {
                assert(self.pending_rewards@ =~= old(self).pending_rewards@.insert(who, p));
                assert(self@.pending =~= m.pending.insert(who, pending_of(m, who).insert(c, 0)));
            } else {
                assert(self.pending_rewards@ =~= old(self).pending_rewards@);
            }
            assert forall|a: AccountId| #[trigger] self.pending_rewards@.contains_key(a) implies self.pending_rewards@[a].wf() by {
                if a != who {
                    assert(old(self).pending_rewards@.contains_key(a));
                }
            }
        }
        amount
    }
}

} // verus!
