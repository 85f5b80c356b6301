//! A small map from reward currency to amount, kept as a vector of distinct keys.
use crate::{Balance, FungibleTokenId};
use vstd::prelude::*;

verus! {

/// Amounts per reward currency; a currency that is absent counts as zero.
#[derive(Clone, Debug, PartialEq, Eq)]
pub struct CurrencyBalances {
    pub entries: Vec<(FungibleTokenId, Balance)>,
}

impl CurrencyBalances {
    /// No currency appears twice.
    pub open spec fn wf(&self) -> bool {
        forall|i: int, j: int|
            0 <= i < self.entries@.len() && 0 <= j < self.entries@.len() && i != j
                ==> #[trigger] self.entries@[i].0 != #[trigger] self.entries@[j].0
    }

    pub open spec fn has_key_at(&self, c: FungibleTokenId) -> bool {
        exists|i: int| 0 <= i < self.entries@.len() && #[trigger] self.entries@[i].0 == c
    }

    pub open spec fn index_of(&self, c: FungibleTokenId) -> int {
        choose|i: int| 0 <= i < self.entries@.len() && #[trigger] self.entries@[i].0 == c
    }

    pub open spec fn view(&self) -> Map<FungibleTokenId, Balance> {
        Map::new(|c: FungibleTokenId| self.has_key_at(c), |c: FungibleTokenId| self.entries@[self.index_of(c)].1)
    }

    pub proof fn lemma_entry(&self, i: int)
        requires
            self.wf(),
            0 <= i < self.entries@.len(),
        ensures
            self@.contains_key(self.entries@[i].0),
            self@[self.entries@[i].0] == self.entries@[i].1,
            self.index_of(self.entries@[i].0) == i,
    {
        let c = self.entries@[i].0;
        assert(self.has_key_at(c));
    }

    pub fn new() -> (r: CurrencyBalances)
        ensures
            r.wf(),
            r@ == Map::<FungibleTokenId, Balance>::empty(),
    {
        let r = CurrencyBalances { entries: Vec::new() };
        assert(r@ =~= Map::<FungibleTokenId, Balance>::empty());
        r
    }

    /// Position of `c`, if present.
    pub fn find(&self, c: FungibleTokenId) -> (r: Option<usize>)
        requires
            self.wf(),
        ensures
            match r {
                Some(i) => i < self.entries@.len() && self.entries@[i as int].0 == c,
                None => !self@.contains_key(c),
            },
    {
        let mut i: usize = 0;
        while i < self.entries.len()
            invariant
                i <= self.entries@.len(),
                forall|k: int| 0 <= k < i ==> #[trigger] self.entries@[k].0 != c,
            decreases self.entries@.len() - i,
        {
            if self.entries[i].0 == c {
                return Some(i);
            }
            i = i + 1;
        }
        None
    }

    /// The amount recorded for `c`, zero when absent.
    pub fn get(&self, c: FungibleTokenId) -> (r: Balance)
        requires
            self.wf(),
        ensures
            r == self.amount(c),
    {
        match self.find(c) {
            Some(i) => {
                proof { self.lemma_entry(i as int); }
                self.entries[i].1
            },
            None => 0,
        }
    }

    pub open spec fn amount(&self, c: FungibleTokenId) -> Balance {
        if self@.contains_key(c) { self@[c] } else { 0 }
    }

    /// Records `v` for `c`.
    pub fn set(&mut self, c: FungibleTokenId, v: Balance)
        requires
            old(self).wf(),
        ensures
            final(self).wf(),
            final(self)@ == old(self)@.insert(c, v),
    {
        let ghost before = *self;
        match self.find(c) {
            Some(i) => {
                self.entries.set(i, (c, v));
                proof {
                    assert forall|d: FungibleTokenId| #[trigger] self@.contains_key(d) == before@.insert(c, v).contains_key(d) by {
                        if before.has_key_at(d) {
                            let k = before.index_of(d);
                            assert(self.entries@[k].0 == d);
                        }
                        if self.has_key_at(d) {
                            let k = self.index_of(d);
                            assert(before.entries@[k].0 == d);
                        }
                    }
                    assert forall|d: FungibleTokenId| #[trigger] self@.contains_key(d) implies self@[d] == before@.insert(c, v)[d] by {
                        let k = self.index_of(d);
                        if d == c {
                            assert(k == i);
                        } else {
                            before.lemma_entry(k);
                        }
                    }
                    assert(self@ =~= before@.insert(c, v));
                }
            },
            None => {
                self.entries.push((c, v));
                proof {
                    let n = before.entries@.len() as int;
                    assert(self.entries@[n].0 == c);
                    assert forall|d: FungibleTokenId| #[trigger] self@.contains_key(d) == before@.insert(c, v).contains_key(d) by {
                        if before.has_key_at(d) {
                            let k = before.index_of(d);
                            assert(self.entries@[k].0 == d);
                        }
                        if self.has_key_at(d) && d != c {
                            let k = self.index_of(d);
                            assert(before.entries@[k].0 == d);
                        }
                    }
                    assert forall|d: FungibleTokenId| #[trigger] self@.contains_key(d) implies self@[d] == before@.insert(c, v)[d] by {
                        self.lemma_entry(self.index_of(d));
                        if d == c {
                            self.lemma_entry(n);
                        } else {
                            let k = self.index_of(d);
                            assert(before.entries@[k].0 == d);
                            before.lemma_entry(k);
                        }
                    }
                    assert(self@ =~= before@.insert(c, v));
                }
            },
        }
    }

    /// Rewriting each amount in place by `f` keeps the keys and applies `f`
    /// to the map.
    pub proof fn lemma_rewritten(a: CurrencyBalances, b: CurrencyBalances, f: spec_fn(Balance) -> Balance)
        requires
            a.wf(),
            b.entries@.len() == a.entries@.len(),
            forall|i: int| 0 <= i < a.entries@.len() ==> #[trigger] b.entries@[i] == (a.entries@[i].0, f(a.entries@[i].1)),
        ensures
            b.wf(),
            b@ == a@.map_values(f),
    {
        assert forall|i: int, j: int|
            0 <= i < b.entries@.len() && 0 <= j < b.entries@.len() && i != j implies #[trigger] b.entries@[i].0
                != #[trigger] b.entries@[j].0 by {
            assert(a.entries@[i].0 != a.entries@[j].0);
        }
        assert forall|c: FungibleTokenId| #[trigger] b@.contains_key(c) == a@.contains_key(c) by {
            if b.has_key_at(c) {
                let k = b.index_of(c);
                assert(a.entries@[k].0 == c);
            }
            if a.has_key_at(c) {
                let k = a.index_of(c);
                assert(b.entries@[k].0 == c);
            }
        }
        assert forall|c: FungibleTokenId| #[trigger] b@.contains_key(c) implies b@[c] == f(a@[c]) by {
            let k = b.index_of(c);
            assert(a.entries@[k].0 == c);
            a.lemma_entry(k);
            b.lemma_entry(k);
        }
        assert(b@ =~= a@.map_values(f));
    }
}

} // verus!
