//! The asset and portfolio data model.
//!
//! A portfolio is an ordered collection of uniquely named assets, each
//! carrying an exact current dollar value and an exact target allocation
//! fraction. Target fractions need not sum to one.

use crate::rational::{q_add_chk, q_zero, Q, Rat, RebalanceError};
use crate::solver::RebalancePlan;
use vstd::prelude::*;

verus! {

/// Mathematical view of an asset.
pub struct AssetModel {
    pub name: Seq<char>,
    pub target: Q,
    pub value: Q,
}

/// One holding: a ticker, its target share of the portfolio, and the dollar
/// value currently held.
#[derive(Debug, Clone)]
pub struct Asset {
    pub name: String,
    pub target_fraction: Rat,
    pub value: Rat,
}

impl View for Asset {
    type V = AssetModel;

    open spec fn view(&self) -> AssetModel {
        AssetModel { name: self.name@, target: self.target_fraction@, value: self.value@ }
    }
}

impl Asset {
    /// Representations are valid and the held value is not negative.
    pub open spec fn inv(&self) -> bool {
        &&& self.target_fraction.inv()
        &&& self.value.inv()
        &&& self@.value.n >= 0
    }

    /// Construct an asset; the only demand is a non-negative value.
    pub fn new(name: String, target_fraction: Rat, value: Rat) -> (a: Asset)
        requires
            target_fraction.inv(),
            value.inv(),
            value@.n >= 0,
        ensures
            a.inv(),
            a@.name == name@,
            a@.target == target_fraction@,
            a@.value == value@,
    {
        Asset { name, target_fraction, value }
    }
}

/// Every name in the sequence is distinct.
pub open spec fn names_unique(s: Seq<AssetModel>) -> bool {
    forall|i: int, j: int|
        0 <= i < s.len() && 0 <= j < s.len() && i != j ==> s[i].name != s[j].name
}

/// Every asset is valid and carries a non-negative target fraction.
pub open spec fn assets_wf(s: Seq<AssetModel>) -> bool {
    forall|i: int|
        0 <= i < s.len() ==> {
            &&& crate::rational::q_wf(#[trigger] s[i].target)
            &&& crate::rational::q_wf(s[i].value)
            &&& s[i].target.n >= 0
            &&& s[i].value.n >= 0
        }
}

/// An ordered collection of uniquely named assets.
#[derive(Debug, Clone)]
pub struct Portfolio {
    pub assets: Vec<Asset>,
}

impl View for Portfolio {
    type V = Seq<AssetModel>;

    open spec fn view(&self) -> Seq<AssetModel> {
        self.assets@.map(|i: int, a: Asset| a@)
    }
}

impl Portfolio {
    /// Assets are valid, target fractions non-negative, names unique.
    pub open spec fn inv(&self) -> bool {
        &&& forall|i: int|
            0 <= i < self.assets@.len() ==> {
                &&& (#[trigger] self.assets@[i]).inv()
                &&& self.assets@[i].target_fraction@.n >= 0
            }
        &&& names_unique(self@)
    }

    /// An empty portfolio.
    pub fn new() -> (p: Portfolio)
        ensures
            p.inv(),
            p@.len() == 0,
    {
        Portfolio { assets: Vec::new() }
    }

    /// How many assets are held.
    pub fn len(&self) -> (n: usize)
        ensures
            n == self@.len(),
    {
        self.assets.len()
    }

    /// Borrow the asset at `index`.
    pub fn get(&self, index: usize) -> (a: &Asset)
        requires
            index < self@.len(),
        ensures
            a@ == self@[index as int],
    {
        &self.assets[index]
    }

    /// Index of the asset called `name`, if one is held.
    pub fn find(&self, name: &String) -> (r: Option<usize>)
        ensures
            r matches Some(i) ==> i < self@.len() && self@[i as int].name == name@,
            r is None ==> forall|i: int| 0 <= i < self@.len() ==> self@[i].name != name@,
    {
        let mut i: usize = 0;
        while i < self.assets.len()
            invariant
                i <= self.assets.len(),
                forall|j: int| 0 <= j < i ==> self@[j].name != name@,
            decreases self.assets.len() - i,
        {
            if self.assets[i].name == *name {
                return Some(i);
            }
            i += 1;
        }
        None
    }

    /// Append an asset whose name is not yet taken.
    pub fn push(&mut self, asset: Asset) -> (r: Result<(), RebalanceError>)
        requires
            old(self).inv(),
            asset.inv(),
            asset.target_fraction@.n >= 0,
        ensures
            final(self).inv(),
            r is Ok <==> forall|i: int|
                0 <= i < old(self)@.len() ==> old(self)@[i].name != asset@.name,
            r is Ok ==> final(self)@ == old(self)@.push(asset@),
            r is Err ==> final(self)@ == old(self)@ && r == Err::<(), RebalanceError>(
                RebalanceError::InvalidInput,
            ),
    {
        match self.find(&asset.name) {
            Some(_) => Err(RebalanceError::InvalidInput),
            None => {
                self.assets.push(asset);
                assert(self@ =~= old(self)@.push(asset@));
                Ok(())
            },
        }
    }

    /// Replace the value of the asset called `name`, leaving every other
    /// asset untouched; reports whether the name was found.
    pub fn update_value(&mut self, name: &String, value: Rat) -> (found: bool)
        requires
            old(self).inv(),
            value.inv(),
            value@.n >= 0,
        ensures
            final(self).inv(),
            final(self)@.len() == old(self)@.len(),
            found <==> exists|i: int| 0 <= i < old(self)@.len() && old(self)@[i].name == name@,
            !found ==> final(self)@ == old(self)@,
            found ==> exists|i: int|
                {
                    &&& 0 <= i < old(self)@.len()
                    &&& old(self)@[i].name == name@
                    &&& final(self)@ == old(self)@.update(
                        i,
                        AssetModel {
                            name: old(self)@[i].name,
                            target: old(self)@[i].target,
                            value: value@,
                        },
                    )
                },
    {
        match self.find(name) {
            None => false,
            Some(i) => {
                let ghost old_view = self@;
                let name_copy = self.assets[i].name.clone();
                let target_copy = self.assets[i].target_fraction;
                self.assets.set(i, Asset { name: name_copy, target_fraction: target_copy, value });
                assert(self@ =~= old_view.update(
                    i as int,
                    AssetModel {
                        name: old_view[i as int].name,
                        target: old_view[i as int].target,
                        value: value@,
                    },
                ));
                true
            },
        }
    }
}

/// The exact total of the values of the assets in `s`, when every partial
/// sum fits the machine representation.
pub open spec fn sum_values(s: Seq<AssetModel>) -> Option<Q>
    decreases s.len(),
{
    if s.len() == 0 {
        Some(q_zero())
    } else {
        match sum_values(s.drop_last()) {
            None => None,
            Some(acc) => q_add_chk(acc, s.last().value),
        }
    }
}

impl Portfolio {
    /// Exact sum of all held values; `Overflow` exactly when some partial
    /// sum leaves the machine representation.
    pub fn total_value(&self) -> (r: Result<Rat, RebalanceError>)
        requires
            self.inv(),
        ensures
            r matches Ok(v) ==> sum_values(self@) == Some(v@) && v.inv() && v@.n >= 0,
            r is Ok <==> sum_values(self@) is Some,
            r is Err ==> r == Err::<Rat, RebalanceError>(RebalanceError::Overflow),
    {
        let mut acc = Rat::zero();
        let mut i: usize = 0;
        proof {
            crate::rational::lemma_gcd_one(0);
            assert(self@.take(0) =~= Seq::<AssetModel>::empty());
        }
        while i < self.assets.len()
            invariant
                self.inv(),
                i <= self.assets.len(),
                acc.inv(),
                acc@.n >= 0,
                sum_values(self@.take(i as int)) == Some(acc@),
            decreases self.assets.len() - i,
        {
            let next = acc.add(&self.assets[i].value);
            proof {
                assert(self@.take(i + 1).drop_last() =~= self@.take(i as int));
                assert(self@.take(i + 1).last() == self@[i as int]);
            }
            match next {
                Ok(v) => {
                    proof {
                        crate::rational::lemma_add_nonneg(acc@, self@[i as int].value);
                    }
                    acc = v;
                },
                Err(e) => {
                    proof {
                        lemma_sum_values_none(self@, i + 1);
                    }
                    return Err(RebalanceError::Overflow);
                },
            }
            i += 1;
        }
        proof {
            assert(self@.take(self.assets.len() as int) =~= self@);
        }
        Ok(acc)
    }
}

/// The value held under `name` in a holdings listing; a repeated ticker
/// keeps its last row, as rewriting a map entry would, and an absent
/// ticker holds zero.
pub open spec fn last_match(hs: Seq<(Seq<char>, Q)>, name: Seq<char>) -> Q
    decreases hs.len(),
{
    if hs.len() == 0 {
        q_zero()
    } else if hs.last().0 == name {
        hs.last().1
    } else {
        last_match(hs.drop_last(), name)
    }
}

/// The asset after a plan line is applied to it.
pub open spec fn applied_asset(a: AssetModel, buy: Q) -> AssetModel {
    AssetModel { name: a.name, target: a.target, value: crate::rational::q_add(a.value, buy) }
}

/// The asset a target row joins to: percentage over one hundred, value
/// from the last matching holdings row or zero.
pub open spec fn joined_asset(name: Seq<char>, pct: Q, hs: Seq<(Seq<char>, Q)>) -> AssetModel {
    AssetModel {
        name: name,
        target: crate::rational::q_div(pct, q_hundred()),
        value: last_match(hs, name),
    }
}

impl Portfolio {
    /// Apply a plan: add every buy amount onto its asset's value, leaving
    /// names and targets alone. On `Overflow` the portfolio is unchanged.
    pub fn apply_plan(&mut self, plan: &RebalancePlan) -> (r: Result<(), RebalanceError>)
        requires
            old(self).inv(),
            plan.inv(),
            plan@.entries.len() == old(self)@.len(),
            forall|i: int| 0 <= i < plan@.entries.len() ==> (#[trigger] plan@.entries[
                i
            ]).buy_amount.n >= 0,
        ensures
            final(self).inv(),
            r is Ok <==> forall|i: int|
                0 <= i < old(self)@.len() ==> q_add_chk(
                    (#[trigger] old(self)@[i]).value,
                    plan@.entries[i].buy_amount,
                ) is Some,
            r is Ok ==> {
                &&& final(self)@.len() == old(self)@.len()
                &&& forall|i: int|
                    0 <= i < old(self)@.len() ==> (#[trigger] final(self)@[i]) == applied_asset(
                        old(self)@[i],
                        plan@.entries[i].buy_amount,
                    )
            },
            r is Err ==> final(self)@ == old(self)@ && r == Err::<(), RebalanceError>(
                RebalanceError::Overflow,
            ),
    {
        let ghost old_view = self@;
        let mut updated: Vec<Asset> = Vec::new();
        let n = self.assets.len();
        let mut i: usize = 0;
        while i < n
            invariant
                self.inv(),
                self@ == old_view,
                old_view == old(self)@,
                plan.inv(),
                plan@.entries.len() == old_view.len(),
                forall|k: int| 0 <= k < plan@.entries.len() ==> (#[trigger] plan@.entries[
                    k
                ]).buy_amount.n >= 0,
                n == old_view.len(),
                i <= n,
                updated@.len() == i,
                forall|k: int|
                    0 <= k < i ==> q_add_chk(old_view[k].value, plan@.entries[k].buy_amount)
                        is Some,
                forall|k: int|
                    0 <= k < i ==> (#[trigger] updated@[k]).inv() && updated@[
                        k
                    ].target_fraction@.n >= 0 && updated@[k]@ == applied_asset(
                        old_view[k],
                        plan@.entries[k].buy_amount,
                    ),
            decreases n - i,
        {
            let a = &self.assets[i];
            let e = &plan.entries[i];
            proof {
                assert(e@ == plan@.entries[i as int]);
                assert(plan@.entries[i as int].buy_amount.n >= 0);
                assert(a@ == old_view[i as int]);
            }
            match a.value.add(&e.buy_amount) {
                Ok(v) => {
                    proof {
                        crate::rational::lemma_add_nonneg(a.value@, e.buy_amount@);
                    }
                    updated.push(
                        Asset {
                            name: a.name.clone(),
                            target_fraction: a.target_fraction,
                            value: v,
                        },
                    );
                },
                Err(_) => {
                    proof {
                        assert(q_add_chk(old_view[i as int].value, plan@.entries[i as int].buy_amount)
                            is None);
                    }
                    return Err(RebalanceError::Overflow);
                },
            }
            i += 1;
        }
        self.assets = updated;
        proof {
            assert(forall|k: int|
                0 <= k < n ==> (#[trigger] self@[k]) == updated@[k]@ && old_view[k].name
                    == old(self)@[k].name);
        }
        Ok(())
    }

    /// Join a target listing and a holdings listing into a portfolio:
    /// one asset per target row, its percentage divided by one hundred,
    /// its value the last holdings row with the same ticker, or zero when
    /// the ticker is absent from the holdings.
    ///
    /// A holdings row whose ticker carries no target is left out; a target
    /// absent from the holdings starts at value zero. The join succeeds
    /// exactly when every reduced target fraction fits the machine
    /// representation.
    pub fn build_portfolio(targets: &Vec<(String, Rat)>, holdings: &Vec<(String, Rat)>) -> (r:
        Result<Portfolio, RebalanceError>)
        requires
            forall|i: int, j: int|
                0 <= i < targets@.len() && 0 <= j < targets@.len() && i != j ==> (
                #[trigger] targets@[i]).0@ != (#[trigger] targets@[j]).0@,
            forall|i: int|
                0 <= i < targets@.len() ==> (#[trigger] targets@[i]).1.inv() && targets@[
                    i
                ].1@.n > 0,
            forall|i: int|
                0 <= i < holdings@.len() ==> (#[trigger] holdings@[i]).1.inv() && holdings@[
                    i
                ].1@.n >= 0,
        ensures
            r matches Ok(p) ==> {
                &&& p.inv()
                &&& p@.len() == targets@.len()
                &&& forall|i: int|
                    0 <= i < p@.len() ==> (#[trigger] p@[i]) == joined_asset(
                        targets@[i].0@,
                        targets@[i].1@,
                        holdings@.map(|k: int, h: (String, Rat)| (h.0@, h.1@)),
                    )
            },
            r is Ok <==> forall|i: int|
                0 <= i < targets@.len() ==> crate::rational::q_fits(
                    crate::rational::q_div(#[trigger] targets@[i].1@, q_hundred()),
                ),
            r is Err ==> r == Err::<Portfolio, RebalanceError>(RebalanceError::Overflow),
    {
        let ghost hs = holdings@.map(|k: int, h: (String, Rat)| (h.0@, h.1@));
        let hundred = Rat::from_int(100);
        proof {
            crate::rational::lemma_gcd_one(100);
        }
        let mut assets: Vec<Asset> = Vec::new();
        let n = targets.len();
        let mut i: usize = 0;
        while i < n
            invariant
                forall|a: int, b: int|
                    0 <= a < targets@.len() && 0 <= b < targets@.len() && a != b ==> (
                    #[trigger] targets@[a]).0@ != (#[trigger] targets@[b]).0@,
                forall|k: int|
                    0 <= k < targets@.len() ==> (#[trigger] targets@[k]).1.inv() && targets@[
                        k
                    ].1@.n > 0,
                forall|k: int|
                    0 <= k < holdings@.len() ==> (#[trigger] holdings@[k]).1.inv() && holdings@[
                        k
                    ].1@.n >= 0,
                hs == holdings@.map(|k: int, h: (String, Rat)| (h.0@, h.1@)),
                hundred.inv(),
                hundred@ == q_hundred(),
                n == targets@.len(),
                i <= n,
                assets@.len() == i,
                forall|k: int|
                    0 <= k < i ==> crate::rational::q_fits(
                        crate::rational::q_div(#[trigger] targets@[k].1@, q_hundred()),
                    ),
                forall|k: int|
                    0 <= k < i ==> (#[trigger] assets@[k]).inv() && assets@[
                        k
                    ].target_fraction@.n >= 0 && assets@[k]@ == joined_asset(
                        targets@[k].0@,
                        targets@[k].1@,
                        hs,
                    ),
            decreases n - i,
        {
            let (name, pct) = (&targets[i].0, &targets[i].1);
            let frac = match pct.div(&hundred) {
                Ok(x) => x,
                Err(_) => {
                    proof {
                        assert(!crate::rational::q_fits(
                            crate::rational::q_div(targets@[i as int].1@, q_hundred()),
                        ));
                    }
                    return Err(RebalanceError::Overflow);
                },
            };
            proof {
                crate::rational::lemma_div_value(pct@, q_hundred());
            }
            let value = lookup_holding(holdings, name);
            assets.push(Asset { name: name.clone(), target_fraction: frac, value });
            i += 1;
        }
        let p = Portfolio { assets };
        proof {
            assert(forall|a: int, b: int|
                0 <= a < p@.len() && 0 <= b < p@.len() && a != b ==> p@[a].name != p@[b].name);
        }
        Ok(p)
    }
}

/// One hundred, the divisor between percentages and fractions.
pub open spec fn q_hundred() -> Q {
    Q { n: 100, d: 1 }
}

/// The value of the last holdings row with the given ticker, or zero.
fn lookup_holding(holdings: &Vec<(String, Rat)>, name: &String) -> (r: Rat)
    requires
        forall|i: int|
            0 <= i < holdings@.len() ==> (#[trigger] holdings@[i]).1.inv() && holdings@[
                i
            ].1@.n >= 0,
    ensures
        r.inv(),
        r@.n >= 0,
        r@ == last_match(holdings@.map(|k: int, h: (String, Rat)| (h.0@, h.1@)), name@),
{
    let ghost hs = holdings@.map(|k: int, h: (String, Rat)| (h.0@, h.1@));
    let n = holdings.len();
    let mut i: usize = n;
    proof {
        assert(hs.take(n as int) =~= hs);
    }
    while i > 0
        invariant
            forall|k: int|
                0 <= k < holdings@.len() ==> (#[trigger] holdings@[k]).1.inv() && holdings@[
                    k
                ].1@.n >= 0,
            hs == holdings@.map(|k: int, h: (String, Rat)| (h.0@, h.1@)),
            n == holdings@.len(),
            i <= n,
            last_match(hs, name@) == last_match(hs.take(i as int), name@),
        decreases i,
    {
        proof {
            assert(hs.take(i as int).last() == hs[i - 1]);
            assert(hs.take(i as int).drop_last() =~= hs.take(i - 1));
        }
        if holdings[i - 1].0 == *name {
            return holdings[i - 1].1;
        }
        i -= 1;
    }
    proof {
        assert(hs.take(0).len() == 0);
        crate::rational::lemma_zero_wf();
    }
    Rat::zero()
}

/// Once a prefix of the value sum has overflowed, the whole sum has.
pub proof fn lemma_sum_values_none(s: Seq<AssetModel>, k: int)
    requires
        0 <= k <= s.len(),
        sum_values(s.take(k)) is None,
    ensures
        sum_values(s) is None,
    decreases s.len() - k,
{
    if k == s.len() {
        assert(s.take(k) =~= s);
    } else {
        assert(s.take(k + 1).drop_last() =~= s.take(k));
        lemma_sum_values_none(s, k + 1);
    }
}

} // verus!
