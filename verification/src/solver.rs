//! The lazy rebalance solver.
//!
//! Deficit water-filling: price every asset's deficit against the
//! post-contribution total, fill deficits proportionally when the
//! contribution cannot close them all, otherwise close every deficit and
//! spread the leftover pro-rata by target fraction.

use crate::model::{AssetModel, Portfolio};
use crate::rational::{
    q_add_chk, q_div_chk, q_le, q_lt, q_mul_chk, q_sub_chk, q_zero, Q, Rat, RebalanceError,
};
use crate::model::sum_values;
use vstd::prelude::*;

verus! {

/// Mathematical view of one plan line.
pub struct EntryModel {
    pub name: Seq<char>,
    pub current_fraction: Q,
    pub new_fraction: Q,
    pub target_value: Q,
    pub buy_amount: Q,
}

/// One line of a rebalance plan: what the asset holds now, what it should
/// come to hold, and how much to buy.
#[derive(Debug, Clone)]
pub struct PlanEntry {
    pub name: String,
    pub current_fraction: Rat,
    pub new_fraction: Rat,
    pub target_value: Rat,
    pub buy_amount: Rat,
}

impl View for PlanEntry {
    type V = EntryModel;

    open spec fn view(&self) -> EntryModel {
        EntryModel {
            name: self.name@,
            current_fraction: self.current_fraction@,
            new_fraction: self.new_fraction@,
            target_value: self.target_value@,
            buy_amount: self.buy_amount@,
        }
    }
}

impl PlanEntry {
    /// Every field is a valid representation.
    pub open spec fn inv(&self) -> bool {
        &&& self.current_fraction.inv()
        &&& self.new_fraction.inv()
        &&& self.target_value.inv()
        &&& self.buy_amount.inv()
    }
}

/// Mathematical view of a rebalance plan.
pub struct PlanModel {
    pub entries: Seq<EntryModel>,
    pub degenerate: bool,
}

/// A per-asset buy plan. `degenerate_allocation` warns that a leftover had
/// to be distributed although every target fraction was zero, so the whole
/// leftover went to the first asset.
#[derive(Debug, Clone)]
pub struct RebalancePlan {
    pub entries: Vec<PlanEntry>,
    pub degenerate_allocation: bool,
}

impl View for RebalancePlan {
    type V = PlanModel;

    open spec fn view(&self) -> PlanModel {
        PlanModel {
            entries: self.entries@.map(|i: int, e: PlanEntry| e@),
            degenerate: self.degenerate_allocation,
        }
    }
}

impl RebalancePlan {
    /// Every entry is a valid representation.
    pub open spec fn inv(&self) -> bool {
        forall|i: int| 0 <= i < self.entries@.len() ==> (#[trigger] self.entries@[i]).inv()
    }

    /// How many plan lines there are.
    pub fn len(&self) -> (n: usize)
        ensures
            n == self@.entries.len(),
    {
        self.entries.len()
    }

    /// Borrow the plan line at `index`.
    pub fn get(&self, index: usize) -> (e: &PlanEntry)
        requires
            index < self@.entries.len(),
        ensures
            e@ == self@.entries[index as int],
    {
        &self.entries[index]
    }
}

/// The asset's dollar target at the post-contribution total `vp`, when the
/// product fits.
pub open spec fn target_value_chk(a: AssetModel, vp: Q) -> Option<Q> {
    q_mul_chk(a.target, vp)
}

/// The asset's deficit against `vp` clamped at zero, when every step fits.
pub open spec fn pos_deficit_chk(a: AssetModel, vp: Q) -> Option<Q> {
    match target_value_chk(a, vp) {
        None => None,
        Some(t) => match q_sub_chk(t, a.value) {
            None => None,
            Some(d) => if q_lt(q_zero(), d) {
                Some(d)
            } else {
                Some(q_zero())
            },
        },
    }
}

/// Checked sum of `f` over a sequence.
pub open spec fn fold_sum_chk<A>(s: Seq<A>, f: spec_fn(A) -> Option<Q>) -> Option<Q>
    decreases s.len(),
{
    if s.len() == 0 {
        Some(q_zero())
    } else {
        match fold_sum_chk(s.drop_last(), f) {
            None => None,
            Some(acc) => match f(s.last()) {
                None => None,
                Some(x) => q_add_chk(acc, x),
            },
        }
    }
}

/// Once a prefix of a checked sum has failed, the whole sum has.
pub proof fn lemma_fold_sum_none<A>(s: Seq<A>, f: spec_fn(A) -> Option<Q>, k: int)
    requires
        0 <= k <= s.len(),
        fold_sum_chk(s.take(k), f) is None,
    ensures
        fold_sum_chk(s, f) is None,
    decreases s.len() - k,
{
    if k == s.len() {
        assert(s.take(k) =~= s);
    } else {
        assert(s.take(k + 1).drop_last() =~= s.take(k));
        lemma_fold_sum_none(s, f, k + 1);
    }
}

/// Total deficit `S` over the underweight assets, when every step fits.
pub open spec fn sum_pos_deficits(s: Seq<AssetModel>, vp: Q) -> Option<Q> {
    fold_sum_chk(s, |a: AssetModel| pos_deficit_chk(a, vp))
}

/// Total target fraction `T` over all assets, when every step fits.
pub open spec fn sum_targets(s: Seq<AssetModel>) -> Option<Q> {
    fold_sum_chk(s, |a: AssetModel| Some(a.target))
}

/// The amount to buy for the asset at `idx`, when every step fits.
///
/// With `S >= c` (`s_sum` at least the contribution `c`), each underweight
/// asset gets `c * deficit / S` and every other asset gets zero. Otherwise
/// each asset gets its whole clamped deficit plus a share of the leftover
/// pro-rata by target fraction; when all target fractions are zero the
/// first asset takes the whole leftover.
pub open spec fn buy_chk(
    a: AssetModel,
    idx: int,
    c: Q,
    vp: Q,
    s_sum: Q,
    t_sum: Q,
    leftover: Q,
) -> Option<Q> {
    match pos_deficit_chk(a, vp) {
        None => None,
        Some(pd) => if q_le(c, s_sum) {
            if pd.n > 0 && s_sum.n > 0 {
                match q_mul_chk(c, pd) {
                    None => None,
                    Some(m) => q_div_chk(m, s_sum),
                }
            } else {
                Some(q_zero())
            }
        } else {
            let extra = if t_sum.n > 0 {
                match q_mul_chk(leftover, a.target) {
                    None => None,
                    Some(m) => q_div_chk(m, t_sum),
                }
            } else if idx == 0 {
                Some(leftover)
            } else {
                Some(q_zero())
            };
            match extra {
                None => None,
                Some(e) => q_add_chk(pd, e),
            }
        },
    }
}

/// The full plan line for the asset at `idx`, when every step fits.
pub open spec fn entry_chk(
    a: AssetModel,
    idx: int,
    c: Q,
    v: Q,
    vp: Q,
    s_sum: Q,
    t_sum: Q,
    leftover: Q,
) -> Option<EntryModel> {
    match buy_chk(a, idx, c, vp, s_sum, t_sum, leftover) {
        None => None,
        Some(buy) => match q_div_chk(a.value, v) {
            None => None,
            Some(current) => match target_value_chk(a, vp) {
                None => None,
                Some(tv) => match q_add_chk(a.value, buy) {
                    None => None,
                    Some(newval) => match q_div_chk(newval, vp) {
                        None => None,
                        Some(newfrac) => Some(
                            EntryModel {
                                name: a.name,
                                current_fraction: current,
                                new_fraction: newfrac,
                                target_value: tv,
                                buy_amount: buy,
                            },
                        ),
                    },
                },
            },
        },
    }
}

/// All plan lines for the assets in `s`, when every step fits.
pub open spec fn entries_chk(
    s: Seq<AssetModel>,
    c: Q,
    v: Q,
    vp: Q,
    s_sum: Q,
    t_sum: Q,
    leftover: Q,
) -> Option<Seq<EntryModel>>
    decreases s.len(),
{
    if s.len() == 0 {
        Some(Seq::empty())
    } else {
        match entries_chk(s.drop_last(), c, v, vp, s_sum, t_sum, leftover) {
            None => None,
            Some(es) => match entry_chk(
                s.last(),
                s.len() - 1,
                c,
                v,
                vp,
                s_sum,
                t_sum,
                leftover,
            ) {
                None => None,
                Some(e) => Some(es.push(e)),
            },
        }
    }
}

/// Once a prefix of the plan lines has failed, the whole computation has.
pub proof fn lemma_entries_none(
    s: Seq<AssetModel>,
    c: Q,
    v: Q,
    vp: Q,
    s_sum: Q,
    t_sum: Q,
    leftover: Q,
    k: int,
)
    requires
        0 <= k <= s.len(),
        entries_chk(s.take(k), c, v, vp, s_sum, t_sum, leftover) is None,
    ensures
        entries_chk(s, c, v, vp, s_sum, t_sum, leftover) is None,
    decreases s.len() - k,
{
    if k == s.len() {
        assert(s.take(k) =~= s);
    } else {
        assert(s.take(k + 1).drop_last() =~= s.take(k));
        lemma_entries_none(s, c, v, vp, s_sum, t_sum, leftover, k + 1);
    }
}

/// What a solve returns, stated over the mathematical models.
///
/// A negative contribution is `InvalidInput`; a zero-value portfolio is
/// `DivisionByZero`; `Overflow` reports exactly the computations whose exact
/// result leaves the machine representation.
pub open spec fn solve_model(c: Q, s: Seq<AssetModel>) -> Result<PlanModel, RebalanceError> {
    if q_lt(c, q_zero()) {
        Err(RebalanceError::InvalidInput)
    } else {
        match sum_values(s) {
            None => Err(RebalanceError::Overflow),
            Some(v) => if v.n == 0 {
                Err(RebalanceError::DivisionByZero)
            } else {
                match q_add_chk(v, c) {
                    None => Err(RebalanceError::Overflow),
                    Some(vp) => match sum_pos_deficits(s, vp) {
                        None => Err(RebalanceError::Overflow),
                        Some(s_sum) => match sum_targets(s) {
                            None => Err(RebalanceError::Overflow),
                            Some(t_sum) => if q_le(c, s_sum) {
                                match entries_chk(s, c, v, vp, s_sum, t_sum, q_zero()) {
                                    None => Err(RebalanceError::Overflow),
                                    Some(es) => Ok(PlanModel { entries: es, degenerate: false }),
                                }
                            } else {
                                match q_sub_chk(c, s_sum) {
                                    None => Err(RebalanceError::Overflow),
                                    Some(leftover) => match entries_chk(
                                        s,
                                        c,
                                        v,
                                        vp,
                                        s_sum,
                                        t_sum,
                                        leftover,
                                    ) {
                                        None => Err(RebalanceError::Overflow),
                                        Some(es) => Ok(
                                            PlanModel { entries: es, degenerate: t_sum.n == 0 },
                                        ),
                                    },
                                }
                            },
                        },
                    },
                }
            },
        }
    }
}

/// The view of an executable solve result.
pub open spec fn result_model(r: Result<RebalancePlan, RebalanceError>) -> Result<
    PlanModel,
    RebalanceError,
> {
    match r {
        Ok(p) => Ok(p@),
        Err(e) => Err(e),
    }
}

/// A checked sum that succeeded had every element succeed.
pub proof fn lemma_fold_sum_elem_some<A>(s: Seq<A>, f: spec_fn(A) -> Option<Q>, i: int)
    requires
        0 <= i < s.len(),
        fold_sum_chk(s, f) is Some,
    ensures
        f(s[i]) is Some,
    decreases s.len(),
{
    if i < s.len() - 1 {
        lemma_fold_sum_elem_some(s.drop_last(), f, i);
    }
}

/// The deficit-and-target pass of the solver: `S`, the clamped deficits
/// summed, and `T`, the target fractions summed, both exact.
fn deficit_pass(portfolio: &Portfolio, vp: &Rat) -> (r: Result<(Rat, Rat), RebalanceError>)
    requires
        portfolio.inv(),
        vp.inv(),
    ensures
        r matches Ok(st) ==> {
            &&& sum_pos_deficits(portfolio@, vp@) == Some(st.0@)
            &&& sum_targets(portfolio@) == Some(st.1@)
            &&& st.0.inv()
            &&& st.1.inv()
        },
        r is Ok <==> sum_pos_deficits(portfolio@, vp@) is Some && sum_targets(portfolio@)
            is Some,
        r is Err ==> r == Err::<(Rat, Rat), RebalanceError>(RebalanceError::Overflow),
{
    let ghost s = portfolio@;
    let ghost fd = |a: AssetModel| pos_deficit_chk(a, vp@);
    let ghost ft = |a: AssetModel| Some(a.target);
    let mut s_sum = Rat::zero();
    let mut t_sum = Rat::zero();
    let zero = Rat::zero();
    let n = portfolio.len();
    let mut i: usize = 0;
    proof {
        crate::rational::lemma_zero_wf();
        assert(s.take(0) =~= Seq::<AssetModel>::empty());
    }
    while i < n
        invariant
            portfolio.inv(),
            vp.inv(),
            zero.inv(),
            zero@ == q_zero(),
            n == s.len(),
            s == portfolio@,
            fd == (|a: AssetModel| pos_deficit_chk(a, vp@)),
            ft == (|a: AssetModel| Some(a.target)),
            i <= n,
            s_sum.inv(),
            t_sum.inv(),
            fold_sum_chk(s.take(i as int), fd) == Some(s_sum@),
            fold_sum_chk(s.take(i as int), ft) == Some(t_sum@),
        decreases n - i,
    {
        let asset = portfolio.get(i);
        proof {
            assert(s.take(i + 1).drop_last() =~= s.take(i as int));
            assert(s.take(i + 1).last() == s[i as int]);
        }
        let tv = match asset.target_fraction.mul(vp) {
            Ok(x) => x,
            Err(_) => {
                proof {
                    lemma_fold_sum_none(s, fd, i + 1);
                }
                return Err(RebalanceError::Overflow);
            },
        };
        let def = match tv.sub(&asset.value) {
            Ok(x) => x,
            Err(_) => {
                proof {
                    lemma_fold_sum_none(s, fd, i + 1);
                }
                return Err(RebalanceError::Overflow);
            },
        };
        let pd = if zero.lt(&def) {
            def
        } else {
            zero
        };
        assert(pos_deficit_chk(s[i as int], vp@) == Some(pd@));
        let new_s = match s_sum.add(&pd) {
            Ok(x) => x,
            Err(_) => {
                proof {
                    lemma_fold_sum_none(s, fd, i + 1);
                }
                return Err(RebalanceError::Overflow);
            },
        };
        let new_t = match t_sum.add(&asset.target_fraction) {
            Ok(x) => x,
            Err(_) => {
                proof {
                    lemma_fold_sum_none(s, ft, i + 1);
                }
                return Err(RebalanceError::Overflow);
            },
        };
        s_sum = new_s;
        t_sum = new_t;
        i += 1;
    }
    proof {
        assert(s.take(n as int) =~= s);
    }
    Ok((s_sum, t_sum))
}

/// Compute the per-asset buy plan for a cash contribution.
///
/// Exactly a negative contribution is `InvalidInput`; exactly a portfolio
/// whose total value is zero is `DivisionByZero`; `Overflow` reports exactly
/// the inputs on which some exact intermediate leaves the machine
/// representation. On every other input the plan follows `solve_model`.
pub fn lazy_rebalance(contribution: &Rat, portfolio: &Portfolio) -> (r: Result<
    RebalancePlan,
    RebalanceError,
>)
    requires
        contribution.inv(),
        portfolio.inv(),
    ensures
        result_model(r) == solve_model(contribution@, portfolio@),
        r matches Ok(p) ==> p.inv() && p@.entries.len() == portfolio@.len(),
{
    let ghost s = portfolio@;
    let ghost c = contribution@;
    let zero = Rat::zero();
    proof {
        crate::rational::lemma_zero_wf();
    }
    if contribution.is_neg() {
        return Err(RebalanceError::InvalidInput);
    }
    let v = match portfolio.total_value() {
        Ok(x) => x,
        Err(_) => {
            return Err(RebalanceError::Overflow);
        },
    };
    if v.is_zero() {
        return Err(RebalanceError::DivisionByZero);
    }
    let vp = match v.add(contribution) {
        Ok(x) => x,
        Err(_) => {
            return Err(RebalanceError::Overflow);
        },
    };
    proof {
        crate::rational::lemma_add_nonneg(v@, c);
    }
    let (s_sum, t_sum) = match deficit_pass(portfolio, &vp) {
        Ok(st) => st,
        Err(_) => {
            return Err(RebalanceError::Overflow);
        },
    };
    let constrained = contribution.le(&s_sum);
    let mut degenerate = false;
    let leftover = if constrained {
        Rat::zero()
    } else {
        degenerate = t_sum.is_zero();
        match contribution.sub(&s_sum) {
            Ok(x) => x,
            Err(_) => {
                return Err(RebalanceError::Overflow);
            },
        }
    };
    let ghost lo = leftover@;
    let mut entries: Vec<PlanEntry> = Vec::new();
    let n = portfolio.len();
    let mut i: usize = 0;
    proof {
        assert(s.take(0) =~= Seq::<AssetModel>::empty());
        assert(entries@.map(|j: int, e: PlanEntry| e@) =~= Seq::<EntryModel>::empty());
    }
    while i < n
        invariant
            portfolio.inv(),
            contribution.inv(),
            zero.inv(),
            zero@ == q_zero(),
            n == s.len(),
            s == portfolio@,
            c == contribution@,
            !q_lt(c, q_zero()),
            lo == leftover@,
            i <= n,
            v.inv(),
            vp.inv(),
            s_sum.inv(),
            t_sum.inv(),
            leftover.inv(),
            v@.n >= 1,
            vp@.n >= 1,
            sum_values(s) == Some(v@),
            q_add_chk(v@, c) == Some(vp@),
            sum_pos_deficits(s, vp@) == Some(s_sum@),
            sum_targets(s) == Some(t_sum@),
            constrained == q_le(c, s_sum@),
            constrained ==> lo == q_zero(),
            !constrained ==> q_sub_chk(c, s_sum@) == Some(lo),
            degenerate == (!constrained && t_sum@.n == 0),
            entries_chk(s.take(i as int), c, v@, vp@, s_sum@, t_sum@, lo) == Some(
                entries@.map(|j: int, e: PlanEntry| e@),
            ),
            forall|j: int| 0 <= j < entries@.len() ==> (#[trigger] entries@[j]).inv(),
            entries@.len() == i,
        decreases n - i,
    {
        let asset = portfolio.get(i);
        proof {
            assert(s.take(i + 1).drop_last() =~= s.take(i as int));
            assert(s.take(i + 1).last() == s[i as int]);
            lemma_fold_sum_elem_some(s, |a: AssetModel| pos_deficit_chk(a, vp@), i as int);
        }
        let tv = match asset.target_fraction.mul(&vp) {
            Ok(x) => x,
            Err(_) => {
                proof {
                    assert(false);
                }
                return Err(RebalanceError::Overflow);
            },
        };
        let def = match tv.sub(&asset.value) {
            Ok(x) => x,
            Err(_) => {
                proof {
                    assert(false);
                }
                return Err(RebalanceError::Overflow);
            },
        };
        let pd = if zero.lt(&def) {
            def
        } else {
            zero
        };
        assert(pos_deficit_chk(s[i as int], vp@) == Some(pd@));
        let buy = if constrained {
            if pd.is_pos() && s_sum.is_pos() {
                let m = match contribution.mul(&pd) {
                    Ok(x) => x,
                    Err(_) => {
                        proof {
                            lemma_entries_none(s, c, v@, vp@, s_sum@, t_sum@, lo, i + 1);
                        }
                        return Err(RebalanceError::Overflow);
                    },
                };
                match m.div(&s_sum) {
                    Ok(x) => x,
                    Err(_) => {
                        proof {
                            lemma_entries_none(s, c, v@, vp@, s_sum@, t_sum@, lo, i + 1);
                        }
                        return Err(RebalanceError::Overflow);
                    },
                }
            } else {
                zero
            }
        } else {
            let extra = if t_sum.is_pos() {
                let m = match leftover.mul(&asset.target_fraction) {
                    Ok(x) => x,
                    Err(_) => {
                        proof {
                            lemma_entries_none(s, c, v@, vp@, s_sum@, t_sum@, lo, i + 1);
                        }
                        return Err(RebalanceError::Overflow);
                    },
                };
                match m.div(&t_sum) {
                    Ok(x) => x,
                    Err(_) => {
                        proof {
                            lemma_entries_none(s, c, v@, vp@, s_sum@, t_sum@, lo, i + 1);
                        }
                        return Err(RebalanceError::Overflow);
                    },
                }
            } else if i == 0 {
                leftover
            } else {
                zero
            };
            match pd.add(&extra) {
                Ok(x) => x,
                Err(_) => {
                    proof {
                        lemma_entries_none(s, c, v@, vp@, s_sum@, t_sum@, lo, i + 1);
                    }
                    return Err(RebalanceError::Overflow);
                },
            }
        };
        assert(buy_chk(s[i as int], i as int, c, vp@, s_sum@, t_sum@, lo) == Some(buy@));
        let current = match asset.value.div(&v) {
            Ok(x) => x,
            Err(_) => {
                proof {
                    lemma_entries_none(s, c, v@, vp@, s_sum@, t_sum@, lo, i + 1);
                }
                return Err(RebalanceError::Overflow);
            },
        };
        let newval = match asset.value.add(&buy) {
            Ok(x) => x,
            Err(_) => {
                proof {
                    lemma_entries_none(s, c, v@, vp@, s_sum@, t_sum@, lo, i + 1);
                }
                return Err(RebalanceError::Overflow);
            },
        };
        let newfrac = match newval.div(&vp) {
            Ok(x) => x,
            Err(_) => {
                proof {
                    lemma_entries_none(s, c, v@, vp@, s_sum@, t_sum@, lo, i + 1);
                }
                return Err(RebalanceError::Overflow);
            },
        };
        let entry = PlanEntry {
            name: asset.name.clone(),
            current_fraction: current,
            new_fraction: newfrac,
            target_value: tv,
            buy_amount: buy,
        };
        let ghost old_entries = entries@;
        entries.push(entry);
        proof {
            assert(entries@.map(|j: int, e: PlanEntry| e@) =~= old_entries.map(
                |j: int, e: PlanEntry| e@,
            ).push(entry@));
        }
        i += 1;
    }
    proof {
        assert(s.take(n as int) =~= s);
    }
    Ok(RebalancePlan { entries, degenerate_allocation: degenerate })
}

} // verus!
