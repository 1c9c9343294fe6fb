//! The solver's laws, stated over the mathematical model and proved once
//! for every input.

use crate::model::{assets_wf, sum_values, AssetModel};
use crate::rational::{
    q_add, q_add_chk, q_add_raw, q_eqv, q_le, q_lt, q_mul, q_sub, q_wf, q_zero,
    lemma_add_nonneg, lemma_add_value, lemma_div_value, lemma_mul_value, lemma_norm,
    lemma_norm_identity, lemma_sub_value, lemma_zero_wf, Q, RebalanceError,
};
use crate::solver::{
    buy_chk, entries_chk, entry_chk, fold_sum_chk, lemma_fold_sum_none, pos_deficit_chk,
    solve_model, sum_pos_deficits, sum_targets, EntryModel, PlanModel,
};
use vstd::prelude::*;

verus! {

/// A checked sum of well-formed, non-negative parts is well-formed and
/// non-negative.
pub proof fn lemma_fold_sum_wf<A>(s: Seq<A>, f: spec_fn(A) -> Option<Q>)
    requires
        fold_sum_chk(s, f) is Some,
        forall|i: int|
            0 <= i < s.len() && (#[trigger] f(s[i])) is Some ==> q_wf(f(s[i]).unwrap()) && f(
                s[i],
            ).unwrap().n >= 0,
    ensures
        q_wf(fold_sum_chk(s, f).unwrap()),
        fold_sum_chk(s, f).unwrap().n >= 0,
    decreases s.len(),
{
    lemma_zero_wf();
    if s.len() > 0 {
        assert(forall|i: int|
            0 <= i < s.drop_last().len() ==> s.drop_last()[i] == s[i]);
        lemma_fold_sum_wf(s.drop_last(), f);
        let acc = fold_sum_chk(s.drop_last(), f).unwrap();
        let x = f(s.last()).unwrap();
        assert(s.last() == s[s.len() - 1]);
        lemma_add_value(acc, x);
        lemma_add_nonneg(acc, x);
    }
}

/// A successful plan has one line per asset.
pub proof fn lemma_entries_len(
    s: Seq<AssetModel>,
    c: Q,
    v: Q,
    vp: Q,
    s_sum: Q,
    t_sum: Q,
    leftover: Q,
)
    requires
        entries_chk(s, c, v, vp, s_sum, t_sum, leftover) is Some,
    ensures
        entries_chk(s, c, v, vp, s_sum, t_sum, leftover).unwrap().len() == s.len(),
    decreases s.len(),
{
    if s.len() > 0 {
        lemma_entries_len(s.drop_last(), c, v, vp, s_sum, t_sum, leftover);
    }
}

/// Successful plan lines exist for every asset, one each, in order.
pub proof fn lemma_entries_index(
    s: Seq<AssetModel>,
    c: Q,
    v: Q,
    vp: Q,
    s_sum: Q,
    t_sum: Q,
    leftover: Q,
    es: Seq<EntryModel>,
    i: int,
)
    requires
        entries_chk(s, c, v, vp, s_sum, t_sum, leftover) == Some(es),
        0 <= i < s.len(),
    ensures
        es.len() == s.len(),
        entry_chk(s[i], i, c, v, vp, s_sum, t_sum, leftover) is Some,
        es[i] == entry_chk(s[i], i, c, v, vp, s_sum, t_sum, leftover).unwrap(),
    decreases s.len(),
{
    let es0 = entries_chk(s.drop_last(), c, v, vp, s_sum, t_sum, leftover).unwrap();
    lemma_entries_len(s.drop_last(), c, v, vp, s_sum, t_sum, leftover);
    if i < s.len() - 1 {
        lemma_entries_index(s.drop_last(), c, v, vp, s_sum, t_sum, leftover, es0, i);
    }
}

/// The total of the asset values, when it exists, is well-formed and
/// non-negative.
pub proof fn lemma_sum_values_wf(s: Seq<AssetModel>)
    requires
        assets_wf(s),
        sum_values(s) is Some,
    ensures
        q_wf(sum_values(s).unwrap()),
        sum_values(s).unwrap().n >= 0,
    decreases s.len(),
{
    lemma_zero_wf();
    if s.len() > 0 {
        assert(forall|i: int|
            0 <= i < s.drop_last().len() ==> s.drop_last()[i] == s[i]);
        lemma_sum_values_wf(s.drop_last());
        let acc = sum_values(s.drop_last()).unwrap();
        assert(s.last() == s[s.len() - 1]);
        assert(q_wf(s[s.len() - 1].target));
        lemma_add_value(acc, s.last().value);
        lemma_add_nonneg(acc, s.last().value);
    }
}

/// The pieces of a successful solve: what `solve_model(c, s) == Ok(pm)`
/// guarantees about the intermediate sums and every plan line.
pub proof fn lemma_solve_pieces(c: Q, s: Seq<AssetModel>, pm: PlanModel)
    requires
        solve_model(c, s) == Ok::<PlanModel, RebalanceError>(pm),
    ensures
        !q_lt(c, q_zero()),
        sum_values(s) is Some,
        sum_values(s).unwrap().n != 0,
        q_add_chk(sum_values(s).unwrap(), c) is Some,
        sum_pos_deficits(s, q_add_chk(sum_values(s).unwrap(), c).unwrap()) is Some,
        sum_targets(s) is Some,
        pm.entries.len() == s.len(),
        ({
            let v = sum_values(s).unwrap();
            let vp = q_add_chk(v, c).unwrap();
            let s_sum = sum_pos_deficits(s, vp).unwrap();
            let t_sum = sum_targets(s).unwrap();
            let lo = if q_le(c, s_sum) {
                q_zero()
            } else {
                q_sub(c, s_sum)
            };
            &&& (!q_le(c, s_sum) ==> crate::rational::q_sub_chk(c, s_sum) == Some(lo))
            &&& entries_chk(s, c, v, vp, s_sum, t_sum, lo) == Some(pm.entries)
            &&& pm.degenerate == (!q_le(c, s_sum) && t_sum.n == 0)
        }),
{
    let v = sum_values(s).unwrap();
    let vp = q_add_chk(v, c).unwrap();
    let s_sum = sum_pos_deficits(s, vp).unwrap();
    let t_sum = sum_targets(s).unwrap();
    let lo = if q_le(c, s_sum) {
        q_zero()
    } else {
        q_sub(c, s_sum)
    };
    let es = entries_chk(s, c, v, vp, s_sum, t_sum, lo).unwrap();
    if s.len() > 0 {
        lemma_entries_index(s, c, v, vp, s_sum, t_sum, lo, es, 0);
    }
}

/// Buy-only: a successful solve never sells — every buy amount is at
/// least zero, whatever the inputs were.
pub proof fn lemma_buy_only(c: Q, s: Seq<AssetModel>, pm: PlanModel)
    requires
        q_wf(c),
        assets_wf(s),
        solve_model(c, s) == Ok::<PlanModel, RebalanceError>(pm),
    ensures
        forall|i: int|
            0 <= i < pm.entries.len() ==> (#[trigger] pm.entries[i]).buy_amount.n >= 0 && q_wf(
                pm.entries[i].buy_amount,
            ),
{
    lemma_solve_pieces(c, s, pm);
    let v = sum_values(s).unwrap();
    let vp = q_add_chk(v, c).unwrap();
    let s_sum = sum_pos_deficits(s, vp).unwrap();
    let t_sum = sum_targets(s).unwrap();
    let lo = if q_le(c, s_sum) {
        q_zero()
    } else {
        q_sub(c, s_sum)
    };
    lemma_zero_wf();
    assert(0 * c.d == 0) by (nonlinear_arith);
    assert(c.n >= 0);
    lemma_sum_values_wf(s);
    lemma_add_value(v, c);
    let fd = |a: AssetModel| pos_deficit_chk(a, vp);
    let ft = |a: AssetModel| Some(a.target);
    assert forall|i: int|
        0 <= i < s.len() && (#[trigger] fd(s[i])) is Some implies q_wf(fd(s[i]).unwrap()) && fd(
        s[i],
    ).unwrap().n >= 0 by {
        lemma_pd_wf(s[i], vp);
    }
    lemma_fold_sum_wf(s, fd);
    lemma_fold_sum_wf(s, ft);
    assert(s_sum == fold_sum_chk(s, fd).unwrap());
    assert(t_sum == fold_sum_chk(s, ft).unwrap());
    if !q_le(c, s_sum) {
        lemma_sub_value(c, s_sum);
        assert(lo.n >= 1) by (nonlinear_arith)
            requires
                lo.n * (c.d * s_sum.d) == (c.n * s_sum.d - s_sum.n * c.d) * lo.d,
                c.n * s_sum.d > s_sum.n * c.d,
                c.d * s_sum.d >= 1,
                lo.d >= 1,
        ;
    }
    assert forall|i: int| 0 <= i < pm.entries.len() implies (
    #[trigger] pm.entries[i]).buy_amount.n >= 0 && q_wf(pm.entries[i].buy_amount) by {
        lemma_entries_index(s, c, v, vp, s_sum, t_sum, lo, pm.entries, i);
        lemma_buy_nonneg(s[i], i, c, vp, s_sum, t_sum, lo);
    }
}

/// Every field of a successful plan line is well-formed and at least
/// zero: the fractions divide non-negative holdings by a positive total,
/// the target value prices a non-negative fraction, and the solver never
/// sells. A verified caller discharges the non-negativity demands of the
/// projection and of applying the plan with this.
pub proof fn lemma_plan_nonneg(c: Q, s: Seq<AssetModel>, pm: PlanModel)
    requires
        q_wf(c),
        assets_wf(s),
        solve_model(c, s) == Ok::<PlanModel, RebalanceError>(pm),
    ensures
        forall|i: int|
            0 <= i < pm.entries.len() ==> {
                &&& (#[trigger] pm.entries[i]).current_fraction.n >= 0
                &&& pm.entries[i].new_fraction.n >= 0
                &&& pm.entries[i].target_value.n >= 0
                &&& pm.entries[i].buy_amount.n >= 0
                &&& q_wf(pm.entries[i].current_fraction)
                &&& q_wf(pm.entries[i].new_fraction)
                &&& q_wf(pm.entries[i].target_value)
                &&& q_wf(pm.entries[i].buy_amount)
            },
{
    lemma_solve_pieces(c, s, pm);
    lemma_buy_only(c, s, pm);
    let v = sum_values(s).unwrap();
    let vp = q_add_chk(v, c).unwrap();
    let s_sum = sum_pos_deficits(s, vp).unwrap();
    let t_sum = sum_targets(s).unwrap();
    let lo = if q_le(c, s_sum) {
        q_zero()
    } else {
        q_sub(c, s_sum)
    };
    lemma_zero_wf();
    assert(0 * c.d == 0) by (nonlinear_arith);
    assert(c.n >= 0);
    lemma_sum_values_wf(s);
    assert(v.n >= 1);
    lemma_add_value(v, c);
    lemma_add_nonneg(v, c);
    assert(vp.n >= 1);
    assert forall|i: int| 0 <= i < pm.entries.len() implies {
        &&& (#[trigger] pm.entries[i]).current_fraction.n >= 0
        &&& pm.entries[i].new_fraction.n >= 0
        &&& pm.entries[i].target_value.n >= 0
        &&& pm.entries[i].buy_amount.n >= 0
        &&& q_wf(pm.entries[i].current_fraction)
        &&& q_wf(pm.entries[i].new_fraction)
        &&& q_wf(pm.entries[i].target_value)
        &&& q_wf(pm.entries[i].buy_amount)
    } by {
        lemma_entries_index(s, c, v, vp, s_sum, t_sum, lo, pm.entries, i);
        assert(q_wf(s[i].target));
        let buy = pm.entries[i].buy_amount;
        assert(buy.n >= 0 && q_wf(buy));
        lemma_div_value(s[i].value, v);
        lemma_mul_value(s[i].target, vp);
        lemma_add_value(s[i].value, buy);
        lemma_add_nonneg(s[i].value, buy);
        lemma_div_value(q_add(s[i].value, buy), vp);
    }
}

/// Each single buy amount of a successful plan line is well-formed and
/// at least zero.
proof fn lemma_buy_nonneg(a: AssetModel, idx: int, c: Q, vp: Q, s_sum: Q, t_sum: Q, lo: Q)
    requires
        q_wf(a.target),
        q_wf(a.value),
        a.target.n >= 0,
        a.value.n >= 0,
        q_wf(c),
        q_wf(vp),
        q_wf(s_sum),
        q_wf(t_sum),
        q_wf(lo),
        c.n >= 0,
        lo.n >= 0,
        buy_chk(a, idx, c, vp, s_sum, t_sum, lo) is Some,
    ensures
        q_wf(buy_chk(a, idx, c, vp, s_sum, t_sum, lo).unwrap()),
        buy_chk(a, idx, c, vp, s_sum, t_sum, lo).unwrap().n >= 0,
{
    lemma_zero_wf();
    let pd = pos_deficit_chk(a, vp).unwrap();
    lemma_pd_wf(a, vp);
    let buy = buy_chk(a, idx, c, vp, s_sum, t_sum, lo).unwrap();
    if q_le(c, s_sum) {
        if pd.n > 0 && s_sum.n > 0 {
            let m = q_mul(c, pd);
            lemma_mul_value(c, pd);
            lemma_div_value(m, s_sum);
        }
    } else {
        if t_sum.n > 0 {
            let m = q_mul(lo, a.target);
            lemma_mul_value(lo, a.target);
            lemma_div_value(m, t_sum);
            lemma_add_nonneg(pd, crate::rational::q_div(m, t_sum));
            lemma_add_value(pd, crate::rational::q_div(m, t_sum));
        } else if idx == 0 {
            lemma_add_nonneg(pd, lo);
            lemma_add_value(pd, lo);
        } else {
            lemma_add_nonneg(pd, q_zero());
            lemma_add_value(pd, q_zero());
        }
    }
}

/// Multiply-and-cancel chain: from `b == m / dd` and `m == num * w` on
/// cross products conclude `b * dd == num * w` on cross products.
proof fn lemma_ratio_chain(
    bn: int,
    bd: int,
    mn: int,
    md: int,
    dn: int,
    dd: int,
    numn: int,
    numd: int,
    wn: int,
    wd: int,
)
    requires
        md >= 1,
        bn * (md * dn) == (mn * dd) * bd,
        mn * (numd * wd) == (numn * wn) * md,
    ensures
        bn * dn * (numd * wd) == numn * wn * (bd * dd),
{
    assert((bn * (md * dn)) * (numd * wd) == ((mn * dd) * bd) * (numd * wd)) by (nonlinear_arith)
        requires
            bn * (md * dn) == (mn * dd) * bd,
    ;
    assert(((mn * dd) * bd) * (numd * wd) == (mn * (numd * wd)) * (dd * bd)) by (nonlinear_arith);
    assert((mn * (numd * wd)) * (dd * bd) == ((numn * wn) * md) * (dd * bd)) by (nonlinear_arith)
        requires
            mn * (numd * wd) == (numn * wn) * md,
    ;
    assert((bn * (md * dn)) * (numd * wd) == (bn * dn * (numd * wd)) * md) by (nonlinear_arith);
    assert(((numn * wn) * md) * (dd * bd) == (numn * wn * (bd * dd)) * md) by (nonlinear_arith);
    assert(bn * dn * (numd * wd) == numn * wn * (bd * dd)) by (nonlinear_arith)
        requires
            (bn * dn * (numd * wd)) * md == (numn * wn * (bd * dd)) * md,
            md >= 1,
    ;
}

/// No overshoot in the constrained branch: when the total deficit `S` is at
/// least the contribution, no asset is pushed past its own deficit — every
/// buy amount stays at or below the asset's clamped deficit.
pub proof fn lemma_no_overshoot(c: Q, s: Seq<AssetModel>, pm: PlanModel)
    requires
        q_wf(c),
        assets_wf(s),
        solve_model(c, s) == Ok::<PlanModel, RebalanceError>(pm),
        ({
            let v = sum_values(s).unwrap();
            let vp = q_add_chk(v, c).unwrap();
            q_le(c, sum_pos_deficits(s, vp).unwrap())
        }),
    ensures
        forall|i: int|
            0 <= i < pm.entries.len() ==> q_le(
                (#[trigger] pm.entries[i]).buy_amount,
                pos_deficit_chk(s[i], q_add_chk(sum_values(s).unwrap(), c).unwrap()).unwrap(),
            ),
{
    lemma_solve_pieces(c, s, pm);
    let v = sum_values(s).unwrap();
    let vp = q_add_chk(v, c).unwrap();
    let s_sum = sum_pos_deficits(s, vp).unwrap();
    let t_sum = sum_targets(s).unwrap();
    lemma_zero_wf();
    assert(0 * c.d == 0) by (nonlinear_arith);
    assert(c.n >= 0);
    lemma_sum_values_wf(s);
    lemma_add_value(v, c);
    let fd = |a: AssetModel| pos_deficit_chk(a, vp);
    assert forall|i: int|
        0 <= i < s.len() && (#[trigger] fd(s[i])) is Some implies q_wf(fd(s[i]).unwrap()) && fd(
        s[i],
    ).unwrap().n >= 0 by {
        lemma_pd_wf(s[i], vp);
    }
    lemma_fold_sum_wf(s, fd);
    assert(s_sum == fold_sum_chk(s, fd).unwrap());
    assert forall|i: int| 0 <= i < pm.entries.len() implies q_le(
        (#[trigger] pm.entries[i]).buy_amount,
        pos_deficit_chk(s[i], vp).unwrap(),
    ) by {
        lemma_entries_index(s, c, v, vp, s_sum, t_sum, q_zero(), pm.entries, i);
        lemma_pd_wf(s[i], vp);
        let pd = pos_deficit_chk(s[i], vp).unwrap();
        let buy = pm.entries[i].buy_amount;
        if pd.n > 0 && s_sum.n > 0 {
            let m = q_mul(c, pd);
            lemma_mul_value(c, pd);
            lemma_div_value(m, s_sum);
            lemma_ratio_chain(
                buy.n,
                buy.d,
                m.n,
                m.d,
                s_sum.n,
                s_sum.d,
                c.n,
                c.d,
                pd.n,
                pd.d,
            );
            assert(buy.n * pd.d <= pd.n * buy.d) by (nonlinear_arith)
                requires
                    buy.n * s_sum.n * (c.d * pd.d) == c.n * pd.n * (buy.d * s_sum.d),
                    c.n * s_sum.d <= s_sum.n * c.d,
                    s_sum.n >= 1,
                    s_sum.d >= 1,
                    c.d >= 1,
                    c.n >= 0,
                    pd.n >= 1,
                    pd.d >= 1,
                    buy.d >= 1,
            ;
        } else {
            assert(buy == q_zero());
            assert(0 * pd.d == 0) by (nonlinear_arith);
        }
    }
}

/// Idempotence under a zero contribution: solving with nothing to invest
/// buys nothing, and every new fraction equals the current fraction.
pub proof fn lemma_zero_contribution(s: Seq<AssetModel>, pm: PlanModel)
    requires
        assets_wf(s),
        solve_model(q_zero(), s) == Ok::<PlanModel, RebalanceError>(pm),
    ensures
        forall|i: int|
            0 <= i < pm.entries.len() ==> (#[trigger] pm.entries[i]).new_fraction == pm.entries[
                i
            ].current_fraction && pm.entries[i].buy_amount == q_zero(),
{
    let c = q_zero();
    lemma_zero_wf();
    lemma_solve_pieces(c, s, pm);
    let v = sum_values(s).unwrap();
    let vp = q_add_chk(v, c).unwrap();
    let s_sum = sum_pos_deficits(s, vp).unwrap();
    let t_sum = sum_targets(s).unwrap();
    lemma_sum_values_wf(s);
    assert(0 * v.d == 0) by (nonlinear_arith);
    assert(v.n * 1 == v.n && v.d * 1 == v.d);
    lemma_norm_identity(v);
    assert(q_add(v, c) == v);
    assert(vp == v);
    let fd = |a: AssetModel| pos_deficit_chk(a, vp);
    assert forall|i: int|
        0 <= i < s.len() && (#[trigger] fd(s[i])) is Some implies q_wf(fd(s[i]).unwrap()) && fd(
        s[i],
    ).unwrap().n >= 0 by {
        lemma_pd_wf(s[i], vp);
    }
    lemma_fold_sum_wf(s, fd);
    assert(s_sum == fold_sum_chk(s, fd).unwrap());
    assert(q_le(c, s_sum)) by (nonlinear_arith)
        requires
            s_sum.n >= 0,
            s_sum.d >= 1,
            c == q_zero(),
    ;
    assert forall|i: int| 0 <= i < pm.entries.len() implies (
    #[trigger] pm.entries[i]).new_fraction == pm.entries[i].current_fraction && pm.entries[
        i
    ].buy_amount == q_zero() by {
        lemma_entries_index(s, c, v, vp, s_sum, t_sum, q_zero(), pm.entries, i);
        lemma_pd_wf(s[i], vp);
        let pd = pos_deficit_chk(s[i], vp).unwrap();
        if pd.n > 0 && s_sum.n > 0 {
            assert(0 * pd.n == 0 && 1 * pd.d == pd.d) by (nonlinear_arith);
            lemma_norm(0, pd.d);
            assert(q_mul(c, pd) == q_zero());
            assert(0 * s_sum.d == 0 && 1 * s_sum.n == s_sum.n) by (nonlinear_arith);
            lemma_norm(0, s_sum.n);
            assert(crate::rational::q_div(q_zero(), s_sum) == q_zero());
        }
        let buy = pm.entries[i].buy_amount;
        assert(buy == q_zero());
        let value = s[i].value;
        assert(q_wf(s[i].target));
        assert(value.n * 1 + 0 * value.d == value.n && value.d * 1 == value.d) by (
        nonlinear_arith);
        lemma_norm_identity(value);
        assert(q_add(value, q_zero()) == value);
    }
}

/// Determinism: the solver's outcome is a function of the contribution and
/// the portfolio alone, so two solves on identical inputs agree exactly.
pub proof fn lemma_determinism(
    c: Q,
    s: Seq<AssetModel>,
    r1: Result<PlanModel, RebalanceError>,
    r2: Result<PlanModel, RebalanceError>,
)
    requires
        r1 == solve_model(c, s),
        r2 == solve_model(c, s),
    ensures
        r1 == r2,
{
}

/// Sum of a sequence of rationals without reduction.
pub open spec fn raw_sum(xs: Seq<Q>) -> Q
    decreases xs.len(),
{
    if xs.len() == 0 {
        q_zero()
    } else {
        q_add_raw(raw_sum(xs.drop_last()), xs.last())
    }
}

/// The exact rational total of the buy amounts of a plan.
pub open spec fn sum_buys(es: Seq<EntryModel>) -> Q {
    raw_sum(es.map_values(|e: EntryModel| e.buy_amount))
}

/// An unreduced sum of positive-denominator rationals keeps a positive
/// denominator.
proof fn lemma_raw_sum_den(xs: Seq<Q>)
    requires
        forall|i: int| 0 <= i < xs.len() ==> (#[trigger] xs[i]).d >= 1,
    ensures
        raw_sum(xs).d >= 1,
    decreases xs.len(),
{
    if xs.len() > 0 {
        assert(forall|i: int| 0 <= i < xs.drop_last().len() ==> xs.drop_last()[i] == xs[i]);
        lemma_raw_sum_den(xs.drop_last());
        assert(raw_sum(xs).d >= 1) by (nonlinear_arith)
            requires
                raw_sum(xs).d == raw_sum(xs.drop_last()).d * xs[xs.len() - 1].d,
                raw_sum(xs.drop_last()).d >= 1,
                xs[xs.len() - 1].d >= 1,
        ;
    }
}

/// Multiplication distributes over a sum.
proof fn lemma_distribute(x: int, y: int, z: int)
    ensures
        (x + y) * z == x * z + y * z,
{
    assert((x + y) * z == x * z + y * z) by (nonlinear_arith);
}

/// Rebracketing of a product of two pairs.
proof fn lemma_swap4(a: int, b: int, c: int, d: int)
    ensures
        (a * b) * (c * d) == (a * c) * (b * d),
{
    vstd::arithmetic::mul::lemma_mul_is_associative(a, b, c * d);
    vstd::arithmetic::mul::lemma_mul_is_associative(b, c, d);
    vstd::arithmetic::mul::lemma_mul_is_commutative(b, c);
    vstd::arithmetic::mul::lemma_mul_is_associative(c, b, d);
    vstd::arithmetic::mul::lemma_mul_is_associative(a, c, b * d);
}

/// The step of the scaled-sum induction, on bare integers.
proof fn lemma_scaled_sum_step(
    sn0: int,
    sd0: int,
    bn: int,
    bd: int,
    dn: int,
    dd: int,
    cn: int,
    cd: int,
    pn: int,
    pd0: int,
    wn0: int,
    wd0: int,
    rn: int,
    rd: int,
)
    requires
        wd0 >= 1,
        pd0 >= 1,
        sn0 * dn * (cd * wd0) == cn * wn0 * (sd0 * dd),
        bn * dn * (cd * pd0) == cn * pn * (bd * dd),
        rn * (wd0 * pd0) == (wn0 * pd0 + pn * wd0) * rd,
    ensures
        (sn0 * bd + bn * sd0) * dn * (cd * rd) == cn * rn * ((sd0 * bd) * dd),
{
    assert((sn0 * dn * (cd * wd0)) * (bd * pd0) == (cn * wn0 * (sd0 * dd)) * (bd * pd0)) by (
    nonlinear_arith)
        requires
            sn0 * dn * (cd * wd0) == cn * wn0 * (sd0 * dd),
    ;
    assert((bn * dn * (cd * pd0)) * (sd0 * wd0) == (cn * pn * (bd * dd)) * (sd0 * wd0)) by (
    nonlinear_arith)
        requires
            bn * dn * (cd * pd0) == cn * pn * (bd * dd),
    ;
    lemma_distribute(sn0 * bd, bn * sd0, dn * (cd * (wd0 * pd0)));
    assert(((sn0 * bd + bn * sd0) * dn * cd) * (wd0 * pd0) == (sn0 * bd + bn * sd0) * (dn * (cd * (
    wd0 * pd0)))) by (nonlinear_arith);
    assert((sn0 * bd) * (dn * (cd * (wd0 * pd0))) == (sn0 * dn * (cd * wd0)) * (bd * pd0)) by (
    nonlinear_arith);
    assert((bn * sd0) * (dn * (cd * (wd0 * pd0))) == (bn * dn * (cd * pd0)) * (sd0 * wd0)) by {
        vstd::arithmetic::mul::lemma_mul_is_commutative(wd0, pd0);
        vstd::arithmetic::mul::lemma_mul_is_associative(cd, pd0, wd0);
        vstd::arithmetic::mul::lemma_mul_is_associative(dn, cd * pd0, wd0);
        lemma_swap4(bn, sd0, dn * (cd * pd0), wd0);
        vstd::arithmetic::mul::lemma_mul_is_associative(bn, dn, cd * pd0);
    }
    assert(((sn0 * bd + bn * sd0) * dn * cd) * (wd0 * pd0) == (sn0 * dn * (cd * wd0)) * (bd * pd0)
        + (bn * dn * (cd * pd0)) * (sd0 * wd0));
    lemma_distribute(wn0 * pd0, pn * wd0, cn * ((sd0 * bd) * dd));
    assert(cn * (wn0 * pd0 + pn * wd0) * ((sd0 * bd) * dd) == (wn0 * pd0 + pn * wd0) * (cn * ((sd0
        * bd) * dd))) by (nonlinear_arith);
    assert((wn0 * pd0) * (cn * ((sd0 * bd) * dd)) == (cn * wn0 * (sd0 * dd)) * (bd * pd0)) by {
        let x = (sd0 * bd) * dd;
        lemma_swap4(wn0, pd0, cn, x);
        vstd::arithmetic::mul::lemma_mul_is_commutative(wn0, cn);
        vstd::arithmetic::mul::lemma_mul_is_commutative(pd0, x);
        vstd::arithmetic::mul::lemma_mul_is_associative(sd0 * bd, dd, pd0);
        lemma_swap4(sd0, bd, dd, pd0);
        assert(pd0 * x == (sd0 * dd) * (bd * pd0));
        vstd::arithmetic::mul::lemma_mul_is_associative(cn * wn0, sd0 * dd, bd * pd0);
    }
    assert((pn * wd0) * (cn * ((sd0 * bd) * dd)) == (cn * pn * (bd * dd)) * (sd0 * wd0)) by (
    nonlinear_arith);
    assert(cn * (wn0 * pd0 + pn * wd0) * ((sd0 * bd) * dd) == (cn * wn0 * (sd0 * dd)) * (bd * pd0)
        + (cn * pn * (bd * dd)) * (sd0 * wd0));
    let a = (sn0 * bd + bn * sd0) * dn * cd;
    let b = (sd0 * bd) * dd;
    assert(a * (wd0 * pd0) == cn * (wn0 * pd0 + pn * wd0) * b);
    assert((a * (wd0 * pd0)) * rd == (cn * (wn0 * pd0 + pn * wd0) * b) * rd) by (nonlinear_arith)
        requires
            a * (wd0 * pd0) == cn * (wn0 * pd0 + pn * wd0) * b,
    ;
    assert((a * rd) * (wd0 * pd0) == (a * (wd0 * pd0)) * rd) by (nonlinear_arith);
    assert((cn * (wn0 * pd0 + pn * wd0) * b) * rd == (cn * b) * ((wn0 * pd0 + pn * wd0) * rd)) by (
    nonlinear_arith);
    assert((cn * b) * (rn * (wd0 * pd0)) == (cn * b) * ((wn0 * pd0 + pn * wd0) * rd)) by (
    nonlinear_arith)
        requires
            rn * (wd0 * pd0) == (wn0 * pd0 + pn * wd0) * rd,
    ;
    assert((cn * rn * b) * (wd0 * pd0) == (cn * b) * (rn * (wd0 * pd0))) by (nonlinear_arith);
    assert((a * rd) * (wd0 * pd0) == (cn * rn * b) * (wd0 * pd0));
    assert(a * rd == cn * rn * b) by (nonlinear_arith)
        requires
            (a * rd) * (wd0 * pd0) == (cn * rn * b) * (wd0 * pd0),
            wd0 >= 1,
            pd0 >= 1,
    ;
    assert((sn0 * bd + bn * sd0) * dn * (cd * rd) == a * rd) by (nonlinear_arith)
        requires
            a == (sn0 * bd + bn * sd0) * dn * cd,
    ;
}

/// Scaled-sum induction: when each part `x` satisfies `x * dd == num * w`
/// on cross products against its weight `w`, the unreduced sum of the
/// parts satisfies the same relation against the reduced sum of the
/// weights.
proof fn lemma_scaled_sum(xs: Seq<Q>, ws: Seq<Q>, num: Q, dd: Q)
    requires
        xs.len() == ws.len(),
        forall|i: int|
            0 <= i < xs.len() ==> (#[trigger] xs[i]).d >= 1 && q_wf(#[trigger] ws[i]) && ws[
                i
            ].n >= 0,
        forall|i: int|
            0 <= i < xs.len() ==> (#[trigger] xs[i]).n * dd.n * (num.d * ws[i].d) == num.n * ws[
                i
            ].n * (xs[i].d * dd.d),
        fold_sum_chk(ws, |q: Q| Some(q)) is Some,
    ensures
        q_wf(fold_sum_chk(ws, |q: Q| Some(q)).unwrap()),
        raw_sum(xs).n * dd.n * (num.d * fold_sum_chk(ws, |q: Q| Some(q)).unwrap().d) == num.n
            * fold_sum_chk(ws, |q: Q| Some(q)).unwrap().n * (raw_sum(xs).d * dd.d),
    decreases xs.len(),
{
    let idq = |q: Q| Some(q);
    lemma_zero_wf();
    if xs.len() == 0 {
        assert(0 * dd.n * (num.d * 1) == num.n * 0 * (1 * dd.d)) by (nonlinear_arith);
    } else {
        assert(forall|i: int| 0 <= i < xs.drop_last().len() ==> xs.drop_last()[i] == xs[i]);
        assert(forall|i: int| 0 <= i < ws.drop_last().len() ==> ws.drop_last()[i] == ws[i]);
        lemma_scaled_sum(xs.drop_last(), ws.drop_last(), num, dd);
        let sb0 = raw_sum(xs.drop_last());
        let w0 = fold_sum_chk(ws.drop_last(), idq).unwrap();
        let x = xs.last();
        let w = ws.last();
        assert(xs.last() == xs[xs.len() - 1] && ws.last() == ws[ws.len() - 1]);
        lemma_add_value(w0, w);
        let r = q_add(w0, w);
        assert(forall|i: int| 0 <= i < xs.drop_last().len() ==> (#[trigger] xs.drop_last()[
            i
        ]).d >= 1);
        lemma_raw_sum_den(xs.drop_last());
        lemma_scaled_sum_step(
            sb0.n,
            sb0.d,
            x.n,
            x.d,
            dd.n,
            dd.d,
            num.n,
            num.d,
            w.n,
            w.d,
            w0.n,
            w0.d,
            r.n,
            r.d,
        );
    }
}

/// The checked, reduced fold over mapped parts equals the plain fold of the
/// mapped sequence.
proof fn lemma_fold_map<A>(s: Seq<A>, f: spec_fn(A) -> Option<Q>, g: spec_fn(A) -> Q)
    requires
        forall|i: int| 0 <= i < s.len() ==> (#[trigger] f(s[i])) == Some(g(s[i])),
    ensures
        fold_sum_chk(s, f) == fold_sum_chk(s.map_values(g), |q: Q| Some(q)),
    decreases s.len(),
{
    if s.len() > 0 {
        assert(forall|i: int| 0 <= i < s.drop_last().len() ==> s.drop_last()[i] == s[i]);
        lemma_fold_map(s.drop_last(), f, g);
        assert(s.map_values(g).drop_last() =~= s.drop_last().map_values(g));
        assert(s.last() == s[s.len() - 1]);
        assert(s.map_values(g).last() == g(s.last()));
    }
}

/// Value equality is transitive over positive denominators.
proof fn lemma_eqv_trans(a: Q, b: Q, c: Q)
    requires
        b.d >= 1,
        q_eqv(a, b),
        q_eqv(b, c),
    ensures
        q_eqv(a, c),
{
    assert((a.n * b.d) * c.d == (b.n * a.d) * c.d) by (nonlinear_arith)
        requires
            a.n * b.d == b.n * a.d,
    ;
    assert((b.n * a.d) * c.d == a.d * (b.n * c.d)) by (nonlinear_arith);
    assert(a.d * (b.n * c.d) == a.d * (c.n * b.d)) by (nonlinear_arith)
        requires
            b.n * c.d == c.n * b.d,
    ;
    assert(a.d * (c.n * b.d) == (c.n * a.d) * b.d) by (nonlinear_arith);
    assert((a.n * b.d) * c.d == (a.n * c.d) * b.d) by (nonlinear_arith);
    assert(a.n * c.d == c.n * a.d) by (nonlinear_arith)
        requires
            (a.n * c.d) * b.d == (c.n * a.d) * b.d,
            b.d >= 1,
    ;
}

/// Adding value-equal parts gives value-equal unreduced sums.
proof fn lemma_addraw_cong(x: Q, x2: Q, y: Q, y2: Q)
    requires
        q_eqv(x, x2),
        q_eqv(y, y2),
    ensures
        q_eqv(q_add_raw(x, y), q_add_raw(x2, y2)),
{
    assert((x.n * y.d) * (x2.d * y2.d) == (x.n * x2.d) * (y.d * y2.d)) by (nonlinear_arith);
    assert((x.n * x2.d) * (y.d * y2.d) == (x2.n * x.d) * (y.d * y2.d)) by (nonlinear_arith)
        requires
            x.n * x2.d == x2.n * x.d,
    ;
    assert((x2.n * x.d) * (y.d * y2.d) == (x2.n * y2.d) * (x.d * y.d)) by (nonlinear_arith);
    assert((y.n * x.d) * (x2.d * y2.d) == (y.n * y2.d) * (x.d * x2.d)) by (nonlinear_arith);
    assert((y.n * y2.d) * (x.d * x2.d) == (y2.n * y.d) * (x.d * x2.d)) by (nonlinear_arith)
        requires
            y.n * y2.d == y2.n * y.d,
    ;
    assert((y2.n * y.d) * (x.d * x2.d) == (y2.n * x2.d) * (x.d * y.d)) by (nonlinear_arith);
    lemma_distribute(x.n * y.d, y.n * x.d, x2.d * y2.d);
    lemma_distribute(x2.n * y2.d, y2.n * x2.d, x.d * y.d);
}

/// Regrouping an unreduced sum of four parts, numerator and denominator.
proof fn lemma_regroup(an: int, ad: int, bn: int, bd: int, cn: int, cd: int, dn: int, dd: int)
    ensures
        (an * bd + bn * ad) * (cd * dd) + (cn * dd + dn * cd) * (ad * bd) == (an * cd + cn * ad)
            * (bd * dd) + (bn * dd + dn * bd) * (ad * cd),
        (ad * bd) * (cd * dd) == (ad * cd) * (bd * dd),
{
    lemma_distribute(an * bd, bn * ad, cd * dd);
    lemma_distribute(cn * dd, dn * cd, ad * bd);
    lemma_distribute(an * cd, cn * ad, bd * dd);
    lemma_distribute(bn * dd, dn * bd, ad * cd);
    assert((an * bd) * (cd * dd) == (an * cd) * (bd * dd)) by (nonlinear_arith);
    assert((bn * ad) * (cd * dd) == (bn * dd) * (ad * cd)) by (nonlinear_arith);
    assert((cn * dd) * (ad * bd) == (cn * ad) * (bd * dd)) by (nonlinear_arith);
    assert((dn * cd) * (ad * bd) == (dn * bd) * (ad * cd)) by (nonlinear_arith);
    assert((ad * bd) * (cd * dd) == (ad * cd) * (bd * dd)) by (nonlinear_arith);
}

/// An unreduced sum of pairwise unreduced sums splits into the two
/// unreduced sums, up to value equality.
proof fn lemma_raw_sum_split(bs: Seq<Q>, ps: Seq<Q>, exs: Seq<Q>)
    requires
        bs.len() == ps.len(),
        bs.len() == exs.len(),
        forall|i: int|
            0 <= i < bs.len() ==> (#[trigger] bs[i]).d >= 1 && ps[i].d >= 1 && exs[i].d >= 1,
        forall|i: int| 0 <= i < bs.len() ==> q_eqv(#[trigger] bs[i], q_add_raw(ps[i], exs[i])),
    ensures
        q_eqv(raw_sum(bs), q_add_raw(raw_sum(ps), raw_sum(exs))),
    decreases bs.len(),
{
    if bs.len() == 0 {
        assert(0 * (1 * 1) == (0 * 1 + 0 * 1) * 1) by (nonlinear_arith);
    } else {
        assert(forall|i: int| 0 <= i < bs.drop_last().len() ==> bs.drop_last()[i] == bs[i]);
        assert(forall|i: int| 0 <= i < ps.drop_last().len() ==> ps.drop_last()[i] == ps[i]);
        assert(forall|i: int| 0 <= i < exs.drop_last().len() ==> exs.drop_last()[i] == exs[i]);
        assert forall|i: int| 0 <= i < bs.drop_last().len() implies (#[trigger] bs.drop_last()[
            i
        ]).d >= 1 && (#[trigger] ps.drop_last()[i]).d >= 1 && (#[trigger] exs.drop_last()[
            i
        ]).d >= 1 by {
            assert(bs[i].d >= 1 && ps[i].d >= 1 && exs[i].d >= 1);
        }
        assert forall|i: int| 0 <= i < bs.drop_last().len() implies q_eqv(
            #[trigger] bs.drop_last()[i],
            q_add_raw(ps.drop_last()[i], exs.drop_last()[i]),
        ) by {
            assert(q_eqv(bs[i], q_add_raw(ps[i], exs[i])));
        }
        lemma_raw_sum_split(bs.drop_last(), ps.drop_last(), exs.drop_last());
        let b0 = raw_sum(bs.drop_last());
        let p0 = raw_sum(ps.drop_last());
        let e0 = raw_sum(exs.drop_last());
        let b = bs.last();
        let p = ps.last();
        let e = exs.last();
        assert(bs.last() == bs[bs.len() - 1] && ps.last() == ps[ps.len() - 1] && exs.last()
            == exs[exs.len() - 1]);
        lemma_addraw_cong(b0, q_add_raw(p0, e0), b, q_add_raw(p, e));
        let xx = q_add_raw(q_add_raw(p0, e0), q_add_raw(p, e));
        let yy = q_add_raw(q_add_raw(p0, p), q_add_raw(e0, e));
        lemma_regroup(p0.n, p0.d, e0.n, e0.d, p.n, p.d, e.n, e.d);
        assert(xx.n == yy.n && xx.d == yy.d);
        assert(q_eqv(xx, yy));
        assert forall|i: int| 0 <= i < ps.drop_last().len() implies (#[trigger] ps.drop_last()[
            i
        ]).d >= 1 by {
            assert(bs[i].d >= 1 && ps[i].d >= 1);
        }
        assert forall|i: int|
            0 <= i < exs.drop_last().len() implies (#[trigger] exs.drop_last()[i]).d >= 1 by {
            assert(bs[i].d >= 1 && exs[i].d >= 1);
        }
        lemma_raw_sum_den(ps.drop_last());
        lemma_raw_sum_den(exs.drop_last());
        assert(xx.d >= 1) by (nonlinear_arith)
            requires
                xx.d == (p0.d * e0.d) * (p.d * e.d),
                p0.d >= 1,
                e0.d >= 1,
                p.d >= 1,
                e.d >= 1,
        ;
        lemma_eqv_trans(q_add_raw(b0, b), xx, yy);
    }
}

/// An unreduced sum of exact zeros is the exact zero.
proof fn lemma_raw_sum_zeros(xs: Seq<Q>)
    requires
        forall|i: int| 0 <= i < xs.len() ==> (#[trigger] xs[i]) == q_zero(),
    ensures
        raw_sum(xs) == q_zero(),
    decreases xs.len(),
{
    if xs.len() > 0 {
        assert(forall|i: int| 0 <= i < xs.drop_last().len() ==> xs.drop_last()[i] == xs[i]);
        lemma_raw_sum_zeros(xs.drop_last());
        assert(xs.last() == xs[xs.len() - 1]);
        assert(0 * 1 + 0 * 1 == 0 && 1 * 1 == 1) by (nonlinear_arith);
    }
}

/// Conservation: a successful solve spends exactly the contribution — the
/// exact rational sum of all buy amounts equals it.
#[verifier::spinoff_prover]
#[verifier::rlimit(30)]
pub proof fn lemma_conservation(c: Q, s: Seq<AssetModel>, pm: PlanModel)
    requires
        q_wf(c),
        assets_wf(s),
        solve_model(c, s) == Ok::<PlanModel, RebalanceError>(pm),
    ensures
        q_eqv(sum_buys(pm.entries), c),
{
    lemma_solve_pieces(c, s, pm);
    lemma_buy_only(c, s, pm);
    let v = sum_values(s).unwrap();
    let vp = q_add_chk(v, c).unwrap();
    let s_sum = sum_pos_deficits(s, vp).unwrap();
    let t_sum = sum_targets(s).unwrap();
    let lo = if q_le(c, s_sum) {
        q_zero()
    } else {
        q_sub(c, s_sum)
    };
    lemma_zero_wf();
    assert(0 * c.d == 0) by (nonlinear_arith);
    assert(c.n >= 0);
    lemma_sum_values_wf(s);
    lemma_add_value(v, c);
    let fd = |a: AssetModel| pos_deficit_chk(a, vp);
    let ft = |a: AssetModel| Some(a.target);
    let idq = |q: Q| Some(q);
    assert forall|i: int|
        0 <= i < s.len() && (#[trigger] fd(s[i])) is Some implies q_wf(fd(s[i]).unwrap()) && fd(
        s[i],
    ).unwrap().n >= 0 by {
        lemma_pd_wf(s[i], vp);
    }
    lemma_fold_sum_wf(s, fd);
    lemma_fold_sum_wf(s, ft);
    assert(s_sum == fold_sum_chk(s, fd).unwrap());
    assert(t_sum == fold_sum_chk(s, ft).unwrap());
    let es = pm.entries;
    let buys = es.map_values(|e: EntryModel| e.buy_amount);
    let pd_of = |a: AssetModel| pos_deficit_chk(a, vp).unwrap();
    let pds = s.map_values(pd_of);
    assert forall|i: int| 0 <= i < s.len() implies (#[trigger] fd(s[i])) == Some(pd_of(s[i])) by {
        crate::solver::lemma_fold_sum_elem_some(s, fd, i);
    }
    lemma_fold_map(s, fd, pd_of);
    assert(fold_sum_chk(pds, idq) == Some(s_sum));
    assert forall|i: int| 0 <= i < s.len() implies (#[trigger] ft(s[i])) == Some(
        (|a: AssetModel| a.target)(s[i]),
    ) by {}
    lemma_fold_map(s, ft, |a: AssetModel| a.target);
    let tgts = s.map_values(|a: AssetModel| a.target);
    assert(fold_sum_chk(tgts, idq) == Some(t_sum));
    let sb = raw_sum(buys);
    assert(buys.len() == s.len());
    assert(forall|i: int| 0 <= i < buys.len() ==> (#[trigger] buys[i]) == es[i].buy_amount);
    assert(forall|i: int| 0 <= i < pds.len() ==> (#[trigger] pds[i]) == pd_of(s[i]));
    if q_le(c, s_sum) {
        assert forall|i: int| 0 <= i < buys.len() implies (#[trigger] buys[i]).d >= 1 && q_wf(
            #[trigger] pds[i],
        ) && pds[i].n >= 0 by {
            assert(fd(s[i]) is Some);
            lemma_pd_wf(s[i], vp);
        }
        assert forall|i: int| 0 <= i < buys.len() implies (#[trigger] buys[i]).n * s_sum.n * (c.d
            * pds[i].d) == c.n * pds[i].n * (buys[i].d * s_sum.d) by {
            lemma_entries_index(s, c, v, vp, s_sum, t_sum, lo, es, i);
            lemma_pd_wf(s[i], vp);
            let pd = pds[i];
            let buy = buys[i];
            if pd.n > 0 && s_sum.n > 0 {
                let m = q_mul(c, pd);
                lemma_mul_value(c, pd);
                lemma_div_value(m, s_sum);
                lemma_ratio_chain(
                    buy.n,
                    buy.d,
                    m.n,
                    m.d,
                    s_sum.n,
                    s_sum.d,
                    c.n,
                    c.d,
                    pd.n,
                    pd.d,
                );
            } else {
                assert(buy == q_zero());
                if pd.n > 0 {
                    assert(c.n == 0) by (nonlinear_arith)
                        requires
                            c.n * s_sum.d <= s_sum.n * c.d,
                            s_sum.n == 0,
                            s_sum.d >= 1,
                            c.n >= 0,
                            c.d >= 1,
                    ;
                }
                assert(0 * s_sum.n * (c.d * pd.d) == 0 && c.n * pd.n * (1 * s_sum.d) == 0) by (
                nonlinear_arith)
                    requires
                        c.n == 0 || pd.n == 0,
                ;
            }
        }
        lemma_scaled_sum(buys, pds, c, s_sum);
        assert(sb.n * s_sum.n * (c.d * s_sum.d) == c.n * s_sum.n * (sb.d * s_sum.d));
        if s_sum.n > 0 {
            assert((sb.n * c.d) * (s_sum.n * s_sum.d) == (c.n * sb.d) * (s_sum.n * s_sum.d)) by (
            nonlinear_arith)
                requires
                    sb.n * s_sum.n * (c.d * s_sum.d) == c.n * s_sum.n * (sb.d * s_sum.d),
            ;
            assert(sb.n * c.d == c.n * sb.d) by (nonlinear_arith)
                requires
                    (sb.n * c.d) * (s_sum.n * s_sum.d) == (c.n * sb.d) * (s_sum.n * s_sum.d),
                    s_sum.n >= 1,
                    s_sum.d >= 1,
            ;
        } else {
            assert(c.n == 0) by (nonlinear_arith)
                requires
                    c.n * s_sum.d <= s_sum.n * c.d,
                    s_sum.n == 0,
                    s_sum.d >= 1,
                    c.n >= 0,
                    c.d >= 1,
            ;
            assert forall|i: int| 0 <= i < buys.len() implies (#[trigger] buys[i]) == q_zero() by {
                lemma_entries_index(s, c, v, vp, s_sum, t_sum, lo, es, i);
            }
            lemma_raw_sum_zeros(buys);
            assert(0 * c.d == c.n * 1);
        }
    } else {
        lemma_sub_value(c, s_sum);
        let extra_of = |i: int| if t_sum.n > 0 {
            crate::rational::q_div(q_mul(lo, s[i].target), t_sum)
        } else if i == 0 {
            lo
        } else {
            q_zero()
        };
        let exs = Seq::new(s.len() as nat, extra_of);
        assert forall|i: int| 0 <= i < buys.len() implies {
            &&& (#[trigger] buys[i]).d >= 1
            &&& pds[i].d >= 1
            &&& exs[i].d >= 1
            &&& q_wf(pds[i])
            &&& pds[i].n >= 0
            &&& q_wf(exs[i])
            &&& q_eqv(buys[i], q_add_raw(pds[i], exs[i]))
            &&& (t_sum.n > 0 ==> exs[i].n * t_sum.n * (lo.d * s[i].target.d) == lo.n * s[
                i
            ].target.n * (exs[i].d * t_sum.d))
        } by {
            lemma_entries_index(s, c, v, vp, s_sum, t_sum, lo, es, i);
            lemma_pd_wf(s[i], vp);
            let pd = pds[i];
            if t_sum.n > 0 {
                let m = q_mul(lo, s[i].target);
                lemma_mul_value(lo, s[i].target);
                lemma_div_value(m, t_sum);
                lemma_ratio_chain(
                    exs[i].n,
                    exs[i].d,
                    m.n,
                    m.d,
                    t_sum.n,
                    t_sum.d,
                    lo.n,
                    lo.d,
                    s[i].target.n,
                    s[i].target.d,
                );
            }
            assert(buys[i] == q_add(pd, exs[i]));
            lemma_add_value(pd, exs[i]);
        }
        assert forall|i: int| 0 <= i < pds.len() implies (#[trigger] pds[i]).d >= 1 by {
            assert(buys[i].d >= 1);
        }
        assert forall|i: int| 0 <= i < exs.len() implies (#[trigger] exs[i]).d >= 1 by {
            assert(buys[i].d >= 1);
        }
        assert forall|i: int| 0 <= i < tgts.len() implies q_wf(#[trigger] tgts[i]) && tgts[
            i
        ].n >= 0 by {
            assert(q_wf(s[i].target));
        }
        lemma_raw_sum_split(buys, pds, exs);
        let rpd = raw_sum(pds);
        let rex = raw_sum(exs);
        lemma_raw_sum_den(pds);
        lemma_raw_sum_den(exs);
        let one = Q { n: 1, d: 1 };
        assert forall|i: int| 0 <= i < pds.len() implies (#[trigger] pds[i]).d >= 1 && q_wf(
            pds[i],
        ) && pds[i].n >= 0 by {
            assert(buys[i].d >= 1);
        }
        assert forall|i: int| 0 <= i < pds.len() implies (#[trigger] pds[i]).n * one.n * (one.d
            * pds[i].d) == one.n * pds[i].n * (pds[i].d * one.d) by {
            assert(pds[i].n * 1 * (1 * pds[i].d) == 1 * pds[i].n * (pds[i].d * 1)) by (
            nonlinear_arith);
        }
        lemma_scaled_sum(pds, pds, one, one);
        assert(rpd.n * 1 * (1 * s_sum.d) == 1 * s_sum.n * (rpd.d * 1));
        assert(q_eqv(rpd, s_sum)) by (nonlinear_arith)
            requires
                rpd.n * 1 * (1 * s_sum.d) == 1 * s_sum.n * (rpd.d * 1),
        ;
        if t_sum.n > 0 {
            assert forall|i: int| 0 <= i < exs.len() implies (#[trigger] exs[i]).d >= 1 && q_wf(
                #[trigger] tgts[i],
            ) && tgts[i].n >= 0 by {
                assert(buys[i].d >= 1);
                assert(q_wf(s[i].target));
            }
            assert forall|i: int| 0 <= i < exs.len() implies (#[trigger] exs[i]).n * t_sum.n * (
            lo.d * tgts[i].d) == lo.n * tgts[i].n * (exs[i].d * t_sum.d) by {
                assert(buys[i].d >= 1);
            }
            lemma_scaled_sum(exs, tgts, lo, t_sum);
            assert(rex.n * t_sum.n * (lo.d * t_sum.d) == lo.n * t_sum.n * (rex.d * t_sum.d));
            assert(q_eqv(rex, lo)) by (nonlinear_arith)
                requires
                    rex.n * t_sum.n * (lo.d * t_sum.d) == lo.n * t_sum.n * (rex.d * t_sum.d),
                    t_sum.n >= 1,
                    t_sum.d >= 1,
            ;
        } else {
            if s.len() == 0 {
                assert(sum_values(s) == Some(q_zero()));
                assert(false);
            }
            assert forall|i: int| 0 <= i < exs.len() implies (#[trigger] exs[i]) == if i == 0 {
                lo
            } else {
                q_zero()
            } by {}
            lemma_rex_degenerate(exs, lo);
        }
        lemma_addraw_cong(rpd, s_sum, rex, lo);
        assert(q_add_raw(rpd, rex).d >= 1) by (nonlinear_arith)
            requires
                rpd.d >= 1,
                rex.d >= 1,
                q_add_raw(rpd, rex).d == rpd.d * rex.d,
        ;
        lemma_eqv_trans(sb, q_add_raw(rpd, rex), q_add_raw(s_sum, lo));
        lemma_distribute(s_sum.n * lo.d, lo.n * s_sum.d, c.d);
        assert((lo.n * s_sum.d) * c.d == lo.n * (c.d * s_sum.d)) by (nonlinear_arith);
        assert((c.n * s_sum.d - s_sum.n * c.d) * lo.d == c.n * (s_sum.d * lo.d) - (s_sum.n * lo.d)
            * c.d) by (nonlinear_arith);
        assert((s_sum.n * lo.d + lo.n * s_sum.d) * c.d == c.n * (s_sum.d * lo.d));
        assert(q_eqv(q_add_raw(s_sum, lo), c));
        assert(q_add_raw(s_sum, lo).d >= 1) by (nonlinear_arith)
            requires
                s_sum.d >= 1,
                lo.d >= 1,
                q_add_raw(s_sum, lo).d == s_sum.d * lo.d,
        ;
        lemma_eqv_trans(sb, q_add_raw(s_sum, lo), c);
    }
}

/// In the all-zero-targets fallback the extras hold the whole leftover in
/// the first place and zero elsewhere, so their unreduced sum is the
/// leftover.
proof fn lemma_rex_degenerate(exs: Seq<Q>, lo: Q)
    requires
        exs.len() >= 1,
        exs[0] == lo,
        forall|i: int| 1 <= i < exs.len() ==> (#[trigger] exs[i]) == q_zero(),
    ensures
        q_eqv(raw_sum(exs), lo),
    decreases exs.len(),
{
    if exs.len() == 1 {
        assert(exs.last() == exs[0]);
        assert(exs[0] == lo);
        assert(exs.drop_last().len() == 0);
        assert(raw_sum(exs.drop_last()) == q_zero());
        assert(raw_sum(exs) == q_add_raw(q_zero(), lo));
        assert((0 * lo.d + lo.n * 1) * lo.d == lo.n * (1 * lo.d)) by (nonlinear_arith);
    } else {
        assert(forall|i: int| 0 <= i < exs.drop_last().len() ==> exs.drop_last()[i] == exs[i]);
        lemma_rex_degenerate(exs.drop_last(), lo);
        let r0 = raw_sum(exs.drop_last());
        assert(exs.last() == exs[exs.len() - 1]);
        assert(exs.last() == q_zero());
        assert(q_add_raw(r0, q_zero()).n == r0.n * 1 + 0 * r0.d && q_add_raw(r0, q_zero()).d
            == r0.d * 1);
        assert(r0.n * 1 + 0 * r0.d == r0.n && r0.d * 1 == r0.d) by (nonlinear_arith);
        assert(q_add_raw(r0, q_zero()) == r0);
    }
}

/// A successful clamped deficit is well-formed and at least zero.
proof fn lemma_pd_wf(a: AssetModel, vp: Q)
    requires
        q_wf(a.target),
        q_wf(a.value),
        q_wf(vp),
        pos_deficit_chk(a, vp) is Some,
    ensures
        q_wf(pos_deficit_chk(a, vp).unwrap()),
        pos_deficit_chk(a, vp).unwrap().n >= 0,
{
    lemma_zero_wf();
    let t = q_mul(a.target, vp);
    lemma_mul_value(a.target, vp);
    let d = q_sub(t, a.value);
    lemma_sub_value(t, a.value);
    if q_lt(q_zero(), d) {
        assert(d.n >= 1) by (nonlinear_arith)
            requires
                0 * d.d < d.n * 1,
        ;
    }
}

} // verus!