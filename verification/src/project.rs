//! Result projection: turn a rebalance plan into display rows and a
//! portfolio into persistence rows. Pure formatting, no computation.

use crate::model::Portfolio;
use crate::rational::Q;
use crate::solver::RebalancePlan;
use crate::text::{cents_string, rounded_cents};
use vstd::prelude::*;

verus! {

/// A fraction rendered as a percentage with a trailing percent sign.
pub open spec fn percent_text(q: Q) -> Seq<char> {
    cents_string(rounded_cents(Q { n: q.n * 100, d: q.d }) as nat) + seq!['%']
}

/// An amount rendered as dollars with a leading dollar sign.
pub open spec fn dollar_text(q: Q) -> Seq<char> {
    seq!['$'] + cents_string(rounded_cents(q) as nat)
}

/// The five display columns for every plan line: ticker, current holding
/// percentage, new holding percentage, target dollar value, and dollar
/// amount to buy, each rounded to two decimals only here.
pub fn to_vec_display(plan: &RebalancePlan) -> (rows: Vec<Vec<String>>)
    requires
        plan.inv(),
        forall|i: int|
            0 <= i < plan@.entries.len() ==> {
                &&& (#[trigger] plan@.entries[i]).current_fraction.n >= 0
                &&& plan@.entries[i].new_fraction.n >= 0
                &&& plan@.entries[i].target_value.n >= 0
                &&& plan@.entries[i].buy_amount.n >= 0
            },
    ensures
        rows@.len() == plan@.entries.len(),
        forall|i: int|
            0 <= i < rows@.len() ==> {
                &&& (#[trigger] rows@[i])@.len() == 5
                &&& rows@[i]@[0]@ == plan@.entries[i].name
                &&& rows@[i]@[1]@ == percent_text(plan@.entries[i].current_fraction)
                &&& rows@[i]@[2]@ == percent_text(plan@.entries[i].new_fraction)
                &&& rows@[i]@[3]@ == dollar_text(plan@.entries[i].target_value)
                &&& rows@[i]@[4]@ == dollar_text(plan@.entries[i].buy_amount)
            },
{
    let mut rows: Vec<Vec<String>> = Vec::new();
    let n = plan.len();
    let mut i: usize = 0;
    while i < n
        invariant
            plan.inv(),
            forall|k: int|
                0 <= k < plan@.entries.len() ==> {
                    &&& (#[trigger] plan@.entries[k]).current_fraction.n >= 0
                    &&& plan@.entries[k].new_fraction.n >= 0
                    &&& plan@.entries[k].target_value.n >= 0
                    &&& plan@.entries[k].buy_amount.n >= 0
                },
            n == plan@.entries.len(),
            i <= n,
            rows@.len() == i,
            forall|k: int|
                0 <= k < i ==> {
                    &&& (#[trigger] rows@[k])@.len() == 5
                    &&& rows@[k]@[0]@ == plan@.entries[k].name
                    &&& rows@[k]@[1]@ == percent_text(plan@.entries[k].current_fraction)
                    &&& rows@[k]@[2]@ == percent_text(plan@.entries[k].new_fraction)
                    &&& rows@[k]@[3]@ == dollar_text(plan@.entries[k].target_value)
                    &&& rows@[k]@[4]@ == dollar_text(plan@.entries[k].buy_amount)
                },
        decreases n - i,
    {
        let e = plan.get(i);
        let mut row: Vec<String> = Vec::new();
        row.push(e.name.clone());
        row.push(percent_string(&e.current_fraction));
        row.push(percent_string(&e.new_fraction));
        row.push(dollar_string(&e.target_value));
        row.push(dollar_string(&e.buy_amount));
        rows.push(row);
        i += 1;
    }
    rows
}

/// A percentage column entry: the fraction times one hundred, two
/// decimals, and a percent sign.
pub fn percent_string(q: &crate::rational::Rat) -> (r: String)
    requires
        q.inv(),
        q@.n >= 0,
    ensures
        r@ == percent_text(q@),
{
    let mut out = crate::text::format_percent(q);
    proof {
        reveal_strlit("%");
    }
    out.append("%");
    proof {
        assert(out@ =~= percent_text(q@));
    }
    out
}

/// A dollar column entry: a dollar sign and the amount with two decimals.
pub fn dollar_string(q: &crate::rational::Rat) -> (r: String)
    requires
        q.inv(),
        q@.n >= 0,
    ensures
        r@ == dollar_text(q@),
{
    proof {
        reveal_strlit("$");
    }
    let mut out = "$".to_owned();
    out.append(crate::text::format_dollars(q).as_str());
    proof {
        assert(out@ =~= dollar_text(q@));
    }
    out
}

/// The persistence rows for a portfolio: each asset's ticker beside its
/// dollar value, the record written back to the holdings snapshot.
pub fn persist_rows(portfolio: &Portfolio) -> (rows: Vec<(String, String)>)
    requires
        portfolio.inv(),
    ensures
        rows@.len() == portfolio@.len(),
        forall|i: int|
            0 <= i < rows@.len() ==> (#[trigger] rows@[i]).0@ == portfolio@[i].name && rows@[
                i
            ].1@ == dollar_text(portfolio@[i].value),
{
    let mut rows: Vec<(String, String)> = Vec::new();
    let n = portfolio.len();
    let mut i: usize = 0;
    while i < n
        invariant
            portfolio.inv(),
            n == portfolio@.len(),
            i <= n,
            rows@.len() == i,
            forall|k: int|
                0 <= k < i ==> (#[trigger] rows@[k]).0@ == portfolio@[k].name && rows@[k].1@
                    == dollar_text(portfolio@[k].value),
        decreases n - i,
    {
        let a = portfolio.get(i);
        let name = a.name.clone();
        let value = dollar_string(&a.value);
        rows.push((name, value));
        i += 1;
    }
    rows
}

} // verus!
