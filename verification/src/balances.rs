//! The balance aggregator: converts per-account, per-currency sums into
//! each account's balance in its own display currency, and derives each
//! account's exchange rate to the target currency.

use crate::data::{duplicate_opt_string, Account, AccountV};
use crate::rates::{
    clamp_i64, convert_amount, resolve_rate, spec_convert, spec_resolve, Rate, RateMap,
};
use vstd::prelude::*;

verus! {

/// One pre-aggregated sum: the total amount of one account's
/// transactions in one currency, in minor units.
#[derive(Debug)]
pub struct CurrencySum {
    pub account_id: i64,
    pub currency: String,
    pub amount: i64,
}

/// A currency sum as specifications see it.
#[verifier::ext_equal]
pub struct CurrencySumV {
    pub account_id: int,
    pub currency: Seq<char>,
    pub amount: int,
}

impl View for CurrencySum {
    type V = CurrencySumV;

    open spec fn view(&self) -> CurrencySumV {
        CurrencySumV {
            account_id: self.account_id as int,
            currency: self.currency@,
            amount: self.amount as int,
        }
    }
}

/// The ghost value of a list of currency sums.
pub open spec fn sums_view(s: Seq<CurrencySum>) -> Seq<CurrencySumV> {
    Seq::new(s.len(), |i: int| s[i]@)
}

/// The currency an account's balance is displayed in: its own, or the
/// requested target when it has none.
pub open spec fn account_target(a: AccountV, target: Seq<char>) -> Seq<char> {
    match a.currency {
        Some(c) => c,
        None => target,
    }
}

/// What one sum contributes to one account: nothing for another account,
/// otherwise the amount converted from its currency into the account's
/// display currency.
pub open spec fn sum_contrib(
    a: AccountV,
    t: CurrencySumV,
    target: Seq<char>,
    live: Map<Seq<char>, Rate>,
    overrides: Map<Seq<char>, Rate>,
) -> int {
    if t.account_id == a.id {
        spec_convert(t.amount, spec_resolve(t.currency, account_target(a, target), live, overrides))
    } else {
        0
    }
}

/// An account's aggregated balance: the converted contributions summed in
/// order, each step clamped into the range of `i64`.
pub open spec fn aggregated_balance(
    a: AccountV,
    raws: Seq<CurrencySumV>,
    target: Seq<char>,
    live: Map<Seq<char>, Rate>,
    overrides: Map<Seq<char>, Rate>,
) -> int
    decreases raws.len(),
{
    if raws.len() == 0 {
        0
    } else {
        clamp_i64(
            aggregated_balance(a, raws.drop_last(), target, live, overrides) + sum_contrib(
                a,
                raws.last(),
                target,
                live,
                overrides,
            ),
        )
    }
}

/// An account after aggregation: the computed balance, and the exchange
/// rate from its own currency to the target, one when it has none.
pub open spec fn aggregated_account(
    a: AccountV,
    raws: Seq<CurrencySumV>,
    target: Seq<char>,
    live: Map<Seq<char>, Rate>,
    overrides: Map<Seq<char>, Rate>,
) -> AccountV {
    AccountV {
        balance: aggregated_balance(a, raws, target, live, overrides),
        rate: match a.currency {
            Some(c) => spec_resolve(c, target, live, overrides),
            None => Rate::spec_one(),
        },
        ..a
    }
}

/// Computes every account's balance from pre-aggregated per-currency
/// sums, converting each sum into the account's display currency with
/// the resolved rate, and derives each account's exchange rate to the
/// target currency. Pure: it reads only its inputs, and missing rate
/// data degrades to the identity rate, never to a failure.
pub fn calculate_account_balances(
    accounts: Vec<Account>,
    raw: Vec<CurrencySum>,
    target: &str,
    live: &RateMap,
    overrides: &RateMap,
) -> (r: Vec<Account>)
    requires
        live.wf(),
        overrides.wf(),
    ensures
        r@.len() == accounts@.len(),
        forall|k: int|
            0 <= k < accounts@.len() ==> (#[trigger] r@[k])@ == aggregated_account(
                accounts@[k]@,
                sums_view(raw@),
                target@,
                live@,
                overrides@,
            ),
{
    let ghost rawv = sums_view(raw@);
    let n = accounts.len();
    let m = raw.len();
    let mut out: Vec<Account> = Vec::new();
    let mut k: usize = 0;
    while k < n
        invariant
            n == accounts@.len(),
            m == raw@.len(),
            k <= n,
            k == out@.len(),
            live.wf(),
            overrides.wf(),
            rawv == sums_view(raw@),
            forall|p: int|
                0 <= p < k ==> (#[trigger] out@[p])@ == aggregated_account(
                    accounts@[p]@,
                    rawv,
                    target@,
                    live@,
                    overrides@,
                ),
        decreases n - k,
    {
        let acc = &accounts[k];
        let mut bal: i64 = 0;
        let mut j: usize = 0;
        proof {
            assert(rawv.take(0) =~= Seq::<CurrencySumV>::empty());
        }
        while j < m
            invariant
                n == accounts@.len(),
                m == raw@.len(),
                k < n,
                j <= m,
                live.wf(),
                overrides.wf(),
                rawv == sums_view(raw@),
                acc == &accounts@[k as int],
                bal == aggregated_balance(
                    accounts@[k as int]@,
                    rawv.take(j as int),
                    target@,
                    live@,
                    overrides@,
                ),
            decreases m - j,
        {
            proof {
                assert(rawv.take(j + 1).drop_last() =~= rawv.take(j as int));
                assert(rawv.take(j + 1).last() == rawv[j as int]);
            }
            if raw[j].account_id == acc.id {
                let tgt: &str = match &acc.currency {
                    Some(c) => c.as_str(),
                    None => target,
                };
                let rate = resolve_rate(raw[j].currency.as_str(), tgt, live, overrides);
                let converted = convert_amount(raw[j].amount, rate);
                match bal.checked_add(converted) {
                    Some(nb) => {
                        bal = nb;
                    },
                    None => {
                        if converted >= 0 {
                            bal = i64::MAX;
                        } else {
                            bal = i64::MIN;
                        }
                    },
                }
            }
            j += 1;
        }
        proof {
            assert(rawv.take(m as int) =~= rawv);
        }
        let rate_val = match &acc.currency {
            Some(c) => resolve_rate(c.as_str(), target, live, overrides),
            None => Rate::one(),
        };
        let updated = Account {
            id: acc.id,
            name: acc.name.clone(),
            balance: bal,
            currency: duplicate_opt_string(&acc.currency),
            kind: acc.kind.clone(),
            exchange_rate: rate_val,
        };
        proof {
            assert(updated@ =~~= aggregated_account(
                accounts@[k as int]@,
                rawv,
                target@,
                live@,
                overrides@,
            ));
        }
        out.push(updated);
        k += 1;
    }
    out
}

} // verus!
