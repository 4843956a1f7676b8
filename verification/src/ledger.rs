//! The ledger itself: the in-memory state all operations work on, and the
//! account-manager operations.

use crate::data::{
    duplicate_opt_string, Account, AccountV, CreateBrokerageArgsV, CreateBrokerageTransactionArgs,
    CreateTransactionArgs, CreateTxArgsV, LedgerError, Rule, Transaction, TxV,
    UpdateBrokerageArgsV, UpdateBrokerageTransactionArgs, UpdateTransactionArgs, UpdateTxArgsV,
};
use crate::model::{
    account_index, account_index_from, apply_deltas, balanced, delta_total, deltas_fit,
    fallback_index, fallback_from, inv, is_fallback_counterpart, is_transfer_target,
    link_symmetric, transfer_target_from, transfer_target_index, tx_index, tx_index_from, tx_sum,
    LedgerV,
};
use crate::rates::{Rate, RateMap};
use crate::textutil::{
    dec_digits, eq_ignore_ascii_case, lex_le, str_eq, str_eq_ignore_ascii_case, str_le,
    u64_to_string,
};
use vstd::prelude::*;

verus! {

/// The view of a sequence of viewable values, element by element.
pub open spec fn seq_view<T: View>(s: Seq<T>) -> Seq<T::V> {
    Seq::new(s.len(), |i: int| s[i]@)
}

/// The ghost value of a list of balance adjustments.
pub open spec fn deltas_view(s: Seq<(usize, i64)>) -> Seq<(int, int)> {
    Seq::new(s.len(), |i: int| (s[i].0 as int, s[i].1 as int))
}

/// The in-memory ledger: accounts, transactions, categorization rules and
/// user-supplied override rates, together with the id counters the next
/// rows will take.
pub struct Ledger {
    accounts: Vec<Account>,
    txs: Vec<Transaction>,
    rules: Vec<Rule>,
    custom_rates: RateMap,
    next_account_id: i64,
    next_tx_id: i64,
    next_rule_id: i64,
}

impl View for Ledger {
    type V = LedgerV;

    closed spec fn view(&self) -> LedgerV {
        LedgerV {
            accounts: seq_view(self.accounts@),
            txs: seq_view(self.txs@),
            rules: seq_view(self.rules@),
            custom: self.custom_rates@,
            next_account_id: self.next_account_id as int,
            next_tx_id: self.next_tx_id as int,
            next_rule_id: self.next_rule_id as int,
        }
    }
}

/// A character `str::trim` would remove.
pub open spec fn is_space_char(c: char) -> bool {
    c == ' ' || c == '\t' || c == '\n' || c == '\r'
}

/// A name that is empty or whitespace only.
pub open spec fn blank(s: Seq<char>) -> bool {
    forall|i: int| 0 <= i < s.len() ==> is_space_char(#[trigger] s[i])
}

/// The note written on the brokerage row of a trade.
fn make_brokerage_note(is_buy: bool, shares: u64, ticker: &str) -> (r: String)
    ensures
        r@ == brokerage_note(is_buy, shares as int, ticker@),
{
    let mut s = if is_buy {
        "Bought ".to_owned()
    } else {
        "Sold ".to_owned()
    };
    let num = u64_to_string(shares);
    s.append(num.as_str());
    s.append(" shares of ");
    s.append(ticker);
    s
}

/// The note written on the cash row of a trade.
fn make_cash_note(is_buy: bool, shares: u64, ticker: &str) -> (r: String)
    ensures
        r@ == cash_note(is_buy, shares as int, ticker@),
{
    let mut s = if is_buy {
        "Buy ".to_owned()
    } else {
        "Sell ".to_owned()
    };
    let num = u64_to_string(shares);
    s.append(num.as_str());
    s.append(" shares of ");
    s.append(ticker);
    s
}

/// Whether the string is empty or whitespace only.
fn is_blank(s: &str) -> (r: bool)
    ensures
        r == blank(s@),
{
    let n = s.unicode_len();
    let mut i: usize = 0;
    while i < n
        invariant
            n == s@.len(),
            i <= n,
            forall|j: int| 0 <= j < i ==> is_space_char(#[trigger] s@[j]),
        decreases n - i,
    {
        let c = s.get_char(i);
        if !(c == ' ' || c == '\t' || c == '\n' || c == '\r') {
            return false;
        }
        i += 1;
    }
    true
}

/// Adds the given deltas to the given account positions, in order, with
/// every intermediate balance checked against the range of `i64`. Either
/// all adjustments are applied, or none is and `false` comes back.
fn try_apply_deltas(accounts: &mut Vec<Account>, ds: &Vec<(usize, i64)>) -> (ok: bool)
    ensures
        ok == deltas_fit(seq_view(old(accounts)@), deltas_view(ds@)),
        ok ==> seq_view(final(accounts)@) =~= apply_deltas(
            seq_view(old(accounts)@),
            deltas_view(ds@),
        ),
        !ok ==> *final(accounts) == *old(accounts),
{
    let ghost accs0 = seq_view(accounts@);
    let ghost dsv = deltas_view(ds@);
    let n = accounts.len();
    let mut bals: Vec<i64> = Vec::new();
    let mut k: usize = 0;
    while k < n
        invariant
            n == accounts@.len(),
            k == bals@.len(),
            k <= n,
            accs0 == seq_view(accounts@),
            forall|j: int| 0 <= j < k ==> bals@[j] == accounts@[j].balance,
        decreases n - k,
    {
        bals.push(accounts[k].balance);
        k += 1;
    }
    let m = ds.len();
    let mut j: usize = 0;
    proof {
        assert(dsv.take(0) =~= Seq::<(int, int)>::empty());
    }
    while j < m
        invariant
            m == ds@.len(),
            j <= m,
            n == accounts@.len(),
            accs0 == seq_view(accounts@),
            dsv == deltas_view(ds@),
            bals@.len() == n,
            deltas_fit(accs0, dsv.take(j as int)),
            apply_deltas(accs0, dsv.take(j as int)).len() == n,
            forall|p: int|
                0 <= p < n ==> bals@[p] == apply_deltas(accs0, dsv.take(j as int))[p].balance,
        decreases m - j,
    {
        proof {
            crate::model::lemma_apply_deltas_shape(accs0, dsv.take(j as int));
            assert(dsv.take(j + 1).drop_last() =~= dsv.take(j as int));
        }
        let (i, d) = ds[j];
        if i >= n {
            proof {
                if deltas_fit(accs0, dsv) {
                    lemma_deltas_fit_prefix(accs0, dsv, j + 1);
                }
            }
            return false;
        }
        match bals[i].checked_add(d) {
            Some(nb) => {
                bals[i] = nb;
            },
            None => {
                proof {
                    if deltas_fit(accs0, dsv) {
                        lemma_deltas_fit_prefix(accs0, dsv, j + 1);
                    }
                }
                return false;
            },
        }
        j += 1;
        proof {
            assert(forall|p: int|
                0 <= p < n && p != dsv[j - 1].0 ==> apply_deltas(accs0, dsv.take(j as int))[p]
                    == apply_deltas(accs0, dsv.take(j - 1))[p]);
        }
    }
    proof {
        assert(dsv.take(m as int) =~= dsv);
        crate::model::lemma_apply_deltas_shape(accs0, dsv);
    }
    let mut k: usize = 0;
    while k < n
        invariant
            n == accounts@.len(),
            k <= n,
            bals@.len() == n,
            apply_deltas(accs0, dsv).len() == n,
            forall|p: int| 0 <= p < n ==> bals@[p] == apply_deltas(accs0, dsv)[p].balance,
            forall|p: int| k <= p < n ==> accounts@[p]@ == accs0[p],
            forall|p: int| 0 <= p < k ==> accounts@[p]@ == apply_deltas(accs0, dsv)[p],
            forall|p: int|
                0 <= p < n ==> {
                    let after = #[trigger] apply_deltas(accs0, dsv)[p];
                    &&& after.id == accs0[p].id
                    &&& after.name == accs0[p].name
                    &&& after.currency == accs0[p].currency
                    &&& after.kind == accs0[p].kind
                    &&& after.rate == accs0[p].rate
                },
        decreases n - k,
    {
        let nb = bals[k];
        accounts[k].balance = nb;
        k += 1;
    }
    proof {
        assert(seq_view(accounts@) =~= apply_deltas(accs0, dsv));
    }
    true
}

/// A delta list that fits as a whole fits in every prefix.
proof fn lemma_deltas_fit_prefix(accounts: Seq<crate::data::AccountV>, ds: Seq<(int, int)>, m: int)
    requires
        deltas_fit(accounts, ds),
        0 <= m <= ds.len(),
    ensures
        deltas_fit(accounts, ds.take(m)),
    decreases ds.len(),
{
    if m == ds.len() {
        assert(ds.take(m) =~= ds);
    } else {
        assert(ds.drop_last() =~= ds.take(ds.len() - 1));
        lemma_deltas_fit_prefix(accounts, ds.take(ds.len() - 1), m);
        assert(ds.take(ds.len() - 1).take(m) =~= ds.take(m));
    }
}

/// Whether an account collides with a proposed name: same name up to
/// ASCII case, and not the account `exclude` itself.
pub open spec fn name_clash(a: AccountV, name: Seq<char>, exclude: int) -> bool {
    a.id != exclude && eq_ignore_ascii_case(a.name, name)
}

/// Whether any account other than `exclude` already has this name up to
/// ASCII case.
pub open spec fn name_taken(accounts: Seq<AccountV>, name: Seq<char>, exclude: int) -> bool {
    exists|i: int| 0 <= i < accounts.len() && name_clash(#[trigger] accounts[i], name, exclude)
}

/// The account a successful `create_account` adds.
pub open spec fn created_account(
    l: LedgerV,
    name: Seq<char>,
    balance: int,
    kind: Seq<char>,
    currency: Option<Seq<char>>,
) -> AccountV {
    AccountV {
        id: l.next_account_id,
        name,
        balance,
        currency,
        kind,
        rate: Rate::spec_one(),
    }
}

/// The opening-balance transaction a successful `create_account` with a
/// non-zero balance adds.
pub open spec fn opening_tx(l: LedgerV, balance: int, date: Seq<char>) -> TxV {
    TxV {
        id: l.next_tx_id,
        account_id: l.next_account_id,
        date,
        payee: "Opening Balance"@,
        notes: Some("Initial Balance"@),
        category: Some("Income"@),
        amount: balance,
        ticker: None,
        shares: None,
        price_per_share: None,
        fee: None,
        currency: None,
        linked: None,
    }
}

/// The ledger after a successful `create_account`.
pub open spec fn create_account_spec(
    l: LedgerV,
    name: Seq<char>,
    balance: int,
    kind: Seq<char>,
    currency: Option<Seq<char>>,
    date: Seq<char>,
) -> LedgerV {
    let a = created_account(l, name, balance, kind, currency);
    if balance != 0 {
        LedgerV {
            accounts: l.accounts.push(a),
            txs: l.txs.push(opening_tx(l, balance, date)),
            next_account_id: l.next_account_id + 1,
            next_tx_id: l.next_tx_id + 1,
            ..l
        }
    } else {
        LedgerV {
            accounts: l.accounts.push(a),
            next_account_id: l.next_account_id + 1,
            ..l
        }
    }
}

/// Whether `create_account` accepts these inputs on this ledger: a
/// non-blank, untaken name, and room in the id counters.
pub open spec fn create_account_ok(l: LedgerV, name: Seq<char>, balance: int) -> bool {
    &&& !blank(name)
    &&& !name_taken(l.accounts, name, 0)
    &&& l.next_account_id < i64::MAX
    &&& (balance != 0 ==> l.next_tx_id < i64::MAX)
}

/// The ledger after an account's name, and possibly its currency, is
/// overwritten in place.
pub open spec fn set_account_fields_spec(
    l: LedgerV,
    ai: int,
    name: Seq<char>,
    currency: Option<Seq<char>>,
) -> LedgerV {
    LedgerV {
        accounts: l.accounts.update(
            ai,
            AccountV { name, currency, ..l.accounts[ai] },
        ),
        ..l
    }
}

/// Whether renaming account `id` to `name` is accepted: the name is not
/// blank, the account exists, and no other account holds the name.
pub open spec fn rename_ok(l: LedgerV, id: int, name: Seq<char>) -> bool {
    &&& !blank(name)
    &&& account_index(l.accounts, id) >= 0
    &&& !name_taken(l.accounts, name, id)
}

/// Whether the transaction with id `tid` exists and is owned by account
/// `aid`.
pub open spec fn tx_owned_by(txs: Seq<TxV>, tid: int, aid: int) -> bool {
    let i = tx_index(txs, tid);
    i >= 0 && txs[i].account_id == aid
}

/// A transaction with its `linked` reference cleared when that reference
/// points at a row of the account being deleted.
pub open spec fn clear_dangling(t: TxV, txs: Seq<TxV>, aid: int) -> TxV {
    if t.linked is Some && tx_owned_by(txs, t.linked->0, aid) {
        TxV { linked: None, ..t }
    } else {
        t
    }
}

/// The transactions left after account `aid` is deleted: its own rows are
/// gone, and links of other rows that pointed into it are cleared.
pub open spec fn delete_account_txs(all: Seq<TxV>, s: Seq<TxV>, aid: int) -> Seq<TxV>
    decreases s.len(),
{
    if s.len() == 0 {
        Seq::empty()
    } else {
        let rest = delete_account_txs(all, s.drop_last(), aid);
        if s.last().account_id == aid {
            rest
        } else {
            rest.push(clear_dangling(s.last(), all, aid))
        }
    }
}

/// The ledger after the account at position `ai` is deleted with all its
/// transactions.
pub open spec fn delete_account_spec(l: LedgerV, ai: int) -> LedgerV {
    LedgerV {
        accounts: l.accounts.remove(ai),
        txs: delete_account_txs(l.txs, l.txs, l.accounts[ai].id),
        ..l
    }
}

/// Row `q` of the delete transform has an origin: a row of another
/// account, kept with at most its link cleared.
spec fn origin_of(all: Seq<TxV>, s: Seq<TxV>, aid: int, q: int) -> bool {
    exists|p: int|
        0 <= p < s.len() && (#[trigger] s[p]).account_id != aid && delete_account_txs(all, s, aid)[q]
            == clear_dangling(s[p], all, aid)
}

/// Row `p` of the input, when kept, appears in the delete transform.
spec fn appears_in(all: Seq<TxV>, s: Seq<TxV>, aid: int, p: int) -> bool {
    exists|q: int|
        0 <= q < delete_account_txs(all, s, aid).len() && (#[trigger] delete_account_txs(
            all,
            s,
            aid,
        )[q]) == clear_dangling(s[p], all, aid)
}

/// What deleting an account leaves of the transactions: every row kept
/// comes from a row of another account with at most its link cleared,
/// every such row is kept, ids stay unique, and sums of other accounts
/// stay what they were.
proof fn lemma_delete_txs_props(all: Seq<TxV>, s: Seq<TxV>, aid: int)
    requires
        forall|i: int, j: int| 0 <= i < j < s.len() ==> s[i].id != s[j].id,
    ensures
        forall|q: int|
            0 <= q < delete_account_txs(all, s, aid).len() ==> #[trigger] origin_of(
                all,
                s,
                aid,
                q,
            ),
        forall|p: int|
            0 <= p < s.len() && (#[trigger] s[p]).account_id != aid ==> appears_in(all, s, aid, p),
        forall|i: int, j: int|
            0 <= i < j < delete_account_txs(all, s, aid).len() ==> delete_account_txs(
                all,
                s,
                aid,
            )[i].id != delete_account_txs(all, s, aid)[j].id,
        forall|q: int|
            0 <= q < delete_account_txs(all, s, aid).len() ==> (#[trigger] delete_account_txs(
                all,
                s,
                aid,
            )[q]).account_id != aid,
    decreases s.len(),
{
    if s.len() > 0 {
        lemma_delete_txs_props(all, s.drop_last(), aid);
        let r = delete_account_txs(all, s, aid);
        let rest = delete_account_txs(all, s.drop_last(), aid);
        if s.last().account_id != aid {
            assert forall|q: int| 0 <= q < r.len() implies #[trigger] origin_of(
                all,
                s,
                aid,
                q,
            ) by {
                if q < rest.len() {
                    assert(origin_of(all, s.drop_last(), aid, q));
                    let p = choose|p: int|
                        0 <= p < s.drop_last().len() && (#[trigger] s.drop_last()[p]).account_id
                            != aid && rest[q] == clear_dangling(s.drop_last()[p], all, aid);
                    assert(s[p].account_id != aid && r[q] == clear_dangling(s[p], all, aid));
                } else {
                    let p = s.len() - 1;
                    assert(s[p].account_id != aid && r[q] == clear_dangling(s[p], all, aid));
                }
            }
            assert forall|p: int|
                0 <= p < s.len() && (#[trigger] s[p]).account_id != aid implies appears_in(
                all,
                s,
                aid,
                p,
            ) by {
                if p < s.len() - 1 {
                    assert(appears_in(all, s.drop_last(), aid, p));
                    let q = choose|q: int|
                        0 <= q < rest.len() && (#[trigger] rest[q]) == clear_dangling(
                            s.drop_last()[p],
                            all,
                            aid,
                        );
                    assert(r[q] == clear_dangling(s[p], all, aid));
                } else {
                    assert(r[r.len() - 1] == clear_dangling(s[p], all, aid));
                }
            }
            assert forall|i: int, j: int| 0 <= i < j < r.len() implies r[i].id != r[j].id by {
                if j == r.len() - 1 {
                    assert(origin_of(all, s.drop_last(), aid, i));
                    let p = choose|p: int|
                        0 <= p < s.drop_last().len() && (#[trigger] s.drop_last()[p]).account_id
                            != aid && rest[i] == clear_dangling(s.drop_last()[p], all, aid);
                    assert(r[i].id == s[p].id);
                    assert(r[j].id == s[s.len() - 1].id);
                }
            }
        } else {
            assert forall|q: int| 0 <= q < r.len() implies #[trigger] origin_of(
                all,
                s,
                aid,
                q,
            ) by {
                assert(origin_of(all, s.drop_last(), aid, q));
                let p = choose|p: int|
                    0 <= p < s.drop_last().len() && (#[trigger] s.drop_last()[p]).account_id
                        != aid && rest[q] == clear_dangling(s.drop_last()[p], all, aid);
                assert(s[p].account_id != aid && r[q] == clear_dangling(s[p], all, aid));
            }
            assert forall|p: int|
                0 <= p < s.len() && (#[trigger] s[p]).account_id != aid implies appears_in(
                all,
                s,
                aid,
                p,
            ) by {
                assert(appears_in(all, s.drop_last(), aid, p));
                let q = choose|q: int|
                    0 <= q < rest.len() && (#[trigger] rest[q]) == clear_dangling(
                        s.drop_last()[p],
                        all,
                        aid,
                    );
                assert(r[q] == clear_dangling(s[p], all, aid));
            }
        }
    }
}

/// Deleting an account's rows leaves every other account's sum unchanged.
proof fn lemma_delete_txs_sum(all: Seq<TxV>, s: Seq<TxV>, aid: int, other: int)
    requires
        other != aid,
    ensures
        tx_sum(delete_account_txs(all, s, aid), other) == tx_sum(s, other),
    decreases s.len(),
{
    if s.len() > 0 {
        lemma_delete_txs_sum(all, s.drop_last(), aid, other);
        if s.last().account_id != aid {
            crate::model::lemma_tx_sum_push(
                delete_account_txs(all, s.drop_last(), aid),
                clear_dangling(s.last(), all, aid),
                other,
            );
        }
    }
}

/// The row a successful `create_transaction` writes for its caller, with
/// the category already resolved and the link to a counterpart, if any.
pub open spec fn caller_tx(
    l: LedgerV,
    a: CreateTxArgsV,
    category: Option<Seq<char>>,
    linked: Option<int>,
) -> TxV {
    TxV {
        id: l.next_tx_id,
        account_id: a.account_id,
        date: a.date,
        payee: a.payee,
        notes: a.notes,
        category,
        amount: a.amount,
        ticker: a.ticker,
        shares: a.shares,
        price_per_share: a.price_per_share,
        fee: a.fee,
        currency: a.currency,
        linked,
    }
}

/// The counterpart row a detected transfer writes on the target account:
/// same date and notes, payee the source account's name, category
/// `Transfer`, the opposite amount, and the link back.
pub open spec fn counterpart_tx(l: LedgerV, a: CreateTxArgsV, ai: int, ti: int) -> TxV {
    TxV {
        id: l.next_tx_id + 1,
        account_id: l.accounts[ti].id,
        date: a.date,
        payee: l.accounts[ai].name,
        notes: a.notes,
        category: Some("Transfer"@),
        amount: -a.amount,
        ticker: None,
        shares: None,
        price_per_share: None,
        fee: None,
        currency: None,
        linked: Some(l.next_tx_id),
    }
}

/// The ledger after a successful `create_transaction`. When the payee is
/// exactly another account's name the category is overridden to
/// `Transfer`, a counterpart row with the opposite amount is written on
/// that account, the two rows are linked to each other, and both balances
/// move; otherwise one row is written and one balance moves.
pub open spec fn create_tx_spec(l: LedgerV, a: CreateTxArgsV) -> LedgerV {
    let ai = account_index(l.accounts, a.account_id);
    let ti = transfer_target_index(l.accounts, a.payee, a.account_id);
    if ti < 0 {
        LedgerV {
            txs: l.txs.push(caller_tx(l, a, a.category, None)),
            accounts: apply_deltas(l.accounts, seq![(ai, a.amount)]),
            next_tx_id: l.next_tx_id + 1,
            ..l
        }
    } else {
        LedgerV {
            txs: l.txs.push(caller_tx(l, a, Some("Transfer"@), Some(l.next_tx_id + 1))).push(
                counterpart_tx(l, a, ai, ti),
            ),
            accounts: apply_deltas(l.accounts, seq![(ai, a.amount), (ti, -a.amount)]),
            next_tx_id: l.next_tx_id + 2,
            ..l
        }
    }
}

/// Whether `create_transaction` accepts these inputs: the account exists,
/// the id counter has room, every balance it moves stays in range, and a
/// transfer's negated amount is representable.
pub open spec fn create_tx_ok(l: LedgerV, a: CreateTxArgsV) -> bool {
    let ai = account_index(l.accounts, a.account_id);
    let ti = transfer_target_index(l.accounts, a.payee, a.account_id);
    &&& ai >= 0
    &&& if ti < 0 {
        &&& l.next_tx_id < i64::MAX
        &&& deltas_fit(l.accounts, seq![(ai, a.amount)])
    } else {
        &&& l.next_tx_id + 1 < i64::MAX
        &&& -a.amount <= i64::MAX
        &&& deltas_fit(l.accounts, seq![(ai, a.amount), (ti, -a.amount)])
    }
}

/// The position of the transfer counterpart `delete_transaction` removes
/// together with the row at `ti`, or -1. A stored link is followed when
/// its row exists and is not the row itself; without a link, the
/// notes-based fallback looks for an unlinked `Transfer` row with the
/// same notes.
pub open spec fn delete_counterpart_index(l: LedgerV, ti: int) -> int {
    let t = l.txs[ti];
    if t.linked is Some {
        let li = tx_index(l.txs, t.linked->0);
        if li == ti {
            -1
        } else {
            li
        }
    } else if t.notes is Some {
        fallback_index(l.txs, t.notes->0, t.id)
    } else {
        -1
    }
}

/// The balance adjustments `delete_transaction` makes: the row's amount
/// comes off its account, and the counterpart's amount off its own.
pub open spec fn delete_tx_deltas(l: LedgerV, ti: int, ci: int) -> Seq<(int, int)> {
    let first = (account_index(l.accounts, l.txs[ti].account_id), -l.txs[ti].amount);
    if ci >= 0 {
        seq![first, (account_index(l.accounts, l.txs[ci].account_id), -l.txs[ci].amount)]
    } else {
        seq![first]
    }
}

/// The ledger after a successful `delete_transaction` of the row at `ti`.
pub open spec fn delete_tx_spec(l: LedgerV, ti: int) -> LedgerV {
    let ci = delete_counterpart_index(l, ti);
    let txs1 = if ci >= 0 {
        if ci > ti {
            l.txs.remove(ci).remove(ti)
        } else {
            l.txs.remove(ti).remove(ci)
        }
    } else {
        l.txs.remove(ti)
    };
    LedgerV {
        txs: txs1,
        accounts: apply_deltas(l.accounts, delete_tx_deltas(l, ti, ci)),
        ..l
    }
}

/// Whether `delete_transaction` accepts this id: the row exists, every
/// amount it reverses is negatable, and the moved balances stay in range.
pub open spec fn delete_tx_ok(l: LedgerV, id: int) -> bool {
    let ti = tx_index(l.txs, id);
    &&& ti >= 0
    &&& {
        let ci = delete_counterpart_index(l, ti);
        &&& -l.txs[ti].amount <= i64::MAX
        &&& (ci >= 0 ==> -l.txs[ci].amount <= i64::MAX)
        &&& deltas_fit(l.accounts, delete_tx_deltas(l, ti, ci))
    }
}

/// The position of the transfer counterpart an update synchronizes, or
/// -1. A stored link is followed when its row exists and is not the row
/// itself; without a link, the notes-based fallback searches with the
/// given notes text.
pub open spec fn update_counterpart_index(l: LedgerV, ti: int, notes: Option<Seq<char>>) -> int {
    let t = l.txs[ti];
    if t.linked is Some {
        let li = tx_index(l.txs, t.linked->0);
        if li == ti {
            -1
        } else {
            li
        }
    } else if notes is Some {
        fallback_index(l.txs, notes->0, t.id)
    } else {
        -1
    }
}

/// Whether an update reaches its counterpart through the notes-based
/// fallback, which then also writes the missing links.
pub open spec fn update_via_fallback(l: LedgerV, ti: int, notes: Option<Seq<char>>) -> bool {
    l.txs[ti].linked is None && update_counterpart_index(l, ti, notes) >= 0
}

/// The contribution of one row to the account at position `k`.
pub open spec fn contrib_at(l: LedgerV, t: TxV, k: int) -> int {
    if t.account_id == l.accounts[k].id {
        t.amount
    } else {
        0
    }
}

/// How much the account at position `k` must move when the row at `ti`
/// becomes `t_new` and the row at `ci`, if any, becomes `c_new`.
pub open spec fn balance_change_at(
    l: LedgerV,
    ti: int,
    ci: int,
    t_new: TxV,
    c_new: TxV,
    k: int,
) -> int {
    contrib_at(l, t_new, k) - contrib_at(l, l.txs[ti], k) + if ci >= 0 {
        contrib_at(l, c_new, k) - contrib_at(l, l.txs[ci], k)
    } else {
        0
    }
}

/// The caller's row after a successful `update_transaction`: every field
/// of the arguments overwritten in place, the investment fields kept, and
/// the link written when the fallback found the counterpart.
pub open spec fn update_tx_main_row(l: LedgerV, ti: int, ci: int, a: UpdateTxArgsV) -> TxV {
    TxV {
        account_id: a.account_id,
        date: a.date,
        payee: a.payee,
        notes: a.notes,
        category: a.category,
        amount: a.amount,
        currency: a.currency,
        linked: if update_via_fallback(l, ti, a.notes) {
            Some(l.txs[ci].id)
        } else {
            l.txs[ti].linked
        },
        ..l.txs[ti]
    }
}

/// The counterpart row after a successful `update_transaction`: dated and
/// annotated like the caller's row, payee the new owning account's name,
/// category `Transfer`, the opposite amount, and the link written when
/// the fallback found it.
pub open spec fn update_tx_ctr_row(
    l: LedgerV,
    ti: int,
    ci: int,
    nai: int,
    a: UpdateTxArgsV,
) -> TxV {
    TxV {
        date: a.date,
        payee: l.accounts[nai].name,
        notes: a.notes,
        category: Some("Transfer"@),
        amount: -a.amount,
        currency: a.currency,
        linked: if update_via_fallback(l, ti, a.notes) {
            Some(l.txs[ti].id)
        } else {
            l.txs[ci].linked
        },
        ..l.txs[ci]
    }
}

/// The balance adjustments any update of a row and its counterpart
/// makes: the difference on an unchanged account, the two full amounts on
/// a move, and the counterpart's difference on its own account.
pub open spec fn move_deltas(l: LedgerV, ti: int, ci: int, t_new: TxV, c_new: TxV) -> Seq<
    (int, int),
> {
    let t_old = l.txs[ti];
    let oai = account_index(l.accounts, t_old.account_id);
    let nai = account_index(l.accounts, t_new.account_id);
    let main = if t_new.account_id == t_old.account_id {
        seq![(nai, t_new.amount - t_old.amount)]
    } else {
        seq![(oai, -t_old.amount), (nai, t_new.amount)]
    };
    if ci >= 0 {
        main + seq![
            (account_index(l.accounts, l.txs[ci].account_id), c_new.amount - l.txs[ci].amount),
        ]
    } else {
        main
    }
}

/// The balance adjustments `update_transaction` makes.
pub open spec fn update_tx_deltas(l: LedgerV, ti: int, ci: int, a: UpdateTxArgsV) -> Seq<
    (int, int),
> {
    move_deltas(
        l,
        ti,
        ci,
        update_tx_main_row(l, ti, ci, a),
        update_tx_ctr_row(l, ti, ci, account_index(l.accounts, a.account_id), a),
    )
}

/// The ledger after a successful `update_transaction`.
pub open spec fn update_tx_spec(l: LedgerV, a: UpdateTxArgsV) -> LedgerV {
    let ti = tx_index(l.txs, a.id);
    let ci = update_counterpart_index(l, ti, a.notes);
    let nai = account_index(l.accounts, a.account_id);
    let t_new = update_tx_main_row(l, ti, ci, a);
    LedgerV {
        txs: if ci >= 0 {
            l.txs.update(ti, t_new).update(ci, update_tx_ctr_row(l, ti, ci, nai, a))
        } else {
            l.txs.update(ti, t_new)
        },
        accounts: apply_deltas(l.accounts, update_tx_deltas(l, ti, ci, a)),
        ..l
    }
}

/// Whether `update_transaction` accepts these inputs: the row and the new
/// owning account exist, every written amount and difference is
/// representable, and the moved balances stay in range.
pub open spec fn update_tx_ok(l: LedgerV, a: UpdateTxArgsV) -> bool {
    let ti = tx_index(l.txs, a.id);
    &&& ti >= 0
    &&& account_index(l.accounts, a.account_id) >= 0
    &&& {
        let ci = update_counterpart_index(l, ti, a.notes);
        &&& (if a.account_id == l.txs[ti].account_id {
            i64::MIN <= a.amount - l.txs[ti].amount <= i64::MAX
        } else {
            -l.txs[ti].amount <= i64::MAX
        })
        &&& (ci >= 0 ==> -a.amount <= i64::MAX && i64::MIN <= -a.amount - l.txs[ci].amount
            <= i64::MAX)
        &&& deltas_fit(l.accounts, update_tx_deltas(l, ti, ci, a))
    }
}

/// The value of an investment trade before fees: shares times price per
/// share.
pub open spec fn trade_total(a: CreateBrokerageArgsV) -> int {
    a.shares * a.price_per_share
}

/// The signed amount written on the brokerage account: the trade value,
/// negated for a sale.
pub open spec fn trade_brokerage_amount(a: CreateBrokerageArgsV) -> int {
    if a.is_buy {
        trade_total(a)
    } else {
        -trade_total(a)
    }
}

/// The signed share count stored: positive for a buy, negative for a
/// sale.
pub open spec fn trade_shares_signed(a: CreateBrokerageArgsV) -> int {
    if a.is_buy {
        a.shares
    } else {
        -a.shares
    }
}

/// The signed amount written on the cash account: a buy costs the value
/// plus the fee; a sale yields the value minus the fee.
pub open spec fn trade_cash_amount(a: CreateBrokerageArgsV) -> int {
    if a.is_buy {
        -(trade_total(a) + a.fee)
    } else {
        trade_total(a) - a.fee
    }
}

/// The note written on the brokerage row of a trade.
pub open spec fn brokerage_note(is_buy: bool, shares: int, ticker: Seq<char>) -> Seq<char> {
    (if is_buy {
        "Bought "@
    } else {
        "Sold "@
    }) + dec_digits(shares as nat) + " shares of "@ + ticker
}

/// The note written on the cash row of a trade.
pub open spec fn cash_note(is_buy: bool, shares: int, ticker: Seq<char>) -> Seq<char> {
    (if is_buy {
        "Buy "@
    } else {
        "Sell "@
    }) + dec_digits(shares as nat) + " shares of "@ + ticker
}

/// The payee written on the brokerage row of a trade.
pub open spec fn trade_payee(is_buy: bool) -> Seq<char> {
    if is_buy {
        "Buy"@
    } else {
        "Sell"@
    }
}

/// The brokerage row a successful `create_brokerage_transaction` writes.
pub open spec fn trade_tx1(l: LedgerV, a: CreateBrokerageArgsV) -> TxV {
    TxV {
        id: l.next_tx_id,
        account_id: a.brokerage_account_id,
        date: a.date,
        payee: trade_payee(a.is_buy),
        notes: Some(brokerage_note(a.is_buy, a.shares, a.ticker)),
        category: Some("Investment"@),
        amount: trade_brokerage_amount(a),
        ticker: Some(a.ticker),
        shares: Some(trade_shares_signed(a)),
        price_per_share: Some(a.price_per_share),
        fee: Some(a.fee),
        currency: None,
        linked: Some(l.next_tx_id + 1),
    }
}

/// The cash row a successful `create_brokerage_transaction` writes:
/// payee the brokerage account's name, category `Transfer`, linked back.
pub open spec fn trade_tx2(l: LedgerV, a: CreateBrokerageArgsV, bai: int) -> TxV {
    TxV {
        id: l.next_tx_id + 1,
        account_id: a.cash_account_id,
        date: a.date,
        payee: l.accounts[bai].name,
        notes: Some(cash_note(a.is_buy, a.shares, a.ticker)),
        category: Some("Transfer"@),
        amount: trade_cash_amount(a),
        ticker: None,
        shares: None,
        price_per_share: None,
        fee: None,
        currency: None,
        linked: Some(l.next_tx_id),
    }
}

/// The balance adjustments of a trade: its value on the brokerage
/// account and its cash leg on the cash account.
pub open spec fn trade_deltas(l: LedgerV, a: CreateBrokerageArgsV) -> Seq<(int, int)> {
    seq![
        (account_index(l.accounts, a.brokerage_account_id), trade_brokerage_amount(a)),
        (account_index(l.accounts, a.cash_account_id), trade_cash_amount(a)),
    ]
}

/// The ledger after a successful `create_brokerage_transaction`.
pub open spec fn create_brokerage_spec(l: LedgerV, a: CreateBrokerageArgsV) -> LedgerV {
    let bai = account_index(l.accounts, a.brokerage_account_id);
    LedgerV {
        txs: l.txs.push(trade_tx1(l, a)).push(trade_tx2(l, a, bai)),
        accounts: apply_deltas(l.accounts, trade_deltas(l, a)),
        next_tx_id: l.next_tx_id + 2,
        ..l
    }
}

/// Whether `create_brokerage_transaction` accepts these inputs: both
/// accounts exist, the share count is non-negative, the id counter has
/// room, every computed amount is representable, and the moved balances
/// stay in range.
pub open spec fn create_brokerage_ok(l: LedgerV, a: CreateBrokerageArgsV) -> bool {
    &&& account_index(l.accounts, a.brokerage_account_id) >= 0
    &&& account_index(l.accounts, a.cash_account_id) >= 0
    &&& a.shares >= 0
    &&& l.next_tx_id + 1 < i64::MAX
    &&& i64::MIN <= trade_total(a) <= i64::MAX
    &&& i64::MIN <= trade_brokerage_amount(a) <= i64::MAX
    &&& (a.is_buy ==> i64::MIN <= trade_total(a) + a.fee <= i64::MAX)
    &&& i64::MIN <= trade_cash_amount(a) <= i64::MAX
    &&& deltas_fit(l.accounts, trade_deltas(l, a))
}

/// The trade parameters of an update, seen as trade inputs so the same
/// amount formulas apply.
pub open spec fn update_trade_view(a: UpdateBrokerageArgsV) -> CreateBrokerageArgsV {
    CreateBrokerageArgsV {
        brokerage_account_id: a.brokerage_account_id,
        cash_account_id: 0,
        date: a.date,
        ticker: a.ticker,
        shares: a.shares,
        price_per_share: a.price_per_share,
        fee: a.fee,
        is_buy: a.is_buy,
    }
}

/// The note an updated trade carries: the caller's text, or the
/// generated description of the trade.
pub open spec fn update_trade_note(a: UpdateBrokerageArgsV) -> Seq<char> {
    if a.notes is Some {
        a.notes->0
    } else {
        brokerage_note(a.is_buy, a.shares, a.ticker)
    }
}

/// The brokerage row after a successful `update_brokerage_transaction`:
/// the trade fields recomputed, a possible move to another brokerage
/// account, the stored currency kept.
pub open spec fn update_trade_main_row(l: LedgerV, ti: int, ci: int, a: UpdateBrokerageArgsV) -> TxV {
    let t = update_trade_view(a);
    TxV {
        account_id: a.brokerage_account_id,
        date: a.date,
        payee: trade_payee(a.is_buy),
        notes: Some(update_trade_note(a)),
        category: Some("Investment"@),
        amount: trade_brokerage_amount(t),
        ticker: Some(a.ticker),
        shares: Some(trade_shares_signed(t)),
        price_per_share: Some(a.price_per_share),
        fee: Some(a.fee),
        linked: if update_via_fallback(l, ti, l.txs[ti].notes) {
            Some(l.txs[ci].id)
        } else {
            l.txs[ti].linked
        },
        ..l.txs[ti]
    }
}

/// The cash row after a successful `update_brokerage_transaction`: the
/// cash leg's amount recomputed and the note synchronized.
pub open spec fn update_trade_ctr_row(l: LedgerV, ti: int, ci: int, a: UpdateBrokerageArgsV) -> TxV {
    TxV {
        amount: trade_cash_amount(update_trade_view(a)),
        notes: Some(update_trade_note(a)),
        linked: if update_via_fallback(l, ti, l.txs[ti].notes) {
            Some(l.txs[ti].id)
        } else {
            l.txs[ci].linked
        },
        ..l.txs[ci]
    }
}

/// The ledger after a successful `update_brokerage_transaction`. The
/// counterpart is found through the stored link, or by the notes-based
/// fallback with the row's old notes.
pub open spec fn update_brokerage_spec(l: LedgerV, a: UpdateBrokerageArgsV) -> LedgerV {
    let ti = tx_index(l.txs, a.id);
    let ci = update_counterpart_index(l, ti, l.txs[ti].notes);
    let t_new = update_trade_main_row(l, ti, ci, a);
    let c_new = update_trade_ctr_row(l, ti, ci, a);
    LedgerV {
        txs: if ci >= 0 {
            l.txs.update(ti, t_new).update(ci, c_new)
        } else {
            l.txs.update(ti, t_new)
        },
        accounts: apply_deltas(l.accounts, move_deltas(l, ti, ci, t_new, c_new)),
        ..l
    }
}

/// Whether `update_brokerage_transaction` accepts these inputs.
pub open spec fn update_brokerage_ok(l: LedgerV, a: UpdateBrokerageArgsV) -> bool {
    let ti = tx_index(l.txs, a.id);
    let t = update_trade_view(a);
    &&& ti >= 0
    &&& account_index(l.accounts, a.brokerage_account_id) >= 0
    &&& a.shares >= 0
    &&& i64::MIN <= trade_total(t) <= i64::MAX
    &&& i64::MIN <= trade_brokerage_amount(t) <= i64::MAX
    &&& {
        let ci = update_counterpart_index(l, ti, l.txs[ti].notes);
        &&& (if a.brokerage_account_id == l.txs[ti].account_id {
            i64::MIN <= trade_brokerage_amount(t) - l.txs[ti].amount <= i64::MAX
        } else {
            -l.txs[ti].amount <= i64::MAX
        })
        &&& (ci >= 0 ==> {
            &&& (a.is_buy ==> i64::MIN <= trade_total(t) + a.fee <= i64::MAX)
            &&& i64::MIN <= trade_cash_amount(t) <= i64::MAX
            &&& i64::MIN <= trade_cash_amount(t) - l.txs[ci].amount <= i64::MAX
        })
        &&& deltas_fit(
            l.accounts,
            move_deltas(
                l,
                ti,
                ci,
                update_trade_main_row(l, ti, ci, a),
                update_trade_ctr_row(l, ti, ci, a),
            ),
        )
    }
}

/// Listing order of transactions: by date descending, ties by id
/// descending. `a` comes no later than `b`.
pub open spec fn tx_after(a: TxV, b: TxV) -> bool {
    if lex_le(a.date, b.date) && lex_le(b.date, a.date) {
        a.id >= b.id
    } else {
        lex_le(b.date, a.date)
    }
}

/// A transaction listing is sorted by date descending, then id
/// descending.
pub open spec fn txs_sorted(s: Seq<TxV>) -> bool {
    forall|i: int, j: int| 0 <= i < j < s.len() ==> tx_after(#[trigger] s[i], #[trigger] s[j])
}

/// The listing order is total.
proof fn lemma_tx_after_total(a: TxV, b: TxV)
    ensures
        tx_after(a, b) || tx_after(b, a),
{
    crate::textutil::lemma_lex_le_total(a.date, b.date);
}

/// The listing order is transitive.
proof fn lemma_tx_after_trans(a: TxV, b: TxV, c: TxV)
    requires
        tx_after(a, b),
        tx_after(b, c),
    ensures
        tx_after(a, c),
{
    let ad = a.date;
    let bd = b.date;
    let cd = c.date;
    crate::textutil::lemma_lex_le_total(ad, bd);
    crate::textutil::lemma_lex_le_total(bd, cd);
    crate::textutil::lemma_lex_le_total(ad, cd);
    if lex_le(ad, bd) && lex_le(bd, ad) {
        if lex_le(bd, cd) && lex_le(cd, bd) {
            crate::textutil::lemma_lex_le_trans(ad, bd, cd);
            crate::textutil::lemma_lex_le_trans(cd, bd, ad);
        } else {
            crate::textutil::lemma_lex_le_trans(cd, bd, ad);
            if lex_le(ad, cd) {
                crate::textutil::lemma_lex_le_trans(bd, ad, cd);
            }
        }
    } else {
        crate::textutil::lemma_lex_le_trans(cd, bd, ad);
        if lex_le(ad, cd) {
            crate::textutil::lemma_lex_le_trans(ad, cd, bd);
        }
    }
}

/// The transactions owned by one account, in ledger order.
pub open spec fn owned_txs(txs: Seq<TxV>, id: int) -> Seq<TxV>
    decreases txs.len(),
{
    if txs.len() == 0 {
        Seq::empty()
    } else {
        let rest = owned_txs(txs.drop_last(), id);
        if txs.last().account_id == id {
            rest.push(txs.last())
        } else {
            rest
        }
    }
}

/// An account no transaction is owned by owns an empty listing.
proof fn lemma_owned_txs_absent(txs: Seq<TxV>, id: int)
    requires
        forall|p: int| 0 <= p < txs.len() ==> (#[trigger] txs[p]).account_id != id,
    ensures
        owned_txs(txs, id).len() == 0,
    decreases txs.len(),
{
    if txs.len() > 0 {
        lemma_owned_txs_absent(txs.drop_last(), id);
    }
}

/// Whether `a` comes no later than `b` in the listing order.
fn tx_after_exec(a: &Transaction, b: &Transaction) -> (r: bool)
    ensures
        r == tx_after(a@, b@),
{
    let ab = str_le(a.date.as_str(), b.date.as_str());
    let ba = str_le(b.date.as_str(), a.date.as_str());
    if ab && ba {
        a.id >= b.id
    } else {
        ba
    }
}

/// The position where a row joins a listing sorted by [`tx_after`]: the
/// first position whose row does not come before it.
fn find_tx_pos(out: &Vec<Transaction>, tx: &Transaction) -> (k: usize)
    ensures
        k <= out@.len(),
        forall|j: int| 0 <= j < k ==> tx_after(#[trigger] seq_view(out@)[j], tx@),
        k < out@.len() ==> !tx_after(seq_view(out@)[k as int], tx@),
{
    let n = out.len();
    let mut k: usize = 0;
    while k < n
        invariant
            n == out@.len(),
            k <= n,
            forall|j: int| 0 <= j < k ==> tx_after(#[trigger] seq_view(out@)[j], tx@),
        decreases n - k,
    {
        if !tx_after_exec(&out[k], tx) {
            return k;
        }
        k += 1;
    }
    k
}

/// Inserts a transaction into a listing sorted by [`tx_after`], keeping
/// it sorted; the contents grow by exactly the inserted row.
fn insert_tx_sorted(out: &mut Vec<Transaction>, tx: Transaction)
    requires
        txs_sorted(seq_view(old(out)@)),
    ensures
        txs_sorted(seq_view(final(out)@)),
        seq_view(final(out)@).to_multiset() == seq_view(old(out)@).to_multiset().insert(tx@),
{
    let ghost s0 = seq_view(out@);
    let k = find_tx_pos(out, &tx);
    proof {
        if k < out.len() {
            lemma_tx_after_total(s0[k as int], tx@);
        }
    }
    out.insert(k, tx);
    proof {
        let s1 = seq_view(out@);
        assert(s1 =~= s0.insert(k as int, tx@));
        crate::model::lemma_to_multiset_insert(s0, k as int, tx@);
        assert(s1.to_multiset() == s0.to_multiset().insert(tx@));
        assert forall|i: int, j: int| 0 <= i < j < s1.len() implies tx_after(
            #[trigger] s1[i],
            #[trigger] s1[j],
        ) by {
            if i == k as int {
                if j > k as int + 1 {
                    lemma_tx_after_trans(tx@, s0[k as int], s0[j - 1]);
                }
            } else if j == k as int {
                assert(tx_after(s0[i], tx@));
            } else if i < k as int && j > k as int {
                assert(tx_after(s0[i], s0[j - 1]));
            }
        }
    }
}

/// A list of strings in ascending lexicographic order.
pub open spec fn strs_sorted(s: Seq<Seq<char>>) -> bool {
    forall|i: int, j: int| 0 <= i < j < s.len() ==> lex_le(#[trigger] s[i], #[trigger] s[j])
}

/// A list of strings without repetition.
pub open spec fn strs_distinct(s: Seq<Seq<char>>) -> bool {
    forall|i: int, j: int| 0 <= i < j < s.len() ==> s[i] != s[j]
}

/// Whether some transaction carries this payee.
pub open spec fn has_payee(txs: Seq<TxV>, s: Seq<char>) -> bool {
    exists|p: int| 0 <= p < txs.len() && (#[trigger] txs[p]).payee == s
}

/// Whether some transaction carries this category.
pub open spec fn has_category(txs: Seq<TxV>, s: Seq<char>) -> bool {
    exists|p: int| 0 <= p < txs.len() && (#[trigger] txs[p]).category == Some(s)
}

/// The position where a string joins an ascending list.
fn find_str_pos(out: &Vec<String>, x: &str) -> (k: usize)
    ensures
        k <= out@.len(),
        forall|j: int| 0 <= j < k ==> lex_le(#[trigger] seq_view(out@)[j], x@),
        k < out@.len() ==> !lex_le(seq_view(out@)[k as int], x@),
{
    let n = out.len();
    let mut k: usize = 0;
    while k < n
        invariant
            n == out@.len(),
            k <= n,
            forall|j: int| 0 <= j < k ==> lex_le(#[trigger] seq_view(out@)[j], x@),
        decreases n - k,
    {
        if !str_le(out[k].as_str(), x) {
            return k;
        }
        k += 1;
    }
    k
}

/// Inserts a string into an ascending list of distinct strings, keeping
/// it sorted and distinct; the contents grow by exactly the new string.
fn insert_str_sorted(out: &mut Vec<String>, x: String)
    requires
        strs_sorted(seq_view(old(out)@)),
        strs_distinct(seq_view(old(out)@)),
        !seq_view(old(out)@).contains(x@),
    ensures
        strs_sorted(seq_view(final(out)@)),
        strs_distinct(seq_view(final(out)@)),
        seq_view(final(out)@).contains(x@),
        forall|s: Seq<char>|
            seq_view(old(out)@).contains(s) ==> #[trigger] seq_view(final(out)@).contains(s),
        forall|s: Seq<char>|
            #[trigger] seq_view(final(out)@).contains(s) ==> s == x@ || seq_view(
                old(out)@,
            ).contains(s),
{
    let ghost s0 = seq_view(out@);
    let k = find_str_pos(out, x.as_str());
    proof {
        if k < out.len() {
            crate::textutil::lemma_lex_le_total(s0[k as int], x@);
        }
    }
    out.insert(k, x);
    proof {
        let s1 = seq_view(out@);
        assert(s1 =~= s0.insert(k as int, x@));
        crate::model::lemma_insert_contains(s0, k as int, x@);
        assert forall|i: int, j: int| 0 <= i < j < s1.len() implies lex_le(
            #[trigger] s1[i],
            #[trigger] s1[j],
        ) by {
            if i == k as int {
                if j > k as int + 1 {
                    crate::textutil::lemma_lex_le_trans(x@, s0[k as int], s0[j - 1]);
                }
            } else if j == k as int {
                assert(lex_le(s0[i], x@));
            } else if i < k as int && j > k as int {
                assert(lex_le(s0[i], s0[j - 1]));
            }
        }
        assert forall|i: int, j: int| 0 <= i < j < s1.len() implies s1[i] != s1[j] by {
            if i == k as int || j == k as int {
                assert(!s0.contains(x@));
                if i == k as int {
                    assert(s0[j - 1] == s1[j]);
                    assert(s0.contains(s0[j - 1]));
                }
                if j == k as int {
                    assert(s0.contains(s0[i]));
                }
            } else if i < k as int && j > k as int {
                assert(s1[i] == s0[i] && s1[j] == s0[j - 1]);
            }
        }
        assert forall|s: Seq<char>| #[trigger] s1.contains(s) implies s == x@ || s0.contains(
            s,
        ) by {
            let q = choose|q: int| 0 <= q < s1.len() && s1[q] == s;
            if q < k as int {
                assert(s0[q] == s);
            } else if q > k as int {
                assert(s0[q - 1] == s);
            }
        }
    }
}

/// Rule listing order: by priority descending, ties by id ascending.
pub open spec fn rule_after(a: crate::data::RuleV, b: crate::data::RuleV) -> bool {
    if a.priority == b.priority {
        a.id <= b.id
    } else {
        a.priority > b.priority
    }
}

/// A rule listing is sorted by priority descending.
pub open spec fn rules_sorted(s: Seq<crate::data::RuleV>) -> bool {
    forall|i: int, j: int| 0 <= i < j < s.len() ==> rule_after(#[trigger] s[i], #[trigger] s[j])
}

/// The position of the rule with the given id at or after `i`, or -1.
pub open spec fn rule_index_from(rules: Seq<crate::data::RuleV>, id: int, i: int) -> int
    decreases rules.len() - i,
{
    if !(0 <= i < rules.len()) {
        -1
    } else if rules[i].id == id {
        i
    } else {
        rule_index_from(rules, id, i + 1)
    }
}

/// The position of the rule with the given id, or -1.
pub open spec fn rule_index(rules: Seq<crate::data::RuleV>, id: int) -> int {
    rule_index_from(rules, id, 0)
}

/// What a result of `rule_index_from` means.
proof fn lemma_rule_index_from(rules: Seq<crate::data::RuleV>, id: int, i: int)
    requires
        0 <= i <= rules.len(),
    ensures
        -1 <= rule_index_from(rules, id, i) < rules.len(),
        rule_index_from(rules, id, i) == -1 <==> (forall|j: int|
            i <= j < rules.len() ==> (#[trigger] rules[j]).id != id),
        rule_index_from(rules, id, i) >= 0 ==> i <= rule_index_from(rules, id, i) < rules.len()
            && rules[rule_index_from(rules, id, i)].id == id,
    decreases rules.len() - i,
{
    if i < rules.len() && rules[i].id != id {
        lemma_rule_index_from(rules, id, i + 1);
    }
}

/// The rules after the listed ids are given priorities by position: the
/// first listed id gets the highest priority, the last gets one.
pub open spec fn reorder_rules(
    rules: Seq<crate::data::RuleV>,
    ids: Seq<int>,
    upto: int,
) -> Seq<crate::data::RuleV>
    decreases upto,
{
    if upto <= 0 {
        rules
    } else {
        let prev = reorder_rules(rules, ids, upto - 1);
        let ri = rule_index(prev, ids[upto - 1]);
        if ri >= 0 {
            prev.update(
                ri,
                crate::data::RuleV { priority: ids.len() - (upto - 1), ..prev[ri] },
            )
        } else {
            prev
        }
    }
}

/// Reordering changes only priorities: ids and the rest stay in place.
proof fn lemma_reorder_rules_shape(rules: Seq<crate::data::RuleV>, ids: Seq<int>, upto: int)
    ensures
        reorder_rules(rules, ids, upto).len() == rules.len(),
        forall|k: int|
            0 <= k < rules.len() ==> {
                let after = #[trigger] reorder_rules(rules, ids, upto)[k];
                &&& after.id == rules[k].id
                &&& after.match_field == rules[k].match_field
                &&& after.match_pattern == rules[k].match_pattern
                &&& after.action_field == rules[k].action_field
                &&& after.action_value == rules[k].action_value
            },
    decreases upto,
{
    if upto > 0 {
        lemma_reorder_rules_shape(rules, ids, upto - 1);
        let prev = reorder_rules(rules, ids, upto - 1);
        lemma_rule_index_from(prev, ids[upto - 1], 0);
    }
}

/// Whether `a` comes no later than `b` in the rule listing order.
fn rule_after_exec(a: &Rule, b: &Rule) -> (r: bool)
    ensures
        r == rule_after(a@, b@),
{
    if a.priority == b.priority {
        a.id <= b.id
    } else {
        a.priority > b.priority
    }
}

/// The position where a rule joins a sorted rule listing.
fn find_rule_pos(out: &Vec<Rule>, x: &Rule) -> (k: usize)
    ensures
        k <= out@.len(),
        forall|j: int| 0 <= j < k ==> rule_after(#[trigger] seq_view(out@)[j], x@),
        k < out@.len() ==> !rule_after(seq_view(out@)[k as int], x@),
{
    let n = out.len();
    let mut k: usize = 0;
    while k < n
        invariant
            n == out@.len(),
            k <= n,
            forall|j: int| 0 <= j < k ==> rule_after(#[trigger] seq_view(out@)[j], x@),
        decreases n - k,
    {
        if !rule_after_exec(&out[k], x) {
            return k;
        }
        k += 1;
    }
    k
}

/// Inserts a rule into a sorted rule listing, keeping it sorted; the
/// contents grow by exactly the inserted rule.
fn insert_rule_sorted(out: &mut Vec<Rule>, x: Rule)
    requires
        rules_sorted(seq_view(old(out)@)),
    ensures
        rules_sorted(seq_view(final(out)@)),
        seq_view(final(out)@).to_multiset() == seq_view(old(out)@).to_multiset().insert(x@),
{
    let ghost s0 = seq_view(out@);
    let k = find_rule_pos(out, &x);
    out.insert(k, x);
    proof {
        let s1 = seq_view(out@);
        assert(s1 =~= s0.insert(k as int, x@));
        crate::model::lemma_to_multiset_insert(s0, k as int, x@);
        assert forall|i: int, j: int| 0 <= i < j < s1.len() implies rule_after(
            #[trigger] s1[i],
            #[trigger] s1[j],
        ) by {
            if i == k as int {
                if j > k as int {
                    assert(!rule_after(s0[k as int], x@));
                    assert(rule_after(x@, s0[k as int]));
                    assert(rule_after(s0[k as int], s0[j - 1]) || j == k as int + 1);
                }
            } else if j == k as int {
                assert(rule_after(s0[i], x@));
            } else if i < k as int && j > k as int {
                assert(rule_after(s0[i], s0[j - 1]));
            }
        }
    }
}

/// What loaded rows must satisfy before they become a ledger: ids unique
/// and positive with room in the counters, account names unique up to
/// ASCII case, and every transaction owned by a present account.
pub open spec fn rows_ok(accs: Seq<AccountV>, txs: Seq<TxV>, rules: Seq<crate::data::RuleV>) -> bool {
    &&& forall|i: int, j: int| 0 <= i < j < accs.len() ==> accs[i].id != accs[j].id
    &&& forall|i: int| 0 <= i < accs.len() ==> 1 <= (#[trigger] accs[i]).id < i64::MAX
    &&& forall|i: int, j: int|
        0 <= i < j < accs.len() ==> !eq_ignore_ascii_case(accs[i].name, accs[j].name)
    &&& forall|i: int, j: int| 0 <= i < j < txs.len() ==> txs[i].id != txs[j].id
    &&& forall|i: int| 0 <= i < txs.len() ==> 1 <= (#[trigger] txs[i]).id < i64::MAX
    &&& forall|i: int|
        0 <= i < txs.len() ==> account_index(accs, (#[trigger] txs[i]).account_id) >= 0
    &&& forall|i: int, j: int| 0 <= i < j < rules.len() ==> rules[i].id != rules[j].id
    &&& forall|i: int| 0 <= i < rules.len() ==> 1 <= (#[trigger] rules[i]).id < i64::MAX
}

/// The position of the account with the given id in a plain row list.
fn vec_account_index(accounts: &Vec<Account>, id: i64) -> (r: Option<usize>)
    ensures
        match r {
            Some(i) => account_index(seq_view(accounts@), id as int) == i && i < accounts@.len(),
            None => account_index(seq_view(accounts@), id as int) == -1,
        },
{
    let n = accounts.len();
    let mut i: usize = 0;
    while i < n
        invariant
            n == accounts@.len(),
            i <= n,
            account_index(seq_view(accounts@), id as int) == account_index_from(
                seq_view(accounts@),
                id as int,
                i as int,
            ),
        decreases n - i,
    {
        if accounts[i].id == id {
            return Some(i);
        }
        i += 1;
    }
    None
}

impl Ledger {
    /// Structural well-formedness: the ghost invariant of the view, and
    /// the internal shape of the override-rate table.
    pub open spec fn wf(self) -> bool {
        &&& inv(self@)
        &&& self.rates_wf()
    }

    /// The override-rate table keeps its own shape.
    pub closed spec fn rates_wf(self) -> bool {
        self.custom_rates.wf()
    }
}

impl Ledger {
    /// The position of the account with the given id.
    fn find_account(&self, id: i64) -> (r: Option<usize>)
        ensures
            match r {
                Some(i) => account_index(self@.accounts, id as int) == i && i
                    < self@.accounts.len(),
                None => account_index(self@.accounts, id as int) == -1,
            },
    {
        let n = self.accounts.len();
        let mut i: usize = 0;
        while i < n
            invariant
                n == self@.accounts.len(),
                i <= n,
                n == self.accounts@.len(),
                self@.accounts == seq_view(self.accounts@),
                account_index(self@.accounts, id as int) == account_index_from(
                    self@.accounts,
                    id as int,
                    i as int,
                ),
            decreases n - i,
        {
            if self.accounts[i].id == id {
                return Some(i);
            }
            i += 1;
        }
        None
    }

    /// An empty ledger.
    pub fn new() -> (r: Ledger)
        ensures
            r.wf(),
            r@.accounts =~= Seq::<AccountV>::empty(),
            r@.txs =~= Seq::<TxV>::empty(),
            r@.rules =~= Seq::<crate::data::RuleV>::empty(),
            r@.custom =~= Map::<Seq<char>, Rate>::empty(),
            r@.next_account_id == 1,
            r@.next_tx_id == 1,
            r@.next_rule_id == 1,
    {
        let l = Ledger {
            accounts: Vec::new(),
            txs: Vec::new(),
            rules: Vec::new(),
            custom_rates: RateMap::new(),
            next_account_id: 1,
            next_tx_id: 1,
            next_rule_id: 1,
        };
        proof {
            assert(l@.accounts =~= Seq::<AccountV>::empty());
            assert(l@.txs =~= Seq::<TxV>::empty());
            assert(l@.rules =~= Seq::<crate::data::RuleV>::empty());
        }
        l
    }

    /// Whether some account other than `exclude` has this name up to ASCII
    /// case.
    fn name_taken_exec(&self, name: &str, exclude: i64) -> (r: bool)
        ensures
            r == name_taken(self@.accounts, name@, exclude as int),
    {
        let n = self.accounts.len();
        let mut i: usize = 0;
        while i < n
            invariant
                n == self@.accounts.len(),
                i <= n,
                n == self.accounts@.len(),
                self@.accounts == seq_view(self.accounts@),
                forall|j: int|
                    0 <= j < i ==> !name_clash(#[trigger] self@.accounts[j], name@, exclude as int),
            decreases n - i,
        {
            if self.accounts[i].id != exclude && str_eq_ignore_ascii_case(
                self.accounts[i].name.as_str(),
                name,
            ) {
                proof {
                    assert(name_clash(self@.accounts[i as int], name@, exclude as int));
                }
                return true;
            }
            i += 1;
        }
        false
    }

    /// The position of the transaction with the given id.
    fn find_tx(&self, id: i64) -> (r: Option<usize>)
        ensures
            match r {
                Some(i) => tx_index(self@.txs, id as int) == i && i < self@.txs.len(),
                None => tx_index(self@.txs, id as int) == -1,
            },
    {
        let n = self.txs.len();
        let mut i: usize = 0;
        while i < n
            invariant
                n == self@.txs.len(),
                i <= n,
                n == self.txs@.len(),
                self@.txs == seq_view(self.txs@),
                tx_index(self@.txs, id as int) == tx_index_from(self@.txs, id as int, i as int),
            decreases n - i,
        {
            if self.txs[i].id == id {
                return Some(i);
            }
            i += 1;
        }
        None
    }

    /// The position of the rule with the given id.
    fn find_rule(&self, id: i64) -> (r: Option<usize>)
        ensures
            match r {
                Some(i) => rule_index(self@.rules, id as int) == i && i < self@.rules.len()
                    && self@.rules[i as int].id == id as int,
                None => rule_index(self@.rules, id as int) == -1,
            },
    {
        let n = self.rules.len();
        let mut i: usize = 0;
        while i < n
            invariant
                n == self@.rules.len(),
                i <= n,
                n == self.rules@.len(),
                self@.rules == seq_view(self.rules@),
                rule_index(self@.rules, id as int) == rule_index_from(
                    self@.rules,
                    id as int,
                    i as int,
                ),
            decreases n - i,
        {
            if self.rules[i].id == id {
                return Some(i);
            }
            i += 1;
        }
        None
    }

    /// Creates an account. The name must be non-blank and not taken up to
    /// ASCII case; a non-zero opening balance also writes one
    /// opening-balance transaction dated `opening_date`, so the new
    /// account starts balanced. Returns the created account with the
    /// identity exchange rate.
    pub fn create_account(
        &mut self,
        name: &str,
        balance: i64,
        kind: &str,
        currency: Option<String>,
        opening_date: &str,
    ) -> (r: Result<Account, LedgerError>)
        requires
            old(self).wf(),
        ensures
            final(self).wf(),
            r is Ok <==> create_account_ok(old(self)@, name@, balance as int),
            r matches Ok(a) ==> final(self)@ == create_account_spec(
                old(self)@,
                name@,
                balance as int,
                kind@,
                currency.deep_view(),
                opening_date@,
            ) && a@ == created_account(
                old(self)@,
                name@,
                balance as int,
                kind@,
                currency.deep_view(),
            ),
            r matches Err(e) ==> final(self)@ == old(self)@ && ((blank(name@) || name_taken(
                old(self)@.accounts,
                name@,
                0,
            )) ==> e == LedgerError::Validation) && (!(blank(name@) || name_taken(
                old(self)@.accounts,
                name@,
                0,
            )) ==> e == LedgerError::Overflow),
            balanced(old(self)@) ==> balanced(final(self)@),
            link_symmetric(old(self)@.txs) ==> link_symmetric(final(self)@.txs),
    {
        let ghost l0 = self@;
        if is_blank(name) {
            return Err(LedgerError::Validation);
        }
        if self.name_taken_exec(name, 0) {
            return Err(LedgerError::Validation);
        }
        if self.next_account_id == i64::MAX {
            return Err(LedgerError::Overflow);
        }
        if balance != 0 && self.next_tx_id == i64::MAX {
            return Err(LedgerError::Overflow);
        }
        let id = self.next_account_id;
        let acct = Account {
            id,
            name: name.to_owned(),
            balance,
            currency,
            kind: kind.to_owned(),
            exchange_rate: Rate::one(),
        };
        let ret = acct.duplicate();
        self.accounts.push(acct);
        self.next_account_id = id + 1;
        if balance != 0 {
            let tid = self.next_tx_id;
            let tx = Transaction {
                id: tid,
                account_id: id,
                date: opening_date.to_owned(),
                payee: "Opening Balance".to_owned(),
                notes: Some("Initial Balance".to_owned()),
                category: Some("Income".to_owned()),
                amount: balance,
                ticker: None,
                shares: None,
                price_per_share: None,
                fee: None,
                currency: None,
                linked: None,
            };
            self.txs.push(tx);
            self.next_tx_id = tid + 1;
        }
        proof {
            let l1 = self@;
            let av = created_account(l0, name@, balance as int, kind@, ret.currency.deep_view());
            assert(ret@ == av);
            assert(l1.accounts =~= l0.accounts.push(av));
            if balance != 0 {
                assert(l1.txs =~= l0.txs.push(opening_tx(l0, balance as int, opening_date@)));
            } else {
                assert(l1.txs =~= l0.txs);
            }
            assert(l1 == create_account_spec(
                l0,
                name@,
                balance as int,
                kind@,
                ret.currency.deep_view(),
                opening_date@,
            ));
            self.lemma_create_account_preserves(l0, l1, name@, balance as int, kind@,
                ret.currency.deep_view(), opening_date@);
        }
        Ok(ret)
    }

    /// Renames an account, keeping its currency.
    pub fn rename_account(&mut self, id: i64, new_name: &str) -> (r: Result<Account, LedgerError>)
        requires
            old(self).wf(),
        ensures
            final(self).wf(),
            r is Ok <==> rename_ok(old(self)@, id as int, new_name@),
            r matches Ok(a) ==> {
                let ai = account_index(old(self)@.accounts, id as int);
                &&& final(self)@ == set_account_fields_spec(
                    old(self)@,
                    ai,
                    new_name@,
                    old(self)@.accounts[ai].currency,
                )
                &&& a@ == final(self)@.accounts[ai]
            },
            r matches Err(e) ==> final(self)@ == old(self)@ && (blank(new_name@) ==> e
                == LedgerError::Validation) && (!blank(new_name@) && account_index(
                old(self)@.accounts,
                id as int,
            ) == -1 ==> e == LedgerError::NotFound) && (!blank(new_name@) && account_index(
                old(self)@.accounts,
                id as int,
            ) >= 0 ==> e == LedgerError::Validation),
            balanced(old(self)@) ==> balanced(final(self)@),
            link_symmetric(old(self)@.txs) ==> link_symmetric(final(self)@.txs),
    {
        let cur = match self.find_account(id) {
            Some(ai) => duplicate_opt_string(&self.accounts[ai].currency),
            None => None,
        };
        self.set_account_fields(id, new_name, cur, false)
    }

    /// Renames an account and sets its currency.
    pub fn update_account(
        &mut self,
        id: i64,
        new_name: &str,
        currency: Option<String>,
    ) -> (r: Result<Account, LedgerError>)
        requires
            old(self).wf(),
        ensures
            final(self).wf(),
            r is Ok <==> rename_ok(old(self)@, id as int, new_name@),
            r matches Ok(a) ==> {
                let ai = account_index(old(self)@.accounts, id as int);
                &&& final(self)@ == set_account_fields_spec(
                    old(self)@,
                    ai,
                    new_name@,
                    currency.deep_view(),
                )
                &&& a@ == final(self)@.accounts[ai]
            },
            r matches Err(e) ==> final(self)@ == old(self)@ && (blank(new_name@) ==> e
                == LedgerError::Validation) && (!blank(new_name@) && account_index(
                old(self)@.accounts,
                id as int,
            ) == -1 ==> e == LedgerError::NotFound) && (!blank(new_name@) && account_index(
                old(self)@.accounts,
                id as int,
            ) >= 0 ==> e == LedgerError::Validation),
            balanced(old(self)@) ==> balanced(final(self)@),
            link_symmetric(old(self)@.txs) ==> link_symmetric(final(self)@.txs),
    {
        self.set_account_fields(id, new_name, currency, true)
    }

    /// The shared body of `rename_account` and `update_account`. When
    /// `set_currency` is false, `currency` must carry the account's
    /// present currency.
    fn set_account_fields(
        &mut self,
        id: i64,
        new_name: &str,
        currency: Option<String>,
        set_currency: bool,
    ) -> (r: Result<Account, LedgerError>)
        requires
            old(self).wf(),
            !set_currency && account_index(old(self)@.accounts, id as int) >= 0
                ==> currency.deep_view() == old(self)@.accounts[account_index(
                old(self)@.accounts,
                id as int,
            )].currency,
        ensures
            final(self).wf(),
            r is Ok <==> rename_ok(old(self)@, id as int, new_name@),
            r matches Ok(a) ==> {
                let ai = account_index(old(self)@.accounts, id as int);
                &&& final(self)@ == set_account_fields_spec(
                    old(self)@,
                    ai,
                    new_name@,
                    currency.deep_view(),
                )
                &&& a@ == final(self)@.accounts[ai]
            },
            r matches Err(e) ==> final(self)@ == old(self)@ && (blank(new_name@) ==> e
                == LedgerError::Validation) && (!blank(new_name@) && account_index(
                old(self)@.accounts,
                id as int,
            ) == -1 ==> e == LedgerError::NotFound) && (!blank(new_name@) && account_index(
                old(self)@.accounts,
                id as int,
            ) >= 0 ==> e == LedgerError::Validation),
            balanced(old(self)@) ==> balanced(final(self)@),
            link_symmetric(old(self)@.txs) ==> link_symmetric(final(self)@.txs),
    {
        let ghost l0 = self@;
        if is_blank(new_name) {
            return Err(LedgerError::Validation);
        }
        let ai = match self.find_account(id) {
            Some(ai) => ai,
            None => {
                return Err(LedgerError::NotFound);
            },
        };
        if self.name_taken_exec(new_name, id) {
            return Err(LedgerError::Validation);
        }
        self.accounts[ai].name = new_name.to_owned();
        self.accounts[ai].currency = currency;
        let ret = self.accounts[ai].duplicate();
        proof {
            let l1 = self@;
            crate::model::lemma_account_index_from(l0.accounts, id as int, 0);
            assert(l1.accounts =~= l0.accounts.update(
                ai as int,
                AccountV { name: new_name@, currency: ret.currency.deep_view(), ..l0.accounts[ai as int] },
            ));
            assert(l1 == set_account_fields_spec(
                l0,
                ai as int,
                new_name@,
                ret.currency.deep_view(),
            ));
            self.lemma_set_fields_preserves(l0, l1, ai as int, new_name@, ret.currency.deep_view());
        }
        Ok(ret)
    }

    /// Renaming keeps the structural invariant, the balance invariant and
    /// link symmetry: no id, amount or link changes.
    proof fn lemma_set_fields_preserves(
        &self,
        l0: LedgerV,
        l1: LedgerV,
        ai: int,
        name: Seq<char>,
        currency: Option<Seq<char>>,
    )
        requires
            inv(l0),
            0 <= ai < l0.accounts.len(),
            !name_taken(l0.accounts, name, l0.accounts[ai].id),
            l1 == set_account_fields_spec(l0, ai, name, currency),
        ensures
            inv(l1),
            balanced(l0) ==> balanced(l1),
            link_symmetric(l0.txs) ==> link_symmetric(l1.txs),
    {
        assert forall|i: int, j: int| 0 <= i < j < l1.accounts.len() implies !eq_ignore_ascii_case(
            l1.accounts[i].name,
            l1.accounts[j].name,
        ) by {
            if i == ai {
                assert(!name_clash(l0.accounts[j], name, l0.accounts[ai].id));
            }
            if j == ai {
                assert(!name_clash(l0.accounts[i], name, l0.accounts[ai].id));
                if eq_ignore_ascii_case(l1.accounts[i].name, l1.accounts[j].name) {
                    assert(eq_ignore_ascii_case(l0.accounts[i].name, name));
                }
            }
        }
        assert forall|i: int|
            0 <= i < l1.txs.len() implies account_index(
            l1.accounts,
            (#[trigger] l1.txs[i]).account_id,
        ) >= 0 by {
            crate::model::lemma_account_index_from(l0.accounts, l0.txs[i].account_id, 0);
            crate::model::lemma_account_index_from(l1.accounts, l1.txs[i].account_id, 0);
            let w = account_index(l0.accounts, l0.txs[i].account_id);
            assert(l1.accounts[w].id == l1.txs[i].account_id);
        }
        assert(l1.txs =~= l0.txs);
    }

    /// Stores a user-supplied override rate: one unit of `currency` is
    /// worth `rate` USD, taking precedence over fetched rates.
    pub fn set_custom_exchange_rate(&mut self, currency: &str, rate: Rate)
        requires
            old(self).wf(),
            rate.small(),
        ensures
            final(self).wf(),
            final(self)@ == (LedgerV { custom: old(self)@.custom.insert(currency@, rate), ..old(
                self,
            )@ }),
    {
        self.custom_rates.insert(currency, rate);
    }

    /// The stored override rate for `currency`, if any.
    pub fn get_custom_exchange_rate(&self, currency: &str) -> (r: Option<Rate>)
        requires
            self.wf(),
        ensures
            r == if self@.custom.dom().contains(currency@) {
                Some(self@.custom[currency@])
            } else {
                None::<Rate>
            },
    {
        self.custom_rates.lookup(currency)
    }

    /// The override-rate table itself, for balance aggregation.
    pub fn custom_rates(&self) -> (r: &RateMap)
        requires
            self.wf(),
        ensures
            r.wf(),
            r@ == self@.custom,
    {
        &self.custom_rates
    }

    /// Deletes an account together with all its transactions. Links of
    /// rows in other accounts that pointed at the deleted rows are
    /// cleared, so no reference dangles. Other accounts' balances are
    /// untouched: their own rows all stay.
    pub fn delete_account(&mut self, id: i64) -> (r: Result<(), LedgerError>)
        requires
            old(self).wf(),
        ensures
            final(self).wf(),
            r is Ok <==> account_index(old(self)@.accounts, id as int) >= 0,
            r is Ok ==> final(self)@ == delete_account_spec(
                old(self)@,
                account_index(old(self)@.accounts, id as int),
            ),
            r is Ok ==> account_index(final(self)@.accounts, id as int) == -1,
            r is Ok ==> forall|q: int|
                0 <= q < final(self)@.txs.len() ==> (#[trigger] final(self)@.txs[q]).account_id
                    != id as int,
            r matches Err(e) ==> e == LedgerError::NotFound && final(self)@ == old(self)@,
            balanced(old(self)@) ==> balanced(final(self)@),
            link_symmetric(old(self)@.txs) ==> link_symmetric(final(self)@.txs),
    {
        let ghost l0 = self@;
        let ai = match self.find_account(id) {
            Some(ai) => ai,
            None => {
                return Err(LedgerError::NotFound);
            },
        };
        proof {
            crate::model::lemma_account_index_from(l0.accounts, id as int, 0);
        }
        let n = self.txs.len();
        let mut kept: Vec<Transaction> = Vec::new();
        let mut i: usize = 0;
        proof {
            assert(l0.txs.take(0) =~= Seq::<TxV>::empty());
        }
        while i < n
            invariant
                *self == *old(self),
                self.wf(),
                l0 == self@,
                n == self.txs@.len(),
                i <= n,
                self@.txs == seq_view(self.txs@),
                seq_view(kept@) =~= delete_account_txs(l0.txs, l0.txs.take(i as int), id as int),
            decreases n - i,
        {
            proof {
                assert(l0.txs.take(i + 1).drop_last() =~= l0.txs.take(i as int));
                assert(l0.txs.take(i + 1).last() == l0.txs[i as int]);
            }
            if self.txs[i].account_id != id {
                let mut copy = self.txs[i].duplicate();
                let clear = match copy.linked {
                    Some(lid) => match self.find_tx(lid) {
                        Some(j) => self.txs[j].account_id == id,
                        None => false,
                    },
                    None => false,
                };
                if clear {
                    copy.linked = None;
                }
                proof {
                    assert(copy@ == clear_dangling(l0.txs[i as int], l0.txs, id as int));
                }
                kept.push(copy);
                proof {
                    assert(seq_view(kept@) =~= delete_account_txs(
                        l0.txs,
                        l0.txs.take(i + 1),
                        id as int,
                    ));
                }
            }
            i += 1;
        }
        self.txs = kept;
        self.accounts.remove(ai);
        proof {
            assert(l0.txs.take(n as int) =~= l0.txs);
            assert(self@.accounts =~= l0.accounts.remove(ai as int));
            assert(self@ == delete_account_spec(l0, ai as int));
            self.lemma_delete_account_preserves(l0, self@, ai as int);
            crate::model::lemma_account_index_from(self@.accounts, id as int, 0);
            assert forall|k: int| 0 <= k < self@.accounts.len() implies (#[trigger] self@
                .accounts[k]).id != id as int by {
                if k < ai as int {
                    assert(self@.accounts[k] == l0.accounts[k]);
                } else {
                    assert(self@.accounts[k] == l0.accounts[k + 1]);
                }
            }
        }
        Ok(())
    }

    /// Deleting an account keeps the structural invariant, the balance
    /// invariant and link symmetry.
    #[verifier::rlimit(60)]
    proof fn lemma_delete_account_preserves(&self, l0: LedgerV, l1: LedgerV, ai: int)
        requires
            inv(l0),
            0 <= ai < l0.accounts.len(),
            l1 == delete_account_spec(l0, ai),
        ensures
            inv(l1),
            balanced(l0) ==> balanced(l1),
            link_symmetric(l0.txs) ==> link_symmetric(l1.txs),
    {
        let aid = l0.accounts[ai].id;
        let r = l1.txs;
        lemma_delete_txs_props(l0.txs, l0.txs, aid);
        assert forall|k: int| 0 <= k < l1.accounts.len() implies (#[trigger] l1.accounts[k]).id
            != aid by {
            if k < ai {
                assert(l1.accounts[k] == l0.accounts[k]);
            } else {
                assert(l1.accounts[k] == l0.accounts[k + 1]);
            }
        }
        assert forall|q: int|
            0 <= q < r.len() implies account_index(l1.accounts, (#[trigger] r[q]).account_id)
            >= 0 by {
            assert(origin_of(l0.txs, l0.txs, aid, q));
            let p = choose|p: int|
                0 <= p < l0.txs.len() && (#[trigger] l0.txs[p]).account_id != aid && r[q]
                    == clear_dangling(l0.txs[p], l0.txs, aid);
            crate::model::lemma_account_index_from(l0.accounts, l0.txs[p].account_id, 0);
            let w = account_index(l0.accounts, l0.txs[p].account_id);
            assert(l0.accounts[w].id == r[q].account_id);
            assert(w != ai);
            let w1 = if w < ai {
                w
            } else {
                w - 1
            };
            assert(l1.accounts[w1].id == r[q].account_id);
            crate::model::lemma_account_index_from(l1.accounts, r[q].account_id, 0);
        }
        assert forall|q: int| 0 <= q < r.len() implies 1 <= (#[trigger] r[q]).id
            < l1.next_tx_id by {
            assert(origin_of(l0.txs, l0.txs, aid, q));
            let p = choose|p: int|
                0 <= p < l0.txs.len() && (#[trigger] l0.txs[p]).account_id != aid && r[q]
                    == clear_dangling(l0.txs[p], l0.txs, aid);
            assert(r[q].id == l0.txs[p].id);
        }
        if balanced(l0) {
            assert forall|k: int| 0 <= k < l1.accounts.len() implies (#[trigger] l1.accounts[k])
                .balance == tx_sum(l1.txs, l1.accounts[k].id) by {
                let k0 = if k < ai {
                    k
                } else {
                    k + 1
                };
                assert(l1.accounts[k] == l0.accounts[k0]);
                lemma_delete_txs_sum(l0.txs, l0.txs, aid, l1.accounts[k].id);
            }
        }
        if link_symmetric(l0.txs) {
            assert forall|q: int|
                0 <= q < r.len() && (#[trigger] r[q]).linked is Some implies exists|q2: int|
                0 <= q2 < r.len() && (#[trigger] r[q2]).id == r[q].linked->0 && r[q2].linked
                    == Some(r[q].id) by {
                assert(origin_of(l0.txs, l0.txs, aid, q));
                let p = choose|p: int|
                    0 <= p < l0.txs.len() && (#[trigger] l0.txs[p]).account_id != aid && r[q]
                        == clear_dangling(l0.txs[p], l0.txs, aid);
                let k = l0.txs[p].linked->0;
                assert(l0.txs[p].linked is Some);
                assert(!tx_owned_by(l0.txs, k, aid));
                let j = choose|j: int|
                    0 <= j < l0.txs.len() && (#[trigger] l0.txs[j]).id == k && l0.txs[j].linked
                        == Some(l0.txs[p].id);
                crate::model::lemma_tx_index_from(l0.txs, k, 0);
                let jx = tx_index(l0.txs, k);
                assert(jx >= 0);
                assert(l0.txs[jx] == l0.txs[j]) by {
                    if jx != j {
                        assert(l0.txs[jx].id == l0.txs[j].id);
                    }
                }
                assert(l0.txs[j].account_id != aid);
                assert(appears_in(l0.txs, l0.txs, aid, j));
                let q2 = choose|q2: int|
                    0 <= q2 < r.len() && (#[trigger] r[q2]) == clear_dangling(l0.txs[j], l0.txs, aid);
                assert(!tx_owned_by(l0.txs, l0.txs[p].id, aid)) by {
                    crate::model::lemma_tx_index_from(l0.txs, l0.txs[p].id, 0);
                    let px = tx_index(l0.txs, l0.txs[p].id);
                    if px != p {
                        assert(l0.txs[px].id == l0.txs[p].id);
                    }
                }
                assert(r[q2].id == k && r[q2].linked == Some(r[q].id));
            }
        }
    }

    /// The position of the first account other than `exclude` whose name
    /// is exactly `payee`.
    fn find_transfer_target(&self, payee: &str, exclude: i64) -> (r: Option<usize>)
        ensures
            match r {
                Some(i) => transfer_target_index(self@.accounts, payee@, exclude as int) == i && i
                    < self@.accounts.len(),
                None => transfer_target_index(self@.accounts, payee@, exclude as int) == -1,
            },
    {
        let n = self.accounts.len();
        let mut i: usize = 0;
        while i < n
            invariant
                n == self@.accounts.len(),
                i <= n,
                n == self.accounts@.len(),
                self@.accounts == seq_view(self.accounts@),
                transfer_target_index(self@.accounts, payee@, exclude as int)
                    == transfer_target_from(self@.accounts, payee@, exclude as int, i as int),
            decreases n - i,
        {
            if self.accounts[i].id != exclude && str_eq(self.accounts[i].name.as_str(), payee) {
                return Some(i);
            }
            i += 1;
        }
        None
    }

    /// Creates a transaction. When the payee is exactly the name of
    /// another account this is a transfer: the category is overridden to
    /// `Transfer` and a linked counterpart row with the opposite amount is
    /// written on that account. Balances of the touched accounts move by
    /// the amounts written; any failure leaves the ledger untouched.
    #[verifier::rlimit(100)]
    #[verifier::spinoff_prover]
    pub fn create_transaction(
        &mut self,
        args: CreateTransactionArgs,
    ) -> (r: Result<Transaction, LedgerError>)
        requires
            old(self).wf(),
        ensures
            final(self).wf(),
            r is Ok <==> create_tx_ok(old(self)@, args@),
            r matches Ok(t) ==> final(self)@ == create_tx_spec(old(self)@, args@) && t@ == {
                let ti = transfer_target_index(old(self)@.accounts, args.payee@, args.account_id as int);
                if ti < 0 {
                    caller_tx(old(self)@, args@, args.category.deep_view(), None)
                } else {
                    caller_tx(old(self)@, args@, Some("Transfer"@), Some(old(self)@.next_tx_id + 1))
                }
            },
            r matches Err(e) ==> final(self)@ == old(self)@ && (account_index(
                old(self)@.accounts,
                args.account_id as int,
            ) == -1 ==> e == LedgerError::NotFound) && (account_index(
                old(self)@.accounts,
                args.account_id as int,
            ) >= 0 ==> e == LedgerError::Overflow),
            balanced(old(self)@) ==> balanced(final(self)@),
            link_symmetric(old(self)@.txs) ==> link_symmetric(final(self)@.txs),
    {
        let ghost l0 = self@;
        let ai = match self.find_account(args.account_id) {
            Some(ai) => ai,
            None => {
                return Err(LedgerError::NotFound);
            },
        };
        proof {
            crate::model::lemma_account_index_from(l0.accounts, args.account_id as int, 0);
        }
        match self.find_transfer_target(args.payee.as_str(), args.account_id) {
            None => {
                if self.next_tx_id == i64::MAX {
                    return Err(LedgerError::Overflow);
                }
                let mut ds: Vec<(usize, i64)> = Vec::new();
                ds.push((ai, args.amount));
                proof {
                    assert(deltas_view(ds@) =~= seq![(ai as int, args.amount as int)]);
                }
                if !try_apply_deltas(&mut self.accounts, &ds) {
                    return Err(LedgerError::Overflow);
                }
                let id1 = self.next_tx_id;
                let tx = Transaction {
                    id: id1,
                    account_id: args.account_id,
                    date: args.date,
                    payee: args.payee,
                    notes: args.notes,
                    category: args.category,
                    amount: args.amount,
                    ticker: args.ticker,
                    shares: args.shares,
                    price_per_share: args.price_per_share,
                    fee: args.fee,
                    currency: args.currency,
                    linked: None,
                };
                let ret = tx.duplicate();
                self.txs.push(tx);
                self.next_tx_id = id1 + 1;
                proof {
                    let l1 = self@;
                    assert(l1.txs =~= l0.txs.push(ret@));
                    assert(l1 == create_tx_spec(l0, args@));
                    self.lemma_create_tx_preserves(l0, l1, args@);
                }
                Ok(ret)
            },
            Some(ti) => {
                if self.next_tx_id >= i64::MAX - 1 {
                    return Err(LedgerError::Overflow);
                }
                if args.amount == i64::MIN {
                    return Err(LedgerError::Overflow);
                }
                let neg = -args.amount;
                let mut ds: Vec<(usize, i64)> = Vec::new();
                ds.push((ai, args.amount));
                ds.push((ti, neg));
                proof {
                    assert(deltas_view(ds@) =~= seq![
                        (ai as int, args.amount as int),
                        (ti as int, neg as int),
                    ]);
                }
                let source_name = self.accounts[ai].name.clone();
                let target_id = self.accounts[ti].id;
                if !try_apply_deltas(&mut self.accounts, &ds) {
                    return Err(LedgerError::Overflow);
                }
                let id1 = self.next_tx_id;
                let id2 = id1 + 1;
                let t2 = Transaction {
                    id: id2,
                    account_id: target_id,
                    date: args.date.clone(),
                    payee: source_name,
                    notes: duplicate_opt_string(&args.notes),
                    category: Some("Transfer".to_owned()),
                    amount: neg,
                    ticker: None,
                    shares: None,
                    price_per_share: None,
                    fee: None,
                    currency: None,
                    linked: Some(id1),
                };
                let t1 = Transaction {
                    id: id1,
                    account_id: args.account_id,
                    date: args.date,
                    payee: args.payee,
                    notes: args.notes,
                    category: Some("Transfer".to_owned()),
                    amount: args.amount,
                    ticker: args.ticker,
                    shares: args.shares,
                    price_per_share: args.price_per_share,
                    fee: args.fee,
                    currency: args.currency,
                    linked: Some(id2),
                };
                let ret = t1.duplicate();
                proof {
                    assert(t2@ == counterpart_tx(l0, args@, ai as int, ti as int));
                }
                self.txs.push(t1);
                self.txs.push(t2);
                self.next_tx_id = id1 + 2;
                proof {
                    let l1 = self@;
                    assert(l1.txs =~= l0.txs.push(ret@).push(
                        counterpart_tx(l0, args@, ai as int, ti as int),
                    ));
                    assert(l1 == create_tx_spec(l0, args@));
                    self.lemma_create_tx_preserves(l0, l1, args@);
                }
                Ok(ret)
            },
        }
    }

    /// Creating a transaction keeps the structural invariant, the balance
    /// invariant and link symmetry.
    #[verifier::rlimit(60)]
    proof fn lemma_create_tx_preserves(&self, l0: LedgerV, l1: LedgerV, a: CreateTxArgsV)
        requires
            inv(l0),
            create_tx_ok(l0, a),
            l1 == create_tx_spec(l0, a),
        ensures
            inv(l1),
            balanced(l0) ==> balanced(l1),
            link_symmetric(l0.txs) ==> link_symmetric(l1.txs),
    {
        let ai = account_index(l0.accounts, a.account_id);
        let ti = transfer_target_index(l0.accounts, a.payee, a.account_id);
        crate::model::lemma_account_index_from(l0.accounts, a.account_id, 0);
        crate::model::lemma_transfer_target_from(l0.accounts, a.payee, a.account_id, 0);
        let ds: Seq<(int, int)> = if ti < 0 {
            seq![(ai, a.amount)]
        } else {
            seq![(ai, a.amount), (ti, -a.amount)]
        };
        assert(ds.drop_last() =~= ds.take(ds.len() - 1));
        if ti >= 0 {
            assert(ds.drop_last() =~= seq![(ai, a.amount)]);
            assert(seq![(ai, a.amount)].drop_last() =~= Seq::<(int, int)>::empty());
        } else {
            assert(ds.drop_last() =~= Seq::<(int, int)>::empty());
        }
        crate::model::lemma_apply_deltas_shape(l0.accounts, ds);
        assert(l1.accounts == apply_deltas(l0.accounts, ds));
        let t1 = if ti < 0 {
            caller_tx(l0, a, a.category, None)
        } else {
            caller_tx(l0, a, Some("Transfer"@), Some(l0.next_tx_id + 1))
        };
        // Structural invariant: ids, names, foreign keys, counters.
        assert forall|i: int|
            0 <= i < l1.txs.len() implies account_index(
            l1.accounts,
            (#[trigger] l1.txs[i]).account_id,
        ) >= 0 by {
            crate::model::lemma_account_index_from(l1.accounts, l1.txs[i].account_id, 0);
            if i < l0.txs.len() {
                crate::model::lemma_account_index_from(l0.accounts, l0.txs[i].account_id, 0);
                let w = account_index(l0.accounts, l0.txs[i].account_id);
                assert(l1.accounts[w].id == l1.txs[i].account_id);
            } else if i == l0.txs.len() {
                assert(l1.accounts[ai].id == l1.txs[i].account_id);
            } else {
                assert(l1.accounts[ti].id == l1.txs[i].account_id);
            }
        }
        // Balance invariant: each moved balance matches the new row sums.
        if balanced(l0) {
            assert forall|p: int| 0 <= p < ds.len() implies 0 <= (#[trigger] ds[p]).0
                < l0.accounts.len() by {}
            assert forall|k: int| 0 <= k < l1.accounts.len() implies (#[trigger] l1.accounts[k])
                .balance == tx_sum(l1.txs, l1.accounts[k].id) by {
                let id_k = l0.accounts[k].id;
                crate::model::lemma_apply_deltas_balance(l0.accounts, ds, k);
                crate::model::lemma_tx_sum_push(l0.txs, t1, id_k);
                if ti >= 0 {
                    let t2 = counterpart_tx(l0, a, ai, ti);
                    crate::model::lemma_tx_sum_push(l0.txs.push(t1), t2, id_k);
                    if k != ai && k != ti {
                        assert(id_k != a.account_id && id_k != l0.accounts[ti].id);
                        assert(delta_total(ds, k) == 0);
                    } else if k == ai {
                        assert(id_k == a.account_id && id_k != l0.accounts[ti].id);
                        assert(delta_total(ds, k) == a.amount);
                    } else {
                        assert(id_k == l0.accounts[ti].id && id_k != a.account_id);
                        assert(delta_total(ds, k) == -a.amount);
                    }
                } else {
                    if k != ai {
                        assert(id_k != a.account_id);
                        assert(delta_total(ds, k) == 0);
                    } else {
                        assert(delta_total(ds, k) == a.amount);
                    }
                }
            }
        }
        // Link symmetry: the new pair points at each other; old rows keep
        // their witnesses.
        if link_symmetric(l0.txs) {
            assert forall|i: int|
                0 <= i < l1.txs.len() && (#[trigger] l1.txs[i]).linked is Some implies exists|
                j: int,
            |
                0 <= j < l1.txs.len() && (#[trigger] l1.txs[j]).id == l1.txs[i].linked->0
                    && l1.txs[j].linked == Some(l1.txs[i].id) by {
                if i < l0.txs.len() {
                    let j = choose|j: int|
                        0 <= j < l0.txs.len() && (#[trigger] l0.txs[j]).id == l0.txs[i].linked->0
                            && l0.txs[j].linked == Some(l0.txs[i].id);
                    assert(l1.txs[j].id == l1.txs[i].linked->0 && l1.txs[j].linked == Some(
                        l1.txs[i].id,
                    ));
                } else if ti >= 0 {
                    if i == l0.txs.len() {
                        let j = l0.txs.len() + 1 as int;
                        assert(l1.txs[j].id == l1.txs[i].linked->0 && l1.txs[j].linked == Some(
                            l1.txs[i].id,
                        ));
                    } else {
                        let j = l0.txs.len() as int;
                        assert(l1.txs[j].id == l1.txs[i].linked->0 && l1.txs[j].linked == Some(
                            l1.txs[i].id,
                        ));
                    }
                }
            }
        }
    }

    /// The position of the first transaction other than `exclude` that
    /// the notes-based fallback accepts as a counterpart.
    fn find_fallback(&self, notes: &str, exclude: i64) -> (r: Option<usize>)
        ensures
            match r {
                Some(i) => fallback_index(self@.txs, notes@, exclude as int) == i && i
                    < self@.txs.len(),
                None => fallback_index(self@.txs, notes@, exclude as int) == -1,
            },
    {
        let n = self.txs.len();
        let mut i: usize = 0;
        while i < n
            invariant
                n == self@.txs.len(),
                i <= n,
                n == self.txs@.len(),
                self@.txs == seq_view(self.txs@),
                fallback_index(self@.txs, notes@, exclude as int) == fallback_from(
                    self@.txs,
                    notes@,
                    exclude as int,
                    i as int,
                ),
            decreases n - i,
        {
            let notes_match = match &self.txs[i].notes {
                Some(tn) => str_eq(tn.as_str(), notes),
                None => false,
            };
            let category_match = match &self.txs[i].category {
                Some(c) => str_eq(c.as_str(), "Transfer"),
                None => false,
            };
            let link_free = match self.txs[i].linked {
                None => true,
                Some(l) => l == exclude,
            };
            if notes_match && category_match && self.txs[i].id != exclude && link_free {
                proof {
                    assert(is_fallback_counterpart(self@.txs[i as int], notes@, exclude as int));
                }
                return Some(i);
            }
            proof {
                assert(!is_fallback_counterpart(self@.txs[i as int], notes@, exclude as int));
            }
            i += 1;
        }
        None
    }

    /// Deletes a transaction and reverses its effect on its account's
    /// balance. A linked counterpart row, or one found by the notes-based
    /// fallback when no link is stored, is deleted and reversed the same
    /// way: deleting either side of a transfer pair removes both rows.
    /// Any failure leaves the ledger untouched.
    #[verifier::rlimit(100)]
    #[verifier::spinoff_prover]
    pub fn delete_transaction(&mut self, id: i64) -> (r: Result<(), LedgerError>)
        requires
            old(self).wf(),
        ensures
            final(self).wf(),
            r is Ok <==> delete_tx_ok(old(self)@, id as int),
            r is Ok ==> final(self)@ == delete_tx_spec(
                old(self)@,
                tx_index(old(self)@.txs, id as int),
            ),
            r matches Err(e) ==> final(self)@ == old(self)@ && (tx_index(
                old(self)@.txs,
                id as int,
            ) == -1 ==> e == LedgerError::NotFound) && (tx_index(old(self)@.txs, id as int) >= 0
                ==> e == LedgerError::Overflow),
            balanced(old(self)@) ==> balanced(final(self)@),
            link_symmetric(old(self)@.txs) ==> link_symmetric(final(self)@.txs),
    {
        let ghost l0 = self@;
        let ti = match self.find_tx(id) {
            Some(ti) => ti,
            None => {
                return Err(LedgerError::NotFound);
            },
        };
        proof {
            crate::model::lemma_tx_index_from(l0.txs, id as int, 0);
        }
        let t_amount = self.txs[ti].amount;
        let t_account = self.txs[ti].account_id;
        proof {
            assert(account_index(l0.accounts, l0.txs[ti as int].account_id) >= 0);
        }
        let ai = match self.find_account(t_account) {
            Some(ai) => ai,
            None => {
                proof {
                    assert(false);
                }
                return Err(LedgerError::NotFound);
            },
        };
        let ci_opt: Option<usize> = match self.txs[ti].linked {
            Some(lid) => match self.find_tx(lid) {
                Some(li) => if li != ti {
                    Some(li)
                } else {
                    None
                },
                None => None,
            },
            None => match &self.txs[ti].notes {
                Some(n) => {
                    let notes_copy = n.clone();
                    self.find_fallback(notes_copy.as_str(), id)
                },
                None => None,
            },
        };
        let ghost ci = delete_counterpart_index(l0, ti as int);
        proof {
            let t = l0.txs[ti as int];
            if t.linked is Some {
                crate::model::lemma_tx_index_from(l0.txs, t.linked->0, 0);
            } else if t.notes is Some {
                crate::model::lemma_fallback_from(l0.txs, t.notes->0, t.id, 0);
            }
            match ci_opt {
                Some(c) => {
                    assert(ci == c as int);
                    if !(t.linked is Some) {
                        assert(l0.txs[ci].id != t.id);
                    }
                    assert(0 <= ci < l0.txs.len() && ci != ti as int);
                },
                None => {
                    assert(ci == -1);
                },
            }
        }
        if t_amount == i64::MIN {
            return Err(LedgerError::Overflow);
        }
        let mut ds: Vec<(usize, i64)> = Vec::new();
        ds.push((ai, -t_amount));
        match ci_opt {
            Some(c) => {
                let c_amount = self.txs[c].amount;
                let c_account = self.txs[c].account_id;
                proof {
                    assert(account_index(l0.accounts, l0.txs[c as int].account_id) >= 0);
                }
                let cai = match self.find_account(c_account) {
                    Some(cai) => cai,
                    None => {
                        proof {
                            assert(false);
                        }
                        return Err(LedgerError::NotFound);
                    },
                };
                if c_amount == i64::MIN {
                    return Err(LedgerError::Overflow);
                }
                ds.push((cai, -c_amount));
                proof {
                    assert(deltas_view(ds@) =~= delete_tx_deltas(l0, ti as int, ci));
                }
            },
            None => {
                proof {
                    assert(deltas_view(ds@) =~= delete_tx_deltas(l0, ti as int, ci));
                }
            },
        }
        if !try_apply_deltas(&mut self.accounts, &ds) {
            return Err(LedgerError::Overflow);
        }
        match ci_opt {
            Some(c) => {
                if c > ti {
                    self.txs.remove(c);
                    self.txs.remove(ti);
                } else {
                    self.txs.remove(ti);
                    self.txs.remove(c);
                }
            },
            None => {
                self.txs.remove(ti);
            },
        }
        proof {
            let l1 = self@;
            if ci >= 0 {
                if ci > ti as int {
                    assert(l1.txs =~= l0.txs.remove(ci).remove(ti as int));
                } else {
                    assert(l1.txs =~= l0.txs.remove(ti as int).remove(ci));
                }
            } else {
                assert(l1.txs =~= l0.txs.remove(ti as int));
            }
            assert(l1 == delete_tx_spec(l0, ti as int));
            self.lemma_delete_tx_preserves(l0, l1, ti as int);
        }
        Ok(())
    }

    /// Deleting a transaction, with its counterpart when one is found,
    /// keeps the structural invariant, the balance invariant and link
    /// symmetry.
    proof fn lemma_delete_tx_preserves(&self, l0: LedgerV, l1: LedgerV, ti: int)
        requires
            inv(l0),
            0 <= ti < l0.txs.len(),
            l1 == delete_tx_spec(l0, ti),
        ensures
            inv(l1),
            balanced(l0) ==> balanced(l1),
            link_symmetric(l0.txs) ==> link_symmetric(l1.txs),
    {
        self.lemma_delete_tx_counterpart_facts(l0, ti);
        self.lemma_delete_tx_inv(l0, l1, ti);
        self.lemma_delete_tx_balance(l0, l1, ti);
        self.lemma_delete_tx_links(l0, l1, ti);
    }

    /// Where the counterpart of a deletion stands: in range and distinct
    /// from the deleted row, and the delta list is well shaped.
    proof fn lemma_delete_tx_counterpart_facts(&self, l0: LedgerV, ti: int)
        requires
            inv(l0),
            0 <= ti < l0.txs.len(),
        ensures
            delete_counterpart_index(l0, ti) >= 0 ==> delete_counterpart_index(l0, ti)
                < l0.txs.len() && delete_counterpart_index(l0, ti) != ti,
            forall|p: int|
                0 <= p < delete_tx_deltas(l0, ti, delete_counterpart_index(l0, ti)).len()
                    ==> 0 <= (#[trigger] delete_tx_deltas(
                    l0,
                    ti,
                    delete_counterpart_index(l0, ti),
                )[p]).0 < l0.accounts.len(),
    {
        let t = l0.txs[ti];
        let ci = delete_counterpart_index(l0, ti);
        if t.linked is Some {
            crate::model::lemma_tx_index_from(l0.txs, t.linked->0, 0);
        } else if t.notes is Some {
            crate::model::lemma_fallback_from(l0.txs, t.notes->0, t.id, 0);
        }
        crate::model::lemma_account_index_from(l0.accounts, t.account_id, 0);
        if ci >= 0 {
            crate::model::lemma_account_index_from(l0.accounts, l0.txs[ci].account_id, 0);
        }
    }

    /// Deleting a transaction keeps the structural invariant.
    proof fn lemma_delete_tx_inv(&self, l0: LedgerV, l1: LedgerV, ti: int)
        requires
            inv(l0),
            0 <= ti < l0.txs.len(),
            l1 == delete_tx_spec(l0, ti),
        ensures
            inv(l1),
    {
        self.lemma_delete_tx_counterpart_facts(l0, ti);
        let t = l0.txs[ti];
        let ci = delete_counterpart_index(l0, ti);
        let ds = delete_tx_deltas(l0, ti, ci);
        crate::model::lemma_apply_deltas_shape(l0.accounts, ds);
        assert forall|q: int|
            0 <= q < l1.txs.len() implies account_index(
            l1.accounts,
            (#[trigger] l1.txs[q]).account_id,
        ) >= 0 by {
            assert(exists|p: int| 0 <= p < l0.txs.len() && l0.txs[p] == l1.txs[q]);
            let p = choose|p: int| 0 <= p < l0.txs.len() && l0.txs[p] == l1.txs[q];
            crate::model::lemma_account_index_from(l0.accounts, l0.txs[p].account_id, 0);
            let w = account_index(l0.accounts, l0.txs[p].account_id);
            assert(l1.accounts[w].id == l1.txs[q].account_id);
            crate::model::lemma_account_index_from(l1.accounts, l1.txs[q].account_id, 0);
        }
    }

    /// Deleting a transaction keeps the balance invariant: each account's
    /// sum drops by exactly what was removed from it.
    #[verifier::rlimit(80)]
    proof fn lemma_delete_tx_balance(&self, l0: LedgerV, l1: LedgerV, ti: int)
        requires
            inv(l0),
            0 <= ti < l0.txs.len(),
            l1 == delete_tx_spec(l0, ti),
        ensures
            balanced(l0) ==> balanced(l1),
    {
        self.lemma_delete_tx_counterpart_facts(l0, ti);
        let t = l0.txs[ti];
        let ci = delete_counterpart_index(l0, ti);
        let ds = delete_tx_deltas(l0, ti, ci);
        if ci >= 0 {
            assert(ds.drop_last() =~= seq![(account_index(l0.accounts, t.account_id), -t.amount)]);
            assert(ds.drop_last().drop_last() =~= Seq::<(int, int)>::empty());
        } else {
            assert(ds.drop_last() =~= Seq::<(int, int)>::empty());
        }
        crate::model::lemma_apply_deltas_shape(l0.accounts, ds);
        if balanced(l0) {
            assert forall|k: int| 0 <= k < l1.accounts.len() implies (#[trigger] l1.accounts[k])
                .balance == tx_sum(l1.txs, l1.accounts[k].id) by {
                let id_k = l0.accounts[k].id;
                assert(l1.accounts[k] == apply_deltas(l0.accounts, ds)[k]);
                assert(l1.accounts[k].id == id_k);
                crate::model::lemma_apply_deltas_balance(l0.accounts, ds, k);
                assert(l1.accounts[k].balance == l0.accounts[k].balance + delta_total(ds, k));
                assert(l0.accounts[k].balance == tx_sum(l0.txs, id_k));
                let contrib_t: int = if t.account_id == id_k {
                    t.amount
                } else {
                    0
                };
                assert(k == account_index(l0.accounts, t.account_id) <==> id_k
                    == t.account_id) by {
                    crate::model::lemma_account_index_from(l0.accounts, t.account_id, 0);
                }
                if ci >= 0 {
                    let c = l0.txs[ci];
                    let contrib_c: int = if c.account_id == id_k {
                        c.amount
                    } else {
                        0
                    };
                    assert(k == account_index(l0.accounts, c.account_id) <==> id_k
                        == c.account_id) by {
                        crate::model::lemma_account_index_from(l0.accounts, c.account_id, 0);
                    }
                    let d0 = (account_index(l0.accounts, t.account_id), -t.amount);
                    let d1 = (account_index(l0.accounts, c.account_id), -c.amount);
                    assert(ds =~= seq![d0, d1]);
                    crate::model::lemma_delta_total_two(d0, d1, k);
                    assert(delta_total(ds, k) == -contrib_t - contrib_c);
                    if ci > ti {
                        crate::model::lemma_tx_sum_remove(l0.txs, ci, id_k);
                        crate::model::lemma_tx_sum_remove(l0.txs.remove(ci), ti, id_k);
                        assert(l0.txs.remove(ci)[ti] == l0.txs[ti]);
                        assert(tx_sum(l1.txs, id_k) == tx_sum(l0.txs, id_k) - contrib_c
                            - contrib_t);
                    } else {
                        crate::model::lemma_tx_sum_remove(l0.txs, ti, id_k);
                        crate::model::lemma_tx_sum_remove(l0.txs.remove(ti), ci, id_k);
                        assert(l0.txs.remove(ti)[ci] == l0.txs[ci]);
                        assert(tx_sum(l1.txs, id_k) == tx_sum(l0.txs, id_k) - contrib_t
                            - contrib_c);
                    }
                } else {
                    let d0 = (account_index(l0.accounts, t.account_id), -t.amount);
                    assert(ds =~= seq![d0]);
                    crate::model::lemma_delta_total_one(d0, k);
                    assert(delta_total(ds, k) == -contrib_t);
                    crate::model::lemma_tx_sum_remove(l0.txs, ti, id_k);
                    assert(tx_sum(l1.txs, id_k) == tx_sum(l0.txs, id_k) - contrib_t);
                }
            }
        }
    }

    /// Deleting a transaction keeps link symmetry: a surviving row's
    /// witness is never one of the removed rows.
    #[verifier::rlimit(100)]
    proof fn lemma_delete_tx_links(&self, l0: LedgerV, l1: LedgerV, ti: int)
        requires
            inv(l0),
            0 <= ti < l0.txs.len(),
            l1 == delete_tx_spec(l0, ti),
        ensures
            link_symmetric(l0.txs) ==> link_symmetric(l1.txs),
    {
        self.lemma_delete_tx_counterpart_facts(l0, ti);
        let t = l0.txs[ti];
        let ci = delete_counterpart_index(l0, ti);
        if t.linked is Some {
            crate::model::lemma_tx_index_from(l0.txs, t.linked->0, 0);
        } else if t.notes is Some {
            crate::model::lemma_fallback_from(l0.txs, t.notes->0, t.id, 0);
        }
        if link_symmetric(l0.txs) {
            assert forall|q: int|
                0 <= q < l1.txs.len() && (#[trigger] l1.txs[q]).linked is Some implies exists|
                q2: int,
            |
                0 <= q2 < l1.txs.len() && (#[trigger] l1.txs[q2]).id == l1.txs[q].linked->0
                    && l1.txs[q2].linked == Some(l1.txs[q].id) by {
                self.lemma_delete_tx_link_at(l0, l1, ti, q);
            }
        }
    }

    /// One surviving row keeps a surviving witness for its link.
    #[verifier::rlimit(100)]
    #[verifier::spinoff_prover]
    proof fn lemma_delete_tx_link_at(&self, l0: LedgerV, l1: LedgerV, ti: int, q: int)
        requires
            inv(l0),
            link_symmetric(l0.txs),
            0 <= ti < l0.txs.len(),
            l1 == delete_tx_spec(l0, ti),
            0 <= q < l1.txs.len(),
            l1.txs[q].linked is Some,
        ensures
            exists|q2: int|
                0 <= q2 < l1.txs.len() && (#[trigger] l1.txs[q2]).id == l1.txs[q].linked->0
                    && l1.txs[q2].linked == Some(l1.txs[q].id),
    {
        let t = l0.txs[ti];
        let ci = delete_counterpart_index(l0, ti);
        self.lemma_delete_tx_counterpart_facts(l0, ti);
        {
            {
                let p = if ci >= 0 {
                    let lo = if ci < ti {
                        ci
                    } else {
                        ti
                    };
                    let hi = if ci < ti {
                        ti
                    } else {
                        ci
                    };
                    let m = if q < lo {
                        q
                    } else {
                        q + 1
                    };
                    if m < hi {
                        m
                    } else {
                        m + 1
                    }
                } else {
                    if q < ti {
                        q
                    } else {
                        q + 1
                    }
                };
                assert(l0.txs[p] == l1.txs[q]);
                assert(p != ti && (ci >= 0 ==> p != ci));
                self.lemma_delete_tx_witness(l0, ti, p);
                let j = choose|j: int|
                    0 <= j < l0.txs.len() && j != ti && (delete_counterpart_index(l0, ti) >= 0
                        ==> j != delete_counterpart_index(l0, ti)) && (#[trigger] l0.txs[j]).id
                        == l0.txs[p].linked->0 && l0.txs[j].linked == Some(l0.txs[p].id);
                // The witness survives, at its shifted position.
                let q2 = if ci >= 0 {
                    let lo = if ci < ti {
                        ci
                    } else {
                        ti
                    };
                    let hi = if ci < ti {
                        ti
                    } else {
                        ci
                    };
                    let m = if j < hi {
                        j
                    } else {
                        j - 1
                    };
                    if m < lo {
                        m
                    } else {
                        m - 1
                    }
                } else {
                    if j < ti {
                        j
                    } else {
                        j - 1
                    }
                };
                assert(l1.txs[q2] == l0.txs[j]);
                assert(l1.txs[q2].id == l1.txs[q].linked->0 && l1.txs[q2].linked == Some(
                    l1.txs[q].id,
                ));
            }
        }
    }

    /// A surviving row's link witness is neither the deleted row nor the
    /// removed counterpart.
    #[verifier::rlimit(60)]
    proof fn lemma_delete_tx_witness(&self, l0: LedgerV, ti: int, p: int)
        requires
            inv(l0),
            link_symmetric(l0.txs),
            0 <= ti < l0.txs.len(),
            0 <= p < l0.txs.len(),
            p != ti,
            delete_counterpart_index(l0, ti) >= 0 ==> p != delete_counterpart_index(l0, ti),
            l0.txs[p].linked is Some,
        ensures
            exists|j: int|
                0 <= j < l0.txs.len() && j != ti && (delete_counterpart_index(l0, ti) >= 0 ==> j
                    != delete_counterpart_index(l0, ti)) && (#[trigger] l0.txs[j]).id
                    == l0.txs[p].linked->0 && l0.txs[j].linked == Some(l0.txs[p].id),
    {
        let t = l0.txs[ti];
        let ci = delete_counterpart_index(l0, ti);
        self.lemma_delete_tx_counterpart_facts(l0, ti);
        if t.linked is Some {
            crate::model::lemma_tx_index_from(l0.txs, t.linked->0, 0);
        } else if t.notes is Some {
            crate::model::lemma_fallback_from(l0.txs, t.notes->0, t.id, 0);
        }
        let x = l0.txs[p];
        let j = choose|j: int|
            0 <= j < l0.txs.len() && (#[trigger] l0.txs[j]).id == x.linked->0 && l0.txs[j].linked
                == Some(x.id);
        // The witness is not the deleted row: x would then be the
        // counterpart and gone too.
        assert(j != ti) by {
            if j == ti {
                assert(t.linked == Some(x.id));
                crate::model::lemma_tx_index_from(l0.txs, x.id, 0);
                let xi = tx_index(l0.txs, x.id);
                assert(l0.txs[xi].id == x.id);
                if xi != p {
                    assert(l0.txs[xi].id == l0.txs[p].id);
                }
                assert(xi == p);
                assert(ci == p);
            }
        }
        // Nor the removed counterpart: its link points at the deleted
        // row.
        if ci >= 0 && j == ci {
            let c = l0.txs[ci];
            assert(c.linked == Some(x.id));
            if t.linked is Some {
                let jt = choose|jt: int|
                    0 <= jt < l0.txs.len() && (#[trigger] l0.txs[jt]).id == t.linked->0
                        && l0.txs[jt].linked == Some(t.id);
                if jt != ci {
                    assert(l0.txs[jt].id == l0.txs[ci].id);
                }
                assert(c.linked == Some(t.id));
                assert(x.id == t.id);
                if p != ti {
                    assert(l0.txs[p].id == l0.txs[ti].id);
                }
                assert(false);
            } else {
                assert(is_fallback_counterpart(c, t.notes->0, t.id));
                assert(c.linked == Some(t.id));
                assert(x.id == t.id);
                if p != ti {
                    assert(l0.txs[p].id == l0.txs[ti].id);
                }
                assert(false);
            }
        }
    }

    /// The shape every update of a row and its counterpart has: the same
    /// ids in place, links either left alone or written symmetrically,
    /// and balances moved by exactly the change of contributions.
    spec fn update_shape(
        l0: LedgerV,
        l1: LedgerV,
        ti: int,
        ci: int,
        via_fallback: bool,
        t_new: TxV,
        c_new: TxV,
        ds: Seq<(int, int)>,
    ) -> bool {
        &&& 0 <= ti < l0.txs.len()
        &&& (ci == -1 || (0 <= ci < l0.txs.len() && ci != ti))
        &&& t_new.id == l0.txs[ti].id
        &&& account_index(l0.accounts, t_new.account_id) >= 0
        &&& (ci >= 0 ==> c_new.id == l0.txs[ci].id && c_new.account_id == l0.txs[ci].account_id)
        &&& if ci >= 0 {
            if via_fallback {
                &&& l0.txs[ti].linked is None
                &&& (l0.txs[ci].linked is None || l0.txs[ci].linked == Some(l0.txs[ti].id))
                &&& t_new.linked == Some(l0.txs[ci].id)
                &&& c_new.linked == Some(l0.txs[ti].id)
            } else {
                &&& l0.txs[ti].linked == Some(l0.txs[ci].id)
                &&& t_new.linked == l0.txs[ti].linked
                &&& c_new.linked == l0.txs[ci].linked
            }
        } else {
            t_new.linked == l0.txs[ti].linked
        }
        &&& forall|j: int| 0 <= j < ds.len() ==> 0 <= (#[trigger] ds[j]).0 < l0.accounts.len()
        &&& forall|k: int|
            0 <= k < l0.accounts.len() ==> delta_total(ds, k) == balance_change_at(
                l0,
                ti,
                ci,
                t_new,
                c_new,
                k,
            )
        &&& l1 == (LedgerV {
            txs: if ci >= 0 {
                l0.txs.update(ti, t_new).update(ci, c_new)
            } else {
                l0.txs.update(ti, t_new)
            },
            accounts: apply_deltas(l0.accounts, ds),
            ..l0
        })
    }

    /// Updating a row and synchronizing its counterpart keeps the
    /// structural invariant, the balance invariant and link symmetry.
    proof fn lemma_update_rows_preserves(
        &self,
        l0: LedgerV,
        l1: LedgerV,
        ti: int,
        ci: int,
        via_fallback: bool,
        t_new: TxV,
        c_new: TxV,
        ds: Seq<(int, int)>,
    )
        requires
            inv(l0),
            Self::update_shape(l0, l1, ti, ci, via_fallback, t_new, c_new, ds),
        ensures
            inv(l1),
            balanced(l0) ==> balanced(l1),
            link_symmetric(l0.txs) ==> link_symmetric(l1.txs),
    {
        crate::model::lemma_apply_deltas_shape(l0.accounts, ds);
        assert(l1.txs.len() == l0.txs.len());
        assert forall|q: int| 0 <= q < l1.txs.len() implies (#[trigger] l1.txs[q]).id
            == l0.txs[q].id by {}
        assert forall|q: int|
            0 <= q < l1.txs.len() implies account_index(
            l1.accounts,
            (#[trigger] l1.txs[q]).account_id,
        ) >= 0 by {
            if q == ti {
                crate::model::lemma_account_index_from(l0.accounts, t_new.account_id, 0);
            } else {
                crate::model::lemma_account_index_from(l0.accounts, l0.txs[q].account_id, 0);
            }
            let w = account_index(l0.accounts, l1.txs[q].account_id);
            assert(l1.accounts[w].id == l1.txs[q].account_id);
            crate::model::lemma_account_index_from(l1.accounts, l1.txs[q].account_id, 0);
        }
        if balanced(l0) {
            assert forall|k: int| 0 <= k < l1.accounts.len() implies (#[trigger] l1.accounts[k])
                .balance == tx_sum(l1.txs, l1.accounts[k].id) by {
                let id_k = l0.accounts[k].id;
                assert(l1.accounts[k] == apply_deltas(l0.accounts, ds)[k]);
                crate::model::lemma_apply_deltas_balance(l0.accounts, ds, k);
                crate::model::lemma_tx_sum_update(l0.txs, ti, t_new, id_k);
                if ci >= 0 {
                    crate::model::lemma_tx_sum_update(l0.txs.update(ti, t_new), ci, c_new, id_k);
                    assert(l0.txs.update(ti, t_new)[ci] == l0.txs[ci]);
                }
            }
        }
        if link_symmetric(l0.txs) {
            assert forall|q: int|
                0 <= q < l1.txs.len() && (#[trigger] l1.txs[q]).linked is Some implies exists|
                q2: int,
            |
                0 <= q2 < l1.txs.len() && (#[trigger] l1.txs[q2]).id == l1.txs[q].linked->0
                    && l1.txs[q2].linked == Some(l1.txs[q].id) by {
                self.lemma_update_rows_link_at(l0, l1, ti, ci, via_fallback, t_new, c_new, ds, q);
            }
        }
    }

    /// One row of an update keeps a witness for its link.
    #[verifier::rlimit(100)]
    #[verifier::spinoff_prover]
    proof fn lemma_update_rows_link_at(
        &self,
        l0: LedgerV,
        l1: LedgerV,
        ti: int,
        ci: int,
        via_fallback: bool,
        t_new: TxV,
        c_new: TxV,
        ds: Seq<(int, int)>,
        q: int,
    )
        requires
            inv(l0),
            link_symmetric(l0.txs),
            Self::update_shape(l0, l1, ti, ci, via_fallback, t_new, c_new, ds),
            0 <= q < l1.txs.len(),
            l1.txs[q].linked is Some,
        ensures
            exists|q2: int|
                0 <= q2 < l1.txs.len() && (#[trigger] l1.txs[q2]).id == l1.txs[q].linked->0
                    && l1.txs[q2].linked == Some(l1.txs[q].id),
    {
        let t_old = l0.txs[ti];
        if q == ti {
            if ci >= 0 {
                // The counterpart is the witness: it carries the link
                // back, either freshly written or already there by
                // symmetry.
                if via_fallback {
                    assert(l1.txs[ci].id == l1.txs[q].linked->0 && l1.txs[ci].linked == Some(
                        l1.txs[q].id,
                    ));
                } else {
                    let j = choose|j: int|
                        0 <= j < l0.txs.len() && (#[trigger] l0.txs[j]).id == t_old.linked->0
                            && l0.txs[j].linked == Some(t_old.id);
                    if j != ci {
                        assert(l0.txs[j].id == l0.txs[ci].id);
                    }
                    assert(l1.txs[ci].id == l1.txs[q].linked->0 && l1.txs[ci].linked == Some(
                        l1.txs[q].id,
                    ));
                }
            } else {
                // No counterpart was touched: the link is the old one and
                // its old witness is untouched, or is the row itself.
                let j = choose|j: int|
                    0 <= j < l0.txs.len() && (#[trigger] l0.txs[j]).id == t_old.linked->0
                        && l0.txs[j].linked == Some(t_old.id);
                assert(l1.txs[j].id == l1.txs[q].linked->0 && l1.txs[j].linked == Some(
                    l1.txs[q].id,
                ));
            }
        } else if ci >= 0 && q == ci {
            if via_fallback {
                assert(l1.txs[ti].id == l1.txs[q].linked->0 && l1.txs[ti].linked == Some(
                    l1.txs[q].id,
                ));
            } else {
                let c_old = l0.txs[ci];
                let j = choose|j: int|
                    0 <= j < l0.txs.len() && (#[trigger] l0.txs[j]).id == c_old.linked->0
                        && l0.txs[j].linked == Some(c_old.id);
                if j == ti {
                    assert(l1.txs[ti].id == l1.txs[q].linked->0 && l1.txs[ti].linked == Some(
                        l1.txs[q].id,
                    ));
                } else if j == ci {
                    assert(l1.txs[ci].id == l1.txs[q].linked->0 && l1.txs[ci].linked == Some(
                        l1.txs[q].id,
                    ));
                } else {
                    assert(l1.txs[j].id == l1.txs[q].linked->0 && l1.txs[j].linked == Some(
                        l1.txs[q].id,
                    ));
                }
            }
        } else {
            let x = l0.txs[q];
            let j = choose|j: int|
                0 <= j < l0.txs.len() && (#[trigger] l0.txs[j]).id == x.linked->0
                    && l0.txs[j].linked == Some(x.id);
            if j == ti {
                // The main row keeps or rewrites its link; rewriting only
                // happens when it had none, so here it is kept.
                if via_fallback && ci >= 0 {
                    assert(t_old.linked is None);
                    assert(false);
                }
                assert(l1.txs[ti].id == l1.txs[q].linked->0 && l1.txs[ti].linked == Some(
                    l1.txs[q].id,
                ));
            } else if ci >= 0 && j == ci {
                let c_old = l0.txs[ci];
                if via_fallback {
                    assert(c_old.linked == Some(x.id));
                    assert(c_old.linked is None || c_old.linked == Some(t_old.id));
                    assert(x.id == t_old.id);
                    if q != ti {
                        assert(l0.txs[q].id == l0.txs[ti].id);
                    }
                    assert(false);
                } else {
                    assert(l1.txs[ci].id == l1.txs[q].linked->0 && l1.txs[ci].linked == Some(
                        l1.txs[q].id,
                    ));
                }
            } else {
                assert(l1.txs[j].id == l1.txs[q].linked->0 && l1.txs[j].linked == Some(
                    l1.txs[q].id,
                ));
            }
        }
    }

    /// Where the counterpart of an update stands: in range and distinct
    /// from the updated row.
    proof fn lemma_update_counterpart_facts(&self, l0: LedgerV, ti: int, notes: Option<Seq<char>>)
        requires
            inv(l0),
            0 <= ti < l0.txs.len(),
        ensures
            update_counterpart_index(l0, ti, notes) >= 0 ==> update_counterpart_index(
                l0,
                ti,
                notes,
            ) < l0.txs.len() && update_counterpart_index(l0, ti, notes) != ti,
            update_via_fallback(l0, ti, notes) ==> is_fallback_counterpart(
                l0.txs[update_counterpart_index(l0, ti, notes)],
                notes->0,
                l0.txs[ti].id,
            ),
            update_counterpart_index(l0, ti, notes) >= 0 && l0.txs[ti].linked is Some
                ==> l0.txs[update_counterpart_index(l0, ti, notes)].id == l0.txs[ti].linked->0,
    {
        let t = l0.txs[ti];
        if t.linked is Some {
            crate::model::lemma_tx_index_from(l0.txs, t.linked->0, 0);
        } else if notes is Some {
            crate::model::lemma_fallback_from(l0.txs, notes->0, t.id, 0);
            let ci = update_counterpart_index(l0, ti, notes);
            if ci >= 0 && ci == ti {
                assert(l0.txs[ci].id != t.id);
            }
        }
    }

    /// The deltas of an update move each account by exactly the change
    /// of its rows' contributions.
    #[verifier::rlimit(60)]
    proof fn lemma_move_deltas_match(
        &self,
        l0: LedgerV,
        ti: int,
        ci: int,
        t_new: TxV,
        c_new: TxV,
    )
        requires
            inv(l0),
            0 <= ti < l0.txs.len(),
            ci == -1 || (0 <= ci < l0.txs.len() && ci != ti),
            account_index(l0.accounts, t_new.account_id) >= 0,
            ci >= 0 ==> c_new.account_id == l0.txs[ci].account_id,
        ensures
            forall|j: int|
                0 <= j < move_deltas(l0, ti, ci, t_new, c_new).len() ==> 0 <= (
                #[trigger] move_deltas(l0, ti, ci, t_new, c_new)[j]).0 < l0.accounts.len(),
            forall|k: int|
                0 <= k < l0.accounts.len() ==> delta_total(move_deltas(l0, ti, ci, t_new, c_new), k)
                    == balance_change_at(l0, ti, ci, t_new, c_new, k),
    {
        let t_old = l0.txs[ti];
        let oai = account_index(l0.accounts, t_old.account_id);
        let nai = account_index(l0.accounts, t_new.account_id);
        let ds = move_deltas(l0, ti, ci, t_new, c_new);
        crate::model::lemma_account_index_from(l0.accounts, t_old.account_id, 0);
        crate::model::lemma_account_index_from(l0.accounts, t_new.account_id, 0);
        if ci >= 0 {
            crate::model::lemma_account_index_from(l0.accounts, l0.txs[ci].account_id, 0);
        }
        assert forall|k: int|
            0 <= k < l0.accounts.len() implies delta_total(ds, k) == balance_change_at(
            l0,
            ti,
            ci,
            t_new,
            c_new,
            k,
        ) by {
            let id_k = l0.accounts[k].id;
            assert(k == oai <==> id_k == t_old.account_id);
            assert(k == nai <==> id_k == t_new.account_id);
            if ci >= 0 {
                let c_old = l0.txs[ci];
                let cai = account_index(l0.accounts, c_old.account_id);
                assert(k == cai <==> id_k == c_old.account_id);
                if t_new.account_id == t_old.account_id {
                    assert(ds =~= seq![
                        (nai, t_new.amount - t_old.amount),
                        (cai, c_new.amount - c_old.amount),
                    ]);
                    crate::model::lemma_delta_total_two(
                        (nai, t_new.amount - t_old.amount),
                        (cai, c_new.amount - c_old.amount),
                        k,
                    );
                } else {
                    assert(ds =~= seq![
                        (oai, -t_old.amount),
                        (nai, t_new.amount),
                        (cai, c_new.amount - c_old.amount),
                    ]);
                    crate::model::lemma_delta_total_three(
                        (oai, -t_old.amount),
                        (nai, t_new.amount),
                        (cai, c_new.amount - c_old.amount),
                        k,
                    );
                }
            } else {
                if t_new.account_id == t_old.account_id {
                    assert(ds =~= seq![(nai, t_new.amount - t_old.amount)]);
                    crate::model::lemma_delta_total_one((nai, t_new.amount - t_old.amount), k);
                } else {
                    assert(ds =~= seq![(oai, -t_old.amount), (nai, t_new.amount)]);
                    crate::model::lemma_delta_total_two(
                        (oai, -t_old.amount),
                        (nai, t_new.amount),
                        k,
                    );
                }
            }
        }
    }

    /// Updates a transaction: all caller fields are overwritten,
    /// including a move to another owning account. The owning balance is
    /// adjusted by the difference, or both balances on a move. A linked
    /// counterpart, or one the notes-based fallback finds when no link is
    /// stored, is rewritten to mirror the update with the opposite
    /// amount, its links made symmetric, and its balance adjusted. Any
    /// failure leaves the ledger untouched.
    #[verifier::rlimit(100)]
    #[verifier::spinoff_prover]
    pub fn update_transaction(
        &mut self,
        args: UpdateTransactionArgs,
    ) -> (r: Result<Transaction, LedgerError>)
        requires
            old(self).wf(),
        ensures
            final(self).wf(),
            r is Ok <==> update_tx_ok(old(self)@, args@),
            ({
                let l0 = old(self)@;
                let ti = tx_index(l0.txs, args.id as int);
                let ci = update_counterpart_index(l0, ti, args@.notes);
                let nai = account_index(l0.accounts, args.account_id as int);
                &&& (r matches Ok(t) ==> final(self)@ == update_tx_spec(l0, args@) && t@
                    == update_tx_main_row(l0, ti, ci, args@))
                &&& (r matches Err(e) ==> final(self)@ == l0 && (ti == -1 ==> e
                    == LedgerError::NotFound) && (ti >= 0 && nai == -1 ==> e
                    == LedgerError::NotFound) && (ti >= 0 && nai >= 0 ==> e
                    == LedgerError::Overflow))
                &&& ((r is Ok && args.account_id as int == l0.txs[ti].account_id
                    && args.amount as int == l0.txs[ti].amount && (ci >= 0 ==> l0.txs[ci].amount
                    == -(args.amount as int))) ==> final(self)@.accounts.len()
                    == l0.accounts.len() && (forall|k: int|
                    0 <= k < l0.accounts.len() ==> (#[trigger] final(self)@.accounts[k]).balance
                        == l0.accounts[k].balance))
            }),
            balanced(old(self)@) ==> balanced(final(self)@),
            link_symmetric(old(self)@.txs) ==> link_symmetric(final(self)@.txs),
    {
        let ghost l0 = self@;
        let ti = match self.find_tx(args.id) {
            Some(ti) => ti,
            None => {
                return Err(LedgerError::NotFound);
            },
        };
        proof {
            crate::model::lemma_tx_index_from(l0.txs, args.id as int, 0);
            assert(account_index(l0.accounts, l0.txs[ti as int].account_id) >= 0);
        }
        let old_amount = self.txs[ti].amount;
        let old_account = self.txs[ti].account_id;
        let oai = match self.find_account(old_account) {
            Some(oai) => oai,
            None => {
                proof {
                    assert(false);
                }
                return Err(LedgerError::NotFound);
            },
        };
        let nai = match self.find_account(args.account_id) {
            Some(nai) => nai,
            None => {
                return Err(LedgerError::NotFound);
            },
        };
        let mut via_fb = false;
        let ci_opt: Option<usize> = match self.txs[ti].linked {
            Some(lid) => match self.find_tx(lid) {
                Some(li) => if li != ti {
                    Some(li)
                } else {
                    None
                },
                None => None,
            },
            None => match &args.notes {
                Some(n) => {
                    let notes_copy = n.clone();
                    let found = self.find_fallback(notes_copy.as_str(), args.id);
                    if found.is_some() {
                        via_fb = true;
                    }
                    found
                },
                None => None,
            },
        };
        let ghost ci = update_counterpart_index(l0, ti as int, args@.notes);
        proof {
            self.lemma_update_counterpart_facts(l0, ti as int, args@.notes);
            match ci_opt {
                Some(c) => {
                    assert(ci == c as int);
                    assert(via_fb == update_via_fallback(l0, ti as int, args@.notes));
                },
                None => {
                    assert(ci == -1);
                    assert(!via_fb);
                },
            }
        }
        let mut ds: Vec<(usize, i64)> = Vec::new();
        if args.account_id == old_account {
            match args.amount.checked_sub(old_amount) {
                Some(d) => ds.push((nai, d)),
                None => {
                    return Err(LedgerError::Overflow);
                },
            }
        } else {
            if old_amount == i64::MIN {
                return Err(LedgerError::Overflow);
            }
            ds.push((oai, -old_amount));
            ds.push((nai, args.amount));
        }
        let mut new_ctr_amount: i64 = 0;
        match ci_opt {
            Some(c) => {
                if args.amount == i64::MIN {
                    return Err(LedgerError::Overflow);
                }
                let na = -args.amount;
                let c_amount = self.txs[c].amount;
                proof {
                    assert(account_index(l0.accounts, l0.txs[c as int].account_id) >= 0);
                }
                let cai = match self.find_account(self.txs[c].account_id) {
                    Some(cai) => cai,
                    None => {
                        proof {
                            assert(false);
                        }
                        return Err(LedgerError::NotFound);
                    },
                };
                match na.checked_sub(c_amount) {
                    Some(cd) => ds.push((cai, cd)),
                    None => {
                        return Err(LedgerError::Overflow);
                    },
                }
                new_ctr_amount = na;
            },
            None => {},
        }
        proof {
            crate::model::lemma_account_index_from(l0.accounts, old_account as int, 0);
            crate::model::lemma_account_index_from(l0.accounts, args.account_id as int, 0);
            if ci >= 0 {
                crate::model::lemma_account_index_from(l0.accounts, l0.txs[ci].account_id, 0);
            }
            assert(deltas_view(ds@) =~= update_tx_deltas(l0, ti as int, ci, args@));
        }
        let new_payee = self.accounts[nai].name.clone();
        if !try_apply_deltas(&mut self.accounts, &ds) {
            return Err(LedgerError::Overflow);
        }
        proof {
            crate::model::lemma_apply_deltas_shape(
                l0.accounts,
                update_tx_deltas(l0, ti as int, ci, args@),
            );
        }
        match ci_opt {
            Some(c) => {
                self.txs[c].date = args.date.clone();
                self.txs[c].payee = new_payee;
                self.txs[c].notes = duplicate_opt_string(&args.notes);
                self.txs[c].category = Some("Transfer".to_owned());
                self.txs[c].amount = new_ctr_amount;
                self.txs[c].currency = duplicate_opt_string(&args.currency);
                if via_fb {
                    self.txs[c].linked = Some(args.id);
                }
            },
            None => {},
        }
        match ci_opt {
            Some(c) => {
                if via_fb {
                    let cid = self.txs[c].id;
                    self.txs[ti].linked = Some(cid);
                }
            },
            None => {},
        }
        self.txs[ti].account_id = args.account_id;
        self.txs[ti].date = args.date;
        self.txs[ti].payee = args.payee;
        self.txs[ti].notes = args.notes;
        self.txs[ti].category = args.category;
        self.txs[ti].amount = args.amount;
        self.txs[ti].currency = args.currency;
        let ret = self.txs[ti].duplicate();
        proof {
            let l1 = self@;
            self.lemma_update_counterpart_facts(l0, ti as int, args@.notes);
            let t_new = update_tx_main_row(l0, ti as int, ci, args@);
            let c_new = update_tx_ctr_row(l0, ti as int, ci, nai as int, args@);
            let dsv = update_tx_deltas(l0, ti as int, ci, args@);
            assert(ret@ == t_new);
            assert(l1.accounts =~= apply_deltas(l0.accounts, dsv));
            assert(ret@ =~~= t_new);
            assert(l1.txs[ti as int] =~~= t_new);
            if ci >= 0 {
                assert(l1.txs[ci] =~~= c_new);
                assert(l1.txs =~~= l0.txs.update(ti as int, t_new).update(ci, c_new));
            } else {
                assert(l1.txs =~~= l0.txs.update(ti as int, t_new));
            }
            assert(l1 =~~= update_tx_spec(l0, args@));
            self.lemma_move_deltas_match(l0, ti as int, ci, t_new, c_new);
            assert(Self::update_shape(l0, l1, ti as int, ci, via_fb, t_new, c_new, dsv));
            self.lemma_update_rows_preserves(l0, l1, ti as int, ci, via_fb, t_new, c_new, dsv);
            if args.account_id as int == l0.txs[ti as int].account_id && args.amount as int
                == l0.txs[ti as int].amount && (ci >= 0 ==> l0.txs[ci].amount == -(
            args.amount as int)) {
                assert forall|k: int|
                    0 <= k < l0.accounts.len() implies (#[trigger] l1.accounts[k]).balance
                    == l0.accounts[k].balance by {
                    assert(l1.accounts[k] == apply_deltas(l0.accounts, dsv)[k]);
                    crate::model::lemma_apply_deltas_balance(l0.accounts, dsv, k);
                    assert(delta_total(dsv, k) == balance_change_at(
                        l0,
                        ti as int,
                        ci,
                        t_new,
                        c_new,
                        k,
                    ));
                }
            }
        }
        Ok(ret)
    }

    /// Records an investment trade as two linked rows: the trade's value
    /// on the brokerage account and its cash leg, fee included, on the
    /// cash account, with both balances moved. Any failure leaves the
    /// ledger untouched.
    #[verifier::rlimit(100)]
    #[verifier::spinoff_prover]
    pub fn create_brokerage_transaction(
        &mut self,
        args: CreateBrokerageTransactionArgs,
    ) -> (r: Result<Transaction, LedgerError>)
        requires
            old(self).wf(),
        ensures
            final(self).wf(),
            r is Ok <==> create_brokerage_ok(old(self)@, args@),
            r matches Ok(t) ==> final(self)@ == create_brokerage_spec(old(self)@, args@) && t@
                == trade_tx1(old(self)@, args@),
            ({
                let bai = account_index(old(self)@.accounts, args.brokerage_account_id as int);
                let cai = account_index(old(self)@.accounts, args.cash_account_id as int);
                r matches Err(e) ==> final(self)@ == old(self)@ && (bai == -1 ==> e
                    == LedgerError::NotFound) && (bai >= 0 && cai == -1 ==> e
                    == LedgerError::NotFound) && (bai >= 0 && cai >= 0 && args.shares < 0 ==> e
                    == LedgerError::Validation) && (bai >= 0 && cai >= 0 && args.shares >= 0
                    ==> e == LedgerError::Overflow)
            }),
            balanced(old(self)@) ==> balanced(final(self)@),
            link_symmetric(old(self)@.txs) ==> link_symmetric(final(self)@.txs),
    {
        let ghost l0 = self@;
        let bai = match self.find_account(args.brokerage_account_id) {
            Some(bai) => bai,
            None => {
                return Err(LedgerError::NotFound);
            },
        };
        let cai = match self.find_account(args.cash_account_id) {
            Some(cai) => cai,
            None => {
                return Err(LedgerError::NotFound);
            },
        };
        if args.shares < 0 {
            return Err(LedgerError::Validation);
        }
        if self.next_tx_id >= i64::MAX - 1 {
            return Err(LedgerError::Overflow);
        }
        let total = match args.shares.checked_mul(args.price_per_share) {
            Some(t) => t,
            None => {
                return Err(LedgerError::Overflow);
            },
        };
        let br_amount = if args.is_buy {
            total
        } else {
            match (0i64).checked_sub(total) {
                Some(v) => v,
                None => {
                    return Err(LedgerError::Overflow);
                },
            }
        };
        let cash_amount = if args.is_buy {
            let s = match total.checked_add(args.fee) {
                Some(s) => s,
                None => {
                    return Err(LedgerError::Overflow);
                },
            };
            match (0i64).checked_sub(s) {
                Some(v) => v,
                None => {
                    return Err(LedgerError::Overflow);
                },
            }
        } else {
            match total.checked_sub(args.fee) {
                Some(v) => v,
                None => {
                    return Err(LedgerError::Overflow);
                },
            }
        };
        let mut ds: Vec<(usize, i64)> = Vec::new();
        ds.push((bai, br_amount));
        ds.push((cai, cash_amount));
        proof {
            assert(deltas_view(ds@) =~= trade_deltas(l0, args@));
        }
        let source_name = self.accounts[bai].name.clone();
        if !try_apply_deltas(&mut self.accounts, &ds) {
            return Err(LedgerError::Overflow);
        }
        let id1 = self.next_tx_id;
        let id2 = id1 + 1;
        let shares_signed = if args.is_buy {
            args.shares
        } else {
            -args.shares
        };
        let note1 = make_brokerage_note(args.is_buy, args.shares as u64, args.ticker.as_str());
        let note2 = make_cash_note(args.is_buy, args.shares as u64, args.ticker.as_str());
        let t2 = Transaction {
            id: id2,
            account_id: args.cash_account_id,
            date: args.date.clone(),
            payee: source_name,
            notes: Some(note2),
            category: Some("Transfer".to_owned()),
            amount: cash_amount,
            ticker: None,
            shares: None,
            price_per_share: None,
            fee: None,
            currency: None,
            linked: Some(id1),
        };
        let t1 = Transaction {
            id: id1,
            account_id: args.brokerage_account_id,
            date: args.date,
            payee: if args.is_buy {
                "Buy".to_owned()
            } else {
                "Sell".to_owned()
            },
            notes: Some(note1),
            category: Some("Investment".to_owned()),
            amount: br_amount,
            ticker: Some(args.ticker),
            shares: Some(shares_signed),
            price_per_share: Some(args.price_per_share),
            fee: Some(args.fee),
            currency: None,
            linked: Some(id2),
        };
        let ret = t1.duplicate();
        proof {
            assert(ret@ =~~= trade_tx1(l0, args@));
            assert(t2@ =~~= trade_tx2(l0, args@, bai as int));
        }
        self.txs.push(t1);
        self.txs.push(t2);
        self.next_tx_id = id1 + 2;
        proof {
            let l1 = self@;
            assert(l1.txs =~~= l0.txs.push(trade_tx1(l0, args@)).push(
                trade_tx2(l0, args@, bai as int),
            ));
            assert(l1 =~~= create_brokerage_spec(l0, args@));
            self.lemma_create_brokerage_preserves(l0, l1, args@);
        }
        Ok(ret)
    }

    /// Recording a trade keeps the structural invariant, the balance
    /// invariant and link symmetry.
    #[verifier::rlimit(60)]
    proof fn lemma_create_brokerage_preserves(
        &self,
        l0: LedgerV,
        l1: LedgerV,
        a: CreateBrokerageArgsV,
    )
        requires
            inv(l0),
            create_brokerage_ok(l0, a),
            l1 == create_brokerage_spec(l0, a),
        ensures
            inv(l1),
            balanced(l0) ==> balanced(l1),
            link_symmetric(l0.txs) ==> link_symmetric(l1.txs),
    {
        let bai = account_index(l0.accounts, a.brokerage_account_id);
        let cai = account_index(l0.accounts, a.cash_account_id);
        crate::model::lemma_account_index_from(l0.accounts, a.brokerage_account_id, 0);
        crate::model::lemma_account_index_from(l0.accounts, a.cash_account_id, 0);
        let ds = trade_deltas(l0, a);
        let t1 = trade_tx1(l0, a);
        let t2 = trade_tx2(l0, a, bai);
        crate::model::lemma_apply_deltas_shape(l0.accounts, ds);
        assert(l1.accounts == apply_deltas(l0.accounts, ds));
        assert forall|i: int|
            0 <= i < l1.txs.len() implies account_index(
            l1.accounts,
            (#[trigger] l1.txs[i]).account_id,
        ) >= 0 by {
            crate::model::lemma_account_index_from(l1.accounts, l1.txs[i].account_id, 0);
            if i < l0.txs.len() {
                crate::model::lemma_account_index_from(l0.accounts, l0.txs[i].account_id, 0);
                let w = account_index(l0.accounts, l0.txs[i].account_id);
                assert(l1.accounts[w].id == l1.txs[i].account_id);
            } else if i == l0.txs.len() {
                assert(l1.accounts[bai].id == l1.txs[i].account_id);
            } else {
                assert(l1.accounts[cai].id == l1.txs[i].account_id);
            }
        }
        if balanced(l0) {
            assert forall|k: int| 0 <= k < l1.accounts.len() implies (#[trigger] l1.accounts[k])
                .balance == tx_sum(l1.txs, l1.accounts[k].id) by {
                let id_k = l0.accounts[k].id;
                assert(l1.accounts[k] == apply_deltas(l0.accounts, ds)[k]);
                crate::model::lemma_apply_deltas_balance(l0.accounts, ds, k);
                assert(ds =~= seq![
                    (bai, trade_brokerage_amount(a)),
                    (cai, trade_cash_amount(a)),
                ]);
                crate::model::lemma_delta_total_two(
                    (bai, trade_brokerage_amount(a)),
                    (cai, trade_cash_amount(a)),
                    k,
                );
                crate::model::lemma_tx_sum_push(l0.txs, t1, id_k);
                crate::model::lemma_tx_sum_push(l0.txs.push(t1), t2, id_k);
                assert(k == bai <==> id_k == a.brokerage_account_id);
                assert(k == cai <==> id_k == a.cash_account_id);
            }
        }
        if link_symmetric(l0.txs) {
            assert forall|i: int|
                0 <= i < l1.txs.len() && (#[trigger] l1.txs[i]).linked is Some implies exists|
                j: int,
            |
                0 <= j < l1.txs.len() && (#[trigger] l1.txs[j]).id == l1.txs[i].linked->0
                    && l1.txs[j].linked == Some(l1.txs[i].id) by {
                if i < l0.txs.len() {
                    let j = choose|j: int|
                        0 <= j < l0.txs.len() && (#[trigger] l0.txs[j]).id == l0.txs[i].linked->0
                            && l0.txs[j].linked == Some(l0.txs[i].id);
                    assert(l1.txs[j].id == l1.txs[i].linked->0 && l1.txs[j].linked == Some(
                        l1.txs[i].id,
                    ));
                } else if i == l0.txs.len() {
                    let j = l0.txs.len() + 1 as int;
                    assert(l1.txs[j].id == l1.txs[i].linked->0 && l1.txs[j].linked == Some(
                        l1.txs[i].id,
                    ));
                } else {
                    let j = l0.txs.len() as int;
                    assert(l1.txs[j].id == l1.txs[i].linked->0 && l1.txs[j].linked == Some(
                        l1.txs[i].id,
                    ));
                }
            }
        }
    }

    /// Updates an investment trade: the trade fields and both amounts are
    /// recomputed, the row may move to another brokerage account, and the
    /// linked cash row, or one found by the notes-based fallback with the
    /// old notes, is rewritten and its balance adjusted. Any failure
    /// leaves the ledger untouched.
    #[verifier::rlimit(100)]
    #[verifier::spinoff_prover]
    pub fn update_brokerage_transaction(
        &mut self,
        args: UpdateBrokerageTransactionArgs,
    ) -> (r: Result<Transaction, LedgerError>)
        requires
            old(self).wf(),
        ensures
            final(self).wf(),
            r is Ok <==> update_brokerage_ok(old(self)@, args@),
            ({
                let l0 = old(self)@;
                let ti = tx_index(l0.txs, args.id as int);
                let bai = account_index(l0.accounts, args.brokerage_account_id as int);
                &&& (r matches Ok(t) ==> final(self)@ == update_brokerage_spec(l0, args@) && t@
                    == update_trade_main_row(
                    l0,
                    ti,
                    update_counterpart_index(l0, ti, l0.txs[ti].notes),
                    args@,
                ))
                &&& (r matches Err(e) ==> final(self)@ == l0 && (ti == -1 ==> e
                    == LedgerError::NotFound) && (ti >= 0 && bai == -1 ==> e
                    == LedgerError::NotFound) && (ti >= 0 && bai >= 0 && args.shares < 0 ==> e
                    == LedgerError::Validation) && (ti >= 0 && bai >= 0 && args.shares >= 0
                    ==> e == LedgerError::Overflow))
            }),
            balanced(old(self)@) ==> balanced(final(self)@),
            link_symmetric(old(self)@.txs) ==> link_symmetric(final(self)@.txs),
    {
        let ghost l0 = self@;
        let ti = match self.find_tx(args.id) {
            Some(ti) => ti,
            None => {
                return Err(LedgerError::NotFound);
            },
        };
        proof {
            crate::model::lemma_tx_index_from(l0.txs, args.id as int, 0);
            assert(account_index(l0.accounts, l0.txs[ti as int].account_id) >= 0);
        }
        let old_amount = self.txs[ti].amount;
        let old_account = self.txs[ti].account_id;
        let oai = match self.find_account(old_account) {
            Some(oai) => oai,
            None => {
                proof {
                    assert(false);
                }
                return Err(LedgerError::NotFound);
            },
        };
        let bai = match self.find_account(args.brokerage_account_id) {
            Some(bai) => bai,
            None => {
                return Err(LedgerError::NotFound);
            },
        };
        if args.shares < 0 {
            return Err(LedgerError::Validation);
        }
        let mut via_fb = false;
        let ci_opt: Option<usize> = match self.txs[ti].linked {
            Some(lid) => match self.find_tx(lid) {
                Some(li) => if li != ti {
                    Some(li)
                } else {
                    None
                },
                None => None,
            },
            None => match &self.txs[ti].notes {
                Some(n) => {
                    let notes_copy = n.clone();
                    let found = self.find_fallback(notes_copy.as_str(), args.id);
                    if found.is_some() {
                        via_fb = true;
                    }
                    found
                },
                None => None,
            },
        };
        let ghost ci = update_counterpart_index(l0, ti as int, l0.txs[ti as int].notes);
        proof {
            self.lemma_update_counterpart_facts(l0, ti as int, l0.txs[ti as int].notes);
            match ci_opt {
                Some(c) => {
                    assert(ci == c as int);
                    assert(via_fb == update_via_fallback(l0, ti as int, l0.txs[ti as int].notes));
                },
                None => {
                    assert(ci == -1);
                    assert(!via_fb);
                },
            }
        }
        let total = match args.shares.checked_mul(args.price_per_share) {
            Some(t) => t,
            None => {
                return Err(LedgerError::Overflow);
            },
        };
        let br_amount = if args.is_buy {
            total
        } else {
            match (0i64).checked_sub(total) {
                Some(v) => v,
                None => {
                    return Err(LedgerError::Overflow);
                },
            }
        };
        let mut ds: Vec<(usize, i64)> = Vec::new();
        if args.brokerage_account_id == old_account {
            match br_amount.checked_sub(old_amount) {
                Some(d) => ds.push((bai, d)),
                None => {
                    return Err(LedgerError::Overflow);
                },
            }
        } else {
            if old_amount == i64::MIN {
                return Err(LedgerError::Overflow);
            }
            ds.push((oai, -old_amount));
            ds.push((bai, br_amount));
        }
        let mut new_cash_amount: i64 = 0;
        match ci_opt {
            Some(c) => {
                let cash = if args.is_buy {
                    let s = match total.checked_add(args.fee) {
                        Some(s) => s,
                        None => {
                            return Err(LedgerError::Overflow);
                        },
                    };
                    match (0i64).checked_sub(s) {
                        Some(v) => v,
                        None => {
                            return Err(LedgerError::Overflow);
                        },
                    }
                } else {
                    match total.checked_sub(args.fee) {
                        Some(v) => v,
                        None => {
                            return Err(LedgerError::Overflow);
                        },
                    }
                };
                let c_amount = self.txs[c].amount;
                proof {
                    assert(account_index(l0.accounts, l0.txs[c as int].account_id) >= 0);
                }
                let cai = match self.find_account(self.txs[c].account_id) {
                    Some(cai) => cai,
                    None => {
                        proof {
                            assert(false);
                        }
                        return Err(LedgerError::NotFound);
                    },
                };
                match cash.checked_sub(c_amount) {
                    Some(cd) => ds.push((cai, cd)),
                    None => {
                        return Err(LedgerError::Overflow);
                    },
                }
                new_cash_amount = cash;
            },
            None => {},
        }
        let ghost t_new = update_trade_main_row(l0, ti as int, ci, args@);
        let ghost c_new = update_trade_ctr_row(l0, ti as int, ci, args@);
        let ghost dsv = move_deltas(l0, ti as int, ci, t_new, c_new);
        proof {
            crate::model::lemma_account_index_from(l0.accounts, old_account as int, 0);
            crate::model::lemma_account_index_from(
                l0.accounts,
                args.brokerage_account_id as int,
                0,
            );
            if ci >= 0 {
                crate::model::lemma_account_index_from(l0.accounts, l0.txs[ci].account_id, 0);
            }
            assert(deltas_view(ds@) =~= dsv);
        }
        if !try_apply_deltas(&mut self.accounts, &ds) {
            return Err(LedgerError::Overflow);
        }
        proof {
            crate::model::lemma_apply_deltas_shape(l0.accounts, dsv);
        }
        let new_note: String = match &args.notes {
            Some(n) => n.clone(),
            None => make_brokerage_note(args.is_buy, args.shares as u64, args.ticker.as_str()),
        };
        let shares_signed = if args.is_buy {
            args.shares
        } else {
            -args.shares
        };
        match ci_opt {
            Some(c) => {
                self.txs[c].amount = new_cash_amount;
                self.txs[c].notes = Some(new_note.clone());
                if via_fb {
                    self.txs[c].linked = Some(args.id);
                }
            },
            None => {},
        }
        match ci_opt {
            Some(c) => {
                if via_fb {
                    let cid = self.txs[c].id;
                    self.txs[ti].linked = Some(cid);
                }
            },
            None => {},
        }
        self.txs[ti].account_id = args.brokerage_account_id;
        self.txs[ti].date = args.date;
        self.txs[ti].payee = if args.is_buy {
            "Buy".to_owned()
        } else {
            "Sell".to_owned()
        };
        self.txs[ti].notes = Some(new_note);
        self.txs[ti].category = Some("Investment".to_owned());
        self.txs[ti].amount = br_amount;
        self.txs[ti].ticker = Some(args.ticker);
        self.txs[ti].shares = Some(shares_signed);
        self.txs[ti].price_per_share = Some(args.price_per_share);
        self.txs[ti].fee = Some(args.fee);
        let ret = self.txs[ti].duplicate();
        proof {
            let l1 = self@;
            self.lemma_update_counterpart_facts(l0, ti as int, l0.txs[ti as int].notes);
            assert(l1.accounts =~= apply_deltas(l0.accounts, dsv));
            assert(ret@ =~~= t_new);
            assert(l1.txs[ti as int] =~~= t_new);
            if ci >= 0 {
                assert(l1.txs[ci] =~~= c_new);
                assert(l1.txs =~~= l0.txs.update(ti as int, t_new).update(ci, c_new));
            } else {
                assert(l1.txs =~~= l0.txs.update(ti as int, t_new));
            }
            assert(l1 =~~= update_brokerage_spec(l0, args@));
            self.lemma_move_deltas_match(l0, ti as int, ci, t_new, c_new);
            assert(Self::update_shape(l0, l1, ti as int, ci, via_fb, t_new, c_new, dsv));
            self.lemma_update_rows_preserves(l0, l1, ti as int, ci, via_fb, t_new, c_new, dsv);
        }
        Ok(ret)
    }

    /// All accounts, in creation order, as stored. Converted balances
    /// come from `calculate_account_balances` instead.
    pub fn get_accounts(&self) -> (r: Vec<Account>)
        ensures
            seq_view(r@) == self@.accounts,
    {
        let n = self.accounts.len();
        let mut out: Vec<Account> = Vec::new();
        let mut i: usize = 0;
        while i < n
            invariant
                n == self.accounts@.len(),
                i <= n,
                i == out@.len(),
                self@.accounts == seq_view(self.accounts@),
                forall|j: int| 0 <= j < i ==> seq_view(out@)[j] == self@.accounts[j],
            decreases n - i,
        {
            out.push(self.accounts[i].duplicate());
            i += 1;
        }
        proof {
            assert(seq_view(out@) =~= self@.accounts);
        }
        out
    }

    /// The transactions owned by one account, ordered by date
    /// descending, ties by id descending. An account without rows, such
    /// as a deleted one, yields an empty listing.
    pub fn get_transactions(&self, account_id: i64) -> (r: Vec<Transaction>)
        ensures
            txs_sorted(seq_view(r@)),
            seq_view(r@).to_multiset() == owned_txs(self@.txs, account_id as int).to_multiset(),
            (forall|p: int|
                0 <= p < self@.txs.len() ==> (#[trigger] self@.txs[p]).account_id
                    != account_id as int) ==> r@.len() == 0,
    {
        broadcast use vstd::seq_lib::group_to_multiset_ensures;

        let n = self.txs.len();
        let mut out: Vec<Transaction> = Vec::new();
        let mut i: usize = 0;
        proof {
            assert(self@.txs.take(0) =~= Seq::<TxV>::empty());
        }
        while i < n
            invariant
                n == self.txs@.len(),
                i <= n,
                self@.txs == seq_view(self.txs@),
                txs_sorted(seq_view(out@)),
                seq_view(out@).to_multiset() == owned_txs(
                    self@.txs.take(i as int),
                    account_id as int,
                ).to_multiset(),
            decreases n - i,
        {
            proof {
                assert(self@.txs.take(i + 1).drop_last() =~= self@.txs.take(i as int));
                assert(self@.txs.take(i + 1).last() == self@.txs[i as int]);
            }
            if self.txs[i].account_id == account_id {
                let ghost before = seq_view(out@);
                let ghost txv = self@.txs[i as int];
                insert_tx_sorted(&mut out, self.txs[i].duplicate());
                proof {
                    assert(owned_txs(self@.txs.take(i + 1), account_id as int) =~= owned_txs(
                        self@.txs.take(i as int),
                        account_id as int,
                    ).push(txv));
                    owned_txs(self@.txs.take(i as int), account_id as int).to_multiset_ensures();
                }
            }
            i += 1;
        }
        proof {
            assert(self@.txs.take(n as int) =~= self@.txs);
            if forall|p: int|
                0 <= p < self@.txs.len() ==> (#[trigger] self@.txs[p]).account_id
                    != account_id as int {
                lemma_owned_txs_absent(self@.txs, account_id as int);
                assert(seq_view(out@).to_multiset().len() == 0);
            }
        }
        out
    }

    /// All transactions, ordered by date descending, ties by id
    /// descending.
    pub fn get_all_transactions(&self) -> (r: Vec<Transaction>)
        ensures
            txs_sorted(seq_view(r@)),
            seq_view(r@).to_multiset() == self@.txs.to_multiset(),
    {
        broadcast use vstd::seq_lib::group_to_multiset_ensures;

        let n = self.txs.len();
        let mut out: Vec<Transaction> = Vec::new();
        let mut i: usize = 0;
        proof {
            assert(self@.txs.take(0) =~= Seq::<TxV>::empty());
        }
        while i < n
            invariant
                n == self.txs@.len(),
                i <= n,
                self@.txs == seq_view(self.txs@),
                txs_sorted(seq_view(out@)),
                seq_view(out@).to_multiset() == self@.txs.take(i as int).to_multiset(),
            decreases n - i,
        {
            proof {
                assert(self@.txs.take(i + 1) =~= self@.txs.take(i as int).push(
                    self@.txs[i as int],
                ));
                self@.txs.take(i as int).to_multiset_ensures();
            }
            insert_tx_sorted(&mut out, self.txs[i].duplicate());
            i += 1;
        }
        proof {
            assert(self@.txs.take(n as int) =~= self@.txs);
        }
        out
    }

    /// The distinct payees over all transactions, ascending.
    pub fn get_payees(&self) -> (r: Vec<String>)
        ensures
            strs_sorted(seq_view(r@)),
            strs_distinct(seq_view(r@)),
            forall|q: int|
                0 <= q < r@.len() ==> has_payee(self@.txs, #[trigger] seq_view(r@)[q]),
            forall|p: int|
                0 <= p < self@.txs.len() ==> seq_view(r@).contains(
                    (#[trigger] self@.txs[p]).payee,
                ),
    {
        let n = self.txs.len();
        let mut out: Vec<String> = Vec::new();
        let mut i: usize = 0;
        while i < n
            invariant
                n == self.txs@.len(),
                i <= n,
                self@.txs == seq_view(self.txs@),
                strs_sorted(seq_view(out@)),
                strs_distinct(seq_view(out@)),
                forall|q: int|
                    0 <= q < out@.len() ==> has_payee(self@.txs, #[trigger] seq_view(out@)[q]),
                forall|p: int|
                    0 <= p < i ==> seq_view(out@).contains((#[trigger] self@.txs[p]).payee),
            decreases n - i,
        {
            let payee = self.txs[i].payee.clone();
            let mut present = false;
            let m = out.len();
            let mut q: usize = 0;
            while q < m && !present
                invariant
                    m == out@.len(),
                    q <= m,
                    payee@ == self@.txs[i as int].payee,
                    i < self@.txs.len(),
                    present ==> seq_view(out@).contains(payee@),
                    !present ==> forall|j: int| 0 <= j < q ==> seq_view(out@)[j] != payee@,
                decreases m - q,
            {
                if str_eq(out[q].as_str(), payee.as_str()) {
                    present = true;
                    proof {
                        assert(seq_view(out@)[q as int] == payee@);
                    }
                }
                q += 1;
            }
            if !present {
                proof {
                    assert(!seq_view(out@).contains(payee@));
                }
                let ghost before = seq_view(out@);
                insert_str_sorted(&mut out, payee);
                proof {
                    assert(has_payee(self@.txs, self@.txs[i as int].payee));
                    assert forall|q2: int| 0 <= q2 < out@.len() implies has_payee(
                        self@.txs,
                        #[trigger] seq_view(out@)[q2],
                    ) by {
                        let sq = seq_view(out@)[q2];
                        assert(seq_view(out@).contains(sq));
                        if sq != self@.txs[i as int].payee {
                            assert(before.contains(sq));
                            let j = choose|j: int| 0 <= j < before.len() && before[j] == sq;
                            assert(has_payee(self@.txs, before[j]));
                        }
                    }
                }
            }
            i += 1;
        }
        out
    }

    /// The distinct categories over all transactions, ascending, leaving
    /// out the reserved `Transfer` marker and rows without a category.
    pub fn get_categories(&self) -> (r: Vec<String>)
        ensures
            strs_sorted(seq_view(r@)),
            strs_distinct(seq_view(r@)),
            forall|q: int|
                0 <= q < r@.len() ==> has_category(self@.txs, #[trigger] seq_view(r@)[q])
                    && seq_view(r@)[q] != "Transfer"@,
            forall|p: int|
                0 <= p < self@.txs.len() ==> ((#[trigger] self@.txs[p]).category is Some
                    && self@.txs[p].category->0 != "Transfer"@ ==> seq_view(r@).contains(
                    self@.txs[p].category->0,
                )),
    {
        let n = self.txs.len();
        let mut out: Vec<String> = Vec::new();
        let mut i: usize = 0;
        while i < n
            invariant
                n == self.txs@.len(),
                i <= n,
                self@.txs == seq_view(self.txs@),
                strs_sorted(seq_view(out@)),
                strs_distinct(seq_view(out@)),
                forall|q: int|
                    0 <= q < out@.len() ==> has_category(self@.txs, #[trigger] seq_view(out@)[q])
                        && seq_view(out@)[q] != "Transfer"@,
                forall|p: int|
                    0 <= p < i ==> ((#[trigger] self@.txs[p]).category is Some
                        && self@.txs[p].category->0 != "Transfer"@ ==> seq_view(out@).contains(
                        self@.txs[p].category->0,
                    )),
            decreases n - i,
        {
            let cat: Option<String> = match &self.txs[i].category {
                Some(c) => if str_eq(c.as_str(), "Transfer") {
                    None
                } else {
                    Some(c.clone())
                },
                None => None,
            };
            match cat {
                Some(c) => {
                    let mut present = false;
                    let m = out.len();
                    let mut q: usize = 0;
                    while q < m && !present
                        invariant
                            m == out@.len(),
                            q <= m,
                            i < self@.txs.len(),
                            self@.txs[i as int].category == Some(c@),
                            present ==> seq_view(out@).contains(c@),
                            !present ==> forall|j: int| 0 <= j < q ==> seq_view(out@)[j] != c@,
                        decreases m - q,
                    {
                        if str_eq(out[q].as_str(), c.as_str()) {
                            present = true;
                            proof {
                                assert(seq_view(out@)[q as int] == c@);
                            }
                        }
                        q += 1;
                    }
                    if !present {
                        proof {
                            assert(!seq_view(out@).contains(c@));
                            assert(has_category(self@.txs, self@.txs[i as int].category->0));
                        }
                        let ghost before = seq_view(out@);
                        let ghost cv = c@;
                        insert_str_sorted(&mut out, c);
                        proof {
                            assert forall|q2: int| 0 <= q2 < out@.len() implies has_category(
                                self@.txs,
                                #[trigger] seq_view(out@)[q2],
                            ) && seq_view(out@)[q2] != "Transfer"@ by {
                                let sq = seq_view(out@)[q2];
                                assert(seq_view(out@).contains(sq));
                                if sq != cv {
                                    assert(before.contains(sq));
                                    let j = choose|j: int|
                                        0 <= j < before.len() && before[j] == sq;
                                    assert(has_category(self@.txs, before[j]));
                                }
                            }
                        }
                    }
                },
                None => {},
            }
            i += 1;
        }
        out
    }

    /// Adds a categorization rule and returns its id.
    pub fn create_rule(
        &mut self,
        priority: i64,
        match_field: String,
        match_pattern: String,
        action_field: String,
        action_value: String,
    ) -> (r: Result<i64, LedgerError>)
        requires
            old(self).wf(),
        ensures
            final(self).wf(),
            r is Ok <==> old(self)@.next_rule_id < i64::MAX,
            r matches Ok(id) ==> id as int == old(self)@.next_rule_id && final(self)@
                == (LedgerV {
                rules: old(self)@.rules.push(
                    crate::data::RuleV {
                        id: old(self)@.next_rule_id,
                        priority: priority as int,
                        match_field: match_field@,
                        match_pattern: match_pattern@,
                        action_field: action_field@,
                        action_value: action_value@,
                    },
                ),
                next_rule_id: old(self)@.next_rule_id + 1,
                ..old(self)@
            }),
            r matches Err(e) ==> final(self)@ == old(self)@ && e == LedgerError::Overflow,
            balanced(old(self)@) ==> balanced(final(self)@),
            link_symmetric(old(self)@.txs) ==> link_symmetric(final(self)@.txs),
    {
        let ghost l0 = self@;
        if self.next_rule_id == i64::MAX {
            return Err(LedgerError::Overflow);
        }
        let id = self.next_rule_id;
        let rule = Rule { id, priority, match_field, match_pattern, action_field, action_value };
        self.rules.push(rule);
        self.next_rule_id = id + 1;
        proof {
            assert(self@.rules =~= l0.rules.push(
                crate::data::RuleV {
                    id: l0.next_rule_id,
                    priority: priority as int,
                    match_field: match_field@,
                    match_pattern: match_pattern@,
                    action_field: action_field@,
                    action_value: action_value@,
                },
            ));
            assert(self@ =~~= (LedgerV {
                rules: l0.rules.push(
                    crate::data::RuleV {
                        id: l0.next_rule_id,
                        priority: priority as int,
                        match_field: match_field@,
                        match_pattern: match_pattern@,
                        action_field: action_field@,
                        action_value: action_value@,
                    },
                ),
                next_rule_id: l0.next_rule_id + 1,
                ..l0
            }));
        }
        Ok(id)
    }

    /// The rules, ordered by priority descending, ties by id ascending.
    pub fn get_rules(&self) -> (r: Vec<Rule>)
        ensures
            rules_sorted(seq_view(r@)),
            seq_view(r@).to_multiset() == self@.rules.to_multiset(),
    {
        let n = self.rules.len();
        let mut out: Vec<Rule> = Vec::new();
        let mut i: usize = 0;
        proof {
            assert(seq_view(out@) =~= self@.rules.take(0));
        }
        while i < n
            invariant
                n == self.rules@.len(),
                i <= n,
                self@.rules == seq_view(self.rules@),
                rules_sorted(seq_view(out@)),
                seq_view(out@).to_multiset() == self@.rules.take(i as int).to_multiset(),
            decreases n - i,
        {
            proof {
                assert(self@.rules.take(i + 1) =~= self@.rules.take(i as int).push(
                    self@.rules[i as int],
                ));
                self@.rules.take(i as int).to_multiset_ensures();
            }
            insert_rule_sorted(&mut out, self.rules[i].duplicate());
            i += 1;
        }
        proof {
            assert(self@.rules.take(n as int) =~= self@.rules);
        }
        out
    }

    /// Overwrites every field of a rule.
    pub fn update_rule(
        &mut self,
        id: i64,
        priority: i64,
        match_field: String,
        match_pattern: String,
        action_field: String,
        action_value: String,
    ) -> (r: Result<(), LedgerError>)
        requires
            old(self).wf(),
        ensures
            final(self).wf(),
            r is Ok <==> rule_index(old(self)@.rules, id as int) >= 0,
            r is Ok ==> final(self)@ == (LedgerV {
                rules: old(self)@.rules.update(
                    rule_index(old(self)@.rules, id as int),
                    crate::data::RuleV {
                        id: id as int,
                        priority: priority as int,
                        match_field: match_field@,
                        match_pattern: match_pattern@,
                        action_field: action_field@,
                        action_value: action_value@,
                    },
                ),
                ..old(self)@
            }),
            r matches Err(e) ==> final(self)@ == old(self)@ && e == LedgerError::NotFound,
            balanced(old(self)@) ==> balanced(final(self)@),
            link_symmetric(old(self)@.txs) ==> link_symmetric(final(self)@.txs),
    {
        let ghost l0 = self@;
        let i = match self.find_rule(id) {
            Some(i) => i,
            None => {
                return Err(LedgerError::NotFound);
            },
        };
        self.rules[i].priority = priority;
        self.rules[i].match_field = match_field;
        self.rules[i].match_pattern = match_pattern;
        self.rules[i].action_field = action_field;
        self.rules[i].action_value = action_value;
        proof {
            assert(self@.rules =~= l0.rules.update(
                i as int,
                crate::data::RuleV {
                    id: id as int,
                    priority: priority as int,
                    match_field: match_field@,
                    match_pattern: match_pattern@,
                    action_field: action_field@,
                    action_value: action_value@,
                },
            ));
            assert(self@ =~~= (LedgerV {
                rules: l0.rules.update(
                    rule_index(l0.rules, id as int),
                    crate::data::RuleV {
                        id: id as int,
                        priority: priority as int,
                        match_field: match_field@,
                        match_pattern: match_pattern@,
                        action_field: action_field@,
                        action_value: action_value@,
                    },
                ),
                ..l0
            }));
        }
        Ok(())
    }

    /// Deletes a rule.
    pub fn delete_rule(&mut self, id: i64) -> (r: Result<(), LedgerError>)
        requires
            old(self).wf(),
        ensures
            final(self).wf(),
            r is Ok <==> rule_index(old(self)@.rules, id as int) >= 0,
            r is Ok ==> final(self)@ == (LedgerV {
                rules: old(self)@.rules.remove(rule_index(old(self)@.rules, id as int)),
                ..old(self)@
            }),
            r matches Err(e) ==> final(self)@ == old(self)@ && e == LedgerError::NotFound,
            balanced(old(self)@) ==> balanced(final(self)@),
            link_symmetric(old(self)@.txs) ==> link_symmetric(final(self)@.txs),
    {
        let ghost l0 = self@;
        let i = match self.find_rule(id) {
            Some(i) => i,
            None => {
                return Err(LedgerError::NotFound);
            },
        };
        self.rules.remove(i);
        proof {
            assert(self@.rules =~= l0.rules.remove(i as int));
            assert(self@ =~~= (LedgerV {
                rules: l0.rules.remove(rule_index(l0.rules, id as int)),
                ..l0
            }));
        }
        Ok(())
    }

    /// Reorders the rules: position by position, the listed ids get
    /// priorities from the list's length down to one, so `get_rules`
    /// returns them in the given order. Ids that match no rule are
    /// skipped.
    pub fn update_rules_order(&mut self, ids: Vec<i64>)
        requires
            old(self).wf(),
            ids@.len() <= i64::MAX,
        ensures
            final(self).wf(),
            final(self)@ == (LedgerV {
                rules: reorder_rules(
                    old(self)@.rules,
                    Seq::new(ids@.len(), |p: int| ids@[p] as int),
                    ids@.len() as int,
                ),
                ..old(self)@
            }),
            balanced(old(self)@) ==> balanced(final(self)@),
            link_symmetric(old(self)@.txs) ==> link_symmetric(final(self)@.txs),
    {
        let ghost l0 = self@;
        let ghost idsv = Seq::new(ids@.len(), |p: int| ids@[p] as int);
        let total = ids.len();
        let mut p: usize = 0;
        while p < total
            invariant
                total == ids@.len(),
                total <= i64::MAX,
                p <= total,
                idsv == Seq::new(ids@.len(), |q: int| ids@[q] as int),
                inv(l0),
                self.rates_wf(),
                self@.rules == seq_view(self.rules@),
                self@ == (LedgerV { rules: reorder_rules(l0.rules, idsv, p as int), ..l0 }),
            decreases total - p,
        {
            let ghost before = self@.rules;
            proof {
                lemma_reorder_rules_shape(l0.rules, idsv, p as int);
            }
            let id = ids[p];
            let new_priority = (total - p) as i64;
            match self.find_rule(id) {
                Some(i) => {
                    self.rules[i].priority = new_priority;
                    proof {
                        assert(self@.rules =~= before.update(
                            i as int,
                            crate::data::RuleV {
                                priority: new_priority as int,
                                ..before[i as int]
                            },
                        ));
                    }
                },
                None => {},
            }
            p += 1;
            proof {
                assert(self@.rules =~~= reorder_rules(l0.rules, idsv, p as int));
                assert(self@ =~~= (LedgerV {
                    rules: reorder_rules(l0.rules, idsv, p as int),
                    ..l0
                }));
                lemma_reorder_rules_shape(l0.rules, idsv, p as int);
                assert(inv(self@));
            }
        }
        proof {
            lemma_reorder_rules_shape(l0.rules, idsv, total as int);
            assert(inv(self@));
        }
    }

    /// Builds a ledger from loaded rows, validating them first:
    /// positive unique ids, unique account names up to ASCII case, and
    /// every transaction owned by a present account. The id counters are
    /// set past the largest loaded ids. Balances are taken as stored.
    pub fn from_rows(
        accounts: Vec<Account>,
        txs: Vec<Transaction>,
        rules: Vec<Rule>,
    ) -> (r: Result<Ledger, LedgerError>)
        ensures
            r is Ok <==> rows_ok(seq_view(accounts@), seq_view(txs@), seq_view(rules@)),
            r matches Ok(l) ==> l.wf() && l@.accounts == seq_view(accounts@) && l@.txs == seq_view(
                txs@,
            ) && l@.rules == seq_view(rules@) && l@.custom == Map::<Seq<char>, Rate>::empty(),
            r matches Err(e) ==> e == LedgerError::Validation,
    {
        let ghost av = seq_view(accounts@);
        let ghost tv = seq_view(txs@);
        let ghost rv = seq_view(rules@);
        let mut next_account_id: i64 = 1;
        let na = accounts.len();
        let mut i: usize = 0;
        while i < na
            invariant
                na == accounts@.len(),
                i <= na,
                av == seq_view(accounts@),
                1 <= next_account_id,
                forall|p: int| 0 <= p < i ==> 1 <= (#[trigger] av[p]).id < i64::MAX,
                forall|p: int| 0 <= p < i ==> (#[trigger] av[p]).id < next_account_id,
                forall|p: int, q: int| 0 <= p < q < i ==> av[p].id != av[q].id,
                forall|p: int, q: int|
                    0 <= p < q < i ==> !eq_ignore_ascii_case(av[p].name, av[q].name),
            decreases na - i,
        {
            let id = accounts[i].id;
            if id < 1 || id == i64::MAX {
                return Err(LedgerError::Validation);
            }
            let mut j: usize = 0;
            while j < i
                invariant
                    na == accounts@.len(),
                    i < na,
                    j <= i,
                    av == seq_view(accounts@),
                    id == av[i as int].id,
                    forall|q: int| 0 <= q < j ==> av[q].id != id,
                    forall|q: int|
                        0 <= q < j ==> !eq_ignore_ascii_case(
                            (#[trigger] av[q]).name,
                            av[i as int].name,
                        ),
                decreases i - j,
            {
                if accounts[j].id == id {
                    proof {
                        assert(av[j as int].id == av[i as int].id);
                        assert(!rows_ok(av, tv, rv));
                    }
                    return Err(LedgerError::Validation);
                }
                if str_eq_ignore_ascii_case(
                    accounts[j].name.as_str(),
                    accounts[i].name.as_str(),
                ) {
                    proof {
                        assert(eq_ignore_ascii_case(av[j as int].name, av[i as int].name));
                        assert(!rows_ok(av, tv, rv));
                    }
                    return Err(LedgerError::Validation);
                }
                j += 1;
            }
            if id >= next_account_id {
                next_account_id = id + 1;
            }
            i += 1;
        }
        let mut next_tx_id: i64 = 1;
        let nt = txs.len();
        let mut i: usize = 0;
        while i < nt
            invariant
                nt == txs@.len(),
                i <= nt,
                tv == seq_view(txs@),
                av == seq_view(accounts@),
                1 <= next_tx_id,
                forall|p: int| 0 <= p < i ==> 1 <= (#[trigger] tv[p]).id < i64::MAX,
                forall|p: int| 0 <= p < i ==> (#[trigger] tv[p]).id < next_tx_id,
                forall|p: int, q: int| 0 <= p < q < i ==> tv[p].id != tv[q].id,
                forall|p: int|
                    0 <= p < i ==> account_index(av, (#[trigger] tv[p]).account_id) >= 0,
            decreases nt - i,
        {
            let id = txs[i].id;
            if id < 1 || id == i64::MAX {
                return Err(LedgerError::Validation);
            }
            let mut j: usize = 0;
            while j < i
                invariant
                    nt == txs@.len(),
                    i < nt,
                    j <= i,
                    tv == seq_view(txs@),
                    id == tv[i as int].id,
                    forall|q: int| 0 <= q < j ==> tv[q].id != id,
                decreases i - j,
            {
                if txs[j].id == id {
                    proof {
                        assert(tv[j as int].id == tv[i as int].id);
                        assert(!rows_ok(av, tv, rv));
                    }
                    return Err(LedgerError::Validation);
                }
                j += 1;
            }
            if vec_account_index(&accounts, txs[i].account_id).is_none() {
                proof {
                    assert(account_index(av, tv[i as int].account_id) == -1);
                    assert(!rows_ok(av, tv, rv));
                }
                return Err(LedgerError::Validation);
            }
            if id >= next_tx_id {
                next_tx_id = id + 1;
            }
            i += 1;
        }
        let mut next_rule_id: i64 = 1;
        let nr = rules.len();
        let mut i: usize = 0;
        while i < nr
            invariant
                nr == rules@.len(),
                i <= nr,
                rv == seq_view(rules@),
                1 <= next_rule_id,
                forall|p: int| 0 <= p < i ==> 1 <= (#[trigger] rv[p]).id < i64::MAX,
                forall|p: int| 0 <= p < i ==> (#[trigger] rv[p]).id < next_rule_id,
                forall|p: int, q: int| 0 <= p < q < i ==> rv[p].id != rv[q].id,
            decreases nr - i,
        {
            let id = rules[i].id;
            if id < 1 || id == i64::MAX {
                proof {
                    assert(!(1 <= rv[i as int].id < i64::MAX));
                    assert(!rows_ok(av, tv, rv));
                }
                return Err(LedgerError::Validation);
            }
            let mut j: usize = 0;
            while j < i
                invariant
                    nr == rules@.len(),
                    i < nr,
                    j <= i,
                    rv == seq_view(rules@),
                    id == rv[i as int].id,
                    forall|q: int| 0 <= q < j ==> rv[q].id != id,
                decreases i - j,
            {
                if rules[j].id == id {
                    proof {
                        assert(rv[j as int].id == rv[i as int].id);
                        assert(!rows_ok(av, tv, rv));
                    }
                    return Err(LedgerError::Validation);
                }
                j += 1;
            }
            if id >= next_rule_id {
                next_rule_id = id + 1;
            }
            i += 1;
        }
        let l = Ledger {
            accounts,
            txs,
            rules,
            custom_rates: RateMap::new(),
            next_account_id,
            next_tx_id,
            next_rule_id,
        };
        Ok(l)
    }

    /// The facts `create_account` leaves behind: well-formedness, the
    /// balance invariant and link symmetry all carry over to the new
    /// state.
    proof fn lemma_create_account_preserves(
        &self,
        l0: LedgerV,
        l1: LedgerV,
        name: Seq<char>,
        balance: int,
        kind: Seq<char>,
        currency: Option<Seq<char>>,
        date: Seq<char>,
    )
        requires
            inv(l0),
            !name_taken(l0.accounts, name, 0),
            l0.next_account_id < i64::MAX,
            balance != 0 ==> l0.next_tx_id < i64::MAX,
            i64::MIN <= balance <= i64::MAX,
            l1 == create_account_spec(l0, name, balance, kind, currency, date),
        ensures
            inv(l1),
            balanced(l0) ==> balanced(l1),
            link_symmetric(l0.txs) ==> link_symmetric(l1.txs),
    {
        let nid = l0.next_account_id;
        let av = created_account(l0, name, balance, kind, currency);
        assert forall|i: int| 0 <= i < l0.txs.len() implies (#[trigger] l0.txs[i]).account_id
            != nid by {
            crate::model::lemma_account_index_from(l0.accounts, l0.txs[i].account_id, 0);
        }
        assert forall|i: int|
            0 <= i < l1.txs.len() implies account_index(
            l1.accounts,
            (#[trigger] l1.txs[i]).account_id,
        ) >= 0 by {
            crate::model::lemma_account_index_from(l1.accounts, l1.txs[i].account_id, 0);
            if i < l0.txs.len() {
                crate::model::lemma_account_index_from(l0.accounts, l0.txs[i].account_id, 0);
                let w = account_index(l0.accounts, l0.txs[i].account_id);
                assert(l1.accounts[w].id == l1.txs[i].account_id);
            } else {
                assert(l1.accounts[l0.accounts.len() as int].id == nid);
            }
        }
        if balanced(l0) {
            assert forall|k: int| 0 <= k < l1.accounts.len() implies (#[trigger] l1.accounts[k])
                .balance == tx_sum(l1.txs, l1.accounts[k].id) by {
                if balance != 0 {
                    let t = opening_tx(l0, balance, date);
                    crate::model::lemma_tx_sum_push(l0.txs, t, l1.accounts[k].id);
                }
                if k == l0.accounts.len() {
                    crate::model::lemma_tx_sum_absent(l0.txs, nid);
                }
            }
        }
        if link_symmetric(l0.txs) {
            assert forall|i: int|
                0 <= i < l1.txs.len() && (#[trigger] l1.txs[i]).linked is Some implies exists|
                j: int,
            |
                0 <= j < l1.txs.len() && (#[trigger] l1.txs[j]).id == l1.txs[i].linked->0
                    && l1.txs[j].linked == Some(l1.txs[i].id) by {
                assert(i < l0.txs.len());
                assert(l0.txs[i].linked is Some);
                let j = choose|j: int|
                    0 <= j < l0.txs.len() && (#[trigger] l0.txs[j]).id == l0.txs[i].linked->0
                        && l0.txs[j].linked == Some(l0.txs[i].id);
                assert(l1.txs[j].id == l1.txs[i].linked->0 && l1.txs[j].linked == Some(
                    l1.txs[i].id,
                ));
            }
        }
    }
}

} // verus!
