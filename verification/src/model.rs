//! The mathematical model of the ledger: the ghost state, the helpers the
//! contracts are written with, and the lemmas about transaction sums.

use crate::data::{AccountV, RuleV, TxV};
use crate::rates::Rate;
use crate::textutil::eq_ignore_ascii_case;
use vstd::prelude::*;

verus! {

/// The whole ledger as specifications see it.
#[verifier::ext_equal]
pub struct LedgerV {
    pub accounts: Seq<AccountV>,
    pub txs: Seq<TxV>,
    pub rules: Seq<RuleV>,
    pub custom: Map<Seq<char>, Rate>,
    pub next_account_id: int,
    pub next_tx_id: int,
    pub next_rule_id: int,
}

/// The first position at or after `i` of the account with the given id,
/// or -1.
pub open spec fn account_index_from(accounts: Seq<AccountV>, id: int, i: int) -> int
    decreases accounts.len() - i,
{
    if !(0 <= i < accounts.len()) {
        -1
    } else if accounts[i].id == id {
        i
    } else {
        account_index_from(accounts, id, i + 1)
    }
}

/// The position of the account with the given id, or -1.
pub open spec fn account_index(accounts: Seq<AccountV>, id: int) -> int {
    account_index_from(accounts, id, 0)
}

/// The first position at or after `i` of the transaction with the given
/// id, or -1.
pub open spec fn tx_index_from(txs: Seq<TxV>, id: int, i: int) -> int
    decreases txs.len() - i,
{
    if !(0 <= i < txs.len()) {
        -1
    } else if txs[i].id == id {
        i
    } else {
        tx_index_from(txs, id, i + 1)
    }
}

/// The position of the transaction with the given id, or -1.
pub open spec fn tx_index(txs: Seq<TxV>, id: int) -> int {
    tx_index_from(txs, id, 0)
}

/// Whether an account is the target of a transfer whose payee is `payee`,
/// seen from the account `exclude`.
pub open spec fn is_transfer_target(a: AccountV, payee: Seq<char>, exclude: int) -> bool {
    a.name == payee && a.id != exclude
}

/// The first position at or after `i` of a transfer target, or -1.
pub open spec fn transfer_target_from(
    accounts: Seq<AccountV>,
    payee: Seq<char>,
    exclude: int,
    i: int,
) -> int
    decreases accounts.len() - i,
{
    if !(0 <= i < accounts.len()) {
        -1
    } else if is_transfer_target(accounts[i], payee, exclude) {
        i
    } else {
        transfer_target_from(accounts, payee, exclude, i + 1)
    }
}

/// The position of the first account other than `exclude` whose name is
/// exactly `payee`, or -1: the target of a detected transfer.
pub open spec fn transfer_target_index(
    accounts: Seq<AccountV>,
    payee: Seq<char>,
    exclude: int,
) -> int {
    transfer_target_from(accounts, payee, exclude, 0)
}

/// Whether the notes-based fallback accepts a row as the transfer
/// counterpart of the row `exclude`: same notes, category `Transfer`, and
/// not linked to any third row.
pub open spec fn is_fallback_counterpart(t: TxV, notes: Seq<char>, exclude: int) -> bool {
    &&& t.notes == Some(notes)
    &&& t.category == Some("Transfer"@)
    &&& t.id != exclude
    &&& (t.linked is None || t.linked == Some(exclude))
}

/// The first position at or after `i` of a fallback counterpart, or -1.
pub open spec fn fallback_from(txs: Seq<TxV>, notes: Seq<char>, exclude: int, i: int) -> int
    decreases txs.len() - i,
{
    if !(0 <= i < txs.len()) {
        -1
    } else if is_fallback_counterpart(txs[i], notes, exclude) {
        i
    } else {
        fallback_from(txs, notes, exclude, i + 1)
    }
}

/// The position of the first transaction the notes-based fallback accepts
/// as a transfer counterpart of `exclude`, or -1.
pub open spec fn fallback_index(txs: Seq<TxV>, notes: Seq<char>, exclude: int) -> int {
    fallback_from(txs, notes, exclude, 0)
}

/// What a result of `account_index_from` means: -1 exactly when no
/// account at or after `i` has the id, and a first match otherwise.
pub proof fn lemma_account_index_from(accounts: Seq<AccountV>, id: int, i: int)
    requires
        0 <= i <= accounts.len(),
    ensures
        -1 <= account_index_from(accounts, id, i) < accounts.len(),
        account_index_from(accounts, id, i) == -1 <==> (forall|j: int|
            i <= j < accounts.len() ==> (#[trigger] accounts[j]).id != id),
        account_index_from(accounts, id, i) >= 0 ==> i <= account_index_from(accounts, id, i)
            < accounts.len() && accounts[account_index_from(accounts, id, i)].id == id && (
        forall|j: int|
            i <= j < account_index_from(accounts, id, i) ==> (#[trigger] accounts[j]).id != id),
    decreases accounts.len() - i,
{
    if i < accounts.len() && accounts[i].id != id {
        lemma_account_index_from(accounts, id, i + 1);
    }
}

/// What a result of `tx_index_from` means.
pub proof fn lemma_tx_index_from(txs: Seq<TxV>, id: int, i: int)
    requires
        0 <= i <= txs.len(),
    ensures
        -1 <= tx_index_from(txs, id, i) < txs.len(),
        tx_index_from(txs, id, i) == -1 <==> (forall|j: int|
            i <= j < txs.len() ==> (#[trigger] txs[j]).id != id),
        tx_index_from(txs, id, i) >= 0 ==> i <= tx_index_from(txs, id, i) < txs.len()
            && txs[tx_index_from(txs, id, i)].id == id && (forall|j: int|
            i <= j < tx_index_from(txs, id, i) ==> (#[trigger] txs[j]).id != id),
    decreases txs.len() - i,
{
    if i < txs.len() && txs[i].id != id {
        lemma_tx_index_from(txs, id, i + 1);
    }
}

/// What a result of `transfer_target_from` means.
pub proof fn lemma_transfer_target_from(
    accounts: Seq<AccountV>,
    payee: Seq<char>,
    exclude: int,
    i: int,
)
    requires
        0 <= i <= accounts.len(),
    ensures
        -1 <= transfer_target_from(accounts, payee, exclude, i) < accounts.len(),
        transfer_target_from(accounts, payee, exclude, i) == -1 <==> (forall|j: int|
            i <= j < accounts.len() ==> !is_transfer_target(
                #[trigger] accounts[j],
                payee,
                exclude,
            )),
        transfer_target_from(accounts, payee, exclude, i) >= 0 ==> i <= transfer_target_from(
            accounts,
            payee,
            exclude,
            i,
        ) < accounts.len() && is_transfer_target(
            accounts[transfer_target_from(accounts, payee, exclude, i)],
            payee,
            exclude,
        ) && (forall|j: int|
            i <= j < transfer_target_from(accounts, payee, exclude, i) ==> !is_transfer_target(
                #[trigger] accounts[j],
                payee,
                exclude,
            )),
    decreases accounts.len() - i,
{
    if i < accounts.len() && !is_transfer_target(accounts[i], payee, exclude) {
        lemma_transfer_target_from(accounts, payee, exclude, i + 1);
    }
}

/// What a result of `fallback_from` means.
pub proof fn lemma_fallback_from(txs: Seq<TxV>, notes: Seq<char>, exclude: int, i: int)
    requires
        0 <= i <= txs.len(),
    ensures
        -1 <= fallback_from(txs, notes, exclude, i) < txs.len(),
        fallback_from(txs, notes, exclude, i) == -1 <==> (forall|j: int|
            i <= j < txs.len() ==> !is_fallback_counterpart(#[trigger] txs[j], notes, exclude)),
        fallback_from(txs, notes, exclude, i) >= 0 ==> i <= fallback_from(txs, notes, exclude, i)
            < txs.len() && is_fallback_counterpart(
            txs[fallback_from(txs, notes, exclude, i)],
            notes,
            exclude,
        ) && (forall|j: int|
            i <= j < fallback_from(txs, notes, exclude, i) ==> !is_fallback_counterpart(
                #[trigger] txs[j],
                notes,
                exclude,
            )),
    decreases txs.len() - i,
{
    if i < txs.len() && !is_fallback_counterpart(txs[i], notes, exclude) {
        lemma_fallback_from(txs, notes, exclude, i + 1);
    }
}

/// The sum of the amounts of the transactions owned by `id`.
pub open spec fn tx_sum(txs: Seq<TxV>, id: int) -> int
    decreases txs.len(),
{
    if txs.len() == 0 {
        0
    } else {
        tx_sum(txs.drop_last(), id) + if txs.last().account_id == id {
            txs.last().amount
        } else {
            0
        }
    }
}

/// Every account's balance is the sum of its transactions' amounts.
pub open spec fn balanced(l: LedgerV) -> bool {
    forall|i: int|
        0 <= i < l.accounts.len() ==> (#[trigger] l.accounts[i]).balance == tx_sum(
            l.txs,
            l.accounts[i].id,
        )
}

/// Every transaction with a `linked` reference is pointed back at by the
/// row it references.
pub open spec fn link_symmetric(txs: Seq<TxV>) -> bool {
    forall|i: int|
        0 <= i < txs.len() && (#[trigger] txs[i]).linked is Some ==> exists|j: int|
            0 <= j < txs.len() && (#[trigger] txs[j]).id == txs[i].linked->0 && txs[j].linked
                == Some(txs[i].id)
}

/// Structural well-formedness of a ledger: unique ids below the id
/// counters, every transaction owned by an existing account, and account
/// names unique up to ASCII case.
pub open spec fn inv(l: LedgerV) -> bool {
    &&& forall|i: int, j: int|
        0 <= i < j < l.accounts.len() ==> l.accounts[i].id != l.accounts[j].id
    &&& forall|i: int, j: int| 0 <= i < j < l.txs.len() ==> l.txs[i].id != l.txs[j].id
    &&& forall|i: int, j: int| 0 <= i < j < l.rules.len() ==> l.rules[i].id != l.rules[j].id
    &&& forall|i: int, j: int|
        0 <= i < j < l.accounts.len() ==> !eq_ignore_ascii_case(
            l.accounts[i].name,
            l.accounts[j].name,
        )
    &&& forall|i: int|
        0 <= i < l.txs.len() ==> account_index(l.accounts, (#[trigger] l.txs[i]).account_id) >= 0
    &&& forall|i: int|
        0 <= i < l.accounts.len() ==> 1 <= (#[trigger] l.accounts[i]).id < l.next_account_id
    &&& forall|i: int| 0 <= i < l.txs.len() ==> 1 <= (#[trigger] l.txs[i]).id < l.next_tx_id
    &&& forall|i: int| 0 <= i < l.rules.len() ==> 1 <= (#[trigger] l.rules[i]).id < l.next_rule_id
    &&& 1 <= l.next_account_id
    &&& 1 <= l.next_tx_id
    &&& 1 <= l.next_rule_id
}

/// A list of balance adjustments, positions paired with deltas, fits when
/// applying them in order never leaves the range of `i64`.
pub open spec fn deltas_fit(accounts: Seq<AccountV>, ds: Seq<(int, int)>) -> bool
    decreases ds.len(),
{
    if ds.len() == 0 {
        true
    } else {
        let prev = apply_deltas(accounts, ds.drop_last());
        let (i, d) = ds.last();
        &&& deltas_fit(accounts, ds.drop_last())
        &&& 0 <= i < prev.len()
        &&& i64::MIN <= prev[i].balance + d <= i64::MAX
    }
}

/// The accounts after applying the balance adjustments in order.
pub open spec fn apply_deltas(accounts: Seq<AccountV>, ds: Seq<(int, int)>) -> Seq<AccountV>
    decreases ds.len(),
{
    if ds.len() == 0 {
        accounts
    } else {
        let prev = apply_deltas(accounts, ds.drop_last());
        let (i, d) = ds.last();
        if 0 <= i < prev.len() {
            prev.update(i, AccountV { balance: prev[i].balance + d, ..prev[i] })
        } else {
            prev
        }
    }
}

/// Applying deltas does not change any field except balances, nor the
/// number of accounts.
pub proof fn lemma_apply_deltas_shape(accounts: Seq<AccountV>, ds: Seq<(int, int)>)
    ensures
        apply_deltas(accounts, ds).len() == accounts.len(),
        forall|k: int|
            0 <= k < accounts.len() ==> {
                let after = #[trigger] apply_deltas(accounts, ds)[k];
                &&& after.id == accounts[k].id
                &&& after.name == accounts[k].name
                &&& after.currency == accounts[k].currency
                &&& after.kind == accounts[k].kind
                &&& after.rate == accounts[k].rate
            },
    decreases ds.len(),
{
    if ds.len() > 0 {
        lemma_apply_deltas_shape(accounts, ds.drop_last());
    }
}

/// The total adjustment a delta list makes at one position.
pub open spec fn delta_total(ds: Seq<(int, int)>, i: int) -> int
    decreases ds.len(),
{
    if ds.len() == 0 {
        0
    } else {
        delta_total(ds.drop_last(), i) + if ds.last().0 == i {
            ds.last().1
        } else {
            0
        }
    }
}

/// Applying deltas moves each balance by the total adjustment at its
/// position.
pub proof fn lemma_apply_deltas_balance(accounts: Seq<AccountV>, ds: Seq<(int, int)>, k: int)
    requires
        0 <= k < accounts.len(),
        forall|j: int| 0 <= j < ds.len() ==> 0 <= (#[trigger] ds[j]).0 < accounts.len(),
    ensures
        apply_deltas(accounts, ds)[k].balance == accounts[k].balance + delta_total(ds, k),
    decreases ds.len(),
{
    if ds.len() > 0 {
        lemma_apply_deltas_shape(accounts, ds.drop_last());
        lemma_apply_deltas_balance(accounts, ds.drop_last(), k);
        assert(ds.drop_last() =~= ds.take(ds.len() - 1));
        assert(forall|j: int|
            0 <= j < ds.drop_last().len() ==> 0 <= (#[trigger] ds.drop_last()[j]).0
                < accounts.len());
    }
}

/// The total adjustment of a single-entry delta list.
pub proof fn lemma_delta_total_one(d0: (int, int), k: int)
    ensures
        delta_total(seq![d0], k) == if d0.0 == k {
            d0.1
        } else {
            0
        },
{
    assert(seq![d0].drop_last() =~= Seq::<(int, int)>::empty());
    assert(delta_total(Seq::<(int, int)>::empty(), k) == 0);
    assert(seq![d0].last() == d0);
}

/// The total adjustment of a two-entry delta list.
pub proof fn lemma_delta_total_two(d0: (int, int), d1: (int, int), k: int)
    ensures
        delta_total(seq![d0, d1], k) == (if d0.0 == k {
            d0.1
        } else {
            0
        }) + (if d1.0 == k {
            d1.1
        } else {
            0
        }),
{
    assert(seq![d0, d1].drop_last() =~= seq![d0]);
    lemma_delta_total_one(d0, k);
    assert(seq![d0, d1].last() == d1);
}

/// The total adjustment of a three-entry delta list.
pub proof fn lemma_delta_total_three(d0: (int, int), d1: (int, int), d2: (int, int), k: int)
    ensures
        delta_total(seq![d0, d1, d2], k) == (if d0.0 == k {
            d0.1
        } else {
            0
        }) + (if d1.0 == k {
            d1.1
        } else {
            0
        }) + (if d2.0 == k {
            d2.1
        } else {
            0
        }),
{
    assert(seq![d0, d1, d2].drop_last() =~= seq![d0, d1]);
    lemma_delta_total_two(d0, d1, k);
    assert(seq![d0, d1, d2].last() == d2);
}

/// Pushing a transaction adds its amount to its own account's sum and to
/// no other.
pub proof fn lemma_tx_sum_push(txs: Seq<TxV>, t: TxV, id: int)
    ensures
        tx_sum(txs.push(t), id) == tx_sum(txs, id) + if t.account_id == id {
            t.amount
        } else {
            0
        },
{
    assert(txs.push(t).drop_last() =~= txs);
}

/// Updating one transaction swaps its contribution in every sum.
pub proof fn lemma_tx_sum_update(txs: Seq<TxV>, i: int, t: TxV, id: int)
    requires
        0 <= i < txs.len(),
    ensures
        tx_sum(txs.update(i, t), id) == tx_sum(txs, id) - (if txs[i].account_id == id {
            txs[i].amount
        } else {
            0
        }) + (if t.account_id == id {
            t.amount
        } else {
            0
        }),
    decreases txs.len(),
{
    let u = txs.update(i, t);
    if i == txs.len() - 1 {
        assert(u.drop_last() =~= txs.drop_last());
    } else {
        assert(u.drop_last() =~= txs.drop_last().update(i, t));
        lemma_tx_sum_update(txs.drop_last(), i, t, id);
        assert(u.last() == txs.last());
    }
}

/// An account no transaction is owned by has sum zero.
pub proof fn lemma_tx_sum_absent(txs: Seq<TxV>, id: int)
    requires
        forall|i: int| 0 <= i < txs.len() ==> (#[trigger] txs[i]).account_id != id,
    ensures
        tx_sum(txs, id) == 0,
    decreases txs.len(),
{
    if txs.len() > 0 {
        lemma_tx_sum_absent(txs.drop_last(), id);
    }
}

/// Inserting into a sequence inserts into its multiset.
pub proof fn lemma_to_multiset_insert<A>(s: Seq<A>, i: int, a: A)
    requires
        0 <= i <= s.len(),
    ensures
        s.insert(i, a).to_multiset() =~= s.to_multiset().insert(a),
{
    broadcast use vstd::seq_lib::group_to_multiset_ensures;

    let t = s.insert(i, a);
    assert(t.remove(i) =~= s);
    assert(t[i] == a);
    assert(t.remove(i).to_multiset() =~= t.to_multiset().remove(a));
    assert(t.contains(a));
    assert(t.to_multiset().count(a) > 0);
    assert(t.to_multiset() =~= s.to_multiset().insert(a)) by {
        assert(forall|x: A|
            t.to_multiset().count(x) == s.to_multiset().insert(a).count(x)) by {
            assert(forall|x: A|
                s.to_multiset().count(x) == t.to_multiset().remove(a).count(x));
        }
    }
}

/// An element of a sequence stays in it after an insertion, and the
/// inserted element is in it.
pub proof fn lemma_insert_contains<A>(s: Seq<A>, i: int, a: A)
    requires
        0 <= i <= s.len(),
    ensures
        forall|x: A| s.contains(x) ==> #[trigger] s.insert(i, a).contains(x),
        s.insert(i, a).contains(a),
{
    assert forall|x: A| s.contains(x) implies #[trigger] s.insert(i, a).contains(x) by {
        let p = choose|p: int| 0 <= p < s.len() && s[p] == x;
        if p < i {
            assert(s.insert(i, a)[p] == x);
        } else {
            assert(s.insert(i, a)[p + 1] == x);
        }
    }
    assert(s.insert(i, a)[i] == a);
}

/// Removing one transaction removes exactly its contribution.
pub proof fn lemma_tx_sum_remove(txs: Seq<TxV>, i: int, id: int)
    requires
        0 <= i < txs.len(),
    ensures
        tx_sum(txs.remove(i), id) == tx_sum(txs, id) - if txs[i].account_id == id {
            txs[i].amount
        } else {
            0
        },
    decreases txs.len(),
{
    let u = txs.remove(i);
    if i == txs.len() - 1 {
        assert(u =~= txs.drop_last());
    } else {
        assert(u.drop_last() =~= txs.drop_last().remove(i));
        lemma_tx_sum_remove(txs.drop_last(), i, id);
        assert(u.last() == txs.last());
    }
}

} // verus!
