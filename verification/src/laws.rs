//! Laws of the transfer machinery, stated and proved over the ledger
//! model. The per-operation contracts in `ledger` give each step's exact
//! effect; the lemmas here state the cross-operation guarantees in one
//! place: what creating a transfer writes, and that deleting either side
//! of a freshly created pair is accepted and restores every balance.

use crate::data::CreateTxArgsV;
use crate::ledger::{
    caller_tx, counterpart_tx, create_tx_ok, create_tx_spec, delete_counterpart_index,
    delete_tx_deltas, delete_tx_ok, delete_tx_spec,
};
use crate::model::{
    account_index, deltas_fit, inv, lemma_account_index_from, lemma_apply_deltas_balance,
    lemma_apply_deltas_shape, lemma_delta_total_one, lemma_delta_total_two, lemma_tx_index_from,
    transfer_target_index, tx_index, LedgerV,
};
use vstd::prelude::*;

verus! {

/// Creating a transaction whose payee is another account's name writes a
/// linked pair: the caller's row and a counterpart on the target account
/// with the opposite amount, both categorized `Transfer`, pointing at
/// each other, and the two balances moved oppositely.
pub proof fn lemma_transfer_creation(l: LedgerV, a: CreateTxArgsV)
    requires
        inv(l),
        create_tx_ok(l, a),
        transfer_target_index(l.accounts, a.payee, a.account_id) >= 0,
    ensures
        ({
            let l1 = create_tx_spec(l, a);
            let n = l.txs.len() as int;
            let ai = account_index(l.accounts, a.account_id);
            let ti = transfer_target_index(l.accounts, a.payee, a.account_id);
            &&& l1.txs.len() == n + 2
            &&& l1.txs[n].category == Some("Transfer"@)
            &&& l1.txs[n + 1].category == Some("Transfer"@)
            &&& l1.txs[n].amount == a.amount
            &&& l1.txs[n + 1].amount == -a.amount
            &&& l1.txs[n].linked == Some(l1.txs[n + 1].id)
            &&& l1.txs[n + 1].linked == Some(l1.txs[n].id)
            &&& l1.txs[n].account_id == a.account_id
            &&& l1.txs[n + 1].account_id == l.accounts[ti].id
            &&& l1.accounts[ai].balance == l.accounts[ai].balance + a.amount
            &&& l1.accounts[ti].balance == l.accounts[ti].balance - a.amount
        }),
{
    let ai = account_index(l.accounts, a.account_id);
    let ti = transfer_target_index(l.accounts, a.payee, a.account_id);
    lemma_account_index_from(l.accounts, a.account_id, 0);
    crate::model::lemma_transfer_target_from(l.accounts, a.payee, a.account_id, 0);
    assert(ai != ti);
    let ds = seq![(ai, a.amount), (ti, -a.amount)];
    lemma_apply_deltas_shape(l.accounts, ds);
    lemma_apply_deltas_balance(l.accounts, ds, ai);
    lemma_apply_deltas_balance(l.accounts, ds, ti);
    lemma_delta_total_two((ai, a.amount), (ti, -a.amount), ai);
    lemma_delta_total_two((ai, a.amount), (ti, -a.amount), ti);
}

/// Deleting either side of a freshly created transfer pair is accepted,
/// removes both rows, and restores every account to its value before the
/// transfer. `side` picks which row of the pair is deleted.
pub proof fn lemma_transfer_round_trip(l0: LedgerV, a: CreateTxArgsV, side: int)
    requires
        inv(l0),
        create_tx_ok(l0, a),
        transfer_target_index(l0.accounts, a.payee, a.account_id) >= 0,
        side == 0 || side == 1,
        i64::MIN <= a.amount <= i64::MAX,
        forall|k: int|
            0 <= k < l0.accounts.len() ==> i64::MIN <= (#[trigger] l0.accounts[k]).balance
                <= i64::MAX,
    ensures
        ({
            let l1 = create_tx_spec(l0, a);
            let id = l0.next_tx_id + side;
            &&& delete_tx_ok(l1, id)
            &&& delete_tx_spec(l1, tx_index(l1.txs, id)).txs == l0.txs
            &&& delete_tx_spec(l1, tx_index(l1.txs, id)).accounts =~~= l0.accounts
        }),
{
    let l1 = create_tx_spec(l0, a);
    let n = l0.txs.len() as int;
    let ai = account_index(l0.accounts, a.account_id);
    let ti = transfer_target_index(l0.accounts, a.payee, a.account_id);
    lemma_account_index_from(l0.accounts, a.account_id, 0);
    crate::model::lemma_transfer_target_from(l0.accounts, a.payee, a.account_id, 0);
    assert(ai != ti);
    let id1 = l0.next_tx_id;
    let id2 = l0.next_tx_id + 1;
    let t1 = caller_tx(l0, a, Some("Transfer"@), Some(id2));
    let t2 = counterpart_tx(l0, a, ai, ti);
    let ds_c = seq![(ai, a.amount), (ti, -a.amount)];
    lemma_apply_deltas_shape(l0.accounts, ds_c);
    assert(l1.txs =~= l0.txs.push(t1).push(t2));
    // The two fresh rows stand at the end; their ids are new, so the
    // index search finds exactly them.
    assert forall|j: int| 0 <= j < n implies (#[trigger] l1.txs[j]).id != id1 && l1.txs[j].id
        != id2 by {
        assert(l1.txs[j] == l0.txs[j]);
    }
    lemma_tx_index_from(l1.txs, id1, 0);
    let x1 = tx_index(l1.txs, id1);
    assert(l1.txs[n].id == id1);
    assert(x1 >= 0);
    assert(x1 == n);
    lemma_tx_index_from(l1.txs, id2, 0);
    let x2 = tx_index(l1.txs, id2);
    assert(l1.txs[n + 1].id == id2);
    assert(x2 >= 0);
    assert(x2 == n + 1);
    // Whichever side is deleted, the stored link names the other side.
    let di = if side == 0 {
        n
    } else {
        n + 1
    };
    let ci = delete_counterpart_index(l1, di);
    assert(ci == if side == 0 {
        n + 1
    } else {
        n
    });
    // Each account's position is the same in both states.
    let ai1 = account_index(l1.accounts, a.account_id);
    lemma_account_index_from(l1.accounts, a.account_id, 0);
    assert(l1.accounts[ai].id == a.account_id);
    assert(ai1 >= 0);
    assert(ai1 == ai) by {
        if ai1 != ai {
            assert(l1.accounts[ai1].id == l1.accounts[ai].id);
            assert(l0.accounts[ai1].id == l0.accounts[ai].id);
        }
    }
    let tid = l0.accounts[ti].id;
    let ti1 = account_index(l1.accounts, tid);
    lemma_account_index_from(l1.accounts, tid, 0);
    assert(l1.accounts[ti].id == tid);
    assert(ti1 >= 0);
    assert(ti1 == ti) by {
        if ti1 != ti {
            assert(l1.accounts[ti1].id == l1.accounts[ti].id);
            assert(l0.accounts[ti1].id == l0.accounts[ti].id);
        }
    }
    // The deletion's adjustments reverse the creation's exactly.
    let ds_d = delete_tx_deltas(l1, di, ci);
    lemma_delta_total_two((ai, a.amount), (ti, -a.amount), ai);
    lemma_delta_total_two((ai, a.amount), (ti, -a.amount), ti);
    lemma_apply_deltas_balance(l0.accounts, ds_c, ai);
    lemma_apply_deltas_balance(l0.accounts, ds_c, ti);
    if side == 0 {
        assert(ds_d =~= seq![(ai1, -a.amount), (ti1, a.amount)]);
    } else {
        assert(ds_d =~= seq![(ti1, a.amount), (ai1, -a.amount)]);
    }
    // Every step of the reversal lands back on a stored balance, so it
    // fits.
    assert(l1.accounts[ai].balance == l0.accounts[ai].balance + a.amount);
    assert(l1.accounts[ti].balance == l0.accounts[ti].balance - a.amount);
    assert(deltas_fit(l1.accounts, ds_d)) by {
        assert(ds_d.drop_last() =~= seq![ds_d[0]]);
        assert(seq![ds_d[0]].drop_last() =~= Seq::<(int, int)>::empty());
        assert(deltas_fit(l1.accounts, Seq::<(int, int)>::empty()));
        lemma_delta_total_one(ds_d[0], ai);
        lemma_delta_total_one(ds_d[0], ti);
        lemma_apply_deltas_shape(l1.accounts, seq![ds_d[0]]);
        lemma_apply_deltas_balance(l1.accounts, seq![ds_d[0]], ai);
        lemma_apply_deltas_balance(l1.accounts, seq![ds_d[0]], ti);
        assert(deltas_fit(l1.accounts, seq![ds_d[0]]));
        assert(deltas_fit(l1.accounts, ds_d.drop_last()));
        assert(ds_d.last() == ds_d[1]);
    }
    assert(delete_tx_ok(l1, id1 + side));
    let l2 = delete_tx_spec(l1, di);
    if side == 0 {
        assert(l2.txs =~= l0.txs);
    } else {
        assert(l2.txs =~= l0.txs);
    }
    assert(l2.accounts =~~= l0.accounts) by {
        lemma_apply_deltas_shape(l1.accounts, ds_d);
        lemma_delta_total_two(ds_d[0], ds_d[1], ai);
        lemma_delta_total_two(ds_d[0], ds_d[1], ti);
        assert(ds_d =~= seq![ds_d[0], ds_d[1]]);
        assert forall|k: int| 0 <= k < l0.accounts.len() implies l2.accounts[k] =~~= l0.accounts[k] by {
            lemma_apply_deltas_balance(l1.accounts, ds_d, k);
            lemma_apply_deltas_balance(l0.accounts, ds_c, k);
            lemma_delta_total_two(ds_d[0], ds_d[1], k);
            lemma_delta_total_two((ai, a.amount), (ti, -a.amount), k);
        }
    }
}

} // verus!
