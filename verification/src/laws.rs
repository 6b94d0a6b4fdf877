//! The engine's general laws, stated over the mathematical views that
//! the operations' contracts use and proved once for every input.

use vstd::prelude::*;
use crate::db::Tdb;
use crate::table::appended_value;

verus! {

/// A store followed by a fetch of the same key yields the stored value:
/// after `store(k, v)` turns the content `m` into `m.insert(k, v)`, a
/// fetch of `k` reads `v`.
pub proof fn lemma_store_then_fetch(m: Map<Seq<u8>, Seq<u8>>, k: Seq<u8>, v: Seq<u8>)
    ensures
        m.insert(k, v).contains_key(k),
        m.insert(k, v)[k] == v,
{
}

/// A delete after a successful store leaves the key absent: after
/// `store(k, v)` and `delete(k)` the content holds nothing for `k`, so a
/// fetch reads nothing and an existence probe says no.
pub proof fn lemma_store_then_delete(m: Map<Seq<u8>, Seq<u8>>, k: Seq<u8>, v: Seq<u8>)
    ensures
        !m.insert(k, v).remove(k).contains_key(k),
{
}

/// An insert-only store does not overwrite: after `store(k, v1,
/// Insert)` on an absent key, the key is present with `v1`, so a second
/// insert-only store of `k` fails with `Exists` and, failing, leaves the
/// content untouched — the value stays `v1`.
pub proof fn lemma_insert_only_keeps_first(m: Map<Seq<u8>, Seq<u8>>, k: Seq<u8>, v1: Seq<u8>)
    requires
        !m.contains_key(k),
    ensures
        m.insert(k, v1).contains_key(k),
        m.insert(k, v1)[k] == v1,
{
}

/// Appending twice concatenates: after `append(k, v1)` and `append(k,
/// v2)` the key holds `v1 ++ v2` when it was absent at the start, and
/// its old value followed by `v1 ++ v2` in general.
pub proof fn lemma_append_append(m: Map<Seq<u8>, Seq<u8>>, k: Seq<u8>, v1: Seq<u8>, v2: Seq<u8>)
    ensures
        ({
            let m1 = m.insert(k, appended_value(m, k, v1));
            let m2 = m1.insert(k, appended_value(m1, k, v2));
            &&& m2.contains_key(k)
            &&& m2[k] == appended_value(m, k, v1) + v2
            &&& (!m.contains_key(k) ==> m2[k] == v1 + v2)
        }),
{
}

/// One buffered mutation: a step a store, delete, append or wipe takes
/// while a transaction is open. Each leaves the committed content — what
/// other handles see — untouched, as the operations' contracts state.
pub open spec fn buffered_step(pre: Tdb, post: Tdb) -> bool {
    &&& pre.tx_depth() > 0
    &&& post.tx_depth() == pre.tx_depth()
    &&& post.committed() == pre.committed()
}

/// Transaction atomicity, the cancel half: any sequence of buffered
/// mutations leaves the committed content exactly where it started, so
/// `transaction_cancel` — which by its contract makes the visible
/// content the committed content again — restores the database to its
/// state before `transaction_start`. The commit half is the contract of
/// `transaction_commit` itself: the committed content becomes the
/// visible content, all buffered mutations applied, in one step.
pub proof fn lemma_transaction_cancel_atomic(states: Seq<Tdb>)
    requires
        states.len() >= 1,
        forall|i: int|
            0 <= i < states.len() - 1 ==> buffered_step(#[trigger] states[i], states[i + 1]),
    ensures
        states.last().committed() == states[0].committed(),
    decreases states.len(),
{
    if states.len() > 1 {
        lemma_transaction_cancel_atomic(states.drop_last());
        assert(buffered_step(states[states.len() - 2], states[states.len() - 1]));
        assert(states.drop_last().last() == states[states.len() - 2]);
        assert(states.drop_last()[0] == states[0]);
    }
}

} // verus!
