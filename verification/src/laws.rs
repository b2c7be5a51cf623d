//! Proved laws of the reconciliation pass: idempotency, the closure sweep,
//! the write-once closure timestamp, the insert round trip, and freedom from
//! duplicate rows.
//!
//! All laws are stated over the mathematical model of the table, a sequence
//! of [`RowModel`] values, and over [`spec_sync`], the exact description of
//! one reconciliation pass that the executable methods are proved against.

use vstd::prelude::*;

use crate::channel::ChannelModel;
use crate::channel::ChannelState;
use crate::channel::is_closing;
use crate::channel::lemma_state_round_trip;
use crate::channel::state_name;
use crate::store::RowModel;
use crate::store::close_row;
use crate::store::has_key;
use crate::store::new_row;
use crate::store::row_after_upsert;
use crate::store::snapshot_has_key;
use crate::store::spec_list;
use crate::store::spec_sweep;
use crate::store::spec_sync;
use crate::store::spec_upsert;
use crate::store::spec_upsert_all;
use crate::store::snapshot_keys;
use crate::store::stored_keys;
use crate::store::unique_keys;
use crate::store::wf;

verus! {

/// A stored row already reflects the given channel: either it carries a
/// closure timestamp and all refreshable fields equal the channel's, or it
/// is still open and the channel is not closing (in which case an upsert
/// leaves the row untouched).
pub open spec fn reconciled(r: RowModel, c: ChannelModel) -> bool {
    if r.closed_at is Some {
        r.short_channel_id == c.short_channel_id && r.state == state_name(c.state)
            && r.spendable_msat == c.spendable_msat && r.receivable_msat == c.receivable_msat
    } else {
        !is_closing(c.state)
    }
}

/// Upserting a channel into a row that already reflects it changes nothing,
/// whatever time the pass runs at.
pub proof fn lemma_reconciled_upsert_noop(r: RowModel, c: ChannelModel, now: u64)
    requires
        reconciled(r, c),
    ensures
        row_after_upsert(r, c, now) == r,
{
    assert(row_after_upsert(r, c, now) =~= r);
}

/// What one upsert does to the table: it preserves every key in place,
/// leaves rows with other keys untouched, never clears or changes a closure
/// timestamp that is already set, appends a fresh row exactly when the key
/// was absent, leaves every row of the channel's key reconciled with the
/// channel, and keeps the table well formed.
pub proof fn lemma_upsert_props(rows: Seq<RowModel>, c: ChannelModel, now: u64)
    requires
        wf(rows),
    ensures
        rows.len() <= spec_upsert(rows, c, now).len(),
        has_key(rows, c.funding_txid) ==> spec_upsert(rows, c, now).len() == rows.len(),
        !has_key(rows, c.funding_txid) ==> spec_upsert(rows, c, now).len() == rows.len() + 1
            && spec_upsert(rows, c, now)[rows.len() as int] == new_row(c, now),
        forall|i: int|
            0 <= i < rows.len() ==> spec_upsert(rows, c, now)[i].funding_txid
                == rows[i].funding_txid,
        forall|i: int|
            0 <= i < rows.len() && rows[i].funding_txid != c.funding_txid ==> spec_upsert(
                rows,
                c,
                now,
            )[i] == rows[i],
        forall|i: int|
            0 <= i < rows.len() && rows[i].closed_at is Some ==> spec_upsert(
                rows,
                c,
                now,
            )[i].closed_at == rows[i].closed_at,
        forall|i: int|
            0 <= i < spec_upsert(rows, c, now).len() && spec_upsert(rows, c, now)[i].funding_txid
                == c.funding_txid ==> reconciled(spec_upsert(rows, c, now)[i], c),
        forall|k: Seq<char>|
            #[trigger] has_key(spec_upsert(rows, c, now), k) <==> has_key(rows, k) || k
                == c.funding_txid,
        wf(spec_upsert(rows, c, now)),
{
    let res = spec_upsert(rows, c, now);
    assert forall|k: Seq<char>| #[trigger]
        has_key(res, k) implies has_key(rows, k) || k == c.funding_txid by {
        let i = choose|i: int| 0 <= i < res.len() && res[i].funding_txid == k;
        if i < rows.len() {
            assert(rows[i].funding_txid == k);
        }
    }
    assert forall|k: Seq<char>| has_key(rows, k) || k == c.funding_txid implies #[trigger]
        has_key(res, k) by {
        if has_key(rows, k) {
            let i = choose|i: int| 0 <= i < rows.len() && rows[i].funding_txid == k;
            assert(res[i].funding_txid == k);
        } else {
            if has_key(rows, c.funding_txid) {
                let i = choose|i: int|
                    0 <= i < rows.len() && rows[i].funding_txid == c.funding_txid;
                assert(res[i].funding_txid == k);
            } else {
                assert(res[rows.len() as int].funding_txid == k);
            }
        }
    }
    if !has_key(rows, c.funding_txid) {
        assert forall|i: int, j: int|
            0 <= i < j < res.len() implies res[i].funding_txid != res[j].funding_txid by {
            if j == res.len() - 1 {
                assert(rows[i].funding_txid != c.funding_txid);
            }
        }
    }
}

/// A key occurs in a snapshot exactly when it occurs before the last
/// channel or is the last channel's key.
pub proof fn lemma_snapshot_key_unsnoc(cs: Seq<ChannelModel>, k: Seq<char>)
    requires
        cs.len() > 0,
    ensures
        snapshot_has_key(cs, k) <==> (snapshot_has_key(cs.drop_last(), k) || cs.last().funding_txid
            == k),
{
    if snapshot_has_key(cs, k) {
        let i = choose|i: int| 0 <= i < cs.len() && cs[i].funding_txid == k;
        if i < cs.len() - 1 {
            assert(cs.drop_last()[i].funding_txid == k);
        }
    }
    if snapshot_has_key(cs.drop_last(), k) {
        let i = choose|i: int|
            0 <= i < cs.drop_last().len() && cs.drop_last()[i].funding_txid == k;
        assert(cs[i].funding_txid == k);
    }
}

/// What the sweep does to the table, row by row: a row whose key the
/// snapshot holds stays, every other row is closed in place; keys, lengths
/// and already-set closure timestamps are preserved, and the table stays
/// well formed.
pub proof fn lemma_sweep_props(rows: Seq<RowModel>, cs: Seq<ChannelModel>, now: u64)
    ensures
        spec_sweep(rows, cs, now).len() == rows.len(),
        forall|i: int|
            0 <= i < rows.len() ==> spec_sweep(rows, cs, now)[i] == (if snapshot_has_key(
                cs,
                rows[i].funding_txid,
            ) {
                rows[i]
            } else {
                close_row(rows[i], now)
            }),
        forall|i: int|
            0 <= i < rows.len() ==> spec_sweep(rows, cs, now)[i].funding_txid
                == rows[i].funding_txid,
        forall|i: int|
            0 <= i < rows.len() && rows[i].closed_at is Some ==> spec_sweep(
                rows,
                cs,
                now,
            )[i].closed_at == rows[i].closed_at,
        wf(rows) ==> wf(spec_sweep(rows, cs, now)),
{
    if wf(rows) {
        assert forall|i: int, j: int|
            0 <= i < j < spec_sweep(rows, cs, now).len() implies spec_sweep(
            rows,
            cs,
            now,
        )[i].funding_txid != spec_sweep(rows, cs, now)[j].funding_txid by {
            assert(spec_sweep(rows, cs, now)[i].funding_txid == rows[i].funding_txid);
            assert(spec_sweep(rows, cs, now)[j].funding_txid == rows[j].funding_txid);
        }
    }
}

/// What upserting a whole snapshot does to the table: stored rows keep their
/// index and key; a row whose key the snapshot never mentions is untouched;
/// an already-set closure timestamp is never changed; every appended row
/// carries a key of the snapshot; the table's keys afterwards are exactly
/// the stored keys plus the snapshot's; and the table stays well formed.
pub proof fn lemma_upsert_all_props(rows: Seq<RowModel>, cs: Seq<ChannelModel>, now: u64)
    requires
        wf(rows),
    ensures
        rows.len() <= spec_upsert_all(rows, cs, now).len(),
        forall|i: int|
            0 <= i < rows.len() ==> spec_upsert_all(rows, cs, now)[i].funding_txid
                == rows[i].funding_txid,
        forall|i: int|
            0 <= i < rows.len() && !snapshot_has_key(cs, rows[i].funding_txid)
                ==> spec_upsert_all(rows, cs, now)[i] == rows[i],
        forall|i: int|
            0 <= i < rows.len() && rows[i].closed_at is Some ==> spec_upsert_all(
                rows,
                cs,
                now,
            )[i].closed_at == rows[i].closed_at,
        forall|i: int|
            rows.len() <= i < spec_upsert_all(rows, cs, now).len() ==> snapshot_has_key(
                cs,
                spec_upsert_all(rows, cs, now)[i].funding_txid,
            ),
        forall|k: Seq<char>|
            #[trigger] has_key(spec_upsert_all(rows, cs, now), k) <==> has_key(rows, k)
                || snapshot_has_key(cs, k),
        wf(spec_upsert_all(rows, cs, now)),
    decreases cs.len(),
{
    if cs.len() == 0 {
        assert forall|k: Seq<char>| !snapshot_has_key(cs, k) by {}
    } else {
        let prev = spec_upsert_all(rows, cs.drop_last(), now);
        let c = cs.last();
        let res = spec_upsert(prev, c, now);
        lemma_upsert_all_props(rows, cs.drop_last(), now);
        lemma_upsert_props(prev, c, now);
        assert forall|k: Seq<char>| true implies (#[trigger] snapshot_has_key(cs, k) <==> (
        snapshot_has_key(cs.drop_last(), k) || c.funding_txid == k)) by {
            lemma_snapshot_key_unsnoc(cs, k);
        }
        assert forall|i: int|
            0 <= i < rows.len() && !snapshot_has_key(cs, rows[i].funding_txid) implies res[i]
            == rows[i] by {
            assert(prev[i] == rows[i]);
            assert(prev[i].funding_txid != c.funding_txid);
        }
        assert forall|i: int|
            rows.len() <= i < res.len() implies snapshot_has_key(cs, res[i].funding_txid) by {
            if i < prev.len() {
                assert(res[i].funding_txid == prev[i].funding_txid);
                assert(snapshot_has_key(cs.drop_last(), prev[i].funding_txid));
            } else {
                assert(res[i] == new_row(c, now));
            }
        }
    }
}

/// After upserting a snapshot with pairwise distinct keys, every row whose
/// key the snapshot holds is reconciled with that key's channel.
pub proof fn lemma_upsert_all_reconciled(rows: Seq<RowModel>, cs: Seq<ChannelModel>, now: u64)
    requires
        wf(rows),
        unique_keys(cs),
    ensures
        forall|j: int, i: int|
            0 <= j < cs.len() && 0 <= i < spec_upsert_all(rows, cs, now).len()
                && spec_upsert_all(rows, cs, now)[i].funding_txid == cs[j].funding_txid
                ==> #[trigger] reconciled(spec_upsert_all(rows, cs, now)[i], cs[j]),
    decreases cs.len(),
{
    if cs.len() > 0 {
        let prev = spec_upsert_all(rows, cs.drop_last(), now);
        let c = cs.last();
        let res = spec_upsert(prev, c, now);
        assert(unique_keys(cs.drop_last()));
        lemma_upsert_all_props(rows, cs.drop_last(), now);
        lemma_upsert_all_reconciled(rows, cs.drop_last(), now);
        lemma_upsert_props(prev, c, now);
        assert forall|j: int, i: int|
            0 <= j < cs.len() && 0 <= i < res.len() && res[i].funding_txid == cs[j].funding_txid
            implies #[trigger] reconciled(res[i], cs[j]) by {
            if j < cs.len() - 1 {
                assert(cs.drop_last()[j] == cs[j]);
                assert(cs[j].funding_txid != c.funding_txid);
                if i < prev.len() {
                    assert(prev[i].funding_txid == res[i].funding_txid);
                    assert(res[i] == prev[i]);
                    assert(reconciled(prev[i], cs.drop_last()[j]));
                } else {
                    assert(res[i] == new_row(c, now));
                    assert(false);
                }
            }
        }
    }
}

/// Upserting a snapshot whose keys are all fresh appends one new row per
/// channel, in snapshot order, after the stored rows.
pub proof fn lemma_upsert_all_fresh(rows: Seq<RowModel>, cs: Seq<ChannelModel>, now: u64)
    requires
        wf(rows),
        unique_keys(cs),
        forall|j: int| 0 <= j < cs.len() ==> !has_key(rows, #[trigger] cs[j].funding_txid),
    ensures
        spec_upsert_all(rows, cs, now).len() == rows.len() + cs.len(),
        forall|j: int|
            0 <= j < cs.len() ==> spec_upsert_all(rows, cs, now)[rows.len() + j] == new_row(
                #[trigger] cs[j],
                now,
            ),
    decreases cs.len(),
{
    if cs.len() > 0 {
        let prev = spec_upsert_all(rows, cs.drop_last(), now);
        let c = cs.last();
        let res = spec_upsert(prev, c, now);
        assert(unique_keys(cs.drop_last()));
        assert forall|j: int|
            0 <= j < cs.drop_last().len() implies !has_key(
            rows,
            #[trigger] cs.drop_last()[j].funding_txid,
        ) by {
            assert(cs.drop_last()[j] == cs[j]);
        }
        lemma_upsert_all_props(rows, cs.drop_last(), now);
        lemma_upsert_all_fresh(rows, cs.drop_last(), now);
        lemma_upsert_props(prev, c, now);
        assert(!has_key(prev, c.funding_txid)) by {
            if has_key(prev, c.funding_txid) {
                lemma_snapshot_key_unsnoc(cs, c.funding_txid);
                if snapshot_has_key(cs.drop_last(), c.funding_txid) {
                    let j = choose|j: int|
                        0 <= j < cs.drop_last().len() && cs.drop_last()[j].funding_txid
                            == c.funding_txid;
                    assert(cs[j].funding_txid == cs[cs.len() - 1].funding_txid);
                    assert(false);
                }
            }
        }
        assert forall|j: int|
            0 <= j < cs.len() implies res[rows.len() + j] == new_row(#[trigger] cs[j], now) by {
            if j < cs.len() - 1 {
                assert(prev[rows.len() + j] == new_row(cs.drop_last()[j], now));
                assert(res[rows.len() + j] == prev[rows.len() + j]);
                assert(cs.drop_last()[j] == cs[j]);
            } else {
                assert(res[prev.len() as int] == new_row(c, now));
            }
        }
    }
}

/// Upserting a snapshot into a table that already reconciles every channel
/// of it, and stores every one of its keys, changes nothing.
pub proof fn lemma_upsert_all_noop(rows: Seq<RowModel>, cs: Seq<ChannelModel>, now: u64)
    requires
        wf(rows),
        forall|j: int, i: int|
            0 <= j < cs.len() && 0 <= i < rows.len() && rows[i].funding_txid
                == cs[j].funding_txid ==> #[trigger] reconciled(rows[i], cs[j]),
        forall|j: int| 0 <= j < cs.len() ==> has_key(rows, #[trigger] cs[j].funding_txid),
    ensures
        spec_upsert_all(rows, cs, now) == rows,
    decreases cs.len(),
{
    if cs.len() > 0 {
        let c = cs.last();
        assert forall|j: int|
            0 <= j < cs.drop_last().len() implies has_key(
            rows,
            #[trigger] cs.drop_last()[j].funding_txid,
        ) by {
            assert(cs.drop_last()[j] == cs[j]);
        }
        assert forall|j: int, i: int|
            0 <= j < cs.drop_last().len() && 0 <= i < rows.len() && rows[i].funding_txid
                == cs.drop_last()[j].funding_txid implies #[trigger] reconciled(
            rows[i],
            cs.drop_last()[j],
        ) by {
            assert(cs.drop_last()[j] == cs[j]);
        }
        lemma_upsert_all_noop(rows, cs.drop_last(), now);
        assert(has_key(rows, c.funding_txid));
        assert(spec_upsert(rows, c, now) =~= rows) by {
            assert forall|i: int|
                0 <= i < rows.len() implies (if rows[i].funding_txid == c.funding_txid {
                row_after_upsert(rows[i], c, now)
            } else {
                rows[i]
            }) == rows[i] by {
                if rows[i].funding_txid == c.funding_txid {
                    assert(reconciled(rows[i], cs[cs.len() - 1]));
                    lemma_reconciled_upsert_noop(rows[i], c, now);
                }
            }
        }
    }
}

/// Closure sweep: a reconciliation pass closes every stored row whose
/// funding transaction the snapshot omits. Such a row keeps its index and
/// every other field, its state becomes `Closed`, and its closure timestamp
/// is written at the pass's time only if it was still unset — an
/// already-set timestamp is left untouched.
pub proof fn lemma_sync_closes_absent(rows: Seq<RowModel>, cs: Seq<ChannelModel>, now: u64)
    requires
        wf(rows),
    ensures
        rows.len() <= spec_sync(rows, cs, now).len(),
        forall|i: int|
            0 <= i < rows.len() && !snapshot_has_key(cs, rows[i].funding_txid) ==> spec_sync(
                rows,
                cs,
                now,
            )[i] == close_row(rows[i], now),
        forall|i: int|
            0 <= i < rows.len() && !snapshot_has_key(cs, rows[i].funding_txid) ==> spec_sync(
                rows,
                cs,
                now,
            )[i].state == state_name(ChannelState::Closed) && spec_sync(
                rows,
                cs,
                now,
            )[i].closed_at == (if rows[i].closed_at is None {
                Some(now)
            } else {
                rows[i].closed_at
            }),
{
    let mid = spec_upsert_all(rows, cs, now);
    lemma_upsert_all_props(rows, cs, now);
    lemma_sweep_props(mid, cs, now);
}

/// Write-once closure timestamp: once a stored row carries a closure
/// timestamp, no reconciliation pass changes it, whatever the snapshot
/// holds and whenever the pass runs.
pub proof fn lemma_sync_write_once(rows: Seq<RowModel>, cs: Seq<ChannelModel>, now: u64)
    requires
        wf(rows),
    ensures
        forall|i: int|
            0 <= i < rows.len() && rows[i].closed_at is Some ==> spec_sync(
                rows,
                cs,
                now,
            )[i].funding_txid == rows[i].funding_txid && spec_sync(rows, cs, now)[i].closed_at
                == rows[i].closed_at,
{
    let mid = spec_upsert_all(rows, cs, now);
    lemma_upsert_all_props(rows, cs, now);
    lemma_sweep_props(mid, cs, now);
}

/// Dedup: a reconciliation pass keeps the table keyed — it never produces
/// two rows of one funding transaction — and the keys stored afterwards are
/// exactly the keys stored before plus the snapshot's. Reading the table
/// back yields one channel per stored row, so its length is the number of
/// distinct funding transactions ever observed.
pub proof fn lemma_sync_dedup(rows: Seq<RowModel>, cs: Seq<ChannelModel>, now: u64)
    requires
        wf(rows),
    ensures
        wf(spec_sync(rows, cs, now)),
        forall|k: Seq<char>|
            #[trigger] has_key(spec_sync(rows, cs, now), k) <==> has_key(rows, k)
                || snapshot_has_key(cs, k),
        spec_list(spec_sync(rows, cs, now)).len() == spec_sync(rows, cs, now).len(),
        stored_keys(spec_sync(rows, cs, now)).to_set() == stored_keys(rows).to_set().union(
            snapshot_keys(cs),
        ),
        spec_sync(rows, cs, now).len() == stored_keys(spec_sync(rows, cs, now)).to_set().len(),
{
    let mid = spec_upsert_all(rows, cs, now);
    let res = spec_sync(rows, cs, now);
    lemma_upsert_all_props(rows, cs, now);
    lemma_sweep_props(mid, cs, now);
    assert forall|k: Seq<char>| #[trigger]
        has_key(res, k) implies has_key(rows, k) || snapshot_has_key(cs, k) by {
        let i = choose|i: int| 0 <= i < res.len() && res[i].funding_txid == k;
        assert(mid[i].funding_txid == k);
        assert(has_key(mid, k));
    }
    assert forall|k: Seq<char>| has_key(rows, k) || snapshot_has_key(cs, k) implies #[trigger]
        has_key(res, k) by {
        assert(has_key(mid, k));
        let i = choose|i: int| 0 <= i < mid.len() && mid[i].funding_txid == k;
        assert(res[i].funding_txid == k);
    }
    // a key sequence without duplicates counts the distinct keys exactly
    assert forall|k: Seq<char>| #[trigger]
        stored_keys(res).contains(k) implies has_key(res, k) by {
        let i = choose|i: int| 0 <= i < stored_keys(res).len() && stored_keys(res)[i] == k;
        assert(res[i].funding_txid == k);
    }
    assert forall|k: Seq<char>| #[trigger]
        stored_keys(rows).contains(k) implies has_key(rows, k) by {
        let i = choose|i: int| 0 <= i < stored_keys(rows).len() && stored_keys(rows)[i] == k;
        assert(rows[i].funding_txid == k);
    }
    assert forall|k: Seq<char>| #[trigger] snapshot_keys(cs).contains(k) implies snapshot_has_key(
        cs,
        k,
    ) by {
        let keys = cs.map_values(|c: ChannelModel| c.funding_txid);
        let i = choose|i: int| 0 <= i < keys.len() && keys[i] == k;
        assert(cs[i].funding_txid == k);
    }
    assert forall|k: Seq<char>| #[trigger] has_key(res, k) implies stored_keys(res).contains(
        k,
    ) by {
        let i = choose|i: int| 0 <= i < res.len() && res[i].funding_txid == k;
        assert(stored_keys(res)[i] == k);
    }
    assert forall|k: Seq<char>| #[trigger] has_key(rows, k) implies stored_keys(rows).contains(
        k,
    ) by {
        let i = choose|i: int| 0 <= i < rows.len() && rows[i].funding_txid == k;
        assert(stored_keys(rows)[i] == k);
    }
    assert forall|k: Seq<char>| #[trigger] snapshot_has_key(cs, k) implies snapshot_keys(
        cs,
    ).contains(k) by {
        let i = choose|i: int| 0 <= i < cs.len() && cs[i].funding_txid == k;
        let keys = cs.map_values(|c: ChannelModel| c.funding_txid);
        assert(keys[i] == k);
        assert(keys.contains(k));
    }
    broadcast use vstd::set::group_set_axioms;

    assert forall|k: Seq<char>|
        #[trigger] stored_keys(res).to_set().contains(k) <==> stored_keys(
            rows,
        ).to_set().union(snapshot_keys(cs)).contains(k) by {
        assert(stored_keys(res).to_set().contains(k) == stored_keys(res).contains(k));
        assert(stored_keys(rows).to_set().contains(k) == stored_keys(rows).contains(k));
        assert(stored_keys(rows).to_set().union(snapshot_keys(cs)).contains(k) == (stored_keys(
            rows,
        ).to_set().contains(k) || snapshot_keys(cs).contains(k)));
        if stored_keys(res).contains(k) {
            assert(has_key(res, k));
            assert(stored_keys(rows).contains(k) || snapshot_keys(cs).contains(k));
        }
        if stored_keys(rows).contains(k) || snapshot_keys(cs).contains(k) {
            assert(has_key(rows, k) || snapshot_has_key(cs, k));
            assert(has_key(res, k));
            assert(stored_keys(res).contains(k));
        }
    }
    assert(stored_keys(res).to_set() =~= stored_keys(rows).to_set().union(snapshot_keys(cs)));
    assert(stored_keys(res).no_duplicates()) by {
        assert forall|i: int, j: int|
            0 <= i < stored_keys(res).len() && 0 <= j < stored_keys(res).len() && i
                != j implies stored_keys(res)[i] != stored_keys(res)[j] by {
            assert(stored_keys(res)[i] == res[i].funding_txid);
            assert(stored_keys(res)[j] == res[j].funding_txid);
        }
    }
    stored_keys(res).unique_seq_to_set();
}

/// Idempotency: reconciling the same snapshot twice leaves exactly the
/// table the first pass produced, whenever the two passes run — in
/// particular, a row closed by the first pass keeps its first closure
/// timestamp instead of being stamped again.
pub proof fn lemma_sync_idempotent(rows: Seq<RowModel>, cs: Seq<ChannelModel>, t1: u64, t2: u64)
    requires
        wf(rows),
        unique_keys(cs),
    ensures
        spec_sync(spec_sync(rows, cs, t1), cs, t2) == spec_sync(rows, cs, t1),
{
    let mid = spec_upsert_all(rows, cs, t1);
    let r1 = spec_sync(rows, cs, t1);
    lemma_upsert_all_props(rows, cs, t1);
    lemma_upsert_all_reconciled(rows, cs, t1);
    lemma_sweep_props(mid, cs, t1);
    // every channel of the snapshot keeps a reconciled row in the result
    assert forall|j: int, i: int|
        0 <= j < cs.len() && 0 <= i < r1.len() && r1[i].funding_txid == cs[j].funding_txid
        implies #[trigger] reconciled(r1[i], cs[j]) by {
        assert(mid[i].funding_txid == r1[i].funding_txid);
        assert(snapshot_has_key(cs, mid[i].funding_txid));
        assert(r1[i] == mid[i]);
        assert(reconciled(mid[i], cs[j]));
    }
    assert forall|j: int| 0 <= j < cs.len() implies has_key(r1, #[trigger] cs[j].funding_txid) by {
        assert(has_key(mid, cs[j].funding_txid));
        let i = choose|i: int| 0 <= i < mid.len() && mid[i].funding_txid == cs[j].funding_txid;
        assert(r1[i].funding_txid == cs[j].funding_txid);
    }
    lemma_upsert_all_noop(r1, cs, t2);
    // the second sweep finds every absent row already closed
    assert(spec_sweep(r1, cs, t2) =~= r1) by {
        assert forall|i: int|
            0 <= i < r1.len() implies (if snapshot_has_key(cs, r1[i].funding_txid) {
            r1[i]
        } else {
            close_row(r1[i], t2)
        }) == r1[i] by {
            assert(r1[i].funding_txid == mid[i].funding_txid);
            if !snapshot_has_key(cs, r1[i].funding_txid) {
                assert(r1[i] == close_row(mid[i], t1));
                assert(close_row(r1[i], t2) =~= r1[i]);
            }
        }
    }
}

/// Insert round trip: reconciling a snapshot of channels none of which is
/// stored yet appends one row per channel, in snapshot order, and reading
/// the table back yields each channel's funding transaction, short channel
/// id, state and balances unchanged, with a closure timestamp exactly when
/// the channel arrived already closing.
pub proof fn lemma_sync_round_trip(rows: Seq<RowModel>, cs: Seq<ChannelModel>, now: u64)
    requires
        wf(rows),
        unique_keys(cs),
        forall|j: int| 0 <= j < cs.len() ==> !has_key(rows, #[trigger] cs[j].funding_txid),
    ensures
        spec_sync(rows, cs, now).len() == rows.len() + cs.len(),
        forall|j: int|
            0 <= j < cs.len() ==> spec_list(spec_sync(rows, cs, now))[rows.len() + j] == (
            ChannelModel {
                funding_txid: #[trigger] cs[j].funding_txid,
                short_channel_id: cs[j].short_channel_id,
                state: cs[j].state,
                spendable_msat: cs[j].spendable_msat,
                receivable_msat: cs[j].receivable_msat,
                closed_at: if is_closing(cs[j].state) {
                    Some(now)
                } else {
                    None
                },
            }),
{
    let mid = spec_upsert_all(rows, cs, now);
    let res = spec_sync(rows, cs, now);
    lemma_upsert_all_fresh(rows, cs, now);
    lemma_sweep_props(mid, cs, now);
    assert forall|j: int|
        0 <= j < cs.len() implies spec_list(res)[rows.len() + j] == (ChannelModel {
        funding_txid: #[trigger] cs[j].funding_txid,
        short_channel_id: cs[j].short_channel_id,
        state: cs[j].state,
        spendable_msat: cs[j].spendable_msat,
        receivable_msat: cs[j].receivable_msat,
        closed_at: if is_closing(cs[j].state) {
            Some(now)
        } else {
            None
        },
    }) by {
        let i = rows.len() + j;
        assert(mid[i] == new_row(cs[j], now));
        assert(snapshot_has_key(cs, mid[i].funding_txid));
        assert(res[i] == new_row(cs[j], now));
        lemma_state_round_trip(cs[j].state);
        assert(spec_list(res)[i].state == cs[j].state);
    }
}

} // verus!
