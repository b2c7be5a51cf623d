//! The channel table and its reconciliation pass.

use vstd::prelude::*;

use crate::channel::Channel;
use crate::channel::ChannelModel;
use crate::channel::ChannelState;
use crate::channel::is_closing;
use crate::channel::is_closing_state;
use crate::channel::parse_state;
use crate::channel::state_from_str;
use crate::channel::state_name;
use crate::channel::state_to_string;

verus! {

/// The mathematical value of one stored row. The `state` column is kept in
/// its serialized spelling, exactly as it sits in the store.
#[verifier::ext_equal]
pub ghost struct RowModel {
    pub funding_txid: Seq<char>,
    pub short_channel_id: Seq<char>,
    pub state: Seq<char>,
    pub spendable_msat: u64,
    pub receivable_msat: u64,
    pub closed_at: Option<u64>,
}

/// Rows are keyed by funding transaction: no two rows share one.
pub open spec fn wf(rows: Seq<RowModel>) -> bool {
    forall|i: int, j: int|
        0 <= i < j < rows.len() ==> rows[i].funding_txid != rows[j].funding_txid
}

/// Whether some stored row carries the given key.
pub open spec fn has_key(rows: Seq<RowModel>, key: Seq<char>) -> bool {
    exists|i: int| 0 <= i < rows.len() && rows[i].funding_txid == key
}

/// Whether some channel of the snapshot carries the given key.
pub open spec fn snapshot_has_key(cs: Seq<ChannelModel>, key: Seq<char>) -> bool {
    exists|i: int| 0 <= i < cs.len() && cs[i].funding_txid == key
}

/// No two channels of the snapshot share a funding transaction.
pub open spec fn unique_keys(cs: Seq<ChannelModel>) -> bool {
    forall|i: int, j: int| 0 <= i < j < cs.len() ==> cs[i].funding_txid != cs[j].funding_txid
}

/// Every channel of the snapshot names its funding transaction.
pub open spec fn nonempty_keys(cs: Seq<ChannelModel>) -> bool {
    forall|i: int| 0 <= i < cs.len() ==> cs[i].funding_txid.len() > 0
}

/// The values of a snapshot slice.
pub open spec fn snapshot_view(channels: Seq<Channel>) -> Seq<ChannelModel> {
    Seq::new(channels.len(), |i: int| channels[i]@)
}

/// The funding transactions of the stored rows, in table order.
pub open spec fn stored_keys(rows: Seq<RowModel>) -> Seq<Seq<char>> {
    rows.map_values(|r: RowModel| r.funding_txid)
}

/// The set of funding transactions a snapshot mentions.
pub open spec fn snapshot_keys(cs: Seq<ChannelModel>) -> Set<Seq<char>> {
    cs.map_values(|c: ChannelModel| c.funding_txid).to_set()
}

/// The row created for a channel seen for the first time at time `now`: all
/// fields are taken from the channel, and a channel that arrives already
/// closing is timestamped at once.
pub open spec fn new_row(c: ChannelModel, now: u64) -> RowModel {
    RowModel {
        funding_txid: c.funding_txid,
        short_channel_id: c.short_channel_id,
        state: state_name(c.state),
        spendable_msat: c.spendable_msat,
        receivable_msat: c.receivable_msat,
        closed_at: if is_closing(c.state) { Some(now) } else { None },
    }
}

/// How an existing row changes when its channel reappears in a snapshot.
/// A still-open row whose channel starts closing is refreshed and receives
/// its first-closure timestamp; a row that closed earlier is refreshed but
/// keeps its timestamp; a still-open row whose channel stays open is left
/// untouched (fields are fresh at creation and at first closure).
pub open spec fn row_after_upsert(r: RowModel, c: ChannelModel, now: u64) -> RowModel {
    if r.closed_at is None && is_closing(c.state) {
        RowModel {
            funding_txid: r.funding_txid,
            short_channel_id: c.short_channel_id,
            state: state_name(c.state),
            spendable_msat: c.spendable_msat,
            receivable_msat: c.receivable_msat,
            closed_at: Some(now),
        }
    } else if r.closed_at is Some {
        RowModel {
            funding_txid: r.funding_txid,
            short_channel_id: c.short_channel_id,
            state: state_name(c.state),
            spendable_msat: c.spendable_msat,
            receivable_msat: c.receivable_msat,
            closed_at: r.closed_at,
        }
    } else {
        r
    }
}

/// How a row changes when the sweep closes it: the state becomes `Closed`,
/// the timestamp is written only if still unset, all other fields stay.
pub open spec fn close_row(r: RowModel, now: u64) -> RowModel {
    RowModel {
        funding_txid: r.funding_txid,
        short_channel_id: r.short_channel_id,
        state: state_name(ChannelState::Closed),
        spendable_msat: r.spendable_msat,
        receivable_msat: r.receivable_msat,
        closed_at: if r.closed_at is None { Some(now) } else { r.closed_at },
    }
}

/// The table after upserting one channel: every row with the channel's key
/// is reconciled in place, and a key never seen before appends a fresh row.
pub open spec fn spec_upsert(rows: Seq<RowModel>, c: ChannelModel, now: u64) -> Seq<RowModel> {
    if has_key(rows, c.funding_txid) {
        Seq::new(
            rows.len(),
            |i: int|
                if rows[i].funding_txid == c.funding_txid {
                    row_after_upsert(rows[i], c, now)
                } else {
                    rows[i]
                },
        )
    } else {
        rows.push(new_row(c, now))
    }
}

/// The table after upserting a whole snapshot, in order; on duplicate keys
/// the last occurrence wins.
pub open spec fn spec_upsert_all(rows: Seq<RowModel>, cs: Seq<ChannelModel>, now: u64) -> Seq<
    RowModel,
>
    decreases cs.len(),
{
    if cs.len() == 0 {
        rows
    } else {
        spec_upsert(spec_upsert_all(rows, cs.drop_last(), now), cs.last(), now)
    }
}

/// The table after the closing sweep: every row whose key is absent from the
/// snapshot is closed, every other row stays.
pub open spec fn spec_sweep(rows: Seq<RowModel>, cs: Seq<ChannelModel>, now: u64) -> Seq<
    RowModel,
> {
    Seq::new(
        rows.len(),
        |i: int|
            if snapshot_has_key(cs, rows[i].funding_txid) {
                rows[i]
            } else {
                close_row(rows[i], now)
            },
    )
}

/// One full reconciliation pass at time `now`: all upserts, then the sweep.
pub open spec fn spec_sync(rows: Seq<RowModel>, cs: Seq<ChannelModel>, now: u64) -> Seq<
    RowModel,
> {
    spec_sweep(spec_upsert_all(rows, cs, now), cs, now)
}

/// The state a stored spelling is read back as: an unparseable spelling is
/// repaired to `Closed` rather than failing the whole read.
pub open spec fn parse_or_closed(s: Seq<char>) -> ChannelState {
    match parse_state(s) {
        Some(st) => st,
        None => ChannelState::Closed,
    }
}

/// What reading the whole table returns: every row, in table order.
pub open spec fn spec_list(rows: Seq<RowModel>) -> Seq<ChannelModel> {
    Seq::new(
        rows.len(),
        |i: int|
            ChannelModel {
                funding_txid: rows[i].funding_txid,
                short_channel_id: rows[i].short_channel_id,
                state: parse_or_closed(rows[i].state),
                spendable_msat: rows[i].spendable_msat,
                receivable_msat: rows[i].receivable_msat,
                closed_at: rows[i].closed_at,
            },
    )
}

/// Why a call into the store failed.
#[derive(Clone, Copy, Debug, PartialEq, Eq, Structural)]
pub enum StoreError {
    /// The system clock could not provide a time at or after the Unix epoch,
    /// so no first-closure timestamp could be computed.
    ClockUnavailable,
}

/// Relies on std::time::SystemTime::now, read as whole seconds since the
/// Unix epoch via duration_since; yields None when the clock reads before
/// the epoch. The reading depends on the wall clock, so nothing is promised
/// of the value.
#[verifier::external_body]
fn current_unix_time() -> (r: Option<u64>) {
    match std::time::SystemTime::now().duration_since(std::time::UNIX_EPOCH) {
        Ok(d) => Some(d.as_secs()),
        Err(_) => None,
    }
}

/// One persisted row of the channel table.
struct StoredRow {
    funding_txid: String,
    short_channel_id: String,
    state: String,
    spendable_msat: u64,
    receivable_msat: u64,
    closed_at: Option<u64>,
}

impl View for StoredRow {
    type V = RowModel;

    closed spec fn view(&self) -> RowModel {
        RowModel {
            funding_txid: self.funding_txid@,
            short_channel_id: self.short_channel_id@,
            state: self.state@,
            spendable_msat: self.spendable_msat,
            receivable_msat: self.receivable_msat,
            closed_at: self.closed_at,
        }
    }
}

/// The channel table of the node's local store, keyed by funding
/// transaction. Rows are created by the first snapshot that mentions a key,
/// reconciled by every later snapshot, and never deleted.
pub struct SqliteStorage {
    rows: Vec<StoredRow>,
}

impl View for SqliteStorage {
    type V = Seq<RowModel>;

    closed spec fn view(&self) -> Seq<RowModel> {
        Seq::new(self.rows@.len(), |i: int| self.rows@[i]@)
    }
}

impl SqliteStorage {
    /// An empty channel table.
    pub fn new() -> (s: SqliteStorage)
        ensures
            s@ == Seq::<RowModel>::empty(),
            wf(s@),
    {
        let s = SqliteStorage { rows: Vec::new() };
        proof {
            assert(s@ =~= Seq::<RowModel>::empty());
        }
        s
    }

    /// The index of the row carrying the given key, if one exists.
    fn find_index(&self, key: &String) -> (r: Option<usize>)
        ensures
            match r {
                Some(i) => i < self@.len() && self@[i as int].funding_txid == key@,
                None => !has_key(self@, key@),
            },
    {
        let n = self.rows.len();
        let mut j: usize = 0;
        while j < n
            invariant
                n == self.rows@.len(),
                j <= n,
                forall|k: int| 0 <= k < j ==> self@[k].funding_txid != key@,
            decreases n - j,
        {
            if self.rows[j].funding_txid == *key {
                return Some(j);
            }
            j += 1;
        }
        None
    }

    /// Upserts one channel at time `now`: the verified core of
    /// `insert_or_update_channel`.
    pub fn upsert_at(&mut self, c: &Channel, now: u64)
        requires
            wf(old(self)@),
        ensures
            final(self)@ == spec_upsert(old(self)@, c@, now),
            wf(final(self)@),
    {
        match self.find_index(&c.funding_txid) {
            Some(i) => {
                let key = self.rows[i].funding_txid.clone();
                let closed_at = self.rows[i].closed_at;
                if closed_at.is_none() && is_closing_state(c.state) {
                    // first closure: refresh the fields and write the timestamp
                    self.rows[i] = StoredRow {
                        funding_txid: key,
                        short_channel_id: c.short_channel_id.clone(),
                        state: state_to_string(c.state),
                        spendable_msat: c.spendable_msat,
                        receivable_msat: c.receivable_msat,
                        closed_at: Some(now),
                    };
                } else if closed_at.is_some() {
                    // closed earlier: refresh the fields, keep the timestamp
                    self.rows[i] = StoredRow {
                        funding_txid: key,
                        short_channel_id: c.short_channel_id.clone(),
                        state: state_to_string(c.state),
                        spendable_msat: c.spendable_msat,
                        receivable_msat: c.receivable_msat,
                        closed_at,
                    };
                }
                // still open and staying open: the row is left untouched
                proof {
                    lemma_wf_at_most_one(old(self)@, c@.funding_txid, i as int);
                    assert(final(self)@ =~= spec_upsert(old(self)@, c@, now));
                }
            },
            None => {
                self.rows.push(
                    StoredRow {
                        funding_txid: c.funding_txid.clone(),
                        short_channel_id: c.short_channel_id.clone(),
                        state: state_to_string(c.state),
                        spendable_msat: c.spendable_msat,
                        receivable_msat: c.receivable_msat,
                        closed_at: if is_closing_state(c.state) { Some(now) } else { None },
                    },
                );
                proof {
                    assert(final(self)@ =~= spec_upsert(old(self)@, c@, now));
                    assert forall|i: int, j: int|
                        0 <= i < j < final(self)@.len() implies final(self)@[i].funding_txid
                        != final(self)@[j].funding_txid by {
                        if j == final(self)@.len() - 1 {
                            assert(!has_key(old(self)@, c@.funding_txid));
                        }
                    }
                }
            },
        }
    }

    /// Performs one full reconciliation pass at time `now`: the verified
    /// core of `update_channels`.
    pub fn sync_at(&mut self, channels: &[Channel], now: u64)
        requires
            wf(old(self)@),
        ensures
            final(self)@ == spec_sync(old(self)@, snapshot_view(channels@), now),
            wf(final(self)@),
    {
        let ghost cs = snapshot_view(channels@);
        let n = channels.len();
        let mut i: usize = 0;
        while i < n
            invariant
                wf(self@),
                n == channels@.len(),
                i <= n,
                cs == snapshot_view(channels@),
                self@ == spec_upsert_all(old(self)@, cs.take(i as int), now),
            decreases n - i,
        {
            self.upsert_at(&channels[i], now);
            proof {
                assert(cs.take(i + 1 as int).drop_last() =~= cs.take(i as int));
                assert(cs.take(i + 1 as int).last() == channels@[i as int]@);
            }
            i += 1;
        }
        proof {
            assert(cs.take(n as int) =~= cs);
        }
        self.close_absent(channels, now);
    }

    /// The closing sweep: transitions every stored row absent from the
    /// snapshot to the closed state, timestamping it only if still unset.
    fn close_absent(&mut self, channels: &[Channel], now: u64)
        requires
            wf(old(self)@),
        ensures
            final(self)@ == spec_sweep(old(self)@, snapshot_view(channels@), now),
            wf(final(self)@),
    {
        let ghost cs = snapshot_view(channels@);
        let n = self.rows.len();
        let mut i: usize = 0;
        while i < n
            invariant
                n == self.rows@.len(),
                n == old(self)@.len(),
                self@.len() == n,
                i <= n,
                cs == snapshot_view(channels@),
                forall|j: int| 0 <= j < i ==> self@[j] == spec_sweep(old(self)@, cs, now)[j],
                forall|j: int| i <= j < n ==> self@[j] == old(self)@[j],
            decreases n - i,
        {
            let ghost pre = self@;
            if !contains_key(channels, &self.rows[i].funding_txid) {
                let key = self.rows[i].funding_txid.clone();
                let short = self.rows[i].short_channel_id.clone();
                let spendable = self.rows[i].spendable_msat;
                let receivable = self.rows[i].receivable_msat;
                let closed_at = self.rows[i].closed_at;
                self.rows[i] = StoredRow {
                    funding_txid: key,
                    short_channel_id: short,
                    state: state_to_string(ChannelState::Closed),
                    spendable_msat: spendable,
                    receivable_msat: receivable,
                    closed_at: if closed_at.is_none() { Some(now) } else { closed_at },
                };
                proof {
                    assert(self@ =~= pre.update(i as int, close_row(pre[i as int], now)));
                }
            }
            proof {
                assert(self@[i as int] == spec_sweep(old(self)@, cs, now)[i as int]);
            }
            i += 1;
        }
        proof {
            assert(final(self)@ =~= spec_sweep(old(self)@, cs, now));
            assert forall|i: int, j: int|
                0 <= i < j < final(self)@.len() implies final(self)@[i].funding_txid
                != final(self)@[j].funding_txid by {
                assert(final(self)@[i].funding_txid == old(self)@[i].funding_txid);
                assert(final(self)@[j].funding_txid == old(self)@[j].funding_txid);
            }
        }
    }

    /// Reconciles the stored table against the snapshot: upserts every
    /// channel of the snapshot, then closes every stored row absent from it.
    /// The pass is timestamped with one clock reading; if the clock is
    /// unavailable the store is left untouched and the error is surfaced.
    pub fn update_channels(&mut self, channels: &[Channel]) -> (r: Result<(), StoreError>)
        requires
            wf(old(self)@),
            nonempty_keys(snapshot_view(channels@)),
        ensures
            wf(final(self)@),
            r is Ok ==> exists|now: u64|
                final(self)@ == #[trigger] spec_sync(old(self)@, snapshot_view(channels@), now),
            r is Err ==> final(self)@ == old(self)@ && r == Err::<(), StoreError>(
                StoreError::ClockUnavailable,
            ),
    {
        match current_unix_time() {
            Some(now) => {
                self.sync_at(channels, now);
                Ok(())
            },
            None => Err(StoreError::ClockUnavailable),
        }
    }

    /// Upserts a single channel, timestamped with one clock reading; if the
    /// clock is unavailable the store is left untouched and the error is
    /// surfaced.
    pub fn insert_or_update_channel(&mut self, c: Channel) -> (r: Result<(), StoreError>)
        requires
            wf(old(self)@),
            c@.funding_txid.len() > 0,
        ensures
            wf(final(self)@),
            r is Ok ==> exists|now: u64|
                final(self)@ == #[trigger] spec_upsert(old(self)@, c@, now),
            r is Err ==> final(self)@ == old(self)@ && r == Err::<(), StoreError>(
                StoreError::ClockUnavailable,
            ),
    {
        match current_unix_time() {
            Some(now) => {
                self.upsert_at(&c, now);
                Ok(())
            },
            None => Err(StoreError::ClockUnavailable),
        }
    }

    /// Returns every stored row, in table order. A row whose stored state
    /// spelling no longer parses is read back with state `Closed` rather
    /// than failing the call; the stored row itself is left unchanged.
    pub fn list_channels(&self) -> (r: Result<Vec<Channel>, StoreError>)
        ensures
            r matches Ok(v) && snapshot_view(v@) == spec_list(self@),
    {
        let n = self.rows.len();
        let mut out: Vec<Channel> = Vec::new();
        let mut i: usize = 0;
        while i < n
            invariant
                n == self.rows@.len(),
                i <= n,
                out@.len() == i,
                forall|j: int| 0 <= j < i ==> out@[j]@ == spec_list(self@)[j],
            decreases n - i,
        {
            let state = match state_from_str(&self.rows[i].state) {
                Some(st) => st,
                None => ChannelState::Closed,
            };
            out.push(
                Channel {
                    funding_txid: self.rows[i].funding_txid.clone(),
                    short_channel_id: self.rows[i].short_channel_id.clone(),
                    state,
                    spendable_msat: self.rows[i].spendable_msat,
                    receivable_msat: self.rows[i].receivable_msat,
                    closed_at: self.rows[i].closed_at,
                },
            );
            i += 1;
        }
        proof {
            assert(snapshot_view(out@) =~= spec_list(self@));
        }
        Ok(out)
    }
}

/// Whether some channel of the snapshot slice carries the given key.
fn contains_key(channels: &[Channel], key: &String) -> (b: bool)
    ensures
        b == snapshot_has_key(snapshot_view(channels@), key@),
{
    let n = channels.len();
    let mut j: usize = 0;
    while j < n
        invariant
            n == channels@.len(),
            j <= n,
            forall|k: int| 0 <= k < j ==> snapshot_view(channels@)[k].funding_txid != key@,
        decreases n - j,
    {
        if channels[j].funding_txid == *key {
            assert(snapshot_view(channels@)[j as int].funding_txid == key@);
            return true;
        }
        j += 1;
    }
    false
}

/// In a well-formed table, a key matches at most the one row found for it.
proof fn lemma_wf_at_most_one(rows: Seq<RowModel>, key: Seq<char>, i: int)
    requires
        wf(rows),
        0 <= i < rows.len(),
        rows[i].funding_txid == key,
    ensures
        forall|j: int| 0 <= j < rows.len() && j != i ==> rows[j].funding_txid != key,
{
}

} // verus!
