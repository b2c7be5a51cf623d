//! The channel entity, its lifecycle states, and the serialized spelling of
//! each state as it sits in the stored `state` column.

use vstd::prelude::*;

verus! {

/// Lifecycle state of a payment channel, as reported by the snapshot
/// provider. Transitions are driven purely by incoming snapshots; the store
/// validates no transition.
#[derive(Clone, Copy, Debug, PartialEq, Eq, Structural)]
pub enum ChannelState {
    Opened,
    PendingOpen,
    PendingClose,
    Closed,
}

/// The serialized spelling of each state. The exact spelling is part of the
/// persistence contract: changing it would break the parsing of rows written
/// earlier.
pub open spec fn state_name(s: ChannelState) -> Seq<char> {
    match s {
        ChannelState::Opened => "Opened"@,
        ChannelState::PendingOpen => "PendingOpen"@,
        ChannelState::PendingClose => "PendingClose"@,
        ChannelState::Closed => "Closed"@,
    }
}

/// Which state a stored text column denotes, if any.
pub open spec fn parse_state(s: Seq<char>) -> Option<ChannelState> {
    if s == "Opened"@ {
        Some(ChannelState::Opened)
    } else if s == "PendingOpen"@ {
        Some(ChannelState::PendingOpen)
    } else if s == "PendingClose"@ {
        Some(ChannelState::PendingClose)
    } else if s == "Closed"@ {
        Some(ChannelState::Closed)
    } else {
        None
    }
}

/// The states that trigger the first-closure timestamp.
pub open spec fn is_closing(s: ChannelState) -> bool {
    s == ChannelState::PendingClose || s == ChannelState::Closed
}

/// Runtime test for a closing state.
pub fn is_closing_state(s: ChannelState) -> (b: bool)
    ensures
        b == is_closing(s),
{
    s == ChannelState::PendingClose || s == ChannelState::Closed
}

/// Serializes a state into its stored spelling.
pub fn state_to_string(s: ChannelState) -> (r: String)
    ensures
        r@ == state_name(s),
{
    match s {
        ChannelState::Opened => "Opened".to_owned(),
        ChannelState::PendingOpen => "PendingOpen".to_owned(),
        ChannelState::PendingClose => "PendingClose".to_owned(),
        ChannelState::Closed => "Closed".to_owned(),
    }
}

/// Parses a stored spelling back into a state.
pub fn state_from_str(s: &String) -> (r: Option<ChannelState>)
    ensures
        r == parse_state(s@),
{
    if *s == "Opened".to_owned() {
        Some(ChannelState::Opened)
    } else if *s == "PendingOpen".to_owned() {
        Some(ChannelState::PendingOpen)
    } else if *s == "PendingClose".to_owned() {
        Some(ChannelState::PendingClose)
    } else if *s == "Closed".to_owned() {
        Some(ChannelState::Closed)
    } else {
        None
    }
}

/// The four stored spellings are pairwise distinct.
pub proof fn lemma_state_names_distinct()
    ensures
        "Opened"@ != "PendingOpen"@,
        "Opened"@ != "PendingClose"@,
        "Opened"@ != "Closed"@,
        "PendingOpen"@ != "PendingClose"@,
        "PendingOpen"@ != "Closed"@,
        "PendingClose"@ != "Closed"@,
{
    reveal_strlit("Opened");
    reveal_strlit("PendingOpen");
    reveal_strlit("PendingClose");
    reveal_strlit("Closed");
    assert("Opened"@.len() == 6);
    assert("PendingOpen"@.len() == 11);
    assert("PendingClose"@.len() == 12);
    assert("Closed"@.len() == 6);
    assert("Opened"@ != "Closed"@) by {
        assert("Opened"@[0] == 'O');
        assert("Closed"@[0] == 'C');
    }
}

/// Serialization round trip: parsing a state's stored spelling yields the
/// state back, so no state is ever repaired to a different one by reading.
pub proof fn lemma_state_round_trip(s: ChannelState)
    ensures
        parse_state(state_name(s)) == Some(s),
{
    lemma_state_names_distinct();
}

/// A payment channel as exchanged with callers: the snapshot provider hands
/// a list of these to `update_channels`, and `list_channels` returns the
/// stored rows in the same shape.
#[derive(Clone, Debug)]
pub struct Channel {
    /// Identifies the channel's on-chain funding transaction; the immutable
    /// primary key of the stored row.
    pub funding_txid: String,
    /// Short channel identifier; refreshed on every sync.
    pub short_channel_id: String,
    /// Lifecycle state; refreshed on every sync.
    pub state: ChannelState,
    /// Spendable balance in millisatoshi; refreshed on every sync.
    pub spendable_msat: u64,
    /// Receivable balance in millisatoshi; refreshed on every sync.
    pub receivable_msat: u64,
    /// Seconds since the Unix epoch of the channel's first closure, if any.
    /// Ignored on input; write-once in the store.
    pub closed_at: Option<u64>,
}

/// The mathematical value of a channel: its strings as character sequences.
#[verifier::ext_equal]
pub ghost struct ChannelModel {
    pub funding_txid: Seq<char>,
    pub short_channel_id: Seq<char>,
    pub state: ChannelState,
    pub spendable_msat: u64,
    pub receivable_msat: u64,
    pub closed_at: Option<u64>,
}

impl View for Channel {
    type V = ChannelModel;

    open spec fn view(&self) -> ChannelModel {
        ChannelModel {
            funding_txid: self.funding_txid@,
            short_channel_id: self.short_channel_id@,
            state: self.state,
            spendable_msat: self.spendable_msat,
            receivable_msat: self.receivable_msat,
            closed_at: self.closed_at,
        }
    }
}

impl PartialEq for Channel {
    fn eq(&self, other: &Channel) -> (r: bool) {
        self.funding_txid == other.funding_txid && self.short_channel_id == other.short_channel_id
            && self.state == other.state && self.spendable_msat == other.spendable_msat
            && self.receivable_msat == other.receivable_msat && self.closed_at == other.closed_at
    }
}

impl vstd::std_specs::cmp::PartialEqSpecImpl for Channel {
    open spec fn obeys_eq_spec() -> bool {
        true
    }

    open spec fn eq_spec(&self, other: &Channel) -> bool {
        self@ == other@
    }
}

} // verus!
