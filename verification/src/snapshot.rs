//! The state of an engine as plain values, to be stored and restored, and
//! when a new snapshot is due.
use vstd::prelude::*;
use crate::orders::OrderData;
use crate::sbe::side::Side;
use crate::types::{OrderId, Price, SequenceNumber, Timestamp};

verus! {

/// One price level of a book: its price, its side, and the data of its
/// orders in time priority.
#[derive(Debug, Clone)]
pub struct PriceLevelModel {
    pub price: Price,
    pub side: Side,
    pub orders: Vec<OrderData>,
}

/// When snapshots are taken and where they are stored.
#[derive(Debug, Clone)]
pub struct SnapshotConfig {
    /// A snapshot is due after this many commands.
    pub count_interval: u64,
    /// A snapshot is due once this much business time (in milliseconds)
    /// has passed since the last one; zero turns the time trigger off.
    pub time_interval_ms: u64,
    /// Path of a snapshot file, with `{seq}` and `{ts}` standing for the
    /// sequence number and time of the last command.
    pub path_template: String,
    /// Whether snapshot files are compressed.
    pub compress: bool,
}

/// Whether a snapshot is due after `commands` commands, at business time
/// `now`, the last snapshot having been taken at `last_snapshot_ts`.
pub open spec fn snapshot_due(c: SnapshotConfig, commands: u64, now: u64, last_snapshot_ts: u64) -> bool {
    let passed = if now >= last_snapshot_ts {
        now - last_snapshot_ts
    } else {
        0
    };
    commands >= c.count_interval || (c.time_interval_ms > 0 && passed >= c.time_interval_ms)
}

impl SnapshotConfig {
    /// Whether a snapshot is due after `commands` commands since the last
    /// one, at business time `now`, the last one having been taken at
    /// `last_snapshot_ts` (time never counts backwards).
    pub fn is_due(&self, commands: u64, now: u64, last_snapshot_ts: u64) -> (r: bool)
        ensures
            r == snapshot_due(*self, commands, now, last_snapshot_ts),
    {
        let time_passed = now.saturating_sub(last_snapshot_ts);
        commands >= self.count_interval || (self.time_interval_ms > 0 && time_passed >= self.time_interval_ms)
    }
}

impl Default for SnapshotConfig {
    fn default() -> (r: SnapshotConfig)
        ensures
            r.count_interval == 1_000_000,
            r.time_interval_ms == 600_000,
            r.path_template@ == "./snapshots/snapshot_{seq}.bin.zst"@,
            r.compress,
    {
        SnapshotConfig {
            count_interval: 1_000_000,
            time_interval_ms: 600_000,
            path_template: "./snapshots/snapshot_{seq}.bin.zst".to_owned(),
            compress: true,
        }
    }
}

/// The whole state of an engine: its counters, the levels of its book, and
/// its parked orders.
#[derive(Debug, Clone)]
pub struct SnapshotModel {
    pub last_sequence_number: SequenceNumber,
    pub last_timestamp: Timestamp,
    pub trade_id_seq: u64,
    pub ltp: Price,
    pub last_order_id: OrderId,
    /// Levels of the book.
    pub levels: Vec<PriceLevelModel>,
    /// Parked stop and take-profit orders.
    pub condition_orders: Vec<OrderData>,
}

impl Default for SnapshotModel {
    fn default() -> (r: SnapshotModel)
        ensures
            r.last_sequence_number.0 == 0,
            r.last_timestamp.0 == 0,
            r.trade_id_seq == 0,
            r.ltp.0 == 0,
            r.last_order_id.0 == 0,
            r.levels@.len() == 0,
            r.condition_orders@.len() == 0,
    {
        SnapshotModel {
            last_sequence_number: SequenceNumber(0),
            last_timestamp: Timestamp(0),
            trade_id_seq: 0,
            ltp: Price(0),
            last_order_id: OrderId(0),
            levels: Vec::new(),
            condition_orders: Vec::new(),
        }
    }
}

} // verus!
