//! The parameters of a chain: slot length, difficulty, limits and
//! time-outs, and the times derived from them.
use vstd::prelude::*;
use super::clock::now_secs;

verus! {

/// The parameters of a chain.
#[derive(Debug, Clone, Copy, PartialEq, Eq)]
pub struct BlockchainMetadata {
    pub query_slots: u64,
    pub slot_secs: u64,
    pub fork_resolution_slots: u64,
    pub block_size: u64,
    pub maximum_proposer_time: u64,
    pub mempool_reentrancy_secs: u64,
    pub transaction_expiry_secs: u64,
    pub difficulty: usize,
    pub proposer_wait_ms: u64,
}

/// The start of the slot that holds second `secs`.
pub open spec fn slot_start(secs: u64, slot_secs: u64) -> int
    recommends
        slot_secs > 0,
{
    (secs / slot_secs) * slot_secs
}

/// At second `now` the query window of `m` would reach back before the
/// epoch: the current slot starts less than `query_slots` slots after it.
pub open spec fn window_underflows(m: BlockchainMetadata, now: u64) -> bool {
    slot_start(now, m.slot_secs) < m.query_slots * m.slot_secs
}

/// The oldest slot start of the query window of `m` at second `now`.
pub open spec fn window_start(m: BlockchainMetadata, now: u64) -> u64 {
    (slot_start(now, m.slot_secs) - m.query_slots * m.slot_secs) as u64
}

/// Whether a transaction stamped `transaction_ts` has expired at second
/// `now`: its age from the start of the current slot exceeds the expiry
/// time.
pub open spec fn expired_at(m: BlockchainMetadata, now: u64, transaction_ts: u64) -> bool {
    slot_start(now, m.slot_secs) - transaction_ts > m.transaction_expiry_secs
}

impl BlockchainMetadata {
    /// The default parameters.
    pub open spec fn default_spec() -> BlockchainMetadata {
        BlockchainMetadata {
            query_slots: 4,
            slot_secs: 8,
            fork_resolution_slots: 8,
            block_size: 64,
            maximum_proposer_time: 2,
            mempool_reentrancy_secs: 2,
            transaction_expiry_secs: 32,
            difficulty: 8,
            proposer_wait_ms: 100,
        }
    }
}

impl Default for BlockchainMetadata {
    fn default() -> (r: Self)
        ensures
            r == BlockchainMetadata::default_spec(),
    {
        BlockchainMetadata {
            query_slots: 4,
            slot_secs: 8,
            fork_resolution_slots: 8,
            block_size: 64,
            maximum_proposer_time: 2,
            mempool_reentrancy_secs: 2,
            transaction_expiry_secs: 32,
            difficulty: 8,
            proposer_wait_ms: 100,
        }
    }
}

impl BlockchainMetadata {
    /// Parameters for a fast chain: short slots and a low difficulty.
    pub fn fast_chain() -> (r: Self)
        ensures
            r == (BlockchainMetadata {
                query_slots: 4,
                slot_secs: 2,
                fork_resolution_slots: 8,
                block_size: 128,
                maximum_proposer_time: 1,
                mempool_reentrancy_secs: 2,
                transaction_expiry_secs: 8,
                difficulty: 2,
                proposer_wait_ms: 100,
            }),
    {
        BlockchainMetadata {
            query_slots: 4,
            slot_secs: 2,
            fork_resolution_slots: 8,
            block_size: 128,
            maximum_proposer_time: 1,
            mempool_reentrancy_secs: 2,
            transaction_expiry_secs: 8,
            difficulty: 2,
            proposer_wait_ms: 100,
        }
    }

    /// The number of seconds in a slot.
    pub fn get_slot_secs(&self) -> (r: Result<u64, String>)
        ensures
            r == Ok::<u64, String>(self.slot_secs),
    {
        Ok(self.slot_secs)
    }

    /// The number of slots back that the chain is queried.
    pub fn get_query_slots_count(&self) -> (r: Result<u64, String>)
        ensures
            r == Ok::<u64, String>(self.query_slots),
    {
        Ok(self.query_slots)
    }

    /// The start of the slot that holds second `secs`.
    pub fn get_slot_start_time(&self, secs: u64) -> (r: Result<u64, String>)
        requires
            self.slot_secs > 0,
        ensures
            r matches Ok(t) && t == slot_start(secs, self.slot_secs),
    {
        let slot_secs: u64 = self.slot_secs;
        let slots: u64 = secs / slot_secs;
        assert(slots * slot_secs <= secs) by (nonlinear_arith)
            requires
                slots == secs / slot_secs,
                slot_secs > 0,
        ;
        Ok(slots * slot_secs)
    }

    /// The number of slots before forks are resolved.
    pub fn get_fork_resolution_slots(&self) -> (r: Result<u64, String>)
        ensures
            r == Ok::<u64, String>(self.fork_resolution_slots),
    {
        Ok(self.fork_resolution_slots)
    }

    /// The number of seconds before forks are resolved.
    pub fn get_fork_resolution_secs(&self) -> (r: Result<u64, String>)
        requires
            self.slot_secs * self.fork_resolution_slots <= u64::MAX,
        ensures
            r matches Ok(t) && t == self.slot_secs * self.fork_resolution_slots,
    {
        Ok(self.slot_secs * self.fork_resolution_slots)
    }

    /// The time at which a fork seen at second `secs` is resolved: the
    /// start of its slot plus the fork resolution time.
    pub fn get_fork_resolution_time(&self, secs: u64) -> (r: Result<u64, String>)
        requires
            self.slot_secs > 0,
            self.slot_secs * self.fork_resolution_slots <= u64::MAX,
            slot_start(secs, self.slot_secs) + self.slot_secs * self.fork_resolution_slots
                <= u64::MAX,
        ensures
            r matches Ok(t) && t == slot_start(secs, self.slot_secs) + self.slot_secs
                * self.fork_resolution_slots,
    {
        let start: u64 = match self.get_slot_start_time(secs) {
            Ok(t) => t,
            Err(e) => {
                return Err(e);
            },
        };
        let span: u64 = match self.get_fork_resolution_secs() {
            Ok(t) => t,
            Err(e) => {
                return Err(e);
            },
        };
        Ok(start + span)
    }

    /// The oldest slot start to query at second `now`: the start of the
    /// current slot less `query_slots` slots. An error when that lies
    /// before the epoch.
    pub fn query_slot_lower_bound_at(&self, now: u64) -> (r: Result<u64, String>)
        requires
            self.slot_secs > 0,
            self.query_slots * self.slot_secs <= u64::MAX,
        ensures
            r is Ok <==> self.query_slots * self.slot_secs <= slot_start(now, self.slot_secs),
            r matches Ok(t) ==> t == slot_start(now, self.slot_secs) - self.query_slots
                * self.slot_secs,
    {
        let span: u64 = self.query_slots * self.slot_secs;
        let start: u64 = match self.get_slot_start_time(now) {
            Ok(t) => t,
            Err(e) => {
                return Err(e);
            },
        };
        if start < span {
            return Err("query window reaches back before the epoch".to_owned());
        }
        Ok(start - span)
    }

    /// The oldest slot start to query now; see
    /// [`BlockchainMetadata::query_slot_lower_bound_at`].
    pub fn get_query_slot_lower_bound(&self) -> (r: Result<u64, String>)
        requires
            self.slot_secs > 0,
            self.query_slots * self.slot_secs <= u64::MAX,
        ensures
            exists|now: u64|
                #![trigger window_underflows(*self, now)]
                (r is Err <==> window_underflows(*self, now)) && (r matches Ok(t) ==> t
                    == window_start(*self, now)),
            self.query_slots * self.slot_secs == 0 ==> r is Ok,
    {
        let now: u64 = now_secs();
        let r: Result<u64, String> = self.query_slot_lower_bound_at(now);
        assert((r is Err <==> window_underflows(*self, now)) && (r matches Ok(t) ==> t == window_start(
            *self,
            now,
        )));
        r
    }

    /// The maximum number of transactions in a block.
    pub fn get_block_size(&self) -> (r: Result<u64, String>)
        ensures
            r == Ok::<u64, String>(self.block_size),
    {
        Ok(self.block_size)
    }

    /// The maximum time a proposer spends building a block.
    pub fn get_maximum_proposer_time(&self) -> (r: Result<u64, String>)
        ensures
            r == Ok::<u64, String>(self.maximum_proposer_time),
    {
        Ok(self.maximum_proposer_time)
    }

    /// How long a transaction stays in flight before it is queued again.
    pub fn get_mempool_reentrancy_secs(&self) -> (r: Result<u64, String>)
        ensures
            r == Ok::<u64, String>(self.mempool_reentrancy_secs),
    {
        Ok(self.mempool_reentrancy_secs)
    }

    /// How long a transaction lives in the network.
    pub fn get_transaction_expiry_secs(&self) -> (r: Result<u64, String>)
        ensures
            r == Ok::<u64, String>(self.transaction_expiry_secs),
    {
        Ok(self.transaction_expiry_secs)
    }

    /// Whether a transaction stamped `transaction_ts` has expired at second
    /// `now`: its age, counted from the start of the current slot, exceeds
    /// the expiry time. A transaction stamped at or after that start has not
    /// expired.
    pub fn transaction_expired_at(&self, now: u64, transaction_ts: u64) -> (r: Result<bool, String>)
        requires
            self.slot_secs > 0,
        ensures
            r == Ok::<bool, String>(expired_at(*self, now, transaction_ts)),
    {
        let start: u64 = match self.get_slot_start_time(now) {
            Ok(t) => t,
            Err(e) => {
                return Err(e);
            },
        };
        if start <= transaction_ts {
            return Ok(false);
        }
        let age: u64 = start - transaction_ts;
        Ok(age > self.transaction_expiry_secs)
    }

    /// Whether a transaction has expired now; see
    /// [`BlockchainMetadata::transaction_expired_at`].
    pub fn has_transaction_expired(&self, transaction_ts: u64) -> (r: Result<bool, String>)
        requires
            self.slot_secs > 0,
        ensures
            r is Ok,
            exists|now: u64| r == Ok::<bool, String>(#[trigger] expired_at(*self, now, transaction_ts)),
    {
        let now: u64 = now_secs();
        let r: Result<bool, String> = self.transaction_expired_at(now, transaction_ts);
        assert(r == Ok::<bool, String>(expired_at(*self, now, transaction_ts)));
        r
    }

    /// The difficulty of mining.
    pub fn get_difficulty(&self) -> (r: Result<usize, String>)
        ensures
            r == Ok::<usize, String>(self.difficulty),
    {
        Ok(self.difficulty)
    }

    /// How long a proposer waits after finding the pool empty.
    pub fn get_proposer_wait_ms(&self) -> (r: Result<u64, String>)
        ensures
            r == Ok::<u64, String>(self.proposer_wait_ms),
    {
        Ok(self.proposer_wait_ms)
    }
}

} // verus!
