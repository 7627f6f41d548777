//! The transaction pool: a queue of waiting transactions and the set of
//! transactions handed out for inclusion in a block (in flight).
use vstd::prelude::*;
use std::sync::Arc;
use super::block::{Transaction, TransactionModel};
use super::chain::{Blockchain, ChainModel, chain_has_transaction, holding_at, txn_models};
use super::metadata::{BlockchainMetadata, expired_at, window_start, window_underflows};
use super::txset::{TransactionSet, is_strictly_sorted};

verus! {

/// The transaction pool.
#[derive(Debug)]
pub struct Mempool {
    pub queue: Vec<Transaction>,
    pub in_flight: TransactionSet,
    pub blockchain: Arc<Blockchain>,
    pub blockchain_metadata: Arc<BlockchainMetadata>,
}

/// A transaction may enter the pool (and leave it for a block) when it is
/// not in flight and no block of the query window holds it.
pub open spec fn acceptable(in_flight: Seq<TransactionModel>, chain_holds: bool, t: TransactionModel) -> bool {
    !in_flight.contains(t) && !chain_holds
}

/// The answer to whether `t` may enter the pool, given at second `now`:
/// an error exactly when `t` is not in flight and the query window at
/// `now` reaches back before the epoch; otherwise whether `t` is acceptable
/// against that window.
pub open spec fn acceptance_at(
    in_flight: Seq<TransactionModel>,
    chain: ChainModel,
    m: BlockchainMetadata,
    t: TransactionModel,
    now: u64,
    r: Result<bool, String>,
) -> bool {
    &&& (r is Err <==> !in_flight.contains(t) && window_underflows(m, now))
    &&& (r matches Ok(b) ==> b == acceptable(in_flight, chain_has_transaction(chain, t, window_start(m, now)), t))
}

/// Offering `t` to the pool at second `now` took the queue from `before`
/// to `after`: an error, with the queue left alone, exactly when the test
/// of [`acceptance_at`] fails; otherwise `t` is queued when acceptable.
pub open spec fn push_outcome_at(
    in_flight: Seq<TransactionModel>,
    chain: ChainModel,
    m: BlockchainMetadata,
    t: TransactionModel,
    now: u64,
    before: Seq<TransactionModel>,
    after: Seq<TransactionModel>,
    r: Result<(), String>,
) -> bool {
    &&& (r is Err <==> !in_flight.contains(t) && window_underflows(m, now))
    &&& (r is Ok ==> after == if acceptable(
        in_flight,
        chain_has_transaction(chain, t, window_start(m, now)),
        t,
    ) {
        before.push(t)
    } else {
        before
    })
}

/// The abstract value of an optional transaction.
pub open spec fn opt_model(o: Option<Transaction>) -> Option<TransactionModel> {
    match o {
        Some(t) => Some(t@),
        None => None,
    }
}

/// The outcome of taking `t` off the queue: when it is acceptable it goes
/// in flight and comes out, otherwise it is dropped.
pub open spec fn pop_outcome(
    before: Seq<TransactionModel>,
    after: Seq<TransactionModel>,
    chain_holds: bool,
    t: TransactionModel,
    out: Option<TransactionModel>,
) -> bool {
    if acceptable(before, chain_holds, t) {
        out == Some(t) && after.to_set() == before.to_set().insert(t)
    } else {
        out is None && after == before
    }
}

/// A transaction handed out by a pop is not lost: it was acceptable, and
/// the tick that follows puts it back on the queue.
pub proof fn lemma_popped_transaction_returns_on_tick(
    in_flight: Seq<TransactionModel>,
    in_flight_after: Seq<TransactionModel>,
    chain_holds: bool,
    t: TransactionModel,
    queue_after_pop: Seq<TransactionModel>,
    queue_after_tick: Seq<TransactionModel>,
)
    requires
        pop_outcome(in_flight, in_flight_after, chain_holds, t, Some(t)),
        queue_after_tick == queue_after_pop + in_flight_after,
    ensures
        acceptable(in_flight, chain_holds, t),
        queue_after_tick.contains(t),
{
    assert(in_flight_after.to_set().contains(t));
    let k: int = choose|k: int| 0 <= k < in_flight_after.len() && in_flight_after[k] == t;
    assert(queue_after_tick[queue_after_pop.len() + k] == t);
}

/// Taking the first queued transaction `t` off the pool at second `now`
/// (`failed` tells whether the call failed, `out` what it handed out): it
/// fails, with the set in flight left alone, exactly when `t` is not in
/// flight and the query window at `now` reaches back before the epoch;
/// otherwise the outcome is [`pop_outcome`] against that window.
pub open spec fn pop_outcome_at(
    in_flight: Seq<TransactionModel>,
    in_flight_after: Seq<TransactionModel>,
    chain: ChainModel,
    m: BlockchainMetadata,
    t: TransactionModel,
    now: u64,
    failed: bool,
    out: Option<TransactionModel>,
) -> bool {
    &&& (failed <==> !in_flight.contains(t) && window_underflows(m, now))
    &&& (failed ==> in_flight_after == in_flight)
    &&& (!failed ==> pop_outcome(
        in_flight,
        in_flight_after,
        chain_has_transaction(chain, t, window_start(m, now)),
        t,
        out,
    ))
}

/// The transaction handed out by a call that may fail: nothing on failure.
pub open spec fn handed_out(r: Result<Option<Transaction>, String>) -> Option<TransactionModel> {
    match r {
        Ok(o) => opt_model(o),
        Err(_) => None,
    }
}

impl Mempool {
    /// The chain the pool consults can answer queries: its invariant holds
    /// and its parameters have a positive slot length and a query window
    /// that fits in 64 bits.
    pub open spec fn chain_ready(&self) -> bool {
        &&& self.blockchain.wf()
        &&& self.blockchain.metadata_spec().slot_secs > 0
        &&& self.blockchain.metadata_spec().query_slots * self.blockchain.metadata_spec().slot_secs
            <= u64::MAX
    }

    /// Appends a transaction to the queue.
    pub fn add_to_queue(&mut self, transaction: Transaction) -> (r: Result<(), String>)
        ensures
            r is Ok,
            txn_models(final(self).queue@) == txn_models(old(self).queue@).push(transaction@),
            final(self).in_flight@ == old(self).in_flight@,
            final(self).blockchain == old(self).blockchain,
            final(self).blockchain_metadata == old(self).blockchain_metadata,
    {
        let ghost before: Seq<TransactionModel> = txn_models(self.queue@);
        let ghost tm: TransactionModel = transaction@;
        self.queue.push(transaction);
        assert(txn_models(self.queue@) =~= before.push(tm));
        Ok(())
    }

    /// The first transaction of the queue.
    pub fn peek_from_queue(&self) -> (r: Result<Option<&Transaction>, String>)
        ensures
            r matches Ok(o) && match o {
                Some(t) => self.queue@.len() > 0 && t@ == self.queue@[0]@,
                None => self.queue@.len() == 0,
            },
    {
        if self.queue.len() == 0 {
            Ok(None)
        } else {
            Ok(Some(&self.queue[0]))
        }
    }

    /// Takes the first transaction off the queue, the one
    /// [`Mempool::peek_from_queue`] shows.
    pub fn pop_from_queue(&mut self) -> (r: Result<Option<Transaction>, String>)
        ensures
            r matches Ok(o) && match o {
                Some(t) => old(self).queue@.len() > 0 && t@ == old(self).queue@[0]@
                    && txn_models(final(self).queue@) == txn_models(old(self).queue@).drop_first(),
                None => old(self).queue@.len() == 0 && final(self).queue@ == old(self).queue@,
            },
            final(self).in_flight@ == old(self).in_flight@,
            final(self).blockchain == old(self).blockchain,
            final(self).blockchain_metadata == old(self).blockchain_metadata,
    {
        let ghost before: Seq<Transaction> = self.queue@;
        if self.queue.len() == 0 {
            return Ok(None);
        }
        let popped: Transaction = self.queue.remove(0);
        assert(txn_models(self.queue@) =~= txn_models(before).drop_first());
        Ok(Some(popped))
    }

    /// A copy of the first transaction in flight (in transaction order);
    /// the set is left as it is.
    pub fn pop_from_in_flight(&mut self) -> (r: Result<Option<Transaction>, String>)
        ensures
            r matches Ok(o) && match o {
                Some(t) => old(self).in_flight@.len() > 0 && t@ == old(self).in_flight@[0],
                None => old(self).in_flight@.len() == 0,
            },
            final(self).queue@ == old(self).queue@,
            final(self).in_flight@ == old(self).in_flight@,
            final(self).blockchain == old(self).blockchain,
            final(self).blockchain_metadata == old(self).blockchain_metadata,
    {
        if self.in_flight.len() == 0 {
            Ok(None)
        } else {
            Ok(Some(self.in_flight.get(0).clone()))
        }
    }

    /// Puts a transaction in flight.
    pub fn mark_in_flight(&mut self, transaction: Transaction) -> (r: Result<(), String>)
        ensures
            r is Ok,
            final(self).in_flight@.to_set() == old(self).in_flight@.to_set().insert(transaction@),
            is_strictly_sorted(final(self).in_flight@),
            final(self).queue@ == old(self).queue@,
            final(self).blockchain == old(self).blockchain,
            final(self).blockchain_metadata == old(self).blockchain_metadata,
    {
        self.in_flight.insert(transaction);
        Ok(())
    }

    /// Moves a transaction from flight back to the end of the queue; an
    /// error when it is not in flight.
    pub fn reenter(&mut self, transaction: Transaction) -> (r: Result<(), String>)
        ensures
            r is Ok <==> old(self).in_flight@.contains(transaction@),
            r matches Err(e) ==> e@ == "Transaction not in flight"@,
            r is Ok ==> final(self).in_flight@.to_set() == old(self).in_flight@.to_set().remove(
                transaction@,
            ) && final(self).in_flight@.len() == old(self).in_flight@.len() - 1 && txn_models(
                final(self).queue@,
            ) == txn_models(old(self).queue@).push(transaction@),
            r is Err ==> final(self).in_flight@ == old(self).in_flight@ && final(self).queue@
                == old(self).queue@,
            is_strictly_sorted(final(self).in_flight@),
            final(self).blockchain == old(self).blockchain,
            final(self).blockchain_metadata == old(self).blockchain_metadata,
    {
        // Counting the set in flight recalls that it is kept sorted.
        let _in_flight: usize = self.in_flight.len();
        if !self.in_flight.contains(&transaction) {
            return Err("Transaction not in flight".to_owned());
        }
        self.in_flight.remove(&transaction);
        self.add_to_queue(transaction)
    }

    /// Whether a transaction is in flight.
    pub fn is_in_flight(&self, transaction: &Transaction) -> (r: Result<bool, String>)
        ensures
            r matches Ok(b) && b == self.in_flight@.contains(transaction@),
    {
        Ok(self.in_flight.contains(transaction))
    }

    /// Whether the chain holds the transaction in a slot at or above
    /// `slot_lower_bound`.
    pub fn blockchain_has_transaction_since(&self, transaction: &Transaction, slot_lower_bound: u64) -> (r: bool)
        requires
            self.blockchain.wf(),
        ensures
            r == chain_has_transaction(self.blockchain@, transaction@, slot_lower_bound),
    {
        self.blockchain.has_transaction_since(transaction, slot_lower_bound)
    }

    /// Whether the chain holds the transaction in its query window that
    /// starts now.
    pub fn blockchain_has_transaction(&self, transaction: &Transaction) -> (r: Result<bool, String>)
        requires
            self.chain_ready(),
        ensures
            exists|now: u64|
                #[trigger] holding_at(self.blockchain@, self.blockchain.metadata_spec(), transaction@, now, r),
            self.blockchain.metadata_spec().query_slots * self.blockchain.metadata_spec().slot_secs == 0
                ==> r is Ok,
    {
        self.blockchain.has_transaction(transaction)
    }

    /// Whether a transaction has expired now; see
    /// [`BlockchainMetadata::has_transaction_expired`].
    pub fn transaction_has_expired(&self, transaction: &Transaction) -> (r: Result<bool, String>)
        requires
            self.blockchain_metadata.slot_secs > 0,
        ensures
            r is Ok,
            exists|now: u64| r == Ok::<bool, String>(#[trigger] expired_at(*self.blockchain_metadata, now, transaction.timestamp)),
    {
        self.blockchain_metadata.has_transaction_expired(transaction.timestamp)
    }

    /// Whether a transaction may enter the pool, judged against the query
    /// window from `slot_lower_bound`; see [`acceptable`].
    pub fn is_transaction_acceptable_since(&self, transaction: &Transaction, slot_lower_bound: u64) -> (r: bool)
        requires
            self.blockchain.wf(),
        ensures
            r == acceptable(
                self.in_flight@,
                chain_has_transaction(self.blockchain@, transaction@, slot_lower_bound),
                transaction@,
            ),
    {
        !self.in_flight.contains(transaction) && !self.blockchain_has_transaction_since(transaction, slot_lower_bound)
    }

    /// Whether a transaction may enter the pool now.
    pub fn is_transaction_acceptable(&self, transaction: &Transaction) -> (r: Result<bool, String>)
        requires
            self.chain_ready(),
        ensures
            exists|now: u64|
                #[trigger] acceptance_at(
                    self.in_flight@,
                    self.blockchain@,
                    self.blockchain.metadata_spec(),
                    transaction@,
                    now,
                    r,
                ),
            self.in_flight@.contains(transaction@) ==> r == Ok::<bool, String>(false),
            self.blockchain.metadata_spec().query_slots * self.blockchain.metadata_spec().slot_secs == 0
                ==> r is Ok,
    {
        let in_flight: bool = match self.is_in_flight(transaction) {
            Ok(b) => b,
            Err(e) => {
                return Err(e);
            },
        };
        if in_flight {
            let r: Result<bool, String> = Ok(false);
            proof {
                // Any time witnesses the answer: the transaction is in flight.
                assert(acceptance_at(
                    self.in_flight@,
                    self.blockchain@,
                    self.blockchain.metadata_spec(),
                    transaction@,
                    0,
                    r,
                ));
            }
            return r;
        }
        let held: Result<bool, String> = self.blockchain_has_transaction(transaction);
        let r: Result<bool, String> = match held {
            Ok(b) => Ok(!b),
            Err(e) => Err(e),
        };
        proof {
            let now: u64 = choose|now: u64|
                #[trigger] holding_at(self.blockchain@, self.blockchain.metadata_spec(), transaction@, now, held);
            assert(acceptance_at(
                self.in_flight@,
                self.blockchain@,
                self.blockchain.metadata_spec(),
                transaction@,
                now,
                r,
            ));
        }
        r
    }

    /// Whether a transaction may leave the pool now: the same test as for
    /// entering it.
    pub fn is_transaction_deliverable(&self, transaction: &Transaction) -> (r: Result<bool, String>)
        requires
            self.chain_ready(),
        ensures
            exists|now: u64|
                #[trigger] acceptance_at(
                    self.in_flight@,
                    self.blockchain@,
                    self.blockchain.metadata_spec(),
                    transaction@,
                    now,
                    r,
                ),
            self.in_flight@.contains(transaction@) ==> r == Ok::<bool, String>(false),
            self.blockchain.metadata_spec().query_slots * self.blockchain.metadata_spec().slot_secs == 0
                ==> r is Ok,
    {
        self.is_transaction_acceptable(transaction)
    }

    /// Queues a transaction when it is acceptable against the query window
    /// from `slot_lower_bound`; otherwise leaves the pool as it is.
    pub fn push_transaction_since(&mut self, transaction: Transaction, slot_lower_bound: u64)
        requires
            old(self).blockchain.wf(),
        ensures
            final(self).in_flight@ == old(self).in_flight@,
            final(self).blockchain == old(self).blockchain,
            final(self).blockchain_metadata == old(self).blockchain_metadata,
            txn_models(final(self).queue@) == if acceptable(
                old(self).in_flight@,
                chain_has_transaction(old(self).blockchain@, transaction@, slot_lower_bound),
                transaction@,
            ) {
                txn_models(old(self).queue@).push(transaction@)
            } else {
                txn_models(old(self).queue@)
            },
    {
        if self.is_transaction_acceptable_since(&transaction, slot_lower_bound) {
            let _ = self.add_to_queue(transaction);
        }
    }

    /// Queues a transaction when it is acceptable now; otherwise leaves the
    /// pool as it is.
    pub fn push_transaction(&mut self, transaction: Transaction) -> (r: Result<(), String>)
        requires
            old(self).chain_ready(),
        ensures
            final(self).in_flight@ == old(self).in_flight@,
            final(self).blockchain == old(self).blockchain,
            final(self).blockchain_metadata == old(self).blockchain_metadata,
            r is Err ==> final(self).queue@ == old(self).queue@,
            exists|now: u64|
                #[trigger] push_outcome_at(
                    old(self).in_flight@,
                    old(self).blockchain@,
                    old(self).blockchain.metadata_spec(),
                    transaction@,
                    now,
                    txn_models(old(self).queue@),
                    txn_models(final(self).queue@),
                    r,
                ),
            old(self).in_flight@.contains(transaction@) ==> r is Ok && final(self).queue@ == old(
                self,
            ).queue@,
            old(self).blockchain.metadata_spec().query_slots * old(self).blockchain.metadata_spec().slot_secs
                == 0 ==> r is Ok,
    {
        let answer: Result<bool, String> = self.is_transaction_acceptable(&transaction);
        let ghost now: u64 = choose|now: u64|
            #[trigger] acceptance_at(
                self.in_flight@,
                self.blockchain@,
                self.blockchain.metadata_spec(),
                transaction@,
                now,
                answer,
            );
        let ghost tm: TransactionModel = transaction@;
        let r: Result<(), String> = match answer {
            Ok(true) => self.add_to_queue(transaction),
            Ok(false) => Ok(()),
            Err(e) => Err(e),
        };
        proof {
            assert(push_outcome_at(
                old(self).in_flight@,
                old(self).blockchain@,
                old(self).blockchain.metadata_spec(),
                tm,
                now,
                txn_models(old(self).queue@),
                txn_models(self.queue@),
                r,
            ));
        }
        r
    }

    /// Takes the first queued transaction; when it is deliverable against
    /// the query window from `slot_lower_bound` it goes in flight and is
    /// returned, otherwise it is dropped and nothing is returned.
    pub fn pop_transaction_since(&mut self, slot_lower_bound: u64) -> (r: Option<Transaction>)
        requires
            old(self).blockchain.wf(),
        ensures
            final(self).blockchain == old(self).blockchain,
            final(self).blockchain_metadata == old(self).blockchain_metadata,
            old(self).queue@.len() == 0 ==> r is None && final(self).queue@ == old(self).queue@
                && final(self).in_flight@ == old(self).in_flight@,
            old(self).queue@.len() > 0 ==> txn_models(final(self).queue@) == txn_models(
                old(self).queue@,
            ).drop_first(),
            old(self).queue@.len() > 0 ==> pop_outcome(
                old(self).in_flight@,
                final(self).in_flight@,
                chain_has_transaction(old(self).blockchain@, old(self).queue@[0]@, slot_lower_bound),
                old(self).queue@[0]@,
                opt_model(r),
            ),
            is_strictly_sorted(final(self).in_flight@),
    {
        // Counting the set in flight recalls that it is kept sorted.
        let _in_flight: usize = self.in_flight.len();
        let popped: Option<Transaction> = match self.pop_from_queue() {
            Ok(o) => o,
            Err(_) => None,
        };
        match popped {
            Some(t) => {
                if self.is_transaction_acceptable_since(&t, slot_lower_bound) {
                    let kept: Transaction = t.clone();
                    let _ = self.mark_in_flight(t);
                    Some(kept)
                } else {
                    None
                }
            },
            None => None,
        }
    }

    /// Takes the first queued transaction; when it is deliverable now it
    /// goes in flight and is returned, otherwise it is dropped.
    pub fn pop_transaction(&mut self) -> (r: Result<Option<Transaction>, String>)
        requires
            old(self).chain_ready(),
        ensures
            final(self).blockchain == old(self).blockchain,
            final(self).blockchain_metadata == old(self).blockchain_metadata,
            old(self).queue@.len() == 0 ==> (r matches Ok(None) && final(self).queue@ == old(self).queue@
                && final(self).in_flight@ == old(self).in_flight@),
            old(self).queue@.len() > 0 ==> txn_models(final(self).queue@) == txn_models(
                old(self).queue@,
            ).drop_first(),
            old(self).queue@.len() > 0 ==> exists|now: u64|
                #[trigger] pop_outcome_at(
                    old(self).in_flight@,
                    final(self).in_flight@,
                    old(self).blockchain@,
                    old(self).blockchain.metadata_spec(),
                    old(self).queue@[0]@,
                    now,
                    r is Err,
                    handed_out(r),
                ),
            old(self).queue@.len() > 0 && old(self).in_flight@.contains(old(self).queue@[0]@) ==> (r matches Ok(
                None,
            )) && final(self).in_flight@ == old(self).in_flight@,
            old(self).blockchain.metadata_spec().query_slots * old(self).blockchain.metadata_spec().slot_secs
                == 0 ==> r is Ok,
            r is Err ==> final(self).in_flight@ == old(self).in_flight@,
    {
        let popped: Option<Transaction> = match self.pop_from_queue() {
            Ok(o) => o,
            Err(e) => {
                return Err(e);
            },
        };
        match popped {
            Some(t) => {
                let answer: Result<bool, String> = self.is_transaction_deliverable(&t);
                let ghost now: u64 = choose|now: u64|
                    #[trigger] acceptance_at(
                        self.in_flight@,
                        self.blockchain@,
                        self.blockchain.metadata_spec(),
                        t@,
                        now,
                        answer,
                    );
                let ghost before: Seq<TransactionModel> = self.in_flight@;
                let ghost tm: TransactionModel = t@;
                let r: Result<Option<Transaction>, String> = match answer {
                    Ok(true) => {
                        let kept: Transaction = t.clone();
                        match self.mark_in_flight(t) {
                            Ok(()) => Ok(Some(kept)),
                            Err(e) => Err(e),
                        }
                    },
                    Ok(false) => Ok(None),
                    Err(e) => Err(e),
                };
                proof {
                    assert(pop_outcome_at(
                        before,
                        self.in_flight@,
                        self.blockchain@,
                        self.blockchain.metadata_spec(),
                        tm,
                        now,
                        r is Err,
                        handed_out(r),
                    ));
                }
                r
            },
            None => Ok(None),
        }
    }

    /// Moves every transaction in flight back to the end of the queue, in
    /// transaction order.
    pub fn tick_mempool(&mut self) -> (r: Result<(), String>)
        ensures
            r is Ok,
            final(self).in_flight@.len() == 0,
            txn_models(final(self).queue@) == txn_models(old(self).queue@) + old(self).in_flight@,
            final(self).blockchain == old(self).blockchain,
            final(self).blockchain_metadata == old(self).blockchain_metadata,
    {
        // Counting the set in flight recalls that it is kept sorted.
        let _in_flight: usize = self.in_flight.len();
        loop
            invariant
                is_strictly_sorted(self.in_flight@),
                self.in_flight@.no_duplicates(),
                self.blockchain == old(self).blockchain,
                self.blockchain_metadata == old(self).blockchain_metadata,
                self.in_flight@ == old(self).in_flight@.skip(old(self).in_flight@.len() - self.in_flight@.len()),
                self.in_flight@.len() <= old(self).in_flight@.len(),
                txn_models(self.queue@) == txn_models(old(self).queue@) + old(self).in_flight@.take(
                    old(self).in_flight@.len() - self.in_flight@.len(),
                ),
            ensures
                self.in_flight@.len() == 0,
                txn_models(self.queue@) == txn_models(old(self).queue@) + old(self).in_flight@,
                self.blockchain == old(self).blockchain,
                self.blockchain_metadata == old(self).blockchain_metadata,
            decreases self.in_flight@.len(),
        {
            let next: Option<Transaction> = match self.pop_from_in_flight() {
                Ok(o) => o,
                Err(_) => None,
            };
            match next {
                Some(t) => {
                    let ghost before: Seq<TransactionModel> = self.in_flight@;
                    let ghost done: int = old(self).in_flight@.len() - before.len();
                    let _ = self.reenter(t);
                    // Counting the set in flight recalls that it is kept sorted.
                    let _in_flight: usize = self.in_flight.len();
                    proof {
                        let rest: Seq<TransactionModel> = before.drop_first();
                        assert(is_strictly_sorted(rest));
                        assert(rest.to_set() =~= before.to_set().remove(before[0])) by {
                            assert forall|x: TransactionModel| rest.to_set().contains(x) implies before.to_set().remove(before[0]).contains(x) by {
                                let k: int = choose|k: int| 0 <= k < rest.len() && rest[k] == x;
                                assert(before[k + 1] == x);
                                assert(k + 1 != 0);
                            }
                            assert forall|x: TransactionModel| before.to_set().remove(before[0]).contains(x) implies rest.to_set().contains(x) by {
                                let k: int = choose|k: int| 0 <= k < before.len() && before[k] == x;
                                assert(k != 0);
                                assert(rest[k - 1] == x);
                            }
                        }
                        super::txset::lemma_sorted_unique(self.in_flight@, rest);
                        let o: Seq<TransactionModel> = old(self).in_flight@;
                        assert(before[0] == o[done]);
                        assert(o.take(done + 1) =~= o.take(done).push(o[done]));
                        assert(rest =~= o.skip(done + 1));
                    }
                },
                None => {
                    proof {
                        assert(old(self).in_flight@.take(old(self).in_flight@.len() as int) =~= old(self).in_flight@);
                    }
                    break;
                },
            }
        }
        Ok(())
    }
}

impl Default for Mempool {
    fn default() -> (r: Self)
        ensures
            r.queue@.len() == 0,
            r.in_flight@.len() == 0,
            r.blockchain@ == super::chain::empty_chain(),
            r.blockchain.wf(),
            *r.blockchain_metadata == BlockchainMetadata::default_spec(),
    {
        Mempool {
            queue: Vec::new(),
            in_flight: TransactionSet::new(),
            blockchain: Arc::new(Blockchain::default()),
            blockchain_metadata: Arc::new(BlockchainMetadata::default()),
        }
    }
}

} // verus!
