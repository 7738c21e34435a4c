//! A lightweight client for keeping a listener in sync with the chain.

use vstd::prelude::*;

use crate::cache::Cache;
use crate::error::BlockSourceError;
use crate::fork::{agrees, ForkSearch, Position, Walk};
use crate::header::{BlockHash, ChainTip, ValidatedBlockHeader};
use crate::notifier::{
    lemma_submap_at, lemma_tip_agrees, BlockFetch, ChainEvent, ChainNotifier, SyncAction,
    SyncStep,
};

verus! {

/// What the caller of a poll does next.
pub enum PollAction {
    /// Has the previous header of [`ForkSearch::awaited`] looked up and hands the result to
    /// [`SpvClient::header_looked_up`].
    LookUpPrevious(ForkSearch),
    /// Has the block of [`BlockFetch::awaited`] fetched and hands the result to
    /// [`SpvClient::block_fetched`].
    FetchBlock(BlockFetch),
    /// Nothing: the poll has ended, with the best polled chain tip relative to the previous
    /// best known tip and whether any blocks were indeed connected or disconnected.
    Done(Result<(ChainTip, bool), BlockSourceError>),
}

/// One step of a poll: the notifications that the listener is owed now, in order, and what the
/// caller does after it has passed them on.
pub struct PollStep {
    /// The notifications that the listener is owed, in order.
    pub events: Vec<ChainEvent>,
    /// What the caller does next.
    pub next: PollAction,
}

/// A lightweight client for keeping a listener in sync with the chain, allowing for Simplified
/// Payment Verification (SPV).
///
/// The client is told the best chain tip that a chain poller has found. It detects any chain
/// forks and says which blocks the listener is to be told were connected or disconnected
/// since the last poll.
///
/// Block headers for the best chain are maintained in the parameterized cache, allowing for a
/// custom cache eviction policy. This offers flexibility to those sensitive to resource usage.
/// Hence, there is a trade-off between a lower memory footprint and potentially increased
/// network I/O as headers are re-fetched during fork detection.
pub struct SpvClient<C: Cache> {
    chain_tip: ValidatedBlockHeader,
    chain_notifier: ChainNotifier<C>,
}

impl<C: Cache> SpvClient<C> {
    /// The best known chain tip, as a specification.
    pub closed spec fn spec_chain_tip(&self) -> ValidatedBlockHeader {
        self.chain_tip
    }

    /// The notifier of the client.
    pub closed spec fn notifier(&self) -> ChainNotifier<C> {
        self.chain_notifier
    }

    /// Whether the header cache holds no other header than the best known chain tip under its
    /// hash.
    pub open spec fn coherent(&self) -> bool {
        agrees(self.notifier().entries(), self.chain_tip())
    }

    /// Whether the best known chain tip and the header cache are the same in both clients.
    pub open spec fn unchanged(before: &Self, after: &Self) -> bool {
        &&& after.chain_tip() == before.chain_tip()
        &&& after.notifier().entries() == before.notifier().entries()
        &&& after.notifier().unbounded() == before.notifier().unbounded()
    }

    /// Whether `step` is the step that a poll with the better tip `best` takes once the walk to
    /// the fork point has come to `walk`, for a client that was `before` and is `after`.
    ///
    /// The best known chain tip stays as it is. With the steps found, every block of the old
    /// chain is disconnected and the first block to connect is awaited. With the walk
    /// suspended, the previous header is awaited and nothing has changed. A walk that failed
    /// ends the poll: no blocks were connected or disconnected.
    pub open spec fn planned(
        before: &Self,
        after: &Self,
        step: PollStep,
        walk: Walk,
        best: ValidatedBlockHeader,
    ) -> bool {
        &&& after.chain_tip() == before.chain_tip()
        &&& after.notifier().unbounded() == before.notifier().unbounded()
        &&& match walk {
            Walk::Found(plan) => {
                &&& step.next matches PollAction::FetchBlock(fetch)
                &&& ChainNotifier::disconnected_to(
                    &before.notifier(),
                    &after.notifier(),
                    step.events@,
                    fetch,
                    plan,
                    best,
                    before.chain_tip(),
                )
            },
            Walk::Suspended(at) => {
                &&& step.next matches PollAction::LookUpPrevious(search)
                &&& ChainNotifier::suspended_at(
                    &before.notifier(),
                    &after.notifier(),
                    step.events@,
                    search,
                    at,
                    best,
                    before.chain_tip(),
                )
            },
            Walk::Invalid => {
                &&& step.events@.len() == 0
                &&& after.notifier().entries() == before.notifier().entries()
                &&& step.next == PollAction::Done(Ok((ChainTip::Better(best), false)))
            },
        }
    }

    /// Creates a new SPV client using `chain_tip` as the best known chain tip.
    ///
    /// Subsequent calls to [`poll_best_tip`](SpvClient::poll_best_tip) take the best chain tip
    /// that a chain poller has found. `header_cache` is used to look up and store headers on
    /// the best chain.
    pub fn new(chain_tip: ValidatedBlockHeader, header_cache: C) -> (client: Self)
        ensures
            client.chain_tip() == chain_tip,
            client.notifier().entries() == header_cache.entries(),
            client.notifier().unbounded() == header_cache.unbounded(),
    {
        let chain_notifier = ChainNotifier::new(header_cache);
        Self { chain_tip, chain_notifier }
    }

    /// The best known chain tip.
    #[verifier::when_used_as_spec(spec_chain_tip)]
    pub fn chain_tip(&self) -> (tip: ValidatedBlockHeader)
        ensures
            tip == self.chain_tip(),
    {
        self.chain_tip
    }

    /// The header cache of the client.
    pub fn header_cache(&self) -> (header_cache: &C)
        ensures
            header_cache.entries() == self.notifier().entries(),
            header_cache.unbounded() == self.notifier().unbounded(),
    {
        self.chain_notifier.header_cache()
    }

    /// Tells whether the header cache holds no other header than the best known chain tip
    /// under its hash.
    pub fn is_coherent(&self) -> (coherent: bool)
        ensures
            coherent == self.coherent(),
    {
        self.chain_notifier.is_agreed(&self.chain_tip)
    }

    /// Takes what polling for the best tip has given, and updates the chain listener with any
    /// connected or disconnected blocks accordingly.
    ///
    /// A poll that failed, or found the same tip or a worse one, ends at once: the listener is
    /// owed nothing and nothing changes. A better tip starts a sync of the listener from the
    /// best known tip to it.
    pub fn poll_best_tip(&mut self, polled: Result<ChainTip, BlockSourceError>) -> (step: PollStep)
        requires
            old(self).coherent(),
            polled matches Ok(chain_tip) ==> chain_tip.relative_to(old(self).chain_tip()),
        ensures
            match polled {
                Ok(ChainTip::Better(best)) => Self::planned(
                    old(self),
                    final(self),
                    step,
                    Position::start(best, old(self).chain_tip()).walk(
                        old(self).notifier().entries(),
                    ),
                    best,
                ),
                Ok(chain_tip) => {
                    &&& step.events@.len() == 0
                    &&& step.next == PollAction::Done(Ok((chain_tip, false)))
                    &&& Self::unchanged(old(self), final(self))
                },
                Err(e) => {
                    &&& step.events@.len() == 0
                    &&& step.next == PollAction::Done(Err(e))
                    &&& Self::unchanged(old(self), final(self))
                },
            },
    {
        match polled {
            Err(e) => PollStep { events: Vec::new(), next: PollAction::Done(Err(e)) },
            Ok(ChainTip::Common) => PollStep {
                events: Vec::new(),
                next: PollAction::Done(Ok((ChainTip::Common, false))),
            },
            Ok(ChainTip::Better(chain_tip)) => {
                let old_tip = self.chain_tip;
                let sync = self.chain_notifier.sync_listener(chain_tip, &old_tip);
                self.update_chain_tip(chain_tip, sync)
            },
            Ok(ChainTip::Worse(chain_tip)) => PollStep {
                events: Vec::new(),
                next: PollAction::Done(Ok((ChainTip::Worse(chain_tip), false))),
            },
        }
    }

    /// Goes on with a poll that waited for a previous header, with what looking it up has
    /// given. An error ends the poll: no blocks were connected or disconnected.
    pub fn header_looked_up(
        &mut self,
        search: ForkSearch,
        looked_up: Result<ValidatedBlockHeader, BlockSourceError>,
    ) -> (step: PollStep)
        requires
            old(self).coherent(),
            search.old_tip() == old(self).chain_tip(),
            search.suspended_on(old(self).notifier().entries()),
        ensures
            match looked_up {
                Ok(parent) => Self::planned(
                    old(self),
                    final(self),
                    step,
                    search@.resume(old(self).notifier().entries(), parent),
                    search.new_tip(),
                ),
                Err(_) => {
                    &&& step.events@.len() == 0
                    &&& step.next == PollAction::Done(
                        Ok((ChainTip::Better(search.new_tip()), false)),
                    )
                    &&& Self::unchanged(old(self), final(self))
                },
            },
    {
        let best = search.new_tip();
        let sync = self.chain_notifier.header_looked_up(search, looked_up);
        self.update_chain_tip(best, sync)
    }

    /// Goes on with a poll that waited for a block, with what fetching it has given: the hash
    /// of the block, which must be the hash of the header it was fetched for, or an error.
    ///
    /// A block that was fetched is connected. With the last block connected the polled tip
    /// becomes the best known tip. An error ends the poll: the best known tip becomes the
    /// tip that the listener is at, and blocks were connected or disconnected if that tip has
    /// another hash than the best known tip had.
    pub fn block_fetched(
        &mut self,
        fetch: BlockFetch,
        fetched: Result<BlockHash, BlockSourceError>,
    ) -> (step: PollStep)
        requires
            fetch.wf(),
            old(self).notifier().reflects(fetch.trace()),
            fetched matches Ok(block_hash) ==> block_hash == fetch.pending().last().block_hash(),
        ensures
            final(self).notifier().unbounded() == old(self).notifier().unbounded(),
            match fetched {
                Ok(_) => {
                    let header = fetch.pending().last();
                    let trace = fetch.trace().connect(header);
                    &&& step.events@ == seq![ChainEvent::BlockConnected(header)]
                    &&& trace.events() == fetch.trace().events() + step.events@
                    &&& trace.wf()
                    &&& final(self).notifier().reflects(trace)
                    &&& if fetch.pending().len() == 1 {
                        &&& step.next == PollAction::Done(
                            Ok((ChainTip::Better(fetch.new_tip()), true)),
                        )
                        &&& trace.complete()
                        &&& final(self).chain_tip() == fetch.new_tip()
                        &&& final(self).coherent()
                    } else {
                        &&& step.next matches PollAction::FetchBlock(next)
                        &&& next.wf()
                        &&& next.trace() == trace
                        &&& next.pending() == fetch.pending().drop_last()
                        &&& final(self).chain_tip() == old(self).chain_tip()
                    }
                },
                Err(_) => {
                    let changed = fetch.tip().block_hash() != old(self).chain_tip().block_hash();
                    &&& step.events@.len() == 0
                    &&& final(self).notifier().entries() == old(self).notifier().entries()
                    &&& step.next == PollAction::Done(
                        Ok((ChainTip::Better(fetch.new_tip()), changed)),
                    )
                    &&& final(self).chain_tip() == (if changed {
                        fetch.tip()
                    } else {
                        old(self).chain_tip()
                    })
                    &&& changed || fetch.tip() == old(self).chain_tip() ==> final(self).coherent()
                },
            },
    {
        let best = fetch.new_tip();
        proof {
            lemma_tip_agrees(fetch.trace(), self.chain_notifier.entries());
        }
        let sync = self.chain_notifier.block_fetched(fetch, fetched);
        proof {
            if fetched is Ok {
                lemma_submap_at(
                    self.chain_notifier.entries(),
                    old(self).chain_notifier.entries().insert(
                        fetch.pending().last().block_hash(),
                        fetch.pending().last(),
                    ),
                    fetch.pending().last().block_hash(),
                );
            }
        }
        self.update_chain_tip(best, sync)
    }

    /// Updates the chain tip after a step of a sync to `best_chain_tip`, and tells at the end of
    /// the sync whether any blocks were connected or disconnected.
    fn update_chain_tip(&mut self, best_chain_tip: ValidatedBlockHeader, sync: SyncStep) -> (step:
        PollStep)
        ensures
            final(self).notifier() == old(self).notifier(),
            step.events == sync.events,
            match sync.next {
                SyncAction::LookUpPrevious(search) => {
                    &&& step.next == PollAction::LookUpPrevious(search)
                    &&& final(self).chain_tip() == old(self).chain_tip()
                },
                SyncAction::FetchBlock(fetch) => {
                    &&& step.next == PollAction::FetchBlock(fetch)
                    &&& final(self).chain_tip() == old(self).chain_tip()
                },
                SyncAction::Done(Ok(_)) => {
                    &&& step.next == PollAction::Done(Ok((ChainTip::Better(best_chain_tip), true)))
                    &&& final(self).chain_tip() == best_chain_tip
                },
                SyncAction::Done(Err((_, Some(chain_tip)))) => {
                    let changed = chain_tip.block_hash() != old(self).chain_tip().block_hash();
                    &&& step.next == PollAction::Done(
                        Ok((ChainTip::Better(best_chain_tip), changed)),
                    )
                    &&& final(self).chain_tip() == (if changed {
                        chain_tip
                    } else {
                        old(self).chain_tip()
                    })
                },
                SyncAction::Done(Err((_, None))) => {
                    &&& step.next == PollAction::Done(
                        Ok((ChainTip::Better(best_chain_tip), false)),
                    )
                    &&& final(self).chain_tip() == old(self).chain_tip()
                },
            },
    {
        let SyncStep { events, next } = sync;
        let next = match next {
            SyncAction::LookUpPrevious(search) => PollAction::LookUpPrevious(search),
            SyncAction::FetchBlock(fetch) => PollAction::FetchBlock(fetch),
            SyncAction::Done(result) => {
                let blocks_connected = match result {
                    Ok(_) => {
                        self.chain_tip = best_chain_tip;
                        true
                    },
                    Err((_, Some(chain_tip))) => {
                        if chain_tip.block_hash() != self.chain_tip.block_hash() {
                            self.chain_tip = chain_tip;
                            true
                        } else {
                            false
                        }
                    },
                    Err(_) => false,
                };
                PollAction::Done(Ok((ChainTip::Better(best_chain_tip), blocks_connected)))
            },
        };
        PollStep { events, next }
    }
}

} // verus!
