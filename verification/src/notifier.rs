//! Notifying listeners of blocks that have been connected to or disconnected from the chain.
//!
//! A sync takes a listener from an old chain tip to a new one. It first finds the fork between
//! the two, then disconnects the blocks of the old chain down to the fork point, then connects
//! the blocks of the new chain one by one, as each is fetched. The header cache follows every
//! notification. What has to wait for a block source is handed to the caller as the next
//! action of a [`SyncStep`].

use vstd::map_lib::lemma_submap_of_trans;
use vstd::prelude::*;

use crate::cache::Cache;
use crate::error::{BlockSourceError, BlockSourceErrorKind};
use crate::fork::{
    agrees, builds_on, connected, descending, disconnected, fork_agrees, is_fork, lemma_push_step,
    FindFork, ForkSearch, ForkStep, Position, Walk,
};
use crate::header::{BlockHash, ValidatedBlockHeader};

verus! {

/// A notification for the listener.
#[derive(Clone, Copy, Debug, PartialEq)]
pub enum ChainEvent {
    /// The block of this header was removed at the header's height.
    BlockDisconnected(ValidatedBlockHeader),
    /// The block of this header was added at the header's height.
    BlockConnected(ValidatedBlockHeader),
}

/// Whether each header of `chain` but the first is built on the one before it.
pub open spec fn ascending(chain: Seq<ValidatedBlockHeader>) -> bool {
    forall|i: int, j: int|
        0 <= i && j == i + 1 && j < chain.len() ==> builds_on(#[trigger] chain[j], #[trigger] chain[i])
}

/// `cache` without the entries under the hashes of `gone`.
pub open spec fn without(
    cache: Map<BlockHash, ValidatedBlockHeader>,
    gone: Seq<ValidatedBlockHeader>,
) -> Map<BlockHash, ValidatedBlockHeader>
    decreases gone.len(),
{
    if gone.len() == 0 {
        cache
    } else {
        without(cache, gone.drop_last()).remove(gone.last().block_hash())
    }
}

/// `cache` with the headers of `come` inserted under their hashes, in order.
pub open spec fn with(
    cache: Map<BlockHash, ValidatedBlockHeader>,
    come: Seq<ValidatedBlockHeader>,
) -> Map<BlockHash, ValidatedBlockHeader>
    decreases come.len(),
{
    if come.len() == 0 {
        cache
    } else {
        with(cache, come.drop_last()).insert(come.last().block_hash(), come.last())
    }
}

/// What a listener has been told in the course of one sync, and what the sync started from.
pub struct SyncTrace {
    /// The tip that the listener was at.
    pub old_tip: ValidatedBlockHeader,
    /// The tip that the sync leads to.
    pub new_tip: ValidatedBlockHeader,
    /// What the header cache held before the sync.
    pub cache: Map<BlockHash, ValidatedBlockHeader>,
    /// The headers whose blocks were disconnected, in the order told.
    pub disconnected: Seq<ValidatedBlockHeader>,
    /// The header on which the blocks to connect build up: the fork point where blocks were
    /// disconnected, else the old tip.
    pub base: ValidatedBlockHeader,
    /// The headers whose blocks the sync is to connect, highest first: the new tip and its
    /// ancestors down to the header built on the base.
    pub to_connect: Seq<ValidatedBlockHeader>,
    /// The headers whose blocks were connected, in the order told.
    pub connected: Seq<ValidatedBlockHeader>,
}

impl SyncTrace {
    /// The notifications, in the order told: every disconnect comes before every connect.
    pub open spec fn events(self) -> Seq<ChainEvent> {
        Seq::new(
            self.disconnected.len(),
            |i: int| ChainEvent::BlockDisconnected(self.disconnected[i]),
        ) + Seq::new(self.connected.len(), |i: int| ChainEvent::BlockConnected(self.connected[i]))
    }

    /// The tip that the listener is at.
    pub open spec fn tip(self) -> ValidatedBlockHeader {
        if self.connected.len() == 0 {
            self.base
        } else {
            self.connected.last()
        }
    }

    /// What the header cache holds after the notifications, unless it has dropped entries: no
    /// disconnected header, and every connected one.
    pub open spec fn cache_after(self) -> Map<BlockHash, ValidatedBlockHeader> {
        with(without(self.cache, self.disconnected), self.connected)
    }

    /// The headers whose blocks are still to connect, highest first.
    pub open spec fn pending(self) -> Seq<ValidatedBlockHeader> {
        self.to_connect.take(self.to_connect.len() - self.connected.len())
    }

    /// Whether the notifications follow a path: the disconnected headers lead from the old tip
    /// down to the base, the headers to connect lead from the new tip down to the base, and
    /// the connected headers are the lowest of these, lowest first. The cache held no other
    /// header than the base under its hash.
    pub open spec fn wf(self) -> bool {
        &&& descending(self.disconnected)
        &&& agrees(self.cache, self.base)
        &&& if self.disconnected.len() == 0 {
            self.base == self.old_tip
        } else {
            &&& self.disconnected[0] == self.old_tip
            &&& builds_on(self.disconnected.last(), self.base)
        }
        &&& descending(self.to_connect)
        &&& self.to_connect.len() > 0
        &&& self.to_connect[0] == self.new_tip
        &&& builds_on(self.to_connect.last(), self.base)
        &&& self.connected.len() <= self.to_connect.len()
        &&& forall|i: int|
            0 <= i < self.connected.len() ==> #[trigger] self.connected[i]
                == self.to_connect[self.to_connect.len() - 1 - i]
    }

    /// Whether every block that the sync is to connect has been connected.
    pub open spec fn complete(self) -> bool {
        self.connected.len() == self.to_connect.len()
    }

    /// The trace once every block that `plan` disconnects has been disconnected.
    pub open spec fn planned(
        plan: Seq<ForkStep>,
        new_tip: ValidatedBlockHeader,
        old_tip: ValidatedBlockHeader,
        cache: Map<BlockHash, ValidatedBlockHeader>,
    ) -> SyncTrace {
        SyncTrace {
            old_tip,
            new_tip,
            cache,
            disconnected: disconnected(plan),
            base: if disconnected(plan).len() == 0 {
                old_tip
            } else {
                plan.last()->ForkPoint_0
            },
            to_connect: connected(plan),
            connected: Seq::empty(),
        }
    }

    /// The trace once the block of `header` has been connected as well.
    pub open spec fn connect(self, header: ValidatedBlockHeader) -> SyncTrace {
        SyncTrace { connected: self.connected.push(header), ..self }
    }
}

/// A sync that waits for the block of [`BlockFetch::awaited`] to be fetched.
pub struct BlockFetch {
    remaining: Vec<ForkStep>,
    awaited: ValidatedBlockHeader,
    tip: ValidatedBlockHeader,
    new_header: ValidatedBlockHeader,
    trace: Ghost<SyncTrace>,
}

/// What the caller of a sync does next.
pub enum SyncAction {
    /// Has the previous header of [`ForkSearch::awaited`] looked up and hands the result to
    /// [`ChainNotifier::header_looked_up`].
    LookUpPrevious(ForkSearch),
    /// Has the block of [`BlockFetch::awaited`] fetched and hands the result to
    /// [`ChainNotifier::block_fetched`].
    FetchBlock(BlockFetch),
    /// Nothing: the sync has ended. Where a block could not be fetched the error comes with the
    /// tip that the listener is at; where the fork point was not found it comes with none, and
    /// the listener has been told nothing.
    Done(Result<(), (BlockSourceError, Option<ValidatedBlockHeader>)>),
}

/// One step of a sync: the notifications that the listener is owed now, in order, and what the
/// caller does after it has passed them on.
pub struct SyncStep {
    /// The notifications that the listener is owed, in order.
    pub events: Vec<ChainEvent>,
    /// What the caller does next.
    pub next: SyncAction,
}

impl BlockFetch {
    /// What the listener has been told so far.
    pub closed spec fn trace(&self) -> SyncTrace {
        self.trace@
    }

    /// The headers whose blocks are still to connect, highest first. The last one is the one
    /// whose block is fetched next.
    pub closed spec fn pending(&self) -> Seq<ValidatedBlockHeader> {
        connected(self.remaining@).push(self.awaited)
    }

    /// The tip that the listener is at, as a specification.
    pub closed spec fn spec_tip(&self) -> ValidatedBlockHeader {
        self.tip
    }

    /// The tip that the sync leads to, as a specification.
    pub closed spec fn spec_new_tip(&self) -> ValidatedBlockHeader {
        self.new_header
    }

    /// Whether the sync is on its path: what the listener was told follows a path, the
    /// listener stands at the tip of it, and some blocks are still to connect.
    pub open spec fn wf(&self) -> bool {
        &&& self.trace().wf()
        &&& self.tip() == self.trace().tip()
        &&& self.new_tip() == self.trace().new_tip
        &&& self.pending().len() > 0
        &&& self.pending() == self.trace().pending()
    }

    /// The header whose block is to be fetched.
    pub fn awaited(&self) -> (header: ValidatedBlockHeader)
        ensures
            header == self.pending().last(),
    {
        self.awaited
    }

    /// The tip that the listener is at.
    #[verifier::when_used_as_spec(spec_tip)]
    pub fn tip(&self) -> (tip: ValidatedBlockHeader)
        ensures
            tip == self.tip(),
    {
        self.tip
    }

    /// The tip that the sync leads to.
    #[verifier::when_used_as_spec(spec_new_tip)]
    pub fn new_tip(&self) -> (tip: ValidatedBlockHeader)
        ensures
            tip == self.new_tip(),
    {
        self.new_header
    }
}

/// Plans and tracks the notifications that take a listener from one chain tip to another, and
/// keeps the header cache in step with them.
pub struct ChainNotifier<C: Cache> {
    /// Cache for looking up headers before fetching from a block source.
    pub(crate) header_cache: C,
}

/// Takes steps off the end of `remaining` up to the last one that connects a block, and returns
/// the header of that step.
fn next_connect(remaining: &mut Vec<ForkStep>) -> (next: Option<ValidatedBlockHeader>)
    ensures
        match next {
            Some(header) => {
                &&& connected(old(remaining)@).len() > 0
                &&& header == connected(old(remaining)@).last()
                &&& connected(final(remaining)@) == connected(old(remaining)@).drop_last()
            },
            None => connected(old(remaining)@).len() == 0,
        },
{
    loop
        invariant
            connected(remaining@) == connected(old(remaining)@),
        decreases remaining.len(),
    {
        let ghost before = remaining@;
        match remaining.pop() {
            Some(ForkStep::ConnectBlock(header)) => {
                proof {
                    assert(before.drop_last() == remaining@);
                    assert(connected(before).drop_last() =~= connected(remaining@));
                }
                return Some(header);
            },
            Some(_) => {
                proof {
                    assert(before.drop_last() == remaining@);
                }
            },
            None => {
                return None;
            },
        }
    }
}

impl<C: Cache> ChainNotifier<C> {
    /// The headers that the cache of the notifier holds.
    pub closed spec fn entries(&self) -> Map<BlockHash, ValidatedBlockHeader> {
        self.header_cache.entries()
    }

    /// Whether the cache of the notifier keeps every entry until it is removed.
    pub closed spec fn unbounded(&self) -> bool {
        self.header_cache.unbounded()
    }

    /// Whether the cache of the notifier reflects what the listener was told: it holds nothing
    /// but what it held before the sync, less the disconnected headers, and the connected
    /// ones; and all of that, where it keeps every entry.
    pub open spec fn reflects(&self, trace: SyncTrace) -> bool {
        &&& self.entries().submap_of(trace.cache_after())
        &&& self.unbounded() ==> self.entries() == trace.cache_after()
    }

    /// Creates a notifier that looks headers up in `header_cache` and stores them there.
    pub fn new(header_cache: C) -> (notifier: Self)
        ensures
            notifier.entries() == header_cache.entries(),
            notifier.unbounded() == header_cache.unbounded(),
    {
        ChainNotifier { header_cache }
    }

    /// The header cache of the notifier.
    pub fn header_cache(&self) -> (header_cache: &C)
        ensures
            header_cache.entries() == self.entries(),
            header_cache.unbounded() == self.unbounded(),
    {
        &self.header_cache
    }

    /// Tells whether the cache holds no other header than `header` under its hash.
    pub fn is_agreed(&self, header: &ValidatedBlockHeader) -> (agreed: bool)
        ensures
            agreed == agrees(self.entries(), *header),
    {
        match self.header_cache.get(&header.block_hash()) {
            Some(cached) => *cached == *header,
            None => true,
        }
    }

    /// Returns the previous header for the given header if the cache holds it. Where it does
    /// not, the header has to be fetched.
    pub fn look_up_previous_header(&self, header: &ValidatedBlockHeader) -> (previous: Option<
        ValidatedBlockHeader,
    >)
        ensures
            previous == (if self.entries().contains_key(header.prev_blockhash()) {
                Some(self.entries()[header.prev_blockhash()])
            } else {
                None
            }),
    {
        match self.header_cache.get(&header.prev_blockhash()) {
            Some(prev_header) => Some(*prev_header),
            None => None,
        }
    }

    /// Whether a sync from `old_tip` to `new_tip` that has found the steps `plan` has come to
    /// `fetch` with the notifications `events`, for a notifier that was `before` and is `after`:
    /// every block that the plan disconnects has been disconnected, its header has left the
    /// cache, and the blocks that the plan connects are still to connect.
    pub open spec fn disconnected_to(
        before: &Self,
        after: &Self,
        events: Seq<ChainEvent>,
        fetch: BlockFetch,
        plan: Seq<ForkStep>,
        new_tip: ValidatedBlockHeader,
        old_tip: ValidatedBlockHeader,
    ) -> bool {
        let trace = SyncTrace::planned(plan, new_tip, old_tip, before.entries());
        &&& events == trace.events()
        &&& after.reflects(trace)
        &&& fetch.wf()
        &&& fetch.trace() == trace
        &&& fetch.pending() == connected(plan)
    }

    /// Whether a sync from `old_tip` to `new_tip` whose walk is suspended at `at` has come to
    /// `search` with the notifications `events`, for a notifier that was `before` and is
    /// `after`: nothing has changed, and no notification is owed.
    pub open spec fn suspended_at(
        before: &Self,
        after: &Self,
        events: Seq<ChainEvent>,
        search: ForkSearch,
        at: Position,
        new_tip: ValidatedBlockHeader,
        old_tip: ValidatedBlockHeader,
    ) -> bool {
        &&& events.len() == 0
        &&& after.entries() == before.entries()
        &&& search@ == at
        &&& search.new_tip() == new_tip
        &&& search.old_tip() == old_tip
        &&& search.suspended_on(after.entries())
    }

    /// Whether `step` is the step that a sync from `old_tip` to `new_tip` takes once the walk to
    /// the fork point has come to `walk`, for a notifier that was `before` and is `after`.
    ///
    /// With the steps found, every block of the old chain is disconnected and the first block
    /// to connect is awaited. With the walk suspended, the previous header is awaited and
    /// nothing has changed. A walk that failed ends the sync with nothing changed.
    pub open spec fn planned(
        before: &Self,
        after: &Self,
        step: SyncStep,
        walk: Walk,
        new_tip: ValidatedBlockHeader,
        old_tip: ValidatedBlockHeader,
    ) -> bool {
        &&& after.unbounded() == before.unbounded()
        &&& match walk {
            Walk::Found(plan) => {
                &&& step.next matches SyncAction::FetchBlock(fetch)
                &&& Self::disconnected_to(before, after, step.events@, fetch, plan, new_tip, old_tip)
            },
            Walk::Suspended(at) => {
                &&& step.next matches SyncAction::LookUpPrevious(search)
                &&& Self::suspended_at(before, after, step.events@, search, at, new_tip, old_tip)
            },
            Walk::Invalid => {
                &&& step.events@.len() == 0
                &&& after.entries() == before.entries()
                &&& step.next matches SyncAction::Done(Err((e, None)))
                &&& e.kind() == BlockSourceErrorKind::Persistent
                &&& e.message() == "invalid previous header"@
            },
        }
    }

    /// Finds the fork point between `new_header` and `old_header`, disconnecting blocks from
    /// `old_header` to get to that point and then connecting blocks until `new_header`.
    ///
    /// Validates headers along the transition path, but doesn't have blocks fetched until the
    /// chain is disconnected to the fork point. Thus, the sync may end in an `Err` that
    /// includes where the tip ended up, which may not be `new_header`.
    ///
    /// The header cache must not hold another header than `old_header` under its hash.
    pub fn sync_listener(
        &mut self,
        new_header: ValidatedBlockHeader,
        old_header: &ValidatedBlockHeader,
    ) -> (step: SyncStep)
        requires
            agrees(old(self).entries(), *old_header),
        ensures
            Self::planned(
                old(self),
                final(self),
                step,
                Position::start(new_header, *old_header).walk(old(self).entries()),
                new_header,
                *old_header,
            ),
    {
        let found = self.find_fork(new_header, old_header);
        self.follow(found, new_header, old_header)
    }

    /// Goes on with a sync that waited for a previous header, with what looking it up has
    /// given. An error ends the sync: the listener has been told nothing.
    pub fn header_looked_up(
        &mut self,
        search: ForkSearch,
        looked_up: Result<ValidatedBlockHeader, BlockSourceError>,
    ) -> (step: SyncStep)
        requires
            search.suspended_on(old(self).entries()),
            agrees(old(self).entries(), search.old_tip()),
        ensures
            match looked_up {
                Ok(parent) => Self::planned(
                    old(self),
                    final(self),
                    step,
                    search@.resume(old(self).entries(), parent),
                    search.new_tip(),
                    search.old_tip(),
                ),
                Err(e) => {
                    &&& step.events@.len() == 0
                    &&& step.next == SyncAction::Done(Err((e, None)))
                    &&& final(self).entries() == old(self).entries()
                    &&& final(self).unbounded() == old(self).unbounded()
                },
            },
    {
        let new_header = search.new_tip();
        let old_header = search.old_tip();
        let found = self.resume_find_fork(search, looked_up);
        self.follow(found, new_header, &old_header)
    }

    /// Goes on with a sync that waited for a block, with what fetching it has given: the hash
    /// of the block, which must be the hash of the header it was fetched for, or an error.
    ///
    /// A block that was fetched is connected: its header enters the cache, the listener is owed
    /// the notification, and the next block is awaited, if there is one. An error ends the
    /// sync and comes with the tip that the listener is at.
    pub fn block_fetched(
        &mut self,
        fetch: BlockFetch,
        fetched: Result<BlockHash, BlockSourceError>,
    ) -> (step: SyncStep)
        requires
            fetch.wf(),
            fetched matches Ok(block_hash) ==> block_hash == fetch.pending().last().block_hash(),
        ensures
            final(self).unbounded() == old(self).unbounded(),
            match fetched {
                Ok(_) => {
                    let header = fetch.pending().last();
                    let trace = fetch.trace().connect(header);
                    &&& step.events@ == seq![ChainEvent::BlockConnected(header)]
                    &&& trace.events() == fetch.trace().events() + step.events@
                    &&& trace.wf()
                    &&& final(self).entries().submap_of(
                        old(self).entries().insert(header.block_hash(), header),
                    )
                    &&& old(self).unbounded() ==> final(self).entries() == old(
                        self,
                    ).entries().insert(header.block_hash(), header)
                    &&& old(self).reflects(fetch.trace()) ==> final(self).reflects(trace)
                    &&& if fetch.pending().len() == 1 {
                        &&& step.next == SyncAction::Done(Ok(()))
                        &&& trace.complete()
                    } else {
                        &&& step.next matches SyncAction::FetchBlock(next)
                        &&& next.wf()
                        &&& next.trace() == trace
                        &&& next.pending() == fetch.pending().drop_last()
                    }
                },
                Err(e) => {
                    &&& step.events@.len() == 0
                    &&& step.next == SyncAction::Done(Err((e, Some(fetch.tip()))))
                    &&& final(self).entries() == old(self).entries()
                },
            },
    {
        match fetched {
            Ok(_) => {
                let BlockFetch { mut remaining, awaited, tip: _, new_header, trace } = fetch;
                let ghost before = trace@;
                let ghost after = before.connect(awaited);
                let ghost pending = fetch.pending();
                let ghost entries = self.entries();
                self.header_cache.insert(awaited.block_hash(), awaited);
                let mut events: Vec<ChainEvent> = Vec::new();
                events.push(ChainEvent::BlockConnected(awaited));
                proof {
                    assert(after.connected.drop_last() =~= before.connected);
                    assert(pending.drop_last() =~= connected(remaining@));
                    assert(pending.drop_last() =~= after.pending());
                    assert(events@ =~= seq![ChainEvent::BlockConnected(awaited)]);
                    assert(awaited == before.to_connect[before.to_connect.len() - 1
                        - before.connected.len()]);
                    assert(after.wf());
                    assert(after.events() =~= before.events().push(
                        ChainEvent::BlockConnected(awaited),
                    ));
                    assert(after.cache_after() == before.cache_after().insert(
                        awaited.block_hash(),
                        awaited,
                    ));
                    if old(self).reflects(before) {
                        lemma_submap_insert(
                            entries,
                            before.cache_after(),
                            awaited.block_hash(),
                            awaited,
                        );
                        lemma_submap_of_trans(
                            self.entries(),
                            entries.insert(awaited.block_hash(), awaited),
                            after.cache_after(),
                        );
                    }
                }
                let next = match next_connect(&mut remaining) {
                    Some(header) => {
                        proof {
                            let left = pending.drop_last();
                            assert(connected(remaining@).push(header) =~= left);
                        }
                        SyncAction::FetchBlock(
                            BlockFetch {
                                remaining,
                                awaited: header,
                                tip: awaited,
                                new_header,
                                trace: Ghost(after),
                            },
                        )
                    },
                    None => SyncAction::Done(Ok(())),
                };
                SyncStep { events, next }
            },
            Err(e) => SyncStep {
                events: Vec::new(),
                next: SyncAction::Done(Err((e, Some(fetch.tip)))),
            },
        }
    }

    /// Takes the step that follows from what the search for the fork point has found.
    fn follow(
        &mut self,
        found: FindFork,
        new_header: ValidatedBlockHeader,
        old_header: &ValidatedBlockHeader,
    ) -> (step: SyncStep)
        requires
            agrees(old(self).entries(), *old_header),
            found.sound(old(self).entries(), new_header, *old_header),
        ensures
            final(self).unbounded() == old(self).unbounded(),
            match found {
                FindFork::Found(plan) => Self::planned(
                    old(self),
                    final(self),
                    step,
                    Walk::Found(plan@),
                    new_header,
                    *old_header,
                ),
                FindFork::LookUp(search) => {
                    &&& step.events@.len() == 0
                    &&& step.next == SyncAction::LookUpPrevious(search)
                    &&& final(self).entries() == old(self).entries()
                },
                FindFork::Failed(e) => {
                    &&& step.events@.len() == 0
                    &&& step.next == SyncAction::Done(Err((e, None)))
                    &&& final(self).entries() == old(self).entries()
                },
            },
    {
        match found {
            FindFork::Found(plan) => self.disconnect(plan, new_header, old_header),
            FindFork::LookUp(search) => SyncStep {
                events: Vec::new(),
                next: SyncAction::LookUpPrevious(search),
            },
            FindFork::Failed(e) => SyncStep {
                events: Vec::new(),
                next: SyncAction::Done(Err((e, None))),
            },
        }
    }

    /// Disconnects every block that `plan` disconnects, in the order of the plan, and awaits the
    /// first block to connect, which is the last that the plan connects.
    fn disconnect(
        &mut self,
        plan: Vec<ForkStep>,
        new_header: ValidatedBlockHeader,
        old_header: &ValidatedBlockHeader,
    ) -> (step: SyncStep)
        requires
            is_fork(plan@, new_header, *old_header),
            agrees(old(self).entries(), *old_header),
            fork_agrees(old(self).entries(), plan@),
        ensures
            Self::planned(
                old(self),
                final(self),
                step,
                Walk::Found(plan@),
                new_header,
                *old_header,
            ),
    {
        let ghost cache = self.entries();
        let ghost gone = disconnected(plan@);
        let mut events: Vec<ChainEvent> = Vec::new();
        let ghost mut last_disconnect_tip: Option<BlockHash> = None;
        let mut new_tip: Option<ValidatedBlockHeader> = None;
        let mut i: usize = 0;
        proof {
            assert(plan@.take(0) =~= Seq::<ForkStep>::empty());
        }
        while i < plan.len()
            invariant
                i <= plan.len(),
                gone == disconnected(plan@),
                self.unbounded() == old(self).unbounded(),
                cache == old(self).entries(),
                is_fork(plan@, new_header, *old_header),
                agrees(cache, *old_header),
                fork_agrees(cache, plan@),
                forall|k: int| 0 <= k < gone.len() ==> agrees(cache, #[trigger] gone[k]),
                disconnected(plan@.take(i as int)).len() <= gone.len(),
                disconnected(plan@.take(i as int)) == gone.take(
                    disconnected(plan@.take(i as int)).len() as int,
                ),
                events@ == Seq::new(
                    disconnected(plan@.take(i as int)).len(),
                    |k: int| ChainEvent::BlockDisconnected(gone[k]),
                ),
                self.entries().submap_of(without(cache, disconnected(plan@.take(i as int)))),
                self.unbounded() ==> self.entries() == without(
                    cache,
                    disconnected(plan@.take(i as int)),
                ),
                last_disconnect_tip == (if disconnected(plan@.take(i as int)).len() == 0 {
                    None
                } else {
                    Some(disconnected(plan@.take(i as int)).last().prev_blockhash())
                }),
                new_tip == (if i > 0 && plan@[i - 1] is ForkPoint {
                    Some(plan@[i - 1]->ForkPoint_0)
                } else {
                    None
                }),
                i < plan.len() ==> new_tip.is_none(),
            decreases plan.len() - i,
        {
            let ghost done = disconnected(plan@.take(i as int));
            proof {
                assert(plan@.take(i + 1) =~= plan@.take(i as int).push(plan@[i as int]));
                lemma_push_step(plan@.take(i as int), plan@[i as int]);
                lemma_disconnected_prefix(plan@, i + 1);
                if gone.len() == 0 {
                    assert(!(plan@[i as int] is ForkPoint));
                } else if i + 1 < plan.len() {
                    assert(plan@.drop_last()[i as int] == plan@[i as int]);
                    assert(!(plan@[i as int] is ForkPoint));
                }
            }
            match plan[i] {
                ForkStep::DisconnectBlock(header) => {
                    let ghost entries = self.entries();
                    let removed = self.header_cache.remove(&header.block_hash());
                    proof {
                        lemma_without_submap(cache, done);
                        lemma_submap_of_trans(entries, without(cache, done), cache);
                        lemma_submap_at(entries, cache, header.block_hash());
                        lemma_submap_remove(entries, without(cache, done), header.block_hash());
                        lemma_submap_of_trans(
                            self.entries(),
                            entries.remove(header.block_hash()),
                            without(cache, done).remove(header.block_hash()),
                        );
                        assert(disconnected(plan@.take(i + 1)) == done.push(header));
                        assert(gone.take(done.len() as int + 1)[done.len() as int] == header);
                        assert(header == gone[done.len() as int]);
                        assert(agrees(cache, header));
                        assert(removed matches Some(cached) ==> cached == header);
                        assert(done.push(header).drop_last() =~= done);
                        last_disconnect_tip = Some(header.prev_blockhash());
                    }
                    events.push(ChainEvent::BlockDisconnected(header));
                },
                ForkStep::ForkPoint(header) => {
                    new_tip = Some(header);
                },
                ForkStep::ConnectBlock(_) => {},
            }
            i = i + 1;
        }
        proof {
            assert(plan@.take(plan.len() as int) =~= plan@);
            assert(gone.take(gone.len() as int) =~= gone);
        }
        // If blocks were disconnected, new blocks will connect starting from the fork point.
        // Otherwise, there was no fork, so new blocks connect starting from the old tip.
        assert(last_disconnect_tip.is_some() == new_tip.is_some());
        let tip = match new_tip {
            Some(tip_header) => {
                assert(Some(tip_header.block_hash()) == last_disconnect_tip);
                tip_header
            },
            None => *old_header,
        };
        let ghost trace = SyncTrace::planned(plan@, new_header, *old_header, cache);
        let mut remaining = plan;
        let next = match next_connect(&mut remaining) {
            Some(header) => {
                proof {
                    assert(connected(remaining@).push(header) =~= connected(plan@));
                    assert(trace.events() =~= events@);
                    assert(trace.cache_after() == without(cache, gone));
                    assert(trace.pending() =~= connected(plan@));
                }
                SyncAction::FetchBlock(
                    BlockFetch { remaining, awaited: header, tip, new_header, trace: Ghost(trace) },
                )
            },
            None => SyncAction::Done(Ok(())),
        };
        SyncStep { events, next }
    }
}

/// The connected headers of a sync lead up from the base, each built on the one before it, and
/// end with the new tip once the sync is complete.
pub proof fn lemma_connected_ascends(trace: SyncTrace)
    requires
        trace.wf(),
    ensures
        ascending(trace.connected),
        trace.connected.len() > 0 ==> builds_on(trace.connected[0], trace.base),
        trace.complete() ==> trace.connected.len() > 0 && trace.connected.last() == trace.new_tip,
{
    let up = trace.connected;
    let down = trace.to_connect;
    assert forall|i: int, j: int| 0 <= i && j == i + 1 && j < up.len() implies builds_on(
        #[trigger] up[j],
        #[trigger] up[i],
    ) by {
        assert(up[j] == down[down.len() - 1 - j]);
        assert(up[i] == down[down.len() - 1 - i]);
        assert(builds_on(down[down.len() - 1 - j], down[down.len() - 1 - i]));
    }
    if up.len() > 0 {
        assert(up[0] == down[down.len() - 1]);
    }
    if trace.complete() {
        assert(up[up.len() - 1] == down[0]);
    }
}

/// The headers still to connect in a sync lead from the new tip down to the tip that the
/// listener is at.
pub proof fn lemma_pending_descends(trace: SyncTrace)
    requires
        trace.wf(),
        !trace.complete(),
    ensures
        descending(trace.pending()),
        trace.pending().len() > 0,
        trace.pending()[0] == trace.new_tip,
        builds_on(trace.pending().last(), trace.tip()),
{
    let down = trace.to_connect;
    let left = trace.pending();
    assert forall|i: int, j: int| 0 <= i && j == i + 1 && j < left.len() implies builds_on(
        #[trigger] left[i],
        #[trigger] left[j],
    ) by {
        assert(builds_on(down[i], down[j]));
    }
    if trace.connected.len() > 0 {
        assert(trace.connected.last() == down[down.len() - trace.connected.len()]);
        assert(builds_on(down[left.len() - 1], down[left.len() as int]));
    }
}

/// A cache that holds nothing but what the trace of a sync leaves holds no other header than the
/// listener's tip under its hash.
pub proof fn lemma_tip_agrees(trace: SyncTrace, entries: Map<BlockHash, ValidatedBlockHeader>)
    requires
        trace.wf(),
        entries.submap_of(trace.cache_after()),
    ensures
        agrees(entries, trace.tip()),
{
    let key = trace.tip().block_hash();
    lemma_submap_at(entries, trace.cache_after(), key);
    if trace.connected.len() == 0 {
        lemma_without_submap(trace.cache, trace.disconnected);
        lemma_submap_at(without(trace.cache, trace.disconnected), trace.cache, key);
    }
}

/// The headers that a prefix of `steps` disconnects are a prefix of those that `steps`
/// disconnects.
proof fn lemma_disconnected_prefix(steps: Seq<ForkStep>, n: int)
    requires
        0 <= n <= steps.len(),
    ensures
        disconnected(steps.take(n)).len() <= disconnected(steps).len(),
        disconnected(steps.take(n)) == disconnected(steps).take(
            disconnected(steps.take(n)).len() as int,
        ),
    decreases steps.len() - n,
{
    if n == steps.len() {
        assert(steps.take(n) =~= steps);
        assert(disconnected(steps).take(disconnected(steps).len() as int) =~= disconnected(steps));
    } else {
        lemma_disconnected_prefix(steps, n + 1);
        assert(steps.take(n + 1) =~= steps.take(n).push(steps[n]));
        lemma_push_step(steps.take(n), steps[n]);
        let longer = disconnected(steps.take(n + 1));
        let shorter = disconnected(steps.take(n));
        assert(shorter =~= disconnected(steps).take(shorter.len() as int)) by {
            assert(shorter =~= longer.take(shorter.len() as int));
        }
    }
}

/// What a part of a map holds under a key, the map holds under it.
pub proof fn lemma_submap_at(
    a: Map<BlockHash, ValidatedBlockHeader>,
    b: Map<BlockHash, ValidatedBlockHeader>,
    key: BlockHash,
)
    requires
        a.submap_of(b),
    ensures
        a.contains_key(key) ==> b.contains_key(key) && a[key] == b[key],
{
    if a.contains_key(key) {
        assert(a.dom().contains(key));
        assert(b.dom().contains(key) || !b.dom().contains(key));
    }
}

/// A part of a map stays one when a key is removed from both.
proof fn lemma_submap_remove(
    a: Map<BlockHash, ValidatedBlockHeader>,
    b: Map<BlockHash, ValidatedBlockHeader>,
    key: BlockHash,
)
    requires
        a.submap_of(b),
    ensures
        a.remove(key).submap_of(b.remove(key)),
{
    assert forall|k: BlockHash| #[trigger] a.remove(key).dom().contains(k) implies b.remove(
        key,
    ).dom().contains(k) && a.remove(key)[k] == b.remove(key)[k] by {
        assert(a.dom().contains(k));
    }
}

/// A part of a map stays one when an entry is inserted into both.
proof fn lemma_submap_insert(
    a: Map<BlockHash, ValidatedBlockHeader>,
    b: Map<BlockHash, ValidatedBlockHeader>,
    key: BlockHash,
    value: ValidatedBlockHeader,
)
    requires
        a.submap_of(b),
    ensures
        a.insert(key, value).submap_of(b.insert(key, value)),
{
    assert forall|k: BlockHash| #[trigger] a.insert(key, value).dom().contains(k) implies b.insert(
        key,
        value,
    ).dom().contains(k) && a.insert(key, value)[k] == b.insert(key, value)[k] by {
        if k != key {
            assert(a.dom().contains(k));
        }
    }
}

/// Taking entries out of a cache leaves nothing that it did not hold.
pub proof fn lemma_without_submap(
    cache: Map<BlockHash, ValidatedBlockHeader>,
    gone: Seq<ValidatedBlockHeader>,
)
    ensures
        without(cache, gone).submap_of(cache),
    decreases gone.len(),
{
    if gone.len() > 0 {
        lemma_without_submap(cache, gone.drop_last());
    }
}

} // verus!
