//! Finding the fork point between two chain tips.
//!
//! The search walks back from both tips, reading previous headers from the header cache. When
//! the cache lacks a header the search is suspended: the caller has the header looked up and
//! resumes the search with it.

use vstd::prelude::*;

use crate::cache::Cache;
use crate::error::{BlockSourceError, BlockSourceErrorKind};
use crate::header::{BlockHash, ValidatedBlockHeader};
use crate::notifier::ChainNotifier;

verus! {

/// Steps outlining changes needed to be made to the chain in order to transform it from having
/// one chain tip to another.
#[derive(Clone, Copy, Debug, PartialEq)]
pub enum ForkStep {
    /// The common ancestor of the two chains.
    ForkPoint(ValidatedBlockHeader),
    /// A header to be removed from its height.
    DisconnectBlock(ValidatedBlockHeader),
    /// A header to be added at its height.
    ConnectBlock(ValidatedBlockHeader),
}

/// Whether `parent` is the header that `child` was built on: it has the hash that `child` names
/// as previous, and stands one block lower.
pub open spec fn builds_on(child: ValidatedBlockHeader, parent: ValidatedBlockHeader) -> bool {
    &&& child.prev_blockhash() == parent.block_hash()
    &&& child.height() == parent.height() + 1
}

/// Whether each header of `chain` is built on the one that follows it.
pub open spec fn descending(chain: Seq<ValidatedBlockHeader>) -> bool {
    forall|i: int, j: int|
        0 <= i && j == i + 1 && j < chain.len() ==> builds_on(#[trigger] chain[i], #[trigger] chain[j])
}

/// Whether `cache` holds `header` under its hash, or nothing at all under it.
pub open spec fn agrees(
    cache: Map<BlockHash, ValidatedBlockHeader>,
    header: ValidatedBlockHeader,
) -> bool {
    cache.contains_key(header.block_hash()) ==> cache[header.block_hash()] == header
}

/// The headers that `steps` disconnects, in the order of the steps.
pub open spec fn disconnected(steps: Seq<ForkStep>) -> Seq<ValidatedBlockHeader>
    decreases steps.len(),
{
    if steps.len() == 0 {
        Seq::empty()
    } else {
        match steps.last() {
            ForkStep::DisconnectBlock(header) => disconnected(steps.drop_last()).push(header),
            _ => disconnected(steps.drop_last()),
        }
    }
}

/// The headers that `steps` connects, in the order of the steps.
pub open spec fn connected(steps: Seq<ForkStep>) -> Seq<ValidatedBlockHeader>
    decreases steps.len(),
{
    if steps.len() == 0 {
        Seq::empty()
    } else {
        match steps.last() {
            ForkStep::ConnectBlock(header) => connected(steps.drop_last()).push(header),
            _ => connected(steps.drop_last()),
        }
    }
}

/// Whether none of `steps` is a fork point.
pub open spec fn without_fork_point(steps: Seq<ForkStep>) -> bool {
    forall|i: int| 0 <= i < steps.len() ==> !(#[trigger] steps[i] is ForkPoint)
}

/// Whether `cache` agrees with every header that `steps` disconnects, and with the fork point
/// where `steps` ends with one.
pub open spec fn fork_agrees(
    cache: Map<BlockHash, ValidatedBlockHeader>,
    steps: Seq<ForkStep>,
) -> bool {
    &&& forall|i: int|
        0 <= i < disconnected(steps).len() ==> agrees(cache, #[trigger] disconnected(steps)[i])
    &&& steps.len() > 0 && steps.last() is ForkPoint ==> agrees(cache, steps.last()->ForkPoint_0)
}

/// What a complete list of steps from the tip `old_tip` to the tip `new_tip` looks like.
///
/// The disconnected headers lead from `old_tip` down, each built on the next. The connected
/// headers lead from `new_tip` down in the same way. Either nothing is disconnected, there is
/// no fork point, and the lowest connected header is built on `old_tip`; or the list ends with
/// the lowest disconnected header, the lowest connected header and its only fork point, in
/// this order, and both headers are built on the fork point.
pub open spec fn is_fork(
    steps: Seq<ForkStep>,
    new_tip: ValidatedBlockHeader,
    old_tip: ValidatedBlockHeader,
) -> bool {
    let gone = disconnected(steps);
    let come = connected(steps);
    &&& descending(gone)
    &&& descending(come)
    &&& come.len() > 0
    &&& come[0] == new_tip
    &&& if gone.len() == 0 {
        &&& without_fork_point(steps)
        &&& builds_on(come.last(), old_tip)
    } else {
        &&& gone[0] == old_tip
        &&& steps.len() >= 3
        &&& steps[steps.len() - 3] == ForkStep::DisconnectBlock(gone.last())
        &&& steps[steps.len() - 2] == ForkStep::ConnectBlock(come.last())
        &&& steps.last() is ForkPoint
        &&& without_fork_point(steps.drop_last())
        &&& builds_on(gone.last(), steps.last()->ForkPoint_0)
        &&& builds_on(come.last(), steps.last()->ForkPoint_0)
    }
}

/// Which previous header a search needs next.
pub enum Awaited {
    /// The common parent of both headers of the search.
    ForkPoint,
    /// The parent of the header on the old chain, which stands higher than the other.
    Previous,
    /// The parent of the header on the old chain, and then that of the other, which stands as
    /// high.
    PreviousThenCurrent,
    /// The parent of the header on the new chain.
    Current,
}

/// A point in the walk back from two tips.
pub struct Position {
    /// The steps found so far.
    pub steps: Seq<ForkStep>,
    /// The header reached on the chain of the new tip.
    pub current: ValidatedBlockHeader,
    /// The header reached on the chain of the old tip.
    pub previous: ValidatedBlockHeader,
    /// Whether `previous` was just stepped back from the height of `current`, so that `current`
    /// steps back next.
    pub owed: bool,
}

/// What accepting a previous header at a position leads to.
pub enum Accepted {
    /// The steps are complete.
    Found(Seq<ForkStep>),
    /// The walk goes on from another position.
    Moved(Position),
    /// The header is not the previous header that was needed.
    Invalid,
}

/// What a walk comes to on the headers that a cache holds.
pub enum Walk {
    /// The steps are complete.
    Found(Seq<ForkStep>),
    /// The cache lacks the previous header needed at this position.
    Suspended(Position),
    /// The cache holds a header that is not the previous header of the one it is stored for.
    Invalid,
}

impl Position {
    /// Whether the walk ends here: the header on the new chain is built on the one on the old
    /// chain.
    pub open spec fn extends(self) -> bool {
        !self.owed && builds_on(self.current, self.previous)
    }

    /// Which previous header is needed here, where the walk does not end.
    pub open spec fn awaits(self) -> Awaited {
        if self.owed {
            Awaited::Current
        } else if self.current.prev_blockhash() == self.previous.prev_blockhash() {
            Awaited::ForkPoint
        } else if self.current.height() < self.previous.height() {
            Awaited::Previous
        } else if self.current.height() == self.previous.height() {
            Awaited::PreviousThenCurrent
        } else {
            Awaited::Current
        }
    }

    /// The header whose previous header is needed here.
    pub open spec fn child(self) -> ValidatedBlockHeader {
        match self.awaits() {
            Awaited::Current => self.current,
            _ => self.previous,
        }
    }

    /// Takes `parent` for the previous header needed here. It must be the header that the
    /// child was built on; a fork point must be the one both headers were built on.
    pub open spec fn accept(self, parent: ValidatedBlockHeader) -> Accepted {
        match self.awaits() {
            Awaited::ForkPoint => if builds_on(self.previous, parent) && builds_on(
                self.current,
                parent,
            ) {
                Accepted::Found(
                    self.steps.push(ForkStep::DisconnectBlock(self.previous)).push(
                        ForkStep::ConnectBlock(self.current),
                    ).push(ForkStep::ForkPoint(parent)),
                )
            } else {
                Accepted::Invalid
            },
            Awaited::Previous => if builds_on(self.previous, parent) {
                Accepted::Moved(
                    Position {
                        steps: self.steps.push(ForkStep::DisconnectBlock(self.previous)),
                        current: self.current,
                        previous: parent,
                        owed: false,
                    },
                )
            } else {
                Accepted::Invalid
            },
            Awaited::PreviousThenCurrent => if builds_on(self.previous, parent) {
                Accepted::Moved(
                    Position {
                        steps: self.steps.push(ForkStep::DisconnectBlock(self.previous)),
                        current: self.current,
                        previous: parent,
                        owed: true,
                    },
                )
            } else {
                Accepted::Invalid
            },
            Awaited::Current => if builds_on(self.current, parent) {
                Accepted::Moved(
                    Position {
                        steps: self.steps.push(ForkStep::ConnectBlock(self.current)),
                        current: parent,
                        previous: self.previous,
                        owed: false,
                    },
                )
            } else {
                Accepted::Invalid
            },
        }
    }

    /// Walks back from here for as long as `cache` holds the previous headers needed.
    ///
    /// Where the header on the new chain is built on the one on the old chain, it is the last to
    /// connect. Where both were built on the same header, the one is connected, the other
    /// disconnected, and their parent is the fork point. Otherwise the header that stands
    /// higher steps back, or both where they stand equal, the one on the old chain first.
    pub open spec fn walk(self, cache: Map<BlockHash, ValidatedBlockHeader>) -> Walk
        decreases self.current.height() + self.previous.height(),
    {
        if self.extends() {
            Walk::Found(self.steps.push(ForkStep::ConnectBlock(self.current)))
        } else if !cache.contains_key(self.child().prev_blockhash()) {
            Walk::Suspended(self)
        } else {
            match self.accept(cache[self.child().prev_blockhash()]) {
                Accepted::Found(steps) => Walk::Found(steps),
                Accepted::Moved(next) => next.walk(cache),
                Accepted::Invalid => Walk::Invalid,
            }
        }
    }

    /// Goes on from here with `parent` as the previous header needed.
    pub open spec fn resume(
        self,
        cache: Map<BlockHash, ValidatedBlockHeader>,
        parent: ValidatedBlockHeader,
    ) -> Walk {
        match self.accept(parent) {
            Accepted::Found(steps) => Walk::Found(steps),
            Accepted::Moved(next) => next.walk(cache),
            Accepted::Invalid => Walk::Invalid,
        }
    }

    /// Whether this is a position of a walk from `new_tip` and `old_tip`, reached over previous
    /// headers alone: the disconnected headers and `previous` lead down from `old_tip`, the
    /// connected headers and `current` from `new_tip`, and once a header has been disconnected
    /// `current` stands no higher than `previous`, but for the one step it may owe.
    pub open spec fn reached_from(
        self,
        new_tip: ValidatedBlockHeader,
        old_tip: ValidatedBlockHeader,
    ) -> bool {
        let gone = disconnected(self.steps).push(self.previous);
        let come = connected(self.steps).push(self.current);
        &&& without_fork_point(self.steps)
        &&& descending(gone)
        &&& descending(come)
        &&& gone[0] == old_tip
        &&& come[0] == new_tip
        &&& self.owed ==> self.current.height() == self.previous.height() + 1 && gone.len() > 1
        &&& !self.owed && gone.len() > 1 ==> self.current.height() <= self.previous.height()
    }

    /// Whether `cache` agrees with every header that the walk has passed on the old chain.
    pub open spec fn passed_agree(self, cache: Map<BlockHash, ValidatedBlockHeader>) -> bool {
        &&& agrees(cache, self.previous)
        &&& forall|i: int|
            0 <= i < disconnected(self.steps).len() ==> agrees(
                cache,
                #[trigger] disconnected(self.steps)[i],
            )
    }

    /// The position at which the walk from two tips starts.
    pub open spec fn start(
        new_tip: ValidatedBlockHeader,
        old_tip: ValidatedBlockHeader,
    ) -> Position {
        Position { steps: Seq::empty(), current: new_tip, previous: old_tip, owed: false }
    }
}

/// Pushing a step onto `steps` adds its header to the disconnected or the connected headers.
pub proof fn lemma_push_step(steps: Seq<ForkStep>, step: ForkStep)
    ensures
        disconnected(steps.push(step)) == (match step {
            ForkStep::DisconnectBlock(header) => disconnected(steps).push(header),
            _ => disconnected(steps),
        }),
        connected(steps.push(step)) == (match step {
            ForkStep::ConnectBlock(header) => connected(steps).push(header),
            _ => connected(steps),
        }),
{
    assert(steps.push(step).drop_last() =~= steps);
}

/// A chain that leads down stays one when the parent of its last header is added.
pub proof fn lemma_descending_push(chain: Seq<ValidatedBlockHeader>, parent: ValidatedBlockHeader)
    requires
        descending(chain),
        chain.len() > 0 ==> builds_on(chain.last(), parent),
    ensures
        descending(chain.push(parent)),
{
    let longer = chain.push(parent);
    assert forall|i: int, j: int| 0 <= i && j == i + 1 && j < longer.len() implies builds_on(
        #[trigger] longer[i],
        #[trigger] longer[j],
    ) by {
        if j < chain.len() {
            assert(builds_on(chain[i], chain[j]));
        }
    }
}

/// A chain that leads down still does without its last header.
pub proof fn lemma_descending_drop_last(chain: Seq<ValidatedBlockHeader>)
    requires
        descending(chain),
        chain.len() > 0,
    ensures
        descending(chain.drop_last()),
{
    let shorter = chain.drop_last();
    assert forall|i: int, j: int| 0 <= i && j == i + 1 && j < shorter.len() implies builds_on(
        #[trigger] shorter[i],
        #[trigger] shorter[j],
    ) by {
        assert(builds_on(chain[i], chain[j]));
    }
}

/// Accepting a previous header at a position of a walk completes the steps into a fork, or
/// leads to another position of the walk, lower by one block.
pub proof fn lemma_accept(
    position: Position,
    parent: ValidatedBlockHeader,
    new_tip: ValidatedBlockHeader,
    old_tip: ValidatedBlockHeader,
)
    requires
        position.reached_from(new_tip, old_tip),
        !position.extends(),
    ensures
        match position.accept(parent) {
            Accepted::Found(steps) => is_fork(steps, new_tip, old_tip),
            Accepted::Moved(next) => {
                &&& next.reached_from(new_tip, old_tip)
                &&& next.current.height() + next.previous.height() + 1
                    == position.current.height() + position.previous.height()
            },
            Accepted::Invalid => true,
        },
{
    let gone = disconnected(position.steps);
    let come = connected(position.steps);
    let gone_on = gone.push(position.previous);
    let come_on = come.push(position.current);
    assert(gone_on.drop_last() =~= gone);
    assert(come_on.drop_last() =~= come);
    lemma_descending_drop_last(gone_on);
    lemma_descending_drop_last(come_on);
    let disconnect = ForkStep::DisconnectBlock(position.previous);
    let connect = ForkStep::ConnectBlock(position.current);
    match position.accept(parent) {
        Accepted::Found(steps) => {
            let first = position.steps.push(disconnect);
            let second = first.push(connect);
            lemma_push_step(position.steps, disconnect);
            lemma_push_step(first, connect);
            lemma_push_step(second, ForkStep::ForkPoint(parent));
            assert(steps == second.push(ForkStep::ForkPoint(parent)));
            assert(disconnected(steps) == gone_on);
            assert(connected(steps) == come_on);
            assert(steps.drop_last() =~= second);
            assert(without_fork_point(second));
            assert(gone_on.last() == position.previous);
            assert(come_on.last() == position.current);
        },
        Accepted::Moved(next) => {
            match position.awaits() {
                Awaited::Current => {
                    lemma_push_step(position.steps, connect);
                    lemma_descending_push(come_on, parent);
                    assert(disconnected(next.steps).push(next.previous) == gone_on);
                    assert(connected(next.steps).push(next.current) == come_on.push(parent));
                    assert(come_on.push(parent)[0] == come_on[0]);
                },
                _ => {
                    lemma_push_step(position.steps, disconnect);
                    lemma_descending_push(gone_on, parent);
                    assert(connected(next.steps).push(next.current) == come_on);
                    assert(disconnected(next.steps).push(next.previous) == gone_on.push(parent));
                    assert(gone_on.push(parent)[0] == gone_on[0]);
                },
            }
            assert(without_fork_point(next.steps));
        },
        Accepted::Invalid => {},
    }
}

/// Accepting a previous header that agrees with the cache keeps the cache in agreement with
/// the headers passed on the old chain.
pub proof fn lemma_accept_agrees(
    position: Position,
    parent: ValidatedBlockHeader,
    cache: Map<BlockHash, ValidatedBlockHeader>,
)
    requires
        position.passed_agree(cache),
        agrees(cache, parent),
    ensures
        match position.accept(parent) {
            Accepted::Found(steps) => fork_agrees(cache, steps),
            Accepted::Moved(next) => next.passed_agree(cache),
            Accepted::Invalid => true,
        },
{
    let disconnect = ForkStep::DisconnectBlock(position.previous);
    let connect = ForkStep::ConnectBlock(position.current);
    lemma_push_step(position.steps, disconnect);
    lemma_push_step(position.steps, connect);
    match position.accept(parent) {
        Accepted::Found(steps) => {
            let first = position.steps.push(disconnect);
            let second = first.push(connect);
            lemma_push_step(first, connect);
            lemma_push_step(second, ForkStep::ForkPoint(parent));
        },
        _ => {},
    }
}

/// A walk from a position reached from two tips ends with a fork between them, or is suspended
/// at another such position, where the cache lacks the previous header needed.
pub proof fn lemma_walk(
    position: Position,
    cache: Map<BlockHash, ValidatedBlockHeader>,
    new_tip: ValidatedBlockHeader,
    old_tip: ValidatedBlockHeader,
)
    requires
        position.reached_from(new_tip, old_tip),
    ensures
        match position.walk(cache) {
            Walk::Found(steps) => is_fork(steps, new_tip, old_tip),
            Walk::Suspended(at) => {
                &&& at.reached_from(new_tip, old_tip)
                &&& !at.extends()
                &&& !cache.contains_key(at.child().prev_blockhash())
            },
            Walk::Invalid => true,
        },
    decreases position.current.height() + position.previous.height(),
{
    if position.extends() {
        let connect = ForkStep::ConnectBlock(position.current);
        let steps = position.steps.push(connect);
        lemma_push_step(position.steps, connect);
        let gone_on = disconnected(position.steps).push(position.previous);
        let come_on = connected(position.steps).push(position.current);
        assert(gone_on.drop_last() =~= disconnected(position.steps));
        lemma_descending_drop_last(gone_on);
        assert(disconnected(steps).len() == 0);
        assert(gone_on[0] == position.previous);
        assert(come_on.last() == position.current);
    } else if cache.contains_key(position.child().prev_blockhash()) {
        let parent = cache[position.child().prev_blockhash()];
        lemma_accept(position, parent, new_tip, old_tip);
        match position.accept(parent) {
            Accepted::Moved(next) => {
                lemma_walk(next, cache, new_tip, old_tip);
            },
            _ => {},
        }
    }
}

/// A walk from a position where the cache agrees with the headers passed on the old chain
/// ends or is suspended with the cache still in agreement with them.
pub proof fn lemma_walk_agrees(position: Position, cache: Map<BlockHash, ValidatedBlockHeader>)
    requires
        position.passed_agree(cache),
    ensures
        match position.walk(cache) {
            Walk::Found(steps) => fork_agrees(cache, steps),
            Walk::Suspended(at) => at.passed_agree(cache),
            Walk::Invalid => true,
        },
    decreases position.current.height() + position.previous.height(),
{
    if position.extends() {
        lemma_push_step(position.steps, ForkStep::ConnectBlock(position.current));
    } else if cache.contains_key(position.child().prev_blockhash()) {
        let parent = cache[position.child().prev_blockhash()];
        match position.accept(parent) {
            Accepted::Moved(next) => {
                lemma_accept_agrees(position, parent, cache);
                lemma_walk_agrees(next, cache);
            },
            Accepted::Found(steps) => {
                lemma_accept_agrees(position, parent, cache);
            },
            Accepted::Invalid => {},
        }
    }
}

/// A search for the fork point that waits for a previous header which the cache lacks.
pub struct ForkSearch {
    steps: Vec<ForkStep>,
    current: ValidatedBlockHeader,
    previous: ValidatedBlockHeader,
    owed: bool,
    new_tip: ValidatedBlockHeader,
    old_tip: ValidatedBlockHeader,
}

/// How far a search for the fork point has come.
pub enum FindFork {
    /// The steps from the old tip to the new one.
    Found(Vec<ForkStep>),
    /// The search needs the previous header of [`ForkSearch::awaited`] looked up, and is
    /// resumed with it.
    LookUp(ForkSearch),
    /// The search has failed.
    Failed(BlockSourceError),
}

/// What accepting a previous header has led to.
enum Moved {
    Found(Vec<ForkStep>),
    Next(ForkSearch),
    Invalid,
}

impl View for ForkSearch {
    type V = Position;

    closed spec fn view(&self) -> Position {
        Position {
            steps: self.steps@,
            current: self.current,
            previous: self.previous,
            owed: self.owed,
        }
    }
}

impl ForkSearch {
    /// The tip that the search leads to, as a specification.
    pub closed spec fn spec_new_tip(&self) -> ValidatedBlockHeader {
        self.new_tip
    }

    /// The tip that the search started from, as a specification.
    pub closed spec fn spec_old_tip(&self) -> ValidatedBlockHeader {
        self.old_tip
    }

    /// Whether the search is suspended on `cache`: it stands at a position of the walk between
    /// its tips where `cache` lacks the previous header needed, and `cache`, if it agreed with
    /// the old tip, agrees with every header passed on the chain of the old tip.
    pub open spec fn suspended_on(&self, cache: Map<BlockHash, ValidatedBlockHeader>) -> bool {
        &&& self@.reached_from(self.new_tip(), self.old_tip())
        &&& !self@.extends()
        &&& !cache.contains_key(self@.child().prev_blockhash())
        &&& agrees(cache, self.old_tip()) ==> self@.passed_agree(cache)
    }

    /// The tip that the search leads to.
    #[verifier::when_used_as_spec(spec_new_tip)]
    pub fn new_tip(&self) -> (tip: ValidatedBlockHeader)
        ensures
            tip == self.new_tip(),
    {
        self.new_tip
    }

    /// The tip that the search started from.
    #[verifier::when_used_as_spec(spec_old_tip)]
    pub fn old_tip(&self) -> (tip: ValidatedBlockHeader)
        ensures
            tip == self.old_tip(),
    {
        self.old_tip
    }

    /// The header whose previous header the search waits for.
    pub fn awaited(&self) -> (header: ValidatedBlockHeader)
        ensures
            header == self@.child(),
    {
        match self.awaits() {
            Awaited::Current => self.current,
            _ => self.previous,
        }
    }

    /// Which previous header the search needs next.
    fn awaits(&self) -> (awaited: Awaited)
        ensures
            awaited == self@.awaits(),
    {
        if self.owed {
            Awaited::Current
        } else if self.current.prev_blockhash() == self.previous.prev_blockhash() {
            Awaited::ForkPoint
        } else if self.current.height() < self.previous.height() {
            Awaited::Previous
        } else if self.current.height() == self.previous.height() {
            Awaited::PreviousThenCurrent
        } else {
            Awaited::Current
        }
    }

    /// Takes `parent` for the previous header that the search needs.
    fn accept(self, parent: ValidatedBlockHeader) -> (moved: Moved)
        ensures
            match moved {
                Moved::Found(steps) => self@.accept(parent) == Accepted::Found(steps@),
                Moved::Next(next) => {
                    &&& self@.accept(parent) == Accepted::Moved(next@)
                    &&& next.new_tip() == self.new_tip()
                    &&& next.old_tip() == self.old_tip()
                },
                Moved::Invalid => self@.accept(parent) == Accepted::Invalid,
            },
    {
        let awaited = self.awaits();
        let ForkSearch { mut steps, current, previous, owed: _, new_tip, old_tip } = self;
        match awaited {
            Awaited::ForkPoint => {
                if is_built_on(&previous, &parent) && is_built_on(&current, &parent) {
                    steps.push(ForkStep::DisconnectBlock(previous));
                    steps.push(ForkStep::ConnectBlock(current));
                    steps.push(ForkStep::ForkPoint(parent));
                    Moved::Found(steps)
                } else {
                    Moved::Invalid
                }
            },
            Awaited::Previous => {
                if is_built_on(&previous, &parent) {
                    steps.push(ForkStep::DisconnectBlock(previous));
                    Moved::Next(
                        ForkSearch { steps, current, previous: parent, owed: false, new_tip, old_tip },
                    )
                } else {
                    Moved::Invalid
                }
            },
            Awaited::PreviousThenCurrent => {
                if is_built_on(&previous, &parent) {
                    steps.push(ForkStep::DisconnectBlock(previous));
                    Moved::Next(
                        ForkSearch { steps, current, previous: parent, owed: true, new_tip, old_tip },
                    )
                } else {
                    Moved::Invalid
                }
            },
            Awaited::Current => {
                if is_built_on(&current, &parent) {
                    steps.push(ForkStep::ConnectBlock(current));
                    Moved::Next(
                        ForkSearch { steps, current: parent, previous, owed: false, new_tip, old_tip },
                    )
                } else {
                    Moved::Invalid
                }
            },
        }
    }
}

impl FindFork {
    /// Whether this is what `walk` comes to, for a search between `new_tip` and `old_tip`. A walk
    /// that meets a header which is not the previous header needed fails with a persistent
    /// error.
    pub open spec fn reflects(
        self,
        walk: Walk,
        new_tip: ValidatedBlockHeader,
        old_tip: ValidatedBlockHeader,
    ) -> bool {
        match self {
            FindFork::Found(steps) => walk == Walk::Found(steps@),
            FindFork::LookUp(search) => {
                &&& walk == Walk::Suspended(search@)
                &&& search.new_tip() == new_tip
                &&& search.old_tip() == old_tip
            },
            FindFork::Failed(e) => {
                &&& walk == Walk::Invalid
                &&& e.kind() == BlockSourceErrorKind::Persistent
                &&& e.message() == "invalid previous header"@
            },
        }
    }

    /// Whether what was found is sound for a search between `new_tip` and `old_tip` on `cache`:
    /// steps that were found are a fork between the tips, and a search to resume is suspended
    /// on `cache`. In both cases `cache`, if it agreed with the old tip, agrees with every header
    /// to disconnect, and with the fork point.
    pub open spec fn sound(
        self,
        cache: Map<BlockHash, ValidatedBlockHeader>,
        new_tip: ValidatedBlockHeader,
        old_tip: ValidatedBlockHeader,
    ) -> bool {
        match self {
            FindFork::Found(steps) => {
                &&& is_fork(steps@, new_tip, old_tip)
                &&& agrees(cache, old_tip) ==> fork_agrees(cache, steps@)
            },
            FindFork::LookUp(search) => {
                &&& search.new_tip() == new_tip
                &&& search.old_tip() == old_tip
                &&& search.suspended_on(cache)
            },
            FindFork::Failed(_) => true,
        }
    }
}

/// Whether `parent` is the header that `child` was built on.
fn is_built_on(child: &ValidatedBlockHeader, parent: &ValidatedBlockHeader) -> (built: bool)
    ensures
        built == builds_on(*child, *parent),
{
    child.height() > 0 && parent.height() == child.height() - 1 && child.prev_blockhash()
        == parent.block_hash()
}

impl<C: Cache> ChainNotifier<C> {
    /// Walks backwards from `current_header` and `prev_header`, finding the common ancestor.
    /// Finds the steps needed to produce the chain with `current_header` as its tip from the
    /// chain with `prev_header` as its tip, as far as the header cache holds the previous
    /// headers. `DisconnectBlock` and `ConnectBlock` steps are each found in height-descending
    /// order.
    pub fn find_fork(
        &self,
        current_header: ValidatedBlockHeader,
        prev_header: &ValidatedBlockHeader,
    ) -> (found: FindFork)
        ensures
            found.reflects(
                Position::start(current_header, *prev_header).walk(self.entries()),
                current_header,
                *prev_header,
            ),
            found.sound(self.entries(), current_header, *prev_header),
    {
        let search = ForkSearch {
            steps: Vec::new(),
            current: current_header,
            previous: *prev_header,
            owed: false,
            new_tip: current_header,
            old_tip: *prev_header,
        };
        proof {
            let start = Position::start(current_header, *prev_header);
            assert(search@ == start);
            assert(disconnected(start.steps).len() == 0);
            assert(connected(start.steps).len() == 0);
        }
        self.walk_on(search)
    }

    /// Resumes a search with what looking up the previous header of [`ForkSearch::awaited`] has
    /// given. An error ends the search.
    pub fn resume_find_fork(
        &self,
        search: ForkSearch,
        looked_up: Result<ValidatedBlockHeader, BlockSourceError>,
    ) -> (found: FindFork)
        requires
            search.suspended_on(self.entries()),
        ensures
            match looked_up {
                Ok(parent) => found.reflects(
                    search@.resume(self.entries(), parent),
                    search.new_tip(),
                    search.old_tip(),
                ),
                Err(e) => found == FindFork::Failed(e),
            },
            found.sound(self.entries(), search.new_tip(), search.old_tip()),
    {
        match looked_up {
            Ok(parent) => {
                proof {
                    lemma_accept(search@, parent, search.new_tip(), search.old_tip());
                    if agrees(self.entries(), search.old_tip()) && builds_on(
                        search@.child(),
                        parent,
                    ) {
                        lemma_accept_agrees(search@, parent, self.entries());
                    }
                }
                match search.accept(parent) {
                    Moved::Found(steps) => FindFork::Found(steps),
                    Moved::Next(next) => self.walk_on(next),
                    Moved::Invalid => FindFork::Failed(
                        BlockSourceError::persistent("invalid previous header"),
                    ),
                }
            },
            Err(e) => FindFork::Failed(e),
        }
    }

    /// Walks back from where `search` stands until the steps are complete, a previous header is
    /// missing from the cache, or one turns out not to be the header needed.
    fn walk_on(&self, search: ForkSearch) -> (found: FindFork)
        requires
            search@.reached_from(search.new_tip(), search.old_tip()),
            agrees(self.entries(), search.old_tip()) ==> search@.passed_agree(self.entries()),
        ensures
            found.reflects(search@.walk(self.entries()), search.new_tip(), search.old_tip()),
            found.sound(self.entries(), search.new_tip(), search.old_tip()),
    {
        let ghost new_tip = search.new_tip();
        let ghost old_tip = search.old_tip();
        let ghost walk = search@.walk(self.entries());
        proof {
            lemma_walk(search@, self.entries(), new_tip, old_tip);
            if agrees(self.entries(), old_tip) {
                lemma_walk_agrees(search@, self.entries());
            }
        }
        let mut at = search;
        loop
            invariant
                new_tip == search.new_tip(),
                old_tip == search.old_tip(),
                walk == search@.walk(self.entries()),
                at.new_tip() == new_tip,
                at.old_tip() == old_tip,
                at@.walk(self.entries()) == walk,
                match walk {
                    Walk::Found(steps) => {
                        &&& is_fork(steps, new_tip, old_tip)
                        &&& agrees(self.entries(), old_tip) ==> fork_agrees(self.entries(), steps)
                    },
                    Walk::Suspended(to) => {
                        &&& to.reached_from(new_tip, old_tip)
                        &&& !to.extends()
                        &&& !self.entries().contains_key(to.child().prev_blockhash())
                        &&& agrees(self.entries(), old_tip) ==> to.passed_agree(self.entries())
                    },
                    Walk::Invalid => true,
                },
            decreases at@.current.height() + at@.previous.height(),
        {
            if !at.owed && is_built_on(&at.current, &at.previous) {
                let ForkSearch { mut steps, current, .. } = at;
                steps.push(ForkStep::ConnectBlock(current));
                return FindFork::Found(steps);
            }
            let child = at.awaited();
            match self.look_up_previous_header(&child) {
                None => {
                    return FindFork::LookUp(at);
                },
                Some(parent) => {
                    match at.accept(parent) {
                        Moved::Found(steps) => {
                            return FindFork::Found(steps);
                        },
                        Moved::Next(next) => {
                            at = next;
                        },
                        Moved::Invalid => {
                            return FindFork::Failed(
                                BlockSourceError::persistent("invalid previous header"),
                            );
                        },
                    }
                },
            }
        }
    }
}

} // verus!
