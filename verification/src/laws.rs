//! What holds of every sync, whatever the block source answers.

use vstd::multiset::Multiset;
use vstd::prelude::*;

use crate::fork::{
    builds_on, connected, descending, disconnected, lemma_accept, lemma_push_step, Accepted,
    Awaited, ForkStep, Position, Walk,
};
use crate::header::{BlockHash, ValidatedBlockHeader};
use crate::notifier::{
    ascending, lemma_connected_ascends, lemma_pending_descends, lemma_submap_at, with, without,
    BlockFetch, ChainEvent, SyncTrace,
};

verus! {

/// Whether the notifications come in order: no disconnect follows a connect, the heights of the
/// disconnected blocks fall strictly, and the heights of the connected blocks rise strictly.
pub open spec fn in_order(events: Seq<ChainEvent>) -> bool {
    forall|i: int, j: int|
        0 <= i < j < events.len() ==> match (#[trigger] events[i], #[trigger] events[j]) {
            (ChainEvent::BlockDisconnected(first), ChainEvent::BlockDisconnected(second)) =>
                first.height() > second.height(),
            (ChainEvent::BlockDisconnected(_), ChainEvent::BlockConnected(_)) => true,
            (ChainEvent::BlockConnected(_), ChainEvent::BlockDisconnected(_)) => false,
            (ChainEvent::BlockConnected(first), ChainEvent::BlockConnected(second)) =>
                first.height() < second.height(),
        }
}

/// Along a chain that leads down, the height falls by one with every header.
pub proof fn lemma_heights_fall(chain: Seq<ValidatedBlockHeader>, i: int, j: int)
    requires
        descending(chain),
        0 <= i <= j < chain.len(),
    ensures
        chain[i].height() == chain[j].height() + (j - i),
    decreases j - i,
{
    if i < j {
        lemma_heights_fall(chain, i + 1, j);
        assert(builds_on(chain[i], chain[i + 1]));
    }
}

/// Along a chain that leads up, the height rises by one with every header.
pub proof fn lemma_heights_rise(chain: Seq<ValidatedBlockHeader>, i: int, j: int)
    requires
        ascending(chain),
        0 <= i <= j < chain.len(),
    ensures
        chain[j].height() == chain[i].height() + (j - i),
    decreases j - i,
{
    if i < j {
        lemma_heights_rise(chain, i + 1, j);
        assert(builds_on(chain[i + 1], chain[i]));
    }
}

/// Event ordering: in every sync the disconnects precede the connects, the disconnected blocks
/// come in strictly descending height and the connected blocks in strictly ascending height.
pub proof fn lemma_event_ordering(trace: SyncTrace)
    requires
        trace.wf(),
    ensures
        in_order(trace.events()),
{
    let events = trace.events();
    let gone = trace.disconnected;
    let come = trace.connected;
    lemma_connected_ascends(trace);
    assert forall|i: int, j: int| 0 <= i < j < events.len() implies match (
        #[trigger] events[i],
        #[trigger] events[j],
    ) {
        (ChainEvent::BlockDisconnected(first), ChainEvent::BlockDisconnected(second)) =>
            first.height() > second.height(),
        (ChainEvent::BlockDisconnected(_), ChainEvent::BlockConnected(_)) => true,
        (ChainEvent::BlockConnected(_), ChainEvent::BlockDisconnected(_)) => false,
        (ChainEvent::BlockConnected(first), ChainEvent::BlockConnected(second)) => first.height()
            < second.height(),
    } by {
        if j < gone.len() {
            lemma_heights_fall(gone, i, j);
        } else if i >= gone.len() {
            lemma_heights_rise(come, i - gone.len(), j - gone.len());
        }
    }
}

/// The headers that a listener believes connected once it has been told `events`, where it
/// believed `before` connected: a disconnect takes the header out, a connect puts it in.
pub open spec fn believed(
    before: Multiset<ValidatedBlockHeader>,
    events: Seq<ChainEvent>,
) -> Multiset<ValidatedBlockHeader>
    decreases events.len(),
{
    if events.len() == 0 {
        before
    } else {
        match events.last() {
            ChainEvent::BlockDisconnected(header) => believed(before, events.drop_last()).remove(
                header,
            ),
            ChainEvent::BlockConnected(header) => believed(before, events.drop_last()).insert(
                header,
            ),
        }
    }
}

/// What is believed after one more notification.
proof fn lemma_believed_push(
    before: Multiset<ValidatedBlockHeader>,
    events: Seq<ChainEvent>,
    event: ChainEvent,
)
    ensures
        believed(before, events.push(event)) == (match event {
            ChainEvent::BlockDisconnected(header) => believed(before, events).remove(header),
            ChainEvent::BlockConnected(header) => believed(before, events).insert(header),
        }),
{
    assert(events.push(event).drop_last() =~= events);
}

/// What is believed after the first `gone` disconnects and the first `come` connects of a sync.
proof fn lemma_believed_so_far(
    trace: SyncTrace,
    before: Multiset<ValidatedBlockHeader>,
    gone: int,
    come: int,
)
    requires
        0 <= gone <= trace.disconnected.len(),
        0 <= come <= trace.connected.len(),
        come > 0 ==> gone == trace.disconnected.len(),
    ensures
        believed(before, trace.events().take(gone + come)) == before.sub(
            trace.disconnected.take(gone).to_multiset(),
        ).add(trace.connected.take(come).to_multiset()),
    decreases gone + come,
{
    broadcast use vstd::multiset::group_multiset_axioms;

    let events = trace.events();
    if gone + come == 0 {
        assert(events.take(0) =~= Seq::<ChainEvent>::empty());
        assert(trace.disconnected.take(0) =~= Seq::<ValidatedBlockHeader>::empty());
        assert(trace.connected.take(0) =~= Seq::<ValidatedBlockHeader>::empty());
        Seq::<ValidatedBlockHeader>::empty().to_multiset_ensures();
        assert(Seq::<ValidatedBlockHeader>::empty().to_multiset().len() == 0);
        assert(believed(before, events.take(0)) =~= before.sub(
            Seq::<ValidatedBlockHeader>::empty().to_multiset(),
        ).add(Seq::<ValidatedBlockHeader>::empty().to_multiset()));
    } else if come > 0 {
        lemma_believed_so_far(trace, before, gone, come - 1);
        let header = trace.connected[come - 1];
        assert(events.take(gone + come) =~= events.take(gone + come - 1).push(
            ChainEvent::BlockConnected(header),
        ));
        lemma_believed_push(
            before,
            events.take(gone + come - 1),
            ChainEvent::BlockConnected(header),
        );
        assert(trace.connected.take(come) =~= trace.connected.take(come - 1).push(header));
        trace.connected.take(come - 1).to_multiset_ensures();
        assert(believed(before, events.take(gone + come)) =~= before.sub(
            trace.disconnected.take(gone).to_multiset(),
        ).add(trace.connected.take(come).to_multiset()));
    } else {
        lemma_believed_so_far(trace, before, gone - 1, 0);
        let header = trace.disconnected[gone - 1];
        assert(events.take(gone) =~= events.take(gone - 1).push(
            ChainEvent::BlockDisconnected(header),
        ));
        lemma_believed_push(before, events.take(gone - 1), ChainEvent::BlockDisconnected(header));
        assert(trace.disconnected.take(gone) =~= trace.disconnected.take(gone - 1).push(header));
        trace.disconnected.take(gone - 1).to_multiset_ensures();
        assert(trace.connected.take(0) =~= Seq::<ValidatedBlockHeader>::empty());
        Seq::<ValidatedBlockHeader>::empty().to_multiset_ensures();
        assert(Seq::<ValidatedBlockHeader>::empty().to_multiset().len() == 0);
        assert(believed(before, events.take(gone)) =~= before.sub(
            trace.disconnected.take(gone).to_multiset(),
        ).add(trace.connected.take(0).to_multiset()));
    }
}

/// Conservation: after a sync that reached the new tip, the headers that the listener believes
/// connected are those it believed connected before, less the disconnected headers, and the
/// connected headers. The disconnected headers are the old tip and its ancestors down to the
/// header built on the base; the connected headers are the new tip and its ancestors down to
/// the header built on the base.
pub proof fn lemma_conservation(trace: SyncTrace, before: Multiset<ValidatedBlockHeader>)
    requires
        trace.wf(),
        trace.complete(),
    ensures
        believed(before, trace.events()) == before.sub(trace.disconnected.to_multiset()).add(
            trace.connected.to_multiset(),
        ),
        descending(trace.disconnected),
        trace.disconnected.len() > 0 ==> trace.disconnected[0] == trace.old_tip && builds_on(
            trace.disconnected.last(),
            trace.base,
        ),
        trace.disconnected.len() == 0 ==> trace.base == trace.old_tip,
        ascending(trace.connected),
        builds_on(trace.connected[0], trace.base),
        trace.connected.last() == trace.new_tip,
{
    lemma_connected_ascends(trace);
    lemma_believed_so_far(
        trace,
        before,
        trace.disconnected.len() as int,
        trace.connected.len() as int,
    );
    assert(trace.events().take(trace.disconnected.len() as int + trace.connected.len() as int)
        =~= trace.events());
    assert(trace.disconnected.take(trace.disconnected.len() as int) =~= trace.disconnected);
    assert(trace.connected.take(trace.connected.len() as int) =~= trace.connected);
}

/// A cache without the entries of some headers holds nothing under the hash of any of them.
pub proof fn lemma_without_lacks(
    cache: Map<BlockHash, ValidatedBlockHeader>,
    gone: Seq<ValidatedBlockHeader>,
    i: int,
)
    requires
        0 <= i < gone.len(),
    ensures
        !without(cache, gone).contains_key(gone[i].block_hash()),
    decreases gone.len(),
{
    if i < gone.len() - 1 {
        lemma_without_lacks(cache, gone.drop_last(), i);
    }
}

/// A cache with some headers inserted holds, under a hash that is not the hash of any of them,
/// what it held before.
pub proof fn lemma_with_keeps(
    cache: Map<BlockHash, ValidatedBlockHeader>,
    come: Seq<ValidatedBlockHeader>,
    key: BlockHash,
)
    requires
        forall|j: int| 0 <= j < come.len() ==> (#[trigger] come[j]).block_hash() != key,
    ensures
        with(cache, come).contains_key(key) == cache.contains_key(key),
        cache.contains_key(key) ==> with(cache, come)[key] == cache[key],
    decreases come.len(),
{
    if come.len() > 0 {
        assert(come.last().block_hash() != key);
        assert forall|j: int| 0 <= j < come.drop_last().len() implies (
        #[trigger] come.drop_last()[j]).block_hash() != key by {
            assert(come[j].block_hash() != key);
        }
        lemma_with_keeps(cache, come.drop_last(), key);
    }
}

/// A cache with some headers inserted holds each of them under its hash, unless a header
/// inserted later has the same hash.
pub proof fn lemma_with_holds(
    cache: Map<BlockHash, ValidatedBlockHeader>,
    come: Seq<ValidatedBlockHeader>,
    i: int,
)
    requires
        0 <= i < come.len(),
    ensures
        with(cache, come).contains_key(come[i].block_hash()),
        (forall|j: int| i < j < come.len() ==> (#[trigger] come[j]).block_hash()
            != come[i].block_hash()) ==> with(cache, come)[come[i].block_hash()] == come[i],
    decreases come.len(),
{
    if i < come.len() - 1 {
        lemma_with_holds(cache, come.drop_last(), i);
        if forall|j: int| i < j < come.len() ==> (#[trigger] come[j]).block_hash()
            != come[i].block_hash() {
            assert(come.last().block_hash() != come[i].block_hash());
            assert forall|j: int| i < j < come.drop_last().len() implies (
            #[trigger] come.drop_last()[j]).block_hash() != come[i].block_hash() by {
                assert(come[j].block_hash() != come[i].block_hash());
            }
        }
    }
}

/// Cache coherence: a cache that reflects what the listener was told holds no header that was
/// disconnected, unless a header with the same hash was connected; a cache that has dropped
/// nothing holds every header that was connected under its hash, and the header itself unless
/// one connected later has the same hash.
pub proof fn lemma_cache_coherence(trace: SyncTrace, entries: Map<BlockHash, ValidatedBlockHeader>)
    requires
        entries.submap_of(trace.cache_after()),
    ensures
        forall|i: int|
            #![trigger trace.disconnected[i]]
            0 <= i < trace.disconnected.len() && (forall|j: int|
                0 <= j < trace.connected.len() ==> (#[trigger] trace.connected[j]).block_hash()
                    != trace.disconnected[i].block_hash()) ==> !entries.contains_key(
                trace.disconnected[i].block_hash(),
            ),
        entries == trace.cache_after() ==> forall|i: int|
            #![trigger trace.connected[i]]
            0 <= i < trace.connected.len() ==> {
                &&& entries.contains_key(trace.connected[i].block_hash())
                &&& (forall|j: int|
                    i < j < trace.connected.len() ==> (#[trigger] trace.connected[j]).block_hash()
                        != trace.connected[i].block_hash()) ==> entries[trace.connected[i].block_hash()]
                    == trace.connected[i]
            },
{
    assert forall|i: int|
        #![trigger trace.disconnected[i]]
        0 <= i < trace.disconnected.len() && (forall|j: int|
            0 <= j < trace.connected.len() ==> (#[trigger] trace.connected[j]).block_hash()
                != trace.disconnected[i].block_hash()) implies !entries.contains_key(
        trace.disconnected[i].block_hash(),
    ) by {
        let key = trace.disconnected[i].block_hash();
        lemma_without_lacks(trace.cache, trace.disconnected, i);
        lemma_with_keeps(without(trace.cache, trace.disconnected), trace.connected, key);
        if entries.contains_key(key) {
            assert(entries.dom().contains(key));
            assert(trace.cache_after().dom().contains(key));
        }
    }
    if entries == trace.cache_after() {
        assert forall|i: int|
            #![trigger trace.connected[i]]
            0 <= i < trace.connected.len() implies {
            &&& entries.contains_key(trace.connected[i].block_hash())
            &&& (forall|j: int|
                i < j < trace.connected.len() ==> (#[trigger] trace.connected[j]).block_hash()
                    != trace.connected[i].block_hash()) ==> entries[trace.connected[i].block_hash()]
                == trace.connected[i]
        } by {
            lemma_with_holds(without(trace.cache, trace.disconnected), trace.connected, i);
        }
    }
}

/// The chain that a listener sees once it has been told `events`, where it saw `view`, lowest
/// header first: a disconnect takes the tip off, a connect puts a new tip on.
pub open spec fn seen(view: Seq<ValidatedBlockHeader>, events: Seq<ChainEvent>) -> Seq<
    ValidatedBlockHeader,
>
    decreases events.len(),
{
    if events.len() == 0 {
        view
    } else {
        match events.last() {
            ChainEvent::BlockDisconnected(_) => seen(view, events.drop_last()).drop_last(),
            ChainEvent::BlockConnected(header) => seen(view, events.drop_last()).push(header),
        }
    }
}

/// Whether the chain `view` that a listener sees ends with the old chain of a sync: the base,
/// and above it the disconnected headers, the old tip last.
pub open spec fn ends_with_old_chain(view: Seq<ValidatedBlockHeader>, trace: SyncTrace) -> bool {
    &&& view.len() > trace.disconnected.len()
    &&& view[view.len() - 1 - trace.disconnected.len()] == trace.base
    &&& forall|i: int|
        0 <= i < trace.disconnected.len() ==> view[view.len() - 1 - i]
            == #[trigger] trace.disconnected[i]
}

/// What a listener sees after the first `gone` disconnects and the first `come` connects of a
/// sync.
proof fn lemma_seen_so_far(trace: SyncTrace, view: Seq<ValidatedBlockHeader>, gone: int, come: int)
    requires
        view.len() > trace.disconnected.len(),
        0 <= gone <= trace.disconnected.len(),
        0 <= come <= trace.connected.len(),
        come > 0 ==> gone == trace.disconnected.len(),
    ensures
        seen(view, trace.events().take(gone + come)) == view.take(view.len() - gone)
            + trace.connected.take(come),
    decreases gone + come,
{
    let events = trace.events();
    if gone + come == 0 {
        assert(events.take(0) =~= Seq::<ChainEvent>::empty());
        assert(view.take(view.len() as int) + trace.connected.take(0) =~= view);
    } else if come > 0 {
        lemma_seen_so_far(trace, view, gone, come - 1);
        let header = trace.connected[come - 1];
        assert(events.take(gone + come) =~= events.take(gone + come - 1).push(
            ChainEvent::BlockConnected(header),
        ));
        assert(events.take(gone + come).drop_last() =~= events.take(gone + come - 1));
        assert((view.take(view.len() - gone) + trace.connected.take(come - 1)).push(header)
            =~= view.take(view.len() - gone) + trace.connected.take(come));
    } else {
        lemma_seen_so_far(trace, view, gone - 1, 0);
        let header = trace.disconnected[gone - 1];
        assert(events.take(gone) =~= events.take(gone - 1).push(
            ChainEvent::BlockDisconnected(header),
        ));
        assert(events.take(gone).drop_last() =~= events.take(gone - 1));
        assert((view.take(view.len() - (gone - 1)) + trace.connected.take(0)).drop_last()
            =~= view.take(view.len() - gone) + trace.connected.take(0));
    }
}

/// After what a sync has told a listener that saw the old chain, the listener sees the chain
/// that ends at the tip of the trace: what it saw up to the base, and the connected headers.
/// If what it saw was a chain, so is what it sees.
pub proof fn lemma_view_follows(trace: SyncTrace, view: Seq<ValidatedBlockHeader>)
    requires
        trace.wf(),
        ends_with_old_chain(view, trace),
    ensures
        seen(view, trace.events()) == view.take(view.len() - trace.disconnected.len())
            + trace.connected,
        seen(view, trace.events()).last() == trace.tip(),
        ascending(view) ==> ascending(seen(view, trace.events())),
{
    let gone = trace.disconnected.len() as int;
    let come = trace.connected.len() as int;
    lemma_connected_ascends(trace);
    lemma_seen_so_far(trace, view, gone, come);
    assert(trace.events().take(gone + come) =~= trace.events());
    assert(trace.connected.take(come) =~= trace.connected);
    let kept = view.take(view.len() - gone);
    let after = kept + trace.connected;
    assert(kept.last() == trace.base);
    if ascending(view) {
        assert forall|i: int, j: int| 0 <= i && j == i + 1 && j < after.len() implies builds_on(
            #[trigger] after[j],
            #[trigger] after[i],
        ) by {
            if j < kept.len() {
                assert(builds_on(view[j], view[i]));
            } else if j == kept.len() {
                assert(after[j] == trace.connected[0]);
            } else {
                assert(builds_on(trace.connected[j - kept.len()], trace.connected[i - kept.len()]));
            }
        }
    }
}

/// Partial-commit coherence: when a block cannot be fetched, the tip that the sync ends with is
/// the tip of the chain that the listener sees, and no header above it has been announced
/// connected: every connected header stands at or below it, every header still to connect
/// above it.
pub proof fn lemma_partial_commit(fetch: BlockFetch, view: Seq<ValidatedBlockHeader>)
    requires
        fetch.wf(),
        ends_with_old_chain(view, fetch.trace()),
    ensures
        seen(view, fetch.trace().events()).last() == fetch.tip(),
        forall|i: int|
            0 <= i < fetch.trace().connected.len() ==> (
            #[trigger] fetch.trace().connected[i]).height() <= fetch.tip().height(),
        forall|i: int|
            0 <= i < fetch.pending().len() ==> (#[trigger] fetch.pending()[i]).height()
                > fetch.tip().height(),
{
    let trace = fetch.trace();
    lemma_view_follows(trace, view);
    lemma_connected_ascends(trace);
    lemma_pending_descends(trace);
    assert forall|i: int| 0 <= i < trace.connected.len() implies (
    #[trigger] trace.connected[i]).height() <= fetch.tip().height() by {
        lemma_heights_rise(trace.connected, i, trace.connected.len() - 1);
    }
    assert forall|i: int| 0 <= i < fetch.pending().len() implies (
    #[trigger] fetch.pending()[i]).height() > fetch.tip().height() by {
        lemma_heights_fall(fetch.pending(), i, fetch.pending().len() - 1);
    }
}

/// On a store of headers that holds all that a cache holds, a walk comes to what it comes to on
/// the cache, and goes on where the walk on the cache is suspended.
pub proof fn lemma_walk_in_store(
    position: Position,
    cache: Map<BlockHash, ValidatedBlockHeader>,
    store: Map<BlockHash, ValidatedBlockHeader>,
)
    requires
        cache.submap_of(store),
    ensures
        match position.walk(cache) {
            Walk::Found(steps) => position.walk(store) == Walk::Found(steps),
            Walk::Suspended(at) => position.walk(store) == at.walk(store),
            Walk::Invalid => position.walk(store) == Walk::Invalid,
        },
    decreases position.current.height() + position.previous.height(),
{
    let key = position.child().prev_blockhash();
    if !position.extends() && cache.contains_key(key) {
        lemma_submap_at(cache, store, key);
        match position.accept(cache[key]) {
            Accepted::Moved(next) => {
                lemma_walk_in_store(next, cache, store);
            },
            _ => {},
        }
    }
}

/// Resuming a suspended walk with the header that a store holds comes to what the walk on the
/// store comes to, where the store holds all that the cache holds.
pub proof fn lemma_resume_in_store(
    at: Position,
    cache: Map<BlockHash, ValidatedBlockHeader>,
    store: Map<BlockHash, ValidatedBlockHeader>,
)
    requires
        cache.submap_of(store),
        !at.extends(),
        store.contains_key(at.child().prev_blockhash()),
    ensures
        match at.resume(cache, store[at.child().prev_blockhash()]) {
            Walk::Found(steps) => at.walk(store) == Walk::Found(steps),
            Walk::Suspended(to) => at.walk(store) == to.walk(store),
            Walk::Invalid => at.walk(store) == Walk::Invalid,
        },
{
    match at.accept(store[at.child().prev_blockhash()]) {
        Accepted::Moved(next) => {
            lemma_walk_in_store(next, cache, store);
        },
        _ => {},
    }
}

/// The notification that undoes `event`.
pub open spec fn opposite(event: ChainEvent) -> ChainEvent {
    match event {
        ChainEvent::BlockDisconnected(header) => ChainEvent::BlockConnected(header),
        ChainEvent::BlockConnected(header) => ChainEvent::BlockDisconnected(header),
    }
}

/// The notifications that undo `events`: the opposite of each, last first.
pub open spec fn mirrored(events: Seq<ChainEvent>) -> Seq<ChainEvent> {
    Seq::new(events.len(), |i: int| opposite(events[events.len() - 1 - i]))
}

/// Two walks on the same store that stand at the same two headers, each on the old chain where
/// the other is on the new one, and have each disconnected what the other has connected, come
/// to forks of which each disconnects what the other connects, with the same fork point, if
/// both disconnect anything at all.
proof fn lemma_mirror(
    store: Map<BlockHash, ValidatedBlockHeader>,
    p: Position,
    q: Position,
    a: ValidatedBlockHeader,
    b: ValidatedBlockHeader,
)
    requires
        p.reached_from(b, a),
        q.reached_from(a, b),
        !p.owed,
        !q.owed,
        p.current == q.previous,
        p.previous == q.current,
        disconnected(p.steps) == connected(q.steps),
        connected(p.steps) == disconnected(q.steps),
        p.walk(store) matches Walk::Found(there) && disconnected(there).len() > 0,
        q.walk(store) matches Walk::Found(back) && disconnected(back).len() > 0,
    ensures
        p.walk(store) matches Walk::Found(there) && q.walk(store) matches Walk::Found(back) && {
            &&& disconnected(there) == connected(back)
            &&& connected(there) == disconnected(back)
            &&& there.last() == back.last()
        },
    decreases p.current.height() + p.previous.height(),
{
    let disconnect_p = ForkStep::DisconnectBlock(p.previous);
    let connect_p = ForkStep::ConnectBlock(p.current);
    let disconnect_q = ForkStep::DisconnectBlock(q.previous);
    let connect_q = ForkStep::ConnectBlock(q.current);
    lemma_push_step(p.steps, disconnect_p);
    lemma_push_step(p.steps, connect_p);
    lemma_push_step(q.steps, disconnect_q);
    lemma_push_step(q.steps, connect_q);
    if p.extends() {
        assert(disconnected(p.steps).push(p.previous).len() > 1 ==> p.current.height()
            <= p.previous.height());
        assert(false);
    } else if q.extends() {
        assert(disconnected(q.steps).push(q.previous).len() > 1 ==> q.current.height()
            <= q.previous.height());
        assert(false);
    } else {
        let key_p = p.child().prev_blockhash();
        let key_q = q.child().prev_blockhash();
        assert(store.contains_key(key_p));
        assert(store.contains_key(key_q));
        let parent_p = store[key_p];
        let parent_q = store[key_q];
        lemma_accept(p, parent_p, b, a);
        lemma_accept(q, parent_q, a, b);
        match p.awaits() {
            Awaited::ForkPoint => {
                assert(q.awaits() is ForkPoint);
                assert(key_p == key_q);
                let first_p = p.steps.push(disconnect_p);
                let second_p = first_p.push(connect_p);
                lemma_push_step(first_p, connect_p);
                lemma_push_step(second_p, ForkStep::ForkPoint(parent_p));
                let first_q = q.steps.push(disconnect_q);
                let second_q = first_q.push(connect_q);
                lemma_push_step(first_q, connect_q);
                lemma_push_step(second_q, ForkStep::ForkPoint(parent_q));
            },
            Awaited::Previous => {
                assert(q.awaits() is Current);
                assert(key_p == key_q);
                match (p.accept(parent_p), q.accept(parent_q)) {
                    (Accepted::Moved(p_next), Accepted::Moved(q_next)) => {
                        lemma_mirror(store, p_next, q_next, a, b);
                    },
                    _ => {
                        assert(false);
                    },
                }
            },
            Awaited::Current => {
                assert(q.awaits() is Previous);
                assert(key_p == key_q);
                match (p.accept(parent_p), q.accept(parent_q)) {
                    (Accepted::Moved(p_next), Accepted::Moved(q_next)) => {
                        lemma_mirror(store, p_next, q_next, a, b);
                    },
                    _ => {
                        assert(false);
                    },
                }
            },
            Awaited::PreviousThenCurrent => {
                assert(q.awaits() is PreviousThenCurrent);
                match (p.accept(parent_p), q.accept(parent_q)) {
                    (Accepted::Moved(p_next), Accepted::Moved(q_next)) => {
                        assert(p.walk(store) == p_next.walk(store));
                        assert(q.walk(store) == q_next.walk(store));
                        assert(!p_next.extends());
                        assert(!q_next.extends());
                        assert(p_next.awaits() is Current);
                        assert(q_next.awaits() is Current);
                        let key_p_next = p_next.child().prev_blockhash();
                        let key_q_next = q_next.child().prev_blockhash();
                        assert(key_p_next == key_q);
                        assert(key_q_next == key_p);
                        assert(store.contains_key(key_p_next));
                        lemma_accept(p_next, parent_q, b, a);
                        lemma_accept(q_next, parent_p, a, b);
                        lemma_push_step(p_next.steps, ForkStep::ConnectBlock(p_next.current));
                        lemma_push_step(q_next.steps, ForkStep::ConnectBlock(q_next.current));
                        match (p_next.accept(parent_q), q_next.accept(parent_p)) {
                            (Accepted::Moved(p_after), Accepted::Moved(q_after)) => {
                                assert(p_next.walk(store) == p_after.walk(store));
                                assert(q_next.walk(store) == q_after.walk(store));
                                lemma_mirror(store, p_after, q_after, a, b);
                            },
                            _ => {
                                assert(false);
                            },
                        }
                    },
                    _ => {
                        assert(false);
                    },
                }
            },
        }
    }
}

/// Whether `trace` is the trace of a sync that has followed the steps `plan` to the end.
pub open spec fn followed(trace: SyncTrace, plan: Seq<ForkStep>) -> bool {
    &&& trace.wf()
    &&& trace.complete()
    &&& trace.disconnected == disconnected(plan)
    &&& trace.to_connect == connected(plan)
}

/// Round trip: where the listener is synced from one tip to another and back, over the same
/// headers, the notifications on the way back undo those on the way there, last first: what
/// was connected is disconnected, and what was disconnected is connected again.
///
/// This holds where both syncs disconnect a block, which is to say where neither tip is an
/// ancestor of the other.
pub proof fn lemma_round_trip(
    store: Map<BlockHash, ValidatedBlockHeader>,
    a: ValidatedBlockHeader,
    b: ValidatedBlockHeader,
    there: SyncTrace,
    back: SyncTrace,
)
    requires
        Position::start(b, a).walk(store) matches Walk::Found(plan) && followed(there, plan),
        Position::start(a, b).walk(store) matches Walk::Found(plan) && followed(back, plan),
        there.disconnected.len() > 0,
        back.disconnected.len() > 0,
    ensures
        back.events() == mirrored(there.events()),
{
    let p = Position::start(b, a);
    let q = Position::start(a, b);
    assert(disconnected(p.steps).len() == 0);
    assert(connected(p.steps).len() == 0);
    assert(disconnected(q.steps).len() == 0);
    assert(connected(q.steps).len() == 0);
    lemma_mirror(store, p, q, a, b);
    let gone_there = there.disconnected.len() as int;
    let come_there = there.connected.len() as int;
    let forth = there.events();
    let home = back.events();
    assert(home.len() == forth.len());
    assert forall|k: int| 0 <= k < home.len() implies home[k] == mirrored(forth)[k] by {
        if k < come_there {
            assert(forth[forth.len() - 1 - k] == ChainEvent::BlockConnected(
                there.connected[come_there - 1 - k],
            ));
            assert(there.connected[come_there - 1 - k] == there.to_connect[k]);
        } else {
            assert(forth[forth.len() - 1 - k] == ChainEvent::BlockDisconnected(
                there.disconnected[forth.len() - 1 - k],
            ));
            assert(back.connected[k - come_there] == back.to_connect[back.to_connect.len() - 1 - (k
                - come_there)]);
        }
    }
    assert(home =~= mirrored(forth));
}

} // verus!
