use std::collections::VecDeque;

use bitcoin::blockdata::block::Block;
use bitcoin::blockdata::constants::genesis_block;
use bitcoin::network::constants::Network;
use bitcoin::util::uint::Uint256;

use lightning_block_sync::{
    BlockFetch, BlockHash, BlockHeader, BlockHeaderData, BlockSourceError, BlockSourceErrorKind,
    Cache, ChainEvent, ChainNotifier, ChainTip, ChainWork, FindFork, ForkStep, PollAction,
    PollStep, SpvClient, SyncAction, SyncStep, UnboundedCache, ValidatedBlockHeader,
};

type BlockSourceResult<T> = Result<T, BlockSourceError>;

fn to_hash(hash: bitcoin::hash_types::BlockHash) -> BlockHash {
    BlockHash { bytes: bitcoin::hashes::Hash::into_inner(hash) }
}

fn to_header(header: &bitcoin::blockdata::block::BlockHeader) -> BlockHeader {
    BlockHeader {
        version: header.version,
        prev_blockhash: to_hash(header.prev_blockhash),
        merkle_root: bitcoin::hashes::Hash::into_inner(header.merkle_root),
        time: header.time,
        bits: header.bits,
        nonce: header.nonce,
    }
}

fn from_header(header: &BlockHeader) -> bitcoin::blockdata::block::BlockHeader {
    bitcoin::blockdata::block::BlockHeader {
        version: header.version,
        prev_blockhash: <bitcoin::hash_types::BlockHash as bitcoin::hashes::Hash>::from_inner(
            header.prev_blockhash.bytes,
        ),
        merkle_root: <bitcoin::hash_types::TxMerkleNode as bitcoin::hashes::Hash>::from_inner(
            header.merkle_root,
        ),
        time: header.time,
        bits: header.bits,
        nonce: header.nonce,
    }
}

struct Blockchain {
    blocks: Vec<Block>,
    without_blocks: Option<std::ops::RangeFrom<usize>>,
    without_headers: bool,
    malformed_headers: bool,
}

impl Blockchain {
    fn default() -> Self {
        Blockchain::with_network(Network::Bitcoin)
    }

    fn with_network(network: Network) -> Self {
        let blocks = vec![genesis_block(network)];
        Self { blocks, without_blocks: None, without_headers: false, malformed_headers: false }
    }

    fn with_height(mut self, height: usize) -> Self {
        self.blocks.reserve_exact(height);
        let bits = bitcoin::blockdata::block::BlockHeader::compact_target_from_u256(
            &Uint256::from_be_bytes([0xff; 32]),
        );
        for i in 1..=height {
            let prev_block = &self.blocks[i - 1];
            let prev_blockhash = prev_block.block_hash();
            let time = prev_block.header.time + height as u32;
            self.blocks.push(Block {
                header: bitcoin::blockdata::block::BlockHeader {
                    version: 0,
                    prev_blockhash,
                    merkle_root: Default::default(),
                    time,
                    bits,
                    nonce: 0,
                },
                txdata: vec![],
            });
        }
        self
    }

    fn with_height_more(self, more: usize) -> Self {
        let mut chain = self;
        let bits = chain.blocks.last().unwrap().header.bits;
        for _ in 0..more {
            let prev_block = chain.blocks.last().unwrap();
            let header = bitcoin::blockdata::block::BlockHeader {
                version: 0,
                prev_blockhash: prev_block.block_hash(),
                merkle_root: Default::default(),
                time: prev_block.header.time + 1,
                bits,
                nonce: 0,
            };
            chain.blocks.push(Block { header, txdata: vec![] });
        }
        chain
    }

    fn without_blocks(self, range: std::ops::RangeFrom<usize>) -> Self {
        Self { without_blocks: Some(range), ..self }
    }

    fn without_headers(self) -> Self {
        Self { without_headers: true, ..self }
    }

    fn malformed_headers(self) -> Self {
        Self { malformed_headers: true, ..self }
    }

    fn fork_at_height(&self, height: usize) -> Self {
        assert!(height + 1 < self.blocks.len());
        let mut blocks = self.blocks.clone();
        let mut prev_blockhash = blocks[height].block_hash();
        for block in blocks.iter_mut().skip(height + 1) {
            block.header.prev_blockhash = prev_blockhash;
            block.header.nonce += 1;
            prev_blockhash = block.block_hash();
        }
        Self {
            blocks,
            without_blocks: None,
            without_headers: self.without_headers,
            malformed_headers: self.malformed_headers,
        }
    }

    fn at_height(&self, height: usize) -> ValidatedBlockHeader {
        let block_header = self.at_height_unvalidated(height);
        let block_hash = to_hash(self.blocks[height].block_hash());
        block_header.validate(block_hash).unwrap()
    }

    fn at_height_unvalidated(&self, height: usize) -> BlockHeaderData {
        assert!(!self.blocks.is_empty());
        assert!(height < self.blocks.len());
        let chainwork = self.blocks[0].header.work() + Uint256::from_u64(height as u64).unwrap();
        BlockHeaderData {
            chainwork: ChainWork { limbs: chainwork.0 },
            height: height as u32,
            header: to_header(&self.blocks[height].header),
        }
    }

    fn tip(&self) -> ValidatedBlockHeader {
        assert!(!self.blocks.is_empty());
        self.at_height(self.blocks.len() - 1)
    }

    fn disconnect_tip(&mut self) -> Option<Block> {
        self.blocks.pop()
    }

    fn header_cache(&self, heights: std::ops::RangeInclusive<usize>) -> UnboundedCache {
        let mut cache = UnboundedCache::new();
        for i in heights {
            let value = self.at_height(i);
            let key = value.block_hash();
            cache.insert(key, value);
        }
        cache
    }

    fn get_header(
        &mut self,
        header_hash: &BlockHash,
        _height_hint: Option<u32>,
    ) -> BlockSourceResult<BlockHeaderData> {
        if self.without_headers {
            return Err(BlockSourceError::persistent("header not found"));
        }
        for (height, block) in self.blocks.iter().enumerate() {
            if to_hash(block.header.block_hash()) == *header_hash {
                let mut header_data = self.at_height_unvalidated(height);
                if self.malformed_headers {
                    header_data.header.time += 1;
                }
                return Ok(header_data);
            }
        }
        Err(BlockSourceError::transient("header not found"))
    }

    fn get_block(&mut self, header_hash: &BlockHash) -> BlockSourceResult<Block> {
        for (height, block) in self.blocks.iter().enumerate() {
            if to_hash(block.header.block_hash()) == *header_hash {
                if let Some(without_blocks) = &self.without_blocks {
                    if without_blocks.contains(&height) {
                        return Err(BlockSourceError::persistent("block not found"));
                    }
                }
                return Ok(block.clone());
            }
        }
        Err(BlockSourceError::transient("block not found"))
    }

    fn get_best_block(&mut self) -> BlockSourceResult<(BlockHash, Option<u32>)> {
        match self.blocks.last() {
            None => Err(BlockSourceError::transient("empty chain")),
            Some(block) => {
                let height = (self.blocks.len() - 1) as u32;
                Ok((to_hash(block.block_hash()), Some(height)))
            },
        }
    }
}

struct ChainPoller<'a> {
    block_source: &'a mut Blockchain,
}

impl<'a> ChainPoller<'a> {
    fn new(block_source: &'a mut Blockchain) -> Self {
        Self { block_source }
    }

    fn poll_chain_tip(
        &mut self,
        best_known_chain_tip: ValidatedBlockHeader,
    ) -> BlockSourceResult<ChainTip> {
        let (block_hash, height) = self.block_source.get_best_block()?;
        if block_hash == best_known_chain_tip.block_hash() {
            return Ok(ChainTip::Common);
        }
        let chain_tip = self.block_source.get_header(&block_hash, height)?.validate(block_hash)?;
        if chain_tip.chainwork().is_more_than(&best_known_chain_tip.chainwork()) {
            Ok(ChainTip::Better(chain_tip))
        } else {
            Ok(ChainTip::Worse(chain_tip))
        }
    }

    fn look_up_previous_header(
        &mut self,
        header: &ValidatedBlockHeader,
    ) -> BlockSourceResult<ValidatedBlockHeader> {
        if header.height() == 0 {
            return Err(BlockSourceError::persistent("genesis block reached"));
        }
        let previous_hash = header.prev_blockhash();
        let height = header.height() - 1;
        let previous_header =
            self.block_source.get_header(&previous_hash, Some(height))?.validate(previous_hash)?;
        Ok(previous_header)
    }

    fn fetch_block(&mut self, header: &ValidatedBlockHeader) -> BlockSourceResult<Block> {
        let block = self.block_source.get_block(&header.block_hash())?;
        if to_hash(block.block_hash()) != header.block_hash() {
            return Err(BlockSourceError::persistent("invalid block hash"));
        }
        Ok(block)
    }
}

trait ChainListener {
    fn block_connected(&mut self, block: &Block, height: u32);
    fn block_disconnected(&mut self, header: &bitcoin::blockdata::block::BlockHeader, height: u32);
}

struct NullChainListener;

impl ChainListener for NullChainListener {
    fn block_connected(&mut self, _block: &Block, _height: u32) {}
    fn block_disconnected(
        &mut self,
        _header: &bitcoin::blockdata::block::BlockHeader,
        _height: u32,
    ) {
    }
}

struct MockChainListener {
    expected_blocks_connected: VecDeque<BlockHeaderData>,
    expected_blocks_disconnected: VecDeque<BlockHeaderData>,
}

impl MockChainListener {
    fn new() -> Self {
        Self {
            expected_blocks_connected: VecDeque::new(),
            expected_blocks_disconnected: VecDeque::new(),
        }
    }

    fn expect_block_connected(mut self, block: BlockHeaderData) -> Self {
        self.expected_blocks_connected.push_back(block);
        self
    }

    fn expect_block_disconnected(mut self, block: BlockHeaderData) -> Self {
        self.expected_blocks_disconnected.push_back(block);
        self
    }

    fn assert_all_seen(&self) {
        if !self.expected_blocks_connected.is_empty() {
            panic!("Expected blocks connected: {:?}", self.expected_blocks_connected);
        }
        if !self.expected_blocks_disconnected.is_empty() {
            panic!("Expected blocks disconnected: {:?}", self.expected_blocks_disconnected);
        }
    }
}

impl ChainListener for MockChainListener {
    fn block_connected(&mut self, block: &Block, height: u32) {
        match self.expected_blocks_connected.pop_front() {
            None => {
                panic!("Unexpected block connected: {:?}", block.block_hash());
            },
            Some(expected_block) => {
                assert_eq!(block.block_hash(), from_header(&expected_block.header).block_hash());
                assert_eq!(height, expected_block.height);
            },
        }
    }

    fn block_disconnected(&mut self, header: &bitcoin::blockdata::block::BlockHeader, height: u32) {
        match self.expected_blocks_disconnected.pop_front() {
            None => {
                panic!("Unexpected block disconnected: {:?}", header.block_hash());
            },
            Some(expected_block) => {
                assert_eq!(header.block_hash(), from_header(&expected_block.header).block_hash());
                assert_eq!(height, expected_block.height);
            },
        }
    }
}

/// Passes the notifications of a step on to the listener. A connected block is the one that
/// was just fetched.
fn notify<L: ChainListener>(events: &[ChainEvent], fetched: Option<&Block>, listener: &mut L) {
    for event in events {
        match event {
            ChainEvent::BlockDisconnected(header) => {
                listener.block_disconnected(&from_header(&header.data().header), header.height());
            },
            ChainEvent::BlockConnected(header) => {
                listener.block_connected(fetched.expect("a connected block was fetched"), header.height());
            },
        }
    }
}

fn fetch(
    poller: &mut ChainPoller,
    fetch: &BlockFetch,
) -> (Option<Block>, BlockSourceResult<BlockHash>) {
    match poller.fetch_block(&fetch.awaited()) {
        Ok(block) => {
            let block_hash = to_hash(block.block_hash());
            assert_eq!(block_hash, fetch.awaited().block_hash());
            (Some(block), Ok(block_hash))
        },
        Err(e) => (None, Err(e)),
    }
}

/// Runs a sync of the listener to its end.
fn sync_listener<L: ChainListener>(
    notifier: &mut ChainNotifier<UnboundedCache>,
    new_header: ValidatedBlockHeader,
    old_header: &ValidatedBlockHeader,
    chain_poller: &mut ChainPoller,
    chain_listener: &mut L,
) -> Result<(), (BlockSourceError, Option<ValidatedBlockHeader>)> {
    assert!(notifier.is_agreed(old_header));
    let SyncStep { events, mut next } = notifier.sync_listener(new_header, old_header);
    notify(&events, None, chain_listener);
    loop {
        let (block, step) = match next {
            SyncAction::LookUpPrevious(search) => {
                let looked_up = chain_poller.look_up_previous_header(&search.awaited());
                (None, notifier.header_looked_up(search, looked_up))
            },
            SyncAction::FetchBlock(block_fetch) => {
                let (block, fetched) = fetch(chain_poller, &block_fetch);
                (block, notifier.block_fetched(block_fetch, fetched))
            },
            SyncAction::Done(result) => return result,
        };
        notify(&step.events, block.as_ref(), chain_listener);
        next = step.next;
    }
}

/// Runs a poll for the best tip to its end.
fn poll_best_tip<L: ChainListener>(
    client: &mut SpvClient<UnboundedCache>,
    chain_poller: &mut ChainPoller,
    chain_listener: &mut L,
) -> BlockSourceResult<(ChainTip, bool)> {
    let polled = chain_poller.poll_chain_tip(client.chain_tip());
    if let Ok(chain_tip) = &polled {
        assert!(chain_tip.is_relative_to(&client.chain_tip()));
    }
    assert!(client.is_coherent());
    let PollStep { events, mut next } = client.poll_best_tip(polled);
    notify(&events, None, chain_listener);
    loop {
        let (block, step) = match next {
            PollAction::LookUpPrevious(search) => {
                let looked_up = chain_poller.look_up_previous_header(&search.awaited());
                (None, client.header_looked_up(search, looked_up))
            },
            PollAction::FetchBlock(block_fetch) => {
                let (block, fetched) = fetch(chain_poller, &block_fetch);
                (block, client.block_fetched(block_fetch, fetched))
            },
            PollAction::Done(result) => return result,
        };
        notify(&step.events, block.as_ref(), chain_listener);
        next = step.next;
    }
}

#[test]
fn poll_from_chain_without_headers() {
    let mut chain = Blockchain::default().with_height(3).without_headers();
    let best_tip = chain.at_height(1);

    let mut poller = ChainPoller::new(&mut chain);
    let cache = UnboundedCache::new();
    let mut client = SpvClient::new(best_tip, cache);
    match poll_best_tip(&mut client, &mut poller, &mut NullChainListener {}) {
        Err(e) => {
            assert_eq!(e.kind(), BlockSourceErrorKind::Persistent);
            assert_eq!(e.into_inner(), "header not found");
        },
        Ok(_) => panic!("Expected error"),
    }
    assert_eq!(client.chain_tip(), best_tip);
}

#[test]
fn poll_from_chain_with_common_tip() {
    let mut chain = Blockchain::default().with_height(3);
    let common_tip = chain.tip();

    let mut poller = ChainPoller::new(&mut chain);
    let cache = UnboundedCache::new();
    let mut client = SpvClient::new(common_tip, cache);
    match poll_best_tip(&mut client, &mut poller, &mut NullChainListener {}) {
        Err(e) => panic!("Unexpected error: {:?}", e),
        Ok((chain_tip, blocks_connected)) => {
            assert_eq!(chain_tip, ChainTip::Common);
            assert!(!blocks_connected);
        },
    }
    assert_eq!(client.chain_tip(), common_tip);
}

#[test]
fn poll_from_chain_with_better_tip() {
    let mut chain = Blockchain::default().with_height(3);
    let new_tip = chain.tip();
    let old_tip = chain.at_height(1);

    let mut poller = ChainPoller::new(&mut chain);
    let cache = UnboundedCache::new();
    let mut client = SpvClient::new(old_tip, cache);
    match poll_best_tip(&mut client, &mut poller, &mut NullChainListener {}) {
        Err(e) => panic!("Unexpected error: {:?}", e),
        Ok((chain_tip, blocks_connected)) => {
            assert_eq!(chain_tip, ChainTip::Better(new_tip));
            assert!(blocks_connected);
        },
    }
    assert_eq!(client.chain_tip(), new_tip);
}

#[test]
fn poll_from_chain_with_better_tip_and_without_any_new_blocks() {
    let mut chain = Blockchain::default().with_height(3).without_blocks(2..);
    let new_tip = chain.tip();
    let old_tip = chain.at_height(1);

    let mut poller = ChainPoller::new(&mut chain);
    let cache = UnboundedCache::new();
    let mut client = SpvClient::new(old_tip, cache);
    match poll_best_tip(&mut client, &mut poller, &mut NullChainListener {}) {
        Err(e) => panic!("Unexpected error: {:?}", e),
        Ok((chain_tip, blocks_connected)) => {
            assert_eq!(chain_tip, ChainTip::Better(new_tip));
            assert!(!blocks_connected);
        },
    }
    assert_eq!(client.chain_tip(), old_tip);
}

#[test]
fn poll_from_chain_with_better_tip_and_without_some_new_blocks() {
    let mut chain = Blockchain::default().with_height(3).without_blocks(3..);
    let new_tip = chain.tip();
    let old_tip = chain.at_height(1);
    let partial_tip = chain.at_height(2);

    let mut poller = ChainPoller::new(&mut chain);
    let cache = UnboundedCache::new();
    let mut client = SpvClient::new(old_tip, cache);
    match poll_best_tip(&mut client, &mut poller, &mut NullChainListener {}) {
        Err(e) => panic!("Unexpected error: {:?}", e),
        Ok((chain_tip, blocks_connected)) => {
            assert_eq!(chain_tip, ChainTip::Better(new_tip));
            assert!(blocks_connected);
        },
    }
    assert_eq!(client.chain_tip(), partial_tip);
}

#[test]
fn poll_from_chain_with_worse_tip() {
    let mut chain = Blockchain::default().with_height(3);
    let best_tip = chain.tip();
    chain.disconnect_tip();
    let worse_tip = chain.tip();

    let mut poller = ChainPoller::new(&mut chain);
    let cache = UnboundedCache::new();
    let mut client = SpvClient::new(best_tip, cache);
    match poll_best_tip(&mut client, &mut poller, &mut NullChainListener {}) {
        Err(e) => panic!("Unexpected error: {:?}", e),
        Ok((chain_tip, blocks_connected)) => {
            assert_eq!(chain_tip, ChainTip::Worse(worse_tip));
            assert!(!blocks_connected);
        },
    }
    assert_eq!(client.chain_tip(), best_tip);
}

#[test]
fn sync_from_same_chain() {
    let mut chain = Blockchain::default().with_height(3);

    let new_tip = chain.tip();
    let old_tip = chain.at_height(1);
    let mut listener = MockChainListener::new()
        .expect_block_connected(chain.at_height(2).data())
        .expect_block_connected(new_tip.data());
    let mut notifier = ChainNotifier::new(chain.header_cache(0..=1));
    let mut poller = ChainPoller::new(&mut chain);
    match sync_listener(&mut notifier, new_tip, &old_tip, &mut poller, &mut listener) {
        Err((e, _)) => panic!("Unexpected error: {:?}", e),
        Ok(_) => {},
    }
    listener.assert_all_seen();
}

#[test]
fn sync_from_different_chains() {
    let mut test_chain = Blockchain::with_network(Network::Testnet).with_height(1);
    let main_chain = Blockchain::with_network(Network::Bitcoin).with_height(1);

    let new_tip = test_chain.tip();
    let old_tip = main_chain.tip();
    let mut listener = MockChainListener::new();
    let mut notifier = ChainNotifier::new(main_chain.header_cache(0..=1));
    let mut poller = ChainPoller::new(&mut test_chain);
    match sync_listener(&mut notifier, new_tip, &old_tip, &mut poller, &mut listener) {
        Err((e, _)) => {
            assert_eq!(e.kind(), BlockSourceErrorKind::Persistent);
            assert_eq!(e.into_inner(), "genesis block reached");
        },
        Ok(_) => panic!("Expected error"),
    }
    listener.assert_all_seen();
}

#[test]
fn sync_from_equal_length_fork() {
    let main_chain = Blockchain::default().with_height(2);
    let mut fork_chain = main_chain.fork_at_height(1);

    let new_tip = fork_chain.tip();
    let old_tip = main_chain.tip();
    let mut listener = MockChainListener::new()
        .expect_block_disconnected(old_tip.data())
        .expect_block_connected(new_tip.data());
    let mut notifier = ChainNotifier::new(main_chain.header_cache(0..=2));
    let mut poller = ChainPoller::new(&mut fork_chain);
    match sync_listener(&mut notifier, new_tip, &old_tip, &mut poller, &mut listener) {
        Err((e, _)) => panic!("Unexpected error: {:?}", e),
        Ok(_) => {},
    }
    listener.assert_all_seen();
}

#[test]
fn sync_from_shorter_fork() {
    let main_chain = Blockchain::default().with_height(3);
    let mut fork_chain = main_chain.fork_at_height(1);
    fork_chain.disconnect_tip();

    let new_tip = fork_chain.tip();
    let old_tip = main_chain.tip();
    let mut listener = MockChainListener::new()
        .expect_block_disconnected(old_tip.data())
        .expect_block_disconnected(main_chain.at_height(2).data())
        .expect_block_connected(new_tip.data());
    let mut notifier = ChainNotifier::new(main_chain.header_cache(0..=3));
    let mut poller = ChainPoller::new(&mut fork_chain);
    match sync_listener(&mut notifier, new_tip, &old_tip, &mut poller, &mut listener) {
        Err((e, _)) => panic!("Unexpected error: {:?}", e),
        Ok(_) => {},
    }
    listener.assert_all_seen();
}

#[test]
fn sync_from_longer_fork() {
    let mut main_chain = Blockchain::default().with_height(3);
    let mut fork_chain = main_chain.fork_at_height(1);
    main_chain.disconnect_tip();

    let new_tip = fork_chain.tip();
    let old_tip = main_chain.tip();
    let mut listener = MockChainListener::new()
        .expect_block_disconnected(old_tip.data())
        .expect_block_connected(fork_chain.at_height(2).data())
        .expect_block_connected(new_tip.data());
    let mut notifier = ChainNotifier::new(main_chain.header_cache(0..=2));
    let mut poller = ChainPoller::new(&mut fork_chain);
    match sync_listener(&mut notifier, new_tip, &old_tip, &mut poller, &mut listener) {
        Err((e, _)) => panic!("Unexpected error: {:?}", e),
        Ok(_) => {},
    }
    listener.assert_all_seen();
}

#[test]
fn sync_from_chain_without_headers() {
    let mut chain = Blockchain::default().with_height(3).without_headers();

    let new_tip = chain.tip();
    let old_tip = chain.at_height(1);
    let mut listener = MockChainListener::new();
    let mut notifier = ChainNotifier::new(chain.header_cache(0..=1));
    let mut poller = ChainPoller::new(&mut chain);
    match sync_listener(&mut notifier, new_tip, &old_tip, &mut poller, &mut listener) {
        Err((_, tip)) => assert_eq!(tip, None),
        Ok(_) => panic!("Expected error"),
    }
    listener.assert_all_seen();
}

#[test]
fn sync_from_chain_without_any_new_blocks() {
    let mut chain = Blockchain::default().with_height(3).without_blocks(2..);

    let new_tip = chain.tip();
    let old_tip = chain.at_height(1);
    let mut listener = MockChainListener::new();
    let mut notifier = ChainNotifier::new(chain.header_cache(0..=3));
    let mut poller = ChainPoller::new(&mut chain);
    match sync_listener(&mut notifier, new_tip, &old_tip, &mut poller, &mut listener) {
        Err((_, tip)) => assert_eq!(tip, Some(old_tip)),
        Ok(_) => panic!("Expected error"),
    }
    listener.assert_all_seen();
}

#[test]
fn sync_from_chain_without_some_new_blocks() {
    let mut chain = Blockchain::default().with_height(3).without_blocks(3..);

    let new_tip = chain.tip();
    let old_tip = chain.at_height(1);
    let partial_tip = chain.at_height(2);
    let mut listener = MockChainListener::new().expect_block_connected(partial_tip.data());
    let mut notifier = ChainNotifier::new(chain.header_cache(0..=3));
    let mut poller = ChainPoller::new(&mut chain);
    match sync_listener(&mut notifier, new_tip, &old_tip, &mut poller, &mut listener) {
        Err((_, tip)) => assert_eq!(tip, Some(partial_tip)),
        Ok(_) => panic!("Expected error"),
    }
    listener.assert_all_seen();
}

/// Runs a sync to its end and returns every notification, in order, with the result.
fn run_sync<C: Cache>(
    notifier: &mut ChainNotifier<C>,
    new_header: ValidatedBlockHeader,
    old_header: &ValidatedBlockHeader,
    chain_poller: &mut ChainPoller,
) -> (Vec<ChainEvent>, Result<(), (BlockSourceError, Option<ValidatedBlockHeader>)>) {
    assert!(notifier.is_agreed(old_header));
    let mut told = Vec::new();
    let mut step = notifier.sync_listener(new_header, old_header);
    loop {
        told.extend(step.events.iter().copied());
        step = match step.next {
            SyncAction::LookUpPrevious(search) => {
                let looked_up = chain_poller.look_up_previous_header(&search.awaited());
                notifier.header_looked_up(search, looked_up)
            },
            SyncAction::FetchBlock(block_fetch) => {
                let (_, fetched) = fetch(chain_poller, &block_fetch);
                notifier.block_fetched(block_fetch, fetched)
            },
            SyncAction::Done(result) => return (told, result),
        };
    }
}

fn height_of(event: &ChainEvent) -> u32 {
    match event {
        ChainEvent::BlockDisconnected(header) => header.height(),
        ChainEvent::BlockConnected(header) => header.height(),
    }
}

#[test]
fn find_fork_on_same_chain_connects_from_the_tip_down() {
    let chain = Blockchain::default().with_height(3);
    let notifier = ChainNotifier::new(chain.header_cache(0..=3));
    match notifier.find_fork(chain.tip(), &chain.at_height(1)) {
        FindFork::Found(steps) => assert_eq!(
            steps,
            vec![ForkStep::ConnectBlock(chain.at_height(3)), ForkStep::ConnectBlock(chain.at_height(2))]
        ),
        _ => panic!("Expected steps"),
    }
}

#[test]
fn find_fork_on_equal_length_fork_ends_with_the_fork_point() {
    let main_chain = Blockchain::default().with_height(2);
    let fork_chain = main_chain.fork_at_height(1);
    let notifier = ChainNotifier::new(main_chain.header_cache(0..=2));
    match notifier.find_fork(fork_chain.tip(), &main_chain.tip()) {
        FindFork::Found(steps) => assert_eq!(
            steps,
            vec![
                ForkStep::DisconnectBlock(main_chain.at_height(2)),
                ForkStep::ConnectBlock(fork_chain.at_height(2)),
                ForkStep::ForkPoint(main_chain.at_height(1)),
            ]
        ),
        _ => panic!("Expected steps"),
    }
}

#[test]
fn find_fork_steps_both_chains_back_at_equal_heights() {
    let main_chain = Blockchain::default().with_height(3);
    let fork_chain = main_chain.fork_at_height(1);
    let mut cache = main_chain.header_cache(0..=3);
    cache.insert(fork_chain.at_height(2).block_hash(), fork_chain.at_height(2));
    let notifier = ChainNotifier::new(cache);
    match notifier.find_fork(fork_chain.tip(), &main_chain.tip()) {
        FindFork::Found(steps) => assert_eq!(
            steps,
            vec![
                ForkStep::DisconnectBlock(main_chain.at_height(3)),
                ForkStep::ConnectBlock(fork_chain.at_height(3)),
                ForkStep::DisconnectBlock(main_chain.at_height(2)),
                ForkStep::ConnectBlock(fork_chain.at_height(2)),
                ForkStep::ForkPoint(main_chain.at_height(1)),
            ]
        ),
        _ => panic!("Expected steps"),
    }
}

#[test]
fn find_fork_waits_for_a_header_that_the_cache_lacks() {
    let chain = Blockchain::default().with_height(3);
    let notifier = ChainNotifier::new(UnboundedCache::new());
    let search = match notifier.find_fork(chain.tip(), &chain.at_height(1)) {
        FindFork::LookUp(search) => search,
        _ => panic!("Expected a search"),
    };
    assert_eq!(search.awaited(), chain.at_height(3));
    assert_eq!(search.new_tip(), chain.at_height(3));
    assert_eq!(search.old_tip(), chain.at_height(1));
    match notifier.resume_find_fork(search, Ok(chain.at_height(2))) {
        FindFork::Found(steps) => assert_eq!(
            steps,
            vec![ForkStep::ConnectBlock(chain.at_height(3)), ForkStep::ConnectBlock(chain.at_height(2))]
        ),
        _ => panic!("Expected steps"),
    }
}

#[test]
fn find_fork_fails_with_the_error_of_the_lookup() {
    let chain = Blockchain::default().with_height(3);
    let notifier = ChainNotifier::new(UnboundedCache::new());
    let search = match notifier.find_fork(chain.tip(), &chain.at_height(1)) {
        FindFork::LookUp(search) => search,
        _ => panic!("Expected a search"),
    };
    match notifier.resume_find_fork(search, Err(BlockSourceError::transient("timed out"))) {
        FindFork::Failed(e) => {
            assert_eq!(e.kind(), BlockSourceErrorKind::Transient);
            assert_eq!(e.into_inner(), "timed out");
        },
        _ => panic!("Expected error"),
    }
}

#[test]
fn find_fork_rejects_a_header_that_is_not_the_previous_one() {
    let chain = Blockchain::default().with_height(3);
    let notifier = ChainNotifier::new(UnboundedCache::new());
    let search = match notifier.find_fork(chain.tip(), &chain.at_height(1)) {
        FindFork::LookUp(search) => search,
        _ => panic!("Expected a search"),
    };
    match notifier.resume_find_fork(search, Ok(chain.at_height(1))) {
        FindFork::Failed(e) => {
            assert_eq!(e.kind(), BlockSourceErrorKind::Persistent);
            assert_eq!(e.into_inner(), "invalid previous header");
        },
        _ => panic!("Expected error"),
    }
}

#[test]
fn find_fork_rejects_a_cached_header_at_another_height() {
    let chain = Blockchain::default().with_height(3);
    let mut cache = UnboundedCache::new();
    let parent = chain.at_height(2);
    let misplaced = BlockHeaderData { height: 7, ..parent.data() }.validate(parent.block_hash()).unwrap();
    cache.insert(misplaced.block_hash(), misplaced);
    let notifier = ChainNotifier::new(cache);
    match notifier.find_fork(chain.tip(), &chain.at_height(1)) {
        FindFork::Failed(e) => {
            assert_eq!(e.kind(), BlockSourceErrorKind::Persistent);
            assert_eq!(e.into_inner(), "invalid previous header");
        },
        _ => panic!("Expected error"),
    }
}

#[test]
fn look_up_previous_header_reads_the_cache() {
    let chain = Blockchain::default().with_height(2);
    let notifier = ChainNotifier::new(chain.header_cache(0..=1));
    assert_eq!(notifier.look_up_previous_header(&chain.at_height(2)), Some(chain.at_height(1)));
    assert_eq!(notifier.look_up_previous_header(&chain.at_height(1)), Some(chain.at_height(0)));
    assert_eq!(notifier.look_up_previous_header(&chain.at_height(0)), None);
    let empty = ChainNotifier::new(UnboundedCache::new());
    assert_eq!(empty.look_up_previous_header(&chain.at_height(2)), None);
}

#[test]
fn sync_from_same_chain_fills_the_cache() {
    let mut chain = Blockchain::default().with_height(3);
    let new_tip = chain.tip();
    let old_tip = chain.at_height(1);
    let expected: Vec<ValidatedBlockHeader> = (0..=3).map(|height| chain.at_height(height)).collect();
    let mut notifier = ChainNotifier::new(chain.header_cache(0..=1));
    let mut poller = ChainPoller::new(&mut chain);
    let (told, result) = run_sync(&mut notifier, new_tip, &old_tip, &mut poller);
    assert!(result.is_ok());
    assert_eq!(
        told,
        vec![ChainEvent::BlockConnected(expected[2]), ChainEvent::BlockConnected(expected[3])]
    );
    for header in expected.iter() {
        assert_eq!(notifier.header_cache().get(&header.block_hash()), Some(header));
    }
}

#[test]
fn sync_tells_disconnects_before_connects_in_height_order() {
    let main_chain = Blockchain::default().with_height(5);
    let mut fork_chain = main_chain.fork_at_height(1).with_height_more(2);
    let new_tip = fork_chain.tip();
    let old_tip = main_chain.tip();
    let mut notifier = ChainNotifier::new(main_chain.header_cache(0..=5));
    let mut poller = ChainPoller::new(&mut fork_chain);
    let (told, result) = run_sync(&mut notifier, new_tip, &old_tip, &mut poller);
    assert!(result.is_ok());
    let heights: Vec<(bool, u32)> = told
        .iter()
        .map(|event| (matches!(event, ChainEvent::BlockConnected(_)), height_of(event)))
        .collect();
    assert_eq!(
        heights,
        vec![
            (false, 5),
            (false, 4),
            (false, 3),
            (false, 2),
            (true, 2),
            (true, 3),
            (true, 4),
            (true, 5),
            (true, 6),
            (true, 7),
        ]
    );
}

#[test]
fn sync_keeps_the_cache_in_step_with_the_listener() {
    let main_chain = Blockchain::default().with_height(3);
    let mut fork_chain = main_chain.fork_at_height(1);
    let new_tip = fork_chain.tip();
    let old_tip = main_chain.tip();
    let connected = [fork_chain.at_height(2), fork_chain.at_height(3)];
    let disconnected = [main_chain.at_height(3), main_chain.at_height(2)];
    let mut notifier = ChainNotifier::new(main_chain.header_cache(0..=3));
    let mut poller = ChainPoller::new(&mut fork_chain);
    let (told, result) = run_sync(&mut notifier, new_tip, &old_tip, &mut poller);
    assert!(result.is_ok());
    assert_eq!(
        told,
        vec![
            ChainEvent::BlockDisconnected(disconnected[0]),
            ChainEvent::BlockDisconnected(disconnected[1]),
            ChainEvent::BlockConnected(connected[0]),
            ChainEvent::BlockConnected(connected[1]),
        ]
    );
    for header in connected.iter() {
        assert_eq!(notifier.header_cache().get(&header.block_hash()), Some(header));
    }
    for header in disconnected.iter() {
        assert_eq!(notifier.header_cache().get(&header.block_hash()), None);
    }
    assert_eq!(
        notifier.header_cache().get(&main_chain.at_height(1).block_hash()),
        Some(&main_chain.at_height(1))
    );
}

#[test]
fn sync_ends_at_the_last_connected_block_when_a_fetch_fails() {
    let mut main_chain = Blockchain::default().with_height(3);
    let mut fork_chain = main_chain.fork_at_height(1).without_blocks(3..);
    main_chain.disconnect_tip();
    let new_tip = fork_chain.tip();
    let old_tip = main_chain.tip();
    let partial_tip = fork_chain.at_height(2);
    let mut notifier = ChainNotifier::new(main_chain.header_cache(0..=2));
    let mut poller = ChainPoller::new(&mut fork_chain);
    let (told, result) = run_sync(&mut notifier, new_tip, &old_tip, &mut poller);
    match result {
        Err((e, tip)) => {
            assert_eq!(e.kind(), BlockSourceErrorKind::Persistent);
            assert_eq!(e.into_inner(), "block not found");
            assert_eq!(tip, Some(partial_tip));
        },
        Ok(_) => panic!("Expected error"),
    }
    assert_eq!(
        told,
        vec![ChainEvent::BlockDisconnected(old_tip), ChainEvent::BlockConnected(partial_tip)]
    );
    assert_eq!(notifier.header_cache().get(&partial_tip.block_hash()), Some(&partial_tip));
    assert_eq!(notifier.header_cache().get(&old_tip.block_hash()), None);
    assert_eq!(notifier.header_cache().get(&new_tip.block_hash()), None);
}

#[test]
fn sync_ends_at_the_fork_point_when_the_first_fetch_fails() {
    let main_chain = Blockchain::default().with_height(2);
    let mut fork_chain = main_chain.fork_at_height(1).without_blocks(2..);
    let new_tip = fork_chain.tip();
    let old_tip = main_chain.tip();
    let mut notifier = ChainNotifier::new(main_chain.header_cache(0..=2));
    let mut poller = ChainPoller::new(&mut fork_chain);
    let (told, result) = run_sync(&mut notifier, new_tip, &old_tip, &mut poller);
    match result {
        Err((_, tip)) => assert_eq!(tip, Some(main_chain.at_height(1))),
        Ok(_) => panic!("Expected error"),
    }
    assert_eq!(told, vec![ChainEvent::BlockDisconnected(old_tip)]);
}

#[test]
fn sync_there_and_back_undoes_every_notification() {
    let main_chain = Blockchain::default().with_height(4);
    let fork_chain = main_chain.fork_at_height(1).with_height_more(1);
    let a = main_chain.tip();
    let b = fork_chain.tip();
    let mut source = fork_chain.fork_at_height(1);
    source.blocks = fork_chain.blocks.clone();
    let mut notifier = ChainNotifier::new(main_chain.header_cache(0..=4));

    let mut poller = ChainPoller::new(&mut source);
    let (there, result) = run_sync(&mut notifier, b, &a, &mut poller);
    assert!(result.is_ok());

    let mut source = main_chain.fork_at_height(1);
    source.blocks = main_chain.blocks.clone();
    let mut poller = ChainPoller::new(&mut source);
    let (back, result) = run_sync(&mut notifier, a, &b, &mut poller);
    assert!(result.is_ok());

    let undone: Vec<ChainEvent> = there
        .iter()
        .rev()
        .map(|event| match event {
            ChainEvent::BlockDisconnected(header) => ChainEvent::BlockConnected(*header),
            ChainEvent::BlockConnected(header) => ChainEvent::BlockDisconnected(*header),
        })
        .collect();
    assert_eq!(there.len(), 7);
    assert_eq!(back, undone);
}

#[test]
fn sync_to_an_ancestor_connects_it_again() {
    let mut chain = Blockchain::default().with_height(3);
    let new_tip = chain.at_height(1);
    let old_tip = chain.tip();
    let mut notifier = ChainNotifier::new(chain.header_cache(0..=3));
    let mut poller = ChainPoller::new(&mut chain);
    let (told, result) = run_sync(&mut notifier, new_tip, &old_tip, &mut poller);
    assert!(result.is_ok());
    assert_eq!(
        told,
        vec![
            ChainEvent::BlockDisconnected(old_tip),
            ChainEvent::BlockDisconnected(poller.block_source.at_height(2)),
            ChainEvent::BlockDisconnected(new_tip),
            ChainEvent::BlockConnected(new_tip),
        ]
    );
    assert_eq!(notifier.header_cache().get(&new_tip.block_hash()), Some(&new_tip));
}

#[test]
fn sync_with_an_empty_cache_stores_the_connected_headers_only() {
    let mut chain = Blockchain::default().with_height(4);
    let new_tip = chain.tip();
    let old_tip = chain.at_height(1);
    let headers: Vec<ValidatedBlockHeader> = (0..=4).map(|height| chain.at_height(height)).collect();
    let mut notifier = ChainNotifier::new(UnboundedCache::new());
    let mut poller = ChainPoller::new(&mut chain);
    let (told, result) = run_sync(&mut notifier, new_tip, &old_tip, &mut poller);
    assert!(result.is_ok());
    assert_eq!(
        told,
        vec![
            ChainEvent::BlockConnected(headers[2]),
            ChainEvent::BlockConnected(headers[3]),
            ChainEvent::BlockConnected(headers[4]),
        ]
    );
    assert_eq!(notifier.header_cache().get(&headers[0].block_hash()), None);
    assert_eq!(notifier.header_cache().get(&headers[1].block_hash()), None);
    for header in headers.iter().skip(2) {
        assert_eq!(notifier.header_cache().get(&header.block_hash()), Some(header));
    }
}

#[test]
fn sync_fails_on_a_source_with_malformed_headers() {
    let mut chain = Blockchain::default().with_height(3).malformed_headers();
    let new_tip = chain.tip();
    let old_tip = chain.at_height(1);
    let mut notifier = ChainNotifier::new(UnboundedCache::new());
    let mut poller = ChainPoller::new(&mut chain);
    let (told, result) = run_sync(&mut notifier, new_tip, &old_tip, &mut poller);
    match result {
        Err((e, tip)) => {
            assert_eq!(e.kind(), BlockSourceErrorKind::Persistent);
            assert_eq!(e.into_inner(), "invalid block hash");
            assert_eq!(tip, None);
        },
        Ok(_) => panic!("Expected error"),
    }
    assert!(told.is_empty());
}

#[test]
fn poll_with_common_tip_changes_nothing() {
    let chain = Blockchain::default().with_height(3);
    let tip = chain.tip();
    let mut client = SpvClient::new(tip, chain.header_cache(0..=3));
    let step = client.poll_best_tip(Ok(ChainTip::Common));
    assert!(step.events.is_empty());
    match step.next {
        PollAction::Done(Ok((chain_tip, blocks_connected))) => {
            assert_eq!(chain_tip, ChainTip::Common);
            assert!(!blocks_connected);
        },
        _ => panic!("Expected the poll to end"),
    }
    assert_eq!(client.chain_tip(), tip);
    for height in 0..=3 {
        let header = chain.at_height(height);
        assert_eq!(client.header_cache().get(&header.block_hash()), Some(&header));
    }
}

#[test]
fn poll_with_worse_tip_changes_nothing() {
    let chain = Blockchain::default().with_height(3);
    let tip = chain.tip();
    let worse = chain.at_height(2);
    let mut client = SpvClient::new(tip, chain.header_cache(0..=3));
    let step = client.poll_best_tip(Ok(ChainTip::Worse(worse)));
    assert!(step.events.is_empty());
    match step.next {
        PollAction::Done(Ok((chain_tip, blocks_connected))) => {
            assert_eq!(chain_tip, ChainTip::Worse(worse));
            assert!(!blocks_connected);
        },
        _ => panic!("Expected the poll to end"),
    }
    assert_eq!(client.chain_tip(), tip);
    for height in 0..=3 {
        let header = chain.at_height(height);
        assert_eq!(client.header_cache().get(&header.block_hash()), Some(&header));
    }
}

#[test]
fn poll_with_failed_lookup_ends_without_change() {
    let chain = Blockchain::default().with_height(3);
    let old_tip = chain.at_height(1);
    let mut client = SpvClient::new(old_tip, UnboundedCache::new());
    let step = client.poll_best_tip(Ok(ChainTip::Better(chain.tip())));
    assert!(step.events.is_empty());
    let search = match step.next {
        PollAction::LookUpPrevious(search) => search,
        _ => panic!("Expected a lookup"),
    };
    let step = client.header_looked_up(search, Err(BlockSourceError::transient("timed out")));
    assert!(step.events.is_empty());
    match step.next {
        PollAction::Done(Ok((chain_tip, blocks_connected))) => {
            assert_eq!(chain_tip, ChainTip::Better(chain.tip()));
            assert!(!blocks_connected);
        },
        _ => panic!("Expected the poll to end"),
    }
    assert_eq!(client.chain_tip(), old_tip);
}

#[test]
fn poll_from_fork_without_some_new_blocks() {
    let mut main_chain = Blockchain::default().with_height(3);
    let mut fork_chain = main_chain.fork_at_height(1).without_blocks(3..);
    main_chain.disconnect_tip();
    let new_tip = fork_chain.tip();
    let old_tip = main_chain.tip();
    let partial_tip = fork_chain.at_height(2);

    let mut listener = MockChainListener::new()
        .expect_block_disconnected(old_tip.data())
        .expect_block_connected(partial_tip.data());
    let mut client = SpvClient::new(old_tip, main_chain.header_cache(0..=2));
    let mut poller = ChainPoller::new(&mut fork_chain);
    match poll_best_tip(&mut client, &mut poller, &mut listener) {
        Err(e) => panic!("Unexpected error: {:?}", e),
        Ok((chain_tip, blocks_connected)) => {
            assert_eq!(chain_tip, ChainTip::Better(new_tip));
            assert!(blocks_connected);
        },
    }
    listener.assert_all_seen();
    assert_eq!(client.chain_tip(), partial_tip);
    assert!(client.is_coherent());
}

#[test]
fn client_tells_whether_the_cache_agrees_with_its_tip() {
    let chain = Blockchain::default().with_height(2);
    let tip = chain.tip();
    assert!(SpvClient::new(tip, UnboundedCache::new()).is_coherent());
    assert!(SpvClient::new(tip, chain.header_cache(0..=2)).is_coherent());
    let mut cache = UnboundedCache::new();
    cache.insert(tip.block_hash(), chain.at_height(1));
    assert!(!SpvClient::new(tip, cache).is_coherent());
}

#[test]
fn sync_leaves_the_listener_with_the_new_chain() {
    let main_chain = Blockchain::default().with_height(4);
    let mut fork_chain = main_chain.fork_at_height(2).with_height_more(1);
    let new_tip = fork_chain.tip();
    let old_tip = main_chain.tip();
    let mut believed: Vec<ValidatedBlockHeader> =
        (0..=4).map(|height| main_chain.at_height(height)).collect();
    let expected: Vec<ValidatedBlockHeader> =
        (0..=5).map(|height| fork_chain.at_height(height)).collect();
    assert_eq!(believed[..3], expected[..3]);
    assert_ne!(believed[3], expected[3]);

    let mut notifier = ChainNotifier::new(main_chain.header_cache(0..=4));
    let mut poller = ChainPoller::new(&mut fork_chain);
    let (told, result) = run_sync(&mut notifier, new_tip, &old_tip, &mut poller);
    assert!(result.is_ok());
    for event in told.iter() {
        match event {
            ChainEvent::BlockDisconnected(header) => {
                assert_eq!(believed.pop(), Some(*header));
            },
            ChainEvent::BlockConnected(header) => {
                assert_eq!(header.prev_blockhash(), believed.last().unwrap().block_hash());
                believed.push(*header);
            },
        }
    }
    assert_eq!(told.len(), 5);
    assert_eq!(believed, expected);
}

#[test]
fn sync_waits_for_the_lowest_block_to_connect_first() {
    let main_chain = Blockchain::default().with_height(3);
    let fork_chain = main_chain.fork_at_height(1);
    let mut cache = main_chain.header_cache(0..=3);
    cache.insert(fork_chain.at_height(2).block_hash(), fork_chain.at_height(2));
    let mut notifier = ChainNotifier::new(cache);
    let step = notifier.sync_listener(fork_chain.tip(), &main_chain.tip());
    assert_eq!(
        step.events,
        vec![
            ChainEvent::BlockDisconnected(main_chain.at_height(3)),
            ChainEvent::BlockDisconnected(main_chain.at_height(2)),
        ]
    );
    let block_fetch = match step.next {
        SyncAction::FetchBlock(block_fetch) => block_fetch,
        _ => panic!("Expected a fetch"),
    };
    assert_eq!(block_fetch.awaited(), fork_chain.at_height(2));
    assert_eq!(block_fetch.tip(), main_chain.at_height(1));
    assert_eq!(block_fetch.new_tip(), fork_chain.at_height(3));

    let step = notifier.block_fetched(block_fetch, Ok(fork_chain.at_height(2).block_hash()));
    assert_eq!(step.events, vec![ChainEvent::BlockConnected(fork_chain.at_height(2))]);
    let block_fetch = match step.next {
        SyncAction::FetchBlock(block_fetch) => block_fetch,
        _ => panic!("Expected a fetch"),
    };
    assert_eq!(block_fetch.awaited(), fork_chain.at_height(3));
    assert_eq!(block_fetch.tip(), fork_chain.at_height(2));
    assert_eq!(block_fetch.new_tip(), fork_chain.at_height(3));

    let step = notifier.block_fetched(block_fetch, Ok(fork_chain.at_height(3).block_hash()));
    assert_eq!(step.events, vec![ChainEvent::BlockConnected(fork_chain.at_height(3))]);
    assert!(matches!(step.next, SyncAction::Done(Ok(()))));
}
