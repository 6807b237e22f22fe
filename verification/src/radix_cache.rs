//! Sharing of prompt prefixes: a tree whose nodes stand for blocks of tokens,
//! so that requests that begin alike use the same pages.

use std::collections::HashMap;
use vstd::prelude::*;

use crate::paged_attention::{
    assigned, pages_for, shareable, shared, taken_from, PageState, PagedAttentionManager,
    PagedAttentionStats, PhysicalBlockId, RequestId, PAGE_SIZE,
};
use crate::text::{dec, push_dec};

verus! {

broadcast use vstd::std_specs::hash::group_hash_axioms;

/// The hash of a block of tokens.
pub type BlockHash = u64;

/// A block of a shared prefix.
pub struct RadixNode {
    pub physical_blocks: Vec<PhysicalBlockId>,
    pub ref_count: u32,
    /// The blocks that follow, by hash.
    pub children: HashMap<BlockHash, Box<RadixNode>>,
    pub token_count: usize,
    pub last_access: u64,
}

/// A node without what follows it.
pub struct NodeInfo {
    pub blocks: Seq<PhysicalBlockId>,
    pub ref_count: nat,
    pub token_count: nat,
    pub last_access: u64,
}

impl RadixNode {
    /// The node without what follows it.
    pub open spec fn info(self) -> NodeInfo {
        NodeInfo {
            blocks: self.physical_blocks@,
            ref_count: self.ref_count as nat,
            token_count: self.token_count as nat,
            last_access: self.last_access,
        }
    }

    /// A node with one reference and nothing that follows it.
    pub fn new(physical_blocks: Vec<PhysicalBlockId>, token_count: usize) -> (n: RadixNode)
        ensures
            n.physical_blocks == physical_blocks,
            n.ref_count == 1,
            n.children@ == Map::<BlockHash, Box<RadixNode>>::empty(),
            n.token_count == token_count,
            n.last_access == 0,
    {
        RadixNode {
            physical_blocks,
            ref_count: 1,
            children: HashMap::new(),
            token_count,
            last_access: 0,
        }
    }

    /// Whether nothing follows the node.
    pub fn is_leaf(&self) -> (b: bool)
        ensures
            b == (self.children@.len() == 0),
    {
        self.children.is_empty()
    }
}

/// A level of the tree.
pub type Level = Map<BlockHash, Box<RadixNode>>;

/// The node that the path of hashes `path` leads to.
pub open spec fn info_at(level: Level, path: Seq<BlockHash>) -> Option<NodeInfo>
    decreases path.len(),
{
    if path.len() == 0 || !level.contains_key(path[0]) {
        None
    } else if path.len() == 1 {
        Some(level[path[0]].info())
    } else {
        info_at(level[path[0]].children@, path.skip(1))
    }
}

/// How many blocks of `hashes`, from the first on, are in the tree.
pub open spec fn depth(level: Level, hashes: Seq<BlockHash>) -> nat
    decreases hashes.len(),
{
    if hashes.len() == 0 || !level.contains_key(hashes[0]) {
        0
    } else {
        1 + depth(level[hashes[0]].children@, hashes.skip(1))
    }
}

/// How many tokens the blocks of `hashes` that are in the tree stand for.
pub open spec fn matched_tokens(level: Level, hashes: Seq<BlockHash>) -> nat
    decreases hashes.len(),
{
    if hashes.len() == 0 || !level.contains_key(hashes[0]) {
        0
    } else {
        level[hashes[0]].token_count as nat + matched_tokens(
            level[hashes[0]].children@,
            hashes.skip(1),
        )
    }
}

/// The pages of the blocks of `hashes` that are in the tree.
pub open spec fn matched_blocks(level: Level, hashes: Seq<BlockHash>) -> Seq<PhysicalBlockId>
    decreases hashes.len(),
{
    if hashes.len() == 0 || !level.contains_key(hashes[0]) {
        Seq::empty()
    } else {
        level[hashes[0]].physical_blocks@ + matched_blocks(
            level[hashes[0]].children@,
            hashes.skip(1),
        )
    }
}

/// `path` leads to the first blocks of `hashes`.
pub open spec fn on_path(path: Seq<BlockHash>, hashes: Seq<BlockHash>) -> bool {
    0 < path.len() <= hashes.len() && path == hashes.take(path.len() as int)
}

/// The node after it was looked up at time `clock`.
pub open spec fn touched(info: NodeInfo, clock: u64) -> NodeInfo {
    NodeInfo { last_access: clock, ..info }
}

/// The node after a prefix through it was inserted at time `clock`.
pub open spec fn referenced(info: NodeInfo, clock: u64) -> NodeInfo {
    NodeInfo { last_access: clock, ref_count: info.ref_count + 1, ..info }
}

/// The page given for block `i`; page 0 where none is.
pub open spec fn page_for(blocks: Seq<PhysicalBlockId>, i: int) -> PhysicalBlockId {
    if i < blocks.len() {
        blocks[i]
    } else {
        0
    }
}

/// A node that an insertion at time `clock` created.
pub open spec fn created(page: PhysicalBlockId, clock: u64) -> NodeInfo {
    NodeInfo {
        blocks: seq![page],
        ref_count: 2,
        token_count: PAGE_SIZE as nat,
        last_access: clock,
    }
}

/// What a lookup of `hashes` does to the node at `path`.
pub open spec fn after_lookup(
    level: Level,
    hashes: Seq<BlockHash>,
    clock: u64,
    path: Seq<BlockHash>,
) -> Option<NodeInfo> {
    match info_at(level, path) {
        Some(info) => if on_path(path, hashes) {
            Some(touched(info, clock))
        } else {
            Some(info)
        },
        None => None,
    }
}

/// What an insertion of `hashes` does to the node at `path`.
pub open spec fn after_insert(
    level: Level,
    hashes: Seq<BlockHash>,
    blocks: Seq<PhysicalBlockId>,
    clock: u64,
    path: Seq<BlockHash>,
) -> Option<NodeInfo> {
    if on_path(path, hashes) {
        match info_at(level, path) {
            Some(info) => Some(referenced(info, clock)),
            None => Some(created(page_for(blocks, path.len() - 1), clock)),
        }
    } else {
        info_at(level, path)
    }
}

/// One more reference can be counted on every block of `hashes`.
pub open spec fn has_room(level: Level, hashes: Seq<BlockHash>) -> bool
    decreases hashes.len(),
{
    hashes.len() == 0 || !level.contains_key(hashes[0]) || (level[hashes[0]].ref_count < u32::MAX
        && has_room(level[hashes[0]].children@, hashes.skip(1)))
}

proof fn path_step(level: Level, h: BlockHash, node: Box<RadixNode>, path: Seq<BlockHash>)
    ensures
        path.len() > 0 && path[0] != h ==> info_at(level.insert(h, node), path) == info_at(
            level,
            path,
        ),
        path.len() > 0 && path[0] == h ==> info_at(level.insert(h, node), path) == if path.len()
            == 1 {
            Some(node.info())
        } else {
            info_at(node.children@, path.skip(1))
        },
{
}

proof fn on_path_step(path: Seq<BlockHash>, hashes: Seq<BlockHash>)
    requires
        path.len() > 0,
        hashes.len() > 0,
    ensures
        on_path(path, hashes) == (path[0] == hashes[0] && (path.len() == 1 || on_path(
            path.skip(1),
            hashes.skip(1),
        ))),
{
    let p = path.skip(1);
    let h = hashes.skip(1);
    if path.len() <= hashes.len() {
        let t = hashes.take(path.len() as int);
        if on_path(path, hashes) {
            assert(path[0] == t[0]);
            assert(p =~= h.take(p.len() as int));
        }
        if path[0] == hashes[0] && (path.len() == 1 || on_path(p, h)) {
            assert(path =~= t) by {
                assert forall|i: int| 0 <= i < path.len() implies path[i] == t[i] by {
                    if i > 0 {
                        assert(p[i - 1] == h.take(p.len() as int)[i - 1]);
                    }
                }
            }
        }
    }
}

fn lookup_in(
    level: &mut HashMap<BlockHash, Box<RadixNode>>,
    hashes: &Vec<BlockHash>,
    i: usize,
    clock: u64,
    tokens: usize,
    blocks: &mut Vec<PhysicalBlockId>,
) -> (r: usize)
    requires
        i <= hashes@.len(),
        tokens + matched_tokens(old(level)@, hashes@.skip(i as int)) <= usize::MAX,
    ensures
        r == tokens + matched_tokens(old(level)@, hashes@.skip(i as int)),
        final(blocks)@ == old(blocks)@ + matched_blocks(old(level)@, hashes@.skip(i as int)),
        forall|path: Seq<BlockHash>| #[trigger]
            info_at(final(level)@, path) == after_lookup(
                old(level)@,
                hashes@.skip(i as int),
                clock,
                path,
            ),
    decreases hashes@.len() - i,
{
    let ghost rest = hashes@.skip(i as int);
    if i == hashes.len() {
        assert(blocks@ =~= old(blocks)@ + matched_blocks(level@, rest));
        return tokens;
    }
    let h: u64 = hashes[i];
    let ghost before = level@;
    assert(rest.skip(1) =~= hashes@.skip(i + 1));
    match level.remove(&h) {
        Some(boxed) => {
            let mut node = *boxed;
            let ghost node0 = node;
            assert(before[h] == Box::new(node0));
            node.last_access = clock;
            let ghost blocks0 = blocks@;
            let mut k: usize = 0;
            while k < node.physical_blocks.len()
                invariant
                    k <= node.physical_blocks@.len(),
                    blocks@ == blocks0 + node.physical_blocks@.take(k as int),
                decreases node.physical_blocks@.len() - k,
            {
                blocks.push(node.physical_blocks[k]);
                k = k + 1;
                assert(blocks@ =~= blocks0 + node.physical_blocks@.take(k as int));
            }
            assert(node.physical_blocks@.take(k as int) =~= node.physical_blocks@);
            let r: usize = lookup_in(
                &mut node.children,
                hashes,
                i + 1,
                clock,
                tokens + node.token_count,
                blocks,
            );
            let ghost node1 = node;
            level.insert(h, Box::new(node));
            proof {
                assert(level@ =~= before.insert(h, Box::new(node1)));
                assert(blocks@ =~= old(blocks)@ + matched_blocks(before, rest));
                assert forall|path: Seq<BlockHash>| #[trigger]
                    info_at(level@, path) == after_lookup(before, rest, clock, path) by {
                    if path.len() > 0 {
                        path_step(before, h, Box::new(node1), path);
                        on_path_step(path, rest);
                        if path[0] == h && path.len() > 1 {
                            assert(info_at(node1.children@, path.skip(1)) == after_lookup(
                                node0.children@,
                                rest.skip(1),
                                clock,
                                path.skip(1),
                            ));
                        }
                    }
                }
            }
            r
        },
        None => {
            assert(level@ =~= before);
            assert(blocks@ =~= old(blocks)@ + matched_blocks(before, rest));
            assert forall|path: Seq<BlockHash>| #[trigger]
                info_at(level@, path) == after_lookup(before, rest, clock, path) by {
                if path.len() > 0 {
                    on_path_step(path, rest);
                }
            }
            tokens
        },
    }
}

fn insert_in(
    level: &mut HashMap<BlockHash, Box<RadixNode>>,
    hashes: &Vec<BlockHash>,
    blocks: &Vec<PhysicalBlockId>,
    i: usize,
    clock: u64,
) -> (fresh: usize)
    requires
        i <= hashes@.len(),
        has_room(old(level)@, hashes@.skip(i as int)),
    ensures
        fresh == hashes@.len() - i - depth(old(level)@, hashes@.skip(i as int)),
        forall|path: Seq<BlockHash>| #[trigger]
            info_at(final(level)@, path) == after_insert(
                old(level)@,
                hashes@.skip(i as int),
                pages_from(blocks@, i as int),
                clock,
                path,
            ),
    decreases hashes@.len() - i,
{
    let ghost rest = hashes@.skip(i as int);
    if i == hashes.len() {
        return 0;
    }
    let h: u64 = hashes[i];
    let phys: u32 = if i < blocks.len() {
        blocks[i]
    } else {
        0
    };
    let ghost before = level@;
    let ghost pages = pages_from(blocks@, i as int);
    let ghost later = pages_from(blocks@, i + 1);
    proof {
        assert(rest.skip(1) =~= hashes@.skip(i + 1));
        assert(page_for(pages, 0) == phys);
        assert forall|k: int| 0 <= k implies #[trigger] page_for(later, k) == page_for(
            pages,
            k + 1,
        ) by {}
    }
    let (mut node, new): (RadixNode, usize) = match level.remove(&h) {
        Some(boxed) => (*boxed, 0),
        None => {
            let mut v: Vec<PhysicalBlockId> = Vec::new();
            v.push(phys);
            (RadixNode::new(v, PAGE_SIZE), 1)
        },
    };
    let ghost node0 = node;
    node.last_access = clock;
    node.ref_count = node.ref_count + 1;
    let more: usize = insert_in(&mut node.children, hashes, blocks, i + 1, clock);
    let ghost node1 = node;
    level.insert(h, Box::new(node));
    proof {
        assert(level@ =~= before.insert(h, Box::new(node1)));
        if new == 1 {
            depth_of_nothing(rest.skip(1));
            assert(node0.physical_blocks@ =~= seq![phys]);
        }
        assert forall|path: Seq<BlockHash>| #[trigger]
            info_at(level@, path) == after_insert(before, rest, pages, clock, path) by {
            if path.len() > 0 {
                path_step(before, h, Box::new(node1), path);
                on_path_step(path, rest);
                if path[0] == h && path.len() > 1 {
                    let p = path.skip(1);
                    assert(info_at(node1.children@, p) == after_insert(
                        node0.children@,
                        rest.skip(1),
                        later,
                        clock,
                        p,
                    ));
                    if new == 1 {
                        nothing_in_nothing(p);
                        assert(info_at(before, path) is None);
                    } else {
                        assert(info_at(before, path) == info_at(node0.children@, p));
                    }
                    assert(page_for(later, p.len() - 1) == page_for(pages, path.len() - 1));
                }
            }
        }
    }
    new + more
}

/// The pages from block `i` on.
spec fn pages_from(blocks: Seq<PhysicalBlockId>, i: int) -> Seq<PhysicalBlockId> {
    if i <= blocks.len() {
        blocks.skip(i)
    } else {
        Seq::empty()
    }
}

proof fn depth_of_nothing(hashes: Seq<BlockHash>)
    ensures
        depth(Map::empty(), hashes) == 0,
{
}

proof fn nothing_in_nothing(path: Seq<BlockHash>)
    ensures
        info_at(Map::empty(), path) is None,
{
}

/// A block is in the tree exactly where a path of hashes leads to it.
pub proof fn depth_counts_paths(level: Level, hashes: Seq<BlockHash>, n: nat)
    requires
        0 < n <= hashes.len(),
    ensures
        info_at(level, hashes.take(n as int)) is Some <==> n <= depth(level, hashes),
    decreases n,
{
    let path = hashes.take(n as int);
    if level.contains_key(hashes[0]) && n > 1 {
        assert(path.skip(1) =~= hashes.skip(1).take(n - 1));
        depth_counts_paths(level[hashes[0]].children@, hashes.skip(1), (n - 1) as nat);
    }
}

/// After an insertion the whole prefix is in the tree.
pub proof fn insertion_is_found(
    before: Level,
    after: Level,
    hashes: Seq<BlockHash>,
    blocks: Seq<PhysicalBlockId>,
    clock: u64,
)
    requires
        forall|path: Seq<BlockHash>| #[trigger]
            info_at(after, path) == after_insert(before, hashes, blocks, clock, path),
    ensures
        depth(after, hashes) == hashes.len(),
{
    depth_is_bounded(after, hashes);
    if hashes.len() > 0 {
        let all = hashes.take(hashes.len() as int);
        assert(on_path(all, hashes));
        assert(info_at(after, all) is Some);
        depth_counts_paths(after, hashes, hashes.len());
    }
}

/// No more blocks are in the tree than there are hashes.
pub proof fn depth_is_bounded(level: Level, hashes: Seq<BlockHash>)
    ensures
        depth(level, hashes) <= hashes.len(),
    decreases hashes.len(),
{
    if hashes.len() > 0 && level.contains_key(hashes[0]) {
        depth_is_bounded(level[hashes[0]].children@, hashes.skip(1));
    }
}

#[derive(Debug)]
pub struct RadixStats {
    pub cache_hits: u64,
    pub cache_misses: u64,
    pub prefix_tokens_reused: u64,
    pub nodes_total: u64,
    pub evictions: u64,
}

impl Default for RadixStats {
    fn default() -> (s: RadixStats)
        ensures
            s == (RadixStats {
                cache_hits: 0,
                cache_misses: 0,
                prefix_tokens_reused: 0,
                nodes_total: 0,
                evictions: 0,
            }),
    {
        RadixStats {
            cache_hits: 0,
            cache_misses: 0,
            prefix_tokens_reused: 0,
            nodes_total: 0,
            evictions: 0,
        }
    }
}

/// The tree of shared prefixes.
pub struct RadixCache {
    pub root: HashMap<BlockHash, Box<RadixNode>>,
    pub clock: u64,
    pub stats: RadixStats,
}

pub const FNV_OFFSET: u64 = 14695981039346656037;

pub const FNV_PRIME: u64 = 1099511628211;

/// The FNV-1a hash of a sequence of tokens.
pub open spec fn fnv(tokens: Seq<u32>) -> u64
    decreases tokens.len(),
{
    if tokens.len() == 0 {
        FNV_OFFSET
    } else {
        (fnv(tokens.drop_last()) ^ (tokens.last() as u64)).wrapping_mul(FNV_PRIME)
    }
}

impl Default for RadixCache {
    fn default() -> (c: RadixCache)
        ensures
            c.root@ == Level::empty(),
            c.clock == 0,
            c.stats == (RadixStats {
                cache_hits: 0,
                cache_misses: 0,
                prefix_tokens_reused: 0,
                nodes_total: 0,
                evictions: 0,
            }),
    {
        RadixCache::new()
    }
}

impl RadixCache {
    /// An empty tree.
    pub fn new() -> (c: RadixCache)
        ensures
            c.root@ == Level::empty(),
            c.clock == 0,
            c.stats == (RadixStats {
                cache_hits: 0,
                cache_misses: 0,
                prefix_tokens_reused: 0,
                nodes_total: 0,
                evictions: 0,
            }),
    {
        RadixCache { root: HashMap::new(), clock: 0, stats: RadixStats::default() }
    }

    /// One more lookup of `hashes` can be counted.
    pub open spec fn can_lookup(&self, hashes: Seq<BlockHash>) -> bool {
        let tokens = matched_tokens(self.root@, hashes);
        &&& self.clock < u64::MAX
        &&& self.stats.cache_hits < u64::MAX
        &&& self.stats.cache_misses < u64::MAX
        &&& tokens <= usize::MAX
        &&& self.stats.prefix_tokens_reused + tokens <= u64::MAX
    }

    /// The statistics after a lookup that matched `tokens` tokens.
    pub open spec fn counted(&self, tokens: nat) -> RadixStats {
        if tokens > 0 {
            RadixStats {
                cache_hits: (self.stats.cache_hits + 1) as u64,
                prefix_tokens_reused: (self.stats.prefix_tokens_reused + tokens) as u64,
                ..self.stats
            }
        } else {
            RadixStats { cache_misses: (self.stats.cache_misses + 1) as u64, ..self.stats }
        }
    }

    /// Finds the longest prefix of `token_hashes` in the tree: how many tokens
    /// it stands for, and its pages.
    pub fn lookup(&mut self, token_hashes: &Vec<BlockHash>) -> (r: (usize, Vec<PhysicalBlockId>))
        requires
            old(self).can_lookup(token_hashes@),
        ensures
            r.0 == matched_tokens(old(self).root@, token_hashes@),
            r.1@ == matched_blocks(old(self).root@, token_hashes@),
            final(self).clock == old(self).clock + 1,
            final(self).stats == old(self).counted(r.0 as nat),
            forall|path: Seq<BlockHash>| #[trigger]
                info_at(final(self).root@, path) == after_lookup(
                    old(self).root@,
                    token_hashes@,
                    final(self).clock,
                    path,
                ),
    {
        self.clock = self.clock + 1;
        let mut blocks: Vec<PhysicalBlockId> = Vec::new();
        assert(token_hashes@.skip(0) =~= token_hashes@);
        let tokens: usize = lookup_in(
            &mut self.root,
            token_hashes,
            0,
            self.clock,
            0,
            &mut blocks,
        );
        assert(blocks@ =~= matched_blocks(old(self).root@, token_hashes@));
        if tokens > 0 {
            self.stats.cache_hits = self.stats.cache_hits + 1;
            self.stats.prefix_tokens_reused = self.stats.prefix_tokens_reused + tokens as u64;
        } else {
            self.stats.cache_misses = self.stats.cache_misses + 1;
        }
        (tokens, blocks)
    }

    /// Puts a computed prefix into the tree: one hash and one page per block.
    pub fn insert(&mut self, token_hashes: &Vec<BlockHash>, physical_blocks: &Vec<PhysicalBlockId>)
        requires
            token_hashes@.len() > 0 ==> old(self).clock < u64::MAX,
            has_room(old(self).root@, token_hashes@),
            old(self).stats.nodes_total + token_hashes@.len() <= u64::MAX,
        ensures
            token_hashes@.len() == 0 ==> *final(self) == *old(self),
            token_hashes@.len() > 0 ==> {
                &&& final(self).clock == old(self).clock + 1
                &&& final(self).stats == (RadixStats {
                    nodes_total: (old(self).stats.nodes_total + (token_hashes@.len() - depth(
                        old(self).root@,
                        token_hashes@,
                    ))) as u64,
                    ..old(self).stats
                })
                &&& forall|path: Seq<BlockHash>| #[trigger]
                    info_at(final(self).root@, path) == after_insert(
                        old(self).root@,
                        token_hashes@,
                        physical_blocks@,
                        final(self).clock,
                        path,
                    )
            },
    {
        if token_hashes.len() == 0 {
            return ;
        }
        self.clock = self.clock + 1;
        proof {
            assert(token_hashes@.skip(0) =~= token_hashes@);
            assert(pages_from(physical_blocks@, 0) =~= physical_blocks@);
            depth_is_bounded(self.root@, token_hashes@);
        }
        let fresh: usize = insert_in(
            &mut self.root,
            token_hashes,
            physical_blocks,
            0,
            self.clock,
        );
        self.stats.nodes_total = self.stats.nodes_total + fresh as u64;
    }

    /// The hash of a block of tokens.
    pub fn hash_tokens(tokens: &[u32]) -> (hash: BlockHash)
        ensures
            hash == fnv(tokens@),
    {
        let mut hash: u64 = FNV_OFFSET;
        let mut i: usize = 0;
        assert(tokens@.take(0) =~= Seq::<u32>::empty());
        while i < tokens.len()
            invariant
                i <= tokens@.len(),
                hash == fnv(tokens@.take(i as int)),
            decreases tokens@.len() - i,
        {
            assert(tokens@.take(i + 1).drop_last() =~= tokens@.take(i as int));
            hash = (hash ^ (tokens[i] as u64)).wrapping_mul(FNV_PRIME);
            i = i + 1;
        }
        assert(tokens@.take(i as int) =~= tokens@);
        hash
    }

    /// What was counted, as text.
    pub open spec fn report_text(&self) -> Seq<char> {
        let total = self.stats.cache_hits + self.stats.cache_misses;
        let rate = if total > 0 {
            self.stats.cache_hits * 100 / total
        } else {
            0
        };
        "RadixCache | hit_rate="@ + dec(rate as nat) + "% | tokens_reus="@ + dec(
            self.stats.prefix_tokens_reused as nat,
        ) + " | nodes="@ + dec(self.stats.nodes_total as nat) + " | evictions="@ + dec(
            self.stats.evictions as nat,
        )
    }

    /// What was counted, as text.
    pub fn report(&self) -> (s: String)
        requires
            self.stats.cache_hits + self.stats.cache_misses <= u64::MAX,
            self.stats.cache_hits * 100 <= u64::MAX,
        ensures
            s@ == self.report_text(),
    {
        let total: u64 = self.stats.cache_hits + self.stats.cache_misses;
        let rate: u64 = if total > 0 {
            self.stats.cache_hits * 100 / total
        } else {
            0
        };
        let mut s = "RadixCache | hit_rate=".to_string();
        push_dec(&mut s, rate);
        s.append("% | tokens_reus=");
        push_dec(&mut s, self.stats.prefix_tokens_reused);
        s.append(" | nodes=");
        push_dec(&mut s, self.stats.nodes_total);
        s.append(" | evictions=");
        push_dec(&mut s, self.stats.evictions);
        s
    }
}

/// The hashes of the blocks of `tokens`; the last block may be shorter.
pub open spec fn block_hashes(tokens: Seq<u32>) -> Seq<BlockHash> {
    Seq::new(
        pages_for(tokens.len()),
        |i: int|
            fnv(
                tokens.subrange(
                    PAGE_SIZE * i,
                    if PAGE_SIZE * (i + 1) <= tokens.len() {
                        PAGE_SIZE * (i + 1)
                    } else {
                        tokens.len() as int
                    },
                ),
            ),
    )
}

fn hash_blocks(tokens: &Vec<u32>) -> (r: Vec<BlockHash>)
    ensures
        r@ == block_hashes(tokens@),
{
    let mut r: Vec<BlockHash> = Vec::new();
    let n: usize = tokens.len();
    let mut at: usize = 0;
    while at < n
        invariant
            n == tokens@.len(),
            at == PAGE_SIZE * r@.len() || at == n,
            at <= n,
            r@.len() == pages_for(at as nat),
            r@.len() <= pages_for(n as nat),
            r@ == block_hashes(tokens@).take(r@.len() as int),
            at < n ==> at == PAGE_SIZE * r@.len(),
        decreases n - at,
    {
        let end: usize = if PAGE_SIZE <= n - at {
            at + PAGE_SIZE
        } else {
            n
        };
        let ghost k = r@.len() as int;
        r.push(RadixCache::hash_tokens(&tokens.as_slice()[at..end]));
        proof {
            assert(k < pages_for(n as nat));
            assert(r@ =~= block_hashes(tokens@).take(k + 1));
        }
        at = end;
    }
    assert(r@ =~= block_hashes(tokens@));
    r
}

/// Paged attention with shared prefixes.
pub struct RadixAttentionBridge {
    pub paged: PagedAttentionManager,
    pub radix: RadixCache,
}

impl RadixAttentionBridge {
    /// A pool of `num_pages` pages and no prefix.
    pub fn new(num_pages: usize, num_kv_heads: usize, head_dim: usize) -> (b: RadixAttentionBridge)
        ensures
            b.paged.sound(),
            b.paged.pages@ == Seq::new(num_pages as nat, |i: int| PageState::Free),
            b.paged.free_list@ == Seq::new(
                (num_pages as u32) as nat,
                |i: int| ((num_pages as u32) - 1 - i) as u32,
            ),
            b.paged.tables() == Map::<RequestId, Seq<PhysicalBlockId>>::empty(),
            b.paged.head_dim == head_dim,
            b.paged.num_kv_heads == num_kv_heads,
            b.paged.stats == (PagedAttentionStats {
                total_pages: num_pages,
                free_pages: num_pages,
                allocations: 0,
                deallocations: 0,
                page_faults: 0,
                cow_copies: 0,
            }),
            b.radix.root@ == Level::empty(),
            b.radix.clock == 0,
            b.radix.stats == (RadixStats {
                cache_hits: 0,
                cache_misses: 0,
                prefix_tokens_reused: 0,
                nodes_total: 0,
                evictions: 0,
            }),
    {
        RadixAttentionBridge {
            paged: PagedAttentionManager::new(num_pages, num_kv_heads, head_dim),
            radix: RadixCache::new(),
        }
    }

    /// How many tokens of `tokens` follow the part of it whose pages can be shared.
    pub open spec fn remaining(&self, tokens: Seq<u32>) -> nat {
        let m = self.prefix_pages(tokens).len() * PAGE_SIZE;
        if m <= tokens.len() {
            (tokens.len() - m) as nat
        } else {
            0
        }
    }

    /// The pages of the known prefix of `tokens` that a request can share: all of
    /// them, where all are in use.
    pub open spec fn prefix_pages(&self, tokens: Seq<u32>) -> Seq<PhysicalBlockId> {
        let pages = matched_blocks(self.radix.root@, block_hashes(tokens));
        if shareable(self.paged.pages@, pages) {
            pages
        } else {
            Seq::empty()
        }
    }

    /// Registers a request, lets it share the pages of the known prefix of its
    /// tokens where they are in use, and gives it pages for all other tokens, if there
    /// are enough. Returns how many pages it shares and how many were allocated.
    pub fn register_with_prefix(&mut self, request_id: RequestId, token_ids: &Vec<u32>) -> (r: (
        usize,
        usize,
    ))
        requires
            old(self).paged.valid(),
            old(self).radix.can_lookup(block_hashes(token_ids@)),
            matched_blocks(old(self).radix.root@, block_hashes(token_ids@)).len() * PAGE_SIZE
                + token_ids@.len() <= usize::MAX,
            old(self).paged.stats.allocations + pages_for(token_ids@.len()) <= u64::MAX,
        ensures
            final(self).paged.valid(),
            old(self).paged.sound() && old(self).prefix_pages(token_ids@).len() == 0
                ==> final(self).paged.sound(),
            r.0 == old(self).prefix_pages(token_ids@).len(),
            final(self).radix.clock == old(self).radix.clock + 1,
            final(self).radix.stats == old(self).radix.counted(
                matched_tokens(old(self).radix.root@, block_hashes(token_ids@)),
            ),
            forall|path: Seq<BlockHash>| #[trigger]
                info_at(final(self).radix.root@, path) == after_lookup(
                    old(self).radix.root@,
                    block_hashes(token_ids@),
                    final(self).radix.clock,
                    path,
                ),
            ({
                let need = pages_for(old(self).remaining(token_ids@));
                let free = old(self).paged.free_list@;
                let got = if need <= free.len() {
                    need
                } else {
                    0
                };
                let ids = taken_from(free, got);
                let prefix = old(self).prefix_pages(token_ids@);
                &&& r.1 == got
                &&& final(self).paged.tables() == old(self).paged.tables().insert(
                    request_id,
                    prefix + ids,
                )
                &&& final(self).paged.free_list@ == free.take(free.len() - got)
                &&& final(self).paged.pages@ == assigned(
                    shared(old(self).paged.pages@, prefix),
                    ids,
                    request_id,
                )
                &&& final(self).paged.stats == (PagedAttentionStats {
                    free_pages: (old(self).paged.stats.free_pages - got) as usize,
                    allocations: (old(self).paged.stats.allocations + got) as u64,
                    ..old(self).paged.stats
                })
            }),
            final(self).paged.head_dim == old(self).paged.head_dim,
            final(self).paged.num_kv_heads == old(self).paged.num_kv_heads,
    {
        let ghost start = old(self).paged;
        self.paged.register_request(request_id);
        let hashes = hash_blocks(token_ids);
        let (_matched, reused) = self.radix.lookup(&hashes);
        let n: usize = token_ids.len();
        let ghost registered = self.paged;
        let shares = self.paged.share_pages(request_id, &reused);
        let shared_pages: usize = if shares {
            reused.len()
        } else {
            0
        };
        assert(shared_pages == old(self).prefix_pages(token_ids@).len());
        let remaining: usize = if shared_pages * PAGE_SIZE <= n {
            n - shared_pages * PAGE_SIZE
        } else {
            0
        };
        let ghost prefix = old(self).prefix_pages(token_ids@);
        let ghost mid = self.paged;
        let free: usize = self.paged.free_list.len();
        proof {
            assert(registered.table_or_empty(request_id) =~= Seq::empty());
            assert(Seq::<u32>::empty() + reused@ =~= reused@);
            assert(mid.table_or_empty(request_id) =~= prefix);
            assert(mid.pages@ == shared(start.pages@, prefix));
            assert(mid.tables() =~= start.tables().insert(request_id, prefix));
            assert(pages_for(remaining as nat) <= pages_for(n as nat));
            let none = taken_from(mid.free_list@, 0);
            assert(none =~= Seq::empty());
            assert(assigned(mid.pages@, none, request_id) =~= mid.pages@);
            assert(mid.free_list@.take(mid.free_list@.len() as int) =~= mid.free_list@);
            assert(pages_for(0) == 0);
            assert(prefix + none =~= prefix);
        }
        if remaining > 0 {
            let _ = self.paged.allocate_tokens(request_id, remaining);
        }
        proof {
            let ids = taken_from(mid.free_list@, pages_for(remaining as nat));
            let t = start.tables();
            assert(t.insert(request_id, prefix).insert(request_id, prefix + ids) =~= t.insert(
                request_id,
                prefix + ids,
            ));
            assert(t.insert(request_id, prefix).insert(request_id, prefix) =~= t.insert(
                request_id,
                prefix,
            ));
        }
        (shared_pages, free - self.paged.free_list.len())
    }

    /// Both reports, one below the other.
    pub fn report(&self) -> (s: String)
        requires
            self.paged.free_list@.len() <= self.paged.stats.total_pages,
            (self.paged.stats.total_pages - self.paged.free_list@.len()) * 100 <= usize::MAX,
            self.radix.stats.cache_hits + self.radix.stats.cache_misses <= u64::MAX,
            self.radix.stats.cache_hits * 100 <= u64::MAX,
        ensures
            s@ == self.paged.report_text() + "\n"@ + self.radix.report_text(),
    {
        let mut s = self.paged.report();
        s.append("\n");
        let r = self.radix.report();
        s.append(r.as_str());
        s
    }
}

/// The pages of the nodes along the first `n` hashes, one after the other.
pub open spec fn pages_along(level: Level, hashes: Seq<BlockHash>, n: int) -> Seq<PhysicalBlockId>
    decreases n,
{
    if n <= 0 {
        Seq::empty()
    } else {
        pages_along(level, hashes, n - 1) + info_at(level, hashes.take(n))->0.blocks
    }
}

/// The tokens of the nodes along the first `n` hashes.
pub open spec fn tokens_along(level: Level, hashes: Seq<BlockHash>, n: int) -> nat
    decreases n,
{
    if n <= 0 {
        0
    } else {
        tokens_along(level, hashes, n - 1) + info_at(level, hashes.take(n))->0.token_count
    }
}

/// What a lookup matches is what the nodes along the known part of the path hold, from the
/// first on, and it ends where the path is no longer known.
pub proof fn lookups_follow_the_path(level: Level, hashes: Seq<BlockHash>)
    ensures
        matched_blocks(level, hashes) == pages_along(level, hashes, depth(level, hashes) as int),
        matched_tokens(level, hashes) == tokens_along(level, hashes, depth(level, hashes) as int),
    decreases hashes.len(),
{
    depth_is_bounded(level, hashes);
    if hashes.len() > 0 && level.contains_key(hashes[0]) {
        let below = level[hashes[0]].children@;
        let rest = hashes.skip(1);
        lookups_follow_the_path(below, rest);
        depth_is_bounded(below, rest);
        along_from_the_first(level, hashes, depth(below, rest) as int);
    }
}

proof fn along_from_the_first(level: Level, hashes: Seq<BlockHash>, n: int)
    requires
        hashes.len() > 0,
        level.contains_key(hashes[0]),
        0 <= n < hashes.len(),
    ensures
        pages_along(level, hashes, n + 1) == level[hashes[0]].physical_blocks@ + pages_along(
            level[hashes[0]].children@,
            hashes.skip(1),
            n,
        ),
        tokens_along(level, hashes, n + 1) == level[hashes[0]].token_count + tokens_along(
            level[hashes[0]].children@,
            hashes.skip(1),
            n,
        ),
    decreases n,
{
    let below = level[hashes[0]].children@;
    let rest = hashes.skip(1);
    let path = hashes.take(n + 1);
    if n == 0 {
        assert(path.len() == 1 && path[0] == hashes[0]);
        assert(info_at(level, path) == Some(level[hashes[0]].info()));
        assert(tokens_along(level, hashes, 0) == 0);
        assert(tokens_along(below, rest, 0) == 0);
        assert(tokens_along(level, hashes, 1) == level[hashes[0]].token_count);
        assert(pages_along(level, hashes, 0) =~= Seq::<PhysicalBlockId>::empty());
        assert(pages_along(level, hashes, 1) =~= level[hashes[0]].physical_blocks@ + pages_along(
            below,
            rest,
            0,
        ));
    } else {
        along_from_the_first(level, hashes, n - 1);
        assert(path.skip(1) =~= rest.take(n));
        assert(path[0] == hashes[0]);
        assert(info_at(level, path) == info_at(below, rest.take(n)));
        assert(tokens_along(level, hashes, n + 1) == tokens_along(level, hashes, n) + info_at(
            level,
            path,
        )->0.token_count);
        assert(tokens_along(below, rest, n) == tokens_along(below, rest, n - 1) + info_at(
            below,
            rest.take(n),
        )->0.token_count);
        assert(pages_along(level, hashes, n + 1) =~= level[hashes[0]].physical_blocks@
            + pages_along(below, rest, n));
    }
}

/// What was put in under a path of which nothing was known is found again: its pages, in
/// their order, and a page of tokens for each.
pub proof fn inserted_pages_are_found(
    before: Level,
    after: Level,
    hashes: Seq<BlockHash>,
    blocks: Seq<PhysicalBlockId>,
    clock: u64,
)
    requires
        hashes.len() > 0,
        blocks.len() == hashes.len(),
        depth(before, hashes) == 0,
        forall|path: Seq<BlockHash>| #[trigger]
            info_at(after, path) == after_insert(before, hashes, blocks, clock, path),
    ensures
        matched_blocks(after, hashes) == blocks,
        matched_tokens(after, hashes) == PAGE_SIZE * hashes.len(),
{
    insertion_is_found(before, after, hashes, blocks, clock);
    lookups_follow_the_path(after, hashes);
    fresh_pages(before, after, hashes, blocks, clock, hashes.len() as int);
    assert(blocks.take(blocks.len() as int) =~= blocks);
}

proof fn fresh_pages(
    before: Level,
    after: Level,
    hashes: Seq<BlockHash>,
    blocks: Seq<PhysicalBlockId>,
    clock: u64,
    n: int,
)
    requires
        0 <= n <= hashes.len(),
        blocks.len() == hashes.len(),
        depth(before, hashes) == 0,
        forall|path: Seq<BlockHash>| #[trigger]
            info_at(after, path) == after_insert(before, hashes, blocks, clock, path),
    ensures
        pages_along(after, hashes, n) == blocks.take(n),
        tokens_along(after, hashes, n) == PAGE_SIZE * n,
    decreases n,
{
    if n > 0 {
        fresh_pages(before, after, hashes, blocks, clock, n - 1);
        depth_counts_paths(before, hashes, n as nat);
        let path = hashes.take(n);
        assert(path =~= hashes.take(path.len() as int));
        assert(info_at(after, path) == after_insert(before, hashes, blocks, clock, path));
        assert(pages_along(after, hashes, n) =~= blocks.take(n));
    } else {
        assert(pages_along(after, hashes, n) =~= blocks.take(n));
    }
}

/// Token lists that begin alike have the same hashes as far as whole pages of them agree:
/// page `i` of the one is found where page `i` of the other was put.
pub proof fn common_pages_have_common_hashes(a: Seq<u32>, b: Seq<u32>, i: int)
    requires
        0 <= i,
        PAGE_SIZE * (i + 1) <= a.len(),
        PAGE_SIZE * (i + 1) <= b.len(),
        a.take(PAGE_SIZE * (i + 1)) == b.take(PAGE_SIZE * (i + 1)),
    ensures
        i < block_hashes(a).len(),
        i < block_hashes(b).len(),
        block_hashes(a)[i] == block_hashes(b)[i],
        block_hashes(a)[i] == fnv(a.subrange(PAGE_SIZE * i, PAGE_SIZE * (i + 1))),
{
    let (lo, hi) = (PAGE_SIZE * i, PAGE_SIZE * (i + 1));
    assert(a.subrange(lo, hi) =~= a.take(hi).subrange(lo, hi));
    assert(b.subrange(lo, hi) =~= b.take(hi).subrange(lo, hi));
}

/// Every token is hashed once: the pages that are hashed make up the list.
pub proof fn pages_make_up_the_tokens(tokens: Seq<u32>)
    ensures
        PAGE_SIZE * (block_hashes(tokens).len() - 1) < tokens.len() || tokens.len() == 0,
        tokens.len() <= PAGE_SIZE * block_hashes(tokens).len(),
        tokens.len() > 0 ==> block_hashes(tokens).last() == fnv(
            tokens.skip(PAGE_SIZE * (block_hashes(tokens).len() - 1)),
        ),
{
    let n = block_hashes(tokens).len();
    if tokens.len() > 0 {
        let lo = PAGE_SIZE * (n - 1);
        assert(tokens.skip(lo) =~= tokens.subrange(lo, tokens.len() as int));
    }
}

} // verus!
