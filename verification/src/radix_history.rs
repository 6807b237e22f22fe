//! What the tree of shared prefixes holds, told by what was inserted into it.

use vstd::prelude::*;

use crate::paged_attention::{PhysicalBlockId, PAGE_SIZE};
use crate::radix_cache::{
    after_insert, after_lookup, depth, depth_counts_paths, depth_is_bounded, info_at, matched_blocks,
    matched_tokens, on_path, page_for, BlockHash, Level, RadixCache,
};

verus! {

/// A prefix that was inserted, with the pages given for its blocks.
pub struct Insertion {
    pub hashes: Seq<BlockHash>,
    pub blocks: Seq<PhysicalBlockId>,
}

/// The first insertion whose prefix begins with `path`.
pub open spec fn first_through(history: Seq<Insertion>, path: Seq<BlockHash>) -> Option<int>
    decreases history.len(),
{
    if history.len() == 0 {
        None
    } else {
        match first_through(history.drop_last(), path) {
            Some(i) => Some(i),
            None => if on_path(path, history.last().hashes) {
                Some(history.len() - 1)
            } else {
                None
            },
        }
    }
}

/// An inserted prefix begins with `path`.
pub open spec fn begins_one(history: Seq<Insertion>, path: Seq<BlockHash>) -> bool {
    exists|j: int| 0 <= j < history.len() && on_path(path, (#[trigger] history[j]).hashes)
}

/// The page that the first insertion through `path` gave for its last block.
pub open spec fn first_page(history: Seq<Insertion>, path: Seq<BlockHash>) -> PhysicalBlockId {
    page_for(history[first_through(history, path)->0].blocks, path.len() - 1)
}

/// What the tree says of `path`: it is known where an insertion went through it,
/// and then stands for a page of tokens, the page that the first of them gave.
pub open spec fn tells(level: Level, history: Seq<Insertion>, path: Seq<BlockHash>) -> bool {
    match info_at(level, path) {
        Some(info) => {
            &&& first_through(history, path) is Some
            &&& info.blocks == seq![first_page(history, path)]
            &&& info.token_count == PAGE_SIZE
        },
        None => first_through(history, path) is None,
    }
}

/// The tree holds what was inserted and nothing else.
pub open spec fn holds(level: Level, history: Seq<Insertion>) -> bool {
    forall|path: Seq<BlockHash>| #[trigger] tells(level, history, path)
}

proof fn first_is_an_insertion(history: Seq<Insertion>, path: Seq<BlockHash>)
    ensures
        match first_through(history, path) {
            Some(i) => {
                &&& 0 <= i < history.len()
                &&& on_path(path, history[i].hashes)
                &&& forall|j: int| 0 <= j < i ==> !on_path(path, (#[trigger] history[j]).hashes)
            },
            None => forall|j: int|
                0 <= j < history.len() ==> !on_path(path, (#[trigger] history[j]).hashes),
        },
    decreases history.len(),
{
    if history.len() > 0 {
        let before = history.drop_last();
        first_is_an_insertion(before, path);
        assert forall|j: int| 0 <= j < before.len() implies history[j] == #[trigger] before[j] by {}
        match first_through(before, path) {
            Some(i) => {
                assert(before[i] == history[i]);
                assert forall|j: int| 0 <= j < i implies !on_path(
                    path,
                    (#[trigger] history[j]).hashes,
                ) by {
                    assert(before[j] == history[j]);
                }
            },
            None => {
                assert forall|j: int| 0 <= j < history.len() - 1 implies !on_path(
                    path,
                    (#[trigger] history[j]).hashes,
                ) by {
                    assert(before[j] == history[j]);
                }
            },
        }
    }
}

/// A new tree holds nothing.
pub proof fn empty_tree_holds_nothing()
    ensures
        holds(Level::empty(), Seq::empty()),
{
    assert forall|path: Seq<BlockHash>| #[trigger]
        tells(Level::empty(), Seq::empty(), path) by {
        assert(info_at(Level::empty(), path) is None);
        assert(first_through(Seq::empty(), path) is None);
    }
}

/// After an insertion the tree holds it as well. The prefixes that become known
/// are those of the inserted one beyond what was known of it.
pub proof fn insertion_is_held(
    before: Level,
    after: Level,
    history: Seq<Insertion>,
    new: Insertion,
    clock: u64,
)
    requires
        holds(before, history),
        forall|path: Seq<BlockHash>| #[trigger]
            info_at(after, path) == after_insert(before, new.hashes, new.blocks, clock, path),
    ensures
        holds(after, history.push(new)),
        forall|path: Seq<BlockHash>|
            (info_at(before, path) is None && #[trigger] info_at(after, path) is Some) <==> (
            on_path(path, new.hashes) && depth(before, new.hashes) < path.len()),
{
    let all = history.push(new);
    assert(all.drop_last() =~= history);
    assert forall|path: Seq<BlockHash>| #[trigger] tells(after, all, path) by {
        assert(tells(before, history, path));
        first_is_an_insertion(history, path);
        first_is_an_insertion(all, path);
        assert(info_at(after, path) == after_insert(before, new.hashes, new.blocks, clock, path));
        match first_through(history, path) {
            Some(i) => {
                assert(all[i] == history[i]);
            },
            None => {},
        }
    }
    assert forall|path: Seq<BlockHash>|
        (info_at(before, path) is None && #[trigger] info_at(after, path) is Some) <==> (on_path(
            path,
            new.hashes,
        ) && depth(before, new.hashes) < path.len()) by {
        if on_path(path, new.hashes) {
            depth_counts_paths(before, new.hashes, path.len());
        }
    }
}

/// A lookup leaves the tree holding what it held.
pub proof fn lookup_keeps_what_is_held(
    before: Level,
    after: Level,
    history: Seq<Insertion>,
    hashes: Seq<BlockHash>,
    clock: u64,
)
    requires
        holds(before, history),
        forall|path: Seq<BlockHash>| #[trigger]
            info_at(after, path) == after_lookup(before, hashes, clock, path),
    ensures
        holds(after, history),
{
    assert forall|path: Seq<BlockHash>| #[trigger] tells(after, history, path) by {
        assert(tells(before, history, path));
        assert(info_at(after, path) == after_lookup(before, hashes, clock, path));
    }
}

/// A lookup finds the longest beginning of `hashes` that begins an inserted
/// prefix: a page of tokens for each block of it, and the page that the first
/// insertion through the block gave. It counts as a hit where there is one.
pub proof fn lookup_finds_the_longest_prefix(
    c: RadixCache,
    history: Seq<Insertion>,
    hashes: Seq<BlockHash>,
)
    requires
        holds(c.root@, history),
        c.stats.cache_hits < u64::MAX,
        c.stats.cache_misses < u64::MAX,
    ensures
        ({
            let k = depth(c.root@, hashes);
            let blocks = matched_blocks(c.root@, hashes);
            let stats = c.counted(matched_tokens(c.root@, hashes));
            &&& k <= hashes.len()
            &&& forall|n: int|
                0 < n <= hashes.len() ==> (n <= k <==> begins_one(
                    history,
                    #[trigger] hashes.take(n),
                ))
            &&& matched_tokens(c.root@, hashes) == PAGE_SIZE * k
            &&& blocks.len() == k
            &&& forall|i: int|
                0 <= i < k ==> #[trigger] blocks[i] == first_page(history, hashes.take(i + 1))
            &&& stats.cache_hits == c.stats.cache_hits + if k > 0 {
                1int
            } else {
                0int
            }
            &&& stats.cache_misses == c.stats.cache_misses + if k > 0 {
                0int
            } else {
                1int
            }
        }),
{
    let level = c.root@;
    let k = depth(level, hashes);
    depth_is_bounded(level, hashes);
    assert forall|n: int| 0 < n <= hashes.len() implies (n <= k <==> begins_one(
        history,
        #[trigger] hashes.take(n),
    )) by {
        let path = hashes.take(n);
        depth_counts_paths(level, hashes, n as nat);
        assert(tells(level, history, path));
        first_is_an_insertion(history, path);
        if n <= k {
            let i = first_through(history, path)->0;
            assert(on_path(path, history[i].hashes));
        }
    }
    assert forall|n: nat| 0 < n <= k implies match #[trigger] info_at(
        level,
        hashes.take(n as int),
    ) {
        Some(info) => info.blocks == seq![first_page(history, hashes.take(n as int))]
            && info.token_count == PAGE_SIZE,
        None => false,
    } by {
        depth_counts_paths(level, hashes, n);
        assert(tells(level, history, hashes.take(n as int)));
    }
    let pages = Seq::new(k, |i: int| first_page(history, hashes.take(i + 1)));
    pages_are_matched(level, hashes, pages);
    assert(PAGE_SIZE * k > 0 <==> k > 0);
}

proof fn pages_are_matched(
    level: Level,
    hashes: Seq<BlockHash>,
    pages: Seq<PhysicalBlockId>,
)
    requires
        pages.len() == depth(level, hashes),
        forall|n: nat|
            0 < n <= pages.len() ==> match #[trigger] info_at(level, hashes.take(n as int)) {
                Some(info) => info.blocks == seq![pages[n - 1]] && info.token_count == PAGE_SIZE,
                None => false,
            },
    ensures
        matched_tokens(level, hashes) == PAGE_SIZE * pages.len(),
        matched_blocks(level, hashes) == pages,
    decreases hashes.len(),
{
    depth_is_bounded(level, hashes);
    if pages.len() > 0 {
        assert(info_at(level, hashes.take(1nat as int)) is Some);
        let h = hashes.skip(1);
        let p = pages.skip(1);
        let children = level[hashes[0]].children@;
        assert forall|n: nat| 0 < n <= p.len() implies match #[trigger] info_at(
            children,
            h.take(n as int),
        ) {
            Some(info) => info.blocks == seq![p[n - 1]] && info.token_count == PAGE_SIZE,
            None => false,
        } by {
            depth_is_bounded(children, h);
            let path = hashes.take((n + 1) as nat as int);
            assert(info_at(level, hashes.take((n + 1) as nat as int)) is Some);
            assert(path.skip(1) =~= h.take(n as int));
        }
        pages_are_matched(children, h, p);
        assert(level[hashes[0]].info().blocks == seq![pages[0]]);
        assert(matched_blocks(level, hashes) =~= pages);
    } else {
        assert(matched_blocks(level, hashes) =~= pages);
    }
}

/// What was inserted is read back, whatever the tree held of it before: every
/// block is found; those that were known keep their pages, the others have the
/// pages given.
pub proof fn insertion_reads_back(
    before: Level,
    after: Level,
    history: Seq<Insertion>,
    new: Insertion,
    clock: u64,
)
    requires
        holds(before, history),
        forall|path: Seq<BlockHash>| #[trigger]
            info_at(after, path) == after_insert(before, new.hashes, new.blocks, clock, path),
    ensures
        matched_tokens(after, new.hashes) == PAGE_SIZE * new.hashes.len(),
        matched_blocks(after, new.hashes) == Seq::new(
            new.hashes.len(),
            |i: int|
                if i < depth(before, new.hashes) {
                    matched_blocks(before, new.hashes)[i]
                } else {
                    page_for(new.blocks, i)
                },
        ),
{
    let hashes = new.hashes;
    let k = depth(before, hashes);
    depth_is_bounded(before, hashes);
    let known = Seq::new(k, |i: int| first_page(history, hashes.take(i + 1)));
    assert forall|n: nat| 0 < n <= k implies match #[trigger] info_at(
        before,
        hashes.take(n as int),
    ) {
        Some(info) => info.blocks == seq![known[n - 1]] && info.token_count == PAGE_SIZE,
        None => false,
    } by {
        depth_counts_paths(before, hashes, n);
        assert(tells(before, history, hashes.take(n as int)));
    }
    pages_are_matched(before, hashes, known);
    let pages = Seq::new(
        hashes.len(),
        |i: int|
            if i < k {
                matched_blocks(before, hashes)[i]
            } else {
                page_for(new.blocks, i)
            },
    );
    assert forall|n: nat| 0 < n <= pages.len() implies match #[trigger] info_at(
        after,
        hashes.take(n as int),
    ) {
        Some(info) => info.blocks == seq![pages[n - 1]] && info.token_count == PAGE_SIZE,
        None => false,
    } by {
        let path = hashes.take(n as int);
        assert(on_path(path, hashes));
        depth_counts_paths(before, hashes, n);
        assert(info_at(after, path) == after_insert(before, hashes, new.blocks, clock, path));
    }
    if hashes.len() > 0 {
        depth_counts_paths(after, hashes, hashes.len());
        assert(info_at(after, hashes.take(hashes.len() as nat as int)) is Some);
    }
    depth_is_bounded(after, hashes);
    pages_are_matched(after, hashes, pages);
}

} // verus!
