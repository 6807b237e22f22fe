//! Drafts from retrieved continuations: sequences of tokens in a tree of
//! prefixes, whose heavy branches become candidates.

use vstd::multiset::Multiset;
use vstd::prelude::*;

use crate::ranking::{is_ranking, rank_desc, ranking_of};
use crate::speculation::copy_range;

verus! {

/// A token in the tree, with the tokens that follow it.
pub struct TrieNode {
    pub token_id: u32,
    /// No two of them have the same token.
    pub children: Vec<TrieNode>,
    pub frequency: u32,
    pub is_terminal: bool,
}

/// A node without what follows it.
pub struct TrieInfo {
    pub frequency: nat,
    pub terminal: bool,
}

impl TrieNode {
    pub fn new(token_id: u32) -> (n: TrieNode)
        ensures
            n.token_id == token_id,
            n.children@ == Seq::<TrieNode>::empty(),
            n.frequency == 1,
            !n.is_terminal,
    {
        TrieNode { token_id, children: Vec::new(), frequency: 1, is_terminal: false }
    }

    /// The node without what follows it.
    pub open spec fn info(self) -> TrieInfo {
        TrieInfo { frequency: self.frequency as nat, terminal: self.is_terminal }
    }
}

/// The index of the first child with token `t`; their number where there is
/// none.
pub open spec fn find(children: Seq<TrieNode>, t: u32) -> int
    decreases children.len(),
{
    if children.len() == 0 || children[0].token_id == t {
        0
    } else {
        1 + find(children.skip(1), t)
    }
}

proof fn find_is_first(children: Seq<TrieNode>, t: u32)
    ensures
        0 <= find(children, t) <= children.len(),
        find(children, t) < children.len() ==> children[find(children, t)].token_id == t,
        forall|i: int| 0 <= i < find(children, t) ==> (#[trigger] children[i]).token_id != t,
    decreases children.len(),
{
    if children.len() > 0 && children[0].token_id != t {
        let rest = children.skip(1);
        find_is_first(rest, t);
        assert forall|i: int| 0 <= i < find(children, t) implies (
        #[trigger] children[i]).token_id != t by {
            if i > 0 {
                assert(children[i] == rest[i - 1]);
            }
        }
    }
}

proof fn find_is(children: Seq<TrieNode>, t: u32, i: int)
    requires
        0 <= i <= children.len(),
        i < children.len() ==> children[i].token_id == t,
        forall|j: int| 0 <= j < i ==> (#[trigger] children[j]).token_id != t,
    ensures
        find(children, t) == i,
{
    find_is_first(children, t);
    let f = find(children, t);
    if f < i {
        assert(children[f].token_id != t);
    }
    if i < f {
        assert(children[i].token_id != t);
    }
}

/// The node that the path of tokens `path` leads to.
pub open spec fn node_at(children: Seq<TrieNode>, path: Seq<u32>) -> Option<TrieNode>
    decreases path.len(),
{
    if path.len() == 0 {
        None
    } else {
        let i = find(children, path[0]);
        if i >= children.len() {
            None
        } else if path.len() == 1 {
            Some(children[i])
        } else {
            node_at(children[i].children@, path.skip(1))
        }
    }
}

/// What the tree says of the path of tokens `path`.
pub open spec fn info_at(children: Seq<TrieNode>, path: Seq<u32>) -> Option<TrieInfo> {
    match node_at(children, path) {
        Some(n) => Some(n.info()),
        None => None,
    }
}

/// No two children of a node have the same token, anywhere in the tree.
pub open spec fn distinct(children: Seq<TrieNode>) -> bool
    decreases children,
{
    &&& forall|i: int, j: int|
        0 <= i < j < children.len() ==> (#[trigger] children[i]).token_id != (
        #[trigger] children[j]).token_id
    &&& forall|i: int| 0 <= i < children.len() ==> distinct((#[trigger] children[i]).children@)
}

/// `path` leads through the first tokens of `s`.
pub open spec fn on_path(path: Seq<u32>, s: Seq<u32>) -> bool {
    0 < path.len() <= s.len() && path == s.take(path.len() as int)
}

/// What inserting `s` with weight `weight` does to what the tree says of `path`.
pub open spec fn after_insert(
    before: Option<TrieInfo>,
    path: Seq<u32>,
    s: Seq<u32>,
    weight: nat,
) -> Option<TrieInfo> {
    if on_path(path, s) {
        let ends = path.len() == s.len();
        match before {
            Some(i) => Some(
                TrieInfo { frequency: i.frequency + weight, terminal: i.terminal || ends },
            ),
            None => Some(TrieInfo { frequency: 1 + weight, terminal: ends }),
        }
    } else {
        before
    }
}

/// The weight can be added to every node on the path `s`.
pub open spec fn has_room(children: Seq<TrieNode>, s: Seq<u32>, weight: nat) -> bool {
    1 + weight <= u32::MAX && forall|path: Seq<u32>|
        on_path(path, s) ==> match #[trigger] info_at(children, path) {
            Some(i) => i.frequency + weight <= u32::MAX,
            None => true,
        }
}

proof fn on_path_step(path: Seq<u32>, s: Seq<u32>)
    requires
        path.len() > 0,
        s.len() > 0,
    ensures
        on_path(path, s) == (path[0] == s[0] && (path.len() == 1 || on_path(
            path.skip(1),
            s.skip(1),
        ))),
{
    let p = path.skip(1);
    let h = s.skip(1);
    if path.len() <= s.len() {
        let t = s.take(path.len() as int);
        if on_path(path, s) {
            assert(path[0] == t[0]);
            assert(p =~= h.take(p.len() as int));
        }
        if path[0] == s[0] && (path.len() == 1 || on_path(p, h)) {
            assert(path =~= t) by {
                assert forall|i: int| 0 <= i < path.len() implies path[i] == t[i] by {
                    if i > 0 {
                        assert(p[i - 1] == h.take(p.len() as int)[i - 1]);
                    }
                }
            }
        }
    }
}

fn find_child(children: &Vec<TrieNode>, t: u32) -> (i: usize)
    ensures
        i == find(children@, t),
        i <= children@.len(),
{
    let mut i: usize = 0;
    while i < children.len() && children[i].token_id != t
        invariant
            i <= children@.len(),
            forall|j: int| 0 <= j < i ==> (#[trigger] children@[j]).token_id != t,
        decreases children@.len() - i,
    {
        i = i + 1;
    }
    proof {
        find_is(children@, t, i as int);
    }
    i
}

fn insert_in(children: &mut Vec<TrieNode>, sequence: &[u32], i: usize, len: usize, weight: u32)
    requires
        i < len <= sequence@.len(),
        distinct(old(children)@),
        has_room(old(children)@, sequence@.subrange(i as int, len as int), weight as nat),
    ensures
        distinct(final(children)@),
        forall|path: Seq<u32>| #[trigger]
            info_at(final(children)@, path) == after_insert(
                info_at(old(children)@, path),
                path,
                sequence@.subrange(i as int, len as int),
                weight as nat,
            ),
    decreases len - i,
{
    let ghost s = sequence@.subrange(i as int, len as int);
    let ghost before = children@;
    let t: u32 = sequence[i];
    assert(s[0] == t);
    let at: usize = find_child(children, t);
    proof {
        find_is_first(before, t);
    }
    if at == children.len() {
        children.push(TrieNode::new(t));
    }
    let ghost grown = children@;
    let ghost node0 = grown[at as int];
    proof {
        let first = s.take(1);
        assert(on_path(first, s));
        assert(info_at(before, first) == if at < before.len() {
            Some(node0.info())
        } else {
            None
        });
        assert(node0.frequency + weight <= u32::MAX);
        assert(distinct(node0.children@));
    }
    let f: u32 = children[at].frequency;
    children[at].frequency = f + weight;
    if i + 1 == len {
        children[at].is_terminal = true;
    } else {
        proof {
            let rest = sequence@.subrange(i + 1, len as int);
            assert(rest =~= s.skip(1));
            assert forall|path: Seq<u32>| on_path(path, rest) implies match #[trigger] info_at(
                node0.children@,
                path,
            ) {
                Some(x) => x.frequency + weight <= u32::MAX,
                None => true,
            } by {
                let whole = seq![t] + path;
                assert(whole.skip(1) =~= path);
                on_path_step(whole, s);
                assert(on_path(whole, s));
                if at < before.len() {
                    assert(info_at(before, whole) == info_at(node0.children@, path));
                } else {
                    assert(node0.children@ =~= Seq::<TrieNode>::empty());
                }
            }
        }
        insert_in(&mut children[at].children, sequence, i + 1, len, weight);
    }
    proof {
        let after = children@;
        let node1 = after[at as int];
        let rest = s.skip(1);
        assert(sequence@.subrange(i + 1, len as int) =~= rest);
        assert(after.len() == grown.len());
        assert(node1.token_id == t);
        assert forall|k: int| 0 <= k < after.len() && k != at implies #[trigger] after[k]
            == grown[k] by {}
        assert(distinct(after)) by {
            assert forall|a: int, b: int| 0 <= a < b < after.len() implies (
            #[trigger] after[a]).token_id != (#[trigger] after[b]).token_id by {
                assert(after[a].token_id == grown[a].token_id);
                assert(after[b].token_id == grown[b].token_id);
                if b < before.len() {
                    assert(before[a].token_id != before[b].token_id);
                } else {
                    assert(before[a].token_id != t);
                }
            }
            assert forall|a: int| 0 <= a < after.len() implies distinct(
                (#[trigger] after[a]).children@,
            ) by {
                if a != at {
                    assert(after[a] == before[a]);
                }
            }
        }
        assert forall|path: Seq<u32>| #[trigger] info_at(after, path) == after_insert(
            info_at(before, path),
            path,
            s,
            weight as nat,
        ) by {
            if path.len() > 0 {
                on_path_step(path, s);
                let x = path[0];
                find_is_first(before, x);
                if x == t {
                    assert forall|j: int| 0 <= j < at implies (#[trigger] after[j]).token_id != t by {
                        assert(after[j] == before[j]);
                    }
                    find_is(after, t, at as int);
                    assert(info_at(after, path) == if path.len() == 1 {
                        Some(node1.info())
                    } else {
                        info_at(node1.children@, path.skip(1))
                    });
                    if path.len() > 1 {
                        let p = path.skip(1);
                        if i + 1 < len {
                            assert(info_at(node1.children@, p) == after_insert(
                                info_at(node0.children@, p),
                                p,
                                rest,
                                weight as nat,
                            ));
                        }
                        if i + 1 == len {
                            assert(node1.children@ == node0.children@);
                            assert(!on_path(p, rest));
                        }
                        if at == before.len() {
                            assert(node0.children@ =~= Seq::<TrieNode>::empty());
                            assert(info_at(node0.children@, p) is None);
                        }
                    }
                } else {
                    let g = find(before, x);
                    assert forall|j: int| 0 <= j < g implies (#[trigger] after[j]).token_id != x by {
                        if j != at {
                            assert(after[j] == before[j]);
                        }
                    }
                    if g < before.len() {
                        assert(after[g] == before[g]);
                        find_is(after, x, g);
                    } else {
                        assert forall|j: int| 0 <= j < after.len() implies (
                        #[trigger] after[j]).token_id != x by {
                            if j != at {
                                assert(after[j] == before[j]);
                            }
                        }
                        find_is(after, x, after.len() as int);
                    }
                }
            }
        }
    }
}

/// The branches as sequences.
pub open spec fn branch_views(b: Seq<Vec<u32>>) -> Seq<Seq<u32>> {
    b.map_values(|v: Vec<u32>| v@)
}

/// The keys by which children are ranked: how often they were seen.
pub open spec fn frequency_keys(children: Seq<TrieNode>) -> Seq<i128> {
    children.map_values(|n: TrieNode| n.frequency as i128)
}

/// The keys by which branches are ranked: their lengths.
pub open spec fn length_keys(b: Seq<Seq<u32>>) -> Seq<i128> {
    b.map_values(|v: Seq<u32>| v.len() as i128)
}

/// The path through `node`. The token 0 stands for the root and leaves no trace
/// in a path.
pub open spec fn path_through(node: TrieNode, path: Seq<u32>) -> Seq<u32> {
    if node.token_id != 0 {
        path.push(node.token_id)
    } else {
        path
    }
}

/// The branches found at `node` and below it, in addition to `branches`: a
/// sequence ends at a terminal node and at a node without children. Frequent
/// children come first. Once there are `cap` branches no further node is
/// entered.
pub open spec fn found_at(
    node: TrieNode,
    path: Seq<u32>,
    branches: Seq<Seq<u32>>,
    cap: nat,
) -> Seq<Seq<u32>>
    decreases node, node.children@.len() + 1,
{
    if branches.len() >= cap {
        branches
    } else {
        let p = path_through(node, path);
        let b = if (node.is_terminal || node.children@.len() == 0) && p.len() > 0 {
            branches.push(p)
        } else {
            branches
        };
        found_below(node, node.children@.len(), p, b, cap)
    }
}

/// The branches found in the first `n` children of `node`, by rank.
pub open spec fn found_below(
    node: TrieNode,
    n: nat,
    path: Seq<u32>,
    branches: Seq<Seq<u32>>,
    cap: nat,
) -> Seq<Seq<u32>>
    decreases node, n,
    when n <= node.children@.len()
{
    if n == 0 {
        branches
    } else {
        let before = found_below(node, (n - 1) as nat, path, branches, cap);
        let i = ranking_of(frequency_keys(node.children@))[n - 1] as int;
        if 0 <= i < node.children@.len() {
            found_at(node.children@[i], path, before, cap)
        } else {
            before
        }
    }
}

/// The tree of prefixes.
pub struct RestTrie {
    pub root: TrieNode,
    pub max_depth: usize,
}

/// The part of a sequence that the tree takes.
pub open spec fn cut(s: Seq<u32>, depth: nat) -> Seq<u32> {
    if s.len() <= depth {
        s
    } else {
        s.take(depth as int)
    }
}

/// What a tree of the first `n` of `sequences` says of `path`.
pub open spec fn summary(sequences: Seq<Vec<u32>>, n: int, depth: nat, path: Seq<u32>) -> Option<
    TrieInfo,
>
    decreases n,
{
    if n <= 0 {
        None
    } else {
        after_insert(
            summary(sequences, n - 1, depth, path),
            path,
            cut(sequences[n - 1]@, depth),
            1,
        )
    }
}

/// How many of the first `n` of `sequences` hold a token.
pub open spec fn nonempty(sequences: Seq<Vec<u32>>, n: int) -> nat
    decreases n,
{
    if n <= 0 {
        0
    } else {
        nonempty(sequences, n - 1) + if sequences[n - 1]@.len() > 0 {
            1nat
        } else {
            0nat
        }
    }
}

/// How many of the first `n` of `sequences` pass through `path`.
pub open spec fn passes(sequences: Seq<Vec<u32>>, n: int, depth: nat, path: Seq<u32>) -> nat
    decreases n,
{
    if n <= 0 {
        0
    } else {
        passes(sequences, n - 1, depth, path) + if on_path(path, cut(sequences[n - 1]@, depth)) {
            1nat
        } else {
            0nat
        }
    }
}

/// One of the first `n` of `sequences`, cut to the depth of the tree, is `path`.
pub open spec fn ends_there(sequences: Seq<Vec<u32>>, n: int, depth: nat, path: Seq<u32>) -> bool {
    exists|i: int| 0 <= i < n && cut((#[trigger] sequences[i])@, depth) == path
}

/// The tree knows the beginnings of its sequences and nothing else. A path is as
/// frequent as there are sequences through it, plus one, and terminal where a
/// sequence ends.
pub proof fn tree_knows_its_sequences(
    sequences: Seq<Vec<u32>>,
    n: int,
    depth: nat,
    path: Seq<u32>,
)
    requires
        0 <= n <= sequences.len(),
    ensures
        match summary(sequences, n, depth, path) {
            Some(i) => {
                &&& passes(sequences, n, depth, path) > 0
                &&& i.frequency == 1 + passes(sequences, n, depth, path)
                &&& i.terminal == ends_there(sequences, n, depth, path)
            },
            None => passes(sequences, n, depth, path) == 0,
        },
    decreases n,
{
    if n > 0 {
        tree_knows_its_sequences(sequences, n - 1, depth, path);
        let last = cut(sequences[n - 1]@, depth);
        let before = ends_there(sequences, n - 1, depth, path);
        let after = ends_there(sequences, n, depth, path);
        assert(after == (before || last == path)) by {
            if after {
                let i = choose|i: int|
                    0 <= i < n && cut((#[trigger] sequences[i])@, depth) == path;
                if i < n - 1 {
                    assert(before);
                }
            }
            if before {
                let i = choose|i: int|
                    0 <= i < n - 1 && cut((#[trigger] sequences[i])@, depth) == path;
                assert(cut(sequences[i]@, depth) == path);
            }
            if last == path {
                assert(cut(sequences[n - 1]@, depth) == path);
            }
        }
        if on_path(path, last) {
            assert(path.len() == last.len() ==> path =~= last);
            if passes(sequences, n - 1, depth, path) == 0 {
                if before {
                    let i = choose|i: int|
                        0 <= i < n - 1 && cut((#[trigger] sequences[i])@, depth) == path;
                    ending_is_passing(sequences, n - 1, depth, path, i);
                }
            }
        } else if last == path {
            assert(path.len() == 0 || path =~= last.take(path.len() as int));
            if path.len() == 0 {
                no_path_is_empty(sequences, n - 1, depth, path);
            }
        }
    }
}

proof fn ending_is_passing(
    sequences: Seq<Vec<u32>>,
    n: int,
    depth: nat,
    path: Seq<u32>,
    i: int,
)
    requires
        0 <= i < n <= sequences.len(),
        cut(sequences[i]@, depth) == path,
        path.len() > 0,
    ensures
        passes(sequences, n, depth, path) > 0,
    decreases n,
{
    if i < n - 1 {
        ending_is_passing(sequences, n - 1, depth, path, i);
    } else {
        assert(path =~= path.take(path.len() as int));
    }
}

proof fn no_path_is_empty(sequences: Seq<Vec<u32>>, n: int, depth: nat, path: Seq<u32>)
    requires
        path.len() == 0,
    ensures
        summary(sequences, n, depth, path) is None,
        passes(sequences, n, depth, path) == 0,
    decreases n,
{
    if n > 0 {
        no_path_is_empty(sequences, n - 1, depth, path);
    }
}

proof fn summary_is_small(sequences: Seq<Vec<u32>>, n: int, depth: nat, path: Seq<u32>)
    requires
        0 <= n,
    ensures
        match summary(sequences, n, depth, path) {
            Some(i) => i.frequency <= 1 + n,
            None => true,
        },
    decreases n,
{
    if n > 0 {
        summary_is_small(sequences, n - 1, depth, path);
    }
}

impl RestTrie {
    pub open spec fn wf(&self) -> bool {
        self.root.token_id == 0 && distinct(self.root.children@)
    }

    /// An empty tree that takes sequences up to `max_depth` tokens deep.
    pub fn new(max_depth: usize) -> (t: RestTrie)
        ensures
            t.wf(),
            t.max_depth == max_depth,
            t.root.children@ == Seq::<TrieNode>::empty(),
            t.root.frequency == 1,
            !t.root.is_terminal,
    {
        RestTrie { root: TrieNode::new(0), max_depth }
    }

    /// The tree of `sequences`, each with weight one.
    pub fn from_token_sequences(sequences: &Vec<Vec<u32>>, max_depth: usize) -> (t: RestTrie)
        requires
            sequences@.len() < u32::MAX - 1,
        ensures
            t.wf(),
            t.max_depth == max_depth,
            forall|path: Seq<u32>| #[trigger]
                info_at(t.root.children@, path) == summary(
                    sequences@,
                    sequences@.len() as int,
                    max_depth as nat,
                    path,
                ),
            t.root.frequency == 1 + nonempty(sequences@, sequences@.len() as int),
            t.root.is_terminal == (max_depth == 0 && nonempty(
                sequences@,
                sequences@.len() as int,
            ) > 0),
    {
        let mut trie = Self::new(max_depth);
        let mut i: usize = 0;
        while i < sequences.len()
            invariant
                i <= sequences@.len() < u32::MAX - 1,
                trie.wf(),
                trie.max_depth == max_depth,
                trie.root.frequency <= 1 + i,
                trie.root.frequency == 1 + nonempty(sequences@, i as int),
                trie.root.is_terminal == (max_depth == 0 && nonempty(sequences@, i as int) > 0),
                forall|path: Seq<u32>| #[trigger]
                    info_at(trie.root.children@, path) == summary(
                        sequences@,
                        i as int,
                        max_depth as nat,
                        path,
                    ),
            decreases sequences@.len() - i,
        {
            proof {
                assert forall|path: Seq<u32>| true implies match #[trigger] info_at(
                    trie.root.children@,
                    path,
                ) {
                    Some(x) => x.frequency + 1 <= u32::MAX,
                    None => true,
                } by {
                    summary_is_small(sequences@, i as int, max_depth as nat, path);
                }
            }
            trie.insert_sequence(sequences[i].as_slice(), 1);
            i = i + 1;
        }
        trie
    }

    /// Inserts a sequence, as deep as the tree goes. An empty sequence is
    /// ignored.
    pub fn insert_sequence(&mut self, sequence: &[u32], weight: u32)
        requires
            old(self).wf(),
            old(self).root.frequency + weight <= u32::MAX,
            has_room(
                old(self).root.children@,
                cut(sequence@, old(self).max_depth as nat),
                weight as nat,
            ),
        ensures
            final(self).wf(),
            sequence@.len() == 0 ==> *final(self) == *old(self),
            final(self).max_depth == old(self).max_depth,
            final(self).root.frequency == old(self).root.frequency + (if sequence@.len() == 0 {
                0
            } else {
                weight as int
            }),
            final(self).root.is_terminal == (old(self).root.is_terminal || (sequence@.len() > 0
                && old(self).max_depth == 0)),
            forall|path: Seq<u32>| #[trigger]
                info_at(final(self).root.children@, path) == after_insert(
                    info_at(old(self).root.children@, path),
                    path,
                    cut(sequence@, old(self).max_depth as nat),
                    weight as nat,
                ),
    {
        if sequence.len() == 0 {
            return ;
        }
        self.root.frequency = self.root.frequency + weight;
        let len: usize = if sequence.len() <= self.max_depth {
            sequence.len()
        } else {
            self.max_depth
        };
        if len == 0 {
            self.root.is_terminal = true;
        } else {
            assert(sequence@.subrange(0, len as int) =~= cut(sequence@, self.max_depth as nat));
            insert_in(&mut self.root.children, sequence, 0, len, weight);
        }
    }

    /// At most `max_branches` sequences of the tree, longest first. The search
    /// prefers frequent tokens and ends when it has found ten times as many.
    pub fn generate_branches(&self, max_branches: usize) -> (r: Vec<Vec<u32>>)
        requires
            max_branches * 10 <= usize::MAX,
        ensures
            branch_views(r@) == best_branches(self.root, max_branches as nat),
            found_at(
                self.root,
                Seq::empty(),
                Seq::empty(),
                (max_branches * 10) as nat,
            ).len() <= usize::MAX,
    {
        let mut branches: Vec<Vec<u32>> = Vec::new();
        let mut path: Vec<u32> = Vec::new();
        assert(branch_views(branches@) =~= Seq::empty());
        assert(path@ =~= Seq::empty());
        self.dfs(&self.root, &mut path, &mut branches, max_branches);
        let ghost all = branch_views(branches@);
        let mut keys: Vec<i128> = Vec::new();
        let mut i: usize = 0;
        while i < branches.len()
            invariant
                i <= branches@.len(),
                all == branch_views(branches@),
                keys@ == length_keys(all).take(i as int),
            decreases branches@.len() - i,
        {
            keys.push(branches[i].len() as i128);
            i = i + 1;
            assert(keys@ =~= length_keys(all).take(i as int));
        }
        assert(keys@ =~= length_keys(all));
        let order = rank_desc(&keys);
        let n: usize = if order.len() <= max_branches {
            order.len()
        } else {
            max_branches
        };
        let mut r: Vec<Vec<u32>> = Vec::new();
        let mut k: usize = 0;
        while k < n
            invariant
                k <= n <= order@.len(),
                keys@.len() == branches@.len(),
                is_ranking(keys@, order@),
                all == branch_views(branches@),
                r@.len() == k,
                forall|j: int| 0 <= j < k ==> (#[trigger] r@[j])@ == all[order@[j] as int],
            decreases n - k,
        {
            assert(0 <= order@[k as int] < keys@.len());
            let b = &branches[order[k]];
            let copy = copy_range(b, 0, b.len());
            assert(copy@ =~= b@);
            r.push(copy);
            k = k + 1;
        }
        assert(branch_views(r@) =~= best_branches(self.root, max_branches as nat));
        r
    }

    /// Adds the branches at `node` and below it; see [`found_at`].
    pub fn dfs(
        &self,
        node: &TrieNode,
        current_path: &mut Vec<u32>,
        branches: &mut Vec<Vec<u32>>,
        max_branches: usize,
    )
        requires
            max_branches * 10 <= usize::MAX,
        ensures
            final(current_path)@ == old(current_path)@,
            branch_views(final(branches)@) == found_at(
                *node,
                old(current_path)@,
                branch_views(old(branches)@),
                (max_branches * 10) as nat,
            ),
        decreases node,
    {
        let cap: usize = max_branches * 10;
        if branches.len() >= cap {
            return ;
        }
        let ghost path0 = current_path@;
        if node.token_id != 0 {
            current_path.push(node.token_id);
        }
        let ghost p = current_path@;
        assert(p == path_through(*node, path0));
        let ghost b0 = branch_views(branches@);
        if node.is_terminal || node.children.len() == 0 {
            if current_path.len() > 0 {
                let copy = copy_range(current_path, 0, current_path.len());
                assert(copy@ =~= p);
                branches.push(copy);
                assert(branch_views(branches@) =~= b0.push(p));
            }
        }
        let ghost b1 = branch_views(branches@);
        let mut keys: Vec<i128> = Vec::new();
        let mut i: usize = 0;
        while i < node.children.len()
            invariant
                i <= node.children@.len(),
                keys@ == frequency_keys(node.children@).take(i as int),
            decreases node.children@.len() - i,
        {
            keys.push(node.children[i].frequency as i128);
            i = i + 1;
            assert(keys@ =~= frequency_keys(node.children@).take(i as int));
        }
        assert(keys@ =~= frequency_keys(node.children@));
        let order = rank_desc(&keys);
        let mut k: usize = 0;
        while k < order.len()
            invariant
                k <= order@.len(),
                max_branches * 10 <= usize::MAX,
                cap == max_branches * 10,
                keys@.len() == node.children@.len(),
                is_ranking(keys@, order@),
                order@ == ranking_of(frequency_keys(node.children@)),
                current_path@ == p,
                branch_views(branches@) == found_below(*node, k as nat, p, b1, cap as nat),
            decreases order@.len() - k,
        {
            assert(0 <= order@[k as int] < keys@.len());
            let at: usize = order[k];
            self.dfs(&node.children[at], current_path, branches, max_branches);
            k = k + 1;
        }
        if node.token_id != 0 {
            let _ = current_path.pop();
            assert(current_path@ =~= path0);
        }
    }
}

// ─── Laws of the tree ────────────────────────────────────────────────────────

/// The best of the branches of a tree: the longest first, at most `max` of them.
pub open spec fn best_branches(root: TrieNode, max: nat) -> Seq<Seq<u32>> {
    let all = found_at(root, Seq::empty(), Seq::empty(), max * 10);
    Seq::new(
        if all.len() <= max {
            all.len()
        } else {
            max
        },
        |k: int| all[ranking_of(length_keys(all))[k] as int],
    )
}

/// A path as a branch shows it: the token 0 leaves no trace.
pub open spec fn traced(path: Seq<u32>) -> Seq<u32> {
    path.filter(|t: u32| t != 0)
}

/// `branch` is the trace of one of the first `n` of `sequences`, cut to the depth of
/// the tree.
pub open spec fn traces_one(
    sequences: Seq<Vec<u32>>,
    n: int,
    depth: nat,
    branch: Seq<u32>,
) -> bool {
    exists|i: int| 0 <= i < n && branch == traced(cut((#[trigger] sequences[i])@, depth))
}

/// The tree says of every path what the first `n` of `sequences` make of it.
pub open spec fn is_tree_of(t: RestTrie, sequences: Seq<Vec<u32>>, n: int) -> bool {
    forall|path: Seq<u32>| #[trigger]
        info_at(t.root.children@, path) == summary(sequences, n, t.max_depth as nat, path)
}

/// `branch` is the trace of a path of the tree that ends at a terminal node or at one
/// without children.
spec fn ends_in_tree(children: Seq<TrieNode>, branch: Seq<u32>) -> bool {
    exists|full: Seq<u32>| #[trigger] ends_at(children, full) && branch == traced(full)
}

/// All of `branches` end in the tree.
spec fn all_end(children: Seq<TrieNode>, branches: Seq<Seq<u32>>) -> bool {
    forall|k: int| 0 <= k < branches.len() ==> ends_in_tree(children, #[trigger] branches[k])
}

spec fn ends_at(children: Seq<TrieNode>, full: Seq<u32>) -> bool {
    match node_at(children, full) {
        Some(n) => n.is_terminal || n.children@.len() == 0,
        None => false,
    }
}

/// `node` is where `full` leads; the empty path leads to the root.
spec fn leads_to(children: Seq<TrieNode>, full: Seq<u32>, node: TrieNode) -> bool {
    if full.len() == 0 {
        node.children@ == children
    } else {
        node_at(children, full) == Some(node)
    }
}

proof fn traced_push(path: Seq<u32>, t: u32)
    ensures
        traced(path.push(t)) == if t != 0 {
            traced(path).push(t)
        } else {
            traced(path)
        },
        traced(Seq::empty()) == Seq::<u32>::empty(),
{
    reveal(Seq::filter);
    assert(path.push(t).drop_last() =~= path);
    assert(traced(Seq::empty()) =~= Seq::<u32>::empty());
}

proof fn child_is_led_to(children: Seq<TrieNode>, full: Seq<u32>, node: TrieNode, i: int)
    requires
        distinct(children),
        leads_to(children, full, node),
        0 <= i < node.children@.len(),
    ensures
        node_at(children, full.push(node.children@[i].token_id)) == Some(node.children@[i]),
{
    let t = node.children@[i].token_id;
    if full.len() == 0 {
        child_is_found(children, i);
        assert(full.push(t) =~= seq![t]);
    } else {
        distinct_below(children, full);
        child_is_found(node.children@, i);
        node_at_child(children, full, t);
    }
}

proof fn found_at_ends(
    children: Seq<TrieNode>,
    full: Seq<u32>,
    node: TrieNode,
    path: Seq<u32>,
    branches: Seq<Seq<u32>>,
    cap: nat,
)
    requires
        distinct(children),
        leads_to(children, full, node),
        path_through(node, path) == traced(full),
        all_end(children, branches),
    ensures
        all_end(children, found_at(node, path, branches, cap)),
    decreases node, node.children@.len() + 1,
{
    if branches.len() < cap {
        let p = path_through(node, path);
        let here = (node.is_terminal || node.children@.len() == 0) && p.len() > 0;
        let b = if here {
            branches.push(p)
        } else {
            branches
        };
        if here {
            if full.len() == 0 {
                traced_push(full, 0);
                assert(full =~= Seq::<u32>::empty());
            }
            assert(ends_at(children, full));
            assert(ends_in_tree(children, p));
            assert forall|k: int| 0 <= k < b.len() implies ends_in_tree(
                children,
                #[trigger] b[k],
            ) by {
                if k < branches.len() {
                    assert(b[k] == branches[k]);
                }
            }
        }
        found_below_ends(children, full, node, node.children@.len(), p, b, cap);
        assert(found_at(node, path, branches, cap) == found_below(
            node,
            node.children@.len(),
            p,
            b,
            cap,
        ));
    }
}

proof fn found_below_ends(
    children: Seq<TrieNode>,
    full: Seq<u32>,
    node: TrieNode,
    n: nat,
    p: Seq<u32>,
    branches: Seq<Seq<u32>>,
    cap: nat,
)
    requires
        distinct(children),
        leads_to(children, full, node),
        n <= node.children@.len(),
        p == traced(full),
        all_end(children, branches),
    ensures
        all_end(children, found_below(node, n, p, branches, cap)),
    decreases node, n,
{
    if n > 0 {
        found_below_ends(children, full, node, (n - 1) as nat, p, branches, cap);
        let before = found_below(node, (n - 1) as nat, p, branches, cap);
        let i = ranking_of(frequency_keys(node.children@))[n - 1] as int;
        if 0 <= i < node.children@.len() {
            let child = node.children@[i];
            child_is_led_to(children, full, node, i);
            traced_push(full, child.token_id);
            found_at_ends(children, full.push(child.token_id), child, p, before, cap);
            assert(found_below(node, n, p, branches, cap) == found_at(child, p, before, cap));
        } else {
            assert(found_below(node, n, p, branches, cap) == before);
        }
    }
}

proof fn passing_one(sequences: Seq<Vec<u32>>, n: int, depth: nat, path: Seq<u32>) -> (i: int)
    requires
        0 <= n <= sequences.len(),
        passes(sequences, n, depth, path) > 0,
    ensures
        0 <= i < n,
        on_path(path, cut(sequences[i]@, depth)),
    decreases n,
{
    if on_path(path, cut(sequences[n - 1]@, depth)) {
        n - 1
    } else {
        passing_one(sequences, n - 1, depth, path)
    }
}

proof fn passing_counts(sequences: Seq<Vec<u32>>, n: int, depth: nat, path: Seq<u32>, i: int)
    requires
        0 <= i < n <= sequences.len(),
        on_path(path, cut(sequences[i]@, depth)),
    ensures
        passes(sequences, n, depth, path) > 0,
    decreases n,
{
    if i < n - 1 {
        passing_counts(sequences, n - 1, depth, path, i);
    }
}

/// Where a path ends in a tree, a sequence ends.
proof fn ends_are_sequences(t: RestTrie, sequences: Seq<Vec<u32>>, n: int, full: Seq<u32>)
    requires
        0 <= n <= sequences.len(),
        is_tree_of(t, sequences, n),
        ends_at(t.root.children@, full),
    ensures
        ends_there(sequences, n, t.max_depth as nat, full),
{
    let depth = t.max_depth as nat;
    let children = t.root.children@;
    assert(info_at(children, full) == summary(sequences, n, depth, full));
    tree_knows_its_sequences(sequences, n, depth, full);
    let node = node_at(children, full)->0;
    if !node.is_terminal {
        let i = passing_one(sequences, n, depth, full);
        let s = cut(sequences[i]@, depth);
        if s.len() == full.len() {
            assert(s =~= full);
        } else {
            let longer = s.take((full.len() + 1) as int);
            assert(longer.take(longer.len() as int) =~= longer);
            passing_counts(sequences, n, depth, longer, i);
            tree_knows_its_sequences(sequences, n, depth, longer);
            assert(info_at(children, longer) == summary(sequences, n, depth, longer));
            assert(longer =~= full.push(s[full.len() as int]));
            node_at_child(children, full, s[full.len() as int]);
            find_is_first(node.children@, s[full.len() as int]);
            assert(false);
        }
    }
}

/// What the branches of a tree are: each is the trace of one of the sequences that were
/// inserted, cut to the depth of the tree, none is longer than the one before it, and
/// none that was found and left out is longer than any of them.
pub proof fn branches_are_sequences(t: RestTrie, sequences: Seq<Vec<u32>>, n: int, max: nat)
    requires
        t.wf(),
        0 <= n <= sequences.len(),
        is_tree_of(t, sequences, n),
        found_at(t.root, Seq::empty(), Seq::empty(), max * 10).len() <= usize::MAX,
    ensures
        best_branches(t.root, max).len() <= max,
        forall|k: int|
            0 <= k < best_branches(t.root, max).len() ==> traces_one(
                sequences,
                n,
                t.max_depth as nat,
                #[trigger] best_branches(t.root, max)[k],
            ),
        forall|j: int, k: int|
            0 <= j < k < best_branches(t.root, max).len() ==> (#[trigger] best_branches(
                t.root,
                max,
            )[j]).len() >= (#[trigger] best_branches(t.root, max)[k]).len(),
        ({
            let all = found_at(t.root, Seq::empty(), Seq::empty(), max * 10);
            forall|i: int, k: int|
                0 <= i < all.len() && 0 <= k < best_branches(t.root, max).len()
                    && !best_branches(t.root, max).contains(#[trigger] all[i]) ==> all[i].len()
                    <= (#[trigger] best_branches(t.root, max)[k]).len()
        }),
{
    let none = Seq::<Seq<u32>>::empty();
    let children = t.root.children@;
    let all = found_at(t.root, Seq::empty(), none, max * 10);
    traced_push(Seq::empty(), 0);
    found_at_ends(children, Seq::empty(), t.root, Seq::empty(), none, max * 10);
    let keys = length_keys(all);
    crate::ranking::ranking_exists(keys);
    let order = ranking_of(keys);
    let best = best_branches(t.root, max);
    assert forall|j: int| 0 <= j < all.len() implies traces_one(
        sequences,
        n,
        t.max_depth as nat,
        #[trigger] all[j],
    ) && all[j].len() <= usize::MAX by {
        assert(ends_in_tree(children, all[j]));
        let full = choose|full: Seq<u32>| #[trigger]
            ends_at(children, full) && all[j] == traced(full);
        ends_are_sequences(t, sequences, n, full);
        let i = choose|i: int|
            0 <= i < n && cut((#[trigger] sequences[i])@, t.max_depth as nat) == full;
        assert(all[j] == traced(cut(sequences[i]@, t.max_depth as nat)));
        full.lemma_filter_len(|t: u32| t != 0);
    }
    assert forall|k: int| 0 <= k < best.len() implies traces_one(
        sequences,
        n,
        t.max_depth as nat,
        #[trigger] best[k],
    ) by {
        assert(0 <= order[k] < all.len());
        assert(best[k] == all[order[k] as int]);
    }
    assert forall|j: int, k: int| 0 <= j < k < best.len() implies (#[trigger] best[j]).len() >= (
    #[trigger] best[k]).len() by {
        crate::ranking::ranking_descends(keys, order, j, k);
        assert(0 <= order[j] < all.len() && 0 <= order[k] < all.len());
        assert(keys[order[j] as int] == all[order[j] as int].len() as i128);
        assert(keys[order[k] as int] == all[order[k] as int].len() as i128);
    }
    crate::ranking::ranking_is_a_permutation(keys, order);
    assert forall|i: int, k: int|
        0 <= i < all.len() && 0 <= k < best.len() && !best.contains(
            #[trigger] all[i],
        ) implies all[i].len() <= (#[trigger] best[k]).len() by {
        assert(order.contains(i as usize));
        let p = choose|p: int| 0 <= p < order.len() && order[p] == i as usize;
        if p < best.len() {
            assert(best[p] == all[i]);
        }
        crate::ranking::ranking_descends(keys, order, k, p);
        assert(0 <= order[k] < all.len());
        assert(keys[order[k] as int] == all[order[k] as int].len() as i128);
        assert(keys[i] == all[i].len() as i128);
    }
}

/// `path` is a beginning of `branch`.
spec fn extends(branch: Seq<u32>, path: Seq<u32>) -> bool {
    path.len() <= branch.len() && branch.take(path.len() as int) == path
}

/// The branches differ, and none of them goes on from `path`.
spec fn apart_from(branches: Seq<Seq<u32>>, path: Seq<u32>) -> bool {
    &&& branches.no_duplicates()
    &&& forall|k: int| 0 <= k < branches.len() ==> !extends(#[trigger] branches[k], path)
}

/// `longer` holds `branches` and after them different ones that go on from `path`.
spec fn grown(branches: Seq<Seq<u32>>, longer: Seq<Seq<u32>>, path: Seq<u32>) -> bool {
    &&& longer.no_duplicates()
    &&& branches.len() <= longer.len()
    &&& forall|k: int| 0 <= k < branches.len() ==> #[trigger] longer[k] == branches[k]
    &&& forall|k: int| branches.len() <= k < longer.len() ==> extends(#[trigger] longer[k], path)
}

/// No token of the first `n` of `sequences` is 0.
pub open spec fn without_zero(sequences: Seq<Vec<u32>>, n: int) -> bool {
    forall|i: int, j: int|
        0 <= i < n && 0 <= j < sequences[i]@.len() ==> #[trigger] sequences[i]@[j] != 0
}

/// A token of the tree is a token of a sequence.
proof fn tokens_are_of_sequences(
    t: RestTrie,
    sequences: Seq<Vec<u32>>,
    n: int,
    full: Seq<u32>,
    token: u32,
)
    requires
        0 <= n <= sequences.len(),
        is_tree_of(t, sequences, n),
        without_zero(sequences, n),
        node_at(t.root.children@, full.push(token)) is Some,
    ensures
        token != 0,
{
    let depth = t.max_depth as nat;
    let longer = full.push(token);
    assert(info_at(t.root.children@, longer) == summary(sequences, n, depth, longer));
    tree_knows_its_sequences(sequences, n, depth, longer);
    let i = passing_one(sequences, n, depth, longer);
    let s = cut(sequences[i]@, depth);
    assert(s.take(longer.len() as int)[full.len() as int] == longer[full.len() as int]);
    assert(s[full.len() as int] == token);
    assert(sequences[i]@[full.len() as int] == token);
}

proof fn found_at_differs(
    t: RestTrie,
    sequences: Seq<Vec<u32>>,
    n: int,
    full: Seq<u32>,
    node: TrieNode,
    path: Seq<u32>,
    branches: Seq<Seq<u32>>,
    cap: nat,
)
    requires
        t.wf(),
        0 <= n <= sequences.len(),
        is_tree_of(t, sequences, n),
        without_zero(sequences, n),
        leads_to(t.root.children@, full, node),
        path_through(node, path) == full,
        apart_from(branches, full),
        node.children@.len() <= usize::MAX,
    ensures
        grown(branches, found_at(node, path, branches, cap), full),
    decreases node, node.children@.len() + 1,
{
    if branches.len() < cap {
        let here = (node.is_terminal || node.children@.len() == 0) && full.len() > 0;
        let b = if here {
            branches.push(full)
        } else {
            branches
        };
        assert(full.take(full.len() as int) =~= full);
        assert(extends(full, full));
        assert(b.no_duplicates());
        found_below_differs(
            t,
            sequences,
            n,
            full,
            node,
            node.children@.len(),
            branches,
            b,
            cap,
        );
        assert(found_at(node, path, branches, cap) == found_below(
            node,
            node.children@.len(),
            full,
            b,
            cap,
        ));
    }
}

proof fn found_below_differs(
    t: RestTrie,
    sequences: Seq<Vec<u32>>,
    n: int,
    full: Seq<u32>,
    node: TrieNode,
    m: nat,
    branches: Seq<Seq<u32>>,
    b: Seq<Seq<u32>>,
    cap: nat,
)
    requires
        t.wf(),
        0 <= n <= sequences.len(),
        is_tree_of(t, sequences, n),
        without_zero(sequences, n),
        leads_to(t.root.children@, full, node),
        apart_from(branches, full),
        b == branches || b == branches.push(full),
        grown(branches, b, full),
        m <= node.children@.len() <= usize::MAX,
    ensures
        ({
            let r = found_below(node, m, full, b, cap);
            let order = ranking_of(frequency_keys(node.children@));
            &&& grown(branches, r, full)
            &&& b.len() <= r.len()
            &&& forall|k: int| 0 <= k < b.len() ==> #[trigger] r[k] == b[k]
            &&& forall|k: int|
                b.len() <= k < r.len() ==> below_one(node, order, m, full, #[trigger] r[k])
        }),
    decreases node, m,
{
    let order = ranking_of(frequency_keys(node.children@));
    let keys = frequency_keys(node.children@);
    if m > 0 {
        let r0 = found_below(node, (m - 1) as nat, full, b, cap);
        found_below_differs(t, sequences, n, full, node, (m - 1) as nat, branches, b, cap);
        crate::ranking::ranking_exists(keys);
        crate::ranking::ranking_is_a_permutation(keys, order);
        let i = order[m - 1] as int;
        assert(0 <= order[m - 1] < keys.len());
        let child = node.children@[i];
        let longer = full.push(child.token_id);
        child_is_led_to(t.root.children@, full, node, i);
        tokens_are_of_sequences(t, sequences, n, full, child.token_id);
        if full.len() > 0 {
            distinct_below(t.root.children@, full);
        }
        assert forall|k: int| 0 <= k < r0.len() implies !extends(#[trigger] r0[k], longer) by {
            if extends(r0[k], longer) {
                assert(r0[k].take(longer.len() as int)[full.len() as int] == child.token_id);
                assert(r0[k].take(full.len() as int) =~= r0[k].take(longer.len() as int).take(
                    full.len() as int,
                ));
                assert(longer.take(full.len() as int) =~= full);
                assert(extends(r0[k], full));
                if k < branches.len() {
                    assert(r0[k] == branches[k]);
                } else if k < b.len() {
                    assert(r0[k] == b[k] && b[k] == full);
                } else {
                    assert(below_one(node, order, (m - 1) as nat, full, r0[k]));
                    let c = choose|c: int|
                        0 <= c < m - 1 && #[trigger] below_child(node, order, c, full, r0[k]);
                    let other = full.push(node.children@[order[c] as int].token_id);
                    assert(below_child(node, order, c, full, r0[k]));
                    assert(r0[k].take(other.len() as int)[full.len() as int] == other[full.len() as int]);
                    assert(order[c] != order[m - 1]);
                    assert(0 <= order[c] < keys.len());
                    if order[c] < order[m - 1] {
                        assert(node.children@[order[c] as int].token_id
                            != node.children@[i].token_id);
                    } else {
                        assert(node.children@[i].token_id
                            != node.children@[order[c] as int].token_id);
                    }
                }
            }
        }
        assert(child.children.len() == child.children@.len());
        found_at_differs(t, sequences, n, longer, child, full, r0, cap);
        let r = found_at(child, full, r0, cap);
        assert(found_below(node, m, full, b, cap) == r);
        assert forall|k: int| branches.len() <= k < r.len() implies extends(
            #[trigger] r[k],
            full,
        ) by {
            if k < r0.len() {
                assert(r[k] == r0[k]);
            } else {
                assert(extends(r[k], longer));
                assert(r[k].take(full.len() as int) =~= r[k].take(longer.len() as int).take(
                    full.len() as int,
                ));
                assert(longer.take(full.len() as int) =~= full);
            }
        }
        assert forall|k: int| b.len() <= k < r.len() implies below_one(
            node,
            order,
            m,
            full,
            #[trigger] r[k],
        ) by {
            if k < r0.len() {
                assert(r[k] == r0[k]);
                assert(below_one(node, order, (m - 1) as nat, full, r0[k]));
                let c = choose|c: int|
                    0 <= c < m - 1 && #[trigger] below_child(node, order, c, full, r0[k]);
                assert(below_child(node, order, c, full, r[k]));
            } else {
                assert(below_child(node, order, m - 1, full, r[k]));
            }
        }
    }
}

/// `branch` goes on from `path` through the child of rank `c`.
spec fn below_child(
    node: TrieNode,
    order: Seq<usize>,
    c: int,
    path: Seq<u32>,
    branch: Seq<u32>,
) -> bool {
    extends(branch, path.push(node.children@[order[c] as int].token_id))
}

/// `branch` goes on from `path` through one of the first `m` children by rank.
spec fn below_one(
    node: TrieNode,
    order: Seq<usize>,
    m: nat,
    path: Seq<u32>,
    branch: Seq<u32>,
) -> bool {
    exists|c: int| 0 <= c < m && #[trigger] below_child(node, order, c, path, branch)
}

/// The branches of a tree of sequences without the token 0 differ from each other.
pub proof fn branches_differ(t: RestTrie, sequences: Seq<Vec<u32>>, n: int, max: nat)
    requires
        t.wf(),
        0 <= n <= sequences.len(),
        is_tree_of(t, sequences, n),
        without_zero(sequences, n),
        found_at(t.root, Seq::empty(), Seq::empty(), max * 10).len() <= usize::MAX,
    ensures
        best_branches(t.root, max).no_duplicates(),
{
    let none = Seq::<Seq<u32>>::empty();
    let all = found_at(t.root, Seq::empty(), none, max * 10);
    assert(t.root.children.len() == t.root.children@.len());
    found_at_differs(t, sequences, n, Seq::empty(), t.root, Seq::empty(), none, max * 10);
    let keys = length_keys(all);
    crate::ranking::ranking_exists(keys);
    let order = ranking_of(keys);
    crate::ranking::ranking_is_a_permutation(keys, order);
    let best = best_branches(t.root, max);
    assert forall|i: int, j: int| 0 <= i < j < best.len() implies best[i] != best[j] by {
        assert(order[i] != order[j]);
        assert(0 <= order[i] < all.len() && 0 <= order[j] < all.len());
    }
}

/// No path of a tree is longer than the tree is deep.
pub proof fn no_path_is_deeper(sequences: Seq<Vec<u32>>, n: int, depth: nat, path: Seq<u32>)
    requires
        0 <= n <= sequences.len(),
    ensures
        summary(sequences, n, depth, path) is Some ==> 0 < path.len() <= depth,
{
    tree_knows_its_sequences(sequences, n, depth, path);
    if summary(sequences, n, depth, path) is Some {
        let i = passing_one(sequences, n, depth, path);
        assert(cut(sequences[i]@, depth).len() <= depth);
    }
}

/// How many of the first `n` of `sequences` meet `f`.
spec fn tally(sequences: Seq<Seq<u32>>, n: int, f: spec_fn(Seq<u32>) -> bool) -> nat
    decreases n,
{
    if n <= 0 {
        0
    } else {
        tally(sequences, n - 1, f) + if f(sequences[n - 1]) {
            1nat
        } else {
            0nat
        }
    }
}

proof fn tally_is_of_the_multiset(sequences: Seq<Seq<u32>>, n: int, f: spec_fn(Seq<u32>) -> bool)
    requires
        0 <= n <= sequences.len(),
    ensures
        tally(sequences, n, f) == sequences.take(n).to_multiset().filter(f).len(),
    decreases n,
{
    broadcast use vstd::multiset::group_multiset_axioms;
    broadcast use vstd::seq_lib::group_to_multiset_ensures;

    if n > 0 {
        tally_is_of_the_multiset(sequences, n - 1, f);
        let before = sequences.take(n - 1);
        let s = sequences[n - 1];
        assert(sequences.take(n) =~= before.push(s));
        let m = before.to_multiset();
        assert(sequences.take(n).to_multiset() =~= m.insert(s));
        if f(s) {
            assert(m.insert(s).filter(f) =~= m.filter(f).insert(s));
        } else {
            assert(m.insert(s).filter(f) =~= m.filter(f));
        }
    } else {
        assert(sequences.take(0) =~= Seq::<Seq<u32>>::empty());
        assert(Seq::<Seq<u32>>::empty().to_multiset().filter(f) =~= Multiset::<Seq<u32>>::empty());
    }
}

proof fn passes_by_tally(sequences: Seq<Vec<u32>>, n: int, depth: nat, path: Seq<u32>)
    requires
        0 <= n <= sequences.len(),
    ensures
        passes(sequences, n, depth, path) == tally(
            branch_views(sequences),
            n,
            |s: Seq<u32>| on_path(path, cut(s, depth)),
        ),
        nonempty(sequences, n) == tally(branch_views(sequences), n, |s: Seq<u32>| s.len() > 0),
    decreases n,
{
    if n > 0 {
        passes_by_tally(sequences, n - 1, depth, path);
    }
}

proof fn end_is_in_the_multiset(a: Seq<Vec<u32>>, b: Seq<Vec<u32>>, depth: nat, path: Seq<u32>)
    requires
        branch_views(a).to_multiset() == branch_views(b).to_multiset(),
        ends_there(a, a.len() as int, depth, path),
    ensures
        ends_there(b, b.len() as int, depth, path),
{
    broadcast use vstd::seq_lib::group_to_multiset_ensures;

    let va = branch_views(a);
    let vb = branch_views(b);
    let i = choose|i: int| 0 <= i < a.len() && cut((#[trigger] a[i])@, depth) == path;
    assert(va[i] == a[i]@);
    assert(va.contains(va[i]));
    assert(vb.to_multiset().count(va[i]) > 0);
    assert(vb.contains(va[i]));
    let j = choose|j: int| 0 <= j < vb.len() && vb[j] == va[i];
    assert(cut(b[j]@, depth) == path);
}

/// The order of the sequences does not matter: the same sequences in another order make
/// a tree that says the same of every path, and whose root says the same.
pub proof fn order_does_not_matter(
    a: Seq<Vec<u32>>,
    b: Seq<Vec<u32>>,
    depth: nat,
    path: Seq<u32>,
)
    requires
        branch_views(a).to_multiset() == branch_views(b).to_multiset(),
    ensures
        summary(a, a.len() as int, depth, path) == summary(b, b.len() as int, depth, path),
        nonempty(a, a.len() as int) == nonempty(b, b.len() as int),
{
    let va = branch_views(a);
    let vb = branch_views(b);
    assert(va.take(a.len() as int) =~= va && vb.take(b.len() as int) =~= vb);
    passes_by_tally(a, a.len() as int, depth, path);
    passes_by_tally(b, b.len() as int, depth, path);
    let on = |s: Seq<u32>| on_path(path, cut(s, depth));
    let full = |s: Seq<u32>| s.len() > 0;
    tally_is_of_the_multiset(va, a.len() as int, on);
    tally_is_of_the_multiset(vb, b.len() as int, on);
    tally_is_of_the_multiset(va, a.len() as int, full);
    tally_is_of_the_multiset(vb, b.len() as int, full);
    tree_knows_its_sequences(a, a.len() as int, depth, path);
    tree_knows_its_sequences(b, b.len() as int, depth, path);
    if ends_there(a, a.len() as int, depth, path) {
        end_is_in_the_multiset(a, b, depth, path);
    }
    if ends_there(b, b.len() as int, depth, path) {
        end_is_in_the_multiset(b, a, depth, path);
    }
}

// ─── The tree as a list ──────────────────────────────────────────────────────

/// The tree as a list: a token per entry, and the index of the entry that it
/// follows.
pub struct TreeAttentionMask {
    pub candidate_tokens: Vec<u32>,
    pub parent_indices: Vec<Option<usize>>,
}

/// The path of tokens that leads to entry `i`.
pub open spec fn entry_path(tokens: Seq<u32>, parents: Seq<Option<usize>>, i: int) -> Seq<u32>
    decreases i,
{
    match parents[i] {
        Some(p) => if p < i {
            entry_path(tokens, parents, p as int).push(tokens[i])
        } else {
            seq![tokens[i]]
        },
        None => seq![tokens[i]],
    }
}

/// The number of nodes from `node` down.
spec fn node_size(node: TrieNode) -> nat
    decreases node, node.children@.len() + 1,
{
    1 + children_size(node, node.children@.len())
}

/// The number of nodes in the first `n` children of `node`.
spec fn children_size(node: TrieNode, n: nat) -> nat
    decreases node, n,
    when n <= node.children@.len()
{
    if n == 0 {
        0
    } else {
        children_size(node, (n - 1) as nat) + node_size(node.children@[n - 1])
    }
}

/// The number of nodes from the entries `from..` of `nodes` down.
spec fn pending_size(nodes: Seq<&TrieNode>, from: int) -> nat
    decreases nodes.len() - from,
{
    if from >= nodes.len() || from < 0 {
        0
    } else {
        node_size(*nodes[from]) + pending_size(nodes, from + 1)
    }
}

proof fn pending_push(nodes: Seq<&TrieNode>, from: int, n: &TrieNode)
    requires
        0 <= from <= nodes.len(),
    ensures
        pending_size(nodes.push(n), from) == pending_size(nodes, from) + node_size(*n),
    decreases nodes.len() - from,
{
    if from < nodes.len() {
        pending_push(nodes, from + 1, n);
        assert(nodes.push(n)[from] == nodes[from]);
    } else {
        assert(pending_size(nodes.push(n), from + 1) == 0);
    }
}

/// Entries do not change when more are added behind them.
proof fn entry_path_stays(
    tokens: Seq<u32>,
    parents: Seq<Option<usize>>,
    more_tokens: Seq<u32>,
    more_parents: Seq<Option<usize>>,
    i: int,
)
    requires
        0 <= i < tokens.len() <= more_tokens.len(),
        tokens.len() == parents.len(),
        more_tokens.len() == more_parents.len(),
        forall|k: int| 0 <= k < tokens.len() ==> more_tokens[k] == #[trigger] tokens[k],
        forall|k: int| 0 <= k < parents.len() ==> more_parents[k] == #[trigger] parents[k],
    ensures
        entry_path(more_tokens, more_parents, i) == entry_path(tokens, parents, i),
    decreases i,
{
    assert(more_tokens[i] == tokens[i] && more_parents[i] == parents[i]);
    if let Some(p) = parents[i] {
        if p < i {
            entry_path_stays(tokens, parents, more_tokens, more_parents, p as int);
        }
    }
}

/// The node at a path, one token longer.
proof fn node_at_child(children: Seq<TrieNode>, path: Seq<u32>, t: u32)
    requires
        path.len() > 0,
    ensures
        node_at(children, path.push(t)) == match node_at(children, path) {
            Some(n) => node_at(n.children@, seq![t]),
            None => None,
        },
    decreases path.len(),
{
    let longer = path.push(t);
    let i = find(children, path[0]);
    assert(longer[0] == path[0]);
    if i < children.len() {
        if path.len() == 1 {
            assert(longer.skip(1) =~= seq![t]);
        } else {
            assert(longer.skip(1) =~= path.skip(1).push(t));
            node_at_child(children[i].children@, path.skip(1), t);
        }
    }
}

/// Below a node of a tree without equal siblings there are no equal siblings.
proof fn distinct_below(children: Seq<TrieNode>, path: Seq<u32>)
    requires
        distinct(children),
        node_at(children, path) is Some,
    ensures
        distinct(node_at(children, path)->0.children@),
    decreases path.len(),
{
    find_is_first(children, path[0]);
    let i = find(children, path[0]);
    assert(distinct(children[i].children@));
    if path.len() > 1 {
        distinct_below(children[i].children@, path.skip(1));
    }
}

/// A child among distinct siblings is found by its token.
proof fn child_is_found(children: Seq<TrieNode>, i: int)
    requires
        distinct(children),
        0 <= i < children.len(),
    ensures
        node_at(children, seq![children[i].token_id]) == Some(children[i]),
{
    find_is(children, children[i].token_id, i);
}

/// The list is the list of the tree below `root` up to entry `head`: every entry
/// stands for its own node, and the children of entries before `head` are listed.
spec fn lists(
    root: Seq<TrieNode>,
    nodes: Seq<&TrieNode>,
    tokens: Seq<u32>,
    parents: Seq<Option<usize>>,
) -> bool {
    &&& nodes.len() == tokens.len() == parents.len()
    &&& forall|i: int| 0 <= i < nodes.len() ==> (#[trigger] nodes[i]).token_id == tokens[i]
    &&& forall|i: int|
        0 <= i < parents.len() ==> match #[trigger] parents[i] {
            Some(p) => p < i,
            None => true,
        }
    &&& forall|i: int|
        0 <= i < nodes.len() ==> node_at(root, #[trigger] entry_path(tokens, parents, i)) == Some(
            *nodes[i],
        )
    &&& forall|i: int, j: int|
        0 <= i < j < nodes.len() ==> #[trigger] entry_path(tokens, parents, i)
            != #[trigger] entry_path(tokens, parents, j)
}

/// Adds `child`, the child `c` of entry `head` (or of the root), to the list.
proof fn lists_push(
    root: Seq<TrieNode>,
    nodes: Seq<&TrieNode>,
    tokens: Seq<u32>,
    parents: Seq<Option<usize>>,
    parent: Option<usize>,
    siblings: Seq<TrieNode>,
    c: int,
    start: int,
    child: &TrieNode,
)
    requires
        distinct(root),
        lists(root, nodes, tokens, parents),
        0 <= c < siblings.len(),
        *child == siblings[c],
        nodes.len() <= usize::MAX,
        0 <= start <= nodes.len(),
        match parent {
            Some(h) => h < start && siblings == nodes[h as int].children@,
            None => siblings == root && start == 0,
        },
        nodes.len() == start + c,
        forall|i: int|
            0 <= i < parents.len() ==> (#[trigger] parents[i] == parent <==> i >= start),
        forall|i: int| start <= i < nodes.len() ==> #[trigger] nodes[i] == siblings[i - start],
    ensures
        lists(root, nodes.push(child), tokens.push(child.token_id), parents.push(parent)),
{
    let n2 = nodes.push(child);
    let t2 = tokens.push(child.token_id);
    let p2 = parents.push(parent);
    let n = nodes.len() as int;
    assert forall|i: int| 0 <= i < n implies entry_path(t2, p2, i) == entry_path(
        tokens,
        parents,
        i,
    ) by {
        entry_path_stays(tokens, parents, t2, p2, i);
    }
    let mine = entry_path(t2, p2, n);
    match parent {
        Some(h) => {
            let above = entry_path(tokens, parents, h as int);
            assert(entry_path(t2, p2, h as int) == above);
            assert(mine == above.push(child.token_id));
            assert(node_at(root, above) == Some(*nodes[h as int]));
            assert(above.len() > 0);
            node_at_child(root, above, child.token_id);
            distinct_below(root, above);
            child_is_found(siblings, c);
        },
        None => {
            assert(mine == seq![child.token_id]);
            child_is_found(root, c);
        },
    }
    assert forall|i: int, j: int| 0 <= i < j < n2.len() implies #[trigger] entry_path(t2, p2, i)
        != #[trigger] entry_path(t2, p2, j) by {
        if j < n {
            assert(entry_path(tokens, parents, i) != entry_path(tokens, parents, j));
        } else {
            let other = entry_path(t2, p2, i);
            assert(other == entry_path(tokens, parents, i));
            if other == mine {
                assert(other.last() == tokens[i]);
                assert(mine.last() == child.token_id);
                assert(nodes[i].token_id == tokens[i]);
                if i >= start {
                    assert(nodes[i] == siblings[i - start]);
                    match parent {
                        Some(h) => {
                            distinct_below(root, entry_path(tokens, parents, h as int));
                        },
                        None => {},
                    }
                    assert(siblings[i - start].token_id != siblings[c].token_id);
                } else {
                    assert(parents[i] != parent);
                    match parents[i] {
                        Some(q) => {
                            let up = entry_path(tokens, parents, q as int);
                            assert(other == up.push(tokens[i]));
                            match parent {
                                Some(h) => {
                                    let above = entry_path(tokens, parents, h as int);
                                    assert(mine.drop_last() =~= above);
                                    assert(other.drop_last() =~= up);
                                    assert(q != h);
                                    if q < h {
                                        assert(up != above);
                                    } else {
                                        assert(above != up);
                                    }
                                },
                                None => {
                                    assert(up.len() > 0) by {
                                        assert(node_at(root, up) is Some);
                                    }
                                    assert(other.len() == up.len() + 1);
                                },
                            }
                        },
                        None => {
                            match parent {
                                Some(h) => {
                                    let above = entry_path(tokens, parents, h as int);
                                    assert(node_at(root, above) is Some);
                                    assert(mine.len() == above.len() + 1);
                                    assert(other.len() == 1);
                                },
                                None => {},
                            }
                        },
                    }
                }
            }
        }
    }
    assert forall|i: int| 0 <= i < n2.len() implies node_at(
        root,
        #[trigger] entry_path(t2, p2, i),
    ) == Some(*n2[i]) by {
        if i < n {
            assert(node_at(root, entry_path(tokens, parents, i)) == Some(*nodes[i]));
        }
    }
}

/// `child` is in the list as a child of `parent`.
spec fn holds(
    nodes: Seq<&TrieNode>,
    parents: Seq<Option<usize>>,
    parent: Option<usize>,
    child: TrieNode,
) -> bool {
    exists|i: int|
        0 <= i < nodes.len() && #[trigger] parents[i] == parent && *nodes[i] == child
}

/// The children `siblings` of `parent` are all in the list.
spec fn listed(
    nodes: Seq<&TrieNode>,
    parents: Seq<Option<usize>>,
    parent: Option<usize>,
    siblings: Seq<TrieNode>,
) -> bool {
    forall|c: int|
        0 <= c < siblings.len() ==> holds(nodes, parents, parent, #[trigger] siblings[c])
}

proof fn listed_stays(
    nodes: Seq<&TrieNode>,
    parents: Seq<Option<usize>>,
    more_nodes: Seq<&TrieNode>,
    more_parents: Seq<Option<usize>>,
    parent: Option<usize>,
    siblings: Seq<TrieNode>,
)
    requires
        listed(nodes, parents, parent, siblings),
        nodes.len() == parents.len(),
        more_nodes.len() == more_parents.len(),
        nodes.len() <= more_nodes.len(),
        forall|i: int| 0 <= i < nodes.len() ==> more_nodes[i] == #[trigger] nodes[i],
        forall|i: int| 0 <= i < nodes.len() ==> more_parents[i] == #[trigger] parents[i],
    ensures
        listed(more_nodes, more_parents, parent, siblings),
{
    assert forall|c: int| 0 <= c < siblings.len() implies holds(
        more_nodes,
        more_parents,
        parent,
        #[trigger] siblings[c],
    ) by {
        assert(holds(nodes, parents, parent, siblings[c]));
        let i = choose|i: int|
            0 <= i < nodes.len() && #[trigger] parents[i] == parent && *nodes[i] == siblings[c];
        assert(more_parents[i] == parents[i] && more_nodes[i] == nodes[i]);
    }
}

/// Where every entry's children are listed, every node of the tree is.
proof fn every_path_is_listed(
    root: Seq<TrieNode>,
    nodes: Seq<&TrieNode>,
    tokens: Seq<u32>,
    parents: Seq<Option<usize>>,
    path: Seq<u32>,
) -> (i: int)
    requires
        lists(root, nodes, tokens, parents),
        listed(nodes, parents, None, root),
        nodes.len() <= usize::MAX,
        forall|e: int|
            0 <= e < nodes.len() ==> listed(
                nodes,
                parents,
                Some(e as usize),
                (#[trigger] nodes[e]).children@,
            ),
        node_at(root, path) is Some,
    ensures
        0 <= i < nodes.len(),
        entry_path(tokens, parents, i) == path,
    decreases path.len(),
{
    let t = path.last();
    if path.len() == 1 {
        find_is_first(root, path[0]);
        let c = find(root, path[0]);
        assert(holds(nodes, parents, None, root[c]));
        let i = choose|i: int|
            0 <= i < nodes.len() && #[trigger] parents[i] == None::<usize> && *nodes[i] == root[c];
        assert(nodes[i].token_id == tokens[i]);
        assert(entry_path(tokens, parents, i) =~= path);
        i
    } else {
        let up = path.drop_last();
        assert(up.push(t) =~= path);
        node_at_child(root, up, t);
        let e = every_path_is_listed(root, nodes, tokens, parents, up);
        let siblings = nodes[e].children@;
        assert(node_at(root, entry_path(tokens, parents, e)) == Some(*nodes[e]));
        assert(node_at(siblings, seq![t]) is Some);
        find_is_first(siblings, t);
        let c = find(siblings, t);
        assert(siblings[c].token_id == t);
        assert(listed(nodes, parents, Some(e as usize), nodes[e].children@));
        assert(holds(nodes, parents, Some(e as usize), siblings[c]));
        let i = choose|i: int|
            0 <= i < nodes.len() && #[trigger] parents[i] == Some(e as usize) && *nodes[i]
                == siblings[c];
        assert(nodes[i].token_id == tokens[i]);
        i
    }
}

/// The place of a parent in the list; before all others for an entry without one.
pub open spec fn parent_place(p: Option<usize>) -> int {
    match p {
        Some(i) => i as int,
        None => -1,
    }
}

/// The entries come in the order of their parents.
pub open spec fn in_level_order(parents: Seq<Option<usize>>) -> bool {
    forall|i: int, j: int|
        0 <= i <= j < parents.len() ==> parent_place(#[trigger] parents[i]) <= parent_place(
            #[trigger] parents[j],
        )
}

impl TreeAttentionMask {
    /// The tree as a list, level by level. Every entry comes behind the one that
    /// it follows; the entries stand for the paths of the tree, one for each.
    pub fn from_trie(trie: &RestTrie) -> (m: TreeAttentionMask)
        requires
            trie.wf(),
        ensures
            m.candidate_tokens@.len() == m.parent_indices@.len(),
            forall|i: int|
                0 <= i < m.parent_indices@.len() ==> match #[trigger] m.parent_indices@[i] {
                    Some(p) => p < i,
                    None => true,
                },
            in_level_order(m.parent_indices@),
            forall|i: int|
                0 <= i < m.candidate_tokens@.len() ==> node_at(
                    trie.root.children@,
                    #[trigger] entry_path(m.candidate_tokens@, m.parent_indices@, i),
                ) is Some,
            forall|i: int, j: int|
                0 <= i < j < m.candidate_tokens@.len() ==> #[trigger] entry_path(
                    m.candidate_tokens@,
                    m.parent_indices@,
                    i,
                ) != #[trigger] entry_path(m.candidate_tokens@, m.parent_indices@, j),
            forall|path: Seq<u32>| #[trigger]
                node_at(trie.root.children@, path) is Some ==> exists|i: int|
                    0 <= i < m.candidate_tokens@.len() && entry_path(
                        m.candidate_tokens@,
                        m.parent_indices@,
                        i,
                    ) == path,
    {
        let ghost root = trie.root.children@;
        let mut nodes: Vec<&TrieNode> = Vec::new();
        let mut tokens: Vec<u32> = Vec::new();
        let mut parents: Vec<Option<usize>> = Vec::new();
        let mut c: usize = 0;
        while c < trie.root.children.len()
            invariant
                c <= root.len(),
                root == trie.root.children@,
                distinct(root),
                lists(root, nodes@, tokens@, parents@),
                nodes@.len() == c,
                forall|i: int| 0 <= i < parents@.len() ==> #[trigger] parents@[i] is None,
                forall|i: int| 0 <= i < nodes@.len() ==> #[trigger] nodes@[i] == root[i],
            decreases root.len() - c,
        {
            let child = &trie.root.children[c];
            proof {
                lists_push(
                    root,
                    nodes@,
                    tokens@,
                    parents@,
                    None,
                    root,
                    c as int,
                    0,
                    child,
                );
            }
            nodes.push(child);
            tokens.push(child.token_id);
            parents.push(None);
            c = c + 1;
        }
        proof {
            assert forall|k: int| 0 <= k < root.len() implies holds(
                nodes@,
                parents@,
                None,
                #[trigger] root[k],
            ) by {
                assert(parents@[k] is None && nodes@[k] == root[k]);
            }
        }
        let mut head: usize = 0;
        while head < nodes.len()
            invariant
                head <= nodes@.len(),
                root == trie.root.children@,
                distinct(root),
                lists(root, nodes@, tokens@, parents@),
                listed(nodes@, parents@, None, root),
                forall|e: int|
                    0 <= e < head ==> listed(
                        nodes@,
                        parents@,
                        Some(e as usize),
                        (#[trigger] nodes@[e]).children@,
                    ),
                forall|i: int|
                    0 <= i < parents@.len() ==> match #[trigger] parents@[i] {
                        Some(p) => p < head,
                        None => true,
                    },
                in_level_order(parents@),
            decreases pending_size(nodes@, head as int),
        {
            let node = nodes[head];
            let ghost start = nodes@.len() as int;
            let ghost nodes0 = nodes@;
            let ghost parents0 = parents@;
            let ghost pending0 = pending_size(nodes@, head + 1);
            let mut c: usize = 0;
            while c < node.children.len()
                invariant
                    c <= node.children@.len(),
                    head < start == nodes0.len() == parents0.len(),
                    nodes@.len() == start + c,
                    node == nodes0[head as int],
                    distinct(root),
                    in_level_order(parents0),
                    lists(root, nodes@, tokens@, parents@),
                    forall|i: int| 0 <= i < start ==> nodes@[i] == #[trigger] nodes0[i],
                    forall|i: int| 0 <= i < start ==> parents@[i] == #[trigger] parents0[i],
                    forall|i: int|
                        0 <= i < start ==> match #[trigger] parents0[i] {
                            Some(p) => p < head,
                            None => true,
                        },
                    forall|i: int|
                        start <= i < nodes@.len() ==> #[trigger] nodes@[i] == node.children@[i
                            - start],
                    forall|i: int|
                        start <= i < parents@.len() ==> #[trigger] parents@[i] == Some(head),
                    pending_size(nodes@, head + 1) == pending0 + children_size(*node, c as nat),
                decreases node.children@.len() - c,
            {
                let child = &node.children[c];
                proof {
                    assert(nodes.len() == nodes@.len());
                    assert(nodes@[head as int] == nodes0[head as int]);
                    assert forall|i: int| 0 <= i < parents@.len() implies (
                    #[trigger] parents@[i] == Some(head) <==> i >= start) by {
                        if i < start {
                            assert(parents@[i] == parents0[i]);
                        }
                    }
                    lists_push(
                        root,
                        nodes@,
                        tokens@,
                        parents@,
                        Some(head),
                        node.children@,
                        c as int,
                        start,
                        child,
                    );
                    pending_push(nodes@, head + 1, child);
                }
                nodes.push(child);
                tokens.push(child.token_id);
                parents.push(Some(head));
                c = c + 1;
            }
            proof {
                assert forall|i: int, j: int| 0 <= i <= j < parents@.len() implies parent_place(
                    #[trigger] parents@[i],
                ) <= parent_place(#[trigger] parents@[j]) by {
                    if i < start {
                        assert(parents@[i] == parents0[i]);
                    }
                    if j < start {
                        assert(parents@[j] == parents0[j]);
                    }
                }
                listed_stays(nodes0, parents0, nodes@, parents@, None, root);
                assert forall|e: int| 0 <= e < head + 1 implies listed(
                    nodes@,
                    parents@,
                    Some(e as usize),
                    (#[trigger] nodes@[e]).children@,
                ) by {
                    assert(nodes@[e] == nodes0[e]);
                    if e < head {
                        listed_stays(
                            nodes0,
                            parents0,
                            nodes@,
                            parents@,
                            Some(e as usize),
                            nodes0[e].children@,
                        );
                    } else {
                        assert forall|k: int| 0 <= k < node.children@.len() implies holds(
                            nodes@,
                            parents@,
                            Some(e as usize),
                            #[trigger] node.children@[k],
                        ) by {
                            assert(parents@[start + k] == Some(head));
                            assert(nodes@[start + k] == node.children@[start + k - start]);
                        }
                    }
                }
                assert forall|i: int| 0 <= i < parents@.len() implies match #[trigger] parents@[i] {
                    Some(p) => p < head + 1,
                    None => true,
                } by {
                    if i < start {
                        assert(parents@[i] == parents0[i]);
                    }
                }
            }
            head = head + 1;
        }
        proof {
            assert forall|path: Seq<u32>| #[trigger] node_at(root, path) is Some implies exists|i: int|
                0 <= i < tokens@.len() && entry_path(tokens@, parents@, i) == path by {
                let i = every_path_is_listed(root, nodes@, tokens@, parents@, path);
            }
        }
        TreeAttentionMask { candidate_tokens: tokens, parent_indices: parents }
    }
}

// ─── No sequence is lost ─────────────────────────────────────────────────────

proof fn found_at_keeps(
    node: TrieNode,
    path: Seq<u32>,
    branches: Seq<Seq<u32>>,
    cap: nat,
    b: Seq<u32>,
)
    ensures
        branches.len() <= found_at(node, path, branches, cap).len(),
        branches.contains(b) ==> found_at(node, path, branches, cap).contains(b),
    decreases node, node.children@.len() + 1,
{
    if branches.len() < cap {
        let p = path_through(node, path);
        let more = if (node.is_terminal || node.children@.len() == 0) && p.len() > 0 {
            branches.push(p)
        } else {
            branches
        };
        if branches.contains(b) {
            let k = choose|k: int| 0 <= k < branches.len() && branches[k] == b;
            assert(more[k] == b);
        }
        found_below_keeps(node, 0, node.children@.len(), p, more, cap, b);
        assert(found_below(node, 0, p, more, cap) == more);
    }
}

proof fn found_below_keeps(
    node: TrieNode,
    m: nat,
    n: nat,
    path: Seq<u32>,
    branches: Seq<Seq<u32>>,
    cap: nat,
    b: Seq<u32>,
)
    requires
        m <= n <= node.children@.len(),
    ensures
        found_below(node, m, path, branches, cap).len() <= found_below(
            node,
            n,
            path,
            branches,
            cap,
        ).len(),
        found_below(node, m, path, branches, cap).contains(b) ==> found_below(
            node,
            n,
            path,
            branches,
            cap,
        ).contains(b),
    decreases node, n,
{
    if m < n {
        found_below_keeps(node, m, (n - 1) as nat, path, branches, cap, b);
        let before = found_below(node, (n - 1) as nat, path, branches, cap);
        let i = ranking_of(frequency_keys(node.children@))[n - 1] as int;
        if 0 <= i < node.children@.len() {
            found_at_keeps(node.children@[i], path, before, cap, b);
        }
    }
}

proof fn traced_from_the_first(path: Seq<u32>)
    requires
        path.len() > 0,
    ensures
        traced(path) == (if path[0] != 0 {
            seq![path[0]]
        } else {
            Seq::empty()
        }) + traced(path.skip(1)),
    decreases path.len(),
{
    let head = if path[0] != 0 {
        seq![path[0]]
    } else {
        Seq::<u32>::empty()
    };
    if path.len() == 1 {
        traced_push(Seq::empty(), path[0]);
        assert(path =~= Seq::<u32>::empty().push(path[0]));
        assert(path.skip(1) =~= Seq::<u32>::empty());
        assert(traced(path) =~= head + traced(path.skip(1)));
    } else {
        let less = path.drop_last();
        traced_from_the_first(less);
        traced_push(less, path.last());
        traced_push(less.skip(1), path.last());
        assert(path =~= less.push(path.last()));
        assert(path.skip(1) =~= less.skip(1).push(path.last()));
        assert(traced(path) =~= head + traced(path.skip(1)));
    }
}

/// The search gets to whatever ends below a node.
proof fn search_gets_there(
    node: TrieNode,
    path: Seq<u32>,
    branches: Seq<Seq<u32>>,
    cap: nat,
    rest: Seq<u32>,
)
    requires
        distinct(node.children@),
        found_at(node, path, branches, cap).len() < cap,
        rest.len() == 0 ==> node.is_terminal,
        rest.len() > 0 ==> node_at(node.children@, rest) is Some && node_at(
            node.children@,
            rest,
        )->0.is_terminal,
        (path_through(node, path) + traced(rest)).len() > 0,
    ensures
        found_at(node, path, branches, cap).contains(path_through(node, path) + traced(rest)),
    decreases rest.len(),
{
    let p = path_through(node, path);
    let goal = p + traced(rest);
    found_at_keeps(node, path, branches, cap, goal);
    let more = if (node.is_terminal || node.children@.len() == 0) && p.len() > 0 {
        branches.push(p)
    } else {
        branches
    };
    let n = node.children@.len();
    if rest.len() == 0 {
        traced_push(rest, 0);
        assert(rest =~= Seq::<u32>::empty());
        assert(goal =~= p);
        assert(more[branches.len() as int] == p);
        assert(more.contains(goal));
        assert(found_below(node, 0, p, more, cap) == more);
        found_below_keeps(node, 0, n, p, more, cap, goal);
    } else {
        let keys = frequency_keys(node.children@);
        let order = ranking_of(keys);
        assert(node.children.len() == node.children@.len());
        crate::ranking::ranking_exists(keys);
        crate::ranking::ranking_is_a_permutation(keys, order);
        find_is_first(node.children@, rest[0]);
        let i = find(node.children@, rest[0]);
        assert(order.contains(i as usize));
        let k = choose|k: int| 0 <= k < order.len() && order[k] == i as usize;
        let child = node.children@[i];
        let before = found_below(node, k as nat, p, more, cap);
        let after = found_below(node, (k + 1) as nat, p, more, cap);
        assert(after == found_at(child, p, before, cap));
        found_below_keeps(node, (k + 1) as nat, n, p, more, cap, goal);
        let tail = rest.skip(1);
        traced_from_the_first(rest);
        assert(path_through(child, p) + traced(tail) =~= goal);
        search_gets_there(child, p, before, cap, tail);
    }
}

/// No sequence is lost: where the search is not cut short, the trace of every sequence that
/// went in is found, and where no more is found than asked for, it is among the branches.
pub proof fn every_sequence_is_traced(
    t: RestTrie,
    sequences: Seq<Vec<u32>>,
    n: int,
    max: nat,
    i: int,
)
    requires
        t.wf(),
        0 <= i < n <= sequences.len(),
        is_tree_of(t, sequences, n),
        found_at(t.root, Seq::empty(), Seq::empty(), max * 10).len() < max * 10,
        traced(cut(sequences[i]@, t.max_depth as nat)).len() > 0,
        found_at(t.root, Seq::empty(), Seq::empty(), max * 10).len() <= usize::MAX,
    ensures
        ({
            let branch = traced(cut(sequences[i]@, t.max_depth as nat));
            let all = found_at(t.root, Seq::empty(), Seq::empty(), max * 10);
            &&& all.contains(branch)
            &&& all.len() <= max ==> best_branches(t.root, max).contains(branch)
        }),
{
    let depth = t.max_depth as nat;
    let full = cut(sequences[i]@, depth);
    let branch = traced(full);
    traced_push(full, 0);
    if full.len() == 0 {
        assert(full =~= Seq::<u32>::empty());
    }
    tree_knows_its_sequences(sequences, n, depth, full);
    assert(ends_there(sequences, n, depth, full));
    assert(on_path(full, full)) by {
        assert(full.take(full.len() as int) =~= full);
    }
    passing_counts(sequences, n, depth, full, i);
    assert(info_at(t.root.children@, full) == summary(sequences, n, depth, full));
    assert(Seq::<u32>::empty() + branch =~= branch);
    search_gets_there(t.root, Seq::empty(), Seq::empty(), max * 10, full);
    let all = found_at(t.root, Seq::empty(), Seq::empty(), max * 10);
    if all.len() <= max {
        let keys = length_keys(all);
        let order = ranking_of(keys);
        crate::ranking::ranking_exists(keys);
        crate::ranking::ranking_is_a_permutation(keys, order);
        let at = choose|k: int| 0 <= k < all.len() && all[k] == branch;
        assert(order.contains(at as usize));
        let k = choose|k: int| 0 <= k < order.len() && order[k] == at as usize;
        assert(best_branches(t.root, max)[k] == branch);
    }
}

} // verus!
