//! A search tree over tokens: its shape, its visits, and the choices made in it.
//!
//! Values and scores are the bits of single-precision numbers, computed
//! elsewhere and compared here.

use vstd::prelude::*;

use crate::float_bits::{check_lt, float_lt, is_nan, NEG_INFINITY_BITS};

verus! {

/// 1.0 in single precision.
pub const ONE_BITS: u32 = 0x3F80_0000;

/// A node of the tree.
#[derive(Debug)]
pub struct MctsNode {
    pub parent: Option<usize>,
    pub children: Vec<usize>,
    pub token_id: u32,
    pub visits: u32,
    pub value: u32,
    pub prior_prob: u32,
}

/// A node that was never visited.
pub open spec fn is_fresh(n: MctsNode, parent: Option<usize>, token_id: u32, prior: u32) -> bool {
    &&& n.parent == parent
    &&& n.children@.len() == 0
    &&& n.token_id == token_id
    &&& n.visits == 0
    &&& n.value == 0
    &&& n.prior_prob == prior
}

/// A search tree. Node 0 is the root.
pub struct MctsEngine {
    pub nodes: Vec<MctsNode>,
    pub exploration_weight: u32,
}

/// The link between node `i` and its parent is right.
pub open spec fn linked(nodes: Seq<MctsNode>, i: int) -> bool {
    if i == 0 {
        nodes[0].parent is None
    } else {
        &&& nodes[i].parent is Some
        &&& nodes[i].parent->0 < i
        &&& nodes[nodes[i].parent->0 as int].children@.contains(i as usize)
    }
}

/// Child `k` of node `i` knows its parent.
pub open spec fn child_linked(nodes: Seq<MctsNode>, i: int, k: int) -> bool {
    let c = nodes[i].children@[k];
    i < c && c < nodes.len() && nodes[c as int].parent == Some(i as usize)
}

/// The nodes form a tree in which parents come before their children.
pub open spec fn is_tree(nodes: Seq<MctsNode>) -> bool {
    &&& nodes.len() > 0
    &&& forall|i: int| 0 <= i < nodes.len() ==> #[trigger] linked(nodes, i)
    &&& forall|i: int, k: int|
        0 <= i < nodes.len() && 0 <= k < nodes[i].children@.len() ==> #[trigger] child_linked(
            nodes,
            i,
            k,
        )
}

/// The nodes from `id` up to the root.
pub open spec fn path(nodes: Seq<MctsNode>, id: int) -> Seq<usize>
    decreases id,
{
    if id < 0 || id >= nodes.len() {
        Seq::empty()
    } else {
        match nodes[id].parent {
            Some(p) => if p < id {
                seq![id as usize] + path(nodes, p as int)
            } else {
                seq![id as usize]
            },
            None => seq![id as usize],
        }
    }
}

/// No child was visited more often than its parent.
pub open spec fn visits_flow_up(nodes: Seq<MctsNode>) -> bool {
    forall|i: int|
        0 < i < nodes.len() ==> (#[trigger] nodes[i]).visits
            <= nodes[nodes[i].parent->0 as int].visits
}

/// The child with the best score among the first `n`: the first of those whose
/// score is the largest and above minus infinity.
pub open spec fn best_scored(scores: Seq<u32>, children: Seq<usize>, n: int) -> Option<usize>
    decreases n,
{
    if n <= 0 {
        None
    } else {
        let before = best_scored(scores, children, n - 1);
        let best = match before {
            Some(b) => scores[b as int],
            None => NEG_INFINITY_BITS,
        };
        if float_lt(best, scores[children[n - 1] as int]) {
            Some(children[n - 1])
        } else {
            before
        }
    }
}

/// The child with the most visits among the first `n`, the last of equal ones.
pub open spec fn most_visited(nodes: Seq<MctsNode>, children: Seq<usize>, n: int) -> Option<usize>
    decreases n,
{
    if n <= 0 {
        None
    } else {
        match most_visited(nodes, children, n - 1) {
            Some(b) => if nodes[children[n - 1] as int].visits >= nodes[b as int].visits {
                Some(children[n - 1])
            } else {
                Some(b)
            },
            None => Some(children[n - 1]),
        }
    }
}

/// Where the best scores lead from a node.
pub open spec fn leaf_below(nodes: Seq<MctsNode>, scores: Seq<u32>, id: int) -> int
    decreases nodes.len() - id,
{
    if id < 0 || id >= nodes.len() {
        id
    } else {
        match best_scored(scores, nodes[id].children@, nodes[id].children@.len() as int) {
            Some(c) => if id < c && c < nodes.len() {
                leaf_below(nodes, scores, c as int)
            } else {
                id
            },
            None => id,
        }
    }
}

/// The nodes are the same but for visits and values.
pub open spec fn same_shape(a: Seq<MctsNode>, b: Seq<MctsNode>) -> bool {
    &&& a.len() == b.len()
    &&& forall|i: int|
        0 <= i < a.len() ==> (#[trigger] a[i]).parent == b[i].parent && a[i].children
            == b[i].children && a[i].token_id == b[i].token_id && a[i].prior_prob == b[i].prior_prob
}

impl MctsEngine {
    pub open spec fn wf(&self) -> bool {
        is_tree(self.nodes@) && visits_flow_up(self.nodes@)
    }

    fn root() -> (n: MctsNode)
        ensures
            is_fresh(n, None, 0, ONE_BITS),
    {
        MctsNode {
            parent: None,
            children: Vec::new(),
            token_id: 0,
            visits: 0,
            value: 0,
            prior_prob: ONE_BITS,
        }
    }

    /// A tree that is only a root.
    pub fn new(exploration_weight: u32) -> (e: MctsEngine)
        ensures
            e.wf(),
            e.exploration_weight == exploration_weight,
            e.nodes@.len() == 1,
            is_fresh(e.nodes@[0], None, 0, ONE_BITS),
    {
        let mut nodes: Vec<MctsNode> = Vec::new();
        nodes.push(Self::root());
        MctsEngine { nodes, exploration_weight }
    }

    /// Back to a tree that is only a root.
    pub fn reset(&mut self)
        ensures
            final(self).wf(),
            final(self).exploration_weight == old(self).exploration_weight,
            final(self).nodes@.len() == 1,
            is_fresh(final(self).nodes@[0], None, 0, ONE_BITS),
    {
        let mut nodes: Vec<MctsNode> = Vec::new();
        nodes.push(Self::root());
        self.nodes = nodes;
    }

    /// The child with the best score, given the score of each node.
    pub fn select_best_child(&self, node_id: usize, scores: &Vec<u32>) -> (r: Option<usize>)
        requires
            self.wf(),
            node_id < self.nodes@.len(),
            scores@.len() == self.nodes@.len(),
        ensures
            r == best_scored(
                scores@,
                self.nodes@[node_id as int].children@,
                self.nodes@[node_id as int].children@.len() as int,
            ),
            r is Some ==> node_id < r->0 && r->0 < self.nodes@.len(),
    {
        let children = &self.nodes[node_id].children;
        let mut best: Option<usize> = None;
        let mut best_score: u32 = NEG_INFINITY_BITS;
        let mut k: usize = 0;
        while k < children.len()
            invariant
                self.wf(),
                node_id < self.nodes@.len(),
                scores@.len() == self.nodes@.len(),
                children@ == self.nodes@[node_id as int].children@,
                k <= children@.len(),
                best == best_scored(scores@, children@, k as int),
                best is Some ==> node_id < best->0 && best->0 < self.nodes@.len(),
                best_score == match best {
                    Some(b) => scores@[b as int],
                    None => NEG_INFINITY_BITS,
                },
            decreases children@.len() - k,
        {
            let c: usize = children[k];
            assert(child_linked(self.nodes@, node_id as int, k as int));
            if check_lt(best_score, scores[c]) {
                best_score = scores[c];
                best = Some(c);
            }
            k = k + 1;
        }
        best
    }

    /// Where the best scores lead from a node, given the score of each node.
    pub fn select_leaf(&self, node_id: usize, scores: &Vec<u32>) -> (r: usize)
        requires
            self.wf(),
            node_id < self.nodes@.len(),
            scores@.len() == self.nodes@.len(),
        ensures
            r == leaf_below(self.nodes@, scores@, node_id as int),
            r < self.nodes@.len(),
    {
        let mut at: usize = node_id;
        loop
            invariant
                self.wf(),
                at < self.nodes@.len(),
                scores@.len() == self.nodes@.len(),
                leaf_below(self.nodes@, scores@, node_id as int) == leaf_below(
                    self.nodes@,
                    scores@,
                    at as int,
                ),
            decreases self.nodes@.len() - at,
        {
            match self.select_best_child(at, scores) {
                Some(c) => {
                    at = c;
                },
                None => {
                    return at;
                },
            }
        }
    }

    /// Adds a child for each candidate: a token and its prior probability.
    pub fn expand(&mut self, parent_id: usize, candidates: &Vec<(u32, u32)>)
        requires
            old(self).wf(),
            parent_id < old(self).nodes@.len(),
            old(self).nodes@.len() + candidates@.len() <= usize::MAX,
        ensures
            final(self).wf(),
            final(self).exploration_weight == old(self).exploration_weight,
            expanded(
                old(self).nodes@,
                final(self).nodes@,
                parent_id as int,
                candidates@,
                candidates@.len() as int,
            ),
    {
        let ghost start = self.nodes@;
        let mut i: usize = 0;
        assert(self.nodes@[parent_id as int].children@ =~= start[parent_id as int].children@
            + Seq::new(0, |k: int| (start.len() + k) as usize));
        while i < candidates.len()
            invariant
                start == old(self).nodes@,
                self.wf(),
                self.exploration_weight == old(self).exploration_weight,
                parent_id < start.len(),
                start.len() + candidates@.len() <= usize::MAX,
                i <= candidates@.len(),
                expanded(start, self.nodes@, parent_id as int, candidates@, i as int),
            decreases candidates@.len() - i,
        {
            self.add_child(parent_id, candidates[i].0, candidates[i].1);
            i = i + 1;
            assert(self.nodes@[parent_id as int].children@ =~= start[parent_id as int].children@
                + Seq::new(i as nat, |k: int| (start.len() + k) as usize));
        }
    }

    fn add_child(&mut self, parent_id: usize, token_id: u32, prior: u32)
        requires
            old(self).wf(),
            parent_id < old(self).nodes@.len(),
            old(self).nodes@.len() < usize::MAX,
        ensures
            final(self).wf(),
            final(self).exploration_weight == old(self).exploration_weight,
            final(self).nodes@.len() == old(self).nodes@.len() + 1,
            is_fresh(final(self).nodes@.last(), Some(parent_id), token_id, prior),
            forall|i: int|
                0 <= i < old(self).nodes@.len() && i != parent_id ==> (#[trigger] final(
                    self).nodes@[i]) == old(self).nodes@[i],
            ({
                let a = old(self).nodes@[parent_id as int];
                let b = final(self).nodes@[parent_id as int];
                &&& b.parent == a.parent
                &&& b.token_id == a.token_id
                &&& b.visits == a.visits
                &&& b.value == a.value
                &&& b.prior_prob == a.prior_prob
                &&& b.children@ == a.children@.push(old(self).nodes@.len() as usize)
            }),
    {
        let ghost before = self.nodes@;
        let new_id: usize = self.nodes.len();
        self.nodes.push(
            MctsNode {
                parent: Some(parent_id),
                children: Vec::new(),
                token_id,
                visits: 0,
                value: 0,
                prior_prob: prior,
            },
        );
        self.nodes[parent_id].children.push(new_id);
        proof {
            let after = self.nodes@;
            let p = parent_id as int;
            assert forall|i: int| 0 <= i < after.len() implies #[trigger] linked(after, i) by {
                if i < before.len() {
                    assert(linked(before, i));
                    if i > 0 {
                        let q = before[i].parent->0 as int;
                        let k = choose|k: int|
                            0 <= k < before[q].children@.len() && before[q].children@[k] == i;
                        assert(after[q].children@[k] == i as usize);
                    }
                } else {
                    assert(after[p].children@.last() == new_id);
                    assert(after[p].children@.contains(new_id));
                }
            }
            assert forall|i: int, k: int|
                0 <= i < after.len() && 0 <= k < after[i].children@.len() implies #[trigger] child_linked(
                after,
                i,
                k,
            ) by {
                if i < before.len() && k < before[i].children@.len() {
                    assert(child_linked(before, i, k));
                }
            }
            assert forall|i: int| 0 < i < after.len() implies (#[trigger] after[i]).visits
                <= after[after[i].parent->0 as int].visits by {
                assert(linked(after, i));
                if i < before.len() {
                    assert(linked(before, i));
                    assert(before[i].visits <= before[before[i].parent->0 as int].visits);
                }
            }
        }
    }

    /// The nodes from one up to the root.
    pub fn path_to_root(&self, node_id: usize) -> (r: Vec<usize>)
        requires
            self.wf(),
            node_id < self.nodes@.len(),
        ensures
            r@ == path(self.nodes@, node_id as int),
    {
        let mut r: Vec<usize> = Vec::new();
        let mut at: usize = node_id;
        assert(r@ + path(self.nodes@, at as int) =~= path(self.nodes@, at as int));
        loop
            invariant
                self.wf(),
                at < self.nodes@.len(),
                path(self.nodes@, node_id as int) == r@ + path(self.nodes@, at as int),
            decreases at,
        {
            let ghost before = r@;
            assert(linked(self.nodes@, at as int));
            r.push(at);
            match self.nodes[at].parent {
                Some(p) => {
                    assert(before + (seq![at] + path(self.nodes@, p as int)) =~= r@ + path(
                        self.nodes@,
                        p as int,
                    ));
                    at = p;
                },
                None => {
                    assert(before + seq![at] =~= r@);
                    return r;
                },
            }
        }
    }

    /// Counts a visit of every node from one up to the root, and gives each its
    /// new value, in that order.
    pub fn backpropagate(&mut self, node_id: usize, values: &Vec<u32>)
        requires
            old(self).wf(),
            node_id < old(self).nodes@.len(),
            values@.len() == path(old(self).nodes@, node_id as int).len(),
            forall|i: int|
                0 <= i < old(self).nodes@.len() ==> (#[trigger] old(self).nodes@[i]).visits
                    < u32::MAX,
        ensures
            final(self).wf(),
            final(self).exploration_weight == old(self).exploration_weight,
            same_shape(final(self).nodes@, old(self).nodes@),
            forall|i: int|
                0 <= i < final(self).nodes@.len() ==> (#[trigger] final(self).nodes@[i]).visits
                    == old(self).nodes@[i].visits + if on_path(
                    old(self).nodes@,
                    node_id as int,
                    i,
                ) {
                    1int
                } else {
                    0int
                },
            forall|k: int|
                0 <= k < values@.len() ==> final(self).nodes@[(#[trigger] path(
                    old(self).nodes@,
                    node_id as int,
                )[k]) as int].value == values@[k],
            forall|i: int|
                0 <= i < final(self).nodes@.len() && !on_path(
                    old(self).nodes@,
                    node_id as int,
                    i,
                ) ==> (#[trigger] final(self).nodes@[i]).value == old(self).nodes@[i].value,
    {
        let ghost start = self.nodes@;
        let count: usize = self.nodes.len();
        let way = self.path_to_root(node_id);
        proof {
            assert(start.len() == count);
            path_descends(start, node_id as int);
        }
        let mut k: usize = 0;
        while k < way.len()
            invariant
                start == old(self).nodes@,
                start.len() == count,
                is_tree(start),
                node_id < start.len(),
                way@ == path(start, node_id as int),
                values@.len() == way@.len(),
                k <= way@.len(),
                self.exploration_weight == old(self).exploration_weight,
                same_shape(self.nodes@, start),
                descends(way@, node_id as int),
                forall|i: int| 0 <= i < start.len() ==> (#[trigger] start[i]).visits < u32::MAX,
                forall|i: int|
                    0 <= i < start.len() ==> (#[trigger] self.nodes@[i]).visits == start[i].visits
                        + if way@.take(k as int).contains(i as usize) {
                        1int
                    } else {
                        0int
                    },
                forall|j: int|
                    0 <= j < k ==> self.nodes@[(#[trigger] way@[j]) as int].value == values@[j],
                forall|i: int|
                    0 <= i < start.len() && !way@.take(k as int).contains(i as usize) ==> (
                    #[trigger] self.nodes@[i]).value == start[i].value,
            decreases way@.len() - k,
        {
            let id: usize = way[k];
            proof {
                let taken = way@.take(k as int);
                assert(way@[k as int] <= node_id);
                assert(!taken.contains(id)) by {
                    if taken.contains(id) {
                        let j = choose|j: int| 0 <= j < taken.len() && taken[j] == id;
                        assert(way@[j] > way@[k as int]);
                    }
                }
                assert(start[id as int].visits < u32::MAX);
                assert(self.nodes@[id as int].visits == start[id as int].visits);
            }
            self.nodes[id].visits = self.nodes[id].visits + 1;
            self.nodes[id].value = values[k];
            proof {
                let taken = way@.take(k as int);
                let more = way@.take(k + 1);
                assert(more =~= taken.push(id));
                assert forall|u: usize| #[trigger] more.contains(u) == (taken.contains(u) || u
                    == id) by {
                    if taken.contains(u) {
                        let j = choose|j: int| 0 <= j < taken.len() && taken[j] == u;
                        assert(more[j] == u);
                    }
                    if u == id {
                        assert(more[k as int] == u);
                    }
                    if more.contains(u) {
                        let j = choose|j: int| 0 <= j < more.len() && more[j] == u;
                        if j < k {
                            assert(taken[j] == u);
                        }
                    }
                }
                assert forall|j: int| 0 <= j < k + 1 implies self.nodes@[(
                #[trigger] way@[j]) as int].value == values@[j] by {
                    if j < k {
                        assert(way@[j] > way@[k as int]);
                    }
                }
            }
            k = k + 1;
        }
        proof {
            assert(way@.take(k as int) =~= way@);
            let after = self.nodes@;
            shape_keeps_tree(start, after);
            assert forall|i: int| 0 < i < after.len() implies (#[trigger] after[i]).visits
                <= after[after[i].parent->0 as int].visits by {
                assert(linked(start, i));
                let p = start[i].parent->0 as int;
                assert(start[i].visits <= start[p].visits);
                if way@.contains(i as usize) {
                    path_is_closed(start, node_id as int, i);
                }
                assert(after[p].visits == start[p].visits + if way@.contains(p as usize) {
                    1int
                } else {
                    0int
                });
            }
        }
    }

    /// The token of the child with the most visits.
    pub fn get_best_move(&self, root_id: usize) -> (r: Option<u32>)
        requires
            self.wf(),
            root_id < self.nodes@.len(),
        ensures
            r == match most_visited(
                self.nodes@,
                self.nodes@[root_id as int].children@,
                self.nodes@[root_id as int].children@.len() as int,
            ) {
                Some(c) => Some(self.nodes@[c as int].token_id),
                None => None,
            },
    {
        let children = &self.nodes[root_id].children;
        let mut best: Option<usize> = None;
        let mut k: usize = 0;
        while k < children.len()
            invariant
                self.wf(),
                root_id < self.nodes@.len(),
                children@ == self.nodes@[root_id as int].children@,
                k <= children@.len(),
                best == most_visited(self.nodes@, children@, k as int),
                best is Some ==> best->0 < self.nodes@.len(),
            decreases children@.len() - k,
        {
            let c: usize = children[k];
            assert(child_linked(self.nodes@, root_id as int, k as int));
            best = match best {
                Some(b) => if self.nodes[c].visits >= self.nodes[b].visits {
                    Some(c)
                } else {
                    Some(b)
                },
                None => Some(c),
            };
            k = k + 1;
        }
        match best {
            Some(c) => Some(self.nodes[c].token_id),
            None => None,
        }
    }
}

/// The tree with children for the first `n` candidates below a node.
pub open spec fn expanded(
    before: Seq<MctsNode>,
    after: Seq<MctsNode>,
    parent: int,
    candidates: Seq<(u32, u32)>,
    n: int,
) -> bool {
    &&& after.len() == before.len() + n
    &&& forall|i: int| 0 <= i < before.len() && i != parent ==> #[trigger] after[i] == before[i]
    &&& after[parent].parent == before[parent].parent
    &&& after[parent].token_id == before[parent].token_id
    &&& after[parent].visits == before[parent].visits
    &&& after[parent].value == before[parent].value
    &&& after[parent].prior_prob == before[parent].prior_prob
    &&& after[parent].children@ == before[parent].children@ + Seq::new(
        n as nat,
        |k: int| (before.len() + k) as usize,
    )
    &&& forall|i: int|
        before.len() <= i < after.len() ==> is_fresh(
            #[trigger] after[i],
            Some(parent as usize),
            candidates[i - before.len()].0,
            candidates[i - before.len()].1,
        )
}

/// Node `i` is on the way from `id` to the root.
pub open spec fn on_path(nodes: Seq<MctsNode>, id: int, i: int) -> bool {
    path(nodes, id).contains(i as usize)
}

/// The ids go down, from `id` at most.
pub open spec fn descends(way: Seq<usize>, id: int) -> bool {
    &&& forall|j: int| 0 <= j < way.len() ==> #[trigger] way[j] <= id
    &&& forall|i: int, j: int| 0 <= i < j < way.len() ==> #[trigger] way[i] > #[trigger] way[j]
}

/// The way to the root goes down in ids, and ends at the root.
pub proof fn path_descends(nodes: Seq<MctsNode>, id: int)
    requires
        is_tree(nodes),
        0 <= id < nodes.len(),
        nodes.len() <= usize::MAX,
    ensures
        descends(path(nodes, id), id),
        path(nodes, id).len() > 0,
        path(nodes, id)[0] == id,
        path(nodes, id).last() == 0,
    decreases id,
{
    assert(linked(nodes, id));
    if id > 0 {
        let p = nodes[id].parent->0 as int;
        path_descends(nodes, p);
        let rest = path(nodes, p);
        let all = seq![id as usize] + rest;
        assert(path(nodes, id) == all);
        assert forall|i: int, j: int| 0 <= i < j < all.len() implies #[trigger] all[i]
            > #[trigger] all[j] by {
            if i == 0 {
                assert(all[j] == rest[j - 1]);
            } else {
                assert(all[i] == rest[i - 1] && all[j] == rest[j - 1]);
            }
        }
        assert forall|j: int| 0 <= j < all.len() implies #[trigger] all[j] <= id by {
            if j > 0 {
                assert(all[j] == rest[j - 1]);
            }
        }
        assert(all.last() == rest.last());
    }
}

/// The parent of a node on the way to the root is on it too.
pub proof fn path_is_closed(nodes: Seq<MctsNode>, id: int, i: int)
    requires
        is_tree(nodes),
        nodes.len() <= usize::MAX,
        0 <= id < nodes.len(),
        0 < i < nodes.len(),
        path(nodes, id).contains(i as usize),
    ensures
        path(nodes, id).contains(nodes[i].parent->0),
    decreases id,
{
    assert(linked(nodes, id));
    assert(linked(nodes, i));
    let all = path(nodes, id);
    let j = choose|j: int| 0 <= j < all.len() && all[j] == i as usize;
    if id > 0 {
        let p = nodes[id].parent->0 as int;
        let rest = path(nodes, p);
        assert(all == seq![id as usize] + rest);
        if j == 0 {
            path_descends(nodes, p);
            assert(all[1] == rest[0]);
            assert(all.contains(nodes[i].parent->0));
        } else {
            assert(rest[j - 1] == i as usize);
            path_is_closed(nodes, p, i);
            let k = choose|k: int| 0 <= k < rest.len() && rest[k] == nodes[i].parent->0;
            assert(all[k + 1] == nodes[i].parent->0);
        }
    }
}

proof fn shape_keeps_tree(a: Seq<MctsNode>, b: Seq<MctsNode>)
    requires
        is_tree(a),
        same_shape(b, a),
    ensures
        is_tree(b),
{
    assert forall|i: int| 0 <= i < b.len() implies #[trigger] linked(b, i) by {
        assert(linked(a, i));
        assert(b[i].parent == a[i].parent);
        if i > 0 {
            let p = a[i].parent->0 as int;
            assert(b[p].children == a[p].children);
        }
    }
    assert forall|i: int, k: int|
        0 <= i < b.len() && 0 <= k < b[i].children@.len() implies #[trigger] child_linked(
        b,
        i,
        k,
    ) by {
        assert(b[i].children == a[i].children);
        assert(child_linked(a, i, k));
        let c = a[i].children@[k] as int;
        assert(b[c].parent == a[c].parent);
    }
}

/// What the search gives is a child with the most visits.
pub proof fn most_visited_is_the_maximum(
    nodes: Seq<MctsNode>,
    children: Seq<usize>,
    n: int,
    k: int,
)
    requires
        0 <= k < n <= children.len(),
    ensures
        most_visited(nodes, children, n) is Some,
        nodes[children[k] as int].visits <= nodes[most_visited(
            nodes,
            children,
            n,
        )->0 as int].visits,
    decreases n,
{
    if k < n - 1 {
        most_visited_is_the_maximum(nodes, children, n - 1, k);
    }
}

/// The child that is chosen is the first of those that no other child's score is above;
/// none is chosen only where no child has a score above negative infinity. The result is
/// the place of the chosen child among the children.
pub proof fn best_child_has_the_best_score(scores: Seq<u32>, children: Seq<usize>, n: int) -> (at:
    int)
    requires
        0 <= n <= children.len(),
    ensures
        match best_scored(scores, children, n) {
            Some(c) => {
                &&& 0 <= at < n
                &&& children[at] == c
                &&& forall|k: int|
                    0 <= k < n ==> !float_lt(
                        scores[c as int],
                        scores[#[trigger] children[k] as int],
                    )
                &&& forall|k: int|
                    0 <= k < at && !is_nan(scores[children[k] as int]) ==> float_lt(
                        scores[#[trigger] children[k] as int],
                        scores[c as int],
                    )
            },
            None => forall|k: int|
                0 <= k < n ==> !float_lt(
                    NEG_INFINITY_BITS,
                    scores[#[trigger] children[k] as int],
                ),
        },
    decreases n,
{
    if n <= 0 {
        0
    } else {
        let before = best_child_has_the_best_score(scores, children, n - 1);
        if best_scored(scores, children, n) == best_scored(scores, children, n - 1) && !float_lt(
            match best_scored(scores, children, n - 1) {
                Some(b) => scores[b as int],
                None => NEG_INFINITY_BITS,
            },
            scores[children[n - 1] as int],
        ) {
            before
        } else {
            n - 1
        }
    }
}

/// The way to a leaf goes down from the node that it begins at, and ends at a node that has
/// no child to choose.
pub proof fn selection_ends_at_a_leaf(nodes: Seq<MctsNode>, scores: Seq<u32>, id: int)
    requires
        is_tree(nodes),
        nodes.len() <= usize::MAX,
        0 <= id < nodes.len(),
    ensures
        ({
            let leaf = leaf_below(nodes, scores, id);
            &&& id <= leaf < nodes.len()
            &&& on_path(nodes, leaf, id)
            &&& best_scored(scores, nodes[leaf].children@, nodes[leaf].children@.len() as int) is None
            &&& match best_scored(scores, nodes[id].children@, nodes[id].children@.len() as int) {
                Some(c) => on_path(nodes, leaf, c as int),
                None => leaf == id,
            }
        }),
    decreases nodes.len() - id,
{
    let children = nodes[id].children@;
    assert(path(nodes, id)[0] == id as usize);
    match best_scored(scores, children, children.len() as int) {
        Some(c) => {
            let k = best_child_has_the_best_score(scores, children, children.len() as int);
            assert(child_linked(nodes, id, k));
            selection_ends_at_a_leaf(nodes, scores, c as int);
            let leaf = leaf_below(nodes, scores, c as int);
            path_is_closed(nodes, leaf, c as int);
        },
        None => {},
    }
}

/// The move with the most visits is one of the children, and the last of those with as
/// many. The result is its place among the children.
pub proof fn best_move_is_the_last_of_the_most_visited(
    nodes: Seq<MctsNode>,
    children: Seq<usize>,
    n: int,
) -> (at: int)
    requires
        0 < n <= children.len(),
    ensures
        0 <= at < n,
        most_visited(nodes, children, n) == Some(children[at]),
        forall|k: int|
            0 <= k < n ==> nodes[#[trigger] children[k] as int].visits
                <= nodes[children[at] as int].visits,
        forall|k: int|
            at < k < n ==> nodes[#[trigger] children[k] as int].visits
                < nodes[children[at] as int].visits,
    decreases n,
{
    if n == 1 {
        assert(most_visited(nodes, children, 0) is None);
        0
    } else {
        let before = best_move_is_the_last_of_the_most_visited(nodes, children, n - 1);
        if nodes[children[n - 1] as int].visits >= nodes[children[before] as int].visits {
            n - 1
        } else {
            before
        }
    }
}

/// The path of a node goes from each node to its parent.
pub proof fn path_goes_from_child_to_parent(nodes: Seq<MctsNode>, id: int, j: int)
    requires
        is_tree(nodes),
        nodes.len() <= usize::MAX,
        0 <= id < nodes.len(),
        0 <= j,
        j + 1 < path(nodes, id).len(),
    ensures
        path(nodes, id)[j] < nodes.len(),
        nodes[path(nodes, id)[j] as int].parent == Some(path(nodes, id)[j + 1]),
    decreases id,
{
    assert(linked(nodes, id));
    if id > 0 {
        let p = nodes[id].parent->0 as int;
        path_descends(nodes, p);
        if j > 0 {
            path_goes_from_child_to_parent(nodes, p, j - 1);
        }
    }
}

/// To expand a node makes a child of every candidate, with its token and its prior, behind
/// the children that it had; nothing else in the tree changes.
pub proof fn candidates_become_children(
    before: Seq<MctsNode>,
    after: Seq<MctsNode>,
    parent: int,
    candidates: Seq<(u32, u32)>,
    k: int,
)
    requires
        0 <= parent < before.len(),
        before.len() + candidates.len() <= usize::MAX,
        expanded(before, after, parent, candidates, candidates.len() as int),
        0 <= k < candidates.len(),
    ensures
        ({
            let id = before.len() + k;
            let child = after[id];
            let had = before[parent].children@.len();
            &&& after.len() == before.len() + candidates.len()
            &&& child.parent == Some(parent as usize)
            &&& child.token_id == candidates[k].0
            &&& child.prior_prob == candidates[k].1
            &&& child.visits == 0
            &&& child.children@.len() == 0
            &&& after[parent].children@.len() == had + candidates.len()
            &&& after[parent].children@[had + k] == id
            &&& after[parent].children@.take(had as int) == before[parent].children@
            &&& after[parent].visits == before[parent].visits
            &&& forall|i: int|
                0 <= i < before.len() && i != parent ==> #[trigger] after[i] == before[i]
        }),
{
    let had = before[parent].children@.len() as int;
    assert(is_fresh(
        after[before.len() + k],
        Some(parent as usize),
        candidates[k].0,
        candidates[k].1,
    ));
    assert(after[parent].children@.take(had) =~= before[parent].children@);
}

} // verus!
