//! Syntax trees and their traversal in document order.

use vstd::prelude::*;

verus! {

/// A byte range of a source file: where it starts and, where that is known,
/// how many bytes it has.
#[derive(Clone, Copy, Debug, PartialEq, Eq)]
pub struct Span {
    pub start: usize,
    pub length: Option<usize>,
}

/// A named property of a node, with its value as text.
#[derive(Debug)]
pub struct Attribute {
    pub key: String,
    pub value: String,
}

/// One node of a syntax tree, with the nodes below it in source order.
#[derive(Debug)]
pub struct Node {
    pub id: Option<usize>,
    pub kind: String,
    pub src: Span,
    pub attributes: Vec<Attribute>,
    pub children: Vec<Node>,
}

/// The parsed form of one source file. Artifacts that were compiled from the
/// same file hold trees with the same `id`.
#[derive(Debug)]
pub struct SyntaxTree {
    pub id: usize,
    pub absolute_path: String,
    pub root: Node,
}

/// The nodes of the tree under `node` in document order: the node itself,
/// then the nodes under each of its children, child by child.
pub open spec fn preorder(node: Node) -> Seq<Node>
    decreases node, 1int,
{
    seq![node] + preorder_forest(node.children@)
}

/// The nodes of a sequence of trees in document order.
pub open spec fn preorder_forest(nodes: Seq<Node>) -> Seq<Node>
    decreases nodes, 0int,
{
    if nodes.len() == 0 {
        Seq::empty()
    } else {
        preorder(nodes[0]) + preorder_forest(nodes.subrange(1, nodes.len() as int))
    }
}

/// The number of nodes of the tree under `node`.
pub open spec fn node_count(node: Node) -> nat
    decreases node, 1int,
{
    1 + forest_count(node.children@)
}

/// The number of nodes of a sequence of trees.
pub open spec fn forest_count(nodes: Seq<Node>) -> nat
    decreases nodes, 0int,
{
    if nodes.len() == 0 {
        0
    } else {
        node_count(nodes[0]) + forest_count(nodes.subrange(1, nodes.len() as int))
    }
}

/// The nodes that a sequence of references points to.
pub open spec fn targets(refs: Seq<&Node>) -> Seq<Node> {
    Seq::new(refs.len(), |i: int| *refs[i])
}

/// The document order of two runs of trees, one after the other, is the
/// document order of the first followed by that of the second.
pub proof fn lemma_preorder_forest_concat(first: Seq<Node>, second: Seq<Node>)
    ensures
        preorder_forest(first + second) == preorder_forest(first) + preorder_forest(second),
    decreases first.len(),
{
    if first.len() == 0 {
        assert(first + second =~= second);
    } else {
        let both = first + second;
        let tail = first.subrange(1, first.len() as int);
        assert(both[0] == first[0]);
        assert(both.subrange(1, both.len() as int) =~= tail + second);
        lemma_preorder_forest_concat(tail, second);
    }
}

/// A tree has at least one node, and its first node in document order is its
/// root.
pub proof fn lemma_preorder_starts_at_root(node: Node)
    ensures
        preorder(node).len() >= 1,
        preorder(node)[0] == node,
{
}

/// The document order of a tree has one entry for each of its nodes.
pub proof fn lemma_preorder_counts(node: Node)
    ensures
        preorder(node).len() == node_count(node),
    decreases node, 1int,
{
    lemma_preorder_forest_counts(node.children@);
}

/// The document order of a sequence of trees has one entry for each of
/// their nodes.
pub proof fn lemma_preorder_forest_counts(nodes: Seq<Node>)
    ensures
        preorder_forest(nodes).len() == forest_count(nodes),
    decreases nodes, 0int,
{
    if nodes.len() > 0 {
        lemma_preorder_counts(nodes[0]);
        lemma_preorder_forest_counts(nodes.subrange(1, nodes.len() as int));
    }
}

/// The nodes stand in the order of their starts.
pub open spec fn in_order(nodes: Seq<Node>) -> bool {
    forall|i: int, j: int| 0 <= i < j < nodes.len() ==> nodes[i].src.start <= nodes[j].src.start
}

/// Where a node that starts at `start` goes among `nodes`: behind the last
/// node that starts at or before `start`.
pub open spec fn slot(nodes: Seq<Node>, start: usize) -> int
    decreases nodes.len(),
{
    if nodes.len() == 0 {
        0
    } else if nodes.last().src.start > start {
        slot(nodes.drop_last(), start)
    } else {
        nodes.len() as int
    }
}

/// `nodes` with `node` put in at its slot.
pub open spec fn placed(nodes: Seq<Node>, node: Node) -> Seq<Node> {
    nodes.insert(slot(nodes, node.src.start), node)
}

/// `nodes` in source order: each node is put in at its slot among those
/// before it, so nodes with the same start keep their order.
pub open spec fn arranged(nodes: Seq<Node>) -> Seq<Node>
    decreases nodes.len(),
{
    if nodes.len() == 0 {
        Seq::empty()
    } else {
        placed(arranged(nodes.drop_last()), nodes.last())
    }
}

proof fn lemma_slot(nodes: Seq<Node>, start: usize)
    requires
        in_order(nodes),
    ensures
        0 <= slot(nodes, start) <= nodes.len(),
        forall|k: int| 0 <= k < slot(nodes, start) ==> (#[trigger] nodes[k]).src.start <= start,
        forall|k: int|
            slot(nodes, start) <= k < nodes.len() ==> (#[trigger] nodes[k]).src.start > start,
    decreases nodes.len(),
{
    if nodes.len() > 0 {
        let front = nodes.drop_last();
        assert forall|i: int, j: int| 0 <= i < j < front.len() implies front[i].src.start
            <= front[j].src.start by {
            assert(front[i] == nodes[i] && front[j] == nodes[j]);
        }
        if nodes.last().src.start > start {
            lemma_slot(front, start);
            assert forall|k: int| 0 <= k < slot(nodes, start) implies (#[trigger] nodes[k]).src.start
                <= start by {
                assert(front[k] == nodes[k]);
            }
            assert forall|k: int| slot(nodes, start) <= k < nodes.len() implies (
            #[trigger] nodes[k]).src.start > start by {
                if k < front.len() {
                    assert(front[k] == nodes[k]);
                }
            }
        } else {
            assert forall|k: int| 0 <= k < nodes.len() implies (#[trigger] nodes[k]).src.start
                <= start by {
                if k < nodes.len() - 1 {
                    assert(nodes[k].src.start <= nodes[nodes.len() - 1].src.start);
                }
            }
        }
    }
}

proof fn lemma_placed(nodes: Seq<Node>, node: Node)
    requires
        in_order(nodes),
    ensures
        in_order(placed(nodes, node)),
        placed(nodes, node).len() == nodes.len() + 1,
        placed(nodes, node).to_multiset() =~= nodes.to_multiset().insert(node),
{
    let at = slot(nodes, node.src.start);
    let after = placed(nodes, node);
    lemma_slot(nodes, node.src.start);
    assert forall|i: int, j: int| 0 <= i < j < after.len() implies after[i].src.start
        <= after[j].src.start by {
        if j < at {
            assert(after[i] == nodes[i] && after[j] == nodes[j]);
        } else if j == at {
            assert(after[i] == nodes[i]);
        } else if i < at {
            assert(after[i] == nodes[i] && after[j] == nodes[j - 1]);
        } else if i == at {
            assert(after[j] == nodes[j - 1]);
        } else {
            assert(after[i] == nodes[i - 1] && after[j] == nodes[j - 1]);
        }
    }
    assert(after.remove(at) =~= nodes);
    vstd::seq_lib::to_multiset_remove(after, at);
    assert(after[at] == node);
    after.to_multiset_ensures();
    assert(after.contains(node));
    assert(after.to_multiset() =~= nodes.to_multiset().insert(node));
}

/// Nodes in source order stand in the order of their starts, and they are
/// the nodes that were given, each as often as it was given.
pub proof fn lemma_arranged(nodes: Seq<Node>)
    ensures
        in_order(arranged(nodes)),
        arranged(nodes).len() == nodes.len(),
        arranged(nodes).to_multiset() =~= nodes.to_multiset(),
    decreases nodes.len(),
{
    if nodes.len() == 0 {
        assert(nodes =~= Seq::<Node>::empty());
    } else {
        let front = nodes.drop_last();
        lemma_arranged(front);
        lemma_placed(arranged(front), nodes.last());
        assert(front.push(nodes.last()) =~= nodes);
        vstd::seq_lib::to_multiset_build(front, nodes.last());
    }
}

/// Nodes that stand in the order of their starts are left as they are.
pub proof fn lemma_arranged_keeps_order(nodes: Seq<Node>)
    requires
        in_order(nodes),
    ensures
        arranged(nodes) == nodes,
    decreases nodes.len(),
{
    if nodes.len() == 0 {
        assert(nodes =~= Seq::<Node>::empty());
    } else {
        let front = nodes.drop_last();
        assert forall|i: int, j: int| 0 <= i < j < front.len() implies front[i].src.start
            <= front[j].src.start by {
            assert(front[i] == nodes[i] && front[j] == nodes[j]);
        }
        lemma_arranged_keeps_order(front);
        if front.len() > 0 {
            assert(front.last() == nodes[nodes.len() - 2]);
            assert(nodes[nodes.len() - 2].src.start <= nodes[nodes.len() - 1].src.start);
        }
        assert(slot(front, nodes.last().src.start) == front.len());
        assert(front.insert(front.len() as int, nodes.last()) =~= nodes);
    }
}

/// Puts sibling nodes into source order: by where they start, nodes with the
/// same start in the order in which they were given.
pub fn in_source_order(nodes: Vec<Node>) -> (sorted: Vec<Node>)
    ensures
        sorted@ == arranged(nodes@),
        in_order(sorted@),
        sorted@.len() == nodes@.len(),
        sorted@.to_multiset() == nodes@.to_multiset(),
{
    let ghost given = nodes@;
    // The nodes are moved out from the back, so they are turned round first
    // to be placed from the front.
    let mut rest = nodes;
    let mut turned: Vec<Node> = Vec::new();
    while rest.len() > 0
        invariant
            rest@.len() + turned@.len() == given.len(),
            forall|k: int| 0 <= k < rest@.len() ==> rest@[k] == given[k],
            forall|k: int| 0 <= k < turned@.len() ==> turned@[k] == given[given.len() - 1 - k],
        decreases rest@.len(),
    {
        let last = rest.pop();
        match last {
            Some(node) => {
                turned.push(node);
            },
            None => {},
        }
    }
    let mut sorted: Vec<Node> = Vec::new();
    proof {
        assert(given.take(0) =~= Seq::<Node>::empty());
    }
    while turned.len() > 0
        invariant
            turned@.len() <= given.len(),
            forall|k: int| 0 <= k < turned@.len() ==> turned@[k] == given[given.len() - 1 - k],
            sorted@ == arranged(given.take(given.len() - turned@.len())),
        decreases turned@.len(),
    {
        let ghost done = given.len() - turned@.len();
        let next = turned.pop();
        match next {
            Some(node) => {
                assert(node == given[done]);
                let mut at: usize = sorted.len();
                proof {
                    assert(sorted@.take(at as int) =~= sorted@);
                }
                while at > 0 && sorted[at - 1].src.start > node.src.start
                    invariant
                        0 <= at <= sorted@.len(),
                        slot(sorted@, node.src.start) == slot(
                            sorted@.take(at as int),
                            node.src.start,
                        ),
                    decreases at,
                {
                    proof {
                        let upto = sorted@.take(at as int);
                        assert(upto.last() == sorted@[at - 1]);
                        assert(upto.drop_last() =~= sorted@.take(at - 1));
                    }
                    at = at - 1;
                }
                proof {
                    let upto = sorted@.take(at as int);
                    if at > 0 {
                        assert(upto.last() == sorted@[at - 1]);
                    }
                    assert(slot(upto, node.src.start) == at);
                    assert(given.take(done + 1).drop_last() =~= given.take(done));
                    assert(given.take(done + 1).last() == node);
                }
                sorted.insert(at, node);
            },
            None => {},
        }
    }
    proof {
        assert(given.take(given.len() as int) =~= given);
        lemma_arranged(given);
    }
    sorted
}

impl SyntaxTree {
    /// Every node of the tree, each once, in document order.
    pub fn nodes<'a>(&'a self) -> (all: Vec<&'a Node>)
        ensures
            targets(all@) == preorder(self.root),
            all@.len() == node_count(self.root),
    {
        let mut all: Vec<&'a Node> = Vec::new();
        let mut stack: Vec<&'a Node> = Vec::new();
        stack.push(&self.root);
        // What is still to come, first tree first; the stack holds it last
        // tree first.
        let ghost mut pending: Seq<Node> = seq![self.root];
        proof {
            let none = pending.subrange(1, 1);
            assert(none.len() == 0);
            assert(preorder_forest(none) =~= Seq::<Node>::empty());
            assert(preorder_forest(pending) =~= preorder(pending[0]) + preorder_forest(none));
            assert(targets(all@) =~= Seq::<Node>::empty());
        }
        while stack.len() > 0
            invariant
                targets(all@) + preorder_forest(pending) == preorder(self.root),
                stack@.len() == pending.len(),
                forall|k: int|
                    0 <= k < pending.len() ==> *stack@[k] == pending[pending.len() - 1 - k],
            decreases preorder(self.root).len() - all@.len(),
        {
            let ghost before = targets(all@);
            let ghost rest = pending.subrange(1, pending.len() as int);
            let top = stack.pop();
            match top {
                Some(node) => {
                    assert(*node == pending[0]);
                    all.push(node);
                    let mut j: usize = node.children.len();
                    proof {
                        pending = rest;
                        assert(node.children@.subrange(j as int, j as int) + rest =~= rest);
                    }
                    while j > 0
                        invariant
                            0 <= j <= node.children@.len(),
                            pending == node.children@.subrange(
                                j as int,
                                node.children@.len() as int,
                            ) + rest,
                            stack@.len() == pending.len(),
                            forall|k: int|
                                0 <= k < pending.len() ==> *stack@[k] == pending[pending.len() - 1
                                    - k],
                        decreases j,
                    {
                        j = j - 1;
                        let ghost earlier = pending;
                        stack.push(&node.children[j]);
                        proof {
                            pending = seq![node.children@[j as int]] + earlier;
                            assert(pending =~= node.children@.subrange(
                                j as int,
                                node.children@.len() as int,
                            ) + rest);
                            assert forall|k: int| 0 <= k < pending.len() implies *stack@[k]
                                == pending[pending.len() - 1 - k] by {
                                if k < earlier.len() {
                                    assert(pending[pending.len() - 1 - k] == earlier[earlier.len()
                                        - 1 - k]);
                                }
                            }
                        }
                    }
                    proof {
                        assert(node.children@.subrange(0, node.children@.len() as int)
                            =~= node.children@);
                        lemma_preorder_forest_concat(node.children@, rest);
                        assert(targets(all@) =~= before.push(*node));
                        assert(targets(all@) + preorder_forest(pending) =~= before + (preorder(
                            *node,
                        ) + preorder_forest(rest)));
                    }
                },
                None => {},
            }
        }
        proof {
            assert(pending =~= Seq::<Node>::empty());
            assert(targets(all@) + preorder_forest(pending) =~= targets(all@));
            lemma_preorder_counts(self.root);
        }
        all
    }
}

} // verus!
