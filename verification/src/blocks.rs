//! The block layout projector: derives the ordered, nested block structure
//! from the syntax tree. A node becomes a block when its kind matches the
//! externally supplied block-worthy predicate (given as the list of
//! block-worthy kind tags); other nodes are skipped, their block-worthy
//! descendants lifted to the nearest enclosing block in order. Blocks are
//! derived state: they are rebuilt from the tree, never edited in place.

use vstd::prelude::*;

use crate::text_range::TextRange;
use crate::tree::SyntaxNode;

verus! {

/// One rendered, interactable block: the span it covers, its nesting depth
/// among blocks, and its nested blocks.
pub struct Block {
    pub range: TextRange,
    pub depth: u64,
    pub children: Vec<Block>,
}

/// Mathematical model of a `Block`: the same shape over `Seq`.
pub ghost struct BlockView {
    pub range: TextRange,
    pub depth: u64,
    pub children: Seq<BlockView>,
}

impl Block {
    /// The model of this block: ranges and depths with children as a `Seq`.
    /// The out-of-range arm of the closure is never used by `Seq::new`; it
    /// only keeps the recursion visibly bounded.
    pub open spec fn model(self) -> BlockView
        decreases self,
    {
        BlockView {
            range: self.range,
            depth: self.depth,
            children: Seq::new(
                self.children@.len(),
                |i: int|
                    if 0 <= i < self.children@.len() {
                        self.children@[i].model()
                    } else {
                        BlockView { range: self.range, depth: self.depth, children: Seq::empty() }
                    },
            ),
        }
    }
}

/// Models of a sequence of blocks.
pub open spec fn models_of(s: Seq<Block>) -> Seq<BlockView> {
    Seq::new(s.len(), |i: int| s[i].model())
}

impl BlockView {
    /// Block-tree invariant: every block's range is contained in its parent's
    /// range, and sibling blocks' ranges never overlap and are ordered by
    /// start offset.
    pub open spec fn wf(self) -> bool
        decreases self,
    {
        &&& self.range.valid()
        &&& forall|i: int| 0 <= i < self.children.len() ==> (#[trigger] self.children[i]).wf()
        &&& forall|i: int|
            0 <= i < self.children.len() ==> (#[trigger] self.children[i]).range.inside(self.range)
        &&& forall|i: int|
            0 <= i && i + 1 < self.children.len() ==> (#[trigger] self.children[i]).range.end
                <= self.children[i + 1].range.start
    }
}

/// Depth of the blocks nested inside a block at `depth`.
pub open spec fn next_depth(depth: u64) -> u64 {
    if depth == u64::MAX {
        depth
    } else {
        (depth + 1) as u64
    }
}

/// Blocks projected from one syntax node: the node's own block with its
/// descendants nested inside, or, for a node that is not block-worthy, its
/// block-worthy descendants lifted in order.
pub open spec fn node_blocks(node: SyntaxNode, worthy: Seq<u64>, depth: u64) -> Seq<BlockView>
    decreases node,
{
    if worthy.contains(node.kind) {
        seq![
            BlockView {
                range: node.range,
                depth,
                children: seq_blocks(node.children@, worthy, next_depth(depth)),
            },
        ]
    } else {
        seq_blocks(node.children@, worthy, depth)
    }
}

/// Blocks projected from a sequence of sibling nodes, in order.
pub open spec fn seq_blocks(nodes: Seq<SyntaxNode>, worthy: Seq<u64>, depth: u64) -> Seq<BlockView>
    decreases nodes,
{
    if nodes.len() == 0 {
        Seq::empty()
    } else {
        node_blocks(nodes[0], worthy, depth) + seq_blocks(nodes.drop_first(), worthy, depth)
    }
}

/// The root block of the projection: the root node always becomes a block.
pub open spec fn project_spec(tree: SyntaxNode, worthy: Seq<u64>) -> BlockView {
    BlockView { range: tree.range, depth: 0, children: seq_blocks(tree.children@, worthy, 1) }
}

/// Whether `kind` is one of the block-worthy kind tags.
pub fn kind_is_worthy(worthy: &Vec<u64>, kind: u64) -> (r: bool)
    ensures
        r == worthy@.contains(kind),
{
    let mut i: usize = 0;
    while i < worthy.len()
        invariant
            i <= worthy@.len(),
            forall|k: int| 0 <= k < i ==> worthy@[k] != kind,
        decreases worthy@.len() - i,
    {
        if worthy[i] == kind {
            return true;
        }
        i = i + 1;
    }
    false
}

/// Blocks projected from the sibling nodes `nodes`, depth `depth`.
pub fn project_siblings(nodes: &Vec<SyntaxNode>, worthy: &Vec<u64>, depth: u64) -> (r: Vec<Block>)
    ensures
        models_of(r@) == seq_blocks(nodes@, worthy@, depth),
    decreases *nodes,
{
    let mut acc: Vec<Block> = Vec::new();
    let mut i: usize = 0;
    while i < nodes.len()
        invariant
            i <= nodes@.len(),
            models_of(acc@) == seq_blocks(nodes@.subrange(0, i as int), worthy@, depth),
        decreases nodes@.len() - i,
    {
        let mut part = project_node(&nodes[i], worthy, depth);
        proof {
            lemma_seq_blocks_snoc(nodes@.subrange(0, i + 1), worthy@, depth);
            assert(nodes@.subrange(0, i + 1).drop_last() =~= nodes@.subrange(0, i as int));
            assert(nodes@.subrange(0, i + 1).last() == nodes@[i as int]);
        }
        let ghost old_acc = acc@;
        let ghost old_part = part@;
        acc.append(&mut part);
        proof {
            assert(models_of(old_acc + old_part) =~= models_of(old_acc) + models_of(old_part));
            assert(models_of(acc@) =~= seq_blocks(nodes@.subrange(0, i + 1), worthy@, depth));
        }
        i = i + 1;
    }
    proof {
        assert(nodes@.subrange(0, nodes@.len() as int) =~= nodes@);
    }
    acc
}

/// Blocks projected from one node, as `node_blocks` describes.
pub fn project_node(node: &SyntaxNode, worthy: &Vec<u64>, depth: u64) -> (r: Vec<Block>)
    ensures
        models_of(r@) == node_blocks(*node, worthy@, depth),
    decreases *node,
{
    let is_worthy = kind_is_worthy(worthy, node.kind);
    let child_depth: u64 = if is_worthy {
        if depth == u64::MAX {
            depth
        } else {
            depth + 1
        }
    } else {
        depth
    };
    let inner = project_siblings(&node.children, worthy, child_depth);
    if is_worthy {
        let b = Block { range: node.range, depth, children: inner };
        let mut out: Vec<Block> = Vec::new();
        proof {
            assert(b.model().children =~= models_of(b.children@));
            assert(b.model().children =~= seq_blocks(node.children@, worthy@, next_depth(depth)));
        }
        out.push(b);
        proof {
            assert(models_of(out@) =~= node_blocks(*node, worthy@, depth));
        }
        out
    } else {
        inner
    }
}

/// Every block of `s` is well-formed.
pub open spec fn blocks_wf(s: Seq<BlockView>) -> bool {
    forall|i: int| 0 <= i < s.len() ==> (#[trigger] s[i]).wf()
}

/// Every block of `s` spans a subrange of `[lo, hi)`.
pub open spec fn blocks_bounded(s: Seq<BlockView>, lo: int, hi: int) -> bool {
    forall|i: int|
        0 <= i < s.len() ==> lo <= (#[trigger] s[i]).range.start && s[i].range.end <= hi
}

/// Adjacent blocks of `s` never overlap and are ordered by start offset.
pub open spec fn blocks_ordered(s: Seq<BlockView>) -> bool {
    forall|i: int|
        0 <= i && i + 1 < s.len() ==> (#[trigger] s[i]).range.end <= s[i + 1].range.start
}

/// In an ordered run of well-formed siblings, end offsets grow with the index.
proof fn lemma_sibling_end_chain(s: Seq<SyntaxNode>, i: int, j: int)
    requires
        forall|k: int| 0 <= k < s.len() ==> (#[trigger] s[k]).wf(),
        forall|k: int|
            0 <= k && k + 1 < s.len() ==> (#[trigger] s[k]).range.end <= s[k + 1].range.start,
        0 <= i <= j < s.len(),
    ensures
        s[i].range.end <= s[j].range.end,
    decreases j - i,
{
    if i < j {
        assert(s[i].range.end <= s[i + 1].range.start);
        assert(s[i + 1].wf());
        lemma_sibling_end_chain(s, i + 1, j);
    }
}

/// Blocks projected from one well-formed node are well-formed, stay inside
/// the node's own range, and are ordered without overlap.
pub proof fn lemma_node_blocks_wf(node: SyntaxNode, worthy: Seq<u64>, depth: u64)
    requires
        node.wf(),
    ensures
        blocks_wf(node_blocks(node, worthy, depth)),
        blocks_ordered(node_blocks(node, worthy, depth)),
        blocks_bounded(
            node_blocks(node, worthy, depth),
            node.range.start as int,
            node.range.end as int,
        ),
    decreases node,
{
    let cd = if worthy.contains(node.kind) {
        next_depth(depth)
    } else {
        depth
    };
    let s = node.children@;
    lemma_siblings_blocks_wf(s, worthy, cd);
    let inner = seq_blocks(s, worthy, cd);
    assert(blocks_bounded(inner, node.range.start as int, node.range.end as int)) by {
        if s.len() > 0 {
            assert(s[0].range.inside(node.range));
            assert(s[s.len() - 1].range.inside(node.range));
        }
    }
    if worthy.contains(node.kind) {
        let b = BlockView { range: node.range, depth, children: inner };
        assert(b.wf());
        assert(node_blocks(node, worthy, depth) =~= seq![b]);
    }
}

/// Blocks projected from an ordered run of well-formed siblings are
/// well-formed, ordered without overlap, and bounded by the run's outermost
/// offsets.
pub proof fn lemma_siblings_blocks_wf(s: Seq<SyntaxNode>, worthy: Seq<u64>, depth: u64)
    requires
        forall|k: int| 0 <= k < s.len() ==> (#[trigger] s[k]).wf(),
        forall|k: int|
            0 <= k && k + 1 < s.len() ==> (#[trigger] s[k]).range.end <= s[k + 1].range.start,
    ensures
        blocks_wf(seq_blocks(s, worthy, depth)),
        blocks_ordered(seq_blocks(s, worthy, depth)),
        s.len() > 0 ==> blocks_bounded(
            seq_blocks(s, worthy, depth),
            s[0].range.start as int,
            s[s.len() - 1].range.end as int,
        ),
    decreases s,
{
    if s.len() > 0 {
        let head = s[0];
        let rest = s.drop_first();
        lemma_node_blocks_wf(head, worthy, depth);
        let a = node_blocks(head, worthy, depth);
        assert(forall|k: int| 0 <= k < rest.len() ==> (#[trigger] rest[k]).wf()) by {
            assert(forall|k: int| 0 <= k < rest.len() ==> rest[k] == s[k + 1]);
        }
        assert(forall|k: int|
            0 <= k && k + 1 < rest.len() ==> (#[trigger] rest[k]).range.end <= rest[k
                + 1].range.start) by {
            assert(forall|k: int| 0 <= k < rest.len() ==> rest[k] == s[k + 1]);
        }
        lemma_siblings_blocks_wf(rest, worthy, depth);
        let b = seq_blocks(rest, worthy, depth);
        let total = seq_blocks(s, worthy, depth);
        assert(total == a + b);
        assert(head.wf());
        if rest.len() > 0 {
            assert(rest[0] == s[1]);
            assert(rest[rest.len() - 1] == s[s.len() - 1]);
            assert(head.range.end <= rest[0].range.start);
            lemma_sibling_end_chain(rest, 0, rest.len() - 1);
        }
        assert(blocks_wf(total)) by {
            assert(forall|i: int|
                0 <= i < total.len() ==> #[trigger] total[i] == if i < a.len() {
                    a[i]
                } else {
                    b[i - a.len()]
                });
        }
        assert(blocks_ordered(total)) by {
            assert(forall|i: int|
                0 <= i < total.len() ==> #[trigger] total[i] == if i < a.len() {
                    a[i]
                } else {
                    b[i - a.len()]
                });
        }
        assert(blocks_bounded(
            total,
            s[0].range.start as int,
            s[s.len() - 1].range.end as int,
        )) by {
            assert(forall|i: int|
                0 <= i < total.len() ==> #[trigger] total[i] == if i < a.len() {
                    a[i]
                } else {
                    b[i - a.len()]
                });
        }
    }
}

/// Law: projection preserves the tree invariant. In the projected block
/// tree every block's range is fully contained in its parent's range, and
/// sibling blocks never overlap.
pub proof fn lemma_projection_wf(tree: SyntaxNode, worthy: Seq<u64>)
    requires
        tree.wf(),
    ensures
        project_spec(tree, worthy).wf(),
{
    lemma_siblings_blocks_wf(tree.children@, worthy, 1);
    let s = tree.children@;
    if s.len() > 0 {
        assert(s[0].range.inside(tree.range));
        assert(s[s.len() - 1].range.inside(tree.range));
    }
    assert(project_spec(tree, worthy).wf());
}

/// Project the whole tree: the root always becomes a block.
pub fn project(tree: &SyntaxNode, worthy: &Vec<u64>) -> (r: Block)
    requires
        tree.wf(),
    ensures
        r.model() == project_spec(*tree, worthy@),
        r.model().wf(),
{
    let children = project_siblings(&tree.children, worthy, 1);
    let b = Block { range: tree.range, depth: 0, children };
    proof {
        assert(b.model().children =~= models_of(b.children@));
        assert(b.model().children =~= seq_blocks(tree.children@, worthy@, 1));
        assert(b.model() == project_spec(*tree, worthy@));
        lemma_projection_wf(*tree, worthy@);
    }
    b
}

/// Appending one more sibling extends the projected block sequence on the
/// right.
pub proof fn lemma_seq_blocks_snoc(nodes: Seq<SyntaxNode>, worthy: Seq<u64>, depth: u64)
    requires
        nodes.len() > 0,
    ensures
        seq_blocks(nodes, worthy, depth) == seq_blocks(nodes.drop_last(), worthy, depth)
            + node_blocks(nodes.last(), worthy, depth),
    decreases nodes.len(),
{
    if nodes.len() == 1 {
        assert(nodes.drop_first() =~= Seq::<SyntaxNode>::empty());
        assert(nodes.drop_last() =~= Seq::<SyntaxNode>::empty());
        assert(seq_blocks(nodes, worthy, depth) =~= seq_blocks(nodes.drop_last(), worthy, depth)
            + node_blocks(nodes.last(), worthy, depth));
    } else {
        let rest = nodes.drop_first();
        lemma_seq_blocks_snoc(rest, worthy, depth);
        assert(rest.drop_last() =~= nodes.drop_last().drop_first());
        assert(rest.last() == nodes.last());
        assert(nodes.drop_last()[0] == nodes[0]);
        assert(seq_blocks(nodes, worthy, depth) =~= seq_blocks(nodes.drop_last(), worthy, depth)
            + node_blocks(nodes.last(), worthy, depth));
    }
}

} // verus!
