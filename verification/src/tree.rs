//! The syntax tree and its cache. The parser is a pluggable capability that
//! lives outside this engine; whatever tree it proposes is validated against
//! the tree invariants before it is trusted, and a degenerate single-node
//! tree spanning the whole buffer is used when no valid tree is available, so
//! editing stays possible even without structure.

use vstd::prelude::*;

use crate::text_range::TextRange;

verus! {

/// Kind tag of the degenerate root node used when parsing fails.
pub const ROOT_KIND: u64 = 0;

/// One node of the syntax tree: a kind tag, the span it covers, and its
/// ordered children.
pub struct SyntaxNode {
    pub kind: u64,
    pub range: TextRange,
    pub children: Vec<SyntaxNode>,
}

impl SyntaxNode {
    /// Tree invariant: every child's range is contained in its parent's
    /// range, and sibling ranges are non-overlapping and ordered by start
    /// offset.
    pub open spec fn wf(self) -> bool
        decreases self,
    {
        &&& self.range.valid()
        &&& forall|i: int|
            0 <= i < self.children@.len() ==> (#[trigger] self.children@[i]).wf()
        &&& forall|i: int|
            0 <= i < self.children@.len() ==> (#[trigger] self.children@[i]).range.inside(
                self.range,
            )
        &&& forall|i: int|
            0 <= i && i + 1 < self.children@.len() ==> (#[trigger] self.children@[i]).range.end
                <= self.children@[i + 1].range.start
    }

    /// The tree covers exactly a buffer of `len` codepoints.
    pub open spec fn covers_buffer(self, len: nat) -> bool {
        self.range.start == 0 && self.range.end == len
    }
}

/// Check the tree invariant; `true` exactly when the node is well-formed.
#[verifier::rlimit(100)]
pub fn check_node(node: &SyntaxNode) -> (r: bool)
    ensures
        r == node.wf(),
    decreases *node,
{
    if node.range.start > node.range.end {
        return false;
    }
    let mut i: usize = 0;
    while i < node.children.len()
        invariant
            i <= node.children@.len(),
            node.range.valid(),
            forall|k: int| 0 <= k < i ==> (#[trigger] node.children@[k]).wf(),
            forall|k: int|
                0 <= k < i ==> (#[trigger] node.children@[k]).range.inside(node.range),
            forall|k: int|
                0 <= k && k + 1 < i ==> (#[trigger] node.children@[k]).range.end <= node.children@[k
                    + 1].range.start,
        decreases node.children@.len() - i,
    {
        let c = &node.children[i];
        if !check_node(c) {
            return false;
        }
        if !(node.range.start <= c.range.start && c.range.end <= node.range.end) {
            return false;
        }
        if i > 0 {
            if !(node.children[i - 1].range.end <= c.range.start) {
                return false;
            }
        }
        proof {
            assert forall|k: int| 0 <= k && k + 1 < i + 1 implies (#[trigger] node.children@[k]).range.end
                <= node.children@[k + 1].range.start by {
                if k + 1 < i {
                    assert(node.children@[k].range.end <= node.children@[k + 1].range.start);
                } else {
                    assert(k == i - 1);
                }
            }
        }
        i = i + 1;
    }
    true
}

/// The degenerate tree: one root node spanning the whole buffer, no children.
pub fn fallback_tree(len: usize) -> (r: SyntaxNode)
    ensures
        r.wf(),
        r.covers_buffer(len as nat),
        r.kind == ROOT_KIND,
        r.children@.len() == 0,
{
    SyntaxNode { kind: ROOT_KIND, range: TextRange { start: 0, end: len }, children: Vec::new() }
}

/// Holds exactly one syntax tree, tagged with the buffer version it was
/// produced for.
pub struct TreeCache {
    pub tree: SyntaxNode,
    pub version: u64,
}

impl TreeCache {
    /// The cached tree is well-formed and spans the whole buffer.
    pub open spec fn wf(self, buf_len: nat) -> bool {
        self.tree.wf() && self.tree.covers_buffer(buf_len)
    }

    /// A proposed tree is accepted only if it satisfies the tree invariants
    /// and spans exactly the buffer it was parsed from.
    pub open spec fn accepts(tree: SyntaxNode, buf_len: nat) -> bool {
        tree.wf() && tree.covers_buffer(buf_len)
    }

    /// A cache for an empty document: the degenerate tree at the given version.
    pub fn new(buf_len: usize, version: u64) -> (r: TreeCache)
        ensures
            r.wf(buf_len as nat),
            r.version == version,
            r.tree.kind == ROOT_KIND,
            r.tree.children@.len() == 0,
    {
        TreeCache { tree: fallback_tree(buf_len), version }
    }

    /// Install the parser's proposed tree for the buffer state
    /// `(buf_len, version)`. The candidate is validated against the tree
    /// invariants; if it fails, or no candidate is available, the cache falls
    /// back to the degenerate whole-buffer tree. Returns whether the
    /// candidate was used.
    pub fn refresh(&mut self, candidate: Option<SyntaxNode>, buf_len: usize, version: u64) -> (used:
        bool)
        ensures
            final(self).version == version,
            final(self).wf(buf_len as nat),
            candidate is None ==> !used,
            candidate matches Some(t) ==> used == Self::accepts(t, buf_len as nat),
            candidate matches Some(t) ==> (Self::accepts(t, buf_len as nat) ==> final(self).tree
                == t),
            !used ==> final(self).tree.kind == ROOT_KIND && final(self).tree.children@.len() == 0,
    {
        let mut used = false;
        match candidate {
            Some(t) => {
                if check_node(&t) && t.range.start == 0 && t.range.end == buf_len {
                    self.tree = t;
                    used = true;
                } else {
                    self.tree = fallback_tree(buf_len);
                }
            },
            None => {
                self.tree = fallback_tree(buf_len);
            },
        }
        self.version = version;
        used
    }
}

} // verus!
