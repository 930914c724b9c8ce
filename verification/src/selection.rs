//! The selection/cursor model: zero or more anchor/head pairs, remapped
//! under every accepted edit by the range translator's offset rule, plus
//! block-granularity navigation over the projected block tree.

use vstd::prelude::*;

use crate::blocks::{Block, BlockView};
use crate::text_range::{translate_offset, TextEdit, TextRange};

verus! {

/// One cursor: equal offsets mean a caret, unequal a selection.
#[derive(Clone, Copy, PartialEq, Eq, Structural, Debug)]
pub struct Cursor {
    pub anchor: usize,
    pub head: usize,
}

impl Cursor {
    /// Both offsets lie within a buffer of `len` codepoints.
    pub open spec fn within(self, len: nat) -> bool {
        self.anchor <= len && self.head <= len
    }

    /// The selected span, normalized so that start is the smaller offset.
    pub open spec fn span_spec(self) -> TextRange {
        if self.anchor <= self.head {
            TextRange { start: self.anchor, end: self.head }
        } else {
            TextRange { start: self.head, end: self.anchor }
        }
    }

    pub fn caret(offset: usize) -> (r: Cursor)
        ensures
            r == (Cursor { anchor: offset, head: offset }),
    {
        Cursor { anchor: offset, head: offset }
    }

    /// The selected span as a valid range.
    pub fn span(&self) -> (r: TextRange)
        ensures
            r == self.span_spec(),
            r.valid(),
    {
        if self.anchor <= self.head {
            TextRange { start: self.anchor, end: self.head }
        } else {
            TextRange { start: self.head, end: self.anchor }
        }
    }

    /// A cursor remapped by the offset rule of the range translator.
    pub open spec fn remap_spec(self, edit: TextEdit) -> Cursor {
        Cursor {
            anchor: edit.translate_offset_spec(self.anchor as int) as usize,
            head: edit.translate_offset_spec(self.head as int) as usize,
        }
    }
}

/// All cursors of the document.
pub struct Selection {
    pub cursors: Vec<Cursor>,
}

impl Selection {
    /// Every cursor lies within a buffer of `len` codepoints.
    pub open spec fn wf(self, len: nat) -> bool {
        forall|i: int| 0 <= i < self.cursors@.len() ==> (#[trigger] self.cursors@[i]).within(len)
    }

    /// One caret at the start of the document.
    pub fn new() -> (r: Selection)
        ensures
            r.cursors@ =~= seq![Cursor { anchor: 0, head: 0 }],
            r.wf(0),
    {
        let mut cursors: Vec<Cursor> = Vec::new();
        cursors.push(Cursor { anchor: 0, head: 0 });
        Selection { cursors }
    }

    /// Remap every cursor through one accepted edit. Afterwards every cursor
    /// lies within the new content.
    pub fn remap(&mut self, edit: &TextEdit, old_len: usize)
        requires
            old(self).wf(old_len as nat),
            edit.applies_to(old_len as nat),
            edit.new_len(old_len as int) <= usize::MAX,
        ensures
            final(self).cursors@.len() == old(self).cursors@.len(),
            forall|i: int|
                0 <= i < old(self).cursors@.len() ==> final(self).cursors@[i] == (
                #[trigger] old(self).cursors@[i]).remap_spec(*edit),
            final(self).wf(edit.new_len(old_len as int) as nat),
    {
        let n = self.cursors.len();
        let mut out: Vec<Cursor> = Vec::new();
        let mut i: usize = 0;
        while i < n
            invariant
                n == self.cursors@.len(),
                i <= n,
                self.wf(old_len as nat),
                edit.applies_to(old_len as nat),
                edit.new_len(old_len as int) <= usize::MAX,
                out@.len() == i,
                forall|k: int|
                    0 <= k < i ==> out@[k] == (#[trigger] self.cursors@[k]).remap_spec(*edit),
            decreases n - i,
        {
            let c = self.cursors[i];
            proof {
                crate::text_range::lemma_translate_offset_in_bounds(
                    c.anchor as int,
                    *edit,
                    old_len as int,
                );
                crate::text_range::lemma_translate_offset_in_bounds(
                    c.head as int,
                    *edit,
                    old_len as int,
                );
            }
            let anchor = translate_offset(c.anchor, edit);
            let head = translate_offset(c.head, edit);
            out.push(Cursor { anchor, head });
            i = i + 1;
        }
        self.cursors = out;
        proof {
            let fin = final(self).cursors@;
            assert forall|i2: int|
                0 <= i2 < fin.len() implies (#[trigger] fin[i2]).within(
                edit.new_len(old_len as int) as nat,
            ) by {
                crate::text_range::lemma_translate_offset_in_bounds(
                    old(self).cursors@[i2].anchor as int,
                    *edit,
                    old_len as int,
                );
                crate::text_range::lemma_translate_offset_in_bounds(
                    old(self).cursors@[i2].head as int,
                    *edit,
                    old_len as int,
                );
            }
        }
    }
}

/// Index of the first block of `children` whose range covers offset `o`, or
/// `-1` when none does.
pub open spec fn first_covering(children: Seq<BlockView>, o: int) -> int
    decreases children,
{
    if children.len() == 0 {
        -1
    } else if children[0].range.covers(o) {
        0
    } else {
        let r = first_covering(children.drop_first(), o);
        if r == -1 {
            -1
        } else {
            r + 1
        }
    }
}

/// `first_covering` names the index a left-to-right scan stops at.
proof fn lemma_first_covering_is(children: Seq<BlockView>, o: int, j: int)
    requires
        0 <= j <= children.len(),
        forall|k: int| 0 <= k < j ==> !(#[trigger] children[k]).range.covers(o),
        j < children.len() ==> children[j].range.covers(o),
    ensures
        first_covering(children, o) == if j == children.len() {
            -1int
        } else {
            j
        },
    decreases j,
{
    if children.len() == 0 {
    } else if j == 0 {
    } else {
        let rest = children.drop_first();
        assert(forall|k: int| 0 <= k < rest.len() ==> rest[k] == children[k + 1]);
        lemma_first_covering_is(rest, o, j - 1);
    }
}

/// `first_covering` returns `-1` or a valid index.
pub proof fn lemma_first_covering_bounds(children: Seq<BlockView>, o: int)
    ensures
        first_covering(children, o) == -1 || (0 <= first_covering(children, o)
            < children.len() && children[first_covering(children, o)].range.covers(o)),
    decreases children,
{
    if children.len() > 0 && !children[0].range.covers(o) {
        lemma_first_covering_bounds(children.drop_first(), o);
    }
}

/// Range of the smallest block containing offset `o`: descend from `fb`
/// (the enclosing range so far) into the first covering child, as long as
/// one exists.
pub open spec fn enclosing_in(children: Seq<BlockView>, fb: TextRange, o: int) -> TextRange
    decreases children,
{
    if children.len() == 0 {
        fb
    } else if children[0].range.covers(o) {
        enclosing_in(children[0].children, children[0].range, o)
    } else {
        enclosing_in(children.drop_first(), fb, o)
    }
}

/// Descending past the first `j` non-covering children changes nothing.
proof fn lemma_enclosing_skip(children: Seq<BlockView>, fb: TextRange, o: int, j: int)
    requires
        0 <= j <= children.len(),
        forall|k: int| 0 <= k < j ==> !(#[trigger] children[k]).range.covers(o),
    ensures
        j == children.len() ==> enclosing_in(children, fb, o) == fb,
        j < children.len() && children[j].range.covers(o) ==> enclosing_in(children, fb, o)
            == enclosing_in(children[j].children, children[j].range, o),
    decreases j,
{
    if children.len() == 0 {
    } else if j == 0 {
    } else {
        let rest = children.drop_first();
        assert(forall|k: int| 0 <= k < rest.len() ==> rest[k] == children[k + 1]);
        lemma_enclosing_skip(rest, fb, o, j - 1);
    }
}

/// When nothing covers `o`, the search reports no index.
proof fn lemma_first_covering_none(children: Seq<BlockView>, o: int)
    requires
        first_covering(children, o) == -1,
    ensures
        forall|k: int| 0 <= k < children.len() ==> !(#[trigger] children[k]).range.covers(o),
    decreases children,
{
    if children.len() > 0 {
        let rest = children.drop_first();
        lemma_first_covering_bounds(rest, o);
        lemma_first_covering_none(rest, o);
        assert(forall|k: int| 0 <= k < rest.len() ==> rest[k] == children[k + 1]);
        assert forall|k: int|
            0 <= k < children.len() implies !(#[trigger] children[k]).range.covers(o) by {
            if k > 0 {
                assert(rest[k - 1] == children[k]);
                assert(!rest[k - 1].range.covers(o));
            }
        }
    }
}

/// The found index is the first: nothing before it covers `o`.
proof fn lemma_first_covering_prefix(children: Seq<BlockView>, o: int)
    requires
        first_covering(children, o) >= 0,
    ensures
        forall|k: int|
            0 <= k < first_covering(children, o) ==> !(#[trigger] children[k]).range.covers(o),
    decreases children,
{
    if children.len() > 0 && !children[0].range.covers(o) {
        let rest = children.drop_first();
        lemma_first_covering_bounds(rest, o);
        lemma_first_covering_prefix(rest, o);
        assert(forall|k: int| 0 <= k < rest.len() ==> rest[k] == children[k + 1]);
        let j = first_covering(children, o);
        assert(j == first_covering(rest, o) + 1);
        assert forall|k: int| 0 <= k < j implies !(#[trigger] children[k]).range.covers(o) by {
            if k > 0 {
                assert(rest[k - 1] == children[k]);
                assert(!rest[k - 1].range.covers(o));
            }
        }
    }
}

/// `b` is one of the blocks of the tree rooted at `root`.
pub open spec fn in_block_tree(b: BlockView, root: BlockView) -> bool
    decreases root,
{
    b == root || exists|i: int|
        0 <= i < root.children.len() && in_block_tree(b, #[trigger] root.children[i])
}

/// Every block of a well-formed tree is well-formed and spans a subrange of
/// the root's range.
proof fn lemma_in_tree_inside(b: BlockView, root: BlockView)
    requires
        root.wf(),
        in_block_tree(b, root),
    ensures
        b.wf(),
        b.range.inside(root.range),
    decreases root,
{
    if b != root {
        let i = choose|i: int|
            0 <= i < root.children.len() && in_block_tree(b, #[trigger] root.children[i]);
        lemma_in_tree_inside(b, root.children[i]);
    }
}

/// The enclosing range never leaves the range it starts from.
proof fn lemma_enclosing_inside(children: Seq<BlockView>, fb: TextRange, o: int)
    requires
        forall|k: int| 0 <= k < children.len() ==> (#[trigger] children[k]).wf(),
        forall|k: int| 0 <= k < children.len() ==> (#[trigger] children[k]).range.inside(fb),
    ensures
        enclosing_in(children, fb, o).inside(fb),
    decreases children,
{
    if children.len() > 0 {
        if children[0].range.covers(o) {
            let c = children[0];
            assert(forall|k: int| 0 <= k < c.children.len() ==> (#[trigger] c.children[k]).wf());
            lemma_enclosing_inside(c.children, c.range, o);
        } else {
            let rest = children.drop_first();
            assert(forall|k: int| 0 <= k < rest.len() ==> rest[k] == children[k + 1]);
            lemma_enclosing_inside(rest, fb, o);
        }
    }
}

/// In an ordered run of well-formed sibling blocks, earlier blocks end
/// before later ones start: at most one sibling covers any offset.
proof fn lemma_block_sibling_chain(s: Seq<BlockView>, i: int, j: int)
    requires
        forall|k: int| 0 <= k < s.len() ==> (#[trigger] s[k]).wf(),
        forall|k: int|
            0 <= k && k + 1 < s.len() ==> (#[trigger] s[k]).range.end <= s[k + 1].range.start,
        0 <= i < j < s.len(),
    ensures
        s[i].range.end <= s[j].range.start,
    decreases j - i,
{
    if i + 1 < j {
        assert(s[i + 1].wf());
        lemma_block_sibling_chain(s, i + 1, j);
    }
}

/// Law: in a well-formed block tree the enclosing range is the smallest one.
/// Every block of the tree whose range covers the offset contains the range
/// that `expand_to_block` returns.
#[verifier::rlimit(50)]
pub proof fn lemma_enclosing_is_smallest(root: BlockView, o: int)
    requires
        root.wf(),
    ensures
        forall|b: BlockView|
            #[trigger] in_block_tree(b, root) && b.range.covers(o) ==> enclosing_in(
                root.children,
                root.range,
                o,
            ).inside(b.range),
    decreases root,
{
    let r = enclosing_in(root.children, root.range, o);
    let j = first_covering(root.children, o);
    lemma_first_covering_bounds(root.children, o);
    assert(forall|k: int| 0 <= k < root.children.len() ==> (#[trigger] root.children[k]).wf());
    lemma_enclosing_inside(root.children, root.range, o);
    assert forall|b: BlockView|
        #[trigger] in_block_tree(b, root) && b.range.covers(o) implies r.inside(b.range) by {
        if b == root {
        } else {
            let i = choose|i: int|
                0 <= i < root.children.len() && in_block_tree(b, #[trigger] root.children[i]);
            lemma_in_tree_inside(b, root.children[i]);
            assert(root.children[i].range.covers(o));
            if j == -1 {
                lemma_first_covering_none(root.children, o);
                assert(false);
            } else {
                if i != j {
                    lemma_first_covering_prefix(root.children, o);
                    if i < j {
                        lemma_block_sibling_chain(root.children, i, j);
                    } else {
                        lemma_block_sibling_chain(root.children, j, i);
                    }
                    assert(false);
                }
                let c = root.children[j];
                lemma_first_covering_prefix(root.children, o);
                lemma_enclosing_skip(root.children, root.range, o, j);
                assert(r == enclosing_in(c.children, c.range, o));
                lemma_enclosing_is_smallest(c, o);
                assert(in_block_tree(b, c) && b.range.covers(o) ==> enclosing_in(
                    c.children,
                    c.range,
                    o,
                ).inside(b.range));
            }
        }
    }
}

/// Boundary offset reached by moving from the deepest block covering `o` to
/// one of its sibling blocks: the previous or next sibling's start offset.
/// With no sibling in that direction the motion stops at the current block's
/// own boundary, and with no block covering `o` at all it stops at a
/// boundary of the enclosing range `fb`.
pub open spec fn sibling_boundary_in(
    children: Seq<BlockView>,
    fb: TextRange,
    o: int,
    next: bool,
) -> int
    decreases children,
    via sibling_boundary_in_dec
{
    let j = first_covering(children, o);
    if j == -1 {
        if next {
            fb.end as int
        } else {
            fb.start as int
        }
    } else if first_covering(children[j].children, o) != -1 {
        sibling_boundary_in(children[j].children, children[j].range, o, next)
    } else if next {
        if j + 1 < children.len() {
            children[j + 1].range.start as int
        } else {
            children[j].range.end as int
        }
    } else {
        if j > 0 {
            children[j - 1].range.start as int
        } else {
            children[j].range.start as int
        }
    }
}

#[via_fn]
proof fn sibling_boundary_in_dec(children: Seq<BlockView>, fb: TextRange, o: int, next: bool) {
    lemma_first_covering_bounds(children, o);
}

/// Index of the first child block of `b` covering `offset`, if any.
pub fn covering_child_index(b: &Block, offset: usize) -> (r: Option<usize>)
    ensures
        match r {
            Some(j) => j < b.children@.len() && j == first_covering(
                crate::blocks::models_of(b.children@),
                offset as int,
            ),
            None => first_covering(crate::blocks::models_of(b.children@), offset as int) == -1,
        },
{
    let ghost kids = crate::blocks::models_of(b.children@);
    let mut j: usize = 0;
    while j < b.children.len()
        invariant
            j <= b.children@.len(),
            kids == crate::blocks::models_of(b.children@),
            forall|k: int| 0 <= k < j ==> !(#[trigger] kids[k]).range.covers(offset as int),
        decreases b.children@.len() - j,
    {
        let c = &b.children[j];
        proof {
            assert(kids[j as int] == c.model());
        }
        if c.range.start <= offset && offset < c.range.end {
            proof {
                lemma_first_covering_is(kids, offset as int, j as int);
            }
            return Some(j);
        }
        j = j + 1;
    }
    proof {
        lemma_first_covering_is(kids, offset as int, b.children@.len() as int);
    }
    None
}

/// Move block-wise: land on the start of the previous or next sibling of
/// the deepest block containing the cursor, or on the current block's own
/// boundary when there is no such sibling.
pub fn move_to_sibling(root: &Block, offset: usize, next: bool) -> (r: usize)
    ensures
        r == sibling_boundary_in(
            crate::blocks::models_of(root.children@),
            root.range,
            offset as int,
            next,
        ),
    decreases *root,
{
    let ghost kids = crate::blocks::models_of(root.children@);
    match covering_child_index(root, offset) {
        None => {
            if next {
                root.range.end
            } else {
                root.range.start
            }
        },
        Some(j) => {
            let c = &root.children[j];
            proof {
                assert(kids[j as int] == c.model());
                assert(kids[j as int].children =~= crate::blocks::models_of(c.children@));
            }
            match covering_child_index(c, offset) {
                Some(_) => move_to_sibling(c, offset, next),
                None => {
                    if next {
                        if j < root.children.len() - 1 {
                            let nxt = &root.children[j + 1];
                            proof {
                                assert(kids[j + 1] == nxt.model());
                            }
                            nxt.range.start
                        } else {
                            c.range.end
                        }
                    } else {
                        if j > 0 {
                            let prv = &root.children[j - 1];
                            proof {
                                assert(kids[j - 1] == prv.model());
                            }
                            prv.range.start
                        } else {
                            c.range.start
                        }
                    }
                },
            }
        },
    }
}

/// Range of the smallest block of the tree under `root` whose range covers
/// the cursor offset; the root's own range when no nested block covers it.
pub fn expand_to_block(root: &Block, offset: usize) -> (r: TextRange)
    ensures
        r == enclosing_in(crate::blocks::models_of(root.children@), root.range, offset as int),
    decreases *root,
{
    let ghost kids = crate::blocks::models_of(root.children@);
    let mut j: usize = 0;
    while j < root.children.len()
        invariant
            j <= root.children@.len(),
            kids == crate::blocks::models_of(root.children@),
            forall|k: int| 0 <= k < j ==> !(#[trigger] kids[k]).range.covers(offset as int),
        decreases root.children@.len() - j,
    {
        let c = &root.children[j];
        if c.range.start <= offset && offset < c.range.end {
            proof {
                assert(kids[j as int] == c.model());
                lemma_enclosing_skip(kids, root.range, offset as int, j as int);
                assert(kids[j as int].children =~= crate::blocks::models_of(c.children@));
            }
            return expand_to_block(c, offset);
        }
        proof {
            assert(kids[j as int] == c.model());
        }
        j = j + 1;
    }
    proof {
        lemma_enclosing_skip(kids, root.range, offset as int, root.children@.len() as int);
    }
    root.range
}

} // verus!
