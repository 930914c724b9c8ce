//! The edit coordinator: the single synchronization point through which
//! every edit flows. It applies the edit to the buffer, refreshes the tree
//! cache, rebuilds the block layout, and remaps selection and diagnostics,
//! in that fixed order, so no consumer ever observes a buffer version
//! inconsistent with its own state.

use vstd::prelude::*;

use crate::blocks::{project, project_spec, Block};
use crate::buffer::{slice_text, Buffer, RangeError};
use crate::diagnostics::{
    keep_within_spec, models_of_diags, remap_diags_spec, Diagnostic, DiagnosticsOverlay,
    HostCommand,
};
use crate::selection::{Cursor, Selection};
use crate::text_range::{offset_to_line_col, LineCol, TextEdit, TextRange};
use crate::tree::{SyntaxNode, TreeCache};

verus! {

/// What the host is told after an edit was accepted: where the replaced span
/// began, where it ended in the old content, and where the inserted text
/// ends in the new content.
#[derive(Clone, Copy, PartialEq, Eq, Structural, Debug)]
pub struct EditedNotice {
    pub start: LineCol,
    pub old_end: LineCol,
    pub new_end: LineCol,
}

/// Content after moving the span `source` in front of offset `dest` (which
/// must not fall inside `source`).
pub open spec fn move_text_spec(content: Seq<char>, source: TextRange, dest: int) -> Seq<char> {
    let piece = content.subrange(source.start as int, source.end as int);
    let gone = content.subrange(0, source.start as int) + content.subrange(
        source.end as int,
        content.len() as int,
    );
    let d2 = if dest <= source.start {
        dest
    } else {
        dest - source.width()
    };
    gone.subrange(0, d2) + piece + gone.subrange(d2, gone.len() as int)
}

/// The one `TextEdit` that moves the span `source` in front of offset
/// `dest`: it rewrites only the span between the two, so the move is a
/// single atomic buffer transition.
pub fn drag_edit(content: &Vec<char>, source: TextRange, dest: usize) -> (r: TextEdit)
    requires
        source.within(content@.len()),
        dest <= content@.len(),
        dest <= source.start || dest >= source.end,
    ensures
        r.applies_to(content@.len()),
        r.apply_spec(content@) == move_text_spec(content@, source, dest as int),
        r.new_len(content@.len() as int) == content@.len(),
{
    let piece = slice_text(content, source);
    if dest <= source.start {
        let between = slice_text(content, TextRange { start: dest, end: source.start });
        let mut new_text = piece;
        let mut tail = between;
        new_text.append(&mut tail);
        let r = TextEdit { range: TextRange { start: dest, end: source.end }, new_text };
        proof {
            assert(r.apply_spec(content@) =~= move_text_spec(content@, source, dest as int));
        }
        r
    } else {
        let between = slice_text(content, TextRange { start: source.end, end: dest });
        let mut new_text = between;
        let mut tail = piece;
        new_text.append(&mut tail);
        let r = TextEdit { range: TextRange { start: source.start, end: dest }, new_text };
        proof {
            assert(r.apply_spec(content@) =~= move_text_spec(content@, source, dest as int));
        }
        r
    }
}

/// The synchronization engine: buffer, tree cache, block layout, selection,
/// and diagnostics overlay, always consistent with one buffer version.
pub struct EditCoordinator {
    pub buffer: Buffer,
    pub cache: TreeCache,
    pub blocks: Block,
    pub selection: Selection,
    pub overlay: DiagnosticsOverlay,
    pub worthy: Vec<u64>,
}

impl EditCoordinator {
    /// Consistency of the whole snapshot: the cached tree belongs to the
    /// current buffer version and spans the current content, the block
    /// layout is exactly the projection of that tree, and every cursor and
    /// diagnostic range lies within the current content.
    pub open spec fn wf(self) -> bool {
        &&& self.cache.version == self.buffer.version
        &&& self.cache.wf(self.buffer.content@.len())
        &&& self.blocks.model() == project_spec(self.cache.tree, self.worthy@)
        &&& self.selection.wf(self.buffer.content@.len())
        &&& self.overlay.wf(self.buffer.content@.len())
    }

    /// An empty document: one caret at offset zero, a degenerate tree, no
    /// diagnostics. `worthy` lists the block-worthy node kinds of the
    /// language in use.
    pub fn new(worthy: Vec<u64>) -> (r: EditCoordinator)
        ensures
            r.wf(),
            r.buffer.content@.len() == 0,
            r.buffer.version == 0,
            r.worthy@ == worthy@,
    {
        let buffer = Buffer::new();
        let cache = TreeCache::new(0, 0);
        let blocks = project(&cache.tree, &worthy);
        EditCoordinator {
            buffer,
            cache,
            blocks,
            selection: Selection::new(),
            overlay: DiagnosticsOverlay::new(),
            worthy,
        }
    }

    /// Apply one edit derived against buffer version `base_version`;
    /// `candidate` is whatever tree the parser capability produced for the
    /// content after the edit (`None` when no parse is available).
    ///
    /// The edit is accepted exactly when its base version is current and its
    /// range fits the content. On acceptance the buffer changes as the edit
    /// says and the version increases by one; the tree, blocks, selection
    /// and diagnostics all move to the new version in one step, and the
    /// returned notice carries the line/column deltas the host mirrors.
    /// A stale or out-of-range edit is rejected with `RangeError` and
    /// changes nothing.
    pub fn apply_edit(
        &mut self,
        edit: &TextEdit,
        base_version: u64,
        candidate: Option<SyntaxNode>,
    ) -> (r: Result<EditedNotice, RangeError>)
        requires
            old(self).wf(),
            old(self).buffer.version < u64::MAX,
        ensures
            final(self).wf(),
            r is Ok <==> base_version == old(self).buffer.version && edit.applies_to(
                old(self).buffer.content@.len(),
            ),
            r is Err ==> *final(self) == *old(self),
            r is Ok ==> final(self).buffer.content@ == edit.apply_spec(
                old(self).buffer.content@,
            ) && final(self).buffer.version == old(self).buffer.version + 1,
            r is Ok ==> final(self).selection.cursors@.len() == old(
                self,
            ).selection.cursors@.len() && forall|i: int|
                0 <= i < old(self).selection.cursors@.len() ==> final(self).selection.cursors@[i]
                    == (#[trigger] old(self).selection.cursors@[i]).remap_spec(*edit),
            r is Ok ==> models_of_diags(final(self).overlay.diagnostics@) == remap_diags_spec(
                models_of_diags(old(self).overlay.diagnostics@),
                *edit,
            ),
            r is Ok ==> (candidate matches Some(t) ==> (crate::tree::TreeCache::accepts(
                t,
                edit.new_len(old(self).buffer.content@.len() as int) as nat,
            ) ==> final(self).cache.tree == t)),
            r matches Ok(n) ==> {
                let oldc = old(self).buffer.content@;
                let newc = edit.apply_spec(oldc);
                &&& n.start.line == crate::text_range::line_of(oldc, edit.range.start as int)
                &&& n.start.col == crate::text_range::col_of(oldc, edit.range.start as int)
                &&& n.old_end.line == crate::text_range::line_of(oldc, edit.range.end as int)
                &&& n.old_end.col == crate::text_range::col_of(oldc, edit.range.end as int)
                &&& n.new_end.line == crate::text_range::line_of(
                    newc,
                    edit.range.start + edit.new_text@.len(),
                )
                &&& n.new_end.col == crate::text_range::col_of(
                    newc,
                    edit.range.start + edit.new_text@.len(),
                )
            },
    {
        if base_version != self.buffer.version {
            return Err(RangeError);
        }
        if !(edit.range.start <= edit.range.end && edit.range.end <= self.buffer.len()) {
            return Err(RangeError);
        }
        let old_len = self.buffer.len();
        let start_lc = offset_to_line_col(&self.buffer.content, edit.range.start);
        let old_end_lc = offset_to_line_col(&self.buffer.content, edit.range.end);
        match self.buffer.apply(edit) {
            Ok(_) => {},
            Err(_) => {
                proof {
                    assert(false);
                }
                return Err(RangeError);
            },
        }
        let new_len = self.buffer.len();
        proof {
            assert(edit.new_len(old_len as int) == new_len as int);
        }
        self.cache.refresh(candidate, new_len, self.buffer.version);
        self.blocks = project(&self.cache.tree, &self.worthy);
        self.selection.remap(edit, old_len);
        self.overlay.remap(edit, old_len);
        let new_end_lc = offset_to_line_col(&self.buffer.content, edit.range.start
            + edit.new_text.len());
        Ok(EditedNotice { start: start_lc, old_end: old_end_lc, new_end: new_end_lc })
    }

    /// Replace the whole content, as the host's full-text push does. This is
    /// the full-range edit: every cursor collapses to the start, every
    /// diagnostic inside the old content is dropped, and the tree is rebuilt
    /// for the new content.
    pub fn set_text(&mut self, text: Vec<char>, candidate: Option<SyntaxNode>) -> (r: EditedNotice)
        requires
            old(self).wf(),
            old(self).buffer.version < u64::MAX,
        ensures
            final(self).wf(),
            final(self).buffer.content@ == text@,
            final(self).buffer.version == old(self).buffer.version + 1,
            final(self).selection.cursors@.len() == old(self).selection.cursors@.len(),
            forall|i: int|
                0 <= i < old(self).selection.cursors@.len() ==> final(self).selection.cursors@[i]
                    == (Cursor {
                    anchor: (if (#[trigger] old(self).selection.cursors@[i]).anchor >= old(
                        self,
                    ).buffer.content@.len() {
                        text@.len() as usize
                    } else {
                        0
                    }),
                    head: (if old(self).selection.cursors@[i].head >= old(
                        self,
                    ).buffer.content@.len() {
                        text@.len() as usize
                    } else {
                        0
                    }),
                }),
            exists|e: TextEdit|
                e.range.start == 0 && e.range.end == old(self).buffer.content@.len()
                    && e.new_text@ == text@ && models_of_diags(final(self).overlay.diagnostics@)
                    == #[trigger] remap_diags_spec(
                    models_of_diags(old(self).overlay.diagnostics@),
                    e,
                ),
    {
        let old_len = self.buffer.len();
        let edit = TextEdit { range: TextRange { start: 0, end: old_len }, new_text: text };
        let r = self.apply_edit(&edit, self.buffer.version, candidate);
        proof {
            assert(edit.apply_spec(old(self).buffer.content@) =~= edit.new_text@);
            let fin_cursors = final(self).selection.cursors@;
            assert forall|i: int|
                0 <= i < old(self).selection.cursors@.len() implies fin_cursors[i] == (Cursor {
                anchor: (if (#[trigger] old(self).selection.cursors@[i]).anchor >= old(
                    self,
                ).buffer.content@.len() {
                    edit.new_text@.len() as usize
                } else {
                    0
                }),
                head: (if old(self).selection.cursors@[i].head >= old(
                    self,
                ).buffer.content@.len() {
                    edit.new_text@.len() as usize
                } else {
                    0
                }),
            }) by {
                let c = old(self).selection.cursors@[i];
                assert(c.within(old(self).buffer.content@.len()));
                assert(fin_cursors[i] == c.remap_spec(edit));
            }
        }
        match r {
            Ok(n) => n,
            Err(_) => {
                proof {
                    assert(false);
                }
                EditedNotice {
                    start: LineCol { line: 0, col: 0 },
                    old_end: LineCol { line: 0, col: 0 },
                    new_end: LineCol { line: 0, col: 0 },
                }
            },
        }
    }

    /// Replace the diagnostics overlay with the host's new push. Entries
    /// whose ranges do not resolve against the current content are dropped;
    /// nothing else changes (no buffer mutation, no version step).
    pub fn set_diagnostics(&mut self, diags: Vec<Diagnostic>)
        requires
            old(self).wf(),
        ensures
            final(self).wf(),
            models_of_diags(final(self).overlay.diagnostics@) == keep_within_spec(
                models_of_diags(diags@),
                old(self).buffer.content@.len(),
            ),
            final(self).buffer.content@ == old(self).buffer.content@,
            final(self).buffer.version == old(self).buffer.version,
            final(self).cache == old(self).cache,
            final(self).blocks == old(self).blocks,
            final(self).selection == old(self).selection,
    {
        let len = self.buffer.len();
        self.overlay.set(diags, len);
    }

    /// Move the span `source` (a block's full range) in front of offset
    /// `dest`, as one atomic coordinator step: one buffer transition, one
    /// version increase, no externally observable intermediate state.
    /// Rejected with `RangeError` when `source` does not fit the content or
    /// `dest` falls inside it.
    pub fn drag_block(
        &mut self,
        source: TextRange,
        dest: usize,
        candidate: Option<SyntaxNode>,
    ) -> (r: Result<EditedNotice, RangeError>)
        requires
            old(self).wf(),
            old(self).buffer.version < u64::MAX,
        ensures
            final(self).wf(),
            r is Ok <==> source.within(old(self).buffer.content@.len()) && dest <= old(
                self,
            ).buffer.content@.len() && (dest <= source.start || dest >= source.end),
            r is Err ==> *final(self) == *old(self),
            r is Ok ==> final(self).buffer.content@ == move_text_spec(
                old(self).buffer.content@,
                source,
                dest as int,
            ) && final(self).buffer.version == old(self).buffer.version + 1,
            r is Ok ==> final(self).selection.cursors@.len() == old(
                self,
            ).selection.cursors@.len(),
    {
        if !(source.start <= source.end && source.end <= self.buffer.len() && dest
            <= self.buffer.len() && (dest <= source.start || dest >= source.end)) {
            return Err(RangeError);
        }
        let edit = drag_edit(&self.buffer.content, source, dest);
        let r = self.apply_edit(&edit, self.buffer.version, candidate);
        match r {
            Ok(n) => Ok(n),
            Err(_) => {
                proof {
                    assert(false);
                }
                Err(RangeError)
            },
        }
    }

    /// The text under the active (first) cursor's selection; empty when
    /// there is no cursor. This is what copy and cut hand to the clipboard.
    pub fn selected_text(&self) -> (r: Vec<char>)
        requires
            self.wf(),
        ensures
            self.selection.cursors@.len() == 0 ==> r@ == Seq::<char>::empty(),
            self.selection.cursors@.len() > 0 ==> r@ == self.buffer.content@.subrange(
                self.selection.cursors@[0].span_spec().start as int,
                self.selection.cursors@[0].span_spec().end as int,
            ),
    {
        if self.selection.cursors.len() == 0 {
            Vec::new()
        } else {
            let c = self.selection.cursors[0];
            proof {
                assert(self.selection.cursors@[0].within(self.buffer.content@.len()));
            }
            slice_text(&self.buffer.content, c.span())
        }
    }

    /// Paste: replace the active cursor's selection with the clipboard text,
    /// through the ordinary edit path. Rejected when there is no cursor.
    pub fn paste(&mut self, clip: Vec<char>, candidate: Option<SyntaxNode>) -> (r: Result<
        EditedNotice,
        RangeError,
    >)
        requires
            old(self).wf(),
            old(self).buffer.version < u64::MAX,
        ensures
            final(self).wf(),
            r is Ok <==> old(self).selection.cursors@.len() > 0,
            r is Err ==> *final(self) == *old(self),
            r is Ok ==> final(self).buffer.content@ == old(self).buffer.content@.subrange(
                0,
                old(self).selection.cursors@[0].span_spec().start as int,
            ) + clip@ + old(self).buffer.content@.subrange(
                old(self).selection.cursors@[0].span_spec().end as int,
                old(self).buffer.content@.len() as int,
            ) && final(self).buffer.version == old(self).buffer.version + 1,
    {
        if self.selection.cursors.len() == 0 {
            return Err(RangeError);
        }
        let c = self.selection.cursors[0];
        proof {
            assert(old(self).selection.cursors@[0].within(old(self).buffer.content@.len()));
        }
        let edit = TextEdit { range: c.span(), new_text: clip };
        match self.apply_edit(&edit, self.buffer.version, candidate) {
            Ok(n) => Ok(n),
            Err(_) => {
                proof {
                    assert(false);
                }
                Err(RangeError)
            },
        }
    }

    /// Cut: hand back the active selection's text and remove it from the
    /// buffer, as one edit. Rejected when there is no cursor.
    pub fn cut(&mut self, candidate: Option<SyntaxNode>) -> (r: Result<
        (Vec<char>, EditedNotice),
        RangeError,
    >)
        requires
            old(self).wf(),
            old(self).buffer.version < u64::MAX,
        ensures
            final(self).wf(),
            r is Ok <==> old(self).selection.cursors@.len() > 0,
            r is Err ==> *final(self) == *old(self),
            r matches Ok(p) ==> p.0@ == old(self).buffer.content@.subrange(
                old(self).selection.cursors@[0].span_spec().start as int,
                old(self).selection.cursors@[0].span_spec().end as int,
            ) && final(self).buffer.content@ == old(self).buffer.content@.subrange(
                0,
                old(self).selection.cursors@[0].span_spec().start as int,
            ) + old(self).buffer.content@.subrange(
                old(self).selection.cursors@[0].span_spec().end as int,
                old(self).buffer.content@.len() as int,
            ) && final(self).buffer.version == old(self).buffer.version + 1,
    {
        if self.selection.cursors.len() == 0 {
            return Err(RangeError);
        }
        let piece = self.selected_text();
        let c = self.selection.cursors[0];
        proof {
            assert(old(self).selection.cursors@[0].within(old(self).buffer.content@.len()));
        }
        let edit = TextEdit { range: c.span(), new_text: Vec::new() };
        match self.apply_edit(&edit, self.buffer.version, candidate) {
            Ok(n) => Ok((piece, n)),
            Err(_) => {
                proof {
                    assert(false);
                }
                Err(RangeError)
            },
        }
    }

    /// The quick fixes to surface at `offset`: those of every diagnostic
    /// covering it, ordered by range start and severity.
    pub fn fixes_at(&self, offset: usize) -> (r: Vec<HostCommand>)
        ensures
            crate::diagnostics::models_of_cmds(r@) == crate::diagnostics::fixes_at_spec(
                models_of_diags(self.overlay.diagnostics@),
                offset as int,
            ),
    {
        self.overlay.fixes_at(offset)
    }
}

} // verus!
