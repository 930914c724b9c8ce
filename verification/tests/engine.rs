use lilypad::blocks::Block;
use lilypad::coordinator::EditCoordinator;
use lilypad::diagnostics::{Diagnostic, HostCommand, Severity};
use lilypad::selection::{expand_to_block, move_to_sibling, Cursor};
use lilypad::text_range::{
    inverse_edit, line_col_to_offset, offset_to_line_col, translate_offset, translate_range,
    TextEdit, TextRange,
};
use lilypad::tree::SyntaxNode;

fn text(s: &str) -> Vec<char> {
    lilypad::buffer::text_of_str(s)
}

fn as_string(v: &[char]) -> String {
    v.iter().collect()
}

fn range(start: usize, end: usize) -> TextRange {
    TextRange { start, end }
}

fn leaf(kind: u64, start: usize, end: usize) -> SyntaxNode {
    SyntaxNode { kind, range: range(start, end), children: Vec::new() }
}

fn node(kind: u64, start: usize, end: usize, children: Vec<SyntaxNode>) -> SyntaxNode {
    SyntaxNode { kind, range: range(start, end), children }
}

const FUNC: u64 = 1;
const STMT: u64 = 2;

fn worthy() -> Vec<u64> {
    vec![FUNC, STMT]
}

fn diag(start: usize, end: usize, severity: Severity, msg: &str, fixes: Vec<&str>) -> Diagnostic {
    Diagnostic {
        range: range(start, end),
        severity,
        message: String::from(msg),
        fixes: fixes
            .into_iter()
            .map(|f| HostCommand { command: String::from(f), arguments: String::new() })
            .collect(),
    }
}

// Scenario: end-of-file insertion widens the enclosing function block while
// the inner statement block keeps its range.
#[test]
fn end_of_file_insertion_widens_function_block() {
    let mut ed = EditCoordinator::new(worthy());
    let before = node(0, 0, 18, vec![node(FUNC, 0, 18, vec![leaf(STMT, 13, 17)])]);
    ed.set_text(text("def f():\n    pass\n"), Some(before));
    let v0 = ed.buffer.version;
    assert_eq!(ed.blocks.children.len(), 1);
    assert_eq!(ed.blocks.children[0].range, range(0, 18));

    let after = node(
        0,
        0,
        31,
        vec![node(FUNC, 0, 31, vec![leaf(STMT, 13, 17), leaf(STMT, 22, 30)])],
    );
    let edit = TextEdit { range: range(18, 18), new_text: text("    return 1\n") };
    let notice = ed.apply_edit(&edit, v0, Some(after)).unwrap();

    assert_eq!(as_string(&ed.buffer.content), "def f():\n    pass\n    return 1\n");
    assert_eq!(ed.buffer.version, v0 + 1);
    let func: &Block = &ed.blocks.children[0];
    assert_eq!(func.range, range(0, 31));
    assert_eq!(func.children[0].range, range(13, 17));
    assert_eq!(notice.start.line, 2);
    assert_eq!(notice.start.col, 0);
    assert_eq!(notice.old_end.line, 2);
    assert_eq!(notice.new_end.line, 3);
    assert_eq!(notice.new_end.col, 0);
}

// Scenario: dragging the first block after its sibling happens in one atomic
// coordinator step: one version increase, no intermediate state.
#[test]
fn drag_block_is_one_atomic_step() {
    let mut ed = EditCoordinator::new(worthy());
    ed.set_text(text("x = 1\ny = 2\n"), None);
    let v = ed.buffer.version;
    ed.drag_block(range(0, 6), 12, None).unwrap();
    assert_eq!(as_string(&ed.buffer.content), "y = 2\nx = 1\n");
    assert_eq!(ed.buffer.version, v + 1);
}

#[test]
fn drag_block_backwards() {
    let mut ed = EditCoordinator::new(worthy());
    ed.set_text(text("x = 1\ny = 2\n"), None);
    ed.drag_block(range(6, 12), 0, None).unwrap();
    assert_eq!(as_string(&ed.buffer.content), "y = 2\nx = 1\n");
}

#[test]
fn drag_block_into_itself_is_rejected() {
    let mut ed = EditCoordinator::new(worthy());
    ed.set_text(text("x = 1\ny = 2\n"), None);
    assert!(ed.drag_block(range(0, 6), 3, None).is_err());
    assert_eq!(as_string(&ed.buffer.content), "x = 1\ny = 2\n");
}

// Scenario: a cursor after the edited span shifts by the length delta; a
// same-length replacement leaves it in place.
#[test]
fn cursor_after_same_length_replacement_stays() {
    let edit = TextEdit { range: range(6, 8), new_text: text("'y") };
    assert_eq!(translate_offset(12, &edit), 12);
}

#[test]
fn cursor_shifts_by_length_delta() {
    let edit = TextEdit { range: range(2, 4), new_text: text("abcde") };
    assert_eq!(translate_offset(10, &edit), 13); // after: shifted by +3
    assert_eq!(translate_offset(1, &edit), 1); // before: unchanged
    assert_eq!(translate_offset(3, &edit), 2); // inside: collapses to start
}

// Remapping through two edits lands where the content actually moved.
#[test]
fn remap_composes_over_two_edits() {
    let mut ed = EditCoordinator::new(worthy());
    ed.set_text(text("hello world"), None);
    ed.selection.cursors = vec![Cursor { anchor: 11, head: 11 }];
    let v1 = ed.buffer.version;
    // Insert "!!" at 0, then delete "hello" ([2,7) after the first edit).
    let e1 = TextEdit { range: range(0, 0), new_text: text("!!") };
    ed.apply_edit(&e1, v1, None).unwrap();
    assert_eq!(ed.selection.cursors[0], Cursor { anchor: 13, head: 13 });
    let e2 = TextEdit { range: range(2, 7), new_text: text("") };
    ed.apply_edit(&e2, v1 + 1, None).unwrap();
    assert_eq!(as_string(&ed.buffer.content), "!! world");
    assert_eq!(ed.selection.cursors[0], Cursor { anchor: 8, head: 8 });
}

// Round trip: applying an edit and then its exact inverse restores the
// content, while the version keeps increasing.
#[test]
fn edit_round_trip_restores_content() {
    let mut ed = EditCoordinator::new(worthy());
    ed.set_text(text("fn main() {}"), None);
    let v = ed.buffer.version;
    let edit = TextEdit { range: range(3, 7), new_text: text("start") };
    let inverse = inverse_edit(&ed.buffer.content, &edit);
    ed.apply_edit(&edit, v, None).unwrap();
    assert_eq!(as_string(&ed.buffer.content), "fn start() {}");
    ed.apply_edit(&inverse, v + 1, None).unwrap();
    assert_eq!(as_string(&ed.buffer.content), "fn main() {}");
    assert_eq!(ed.buffer.version, v + 2);
}

#[test]
fn stale_version_is_rejected() {
    let mut ed = EditCoordinator::new(worthy());
    ed.set_text(text("abc"), None);
    let v = ed.buffer.version;
    let edit = TextEdit { range: range(0, 1), new_text: text("x") };
    assert!(ed.apply_edit(&edit, v + 1, None).is_err());
    assert!(ed.apply_edit(&edit, v.wrapping_sub(1), None).is_err());
    assert_eq!(as_string(&ed.buffer.content), "abc");
    assert_eq!(ed.buffer.version, v);
}

#[test]
fn out_of_bounds_edit_is_rejected() {
    let mut ed = EditCoordinator::new(worthy());
    ed.set_text(text("abc"), None);
    let v = ed.buffer.version;
    let past_end = TextEdit { range: range(2, 4), new_text: text("x") };
    assert!(ed.apply_edit(&past_end, v, None).is_err());
    let backwards = TextEdit { range: TextRange { start: 2, end: 1 }, new_text: text("x") };
    assert!(ed.apply_edit(&backwards, v, None).is_err());
    assert_eq!(as_string(&ed.buffer.content), "abc");
}

// A diagnostic inside the edited span vanishes; one after it shifts.
#[test]
fn diagnostic_inside_edited_span_is_dropped() {
    let mut ed = EditCoordinator::new(worthy());
    ed.set_text(text("let x = 1;\nlet y = 2;\n"), None);
    ed.set_diagnostics(vec![
        diag(4, 5, Severity::Error, "inside", vec![]),
        diag(15, 16, Severity::Warning, "after", vec![]),
    ]);
    assert_eq!(ed.overlay.diagnostics.len(), 2);
    let v = ed.buffer.version;
    // Replace [0,10) ("let x = 1;") with "pass".
    let edit = TextEdit { range: range(0, 10), new_text: text("pass") };
    ed.apply_edit(&edit, v, None).unwrap();
    assert_eq!(ed.overlay.diagnostics.len(), 1);
    assert_eq!(ed.overlay.diagnostics[0].range, range(9, 10));
    assert_eq!(ed.overlay.diagnostics[0].message, "after");
}

#[test]
fn diagnostic_overlapping_edited_span_is_dropped() {
    let mut ed = EditCoordinator::new(worthy());
    ed.set_text(text("abcdefgh"), None);
    ed.set_diagnostics(vec![diag(2, 6, Severity::Error, "straddles", vec![])]);
    let v = ed.buffer.version;
    let edit = TextEdit { range: range(4, 8), new_text: text("") };
    ed.apply_edit(&edit, v, None).unwrap();
    assert!(ed.overlay.diagnostics.is_empty());
}

#[test]
fn out_of_bounds_diagnostics_are_not_accepted() {
    let mut ed = EditCoordinator::new(worthy());
    ed.set_text(text("ab"), None);
    ed.set_diagnostics(vec![
        diag(0, 1, Severity::Info, "fits", vec![]),
        diag(1, 9, Severity::Error, "stale", vec![]),
    ]);
    assert_eq!(ed.overlay.diagnostics.len(), 1);
    assert_eq!(ed.overlay.diagnostics[0].message, "fits");
}

#[test]
fn fixes_are_ordered_by_start_then_severity() {
    let mut ed = EditCoordinator::new(worthy());
    ed.set_text(text("abcdefghij"), None);
    ed.set_diagnostics(vec![
        diag(2, 9, Severity::Hint, "wide hint", vec!["third"]),
        diag(5, 9, Severity::Warning, "warn", vec!["fifth"]),
        diag(2, 9, Severity::Error, "err", vec!["first", "second"]),
        diag(5, 9, Severity::Error, "late err", vec!["fourth"]),
    ]);
    let fixes = ed.fixes_at(6);
    let got: Vec<String> = fixes.iter().map(|f| f.command.clone()).collect();
    assert_eq!(got, vec!["first", "second", "third", "fourth", "fifth"]);
    assert!(ed.fixes_at(0).is_empty());
}

#[test]
fn set_text_collapses_cursors_and_bumps_version() {
    let mut ed = EditCoordinator::new(worthy());
    ed.set_text(text("abcdef"), None);
    ed.selection.cursors = vec![Cursor { anchor: 2, head: 5 }];
    let v = ed.buffer.version;
    ed.set_text(text("xy"), None);
    assert_eq!(ed.buffer.version, v + 1);
    assert_eq!(ed.selection.cursors[0], Cursor { anchor: 0, head: 0 });
    assert_eq!(as_string(&ed.buffer.content), "xy");
}

#[test]
fn invalid_candidate_tree_falls_back_to_degenerate_root() {
    let mut ed = EditCoordinator::new(worthy());
    // Overlapping siblings break the tree invariant.
    let bad = node(0, 0, 4, vec![leaf(STMT, 0, 3), leaf(STMT, 2, 4)]);
    ed.set_text(text("abcd"), Some(bad));
    assert_eq!(ed.cache.tree.kind, lilypad::tree::ROOT_KIND);
    assert!(ed.cache.tree.children.is_empty());
    assert_eq!(ed.blocks.range, range(0, 4));
    assert!(ed.blocks.children.is_empty());

    // A tree that does not span the buffer is rejected too.
    let short = node(0, 0, 3, vec![]);
    ed.set_text(text("abcd"), Some(short));
    assert!(ed.cache.tree.children.is_empty());
    assert_eq!(ed.cache.tree.range, range(0, 4));
}

#[test]
fn valid_candidate_tree_is_used() {
    let mut ed = EditCoordinator::new(worthy());
    let good = node(0, 0, 4, vec![leaf(STMT, 0, 2), leaf(STMT, 2, 4)]);
    ed.set_text(text("abcd"), Some(good));
    assert_eq!(ed.blocks.children.len(), 2);
    assert_eq!(ed.blocks.children[0].range, range(0, 2));
    assert_eq!(ed.blocks.children[1].range, range(2, 4));
    assert_eq!(ed.blocks.children[0].depth, 1);
}

#[test]
fn non_worthy_nodes_are_skipped_and_descendants_lifted() {
    let mut ed = EditCoordinator::new(worthy());
    // Kind 9 is not block-worthy: its statement children lift to the root.
    let tree = node(
        0,
        0,
        8,
        vec![node(9, 0, 8, vec![leaf(STMT, 0, 4), leaf(STMT, 4, 8)])],
    );
    ed.set_text(text("abcdefgh"), Some(tree));
    assert_eq!(ed.blocks.children.len(), 2);
    assert_eq!(ed.blocks.children[0].range, range(0, 4));
    assert_eq!(ed.blocks.children[1].range, range(4, 8));
}

#[test]
fn expand_to_block_finds_smallest_enclosing_range() {
    let mut ed = EditCoordinator::new(worthy());
    let tree = node(
        0,
        0,
        18,
        vec![node(FUNC, 0, 18, vec![leaf(STMT, 13, 17)])],
    );
    ed.set_text(text("def f():\n    pass\n"), Some(tree));
    assert_eq!(expand_to_block(&ed.blocks, 14), range(13, 17));
    assert_eq!(expand_to_block(&ed.blocks, 2), range(0, 18));
    assert_eq!(expand_to_block(&ed.blocks, 17), range(0, 18));
}

#[test]
fn move_to_sibling_lands_on_block_boundaries() {
    let mut ed = EditCoordinator::new(worthy());
    let tree = node(0, 0, 12, vec![leaf(STMT, 0, 6), leaf(STMT, 6, 12)]);
    ed.set_text(text("x = 1\ny = 2\n"), Some(tree));
    assert_eq!(move_to_sibling(&ed.blocks, 2, true), 6);
    assert_eq!(move_to_sibling(&ed.blocks, 8, false), 0);
    assert_eq!(move_to_sibling(&ed.blocks, 8, true), 12); // no next: own end
    assert_eq!(move_to_sibling(&ed.blocks, 2, false), 0); // no previous: own start
}

#[test]
fn selected_text_reads_the_active_selection() {
    let mut ed = EditCoordinator::new(worthy());
    ed.set_text(text("hello world"), None);
    ed.selection.cursors = vec![Cursor { anchor: 6, head: 11 }];
    assert_eq!(as_string(&ed.selected_text()), "world");
    // A reversed selection reads the same span.
    ed.selection.cursors = vec![Cursor { anchor: 11, head: 6 }];
    assert_eq!(as_string(&ed.selected_text()), "world");
}

#[test]
fn line_col_conversion() {
    let content = text("ab\ncd\n\nef");
    let lc = offset_to_line_col(&content, 0);
    assert_eq!((lc.line, lc.col), (0, 0));
    let lc = offset_to_line_col(&content, 4);
    assert_eq!((lc.line, lc.col), (1, 1));
    let lc = offset_to_line_col(&content, 6);
    assert_eq!((lc.line, lc.col), (2, 0));
    let lc = offset_to_line_col(&content, 9);
    assert_eq!((lc.line, lc.col), (3, 2));
}

#[test]
fn range_translation_policies() {
    let edit = TextEdit { range: range(4, 8), new_text: text("xy") };
    // Fully before: unchanged.
    assert_eq!(translate_range(range(0, 3), &edit), range(0, 3));
    // Fully after: shifted by the length delta (-2).
    assert_eq!(translate_range(range(10, 12), &edit), range(8, 10));
    // Overlapping: collapses to a zero-width range at the edit start.
    assert_eq!(translate_range(range(6, 10), &edit), range(4, 4));
}

#[test]
fn line_col_to_offset_inverts_the_conversion() {
    let content = text("ab\ncd\n\nef");
    assert_eq!(line_col_to_offset(&content, 1, 1), Some(4));
    assert_eq!(line_col_to_offset(&content, 2, 0), Some(6));
    assert_eq!(line_col_to_offset(&content, 3, 2), Some(9)); // end of content
    assert_eq!(line_col_to_offset(&content, 0, 3), None); // past the line end
    assert_eq!(line_col_to_offset(&content, 4, 0), None); // no such line
}

// Paste applies the clipboard as a text edit at the active cursor.
#[test]
fn paste_at_caret_inserts_clipboard_text() {
    let mut ed = EditCoordinator::new(worthy());
    ed.set_text(text("ab"), None);
    ed.selection.cursors = vec![Cursor { anchor: 1, head: 1 }];
    ed.paste(text("XY"), None).unwrap();
    assert_eq!(as_string(&ed.buffer.content), "aXYb");
    // The caret sits after the pasted text.
    assert_eq!(ed.selection.cursors[0], Cursor { anchor: 3, head: 3 });
}

#[test]
fn paste_replaces_a_selection() {
    let mut ed = EditCoordinator::new(worthy());
    ed.set_text(text("hello world"), None);
    ed.selection.cursors = vec![Cursor { anchor: 11, head: 6 }];
    ed.paste(text("there"), None).unwrap();
    assert_eq!(as_string(&ed.buffer.content), "hello there");
}

#[test]
fn cut_removes_and_returns_the_selection() {
    let mut ed = EditCoordinator::new(worthy());
    ed.set_text(text("hello world"), None);
    ed.selection.cursors = vec![Cursor { anchor: 5, head: 11 }];
    let (piece, _notice) = ed.cut(None).unwrap();
    assert_eq!(as_string(&piece), " world");
    assert_eq!(as_string(&ed.buffer.content), "hello");
    // Without any cursor, cut and paste are rejected.
    ed.selection.cursors = vec![];
    assert!(ed.cut(None).is_err());
    assert!(ed.paste(text("x"), None).is_err());
}

#[test]
fn inverse_of_a_deletion_reinserts_the_text() {
    let mut ed = EditCoordinator::new(worthy());
    ed.set_text(text("abcdef"), None);
    let v = ed.buffer.version;
    let delete = TextEdit { range: range(2, 5), new_text: text("") };
    let undo = inverse_edit(&ed.buffer.content, &delete);
    ed.apply_edit(&delete, v, None).unwrap();
    assert_eq!(as_string(&ed.buffer.content), "abf");
    ed.apply_edit(&undo, v + 1, None).unwrap();
    assert_eq!(as_string(&ed.buffer.content), "abcdef");
}

#[test]
fn buffer_snapshot_is_side_effect_free() {
    let mut ed = EditCoordinator::new(worthy());
    ed.set_text(text("abc"), None);
    let (content, version) = ed.buffer.snapshot();
    assert_eq!(as_string(&content), "abc");
    assert_eq!(version, ed.buffer.version);
    assert_eq!(as_string(&ed.buffer.content), "abc");
}
