//! Ranges over the text buffer, text edits, and the pure range translator:
//! shifting offsets and ranges through an accepted edit, and converting
//! offsets to line/column pairs.

use vstd::prelude::*;

verus! {

/// Half-open span `[start, end)` of codepoint offsets into the buffer.
#[derive(Clone, Copy, PartialEq, Eq, Structural, Debug)]
pub struct TextRange {
    pub start: usize,
    pub end: usize,
}

impl TextRange {
    pub open spec fn valid(self) -> bool {
        self.start <= self.end
    }

    /// The range lies inside a buffer of `len` codepoints.
    pub open spec fn within(self, len: nat) -> bool {
        self.start <= self.end && self.end <= len
    }

    /// Number of codepoints the range spans.
    pub open spec fn width(self) -> nat {
        (self.end - self.start) as nat
    }

    /// The half-open range covers offset `o`.
    pub open spec fn covers(self, o: int) -> bool {
        self.start <= o < self.end
    }

    /// `self` lies entirely inside `other`.
    pub open spec fn inside(self, other: TextRange) -> bool {
        other.start <= self.start && self.end <= other.end
    }

    pub fn new(start: usize, end: usize) -> (r: TextRange)
        requires
            start <= end,
        ensures
            r == (TextRange { start, end }),
    {
        TextRange { start, end }
    }

    pub fn len(&self) -> (r: usize)
        requires
            self.valid(),
        ensures
            r == self.width(),
    {
        self.end - self.start
    }
}

/// Replace the span `range` of the old buffer content with `new_text`.
/// Applying a `TextEdit` is the only primitive state transition of the buffer.
pub struct TextEdit {
    pub range: TextRange,
    pub new_text: Vec<char>,
}

impl TextEdit {
    /// The edit's range targets a buffer of `len` codepoints.
    pub open spec fn applies_to(self, len: nat) -> bool {
        self.range.within(len)
    }

    /// Length of the content after applying the edit to `old_len` codepoints.
    pub open spec fn new_len(self, old_len: int) -> int {
        old_len - self.range.width() + self.new_text@.len()
    }

    /// Content produced by replacing the edit's span with its new text.
    pub open spec fn apply_spec(self, content: Seq<char>) -> Seq<char>
        recommends
            self.applies_to(content.len()),
    {
        content.subrange(0, self.range.start as int) + self.new_text@
            + content.subrange(self.range.end as int, content.len() as int)
    }

    /// Offset rule of the range translator: offsets strictly before the edited
    /// span keep their value, offsets at or past its end shift by the length
    /// delta, offsets inside the span collapse to the span's start.
    pub open spec fn translate_offset_spec(self, o: int) -> int {
        if o < self.range.start {
            o
        } else if o >= self.range.end {
            o - self.range.end + self.range.start + self.new_text@.len()
        } else {
            self.range.start as int
        }
    }

    /// Range rule of the range translator: ranges fully before the edited span
    /// are unchanged, ranges fully after shift by the length delta, and ranges
    /// overlapping the span collapse to a zero-width range at its start.
    pub open spec fn translate_range_spec(self, r: TextRange) -> TextRange {
        if r.end <= self.range.start {
            r
        } else if r.start >= self.range.end {
            TextRange {
                start: (r.start - self.range.end + self.range.start
                    + self.new_text@.len()) as usize,
                end: (r.end - self.range.end + self.range.start + self.new_text@.len()) as usize,
            }
        } else {
            TextRange { start: self.range.start, end: self.range.start }
        }
    }
}

/// Shift a single offset through one accepted edit.
pub fn translate_offset(o: usize, edit: &TextEdit) -> (r: usize)
    requires
        edit.range.valid(),
        o >= edit.range.end ==> o - edit.range.end + edit.range.start + edit.new_text@.len()
            <= usize::MAX,
    ensures
        r == edit.translate_offset_spec(o as int),
{
    if o < edit.range.start {
        o
    } else if o >= edit.range.end {
        o - edit.range.end + edit.range.start + edit.new_text.len()
    } else {
        edit.range.start
    }
}

/// Shift a whole range through one accepted edit.
pub fn translate_range(r: TextRange, edit: &TextEdit) -> (t: TextRange)
    requires
        r.valid(),
        edit.range.valid(),
        r.start >= edit.range.end ==> r.end - edit.range.end + edit.range.start
            + edit.new_text@.len() <= usize::MAX,
    ensures
        t == edit.translate_range_spec(r),
        t.valid(),
{
    if r.end <= edit.range.start {
        r
    } else if r.start >= edit.range.end {
        TextRange {
            start: r.start - edit.range.end + edit.range.start + edit.new_text.len(),
            end: r.end - edit.range.end + edit.range.start + edit.new_text.len(),
        }
    } else {
        TextRange { start: edit.range.start, end: edit.range.start }
    }
}

/// A translated offset stays inside the new content, so a remapped cursor is
/// always valid for the buffer version it now refers to.
pub proof fn lemma_translate_offset_in_bounds(o: int, edit: TextEdit, old_len: int)
    requires
        0 <= o <= old_len,
        edit.applies_to(old_len as nat),
    ensures
        0 <= edit.translate_offset_spec(o) <= edit.new_len(old_len),
{
}

/// A remapped offset keeps fronting the same content: the prefix it bounds
/// (when it sat at or before the edited span and was left in place) and the
/// suffix it bounds (when it sat at or past the span's end) read the same
/// before and after the edit.
pub proof fn lemma_translate_tracks_content(o: int, e: TextEdit, content: Seq<char>)
    requires
        0 <= o <= content.len(),
        e.applies_to(content.len()),
    ensures
        0 <= e.translate_offset_spec(o) <= e.apply_spec(content).len(),
        o <= e.range.start && e.translate_offset_spec(o) == o ==> e.apply_spec(content).subrange(
            0,
            o,
        ) == content.subrange(0, o),
        o >= e.range.end ==> e.apply_spec(content).subrange(
            e.translate_offset_spec(o),
            e.apply_spec(content).len() as int,
        ) == content.subrange(o, content.len() as int),
{
    lemma_translate_offset_in_bounds(o, e, content.len() as int);
    let c2 = e.apply_spec(content);
    if o <= e.range.start && e.translate_offset_spec(o) == o {
        assert(c2.subrange(0, o) =~= content.subrange(0, o));
    }
    if o >= e.range.end {
        let o2 = e.translate_offset_spec(o);
        assert(c2.subrange(o2, c2.len() as int) =~= content.subrange(o, content.len() as int));
    }
}

/// Law: remapping a cursor through two edits in sequence computes its
/// position directly against the buffer content after both edits. The twice
/// remapped offset lies within the twice edited content, and it still fronts
/// the same text: a cursor left in place before both edited spans bounds the
/// same prefix, and a cursor past both spans bounds the same suffix, in the
/// final content.
pub proof fn lemma_remap_composes(o: int, e1: TextEdit, e2: TextEdit, content: Seq<char>)
    requires
        0 <= o <= content.len(),
        e1.applies_to(content.len()),
        e2.applies_to(e1.apply_spec(content).len()),
    ensures
        0 <= e2.translate_offset_spec(e1.translate_offset_spec(o)) <= e2.apply_spec(
            e1.apply_spec(content),
        ).len(),
        o <= e1.range.start && e1.translate_offset_spec(o) == o && o <= e2.range.start
            && e2.translate_offset_spec(o) == o ==> e2.apply_spec(e1.apply_spec(content)).subrange(
            0,
            o,
        ) == content.subrange(0, o),
        o >= e1.range.end && e1.translate_offset_spec(o) >= e2.range.end ==> e2.apply_spec(
            e1.apply_spec(content),
        ).subrange(
            e2.translate_offset_spec(e1.translate_offset_spec(o)),
            e2.apply_spec(e1.apply_spec(content)).len() as int,
        ) == content.subrange(o, content.len() as int),
{
    let c1 = e1.apply_spec(content);
    let o1 = e1.translate_offset_spec(o);
    lemma_translate_tracks_content(o, e1, content);
    lemma_translate_tracks_content(o1, e2, c1);
    if o <= e1.range.start && o1 == o && o <= e2.range.start && e2.translate_offset_spec(o) == o {
        assert(e2.apply_spec(c1).subrange(0, o) == c1.subrange(0, o));
        assert(c1.subrange(0, o) == content.subrange(0, o));
    }
    if o >= e1.range.end && o1 >= e2.range.end {
        let o2 = e2.translate_offset_spec(o1);
        let c2 = e2.apply_spec(c1);
        assert(c2.subrange(o2, c2.len() as int) == c1.subrange(o1, c1.len() as int));
        assert(c1.subrange(o1, c1.len() as int) == content.subrange(o, content.len() as int));
    }
}

/// Law: applying an edit and then its exact inverse — removing what it
/// inserted, reinserting what it removed at the same offset — restores the
/// original content.
pub proof fn lemma_edit_round_trip(content: Seq<char>, e1: TextEdit, e2: TextEdit)
    requires
        e1.applies_to(content.len()),
        e2.range.start == e1.range.start,
        e2.range.end == e1.range.start + e1.new_text@.len(),
        e2.new_text@ == content.subrange(e1.range.start as int, e1.range.end as int),
    ensures
        e2.apply_spec(e1.apply_spec(content)) == content,
{
    assert(e2.apply_spec(e1.apply_spec(content)) =~= content);
}

/// The edit that exactly undoes `edit` once it has been applied to
/// `content`: it removes what `edit` inserted and reinserts what `edit`
/// removed.
pub fn inverse_edit(content: &Vec<char>, edit: &TextEdit) -> (r: TextEdit)
    requires
        edit.applies_to(content@.len()),
        edit.new_len(content@.len() as int) <= usize::MAX,
    ensures
        r.range.start == edit.range.start,
        r.range.end == edit.range.start + edit.new_text@.len(),
        r.new_text@ == content@.subrange(edit.range.start as int, edit.range.end as int),
        r.apply_spec(edit.apply_spec(content@)) == content@,
        r.applies_to(edit.new_len(content@.len() as int) as nat),
{
    let removed = crate::buffer::slice_text(content, edit.range);
    let r = TextEdit {
        range: TextRange {
            start: edit.range.start,
            end: edit.range.start + edit.new_text.len(),
        },
        new_text: removed,
    };
    proof {
        lemma_edit_round_trip(content@, *edit, r);
    }
    r
}

/// Zero-based line/column position; `col` counts codepoints from the start of
/// the line.
#[derive(Clone, Copy, PartialEq, Eq, Structural, Debug)]
pub struct LineCol {
    pub line: usize,
    pub col: usize,
}

/// Number of newline characters in `s`.
pub open spec fn newline_count(s: Seq<char>) -> nat
    decreases s.len(),
{
    if s.len() == 0 {
        0
    } else {
        newline_count(s.drop_last()) + (if s.last() == '\n' {
            1nat
        } else {
            0nat
        })
    }
}

/// Line holding offset `o`: the number of newlines before it.
pub open spec fn line_of(content: Seq<char>, o: int) -> nat
    recommends
        0 <= o <= content.len(),
{
    newline_count(content.subrange(0, o))
}

/// Offset at which the line holding offset `o` begins.
pub open spec fn line_start_of(content: Seq<char>, o: int) -> int
    recommends
        0 <= o <= content.len(),
    decreases o,
{
    if o <= 0 {
        0
    } else if content[o - 1] == '\n' {
        o
    } else {
        line_start_of(content, o - 1)
    }
}

/// Column of offset `o`: its distance from the start of its line.
pub open spec fn col_of(content: Seq<char>, o: int) -> int
    recommends
        0 <= o <= content.len(),
{
    o - line_start_of(content, o)
}

/// Convert an offset into the line/column pair the host protocol speaks.
pub fn offset_to_line_col(content: &Vec<char>, offset: usize) -> (r: LineCol)
    requires
        offset <= content@.len(),
    ensures
        r.line == line_of(content@, offset as int),
        r.col == col_of(content@, offset as int),
{
    let mut line: usize = 0;
    let mut start: usize = 0;
    let mut i: usize = 0;
    while i < offset
        invariant
            i <= offset <= content@.len(),
            line <= i,
            start <= i,
            line == line_of(content@, i as int),
            start == line_start_of(content@, i as int),
        decreases offset - i,
    {
        proof {
            assert(content@.subrange(0, i + 1).drop_last() =~= content@.subrange(0, i as int));
            assert(content@.subrange(0, i + 1).last() == content@[i as int]);
        }
        if content[i] == '\n' {
            line = line + 1;
            start = i + 1;
        }
        i = i + 1;
    }
    LineCol { line, col: offset - start }
}

/// Convert a line/column pair back to the offset it names; `None` exactly
/// when no offset of the content lies at that line and column.
pub fn line_col_to_offset(content: &Vec<char>, line: usize, col: usize) -> (r: Option<usize>)
    ensures
        r matches Some(o) ==> o <= content@.len() && line_of(content@, o as int) == line && col_of(
            content@,
            o as int,
        ) == col,
        r is None ==> forall|o: int|
            0 <= o <= content@.len() ==> !(line_of(content@, o) == line && col_of(content@, o)
                == col),
{
    let n = content.len();
    let mut cur_line: usize = 0;
    let mut start: usize = 0;
    let mut o: usize = 0;
    while o < n
        invariant
            o <= n == content@.len(),
            cur_line <= o,
            start <= o,
            cur_line == line_of(content@, o as int),
            start == line_start_of(content@, o as int),
            forall|o2: int|
                0 <= o2 < o ==> !(line_of(content@, o2) == line && col_of(content@, o2) == col),
        decreases n - o,
    {
        if cur_line == line && o - start == col {
            return Some(o);
        }
        proof {
            assert(content@.subrange(0, o + 1).drop_last() =~= content@.subrange(0, o as int));
            assert(content@.subrange(0, o + 1).last() == content@[o as int]);
        }
        if content[o] == '\n' {
            cur_line = cur_line + 1;
            start = o + 1;
        }
        o = o + 1;
    }
    if cur_line == line && o - start == col {
        Some(o)
    } else {
        None
    }
}

} // verus!
