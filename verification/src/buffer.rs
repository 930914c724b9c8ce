//! The text buffer: authoritative content plus a version counter that
//! strictly increases on every accepted edit. An edit whose range does not
//! fit the current content is rejected with `RangeError` and leaves the
//! buffer untouched.

use vstd::prelude::*;

use crate::text_range::{TextEdit, TextRange};

verus! {

/// An edit or cursor range fell outside the current buffer bounds, or was
/// derived against a stale buffer version. Always recoverable: re-derive the
/// edit against the latest snapshot.
#[derive(Clone, Copy, PartialEq, Eq, Structural, Debug)]
pub struct RangeError;

/// Copy a text value. The buffer hands out snapshots, never references into
/// its own content.
pub fn copy_text(src: &Vec<char>) -> (r: Vec<char>)
    ensures
        r@ == src@,
{
    let mut out: Vec<char> = Vec::new();
    let mut i: usize = 0;
    while i < src.len()
        invariant
            i <= src@.len(),
            out@ == src@.subrange(0, i as int),
        decreases src@.len() - i,
    {
        out.push(src[i]);
        proof {
            assert(out@ =~= src@.subrange(0, i + 1));
        }
        i = i + 1;
    }
    proof {
        assert(out@ =~= src@);
    }
    out
}

/// Copy the span `range` out of `content`.
pub fn slice_text(content: &Vec<char>, range: TextRange) -> (r: Vec<char>)
    requires
        range.within(content@.len()),
    ensures
        r@ == content@.subrange(range.start as int, range.end as int),
{
    let mut out: Vec<char> = Vec::new();
    let mut i: usize = range.start;
    while i < range.end
        invariant
            range.start <= i <= range.end <= content@.len(),
            out@ == content@.subrange(range.start as int, i as int),
        decreases range.end - i,
    {
        out.push(content[i]);
        proof {
            assert(out@ =~= content@.subrange(range.start as int, i + 1));
        }
        i = i + 1;
    }
    out
}

/// Turn borrowed string data into the codepoint text the engine works on.
pub fn text_of_str(s: &str) -> (r: Vec<char>)
    ensures
        r@ == s@,
{
    let n = s.unicode_len();
    let mut out: Vec<char> = Vec::new();
    let mut i: usize = 0;
    while i < n
        invariant
            n == s@.len(),
            i <= n,
            out@ == s@.subrange(0, i as int),
        decreases n - i,
    {
        out.push(s.get_char(i));
        proof {
            assert(out@ =~= s@.subrange(0, i + 1));
        }
        i = i + 1;
    }
    proof {
        assert(out@ =~= s@);
    }
    out
}

/// Replace the span `[start, end)` of `content` with `new_text`.
pub fn splice_text(content: &Vec<char>, start: usize, end: usize, new_text: &Vec<char>) -> (r: Vec<
    char,
>)
    requires
        start <= end <= content@.len(),
    ensures
        r@ == content@.subrange(0, start as int) + new_text@
            + content@.subrange(end as int, content@.len() as int),
{
    let mut out: Vec<char> = Vec::new();
    let mut i: usize = 0;
    while i < start
        invariant
            i <= start <= content@.len(),
            out@ == content@.subrange(0, i as int),
        decreases start - i,
    {
        out.push(content[i]);
        proof {
            assert(out@ =~= content@.subrange(0, i + 1));
        }
        i = i + 1;
    }
    let mut j: usize = 0;
    while j < new_text.len()
        invariant
            j <= new_text@.len(),
            start <= content@.len(),
            out@ == content@.subrange(0, start as int) + new_text@.subrange(0, j as int),
        decreases new_text@.len() - j,
    {
        out.push(new_text[j]);
        proof {
            assert(out@ =~= content@.subrange(0, start as int) + new_text@.subrange(0, j + 1));
        }
        j = j + 1;
    }
    let mut k: usize = end;
    while k < content.len()
        invariant
            start <= end <= k <= content@.len(),
            out@ == content@.subrange(0, start as int) + new_text@.subrange(
                0,
                new_text@.len() as int,
            ) + content@.subrange(end as int, k as int),
        decreases content@.len() - k,
    {
        out.push(content[k]);
        proof {
            assert(out@ =~= content@.subrange(0, start as int) + new_text@.subrange(
                0,
                new_text@.len() as int,
            ) + content@.subrange(end as int, k + 1));
        }
        k = k + 1;
    }
    proof {
        assert(new_text@.subrange(0, new_text@.len() as int) =~= new_text@);
        assert(out@ =~= content@.subrange(0, start as int) + new_text@ + content@.subrange(
            end as int,
            content@.len() as int,
        ));
    }
    out
}

/// The authoritative text content of the open document and its version.
pub struct Buffer {
    pub content: Vec<char>,
    pub version: u64,
}

impl Buffer {
    /// An empty document at version zero.
    pub fn new() -> (r: Buffer)
        ensures
            r.content@ == Seq::<char>::empty(),
            r.version == 0,
    {
        Buffer { content: Vec::new(), version: 0 }
    }

    pub fn len(&self) -> (r: usize)
        ensures
            r == self.content@.len(),
    {
        self.content.len()
    }

    /// Side-effect-free copy of the current content and its version.
    pub fn snapshot(&self) -> (r: (Vec<char>, u64))
        ensures
            r.0@ == self.content@,
            r.1 == self.version,
    {
        (copy_text(&self.content), self.version)
    }

    /// Apply one edit. Succeeds exactly when the edit's range fits the
    /// current content; on success the span is replaced and the version
    /// increases by one, on failure nothing changes.
    pub fn apply(&mut self, edit: &TextEdit) -> (r: Result<(), RangeError>)
        requires
            old(self).version < u64::MAX,
        ensures
            edit.applies_to(old(self).content@.len()) ==> r is Ok && final(self).content@
                == edit.apply_spec(old(self).content@) && final(self).version == old(self).version
                + 1,
            !edit.applies_to(old(self).content@.len()) ==> r is Err && final(self).content@ == old(
                self,
            ).content@ && final(self).version == old(self).version,
    {
        if edit.range.start <= edit.range.end && edit.range.end <= self.content.len() {
            let new_content = splice_text(
                &self.content,
                edit.range.start,
                edit.range.end,
                &edit.new_text,
            );
            self.content = new_content;
            self.version = self.version + 1;
            Ok(())
        } else {
            Err(RangeError)
        }
    }

    /// Replace the whole content, as the host's full-text push does. The
    /// version still only moves forward.
    pub fn replace_all(&mut self, text: Vec<char>)
        requires
            old(self).version < u64::MAX,
        ensures
            final(self).content@ == text@,
            final(self).version == old(self).version + 1,
    {
        self.content = text;
        self.version = self.version + 1;
    }
}

} // verus!
