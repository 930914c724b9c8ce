//! The diagnostics overlay: an externally supplied set of diagnostics whose
//! ranges are remapped under every accepted edit. A diagnostic whose range
//! lay inside the edited span is dropped — its target content no longer
//! exists, and a stale diagnostic is strictly worse than none. `fixes_at`
//! surfaces the quick fixes at a cursor position, ordered by range start and
//! then by severity.

use vstd::prelude::*;

use crate::text_range::{TextEdit, TextRange};

verus! {

/// Severity of a diagnostic, from most to least severe.
#[derive(Clone, Copy, PartialEq, Eq, Structural, Debug)]
pub enum Severity {
    Error,
    Warning,
    Info,
    Hint,
}

impl Severity {
    /// Sort rank: errors before warnings before info before hints.
    pub open spec fn rank(self) -> int {
        match self {
            Severity::Error => 0,
            Severity::Warning => 1,
            Severity::Info => 2,
            Severity::Hint => 3,
        }
    }

    pub fn rank_value(&self) -> (r: u8)
        ensures
            r == self.rank(),
    {
        match self {
            Severity::Error => 0,
            Severity::Warning => 1,
            Severity::Info => 2,
            Severity::Hint => 3,
        }
    }
}

/// An opaque command identifier plus arguments, forwarded unmodified to the
/// host; the engine never interprets its meaning.
pub struct HostCommand {
    pub command: String,
    pub arguments: String,
}

/// Mathematical model of a `HostCommand`.
pub ghost struct HostCommandModel {
    pub command: Seq<char>,
    pub arguments: Seq<char>,
}

impl HostCommand {
    pub open spec fn model(self) -> HostCommandModel {
        HostCommandModel { command: self.command@, arguments: self.arguments@ }
    }
}

/// Models of a sequence of host commands.
pub open spec fn models_of_cmds(s: Seq<HostCommand>) -> Seq<HostCommandModel> {
    Seq::new(s.len(), |i: int| s[i].model())
}

/// Copy a string value.
pub fn copy_string(s: &String) -> (r: String)
    ensures
        r@ == s@,
{
    let mut t = String::new();
    t.append(s.as_str());
    t
}

/// Copy a host command value.
pub fn copy_host_command(c: &HostCommand) -> (r: HostCommand)
    ensures
        r.model() == c.model(),
{
    HostCommand { command: copy_string(&c.command), arguments: copy_string(&c.arguments) }
}

/// Copy an ordered list of host commands.
pub fn copy_fixes(v: &Vec<HostCommand>) -> (r: Vec<HostCommand>)
    ensures
        models_of_cmds(r@) == models_of_cmds(v@),
{
    let mut out: Vec<HostCommand> = Vec::new();
    let mut i: usize = 0;
    while i < v.len()
        invariant
            i <= v@.len(),
            out@.len() == i,
            forall|k: int| 0 <= k < i ==> (#[trigger] out@[k]).model() == v@[k].model(),
        decreases v@.len() - i,
    {
        out.push(copy_host_command(&v[i]));
        i = i + 1;
    }
    proof {
        assert(models_of_cmds(out@) =~= models_of_cmds(v@));
    }
    out
}

/// One diagnostic: a range against a specific buffer version, a severity, an
/// opaque message, and the ordered quick fixes the host offered for it.
pub struct Diagnostic {
    pub range: TextRange,
    pub severity: Severity,
    pub message: String,
    pub fixes: Vec<HostCommand>,
}

/// Mathematical model of a `Diagnostic`.
pub ghost struct DiagModel {
    pub range: TextRange,
    pub severity: Severity,
    pub message: Seq<char>,
    pub fixes: Seq<HostCommandModel>,
}

impl Diagnostic {
    pub open spec fn model(self) -> DiagModel {
        DiagModel {
            range: self.range,
            severity: self.severity,
            message: self.message@,
            fixes: models_of_cmds(self.fixes@),
        }
    }
}

/// Models of a sequence of diagnostics.
pub open spec fn models_of_diags(s: Seq<Diagnostic>) -> Seq<DiagModel> {
    Seq::new(s.len(), |i: int| s[i].model())
}

/// A diagnostic survives an edit exactly when its range lies fully before or
/// fully after the edited span. Any diagnostic overlapping the span — in
/// particular one lying entirely inside it — is stale and is dropped.
pub open spec fn survives(d: DiagModel, e: TextEdit) -> bool {
    d.range.end <= e.range.start || d.range.start >= e.range.end
}

/// A surviving diagnostic with its range shifted through the edit.
pub open spec fn remapped(d: DiagModel, e: TextEdit) -> DiagModel {
    DiagModel {
        range: e.translate_range_spec(d.range),
        severity: d.severity,
        message: d.message,
        fixes: d.fixes,
    }
}

/// Overlay contents after one edit: survivors shifted, the rest dropped.
pub open spec fn remap_diags_spec(s: Seq<DiagModel>, e: TextEdit) -> Seq<DiagModel>
    decreases s.len(),
{
    if s.len() == 0 {
        Seq::empty()
    } else {
        let rest = remap_diags_spec(s.drop_last(), e);
        if survives(s.last(), e) {
            rest.push(remapped(s.last(), e))
        } else {
            rest
        }
    }
}

/// Law: a diagnostic whose nonempty range lies entirely within the edited
/// span contributes nothing to the overlay after remapping — dropping it
/// from the input leaves the output unchanged.
pub proof fn lemma_remap_drops_inside(s: Seq<DiagModel>, e: TextEdit, i: int)
    requires
        0 <= i < s.len(),
        s[i].range.inside(e.range),
        s[i].range.start < s[i].range.end,
    ensures
        remap_diags_spec(s, e) == remap_diags_spec(s.remove(i), e),
    decreases s.len(),
{
    assert(!survives(s[i], e));
    if i == s.len() - 1 {
        assert(s.remove(i) =~= s.drop_last());
    } else {
        lemma_remap_drops_inside(s.drop_last(), e, i);
        assert(s.remove(i).drop_last() =~= s.drop_last().remove(i));
        assert(s.remove(i).last() == s.last());
    }
}

/// Strict total order on matched diagnostics: ascending range start, then
/// severity, then original position.
pub open spec fn key_lt(a: DiagModel, ia: int, b: DiagModel, ib: int) -> bool {
    ||| a.range.start < b.range.start
    ||| (a.range.start == b.range.start && a.severity.rank() < b.severity.rank())
    ||| (a.range.start == b.range.start && a.severity.rank() == b.severity.rank() && ia < ib)
}

/// Positions (in the overlay) of the diagnostics whose range covers `o`, in
/// overlay order.
pub open spec fn matching_idxs(s: Seq<DiagModel>, o: int) -> Seq<int>
    decreases s.len(),
{
    if s.len() == 0 {
        Seq::empty()
    } else {
        let rest = matching_idxs(s.drop_last(), o);
        if s.last().range.covers(o) {
            rest.push(s.len() - 1)
        } else {
            rest
        }
    }
}

/// Insert position `x` into the run `s`, keeping smaller keys first.
pub open spec fn insert_by_key(x: int, s: Seq<int>, diags: Seq<DiagModel>) -> Seq<int>
    decreases s.len(),
{
    if s.len() == 0 {
        seq![x]
    } else if key_lt(diags[x], x, diags[s.last()], s.last()) {
        insert_by_key(x, s.drop_last(), diags).push(s.last())
    } else {
        s.push(x)
    }
}

/// Sort positions by `key_lt`, one insertion at a time.
pub open spec fn sort_by_key(s: Seq<int>, diags: Seq<DiagModel>) -> Seq<int>
    decreases s.len(),
{
    if s.len() == 0 {
        Seq::empty()
    } else {
        insert_by_key(s.last(), sort_by_key(s.drop_last(), diags), diags)
    }
}

/// The fixes of the diagnostics at the given positions, concatenated in
/// order.
pub open spec fn flat_fixes(idxs: Seq<int>, diags: Seq<DiagModel>) -> Seq<HostCommandModel>
    decreases idxs.len(),
{
    if idxs.len() == 0 {
        Seq::empty()
    } else {
        flat_fixes(idxs.drop_last(), diags) + diags[idxs.last()].fixes
    }
}

/// Everything `fixes_at` returns: the fixes of every diagnostic covering
/// `o`, ordered by ascending range start, then severity, then overlay
/// position.
pub open spec fn fixes_at_spec(diags: Seq<DiagModel>, o: int) -> Seq<HostCommandModel> {
    flat_fixes(sort_by_key(matching_idxs(diags, o), diags), diags)
}

/// The pair at `a` in the position run `s` is strictly below its successor.
pub open spec fn adjacent_lt(s: Seq<int>, diags: Seq<DiagModel>, a: int) -> bool {
    key_lt(diags[s[a]], s[a], diags[s[a + 1]], s[a + 1])
}

/// The position run is strictly ascending under the fix ordering.
pub open spec fn sorted_by_key(s: Seq<int>, diags: Seq<DiagModel>) -> bool {
    forall|a: int| 0 <= a && a + 1 < s.len() ==> #[trigger] adjacent_lt(s, diags, a)
}

/// The inserted run ends with the larger of the new position and the old
/// last one.
proof fn lemma_insert_by_key_last(x: int, s: Seq<int>, diags: Seq<DiagModel>)
    ensures
        insert_by_key(x, s, diags).len() == s.len() + 1,
        insert_by_key(x, s, diags).last() == if s.len() > 0 && key_lt(
            diags[x],
            x,
            diags[s.last()],
            s.last(),
        ) {
            s.last()
        } else {
            x
        },
    decreases s.len(),
{
    if s.len() > 0 && key_lt(diags[x], x, diags[s.last()], s.last()) {
        lemma_insert_by_key_last(x, s.drop_last(), diags);
    }
}

/// Inserting a fresh position keeps the run sorted and adds exactly that
/// position.
proof fn lemma_insert_by_key_props(x: int, s: Seq<int>, diags: Seq<DiagModel>)
    requires
        sorted_by_key(s, diags),
        !s.contains(x),
    ensures
        sorted_by_key(insert_by_key(x, s, diags), diags),
        insert_by_key(x, s, diags).to_multiset() == s.to_multiset().insert(x),
    decreases s.len(),
{
    broadcast use vstd::seq_lib::group_to_multiset_ensures;

    let out = insert_by_key(x, s, diags);
    if s.len() == 0 {
        assert(out =~= Seq::<int>::empty().push(x));
        assert(out.to_multiset() =~= s.to_multiset().insert(x));
        assert(sorted_by_key(out, diags));
    } else {
        let dl = s.drop_last();
        assert(forall|k: int| 0 <= k < dl.len() ==> dl[k] == s[k]);
        if key_lt(diags[x], x, diags[s.last()], s.last()) {
            assert forall|a: int|
                0 <= a && a + 1 < dl.len() implies #[trigger] adjacent_lt(dl, diags, a) by {
                assert(adjacent_lt(s, diags, a));
                assert(dl[a] == s[a] && dl[a + 1] == s[a + 1]);
            }
            assert(!dl.contains(x));
            lemma_insert_by_key_props(x, dl, diags);
            let inner = insert_by_key(x, dl, diags);
            lemma_insert_by_key_last(x, dl, diags);
            assert(out == inner.push(s.last()));
            // Ascending across the final pair as well as within the prefix.
            assert(key_lt(diags[inner.last()], inner.last(), diags[s.last()], s.last())) by {
                if dl.len() > 0 && key_lt(diags[x], x, diags[dl.last()], dl.last()) {
                    assert(inner.last() == dl.last());
                    assert(adjacent_lt(s, diags, s.len() - 2));
                } else {
                    assert(inner.last() == x);
                }
            }
            assert(sorted_by_key(out, diags)) by {
                assert(forall|a: int|
                    0 <= a && a + 1 < inner.len() ==> #[trigger] adjacent_lt(inner, diags, a));
                assert(forall|k: int| 0 <= k < inner.len() ==> out[k] == inner[k]);
                assert forall|a: int|
                    0 <= a && a + 1 < out.len() implies #[trigger] adjacent_lt(out, diags, a) by {
                    if a + 1 < inner.len() {
                        assert(adjacent_lt(inner, diags, a));
                    } else {
                        assert(out[a] == inner.last() && out[a + 1] == s.last());
                    }
                }
            }
            assert(out.to_multiset() =~= s.to_multiset().insert(x)) by {
                assert(inner.to_multiset() == dl.to_multiset().insert(x));
                assert(out.to_multiset() == inner.to_multiset().insert(s.last()));
                assert(s.to_multiset() == dl.to_multiset().insert(s.last())) by {
                    assert(s == dl.push(s.last()));
                }
            }
        } else {
            assert(out == s.push(x));
            assert(s.last() != x) by {
                assert(s[s.len() - 1] == s.last());
            }
            // Distinct positions are totally ordered: not below means above.
            assert(key_lt(diags[s.last()], s.last(), diags[x], x));
            assert forall|a: int|
                0 <= a && a + 1 < out.len() implies #[trigger] adjacent_lt(out, diags, a) by {
                if a + 1 < s.len() {
                    assert(adjacent_lt(s, diags, a));
                    assert(out[a] == s[a] && out[a + 1] == s[a + 1]);
                } else {
                    assert(out[a] == s.last() && out[a + 1] == x);
                }
            }
            assert(out.to_multiset() == s.to_multiset().insert(x));
        }
    }
}

/// Sorting a run of distinct positions yields a strictly ascending
/// permutation of it.
proof fn lemma_sort_by_key_props(s: Seq<int>, diags: Seq<DiagModel>)
    requires
        forall|a: int, b: int| 0 <= a < b < s.len() ==> s[a] != s[b],
    ensures
        sorted_by_key(sort_by_key(s, diags), diags),
        sort_by_key(s, diags).to_multiset() == s.to_multiset(),
    decreases s.len(),
{
    broadcast use vstd::seq_lib::group_to_multiset_ensures;

    if s.len() == 0 {
        assert(sorted_by_key(sort_by_key(s, diags), diags));
    } else {
        let dl = s.drop_last();
        assert(forall|k: int| 0 <= k < dl.len() ==> dl[k] == s[k]);
        lemma_sort_by_key_props(dl, diags);
        let rest = sort_by_key(dl, diags);
        assert(!rest.contains(s.last())) by {
            assert(!dl.contains(s.last())) by {
                assert(forall|k: int| 0 <= k < dl.len() ==> dl[k] != s[s.len() - 1]);
            }
            assert(rest.to_multiset().count(s.last()) == dl.to_multiset().count(s.last()));
        }
        lemma_insert_by_key_props(s.last(), rest, diags);
        assert(s.to_multiset() == dl.to_multiset().insert(s.last())) by {
            assert(s == dl.push(s.last()));
        }
    }
}

/// The matching positions are within the overlay and strictly increasing,
/// hence distinct.
proof fn lemma_matching_idxs_increasing(s: Seq<DiagModel>, o: int)
    ensures
        forall|a: int|
            0 <= a < matching_idxs(s, o).len() ==> 0 <= #[trigger] matching_idxs(s, o)[a]
                < s.len(),
        forall|a: int, b: int|
            0 <= a < b < matching_idxs(s, o).len() ==> matching_idxs(s, o)[a] < matching_idxs(
                s,
                o,
            )[b],
    decreases s.len(),
{
    if s.len() > 0 {
        lemma_matching_idxs_increasing(s.drop_last(), o);
        assert(matching_idxs(s.drop_last(), o) == matching_idxs(s, o) || matching_idxs(s, o)
            == matching_idxs(s.drop_last(), o).push(s.len() - 1));
    }
}

/// Law: the fixes that `fixes_at` surfaces come from the matching
/// diagnostics visited in strictly ascending order of range start, then
/// severity, then overlay position — the sorted run is a permutation of the
/// matching positions.
pub proof fn lemma_fixes_at_ordered(diags: Seq<DiagModel>, o: int)
    ensures
        sorted_by_key(sort_by_key(matching_idxs(diags, o), diags), diags),
        sort_by_key(matching_idxs(diags, o), diags).to_multiset() == matching_idxs(
            diags,
            o,
        ).to_multiset(),
{
    lemma_matching_idxs_increasing(diags, o);
    lemma_sort_by_key_props(matching_idxs(diags, o), diags);
}

/// Where the scan from the right stops determines the insertion point.
proof fn lemma_insert_by_key_at(x: int, s: Seq<int>, diags: Seq<DiagModel>, pos: int)
    requires
        0 <= pos <= s.len(),
        forall|k: int| pos <= k < s.len() ==> key_lt(diags[x], x, diags[#[trigger] s[k]], s[k]),
        pos > 0 ==> !key_lt(diags[x], x, diags[s[pos - 1]], s[pos - 1]),
    ensures
        insert_by_key(x, s, diags) == s.subrange(0, pos) + seq![x] + s.subrange(
            pos,
            s.len() as int,
        ),
    decreases s.len(),
{
    if pos == s.len() {
        if s.len() == 0 {
            assert(insert_by_key(x, s, diags) =~= s.subrange(0, pos) + seq![x] + s.subrange(
                pos,
                s.len() as int,
            ));
        } else {
            assert(insert_by_key(x, s, diags) =~= s.subrange(0, pos) + seq![x] + s.subrange(
                pos,
                s.len() as int,
            ));
        }
    } else {
        assert(key_lt(diags[x], x, diags[s.last()], s.last()));
        lemma_insert_by_key_at(x, s.drop_last(), diags, pos);
        assert(s.drop_last().subrange(0, pos) =~= s.subrange(0, pos));
        assert(s.drop_last().subrange(pos, s.drop_last().len() as int) =~= s.subrange(
            pos,
            s.len() - 1,
        ));
        assert(insert_by_key(x, s, diags) =~= s.subrange(0, pos) + seq![x] + s.subrange(
            pos,
            s.len() as int,
        ));
    }
}

/// The diagnostics overlay.
pub struct DiagnosticsOverlay {
    pub diagnostics: Vec<Diagnostic>,
}

impl DiagnosticsOverlay {
    /// Every diagnostic range is a valid range within a buffer of `len`.
    pub open spec fn wf(self, len: nat) -> bool {
        forall|i: int|
            0 <= i < self.diagnostics@.len() ==> (#[trigger] self.diagnostics@[i]).range.within(
                len,
            )
    }

    pub fn new() -> (r: DiagnosticsOverlay)
        ensures
            r.diagnostics@.len() == 0,
            r.wf(0),
    {
        DiagnosticsOverlay { diagnostics: Vec::new() }
    }

    /// Replace the whole diagnostic set, as the host's pushes do. Entries
    /// whose ranges do not resolve against the current content are dropped.
    pub fn set(&mut self, diags: Vec<Diagnostic>, len: usize)
        ensures
            final(self).wf(len as nat),
            models_of_diags(final(self).diagnostics@) == keep_within_spec(
                models_of_diags(diags@),
                len as nat,
            ),
    {
        let ghost incoming = models_of_diags(diags@);
        let mut kept: Vec<Diagnostic> = Vec::new();
        let mut i: usize = 0;
        let n = diags.len();
        let mut rest = diags;
        // Consume from the front so each entry is moved, not copied.
        while i < n
            invariant
                i <= n,
                n == incoming.len(),
                rest@.len() == n - i,
                forall|k: int| 0 <= k < rest@.len() ==> rest@[k].model() == incoming[i + k],
                models_of_diags(kept@) == keep_within_spec(incoming.subrange(0, i as int), len as nat),
                forall|k: int|
                    0 <= k < kept@.len() ==> (#[trigger] kept@[k]).range.within(len as nat),
            decreases n - i,
        {
            let d = rest.remove(0);
            proof {
                assert(d.model() == incoming[i as int]);
                assert(incoming.subrange(0, i + 1).drop_last() =~= incoming.subrange(0, i as int));
                assert(incoming.subrange(0, i + 1).last() == incoming[i as int]);
            }
            if d.range.start <= d.range.end && d.range.end <= len {
                kept.push(d);
                proof {
                    assert(models_of_diags(kept@) =~= keep_within_spec(
                        incoming.subrange(0, i + 1),
                        len as nat,
                    ));
                }
            } else {
                proof {
                    assert(models_of_diags(kept@) =~= keep_within_spec(
                        incoming.subrange(0, i + 1),
                        len as nat,
                    ));
                }
            }
            i = i + 1;
        }
        proof {
            assert(incoming.subrange(0, n as int) =~= incoming);
        }
        self.diagnostics = kept;
    }

    /// Remap every diagnostic range through one accepted edit; survivors
    /// shift, diagnostics overlapping the edited span are dropped.
    pub fn remap(&mut self, edit: &TextEdit, old_len: usize)
        requires
            old(self).wf(old_len as nat),
            edit.applies_to(old_len as nat),
            edit.new_len(old_len as int) <= usize::MAX,
        ensures
            models_of_diags(final(self).diagnostics@) == remap_diags_spec(
                models_of_diags(old(self).diagnostics@),
                *edit,
            ),
            final(self).wf(edit.new_len(old_len as int) as nat),
    {
        let ghost source = models_of_diags(self.diagnostics@);
        let ghost new_len = edit.new_len(old_len as int) as nat;
        let mut kept: Vec<Diagnostic> = Vec::new();
        let n = self.diagnostics.len();
        let mut i: usize = 0;
        while i < n
            invariant
                i <= n,
                n == source.len(),
                source == models_of_diags(self.diagnostics@),
                self.wf(old_len as nat),
                edit.applies_to(old_len as nat),
                edit.new_len(old_len as int) <= usize::MAX,
                new_len == edit.new_len(old_len as int) as nat,
                models_of_diags(kept@) == remap_diags_spec(source.subrange(0, i as int), *edit),
                forall|k: int|
                    0 <= k < kept@.len() ==> (#[trigger] kept@[k]).range.within(new_len),
            decreases n - i,
        {
            let d = &self.diagnostics[i];
            proof {
                assert(d.model() == source[i as int]);
                assert(source.subrange(0, i + 1).drop_last() =~= source.subrange(0, i as int));
                assert(source.subrange(0, i + 1).last() == source[i as int]);
                assert(self.diagnostics@[i as int].range.within(old_len as nat));
            }
            if d.range.end <= edit.range.start || d.range.start >= edit.range.end {
                let nr = crate::text_range::translate_range(d.range, edit);
                let nd = Diagnostic {
                    range: nr,
                    severity: d.severity,
                    message: copy_string(&d.message),
                    fixes: copy_fixes(&d.fixes),
                };
                proof {
                    assert(nd.model() == remapped(source[i as int], *edit));
                }
                kept.push(nd);
                proof {
                    assert(models_of_diags(kept@) =~= remap_diags_spec(
                        source.subrange(0, i + 1),
                        *edit,
                    ));
                }
            } else {
                proof {
                    assert(models_of_diags(kept@) =~= remap_diags_spec(
                        source.subrange(0, i + 1),
                        *edit,
                    ));
                }
            }
            i = i + 1;
        }
        proof {
            assert(source.subrange(0, n as int) =~= source);
        }
        self.diagnostics = kept;
    }

    /// The quick fixes of every diagnostic whose range covers `offset`,
    /// ordered by ascending range start, then severity (errors first), then
    /// overlay position.
    pub fn fixes_at(&self, offset: usize) -> (r: Vec<HostCommand>)
        ensures
            models_of_cmds(r@) == fixes_at_spec(
                models_of_diags(self.diagnostics@),
                offset as int,
            ),
    {
        let ghost dm = models_of_diags(self.diagnostics@);
        let n = self.diagnostics.len();
        // Collect the positions of the matching diagnostics.
        let mut matched: Vec<usize> = Vec::new();
        let mut i: usize = 0;
        while i < n
            invariant
                i <= n,
                n == dm.len(),
                dm == models_of_diags(self.diagnostics@),
                ints_of(matched@) == matching_idxs(dm.subrange(0, i as int), offset as int),
                forall|k: int| 0 <= k < matched@.len() ==> matched@[k] < i,
            decreases n - i,
        {
            proof {
                assert(dm.subrange(0, i + 1).drop_last() =~= dm.subrange(0, i as int));
                assert(dm.subrange(0, i + 1).last() == dm[i as int]);
            }
            let d = &self.diagnostics[i];
            if d.range.start <= offset && offset < d.range.end {
                matched.push(i);
                proof {
                    assert(ints_of(matched@) =~= matching_idxs(
                        dm.subrange(0, i + 1),
                        offset as int,
                    ));
                }
            } else {
                proof {
                    assert(ints_of(matched@) =~= matching_idxs(
                        dm.subrange(0, i + 1),
                        offset as int,
                    ));
                }
            }
            i = i + 1;
        }
        proof {
            assert(dm.subrange(0, n as int) =~= dm);
        }
        // Sort the positions: ascending start, then severity, then position.
        let mut sorted: Vec<usize> = Vec::new();
        let mut s: usize = 0;
        while s < matched.len()
            invariant
                s <= matched@.len(),
                dm == models_of_diags(self.diagnostics@),
                forall|k: int| 0 <= k < matched@.len() ==> matched@[k] < dm.len(),
                forall|k: int| 0 <= k < sorted@.len() ==> sorted@[k] < dm.len(),
                ints_of(sorted@) == sort_by_key(
                    ints_of(matched@.subrange(0, s as int)),
                    dm,
                ),
            decreases matched@.len() - s,
        {
            let x = matched[s];
            let mut pos = sorted.len();
            loop
                invariant
                    pos <= sorted@.len(),
                    dm == models_of_diags(self.diagnostics@),
                    x < dm.len(),
                    forall|k: int| 0 <= k < sorted@.len() ==> sorted@[k] < dm.len(),
                    forall|k: int|
                        pos <= k < sorted@.len() ==> key_lt(
                            dm[x as int],
                            x as int,
                            dm[#[trigger] sorted@[k] as int],
                            sorted@[k] as int,
                        ),
                ensures
                    pos <= sorted@.len(),
                    forall|k: int|
                        pos <= k < sorted@.len() ==> key_lt(
                            dm[x as int],
                            x as int,
                            dm[#[trigger] sorted@[k] as int],
                            sorted@[k] as int,
                        ),
                    pos > 0 ==> !key_lt(
                        dm[x as int],
                        x as int,
                        dm[sorted@[pos - 1] as int],
                        sorted@[pos - 1] as int,
                    ),
                decreases pos,
            {
                if pos == 0 {
                    break;
                }
                let prev = sorted[pos - 1];
                if !key_lt_exec(&self.diagnostics[x], x, &self.diagnostics[prev], prev) {
                    break;
                }
                pos = pos - 1;
            }
            proof {
                lemma_insert_by_key_at(x as int, ints_of(sorted@), dm, pos as int);
                assert(ints_of(matched@.subrange(0, s + 1)).drop_last() =~= ints_of(
                    matched@.subrange(0, s as int),
                ));
                assert(ints_of(matched@.subrange(0, s + 1)).last() == matched@[s as int] as int);
            }
            let ghost before = ints_of(sorted@);
            sorted.insert(pos, x);
            proof {
                assert(ints_of(sorted@) =~= before.subrange(0, pos as int) + seq![x as int]
                    + before.subrange(pos as int, before.len() as int));
                assert(ints_of(sorted@) =~= sort_by_key(
                    ints_of(matched@.subrange(0, s + 1)),
                    dm,
                ));
            }
            s = s + 1;
        }
        proof {
            assert(matched@.subrange(0, matched@.len() as int) =~= matched@);
        }
        // Emit the fixes in sorted order.
        let mut out: Vec<HostCommand> = Vec::new();
        let mut k: usize = 0;
        while k < sorted.len()
            invariant
                k <= sorted@.len(),
                dm == models_of_diags(self.diagnostics@),
                forall|t: int| 0 <= t < sorted@.len() ==> sorted@[t] < dm.len(),
                models_of_cmds(out@) == flat_fixes(
                    ints_of(sorted@.subrange(0, k as int)),
                    dm,
                ),
            decreases sorted@.len() - k,
        {
            let idx = sorted[k];
            let d = &self.diagnostics[idx];
            let ghost fixes_model = dm[idx as int].fixes;
            proof {
                assert(dm[idx as int] == self.diagnostics@[idx as int].model());
                assert(fixes_model =~= models_of_cmds(d.fixes@));
            }
            let mut j: usize = 0;
            while j < d.fixes.len()
                invariant
                    j <= d.fixes@.len(),
                    k < sorted@.len(),
                    dm == models_of_diags(self.diagnostics@),
                    fixes_model == models_of_cmds(d.fixes@),
                    models_of_cmds(out@) == flat_fixes(
                        ints_of(sorted@.subrange(0, k as int)),
                        dm,
                    ) + fixes_model.subrange(0, j as int),
                decreases d.fixes@.len() - j,
            {
                let ghost before_push = out@;
                let c = copy_host_command(&d.fixes[j]);
                proof {
                    assert(c.model() == fixes_model[j as int]);
                }
                out.push(c);
                proof {
                    assert(models_of_cmds(out@).drop_last() =~= models_of_cmds(before_push));
                    assert(models_of_cmds(out@).last() == fixes_model[j as int]);
                    assert(models_of_cmds(out@) =~= models_of_cmds(before_push).push(
                        fixes_model[j as int],
                    ));
                    assert(models_of_cmds(out@) =~= flat_fixes(
                        ints_of(sorted@.subrange(0, k as int)),
                        dm,
                    ) + fixes_model.subrange(0, j + 1));
                }
                j = j + 1;
            }
            proof {
                assert(fixes_model.subrange(0, fixes_model.len() as int) =~= fixes_model);
                assert(ints_of(sorted@.subrange(0, k + 1)).drop_last() =~= ints_of(
                    sorted@.subrange(0, k as int),
                ));
                assert(ints_of(sorted@.subrange(0, k + 1)).last() == sorted@[k as int] as int);
                assert(models_of_cmds(out@) =~= flat_fixes(
                    ints_of(sorted@.subrange(0, k + 1)),
                    dm,
                ));
            }
            k = k + 1;
        }
        proof {
            assert(sorted@.subrange(0, sorted@.len() as int) =~= sorted@);
        }
        out
    }
}

/// Diagnostics of `s` whose ranges resolve within a buffer of `len`.
pub open spec fn keep_within_spec(s: Seq<DiagModel>, len: nat) -> Seq<DiagModel>
    decreases s.len(),
{
    if s.len() == 0 {
        Seq::empty()
    } else {
        let rest = keep_within_spec(s.drop_last(), len);
        if s.last().range.within(len) {
            rest.push(s.last())
        } else {
            rest
        }
    }
}

/// The positions of `s` as mathematical integers.
pub open spec fn ints_of(s: Seq<usize>) -> Seq<int> {
    Seq::new(s.len(), |i: int| s[i] as int)
}

/// Exec mirror of `key_lt`; `ia` and `ib` are the overlay positions.
pub fn key_lt_exec(a: &Diagnostic, ia: usize, b: &Diagnostic, ib: usize) -> (r: bool)
    ensures
        r == key_lt(a.model(), ia as int, b.model(), ib as int),
{
    if a.range.start < b.range.start {
        true
    } else if a.range.start == b.range.start {
        let ra = a.severity.rank_value();
        let rb = b.severity.rank_value();
        if ra < rb {
            true
        } else if ra == rb {
            ia < ib
        } else {
            false
        }
    } else {
        false
    }
}

} // verus!
