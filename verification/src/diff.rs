//! Atomic edits and the edit list a formatting run returns.
use crate::dsl::RuleName;
use vstd::prelude::*;

verus! {

/// A half-open byte range of the source text.
#[derive(Clone, Copy, Debug, PartialEq, Eq)]
pub struct TextRange {
    pub start: usize,
    pub end: usize,
}

/// Replace the bytes of `delete` by `insert`.
#[derive(Debug, PartialEq, Eq)]
pub struct AtomEdit {
    pub delete: TextRange,
    pub insert: Vec<u8>,
    /// The rule the edit goes back to, if any. Advisory only.
    pub reason: Option<RuleName>,
}

/// Mathematical model of an atomic edit.
pub struct EditView {
    pub start: int,
    pub end: int,
    pub insert: Seq<u8>,
    pub reason: Option<RuleName>,
}

impl View for AtomEdit {
    type V = EditView;

    open spec fn view(&self) -> EditView {
        EditView {
            start: self.delete.start as int,
            end: self.delete.end as int,
            insert: self.insert@,
            reason: self.reason,
        }
    }
}

/// The models of a list of edits.
pub open spec fn edits_view(edits: Seq<AtomEdit>) -> Seq<EditView> {
    edits.map_values(|e: AtomEdit| e@)
}

/// The edits lie inside a text of `len` bytes, and each ends no later than
/// the next begins: no two overlap.
pub open spec fn ordered(edits: Seq<EditView>, len: int) -> bool {
    &&& forall|i: int|
        0 <= i < edits.len() ==> 0 <= (#[trigger] edits[i]).start <= edits[i].end <= len
    &&& forall|i: int, j: int|
        0 <= i < j < edits.len() ==> (#[trigger] edits[i]).end <= (#[trigger] edits[j]).start
}

/// The text after the edits have been applied from right to left.
pub open spec fn apply_edits(text: Seq<u8>, edits: Seq<EditView>) -> Seq<u8>
    decreases edits.len(),
{
    if edits.len() == 0 {
        text
    } else {
        let e = edits.last();
        apply_edits(text.take(e.start), edits.drop_last()) + e.insert + text.skip(e.end)
    }
}

/// Text behind the last edit is carried over unchanged.
pub proof fn lemma_apply_untouched_tail(text: Seq<u8>, edits: Seq<EditView>, p: int, q: int)
    requires
        ordered(edits, p),
        0 <= p <= q <= text.len(),
    ensures
        apply_edits(text.take(q), edits) == apply_edits(text.take(p), edits) + text.subrange(p, q),
    decreases edits.len(),
{
    if edits.len() == 0 {
        assert(text.take(q) =~= text.take(p) + text.subrange(p, q));
    } else {
        let e = edits.last();
        assert(text.take(q).take(e.start) =~= text.take(p).take(e.start));
        assert(text.take(q).skip(e.end) =~= text.take(p).skip(e.end) + text.subrange(p, q));
        assert(apply_edits(text.take(q), edits) =~= apply_edits(text.take(p), edits)
            + text.subrange(p, q));
    }
}

/// The result of a formatting run: an ordered list of atomic edits. It holds
/// no reference to the tree; together with the source text it determines
/// the formatted text.
pub struct FmtDiff {
    edits: Vec<AtomEdit>,
}

impl View for FmtDiff {
    type V = Seq<EditView>;

    closed spec fn view(&self) -> Seq<EditView> {
        edits_view(self.edits@)
    }
}

impl FmtDiff {
    /// An empty edit list.
    pub fn new() -> (diff: FmtDiff)
        ensures
            diff@ == Seq::<EditView>::empty(),
    {
        let diff = FmtDiff { edits: Vec::new() };
        assert(diff@ =~= Seq::<EditView>::empty());
        diff
    }

    /// The edit list that holds `edits`.
    pub fn from_edits(edits: Vec<AtomEdit>) -> (diff: FmtDiff)
        ensures
            diff@ == edits_view(edits@),
    {
        FmtDiff { edits }
    }

    /// Appends the edit that replaces `range` by `text`.
    pub fn replace(&mut self, range: TextRange, text: Vec<u8>, reason: Option<RuleName>)
        ensures
            final(self)@ == old(self)@.push(
                EditView {
                    start: range.start as int,
                    end: range.end as int,
                    insert: text@,
                    reason,
                },
            ),
    {
        self.edits.push(AtomEdit { delete: range, insert: text, reason });
        assert(self@ =~= old(self)@.push(
            EditView { start: range.start as int, end: range.end as int, insert: text@, reason },
        ));
    }

    /// Appends `edit`.
    pub fn push(&mut self, edit: AtomEdit)
        ensures
            final(self)@ == old(self)@.push(edit@),
    {
        self.edits.push(edit);
        assert(self@ =~= old(self)@.push(edit@));
    }

    /// The edits, in order.
    pub fn edits(&self) -> (edits: &Vec<AtomEdit>)
        ensures
            edits_view(edits@) == self@,
    {
        &self.edits
    }

    /// Number of edits.
    pub fn len(&self) -> (n: usize)
        ensures
            n == self@.len(),
    {
        self.edits.len()
    }

    /// Whether there is nothing to change.
    pub fn is_empty(&self) -> (b: bool)
        ensures
            b == (self@.len() == 0),
    {
        self.edits.len() == 0
    }

    /// Applies the edits to `text`. `None` if the edits overlap, are out of
    /// order or reach beyond the text.
    pub fn apply(&self, text: &[u8]) -> (out: Option<Vec<u8>>)
        ensures
            out is Some <==> ordered(self@, text@.len() as int),
            out matches Some(bytes) ==> bytes@ == apply_edits(text@, self@),
    {
        let mut out: Vec<u8> = Vec::new();
        let mut prev: usize = 0;
        let mut i: usize = 0;
        while i < self.edits.len()
            invariant
                i <= self.edits.len(),
                prev <= text@.len(),
                ordered(self@.take(i as int), prev as int),
                i == 0 ==> prev == 0,
                i > 0 ==> prev == self@[i - 1].end,
                out@ == apply_edits(text@.take(prev as int), self@.take(i as int)),
            decreases self.edits.len() - i,
        {
            let edit = &self.edits[i];
            let ghost e = self@[i as int];
            assert(e == edit@);
            if !(prev <= edit.delete.start && edit.delete.start <= edit.delete.end
                && edit.delete.end <= text.len()) {
                proof {
                    if i > 0 {
                        assert(self@[i - 1].end == prev);
                    }
                    assert(!ordered(self@, text@.len() as int));
                }
                return None;
            }
            let kept = vstd::slice::slice_subrange(text, prev, edit.delete.start);
            out.extend_from_slice(kept);
            out.extend_from_slice(edit.insert.as_slice());
            proof {
                let done = self@.take(i as int);
                let next = self@.take(i + 1);
                assert(next.drop_last() =~= done);
                assert(next.last() == e);
                lemma_apply_untouched_tail(text@, done, prev as int, e.start);
                assert(text@.take(e.end).take(e.start) =~= text@.take(e.start));
                assert(text@.take(e.end).skip(e.end) =~= Seq::<u8>::empty());
                assert(out@ =~= apply_edits(text@.take(e.end), next));
                assert forall|a: int, b: int| 0 <= a < b < next.len() implies (
                #[trigger] next[a]).end <= (#[trigger] next[b]).start by {
                    if b < i {
                        assert(done[a].end <= done[b].start);
                    } else {
                        assert(done[a].end <= prev);
                    }
                }
                assert forall|a: int| 0 <= a < next.len() implies 0 <= (#[trigger] next[a]).start
                    <= next[a].end <= e.end by {
                    if a < i {
                        assert(done[a].end <= prev);
                    }
                }
            }
            prev = edit.delete.end;
            i += 1;
        }
        let tail = vstd::slice::slice_subrange(text, prev, text.len());
        out.extend_from_slice(tail);
        proof {
            assert(self@.take(i as int) =~= self@);
            lemma_apply_untouched_tail(text@, self@, prev as int, text@.len() as int);
            assert(text@.take(text@.len() as int) =~= text@);
            assert forall|a: int| 0 <= a < self@.len() implies 0 <= (#[trigger] self@[a]).start
                <= self@[a].end <= text@.len() by {}
        }
        Some(out)
    }
}

} // verus!
