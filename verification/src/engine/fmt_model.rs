//! The whitespace overlay: the mutable layer between the read-only tree
//! and the edit list.
//!
//! Between any two neighbouring non-whitespace tokens, and at both ends of
//! the text, lies one whitespace run. The overlay keeps the current text
//! of every run, accepts edits inside tokens, and in the end reduces both
//! to an ordered list of atomic edits.
use crate::diff::{apply_edits, edits_view, ordered, AtomEdit, EditView, FmtDiff, TextRange};
use crate::dsl::RuleName;
use crate::kinds::TOKEN_COMMENT;
use crate::text::{
    blank, contains_newline, copy_bytes, count_newlines, has_newline, indent_width,
    lemma_indent_width_concat, make_blank, newline_count, same_bytes, saturating_sum,
    trailing_width,
};
use crate::tree::{SyntaxTree, TreeView};
use vstd::prelude::*;

verus! {

/// The byte that opens a line comment.
pub const HASH: u8 = 35;

/// Which of the two whitespace runs next to an element is meant.
#[derive(Clone, Copy, Debug, PartialEq, Eq)]
pub enum BlockPosition {
    Before,
    After,
}

/// Current state of one whitespace run.
pub struct BlockView {
    /// The whitespace as it stands now.
    pub text: Seq<u8>,
    /// The rule that last changed it.
    pub reason: Option<RuleName>,
}

/// Mathematical model of the overlay.
pub struct ModelView {
    /// The tree underneath.
    pub tree: TreeView,
    /// One whitespace run in front of every non-whitespace token, and one
    /// behind the last.
    pub blocks: Seq<BlockView>,
    /// For every non-whitespace token, the edits inside it, left to right.
    pub fixes: Seq<Seq<EditView>>,
}

/// The text in front of non-whitespace token `j` when the whitespace runs
/// read as `blocks` say and the tokens as in the source.
pub open spec fn prefix_text(tree: TreeView, blocks: Seq<BlockView>, j: int) -> Seq<u8>
    decreases j,
{
    if j <= 0 {
        blocks[0].text
    } else {
        prefix_text(tree, blocks, j - 1) + tree.token_text(j - 1) + blocks[j].text
    }
}

/// A value no larger than the largest `usize`.
pub open spec fn clip(n: nat) -> nat {
    if n > usize::MAX {
        usize::MAX as nat
    } else {
        n
    }
}

impl TreeView {
    /// Non-whitespace token `j` is a comment that runs to the end of its
    /// line.
    pub open spec fn is_line_comment(self, j: int) -> bool {
        &&& self.elements[self.tokens[j] as int].kind == TOKEN_COMMENT
        &&& self.token_text(j).len() > 0
        &&& self.token_text(j)[0] == HASH
    }

    /// Whitespace run `j` ends a line comment: its line break carries
    /// meaning and must stay.
    pub open spec fn semantic_newline(self, j: int) -> bool {
        j > 0 && self.is_line_comment(j - 1) && has_newline(self.space_text(j))
    }
}

impl ModelView {
    /// The overlay of an untouched tree.
    pub open spec fn initial(tree: TreeView) -> ModelView {
        ModelView {
            tree,
            blocks: Seq::new(
                tree.tokens.len() + 1,
                |j: int| BlockView { text: tree.space_text(j), reason: None },
            ),
            fixes: Seq::new(tree.tokens.len(), |j: int| Seq::empty()),
        }
    }

    /// The edits inside token `j` lie within the token and do not overlap.
    pub open spec fn fixes_ordered(self, j: int) -> bool {
        &&& forall|i: int|
            0 <= i < self.fixes[j].len() ==> self.tree.token_start(j) <= (
            #[trigger] self.fixes[j][i]).start <= self.fixes[j][i].end <= self.tree.token_end(j)
        &&& forall|a: int, b: int|
            0 <= a < b < self.fixes[j].len() ==> (#[trigger] self.fixes[j][a]).end <= (
            #[trigger] self.fixes[j][b]).start
    }

    /// The overlay invariant.
    pub open spec fn wf(self) -> bool {
        &&& self.tree.wf()
        &&& self.blocks.len() == self.tree.tokens.len() + 1
        &&& self.fixes.len() == self.tree.tokens.len()
        &&& forall|j: int| 0 <= j < self.fixes.len() ==> #[trigger] self.fixes_ordered(j)
    }

    /// The overlay after whitespace run `j` was given the text `text`. A
    /// run that ends a line comment keeps its text unless the new one
    /// holds a line break too. When the text changes, `reason` is recorded
    /// if it names a rule; a change without a rule leaves the recorded
    /// rule in place.
    pub open spec fn set_text(self, j: int, text: Seq<u8>, reason: Option<RuleName>) -> ModelView {
        if (self.tree.semantic_newline(j) && !has_newline(text)) || text == self.blocks[j].text {
            self
        } else {
            let reason = if reason is Some {
                reason
            } else {
                self.blocks[j].reason
            };
            ModelView { blocks: self.blocks.update(j, BlockView { text, reason }), ..self }
        }
    }

    /// The overlay after the line that begins behind whitespace run `j`
    /// was indented by `width` columns: the run keeps its line breaks and
    /// ends in `width` spaces.
    pub open spec fn set_indent(self, j: int, width: nat, reason: Option<RuleName>) -> ModelView {
        self.set_text(j, blank(count_newlines(self.blocks[j].text), width), reason)
    }

    /// An edit inside token `token` is accepted if it lies within the token
    /// and begins no earlier than the edits recorded for the token end.
    pub open spec fn accepts(self, token: int, e: EditView) -> bool {
        &&& 0 <= token < self.fixes.len()
        &&& self.tree.token_start(token) <= e.start <= e.end <= self.tree.token_end(token)
        &&& self.fixes[token].len() > 0 ==> self.fixes[token].last().end <= e.start
    }

    /// The overlay after `e` was offered as an edit inside token `token`.
    pub open spec fn raw_edit(self, token: int, e: EditView) -> ModelView {
        if self.accepts(token, e) {
            ModelView { fixes: self.fixes.update(token, self.fixes[token].push(e)), ..self }
        } else {
            self
        }
    }

    /// The edit for whitespace run `j`: none if the run reads as in the
    /// source.
    pub open spec fn space_edit(self, j: int) -> Seq<EditView> {
        if self.blocks[j].text == self.tree.space_text(j) {
            Seq::empty()
        } else {
            seq![
                EditView {
                    start: self.tree.space_start(j),
                    end: self.tree.space_end(j),
                    insert: self.blocks[j].text,
                    reason: self.blocks[j].reason,
                },
            ]
        }
    }

    /// The edits for the first `j` whitespace runs and tokens, left to
    /// right.
    pub open spec fn diff_upto(self, j: int) -> Seq<EditView>
        decreases j,
    {
        if j <= 0 {
            Seq::empty()
        } else {
            self.diff_upto(j - 1) + self.space_edit(j - 1) + self.fixes[j - 1]
        }
    }

    /// All edits, left to right.
    pub open spec fn diff(self) -> Seq<EditView> {
        self.diff_upto(self.tree.tokens.len() as int) + self.space_edit(
            self.tree.tokens.len() as int,
        )
    }

    /// The text in front of non-whitespace token `j` as the overlay has it:
    /// whitespace runs as they stand now, tokens as in the source.
    pub open spec fn prefix(self, j: int) -> Seq<u8> {
        prefix_text(self.tree, self.blocks, j)
    }

    /// The text in front of every non-whitespace token, and the whole text
    /// as the last entry.
    pub open spec fn prefixes(self) -> Seq<Seq<u8>> {
        Seq::new(self.tree.tokens.len() + 1, |j: int| prefix_text(self.tree, self.blocks, j))
    }

    /// The column at which non-whitespace token `j` begins: the number of
    /// bytes between the last line break in front of it and the token.
    pub open spec fn column(self, j: int) -> nat {
        indent_width(self.prefix(j))
    }

    /// Text of token `j` after the edits inside it.
    pub open spec fn fixed_token(self, j: int) -> Seq<u8> {
        apply_edits(self.tree.text.take(self.tree.token_end(j)), self.fixes[j]).skip(
            self.tree.token_start(j),
        )
    }
}

/// The text of an overlay written out, with the place of every
/// non-whitespace token in it.
pub struct Rendered {
    text: Vec<u8>,
    offsets: Vec<usize>,
}

impl View for Rendered {
    type V = Seq<Seq<u8>>;

    /// Entry `j` is the text in front of non-whitespace token `j`.
    closed spec fn view(&self) -> Seq<Seq<u8>> {
        Seq::new(self.offsets@.len(), |j: int| self.text@.take(self.offsets@[j] as int))
    }
}

impl Rendered {
    #[verifier::type_invariant]
    spec fn inv(self) -> bool {
        forall|j: int| 0 <= j < self.offsets@.len() ==> (#[trigger] self.offsets@[j]) <= self.text@.len()
    }

    /// Indentation of the line on which non-whitespace token `j` begins.
    pub fn line_indent_before(&self, j: usize) -> (indent: usize)
        requires
            j < self@.len(),
        ensures
            indent == crate::text::line_indent(self@[j as int], self@[j as int].len() as int),
    {
        proof {
            use_type_invariant(self);
            let head = self.text@.take(self.offsets@[j as int] as int);
            assert(head.take(head.len() as int) =~= head);
        }
        crate::text::line_indent_at(self.text.as_slice(), self.offsets[j])
    }
}

/// A whitespace run of the overlay. Created when a position is first asked
/// for or edited.
pub struct SpaceBlock {
    text: Vec<u8>,
    reason: Option<RuleName>,
    semantic_newline: bool,
}

/// The overlay of one formatting run.
pub struct FmtModel<'a> {
    tree: &'a SyntaxTree,
    blocks: Vec<Option<SpaceBlock>>,
    fixes: Vec<Vec<AtomEdit>>,
}

impl<'a> View for FmtModel<'a> {
    type V = ModelView;

    closed spec fn view(&self) -> ModelView {
        ModelView {
            tree: self.tree@,
            blocks: Seq::new(
                self.blocks@.len(),
                |j: int|
                    match self.blocks@[j] {
                        Some(b) => BlockView { text: b.text@, reason: b.reason },
                        None => BlockView { text: self.tree@.space_text(j), reason: None },
                    },
            ),
            fixes: Seq::new(self.fixes@.len(), |j: int| edits_view(self.fixes@[j]@)),
        }
    }
}

/// Whether whitespace run `j` of `tree` ends a line comment.
pub fn is_semantic_newline(tree: &SyntaxTree, j: usize) -> (b: bool)
    requires
        j <= tree@.tokens.len(),
    ensures
        b == tree@.semantic_newline(j as int),
{
    if j == 0 {
        return false;
    }
    let before = tree.token(j - 1);
    if tree.element(before).kind != TOKEN_COMMENT {
        return false;
    }
    let comment = tree.token_text(j - 1);
    if comment.len() == 0 || comment[0] != HASH {
        return false;
    }
    contains_newline(tree.space_text(j))
}

impl<'a> FmtModel<'a> {
    /// What the fields hold beyond the model: the flag of every created
    /// run is the one its place in the tree gives.
    pub closed spec fn flags_ok(&self) -> bool {
        forall|j: int|
            0 <= j < self.blocks@.len() && (#[trigger] self.blocks@[j]) is Some
                ==> self.blocks@[j]->0.semantic_newline == self.tree@.semantic_newline(j)
    }

    /// The overlay invariant.
    pub open spec fn wf(&self) -> bool {
        self@.wf() && self.flags_ok()
    }

    /// The overlay of `tree` with nothing changed.
    pub fn new(tree: &'a SyntaxTree) -> (model: FmtModel<'a>)
        ensures
            model.wf(),
            model@ == ModelView::initial(tree@),
    {
        proof {
            use_type_invariant(tree);
        }
        let k = tree.token_count();
        let mut blocks: Vec<Option<SpaceBlock>> = Vec::new();
        let mut fixes: Vec<Vec<AtomEdit>> = Vec::new();
        let mut j: usize = 0;
        while j < k
            invariant
                j <= k,
                blocks@.len() == j,
                fixes@.len() == j,
                forall|i: int| 0 <= i < j ==> (#[trigger] blocks@[i]) is None,
                forall|i: int| 0 <= i < j ==> (#[trigger] fixes@[i])@.len() == 0,
            decreases k - j,
        {
            blocks.push(None);
            fixes.push(Vec::new());
            j += 1;
        }
        blocks.push(None);
        let model = FmtModel { tree, blocks, fixes };
        proof {
            assert(model@.blocks =~= ModelView::initial(tree@).blocks);
            assert forall|i: int| 0 <= i < model@.fixes.len() implies #[trigger] model@.fixes[i]
                == Seq::<EditView>::empty() by {
                assert(model@.fixes[i] =~= Seq::<EditView>::empty());
            }
            assert(model@.fixes =~= ModelView::initial(tree@).fixes);
        }
        model
    }

    /// The tree under the overlay.
    pub fn tree(&self) -> (tree: &'a SyntaxTree)
        ensures
            tree@ == self@.tree,
    {
        self.tree
    }

    /// The whitespace run in front of or behind element `element`. The run
    /// is created if it was not there yet; its text is not changed.
    pub fn block_for(&mut self, element: usize, position: BlockPosition) -> (j: usize)
        requires
            old(self).wf(),
            element < old(self)@.tree.elements.len(),
        ensures
            final(self).wf(),
            final(self)@ == old(self)@,
            j <= final(self)@.tree.tokens.len(),
            j == match position {
                BlockPosition::Before => final(self)@.tree.elements[element as int].first_token,
                BlockPosition::After => final(self)@.tree.elements[element as int].end_token,
            },
    {
        proof {
            use_type_invariant(self.tree);
        }
        let e = self.tree.element(element);
        let j = match position {
            BlockPosition::Before => e.first_token,
            BlockPosition::After => e.end_token,
        };
        if self.blocks[j].is_none() {
            let semantic_newline = is_semantic_newline(self.tree, j);
            let text = copy_bytes(self.tree.space_text(j));
            self.blocks.set(j, Some(SpaceBlock { text, reason: None, semantic_newline }));
            proof {
                assert(self@.blocks =~= old(self)@.blocks);
                assert(self@.fixes =~= old(self)@.fixes);
            }
        }
        j
    }

    /// Current text of whitespace run `j`.
    pub fn block_text(&self, j: usize) -> (text: &[u8])
        requires
            self.wf(),
            j <= self@.tree.tokens.len(),
        ensures
            text@ == self@.blocks[j as int].text,
    {
        match &self.blocks[j] {
            Some(b) => b.text.as_slice(),
            None => self.tree.space_text(j),
        }
    }

    /// Whether whitespace run `j` holds a line break.
    pub fn has_newline(&self, j: usize) -> (b: bool)
        requires
            self.wf(),
            j <= self@.tree.tokens.len(),
        ensures
            b == has_newline(self@.blocks[j as int].text),
    {
        contains_newline(self.block_text(j))
    }

    /// Gives whitespace run `j` the text `text`.
    pub fn set_text(&mut self, j: usize, text: Vec<u8>, reason: Option<RuleName>)
        requires
            old(self).wf(),
            j <= old(self)@.tree.tokens.len(),
        ensures
            final(self).wf(),
            final(self)@ == old(self)@.set_text(j as int, text@, reason),
    {
        let ghost given = reason;
        let (semantic_newline, recorded) = match &self.blocks[j] {
            Some(b) => (b.semantic_newline, b.reason),
            None => (is_semantic_newline(self.tree, j), None),
        };
        if semantic_newline && !contains_newline(text.as_slice()) {
            return ;
        }
        if same_bytes(self.block_text(j), text.as_slice()) {
            return ;
        }
        let reason = if reason.is_some() {
            reason
        } else {
            recorded
        };
        self.blocks.set(j, Some(SpaceBlock { text, reason, semantic_newline }));
        proof {
            assert(self@.blocks =~= old(self)@.set_text(j as int, text@, given).blocks);
            assert(self@.fixes =~= old(self)@.fixes);
            assert forall|t: int| 0 <= t < self@.fixes.len() implies #[trigger] self@.fixes_ordered(
                t,
            ) by {
                assert(old(self)@.fixes_ordered(t));
            }
        }
    }

    /// Indents the line that begins behind whitespace run `j` by `width`
    /// columns.
    pub fn set_indent(&mut self, j: usize, width: usize, reason: Option<RuleName>)
        requires
            old(self).wf(),
            j <= old(self)@.tree.tokens.len(),
        ensures
            final(self).wf(),
            final(self)@ == old(self)@.set_indent(j as int, width as nat, reason),
    {
        let newlines = newline_count(self.block_text(j));
        let text = make_blank(newlines, width);
        self.set_text(j, text, reason);
    }

    /// The column at which non-whitespace token `j` begins (the end of the
    /// text for `j` one past the last token), no larger than the largest
    /// `usize`.
    pub fn column_of(&self, j: usize) -> (column: usize)
        requires
            self.wf(),
            j <= self@.tree.tokens.len(),
        ensures
            column == clip(self@.column(j as int)),
    {
        let mut acc: usize = 0;
        let ghost mut tail: nat = 0;
        let mut i: usize = j;
        loop
            invariant
                self.wf(),
                i <= j <= self@.tree.tokens.len(),
                self@.column(j as int) == indent_width(self@.prefix(i as int)) + tail,
                acc == clip(tail),
            decreases i,
        {
            let space = self.block_text(i);
            let ghost head = if i == 0 {
                Seq::<u8>::empty()
            } else {
                self@.prefix(i - 1) + self@.tree.token_text(i - 1)
            };
            proof {
                assert(self@.prefix(i as int) =~= head + space@);
                lemma_indent_width_concat(head, space@);
            }
            if contains_newline(space) {
                return saturating_sum(trailing_width(space), acc);
            }
            acc = saturating_sum(acc, space.len());
            proof {
                tail = tail + space@.len();
            }
            if i == 0 {
                return acc;
            }
            i -= 1;
            let token = self.tree.token_text(i);
            proof {
                lemma_indent_width_concat(self@.prefix(i as int), token@);
            }
            if contains_newline(token) {
                return saturating_sum(trailing_width(token), acc);
            }
            acc = saturating_sum(acc, token.len());
            proof {
                tail = tail + token@.len();
            }
        }
    }

    /// Offers `edit` as an edit inside non-whitespace token `token`. It is
    /// recorded if it lies within the token and begins no earlier than the
    /// edits already recorded for the token end; otherwise nothing
    /// changes.
    pub fn raw_edit(&mut self, token: usize, edit: AtomEdit) -> (accepted: bool)
        requires
            old(self).wf(),
        ensures
            final(self).wf(),
            accepted == old(self)@.accepts(token as int, edit@),
            final(self)@ == old(self)@.raw_edit(token as int, edit@),
    {
        proof {
            use_type_invariant(self.tree);
        }
        if token >= self.fixes.len() {
            return false;
        }
        let e = self.tree.element(self.tree.token(token));
        if !(e.start <= edit.delete.start && edit.delete.start <= edit.delete.end
            && edit.delete.end <= e.end) {
            return false;
        }
        let recorded = self.fixes[token].len();
        assert(edits_view(self.fixes@[token as int]@) == self@.fixes[token as int]);
        if recorded > 0 && self.fixes[token][recorded - 1].delete.end > edit.delete.start {
            return false;
        }
        let ghost edit_view = edit@;
        let mut list: Vec<AtomEdit> = Vec::new();
        self.fixes.set_and_swap(token, &mut list);
        list.push(edit);
        self.fixes.set(token, list);
        proof {
            let before = old(self)@;
            let after = before.raw_edit(token as int, edit_view);
            assert(self@.blocks =~= after.blocks);
            assert forall|t: int| 0 <= t < self@.fixes.len() implies #[trigger] self@.fixes[t]
                == after.fixes[t] by {
                if t == token {
                    assert(self@.fixes[t] =~= before.fixes[t].push(edit_view));
                } else {
                    assert(self.fixes@[t] == old(self).fixes@[t]);
                }
            }
            assert(self@.fixes =~= after.fixes);
            assert forall|t: int| 0 <= t < self@.fixes.len() implies #[trigger] self@.fixes_ordered(
                t,
            ) by {
                assert(before.fixes_ordered(t));
            }
        }
        true
    }

    /// Writes out the text as the overlay has it, tokens as in the source,
    /// and notes where every non-whitespace token begins in it.
    pub fn render(&self) -> (rendered: Rendered)
        requires
            self.wf(),
        ensures
            rendered@ == self@.prefixes(),
    {
        let tree = self.tree;
        let k = tree.token_count();
        let mut text: Vec<u8> = Vec::new();
        let mut offsets: Vec<usize> = Vec::new();
        let mut j: usize = 0;
        while j < k
            invariant
                j <= k == self@.tree.tokens.len(),
                self.wf(),
                tree@ == self@.tree,
                offsets@.len() == j,
                j == 0 ==> text@.len() == 0,
                j > 0 ==> text@ == self@.prefix(j - 1) + tree@.token_text(j - 1),
                forall|i: int|
                    0 <= i < j ==> (#[trigger] offsets@[i]) <= text@.len() && text@.take(
                        offsets@[i] as int,
                    ) == self@.prefix(i),
            decreases k - j,
        {
            let ghost before = text@;
            text.extend_from_slice(self.block_text(j));
            offsets.push(text.len());
            proof {
                assert(text@ =~= self@.prefix(j as int));
                assert(text@.take(text@.len() as int) =~= text@);
            }
            let ghost whole = text@;
            text.extend_from_slice(tree.token_text(j));
            proof {
                assert forall|i: int| 0 <= i <= j implies (#[trigger] offsets@[i]) <= text@.len()
                    && text@.take(offsets@[i] as int) == self@.prefix(i) by {
                    assert(text@.take(offsets@[i] as int) =~= whole.take(offsets@[i] as int));
                    if i < j {
                        assert(whole.take(offsets@[i] as int) =~= before.take(offsets@[i] as int));
                    }
                }
            }
            j += 1;
        }
        let ghost before = text@;
        text.extend_from_slice(self.block_text(k));
        offsets.push(text.len());
        proof {
            assert(text@ =~= self@.prefix(k as int));
            assert(text@.take(text@.len() as int) =~= text@);
            assert forall|i: int| 0 <= i <= k implies (#[trigger] offsets@[i]) <= text@.len()
                && text@.take(offsets@[i] as int) == self@.prefix(i) by {
                if i < k {
                    assert(text@.take(offsets@[i] as int) =~= before.take(offsets@[i] as int));
                }
            }
        }
        let rendered = Rendered { text, offsets };
        proof {
            assert(rendered@ =~= self@.prefixes());
        }
        rendered
    }

    /// Reduces the overlay to the ordered list of atomic edits.
    pub fn into_diff(self) -> (diff: FmtDiff)
        requires
            self.wf(),
        ensures
            diff@ == self@.diff(),
            ordered(diff@, self@.tree.text.len() as int),
    {
        proof {
            use_type_invariant(self.tree);
            crate::laws::lemma_diff_ordered(self@);
        }
        let ghost model = self@;
        let tree = self.tree;
        let mut blocks = self.blocks;
        let mut fixes = self.fixes;
        let k = tree.token_count();
        let mut edits: Vec<AtomEdit> = Vec::new();
        let mut j: usize = 0;
        while j < k
            invariant
                j <= k,
                k == model.tree.tokens.len(),
                model.tree == tree@,
                model.wf(),
                blocks@.len() == k + 1,
                fixes@.len() == k,
                forall|i: int|
                    j <= i <= k ==> model.blocks[i] == match #[trigger] blocks@[i] {
                        Some(b) => BlockView { text: b.text@, reason: b.reason },
                        None => BlockView { text: tree@.space_text(i), reason: None },
                    },
                forall|i: int| j <= i < k ==> model.fixes[i] == edits_view((#[trigger] fixes@[i])@),
                edits_view(edits@) == model.diff_upto(j as int),
            decreases k - j,
        {
            let mut slot: Option<SpaceBlock> = None;
            blocks.set_and_swap(j, &mut slot);
            let ghost before = edits_view(edits@);
            if let Some(block) = slot {
                if !same_bytes(block.text.as_slice(), tree.space_text(j)) {
                    let (start, end) = tree.space_range(j);
                    edits.push(
                        AtomEdit {
                            delete: TextRange { start, end },
                            insert: block.text,
                            reason: block.reason,
                        },
                    );
                }
            }
            let mut list: Vec<AtomEdit> = Vec::new();
            fixes.set_and_swap(j, &mut list);
            let ghost with_space = edits_view(edits@);
            edits.append(&mut list);
            proof {
                assert(with_space =~= before + model.space_edit(j as int));
                assert(edits_view(edits@) =~= with_space + model.fixes[j as int]);
            }
            j += 1;
        }
        let mut slot: Option<SpaceBlock> = None;
        blocks.set_and_swap(k, &mut slot);
        let ghost before = edits_view(edits@);
        if let Some(block) = slot {
            if !same_bytes(block.text.as_slice(), tree.space_text(k)) {
                let (start, end) = tree.space_range(k);
                edits.push(
                    AtomEdit {
                        delete: TextRange { start, end },
                        insert: block.text,
                        reason: block.reason,
                    },
                );
            }
        }
        proof {
            assert(edits_view(edits@) =~= before + model.space_edit(k as int));
        }
        FmtDiff::from_edits(edits)
    }
}

} // verus!
