//! Third pass: narrow touch-ups that need the final indentation.
//!
//! Two fix-ups are known. The content lines of an indented string move
//! with the line on which the string opens, so the layout inside the
//! literal stays what it was relative to the code around it. A bare URI
//! is put in double quotes. Both edit the inside of a token and go past
//! the whitespace runs.
use crate::diff::{AtomEdit, EditView, TextRange};
use crate::engine::fmt_model::{FmtModel, ModelView, Rendered};
use crate::kinds::{NODE_STRING, TOKEN_STRING_CONTENT, TOKEN_STRING_START, TOKEN_URI};
use crate::text::{blank, count_leading_spaces, leading_spaces, line_indent, line_indent_at, make_blank, NEWLINE};
use crate::tree::TreeView;
use vstd::prelude::*;

verus! {

/// The double quote.
pub const QUOTE: u8 = 34;

/// The apostrophe; two of them open an indented string.
pub const APOSTROPHE: u8 = 39;

impl TreeView {
    /// Element `e` is a bare URI.
    pub open spec fn is_uri(self, e: int) -> bool {
        self.elements[e].is_token && self.elements[e].kind == TOKEN_URI
    }

    /// If element `e` is content of an indented string, the index of the
    /// non-whitespace token that opens the string.
    pub open spec fn indented_string(self, e: int) -> Option<int> {
        let content = self.elements[e];
        if content.is_token && content.kind == TOKEN_STRING_CONTENT && content.parent is Some {
            let literal = self.elements[content.parent->0 as int];
            let opening = literal.first_token as int;
            if literal.kind == NODE_STRING && opening < literal.end_token
                && self.elements[self.tokens[opening] as int].kind == TOKEN_STRING_START
                && self.token_text(opening) == seq![APOSTROPHE, APOSTROPHE] {
                Some(opening)
            } else {
                None
            }
        } else {
            None
        }
    }
}

impl ModelView {
    /// By how many columns the line on which token `opening` begins has
    /// moved: its indentation in the overlay less its indentation in the
    /// source.
    pub open spec fn opening_shift(self, opening: int) -> int {
        line_indent(self.prefix(opening), self.prefix(opening).len() as int) - line_indent(
            self.tree.text,
            self.tree.token_start(opening),
        )
    }

    /// The overlay after the line that begins at position `q` inside token
    /// `j` was moved by `delta` columns. A line of spaces only that is
    /// followed by another line stays. A line moved to the left loses no
    /// more spaces than it has.
    pub open spec fn shift_line(self, j: int, delta: int, q: int) -> ModelView {
        let end = self.tree.token_end(j);
        let spaces = leading_spaces(self.tree.text.subrange(q, end));
        if q + spaces < end && self.tree.text[q + spaces] == NEWLINE {
            self
        } else if delta > 0 {
            self.raw_edit(
                j,
                EditView { start: q, end: q, insert: blank(0, delta as nat), reason: None },
            )
        } else {
            let cut = if spaces <= -delta {
                spaces as int
            } else {
                -delta
            };
            if cut > 0 {
                self.raw_edit(
                    j,
                    EditView { start: q, end: q + cut, insert: Seq::empty(), reason: None },
                )
            } else {
                self
            }
        }
    }

    /// The overlay after every line that begins inside token `j` before
    /// position `upto` was moved by `delta` columns. A line begins behind
    /// each line break of the token.
    pub open spec fn shift_lines(self, j: int, delta: int, upto: int) -> ModelView
        decreases upto,
    {
        if upto <= self.tree.token_start(j) {
            self
        } else {
            let m = self.shift_lines(j, delta, upto - 1);
            if self.tree.text[upto - 1] == NEWLINE {
                m.shift_line(j, delta, upto)
            } else {
                m
            }
        }
    }

    /// The overlay after token `j` was put in double quotes.
    pub open spec fn quote_token(self, j: int) -> ModelView {
        self.raw_edit(
            j,
            EditView {
                start: self.tree.token_start(j),
                end: self.tree.token_start(j),
                insert: seq![QUOTE],
                reason: None,
            },
        ).raw_edit(
            j,
            EditView {
                start: self.tree.token_end(j),
                end: self.tree.token_end(j),
                insert: seq![QUOTE],
                reason: None,
            },
        )
    }

    /// The overlay after the fix-ups for element `e`.
    pub open spec fn fix_element(self, e: int) -> ModelView {
        let j = self.tree.elements[e].first_token as int;
        if self.tree.is_uri(e) {
            self.quote_token(j)
        } else {
            match self.tree.indented_string(e) {
                Some(opening) => self.shift_lines(
                    j,
                    self.opening_shift(opening),
                    self.tree.token_end(j),
                ),
                None => self,
            }
        }
    }

    /// The overlay after the fix-ups for the first `n` elements of `walk`.
    pub open spec fn fix_elements(self, walk: Seq<usize>, n: int) -> ModelView
        decreases n,
    {
        if n <= 0 {
            self
        } else {
            self.fix_elements(walk, n - 1).fix_element(walk[n - 1] as int)
        }
    }

    /// The overlay after the fix-up pass.
    pub open spec fn fix_pass(self) -> ModelView {
        self.fix_elements(self.tree.walk(), self.tree.walk().len() as int)
    }
}

/// Moves every line that begins inside non-whitespace token `j` by
/// `grow - shrink` columns: to the right if that is positive, to the left
/// if it is negative.
pub fn shift_lines(model: &mut FmtModel, j: usize, grow: usize, shrink: usize)
    requires
        old(model).wf(),
        j < old(model)@.tree.tokens.len(),
    ensures
        final(model).wf(),
        final(model)@ == old(model)@.shift_lines(
            j as int,
            grow - shrink,
            old(model)@.tree.token_end(j as int),
        ),
{
    let tree = model.tree();
    proof {
        use_type_invariant(tree);
    }
    let e = tree.element(tree.token(j));
    let text = tree.text();
    let ghost start = model@;
    let ghost delta = grow - shrink;
    let (grow, shrink) = if grow >= shrink {
        (grow - shrink, 0)
    } else {
        (0, shrink - grow)
    };
    let mut q: usize = e.start;
    while q < e.end
        invariant
            e.start <= q <= e.end <= text@.len(),
            e.start == tree@.token_start(j as int),
            e.end == tree@.token_end(j as int),
            text@ == tree@.text,
            model.wf(),
            model@.tree == tree@,
            start.tree == tree@,
            delta == grow - shrink,
            grow == 0 || shrink == 0,
            model@ == start.shift_lines(j as int, delta, q as int),
        decreases e.end - q,
    {
        q += 1;
        if text[q - 1] == NEWLINE {
            let rest = vstd::slice::slice_subrange(text, q, e.end);
            let spaces = count_leading_spaces(rest);
            let blank_line = q + spaces < e.end && text[q + spaces] == NEWLINE;
            if !blank_line {
                if grow > 0 {
                    let insert = make_blank(0, grow);
                    model.raw_edit(
                        j,
                        AtomEdit { delete: TextRange { start: q, end: q }, insert, reason: None },
                    );
                } else {
                    let cut = if spaces <= shrink {
                        spaces
                    } else {
                        shrink
                    };
                    if cut > 0 {
                        model.raw_edit(
                            j,
                            AtomEdit {
                                delete: TextRange { start: q, end: q + cut },
                                insert: Vec::new(),
                                reason: None,
                            },
                        );
                    }
                }
            }
        }
    }
}

/// Performs the fix-ups for element `element`. `rendered` is the overlay's
/// text written out before the pass began.
pub fn fix(element: usize, model: &mut FmtModel, rendered: &Rendered)
    requires
        old(model).wf(),
        element < old(model)@.tree.elements.len(),
        rendered@ == old(model)@.prefixes(),
    ensures
        final(model).wf(),
        final(model)@ == old(model)@.fix_element(element as int),
{
    let tree = model.tree();
    proof {
        use_type_invariant(tree);
    }
    let e = tree.element(element);
    if !e.is_token {
        return ;
    }
    if e.kind == TOKEN_URI {
        let j = e.first_token;
        let mut open_quote: Vec<u8> = Vec::new();
        open_quote.push(QUOTE);
        let mut close_quote: Vec<u8> = Vec::new();
        close_quote.push(QUOTE);
        proof {
            assert(open_quote@ =~= seq![QUOTE]);
            assert(close_quote@ =~= seq![QUOTE]);
        }
        model.raw_edit(
            j,
            AtomEdit {
                delete: TextRange { start: e.start, end: e.start },
                insert: open_quote,
                reason: None,
            },
        );
        model.raw_edit(
            j,
            AtomEdit {
                delete: TextRange { start: e.end, end: e.end },
                insert: close_quote,
                reason: None,
            },
        );
        return ;
    }
    if e.kind != TOKEN_STRING_CONTENT {
        return ;
    }
    let literal = match e.parent {
        Some(p) => tree.element(p),
        None => {
            return ;
        },
    };
    let opening = literal.first_token;
    if literal.kind != NODE_STRING || opening >= literal.end_token {
        return ;
    }
    if tree.element(tree.token(opening)).kind != TOKEN_STRING_START {
        return ;
    }
    let delimiter = tree.token_text(opening);
    if !(delimiter.len() == 2 && delimiter[0] == APOSTROPHE && delimiter[1] == APOSTROPHE) {
        proof {
            if delimiter@.len() == 2 {
                assert(seq![APOSTROPHE, APOSTROPHE][0] == APOSTROPHE);
                assert(seq![APOSTROPHE, APOSTROPHE][1] == APOSTROPHE);
            }
        }
        return ;
    }
    proof {
        assert(delimiter@ =~= seq![APOSTROPHE, APOSTROPHE]);
        assert(rendered@[opening as int] == model@.prefix(opening as int));
    }
    let indent = rendered.line_indent_before(opening);
    let source_indent = line_indent_at(tree.text(), tree.element(tree.token(opening)).start);
    shift_lines(model, e.first_token, indent, source_indent);
}

/// The fix-up pass: visits the non-whitespace elements in depth-first order
/// and performs the fix-ups for each.
pub fn apply_fixes(model: &mut FmtModel)
    requires
        old(model).wf(),
    ensures
        final(model).wf(),
        final(model)@ == old(model)@.fix_pass(),
        final(model)@.tree == old(model)@.tree,
{
    let tree = model.tree();
    let rendered = model.render();
    let walk = tree.walk_non_whitespace();
    let ghost start = model@;
    let n = tree.len();
    proof {
        use_type_invariant(tree);
        start.tree.lemma_walk_upto(n as int);
    }
    let mut w: usize = 0;
    while w < walk.len()
        invariant
            w <= walk.len(),
            model.wf(),
            model@.tree == tree@,
            model@.blocks == start.blocks,
            start.tree == tree@,
            start == old(model)@,
            walk@ == tree@.walk(),
            rendered@ == start.prefixes(),
            forall|k: int| 0 <= k < walk@.len() ==> (#[trigger] walk@[k]) < tree@.elements.len(),
            model@ == start.fix_elements(walk@, w as int),
        decreases walk.len() - w,
    {
        proof {
            assert(model@.prefixes() =~= start.prefixes());
            lemma_fix_keeps_blocks(model@, walk@[w as int] as int);
        }
        fix(walk[w], model, &rendered);
        w += 1;
    }
}

/// Edits inside tokens leave the whitespace runs and the tree alone.
pub proof fn lemma_shift_keeps_blocks(m: ModelView, j: int, delta: int, upto: int)
    ensures
        m.shift_lines(j, delta, upto).blocks == m.blocks,
        m.shift_lines(j, delta, upto).tree == m.tree,
    decreases upto,
{
    if upto > m.tree.token_start(j) {
        lemma_shift_keeps_blocks(m, j, delta, upto - 1);
    }
}

/// A fix-up leaves the whitespace runs and the tree alone.
pub proof fn lemma_fix_keeps_blocks(m: ModelView, e: int)
    ensures
        m.fix_element(e).blocks == m.blocks,
        m.fix_element(e).tree == m.tree,
{
    let j = m.tree.elements[e].first_token as int;
    if !m.tree.is_uri(e) {
        if let Some(opening) = m.tree.indented_string(e) {
            lemma_shift_keeps_blocks(m, j, m.opening_shift(opening), m.tree.token_end(j));
        }
    }
}

} // verus!
