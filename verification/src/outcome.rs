//! What the whitespace runs of a finished run read: the line breaks the
//! last directive asked for, and the indentation that the matching rule or
//! the default policy gives, measured in the finished overlay itself.
use crate::dsl::{indent_patterns, IndentRule, SpaceValue, SpacingRule};
use crate::engine::fmt_model::ModelView;
use crate::engine::formatted;
use crate::engine::indentation::{lemma_indent_failure_sticks, INDENT_SIZE};
use crate::laws::{
    lemma_default_indent_follows_anchor, lemma_fix_elements_faithful, lemma_formatted_faithful,
    lemma_indent_elements, lemma_initial_faithful, lemma_spacing_pass_faithful,
};
use crate::pattern::{matching_spec, Pattern};
use crate::settle::{
    directed, directed_all, lemma_same_lines, lemma_set_indent_step, lemma_spacing_pass_directs,
    lemma_target_agrees,
};
use crate::diff::EditView;
use crate::engine::fixes::QUOTE;
use crate::text::{
    blank, count_newlines, leading_spaces, lemma_blank, lemma_count_has_newline,
    lemma_leading_spaces, sat_add, NEWLINE, SPACE,
};
use crate::tree::TreeView;
use vstd::prelude::*;

verus! {

impl ModelView {
    /// The column the indentation pass gives element `e`: that of the one
    /// matching rule, or that of the default policy if no rule matches.
    pub open spec fn indent_target(
        self,
        rules: Seq<IndentRule>,
        anchors: Seq<Pattern>,
        e: int,
    ) -> nat {
        let matched = matching_spec(indent_patterns(rules), self.tree, e);
        if matched.len() == 1 {
            self.rule_target(anchors, rules[matched[0] as int].action, e)
        } else {
            self.default_target(anchors, e)
        }
    }

    /// One of the elements at places `lo` to `hi - 1` of `walk` indents
    /// whitespace run `i`.
    pub open spec fn indented_between(self, walk: Seq<usize>, lo: int, hi: int, i: int) -> bool {
        exists|w: int| lo <= w < hi && #[trigger] self.indents(walk, w, i)
    }

    /// The overlay after the spacing pass of a run on `tree`.
    pub open spec fn spaced_from(tree: TreeView, spacing: Seq<SpacingRule>) -> ModelView {
        ModelView::initial(tree).spacing_pass(spacing)
    }
}

/// An element that does not begin a line, or begins where its parent
/// begins, is passed over by the indentation pass, whatever rules match
/// it.
pub proof fn lemma_exempt_is_skipped(
    m: ModelView,
    rules: Seq<IndentRule>,
    anchors: Seq<Pattern>,
    e: int,
)
    requires
        !m.starts_line(e) || m.is_exempt(e),
    ensures
        m.indent_element(rules, anchors, e) == Ok::<ModelView, crate::engine::FormatError>(m),
{
}

/// What one visit of the indentation pass does: an element that needs an
/// indent has its run set to the run's line breaks and the element's
/// column; no other run changes, and no line break moves.
pub proof fn lemma_indent_step(a: ModelView, rules: Seq<IndentRule>, anchors: Seq<Pattern>, e: int)
    requires
        a.wf(),
        0 <= e < a.tree.elements.len(),
    ensures
        a.indent_element(rules, anchors, e) matches Ok(x) ==> {
            &&& x.wf()
            &&& x.tree == a.tree
            &&& x.blocks.len() == a.blocks.len()
            &&& forall|i: int| 0 <= i < a.blocks.len() ==> #[trigger] x.same_count(a, i)
            &&& forall|i: int|
                0 <= i < a.blocks.len() && i != a.tree.elements[e].first_token
                    ==> #[trigger] x.same_text(a, i)
            &&& !a.needs_indent(e) ==> x == a
            &&& a.needs_indent(e) ==> x.blocks[a.tree.elements[e].first_token as int].text
                == blank(
                count_newlines(a.blocks[a.tree.elements[e].first_token as int].text),
                a.indent_target(rules, anchors, e),
            )
        },
{
    let j = a.tree.elements[e].first_token as int;
    assert(a.tree.elements[e].first_token <= a.tree.elements[e].end_token <= a.tree.tokens.len());
    let matched = matching_spec(indent_patterns(rules), a.tree, e);
    if a.needs_indent(e) && matched.len() < 2 {
        let reason = if matched.len() == 1 {
            rules[matched[0] as int].name
        } else {
            None
        };
        lemma_set_indent_step(a, j, a.indent_target(rules, anchors, e), reason);
    }
}

/// While the indentation pass has not failed, every overlay on its way is
/// well formed and holds the line breaks it began with.
pub proof fn lemma_indent_prefix(
    m: ModelView,
    rules: Seq<IndentRule>,
    anchors: Seq<Pattern>,
    walk: Seq<usize>,
    n: int,
    total: int,
)
    requires
        m.wf(),
        0 <= n <= total <= walk.len(),
        forall|k: int| 0 <= k < walk.len() ==> (#[trigger] walk[k]) < m.tree.elements.len(),
        m.indent_elements(rules, anchors, walk, total) is Ok,
    ensures
        m.indent_elements(rules, anchors, walk, n) matches Ok(a) && a.wf() && a.same_breaks(m),
    decreases n,
{
    if m.indent_elements(rules, anchors, walk, n) is Err {
        lemma_indent_failure_sticks(m, rules, anchors, walk, n, total);
    }
    if n > 0 {
        lemma_indent_prefix(m, rules, anchors, walk, n - 1, total);
        let before = m.indent_elements(rules, anchors, walk, n - 1)->Ok_0;
        let a = m.indent_elements(rules, anchors, walk, n)->Ok_0;
        lemma_indent_step(before, rules, anchors, walk[n - 1] as int);
        assert forall|i: int| 0 <= i < a.blocks.len() implies #[trigger] a.same_count(m, i) by {
            assert(a.same_count(before, i));
            assert(before.same_count(m, i));
        }
    } else {
        assert forall|i: int| 0 <= i < m.blocks.len() implies #[trigger] m.same_count(m, i) by {}
    }
}

/// A whitespace run that none of the elements at places `lo` to `hi - 1`
/// indents reads after them as it did before them.
pub proof fn lemma_indent_frame(
    m: ModelView,
    rules: Seq<IndentRule>,
    anchors: Seq<Pattern>,
    walk: Seq<usize>,
    lo: int,
    hi: int,
    i: int,
)
    requires
        m.wf(),
        0 <= lo <= hi <= walk.len(),
        forall|k: int| 0 <= k < walk.len() ==> (#[trigger] walk[k]) < m.tree.elements.len(),
        m.indent_elements(rules, anchors, walk, hi) is Ok,
        0 <= i < m.blocks.len(),
        !m.indented_between(walk, lo, hi, i),
    ensures
        m.indent_elements(rules, anchors, walk, lo) is Ok,
        m.indent_elements(rules, anchors, walk, hi)->Ok_0.same_text(
            m.indent_elements(rules, anchors, walk, lo)->Ok_0,
            i,
        ),
    decreases hi - lo,
{
    lemma_indent_prefix(m, rules, anchors, walk, lo, hi);
    if lo < hi {
        lemma_indent_prefix(m, rules, anchors, walk, hi - 1, hi);
        let before = m.indent_elements(rules, anchors, walk, hi - 1)->Ok_0;
        let e = walk[hi - 1] as int;
        assert(!m.indented_between(walk, lo, hi - 1, i)) by {
            if m.indented_between(walk, lo, hi - 1, i) {
                let w = choose|w: int| lo <= w < hi - 1 && #[trigger] m.indents(walk, w, i);
                assert(m.indents(walk, w, i));
            }
        }
        lemma_indent_frame(m, rules, anchors, walk, lo, hi - 1, i);
        lemma_indent_step(before, rules, anchors, e);
        lemma_same_lines(before, m, e);
        assert(!m.indents(walk, hi - 1, i));
        let after = m.indent_elements(rules, anchors, walk, hi)->Ok_0;
        if before.needs_indent(e) {
            assert(after.same_text(before, i));
        }
    }
}

/// The last directive addressed to a whitespace run decides its line
/// breaks: if it asks for at least `n`, the run has at least `n` when the
/// formatting run ends.
pub proof fn lemma_line_breaks_in_output(
    tree: TreeView,
    spacing: Seq<SpacingRule>,
    indent: Seq<IndentRule>,
    anchors: Seq<Pattern>,
    j: int,
    n: usize,
)
    requires
        tree.wf(),
        0 <= j <= tree.tokens.len(),
        tree.walk_values(spacing, tree.walk(), tree.walk().len() as int, j).len() > 0,
        tree.walk_values(spacing, tree.walk(), tree.walk().len() as int, j).last()
            == SpaceValue::Newlines(n),
        formatted(tree, spacing, indent, anchors) is Ok,
    ensures
        count_newlines(formatted(tree, spacing, indent, anchors)->Ok_0.blocks[j].text) >= n,
{
    let start = ModelView::initial(tree);
    let walk = tree.walk();
    let total = walk.len() as int;
    let values = tree.walk_values(spacing, walk, total, j);
    lemma_initial_faithful(tree);
    lemma_spacing_pass_faithful(start, spacing);
    tree.lemma_walk_upto(tree.elements.len() as int);
    let spaced = start.spacing_pass(spacing);
    lemma_spacing_pass_directs(start, spacing, j);
    let keep = tree.semantic_newline(j);
    let before = directed_all(keep, values.drop_last(), start.blocks[j].text);
    assert(spaced.blocks[j].text == directed(keep, SpaceValue::Newlines(n), before));
    lemma_blank(n as nat, crate::text::indent_width(before));
    lemma_count_has_newline(before);
    lemma_count_has_newline(blank(n as nat, crate::text::indent_width(before)));
    assert(count_newlines(spaced.blocks[j].text) >= n);
    let indented = spaced.indentation_pass(indent, anchors)->Ok_0;
    lemma_indent_prefix(spaced, indent, anchors, walk, total, total);
    assert(indented.same_count(spaced, j));
    lemma_indent_elements(spaced, indent, anchors, walk, total);
    lemma_fix_elements_faithful(indented, walk, total);
}

/// A whitespace run in front of which no element needs an indent ends
/// the formatting run as the spacing pass has left it.
pub proof fn lemma_unindented_in_output(
    tree: TreeView,
    spacing: Seq<SpacingRule>,
    indent: Seq<IndentRule>,
    anchors: Seq<Pattern>,
    i: int,
)
    requires
        tree.wf(),
        formatted(tree, spacing, indent, anchors) is Ok,
        0 <= i <= tree.tokens.len(),
        !ModelView::spaced_from(tree, spacing).indented_between(
            tree.walk(),
            0,
            tree.walk().len() as int,
            i,
        ),
    ensures
        formatted(tree, spacing, indent, anchors)->Ok_0.blocks[i].text == ModelView::spaced_from(
            tree,
            spacing,
        ).blocks[i].text,
{
    let start = ModelView::initial(tree);
    let walk = tree.walk();
    let total = walk.len() as int;
    lemma_initial_faithful(tree);
    lemma_spacing_pass_faithful(start, spacing);
    tree.lemma_walk_upto(tree.elements.len() as int);
    let spaced = start.spacing_pass(spacing);
    lemma_indent_elements(spaced, indent, anchors, walk, total);
    let indented = spaced.indentation_pass(indent, anchors)->Ok_0;
    lemma_fix_elements_faithful(indented, walk, total);
    lemma_indent_frame(spaced, indent, anchors, walk, 0, total, i);
}

/// The indentation of a line in the finished overlay. If element `e`
/// needs an indent, no later element indents the same whitespace run, and
/// the parent of `e` begins in front of an earlier token, then the run in
/// front of `e` ends the formatting run as its line breaks followed by the
/// column of `e`, and that column is the one the matching rule or the
/// default policy gives when measured in the finished overlay.
pub proof fn lemma_indent_in_output(
    tree: TreeView,
    spacing: Seq<SpacingRule>,
    indent: Seq<IndentRule>,
    anchors: Seq<Pattern>,
    w: int,
)
    requires
        tree.wf(),
        formatted(tree, spacing, indent, anchors) is Ok,
        0 <= w < tree.walk().len(),
        ModelView::spaced_from(tree, spacing).needs_indent(tree.walk()[w] as int),
        tree.walk()[w] > 0 ==> tree.elements[tree.elements[tree.walk()[w] as int].parent->0 as int].first_token
            < tree.elements[tree.walk()[w] as int].first_token,
        !ModelView::spaced_from(tree, spacing).indented_between(
            tree.walk(),
            w + 1,
            tree.walk().len() as int,
            tree.elements[tree.walk()[w] as int].first_token as int,
        ),
    ensures
        ({
            let m = formatted(tree, spacing, indent, anchors)->Ok_0;
            let e = tree.walk()[w] as int;
            let j = tree.elements[e].first_token as int;
            &&& m.tree == tree
            &&& m.same_breaks(ModelView::spaced_from(tree, spacing))
            &&& m.blocks[j].text == blank(
                count_newlines(m.blocks[j].text),
                m.indent_target(indent, anchors, e),
            )
        }),
{
    let start = ModelView::initial(tree);
    let walk = tree.walk();
    let total = walk.len() as int;
    lemma_initial_faithful(tree);
    lemma_spacing_pass_faithful(start, spacing);
    lemma_formatted_faithful(tree, spacing, indent, anchors);
    tree.lemma_walk_upto(tree.elements.len() as int);
    let spaced = start.spacing_pass(spacing);
    let e = walk[w] as int;
    let j = tree.elements[e].first_token as int;
    assert(tree.elements[e].first_token <= tree.elements[e].end_token <= tree.tokens.len());
    let indented = spaced.indentation_pass(indent, anchors)->Ok_0;
    let m = formatted(tree, spacing, indent, anchors)->Ok_0;
    lemma_indent_elements(spaced, indent, anchors, walk, total);
    lemma_fix_elements_faithful(indented, walk, total);
    // The overlays before and after the visit of `e`, and at the end.
    lemma_indent_prefix(spaced, indent, anchors, walk, w, total);
    lemma_indent_prefix(spaced, indent, anchors, walk, w + 1, total);
    lemma_indent_prefix(spaced, indent, anchors, walk, total, total);
    let before = spaced.indent_elements(indent, anchors, walk, w)->Ok_0;
    let after = spaced.indent_elements(indent, anchors, walk, w + 1)->Ok_0;
    lemma_same_lines(before, spaced, e);
    lemma_indent_step(before, indent, anchors, e);
    // What lies in front of the run of `e` is final when `e` is visited.
    assert forall|i: int| 0 <= i < j + 1 implies #[trigger] after.same_text(indented, i) by {
        assert(!spaced.indented_between(walk, w + 1, total, i)) by {
            if spaced.indented_between(walk, w + 1, total, i) {
                let later = choose|later: int|
                    w + 1 <= later < total && #[trigger] spaced.indents(walk, later, i);
                assert(walk[w] < walk[later]);
                assert(tree.counted(walk[w] as int, walk[later] as int));
                assert(spaced.indents(walk, later, j));
            }
        }
        lemma_indent_frame(spaced, indent, anchors, walk, w + 1, total, i);
        assert(indented.same_text(after, i));
    }
    assert forall|i: int| 0 <= i < j implies #[trigger] before.same_text(m, i) by {
        assert(after.same_text(before, i));
        assert(after.same_text(indented, i));
    }
    assert forall|i: int| 0 <= i < before.blocks.len() implies #[trigger] before.same_count(
        m,
        i,
    ) by {
        assert(before.same_count(spaced, i));
        assert(indented.same_count(spaced, i));
    }
    assert forall|i: int| 0 <= i < m.blocks.len() implies #[trigger] m.same_count(spaced, i) by {
        assert(indented.same_count(spaced, i));
    }
    let matched = matching_spec(indent_patterns(indent), tree, e);
    let action = if matched.len() == 1 {
        indent[matched[0] as int].action
    } else {
        crate::dsl::IndentAction::Anchor
    };
    lemma_target_agrees(before, m, anchors, action, e, j);
    assert(after.same_text(indented, j));
    assert(after.same_count(before, j));
    assert(before.same_count(m, j));
}

/// Anchor resolution in the finished overlay. An element that no rule
/// matches, under the conditions of `lemma_indent_in_output`, with an
/// anchor `d` levels above it and no element between the two that is an
/// anchor or begins a line, ends the formatting run one level deeper than
/// the column in which the anchor begins.
pub proof fn lemma_anchor_indent_in_output(
    tree: TreeView,
    spacing: Seq<SpacingRule>,
    indent: Seq<IndentRule>,
    anchors: Seq<Pattern>,
    w: int,
    d: nat,
    a: int,
)
    requires
        tree.wf(),
        formatted(tree, spacing, indent, anchors) is Ok,
        0 <= w < tree.walk().len(),
        ModelView::spaced_from(tree, spacing).needs_indent(tree.walk()[w] as int),
        tree.walk()[w] > 0 ==> tree.elements[tree.elements[tree.walk()[w] as int].parent->0 as int].first_token
            < tree.elements[tree.walk()[w] as int].first_token,
        !ModelView::spaced_from(tree, spacing).indented_between(
            tree.walk(),
            w + 1,
            tree.walk().len() as int,
            tree.elements[tree.walk()[w] as int].first_token as int,
        ),
        matching_spec(indent_patterns(indent), tree, tree.walk()[w] as int).len() == 0,
        d >= 1,
        tree.ancestor(tree.walk()[w] as int, d) == Some(a),
        ModelView::spaced_from(tree, spacing).is_anchor(anchors, a),
        forall|i: nat|
            1 <= i < d ==> ModelView::spaced_from(tree, spacing).looks_past(
                anchors,
                #[trigger] tree.ancestor(tree.walk()[w] as int, i),
            ),
    ensures
        ({
            let m = formatted(tree, spacing, indent, anchors)->Ok_0;
            let j = tree.elements[tree.walk()[w] as int].first_token as int;
            m.blocks[j].text == blank(
                count_newlines(m.blocks[j].text),
                sat_add(m.element_column(a), INDENT_SIZE as nat),
            )
        }),
{
    let spaced = ModelView::spaced_from(tree, spacing);
    let m = formatted(tree, spacing, indent, anchors)->Ok_0;
    let e = tree.walk()[w] as int;
    tree.lemma_walk_upto(tree.elements.len() as int);
    lemma_indent_in_output(tree, spacing, indent, anchors, w);
    lemma_formatted_faithful(tree, spacing, indent, anchors);
    assert forall|i: nat| 1 <= i < d implies m.looks_past(
        anchors,
        #[trigger] tree.ancestor(e, i),
    ) by {
        assert(spaced.looks_past(anchors, tree.ancestor(e, i)));
        let b = tree.ancestor(e, i)->0;
        lemma_ancestor_in_tree(tree, e, i);
        lemma_same_lines(m, spaced, b);
    }
    lemma_default_indent_follows_anchor(m, anchors, e, d, a);
}

/// An ancestor of an element of the tree is an element of the tree.
pub proof fn lemma_ancestor_in_tree(tree: TreeView, e: int, d: nat)
    requires
        tree.wf(),
        0 <= e < tree.elements.len(),
        tree.ancestor(e, d) is Some,
    ensures
        0 <= tree.ancestor(e, d)->0 <= e,
    decreases d,
{
    if d > 0 {
        let p = tree.elements[e].parent->0 as int;
        if e > 0 {
            assert(tree.elements[e].parent is Some);
            lemma_ancestor_in_tree(tree, p, (d - 1) as nat);
        } else {
            assert(tree.elements[0].parent is None);
        }
    }
}

impl TreeView {
    /// The edit that moves the line beginning at position `q` inside token
    /// `j` by `delta` columns, if the line is to move at all: spaces put in
    /// at `q`, or spaces taken out behind `q`, but no more than there are.
    /// A line of spaces only that is followed by another line stays.
    pub open spec fn line_shift(self, j: int, delta: int, q: int) -> Seq<EditView> {
        let end = self.token_end(j);
        let spaces = leading_spaces(self.text.subrange(q, end));
        let cut = if spaces <= -delta {
            spaces as int
        } else {
            -delta
        };
        if q + spaces < end && self.text[q + spaces] == NEWLINE {
            Seq::empty()
        } else if delta > 0 {
            seq![EditView { start: q, end: q, insert: blank(0, delta as nat), reason: None }]
        } else if cut > 0 {
            seq![EditView { start: q, end: q + cut, insert: Seq::empty(), reason: None }]
        } else {
            Seq::empty()
        }
    }

    /// The edits that move every line that begins inside token `j` before
    /// position `upto` by `delta` columns, left to right. A line begins
    /// behind each line break of the token.
    pub open spec fn line_shifts(self, j: int, delta: int, upto: int) -> Seq<EditView>
        decreases upto,
    {
        if upto <= self.token_start(j) {
            Seq::empty()
        } else if self.text[upto - 1] == NEWLINE {
            self.line_shifts(j, delta, upto - 1) + self.line_shift(j, delta, upto)
        } else {
            self.line_shifts(j, delta, upto - 1)
        }
    }

    /// `e` begins inside token `j` no later than `upto` and takes out
    /// nothing but spaces.
    pub open spec fn shifts_spaces(self, j: int, upto: int, e: EditView) -> bool {
        &&& self.token_start(j) < e.start <= upto
        &&& e.start <= e.end <= self.token_end(j)
        &&& forall|p: int| e.start <= p < e.end ==> #[trigger] self.text[p] == SPACE
    }
}

impl ModelView {
    /// The edits that the fix-ups put inside non-whitespace token `j`: a
    /// double quote at either end of a bare URI; for the content of an
    /// indented string, the edits that move its lines as the line on which
    /// the string opens has moved; nothing for any other token.
    pub open spec fn token_fixes(self, j: int) -> Seq<EditView> {
        let e = self.tree.tokens[j] as int;
        if self.tree.is_uri(e) {
            seq![
                EditView {
                    start: self.tree.token_start(j),
                    end: self.tree.token_start(j),
                    insert: seq![QUOTE],
                    reason: None,
                },
                EditView {
                    start: self.tree.token_end(j),
                    end: self.tree.token_end(j),
                    insert: seq![QUOTE],
                    reason: None,
                },
            ]
        } else {
            match self.tree.indented_string(e) {
                Some(opening) => self.tree.line_shifts(
                    j,
                    self.opening_shift(opening),
                    self.tree.token_end(j),
                ),
                None => Seq::empty(),
            }
        }
    }

    /// One of the first `n` elements of `walk` is element `e`.
    pub open spec fn visited(walk: Seq<usize>, n: int, e: int) -> bool {
        exists|w: int| 0 <= w < n && #[trigger] walk[w] == e
    }
}

/// The edits that move the lines of a token lie inside the token, begin
/// at line starts and take out nothing but spaces.
pub proof fn lemma_line_shifts_spaces(tree: TreeView, j: int, delta: int, upto: int)
    requires
        tree.wf(),
        0 <= j < tree.tokens.len(),
        upto <= tree.token_end(j),
    ensures
        forall|k: int|
            0 <= k < tree.line_shifts(j, delta, upto).len() ==> tree.shifts_spaces(
                j,
                upto,
                #[trigger] tree.line_shifts(j, delta, upto)[k],
            ),
    decreases upto,
{
    tree.lemma_space_ranges(j);
    if upto > tree.token_start(j) {
        lemma_line_shifts_spaces(tree, j, delta, upto - 1);
        let before = tree.line_shifts(j, delta, upto - 1);
        let now = tree.line_shifts(j, delta, upto);
        let end = tree.token_end(j);
        let rest = tree.text.subrange(upto, end);
        lemma_leading_spaces(rest);
        assert forall|k: int| 0 <= k < now.len() implies tree.shifts_spaces(
            j,
            upto,
            #[trigger] now[k],
        ) by {
            if k < before.len() {
                assert(now[k] == before[k]);
                assert(tree.shifts_spaces(j, upto - 1, before[k]));
            } else {
                let e = now[k];
                assert(e == tree.line_shift(j, delta, upto)[0]);
                assert forall|p: int| e.start <= p < e.end implies #[trigger] tree.text[p]
                    == SPACE by {
                    assert(rest[p - upto] == SPACE);
                }
            }
        }
    }
}

/// A literal whose opening line has not moved gets no edit: moving lines
/// by no column is no edit at all.
pub proof fn lemma_unmoved_lines_need_no_edit(tree: TreeView, j: int, upto: int)
    ensures
        tree.line_shifts(j, 0, upto).len() == 0,
    decreases upto,
{
    if upto > tree.token_start(j) {
        lemma_unmoved_lines_need_no_edit(tree, j, upto - 1);
        lemma_leading_spaces(tree.text.subrange(upto, tree.token_end(j)));
    }
}

/// Moving the lines of a token that has no edits inside yet puts exactly
/// the edits of `line_shifts` there: none is turned away.
pub proof fn lemma_shift_lines_exact(m: ModelView, j: int, delta: int, upto: int)
    requires
        m.faithful(),
        0 <= j < m.tree.tokens.len(),
        m.tree.is_literal_token(j),
        m.fixes[j].len() == 0,
        upto <= m.tree.token_end(j),
    ensures
        m.shift_lines(j, delta, upto).fixes[j] == m.tree.line_shifts(j, delta, upto),
    decreases upto,
{
    let tree = m.tree;
    tree.lemma_space_ranges(j);
    if upto > tree.token_start(j) {
        lemma_shift_lines_exact(m, j, delta, upto - 1);
        crate::laws::lemma_shift_lines_faithful(m, j, delta, upto - 1);
        let before = m.shift_lines(j, delta, upto - 1);
        let shifts = tree.line_shifts(j, delta, upto - 1);
        lemma_line_shifts_spaces(tree, j, delta, upto - 1);
        if tree.text[upto - 1] == NEWLINE {
            let step = tree.line_shift(j, delta, upto);
            lemma_leading_spaces(tree.text.subrange(upto, tree.token_end(j)));
            if step.len() > 0 {
                let e = step[0];
                assert(tree.text.subrange(upto, tree.token_end(j)).len() == tree.token_end(j)
                    - upto);
                if shifts.len() > 0 {
                    let last = shifts[shifts.len() - 1];
                    assert(tree.shifts_spaces(j, upto - 1, last));
                    if last.end > upto - 1 {
                        assert(tree.text[upto - 1] == SPACE);
                    }
                }
                assert(before.accepts(j, e));
                assert(before.raw_edit(j, e).fixes[j] =~= shifts + step);
            } else {
                assert(shifts + step =~= shifts);
            }
        }
    }
}

/// Moving the lines of one token leaves the edits inside every other
/// token alone.
pub proof fn lemma_shift_lines_others(m: ModelView, j: int, delta: int, upto: int, t: int)
    requires
        0 <= t < m.fixes.len(),
        t != j,
    ensures
        m.shift_lines(j, delta, upto).fixes.len() == m.fixes.len(),
        m.shift_lines(j, delta, upto).fixes[t] == m.fixes[t],
    decreases upto,
{
    if upto > m.tree.token_start(j) {
        lemma_shift_lines_others(m, j, delta, upto - 1, t);
        crate::engine::fixes::lemma_shift_keeps_blocks(m, j, delta, upto - 1);
    }
}

/// The fix-ups for one element put the edits of `token_fixes` inside the
/// element's own token, if it had none, and leave every other token
/// alone.
pub proof fn lemma_fix_element_exact(m: ModelView, e: int, j: int)
    requires
        m.faithful(),
        0 <= e < m.tree.elements.len(),
        0 <= j < m.tree.tokens.len(),
        m.fixes[j].len() == 0,
    ensures
        m.fix_element(e).fixes[j] == if m.tree.tokens[j] == e {
            m.token_fixes(j)
        } else {
            Seq::<EditView>::empty()
        },
{
    let tree = m.tree;
    let own = tree.elements[e].first_token as int;
    tree.lemma_space_ranges(j);
    assert(tree.tokens[j] < tree.elements.len());
    assert(tree.is_significant(tree.tokens[j] as int));
    if tree.is_uri(e) || tree.indented_string(e) is Some {
        assert(tree.is_significant(e));
        assert(tree.tokens[own] == e);
        if tree.tokens[j] == e {
            assert(own == j);
            if tree.is_uri(e) {
                let first = EditView {
                    start: tree.token_start(j),
                    end: tree.token_start(j),
                    insert: seq![QUOTE],
                    reason: None,
                };
                let second = EditView {
                    start: tree.token_end(j),
                    end: tree.token_end(j),
                    insert: seq![QUOTE],
                    reason: None,
                };
                assert(m.accepts(j, first));
                let one = m.raw_edit(j, first);
                assert(one.fixes[j] =~= seq![first]);
                assert(one.accepts(j, second));
                assert(one.raw_edit(j, second).fixes[j] =~= seq![first, second]);
            } else {
                let opening = tree.indented_string(e)->0;
                lemma_shift_lines_exact(m, j, m.opening_shift(opening), tree.token_end(j));
            }
        } else {
            assert(own != j);
            if !tree.is_uri(e) {
                let opening = tree.indented_string(e)->0;
                lemma_shift_lines_others(m, own, m.opening_shift(opening), tree.token_end(own), j);
            }
        }
    } else {
        if tree.tokens[j] == e {
            assert(m.token_fixes(j) =~= Seq::<EditView>::empty());
        }
    }
}

/// The fix-up pass, seen from one token: once the token's own element has
/// been visited, the token holds the edits of `token_fixes`; before that,
/// none.
pub proof fn lemma_fix_elements_exact(m: ModelView, n: int, j: int)
    requires
        m.faithful(),
        0 <= n <= m.tree.walk().len(),
        0 <= j < m.tree.tokens.len(),
        m.fixes[j].len() == 0,
    ensures
        m.fix_elements(m.tree.walk(), n).fixes[j] == if ModelView::visited(
            m.tree.walk(),
            n,
            m.tree.tokens[j] as int,
        ) {
            m.token_fixes(j)
        } else {
            Seq::<EditView>::empty()
        },
    decreases n,
{
    let tree = m.tree;
    let walk = tree.walk();
    let own = tree.tokens[j] as int;
    tree.lemma_walk_upto(tree.elements.len() as int);
    if n > 0 {
        lemma_fix_elements_exact(m, n - 1, j);
        lemma_fix_elements_faithful(m, walk, n - 1);
        let before = m.fix_elements(walk, n - 1);
        let e = walk[n - 1] as int;
        if ModelView::visited(walk, n - 1, own) {
            let w = choose|w: int| 0 <= w < n - 1 && #[trigger] walk[w] == own;
            assert(walk[w] < walk[n - 1]);
            assert(walk[w] == own);
            assert(ModelView::visited(walk, n, own));
            // The token's own element has been visited; this one is another.
            lemma_fix_other_element(before, e, j);
        } else {
            lemma_fix_element_exact(before, e, j);
            assert(before.token_fixes(j) == m.token_fixes(j));
            if e == own {
                assert(walk[n - 1] == own);
            } else {
                if ModelView::visited(walk, n, own) {
                    let w = choose|w: int| 0 <= w < n && #[trigger] walk[w] == own;
                    assert(w < n - 1);
                    assert(walk[w] == own);
                }
            }
        }
    }
}

/// The fix-ups for an element leave the edits inside every token but the
/// element's own alone.
pub proof fn lemma_fix_other_element(m: ModelView, e: int, j: int)
    requires
        m.faithful(),
        0 <= e < m.tree.elements.len(),
        0 <= j < m.tree.tokens.len(),
        m.tree.tokens[j] != e,
    ensures
        m.fix_element(e).fixes[j] == m.fixes[j],
{
    let tree = m.tree;
    let own = tree.elements[e].first_token as int;
    if tree.is_uri(e) || tree.indented_string(e) is Some {
        assert(tree.is_significant(e));
        assert(tree.tokens[own] == e);
        assert(own != j);
        if !tree.is_uri(e) {
            let opening = tree.indented_string(e)->0;
            lemma_shift_lines_others(m, own, m.opening_shift(opening), tree.token_end(own), j);
        }
    }
}

/// The edits inside tokens when the formatting run ends: every
/// non-whitespace token holds exactly the edits of `token_fixes`. The
/// lines of an indented string have moved as the line on which the string
/// opens has moved, by spaces put in or taken out at their starts and by
/// nothing else; a bare URI stands in double quotes; no other token has an
/// edit inside.
pub proof fn lemma_fixes_in_output(
    tree: TreeView,
    spacing: Seq<SpacingRule>,
    indent: Seq<IndentRule>,
    anchors: Seq<Pattern>,
    j: int,
)
    requires
        tree.wf(),
        0 <= j < tree.tokens.len(),
        formatted(tree, spacing, indent, anchors) is Ok,
    ensures
        formatted(tree, spacing, indent, anchors)->Ok_0.fixes[j] == formatted(
            tree,
            spacing,
            indent,
            anchors,
        )->Ok_0.token_fixes(j),
{
    let start = ModelView::initial(tree);
    let walk = tree.walk();
    let total = walk.len() as int;
    lemma_initial_faithful(tree);
    lemma_spacing_pass_faithful(start, spacing);
    tree.lemma_walk_upto(tree.elements.len() as int);
    let spaced = start.spacing_pass(spacing);
    lemma_indent_elements(spaced, indent, anchors, walk, total);
    let indented = spaced.indentation_pass(indent, anchors)->Ok_0;
    lemma_fix_elements_faithful(indented, walk, total);
    assert(indented.fixes == start.fixes);
    assert(start.fixes[j].len() == 0);
    lemma_fix_elements_exact(indented, total, j);
    let own = tree.tokens[j] as int;
    assert(tree.tokens[j] < tree.elements.len());
    assert(tree.is_significant(own));
    let w = crate::settle::lemma_walk_place(tree, tree.elements.len() as int, own);
    assert(walk[w] == own);
    let m = formatted(tree, spacing, indent, anchors)->Ok_0;
    assert(m.token_fixes(j) == indented.token_fixes(j));
}

} // verus!
