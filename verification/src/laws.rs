//! What holds of every formatting run.
//!
//! The laws are stated over the mathematical models: a tree, the overlay
//! the three passes leave, and the edit list it reduces to.
use crate::diff::{apply_edits, lemma_apply_untouched_tail, ordered, EditView};
use crate::dsl::{indent_patterns, IndentRule, RuleName, SpaceValue, SpacingRule};
use crate::engine::fmt_model::ModelView;
use crate::engine::spacing::spaced;
use crate::engine::{format_spec, formatted};
use crate::kinds::{TOKEN_STRING_CONTENT, TOKEN_URI};
use crate::pattern::{matching_spec, Pattern};
use crate::text::{
    blank, count_newlines, has_newline, is_blank, lemma_blank, lemma_count_has_newline,
};
use crate::tree::TreeView;
use vstd::prelude::*;

verus! {

impl TreeView {
    /// Non-whitespace token `j` is a literal that a fix-up may edit: a bare
    /// URI or the content of a string.
    pub open spec fn is_literal_token(self, j: int) -> bool {
        self.elements[self.tokens[j] as int].kind == TOKEN_URI
            || self.elements[self.tokens[j] as int].kind == TOKEN_STRING_CONTENT
    }
}

impl ModelView {
    /// Every whitespace run reads as in the source or is made of spaces
    /// and line breaks only.
    pub open spec fn spaces_are_blank(self) -> bool {
        forall|j: int|
            0 <= j < self.blocks.len() ==> (#[trigger] self.blocks[j]).text == self.tree.space_text(
                j,
            ) || is_blank(self.blocks[j].text)
    }

    /// Only literal tokens have edits inside.
    pub open spec fn only_literals_edited(self) -> bool {
        forall|j: int|
            0 <= j < self.fixes.len() ==> (#[trigger] self.fixes[j]).len() == 0
                || self.tree.is_literal_token(j)
    }

    /// The overlay is well formed and has changed nothing but whitespace
    /// and the inside of literals.
    pub open spec fn faithful(self) -> bool {
        self.wf() && self.spaces_are_blank() && self.only_literals_edited()
    }

    /// The text of the first `j` whitespace runs and tokens as the overlay
    /// has them, edits inside tokens applied.
    pub open spec fn rendered_upto(self, j: int) -> Seq<u8>
        decreases j,
    {
        if j <= 0 {
            Seq::empty()
        } else {
            self.rendered_upto(j - 1) + self.blocks[j - 1].text + self.fixed_token(j - 1)
        }
    }

    /// The whole text as the overlay has it: whitespace runs and tokens in
    /// turn.
    pub open spec fn rendered(self) -> Seq<u8> {
        self.rendered_upto(self.tree.tokens.len() as int)
            + self.blocks[self.tree.tokens.len() as int].text
    }

    /// At element `e` the indentation pass fails under `rules`: the
    /// element needs an indent and more than one rule matches it.
    pub open spec fn conflict_at(self, rules: Seq<IndentRule>, e: int) -> bool {
        self.needs_indent(e) && matching_spec(indent_patterns(rules), self.tree, e).len() >= 2
    }
}

/// The overlay of an untouched tree is faithful.
pub proof fn lemma_initial_faithful(tree: TreeView)
    requires
        tree.wf(),
    ensures
        ModelView::initial(tree).faithful(),
        ModelView::initial(tree).tree == tree,
{
    let m = ModelView::initial(tree);
    assert forall|j: int| 0 <= j < m.fixes.len() implies #[trigger] m.fixes_ordered(j) by {}
}

/// Giving a whitespace run a blank text keeps the overlay faithful.
pub proof fn lemma_set_text_faithful(
    m: ModelView,
    j: int,
    text: Seq<u8>,
    reason: Option<RuleName>,
)
    requires
        m.faithful(),
        0 <= j < m.blocks.len(),
        is_blank(text) || text == m.blocks[j].text,
    ensures
        m.set_text(j, text, reason).faithful(),
        m.set_text(j, text, reason).tree == m.tree,
        m.set_text(j, text, reason).fixes == m.fixes,
        m.set_text(j, text, reason).blocks.len() == m.blocks.len(),
        forall|i: int|
            0 <= i < m.blocks.len() && i != j ==> m.set_text(j, text, reason).blocks[i]
                == m.blocks[i],
        m.set_text(j, text, reason).blocks[j].text == text || m.set_text(
            j,
            text,
            reason,
        ).blocks[j].text == m.blocks[j].text,
{
    let r = m.set_text(j, text, reason);
    assert forall|t: int| 0 <= t < r.fixes.len() implies #[trigger] r.fixes_ordered(t) by {
        assert(m.fixes_ordered(t));
    }
    assert forall|i: int| 0 <= i < r.blocks.len() implies (#[trigger] r.blocks[i]).text
        == r.tree.space_text(i) || is_blank(r.blocks[i].text) by {
        assert(m.blocks[i].text == m.tree.space_text(i) || is_blank(m.blocks[i].text));
    }
    assert forall|t: int| 0 <= t < r.fixes.len() implies (#[trigger] r.fixes[t]).len() == 0
        || r.tree.is_literal_token(t) by {
        assert(m.fixes[t].len() == 0 || m.tree.is_literal_token(t));
    }
}

/// A spacing directive leaves a whitespace run as it is or makes it
/// blank.
pub proof fn lemma_spaced_is_blank(value: SpaceValue, text: Seq<u8>)
    ensures
        spaced(value, text) == text || is_blank(spaced(value, text)),
{
    lemma_blank(0, 1);
    lemma_blank(0, 0);
    if let SpaceValue::Newlines(n) = value {
        lemma_blank(n as nat, crate::text::indent_width(text));
    }
}

/// Applying a spacing directive twice is the same as applying it once.
pub proof fn lemma_spaced_idempotent(value: SpaceValue, text: Seq<u8>)
    ensures
        spaced(value, spaced(value, text)) == spaced(value, text),
{
    lemma_blank(0, 1);
    lemma_blank(0, 0);
    if let SpaceValue::Newlines(n) = value {
        lemma_blank(n as nat, crate::text::indent_width(text));
    }
}

/// Applying a spacing rule keeps an overlay faithful.
pub proof fn lemma_spacing_rule_faithful(m: ModelView, rule: SpacingRule, e: int)
    requires
        m.faithful(),
        0 <= e < m.tree.elements.len(),
    ensures
        m.apply_spacing_rule(rule, e).faithful(),
        m.apply_spacing_rule(rule, e).tree == m.tree,
        m.apply_spacing_rule(rule, e).fixes == m.fixes,
{
    let front_j = m.tree.elements[e].first_token as int;
    let back_j = m.tree.elements[e].end_token as int;
    assert(m.tree.elements[e].first_token <= m.tree.elements[e].end_token <= m.tree.tokens.len());
    lemma_spaced_is_blank(rule.value, m.blocks[front_j].text);
    lemma_set_text_faithful(m, front_j, spaced(rule.value, m.blocks[front_j].text), rule.name);
    let front = if rule.loc != crate::dsl::SpaceLoc::After {
        m.ensure_space(front_j, rule.value, rule.name)
    } else {
        m
    };
    lemma_spaced_is_blank(rule.value, front.blocks[back_j].text);
    lemma_set_text_faithful(front, back_j, spaced(rule.value, front.blocks[back_j].text), rule.name);
}

/// Applying spacing rules in a row keeps an overlay faithful.
pub proof fn lemma_spacing_rules_faithful(
    m: ModelView,
    rules: Seq<SpacingRule>,
    matched: Seq<usize>,
    e: int,
    n: int,
)
    requires
        m.faithful(),
        0 <= e < m.tree.elements.len(),
    ensures
        m.apply_spacing_rules(rules, matched, e, n).faithful(),
        m.apply_spacing_rules(rules, matched, e, n).tree == m.tree,
        m.apply_spacing_rules(rules, matched, e, n).fixes == m.fixes,
    decreases n,
{
    if n > 0 {
        lemma_spacing_rules_faithful(m, rules, matched, e, n - 1);
        lemma_spacing_rule_faithful(
            m.apply_spacing_rules(rules, matched, e, n - 1),
            rules[matched[n - 1] as int],
            e,
        );
    }
}

/// Spacing elements in a row keeps an overlay faithful.
pub proof fn lemma_space_elements_faithful(
    m: ModelView,
    rules: Seq<SpacingRule>,
    walk: Seq<usize>,
    n: int,
)
    requires
        m.faithful(),
        0 <= n <= walk.len(),
        forall|k: int| 0 <= k < walk.len() ==> (#[trigger] walk[k]) < m.tree.elements.len(),
    ensures
        m.space_elements(rules, walk, n).faithful(),
        m.space_elements(rules, walk, n).tree == m.tree,
        m.space_elements(rules, walk, n).fixes == m.fixes,
    decreases n,
{
    if n > 0 {
        lemma_space_elements_faithful(m, rules, walk, n - 1);
        let before = m.space_elements(rules, walk, n - 1);
        let e = walk[n - 1] as int;
        let matched = matching_spec(crate::dsl::spacing_patterns(rules), before.tree, e);
        lemma_spacing_rules_faithful(before, rules, matched, e, matched.len() as int);
    }
}

/// The spacing pass keeps an overlay faithful.
pub proof fn lemma_spacing_pass_faithful(m: ModelView, rules: Seq<SpacingRule>)
    requires
        m.faithful(),
    ensures
        m.spacing_pass(rules).faithful(),
        m.spacing_pass(rules).tree == m.tree,
        m.spacing_pass(rules).fixes == m.fixes,
{
    m.tree.lemma_walk_upto(m.tree.elements.len() as int);
    lemma_space_elements_faithful(m, rules, m.tree.walk(), m.tree.walk().len() as int);
}

/// Indenting a line keeps the overlay faithful and moves no line break.
pub proof fn lemma_set_indent_faithful(m: ModelView, j: int, width: nat, reason: Option<RuleName>)
    requires
        m.faithful(),
        0 <= j < m.blocks.len(),
    ensures
        m.set_indent(j, width, reason).faithful(),
        m.set_indent(j, width, reason).tree == m.tree,
        m.set_indent(j, width, reason).fixes == m.fixes,
        m.set_indent(j, width, reason).blocks.len() == m.blocks.len(),
        forall|i: int|
            0 <= i < m.blocks.len() ==> has_newline(
                (#[trigger] m.set_indent(j, width, reason).blocks[i]).text,
            ) == has_newline(m.blocks[i].text),
{
    let text = blank(count_newlines(m.blocks[j].text), width);
    lemma_blank(count_newlines(m.blocks[j].text), width);
    lemma_count_has_newline(m.blocks[j].text);
    lemma_set_text_faithful(m, j, text, reason);
}

proof fn lemma_indent_element_faithful(
    m: ModelView,
    rules: Seq<IndentRule>,
    anchors: Seq<Pattern>,
    e: int,
)
    requires
        m.faithful(),
        0 <= e < m.tree.elements.len(),
    ensures
        m.indent_element(rules, anchors, e) is Err <==> m.conflict_at(rules, e),
        m.indent_element(rules, anchors, e) matches Ok(r) ==> r.faithful() && r.tree == m.tree
            && r.fixes == m.fixes && r.blocks.len() == m.blocks.len() && forall|i: int|
            0 <= i < m.blocks.len() ==> has_newline((#[trigger] r.blocks[i]).text) == has_newline(
                m.blocks[i].text,
            ),
{
    let j = m.tree.elements[e].first_token as int;
    assert(m.tree.elements[e].first_token <= m.tree.elements[e].end_token <= m.tree.tokens.len());
    let matched = matching_spec(indent_patterns(rules), m.tree, e);
    if m.needs_indent(e) && matched.len() < 2 {
        if matched.len() == 1 {
            let rule = rules[matched[0] as int];
            lemma_set_indent_faithful(m, j, m.rule_target(anchors, rule.action, e), rule.name);
        } else {
            lemma_set_indent_faithful(m, j, m.default_target(anchors, e), None);
        }
    }
}

/// The indentation pass fails exactly if it meets a conflict, and a
/// conflict depends only on where lines begin after the spacing pass. If
/// the pass succeeds, the overlay stays faithful and no line break has
/// moved.
pub proof fn lemma_indent_elements(
    m: ModelView,
    rules: Seq<IndentRule>,
    anchors: Seq<Pattern>,
    walk: Seq<usize>,
    n: int,
)
    requires
        m.faithful(),
        0 <= n <= walk.len(),
        forall|k: int| 0 <= k < walk.len() ==> (#[trigger] walk[k]) < m.tree.elements.len(),
    ensures
        m.indent_elements(rules, anchors, walk, n) is Err <==> exists|w: int|
            0 <= w < n && m.conflict_at(rules, #[trigger] walk[w] as int),
        m.indent_elements(rules, anchors, walk, n) matches Ok(r) ==> r.faithful() && r.tree
            == m.tree && r.fixes == m.fixes && r.blocks.len() == m.blocks.len() && forall|i: int|
            0 <= i < m.blocks.len() ==> has_newline((#[trigger] r.blocks[i]).text) == has_newline(
                m.blocks[i].text,
            ),
    decreases n,
{
    if n > 0 {
        lemma_indent_elements(m, rules, anchors, walk, n - 1);
        let e = walk[n - 1] as int;
        match m.indent_elements(rules, anchors, walk, n - 1) {
            Ok(before) => {
                lemma_indent_element_faithful(before, rules, anchors, e);
                assert(before.tree.elements[e].first_token <= before.tree.tokens.len());
                assert(before.needs_indent(e) == m.needs_indent(e));
                assert(before.conflict_at(rules, e) == m.conflict_at(rules, e));
                if m.conflict_at(rules, e) {
                    assert(m.conflict_at(rules, walk[n - 1] as int));
                }
                if let Ok(r) = before.indent_element(rules, anchors, e) {
                    assert forall|i: int| 0 <= i < m.blocks.len() implies has_newline(
                        (#[trigger] r.blocks[i]).text,
                    ) == has_newline(m.blocks[i].text) by {
                        assert(has_newline(before.blocks[i].text) == has_newline(m.blocks[i].text));
                    }
                }
            },
            Err(_) => {
                let w = choose|w: int|
                    0 <= w < n - 1 && m.conflict_at(rules, #[trigger] walk[w] as int);
                assert(m.conflict_at(rules, walk[w] as int));
            },
        }
    }
}

proof fn lemma_raw_edit_faithful(m: ModelView, j: int, e: EditView)
    requires
        m.faithful(),
        0 <= j < m.fixes.len() ==> m.tree.is_literal_token(j),
    ensures
        m.raw_edit(j, e).faithful(),
        m.raw_edit(j, e).tree == m.tree,
        m.raw_edit(j, e).blocks == m.blocks,
{
    let r = m.raw_edit(j, e);
    if m.accepts(j, e) {
        assert forall|t: int| 0 <= t < r.fixes.len() implies #[trigger] r.fixes_ordered(t) by {
            assert(m.fixes_ordered(t));
            if t == j {
                let old_list = m.fixes[j];
                let list = r.fixes[j];
                assert forall|a: int, b: int| 0 <= a < b < list.len() implies (
                #[trigger] list[a]).end <= (#[trigger] list[b]).start by {
                    if b < old_list.len() {
                        assert(old_list[a].end <= old_list[b].start);
                    } else {
                        if a < old_list.len() - 1 {
                            assert(old_list[a].end <= old_list[old_list.len() - 1].start);
                        }
                    }
                }
            }
        }
        assert forall|i: int| 0 <= i < r.blocks.len() implies (#[trigger] r.blocks[i]).text
            == r.tree.space_text(i) || is_blank(r.blocks[i].text) by {
            assert(m.blocks[i].text == m.tree.space_text(i) || is_blank(m.blocks[i].text));
        }
        assert forall|t: int| 0 <= t < r.fixes.len() implies (#[trigger] r.fixes[t]).len() == 0
            || r.tree.is_literal_token(t) by {
            assert(m.fixes[t].len() == 0 || m.tree.is_literal_token(t));
        }
    }
}

/// Moving the lines of a literal keeps an overlay faithful and leaves the
/// whitespace runs alone.
pub proof fn lemma_shift_lines_faithful(m: ModelView, j: int, delta: int, upto: int)
    requires
        m.faithful(),
        0 <= j < m.fixes.len() ==> m.tree.is_literal_token(j),
    ensures
        m.shift_lines(j, delta, upto).faithful(),
        m.shift_lines(j, delta, upto).tree == m.tree,
        m.shift_lines(j, delta, upto).blocks == m.blocks,
    decreases upto,
{
    if upto > m.tree.token_start(j) {
        lemma_shift_lines_faithful(m, j, delta, upto - 1);
        let before = m.shift_lines(j, delta, upto - 1);
        let end = before.tree.token_end(j);
        let spaces = crate::text::leading_spaces(before.tree.text.subrange(upto, end));
        let cut = if spaces <= -delta {
            spaces as int
        } else {
            -delta
        };
        lemma_raw_edit_faithful(
            before,
            j,
            EditView { start: upto, end: upto, insert: blank(0, delta as nat), reason: None },
        );
        lemma_raw_edit_faithful(
            before,
            j,
            EditView { start: upto, end: upto + cut, insert: Seq::empty(), reason: None },
        );
    }
}

proof fn lemma_fix_element_faithful(m: ModelView, e: int)
    requires
        m.faithful(),
        0 <= e < m.tree.elements.len(),
    ensures
        m.fix_element(e).faithful(),
        m.fix_element(e).tree == m.tree,
        m.fix_element(e).blocks == m.blocks,
{
    let j = m.tree.elements[e].first_token as int;
    if m.tree.is_uri(e) {
        assert(m.tree.is_significant(e));
        assert(m.tree.tokens[j] == e);
        let first = EditView {
            start: m.tree.token_start(j),
            end: m.tree.token_start(j),
            insert: seq![crate::engine::fixes::QUOTE],
            reason: None,
        };
        lemma_raw_edit_faithful(m, j, first);
        lemma_raw_edit_faithful(
            m.raw_edit(j, first),
            j,
            EditView {
                start: m.tree.token_end(j),
                end: m.tree.token_end(j),
                insert: seq![crate::engine::fixes::QUOTE],
                reason: None,
            },
        );
    } else if let Some(opening) = m.tree.indented_string(e) {
        assert(m.tree.is_significant(e));
        assert(m.tree.tokens[j] == e);
        lemma_shift_lines_faithful(m, j, m.opening_shift(opening), m.tree.token_end(j));
    }
}

/// The fix-ups for elements in a row keep an overlay faithful and leave
/// the whitespace runs alone.
pub proof fn lemma_fix_elements_faithful(m: ModelView, walk: Seq<usize>, n: int)
    requires
        m.faithful(),
        0 <= n <= walk.len(),
        forall|k: int| 0 <= k < walk.len() ==> (#[trigger] walk[k]) < m.tree.elements.len(),
    ensures
        m.fix_elements(walk, n).faithful(),
        m.fix_elements(walk, n).tree == m.tree,
        m.fix_elements(walk, n).blocks == m.blocks,
    decreases n,
{
    if n > 0 {
        lemma_fix_elements_faithful(m, walk, n - 1);
        lemma_fix_element_faithful(m.fix_elements(walk, n - 1), walk[n - 1] as int);
    }
}

/// The overlay a formatting run leaves is faithful to its tree.
pub proof fn lemma_formatted_faithful(
    tree: TreeView,
    spacing: Seq<SpacingRule>,
    indent: Seq<IndentRule>,
    anchors: Seq<Pattern>,
)
    requires
        tree.wf(),
    ensures
        formatted(tree, spacing, indent, anchors) matches Ok(m) ==> m.faithful() && m.tree == tree,
{
    lemma_initial_faithful(tree);
    let spaced_model = ModelView::initial(tree).spacing_pass(spacing);
    lemma_spacing_pass_faithful(ModelView::initial(tree), spacing);
    tree.lemma_walk_upto(tree.elements.len() as int);
    lemma_indent_elements(spaced_model, indent, anchors, tree.walk(), tree.walk().len() as int);
    if let Ok(indented) = spaced_model.indentation_pass(indent, anchors) {
        lemma_fix_elements_faithful(indented, tree.walk(), tree.walk().len() as int);
    }
}

/// Two ordered edit lists, the second beginning where the first has
/// ended, make an ordered list.
pub proof fn lemma_ordered_concat(a: Seq<EditView>, b: Seq<EditView>, p: int, q: int)
    requires
        ordered(a, p),
        ordered(b, q),
        p <= q,
        forall|i: int| 0 <= i < b.len() ==> p <= (#[trigger] b[i]).start,
    ensures
        ordered(a + b, q),
{
    let c = a + b;
    assert forall|i: int| 0 <= i < c.len() implies 0 <= (#[trigger] c[i]).start <= c[i].end
        <= q by {
        if i < a.len() {
            assert(c[i] == a[i]);
        } else {
            assert(c[i] == b[i - a.len()]);
        }
    }
    assert forall|i: int, j: int| 0 <= i < j < c.len() implies (#[trigger] c[i]).end <= (
    #[trigger] c[j]).start by {
        if j < a.len() {
            assert(c[i] == a[i] && c[j] == a[j]);
        } else if i < a.len() {
            assert(c[i] == a[i] && c[j] == b[j - a.len()]);
        } else {
            assert(c[i] == b[i - a.len()] && c[j] == b[j - a.len()]);
        }
    }
}

/// The edit of a whitespace run lies on the run.
proof fn lemma_space_edit_ordered(m: ModelView, j: int)
    requires
        m.wf(),
        0 <= j <= m.tree.tokens.len(),
    ensures
        ordered(m.space_edit(j), m.tree.space_end(j)),
        forall|i: int|
            0 <= i < m.space_edit(j).len() ==> m.tree.space_start(j) <= (#[trigger] m.space_edit(
                j,
            )[i]).start,
{
    m.tree.lemma_space_ranges(j);
}

proof fn lemma_diff_upto_ordered(m: ModelView, j: int)
    requires
        m.wf(),
        0 <= j <= m.tree.tokens.len(),
    ensures
        ordered(m.diff_upto(j), m.tree.space_start(j)),
    decreases j,
{
    if j > 0 {
        lemma_diff_upto_ordered(m, j - 1);
        m.tree.lemma_space_ranges(j - 1);
        lemma_space_edit_ordered(m, j - 1);
        lemma_ordered_concat(
            m.diff_upto(j - 1),
            m.space_edit(j - 1),
            m.tree.space_start(j - 1),
            m.tree.space_end(j - 1),
        );
        assert(m.fixes_ordered(j - 1));
        lemma_ordered_concat(
            m.diff_upto(j - 1) + m.space_edit(j - 1),
            m.fixes[j - 1],
            m.tree.space_end(j - 1),
            m.tree.space_start(j),
        );
    }
}

/// The edits of a well-formed overlay lie inside the text, come in text
/// order, and no two of them overlap.
pub proof fn lemma_diff_ordered(m: ModelView)
    requires
        m.wf(),
    ensures
        ordered(m.diff(), m.tree.text.len() as int),
{
    let k = m.tree.tokens.len() as int;
    lemma_diff_upto_ordered(m, k);
    m.tree.lemma_space_ranges(k);
    lemma_space_edit_ordered(m, k);
    lemma_ordered_concat(m.diff_upto(k), m.space_edit(k), m.tree.space_start(k), m.tree.space_end(k));
}

/// Applying two edit lists in a row: the first shapes the text up to `p`,
/// the second the text from `p` to `q`, and neither sees the other.
pub proof fn lemma_apply_concat(text: Seq<u8>, a: Seq<EditView>, b: Seq<EditView>, p: int, q: int)
    requires
        ordered(a, p),
        ordered(b, q),
        0 <= p <= q <= text.len(),
        forall|i: int| 0 <= i < b.len() ==> p <= (#[trigger] b[i]).start,
    ensures
        apply_edits(text.take(q), a + b) == apply_edits(text.take(p), a) + apply_edits(
            text.take(q),
            b,
        ).skip(p),
        apply_edits(text.take(q), b).len() >= p,
        apply_edits(text.take(q), b).take(p) == text.take(p),
    decreases b.len(),
{
    if b.len() == 0 {
        assert(a + b =~= a);
        lemma_apply_untouched_tail(text, a, p, q);
        assert(text.take(q).skip(p) =~= text.subrange(p, q));
        assert(text.take(q).take(p) =~= text.take(p));
    } else {
        let e = b.last();
        let rest = b.drop_last();
        assert((a + b).drop_last() =~= a + rest);
        assert((a + b).last() == e);
        assert(text.take(q).take(e.start) =~= text.take(e.start));
        assert forall|i: int| 0 <= i < rest.len() implies 0 <= (#[trigger] rest[i]).start
            <= rest[i].end <= e.start by {
            assert(rest[i] == b[i]);
            assert(b[i].end <= b[b.len() - 1].start);
        }
        assert forall|i: int, j: int| 0 <= i < j < rest.len() implies (#[trigger] rest[i]).end <= (
        #[trigger] rest[j]).start by {
            assert(rest[i] == b[i] && rest[j] == b[j]);
        }
        assert(p <= b[b.len() - 1].start);
        lemma_apply_concat(text, a, rest, p, e.start);
        let inner = apply_edits(text.take(e.start), rest);
        let tail = text.take(q).skip(e.end);
        assert(apply_edits(text.take(q), b) == inner + e.insert + tail);
        assert((inner + e.insert + tail).skip(p) =~= inner.skip(p) + e.insert + tail);
        assert((inner + e.insert + tail).take(p) =~= inner.take(p));
        assert(apply_edits(text.take(q), a + b) =~= apply_edits(text.take(p), a) + (inner
            + e.insert + tail).skip(p));
    }
}

proof fn lemma_diff_upto_renders(m: ModelView, j: int)
    requires
        m.wf(),
        0 <= j <= m.tree.tokens.len(),
    ensures
        apply_edits(m.tree.text.take(m.tree.space_start(j)), m.diff_upto(j)) == m.rendered_upto(j),
    decreases j,
{
    let text = m.tree.text;
    if j <= 0 {
        assert(text.take(0) =~= Seq::<u8>::empty());
    } else {
        let i = j - 1;
        lemma_diff_upto_renders(m, i);
        lemma_diff_upto_ordered(m, i);
        m.tree.lemma_space_ranges(i);
        lemma_space_edit_ordered(m, i);
        let lo = m.tree.space_start(i);
        let mid = m.tree.space_end(i);
        let hi = m.tree.space_start(j);
        lemma_space_step(m, i);
        lemma_ordered_concat(m.diff_upto(i), m.space_edit(i), lo, mid);
        assert(m.fixes_ordered(i));
        lemma_apply_concat(text, m.diff_upto(i) + m.space_edit(i), m.fixes[i], mid, hi);
    }
}

/// One whitespace run more: the text up to the end of run `j` after the
/// edits up to and including the run's own.
proof fn lemma_space_step(m: ModelView, j: int)
    requires
        m.wf(),
        0 <= j <= m.tree.tokens.len(),
        apply_edits(m.tree.text.take(m.tree.space_start(j)), m.diff_upto(j)) == m.rendered_upto(j),
    ensures
        apply_edits(m.tree.text.take(m.tree.space_end(j)), m.diff_upto(j) + m.space_edit(j))
            == m.rendered_upto(j) + m.blocks[j].text,
{
    let text = m.tree.text;
    let lo = m.tree.space_start(j);
    let mid = m.tree.space_end(j);
    lemma_diff_upto_ordered(m, j);
    m.tree.lemma_space_ranges(j);
    lemma_space_edit_ordered(m, j);
    lemma_apply_concat(text, m.diff_upto(j), m.space_edit(j), lo, mid);
    let s = m.space_edit(j);
    if s.len() == 0 {
        assert(text.take(mid).skip(lo) =~= m.tree.space_text(j));
    } else {
        let e = s.last();
        assert(e.start == lo && e.end == mid && e.insert == m.blocks[j].text);
        assert(s.drop_last() =~= Seq::<EditView>::empty());
        assert(text.take(mid).take(lo) =~= text.take(lo));
        assert(text.take(mid).skip(mid) =~= Seq::<u8>::empty());
        assert(apply_edits(text.take(lo), Seq::<EditView>::empty()) == text.take(lo));
        assert(apply_edits(text.take(mid), s) == apply_edits(
            text.take(mid).take(e.start),
            s.drop_last(),
        ) + e.insert + text.take(mid).skip(e.end));
        assert(apply_edits(text.take(mid), s) =~= text.take(lo) + m.blocks[j].text);
        assert((text.take(lo) + m.blocks[j].text).skip(lo) =~= m.blocks[j].text);
    }
}

/// Applying the edits of a well-formed overlay to the source text gives
/// the text as the overlay has it: the whitespace runs as they stand, and
/// between them the tokens, each with the edits inside it applied.
pub proof fn lemma_diff_renders(m: ModelView)
    requires
        m.wf(),
    ensures
        apply_edits(m.tree.text, m.diff()) == m.rendered(),
{
    let k = m.tree.tokens.len() as int;
    lemma_diff_upto_renders(m, k);
    lemma_space_step(m, k);
    assert(m.tree.text.take(m.tree.text.len() as int) =~= m.tree.text);
}

/// A token without edits inside reads as in the source.
pub proof fn lemma_unedited_token(m: ModelView, j: int)
    requires
        m.wf(),
        0 <= j < m.tree.tokens.len(),
        m.fixes[j].len() == 0,
    ensures
        m.fixed_token(j) == m.tree.token_text(j),
{
    m.tree.lemma_space_ranges(j);
    assert(m.tree.text.take(m.tree.token_end(j)).skip(m.tree.token_start(j))
        =~= m.tree.token_text(j));
}

/// The non-whitespace tokens follow one another in text order.
pub proof fn lemma_tokens_in_order(tree: TreeView, a: int, b: int)
    requires
        tree.wf(),
        0 <= a < b < tree.tokens.len(),
    ensures
        tree.token_end(a) <= tree.token_start(b),
    decreases b - a,
{
    tree.lemma_space_ranges(b);
    if a + 1 < b {
        lemma_tokens_in_order(tree, a, b - 1);
        tree.lemma_space_ranges(b - 1);
    } else {
        assert(tree.token_end(a) <= tree.token_start(a + 1));
    }
}

/// A whitespace run holds nothing but whitespace: every byte of it
/// belongs to a whitespace token.
pub proof fn lemma_runs_hold_whitespace(tree: TreeView, j: int, p: int) -> (i: int)
    requires
        tree.wf(),
        0 <= j <= tree.tokens.len(),
        tree.space_start(j) <= p < tree.space_end(j),
    ensures
        tree.holds(i, p),
        tree.is_whitespace(i),
{
    tree.lemma_space_ranges(j);
    assert(tree.in_token(p));
    let i = choose|i: int| #[trigger] tree.holds(i, p);
    if tree.is_significant(i) {
        let t = tree.elements[i].first_token as int;
        assert(tree.tokens[t] == i);
        if t < j {
            if t < j - 1 {
                lemma_tokens_in_order(tree, t, j - 1);
            }
            tree.lemma_space_ranges(j - 1);
            tree.lemma_space_ranges(t);
        } else {
            if t > j {
                lemma_tokens_in_order(tree, j, t);
            }
            tree.lemma_space_ranges(t);
        }
        assert(false);
    }
    i
}

impl TreeView {
    /// `e` replaces whitespace run `j` by blank text.
    pub open spec fn rewrites_run(self, j: int, e: EditView) -> bool {
        &&& 0 <= j <= self.tokens.len()
        &&& e.start == self.space_start(j)
        &&& e.end == self.space_end(j)
        &&& is_blank(e.insert)
    }

    /// `e` lies inside non-whitespace token `j`, which is a literal.
    pub open spec fn edits_literal(self, j: int, e: EditView) -> bool {
        &&& 0 <= j < self.tokens.len()
        &&& self.is_literal_token(j)
        &&& self.token_start(j) <= e.start <= e.end <= self.token_end(j)
    }

    /// `e` touches nothing but whitespace or the inside of a literal.
    pub open spec fn harmless(self, e: EditView) -> bool {
        (exists|j: int| #[trigger] self.rewrites_run(j, e)) || (exists|j: int|
            #[trigger] self.edits_literal(j, e))
    }
}

proof fn lemma_diff_upto_harmless(m: ModelView, j: int)
    requires
        m.faithful(),
        0 <= j <= m.tree.tokens.len(),
    ensures
        forall|k: int| 0 <= k < m.diff_upto(j).len() ==> m.tree.harmless(#[trigger] m.diff_upto(j)[k]),
    decreases j,
{
    if j > 0 {
        lemma_diff_upto_harmless(m, j - 1);
        let before = m.diff_upto(j - 1);
        let space = m.space_edit(j - 1);
        let inside = m.fixes[j - 1];
        assert forall|k: int| 0 <= k < m.diff_upto(j).len() implies m.tree.harmless(
            #[trigger] m.diff_upto(j)[k],
        ) by {
            let e = m.diff_upto(j)[k];
            if k < before.len() {
                assert(e == before[k]);
            } else if k < before.len() + space.len() {
                lemma_space_edit_harmless(m, j - 1);
                assert(e == space[0]);
            } else {
                let i = k - before.len() - space.len();
                assert(e == inside[i]);
                assert(m.fixes_ordered(j - 1));
                assert(m.fixes[j - 1].len() == 0 || m.tree.is_literal_token(j - 1));
                assert(m.tree.edits_literal(j - 1, e));
            }
        }
    }
}

proof fn lemma_space_edit_harmless(m: ModelView, j: int)
    requires
        m.faithful(),
        0 <= j <= m.tree.tokens.len(),
    ensures
        m.space_edit(j).len() <= 1,
        m.space_edit(j).len() == 1 ==> m.tree.harmless(m.space_edit(j)[0]),
{
    if m.space_edit(j).len() > 0 {
        assert(m.blocks[j].text == m.tree.space_text(j) || is_blank(m.blocks[j].text));
        assert(m.tree.rewrites_run(j, m.space_edit(j)[0]));
    }
}

/// Every edit of a faithful overlay replaces a whitespace run by blank
/// text or lies inside a literal.
pub proof fn lemma_diff_harmless(m: ModelView)
    requires
        m.faithful(),
    ensures
        forall|k: int| 0 <= k < m.diff().len() ==> m.tree.harmless(#[trigger] m.diff()[k]),
{
    let last = m.tree.tokens.len() as int;
    lemma_diff_upto_harmless(m, last);
    lemma_space_edit_harmless(m, last);
    assert forall|k: int| 0 <= k < m.diff().len() implies m.tree.harmless(#[trigger] m.diff()[k]) by {
        if k < m.diff_upto(last).len() {
            assert(m.diff()[k] == m.diff_upto(last)[k]);
        } else {
            assert(m.diff()[k] == m.space_edit(last)[0]);
        }
    }
}

/// No two atomic edits of a formatting run overlap: the edits lie inside
/// the text and each ends no later than the next begins.
pub proof fn lemma_edits_disjoint(
    tree: TreeView,
    spacing: Seq<SpacingRule>,
    indent: Seq<IndentRule>,
    anchors: Seq<Pattern>,
)
    requires
        tree.wf(),
    ensures
        format_spec(tree, spacing, indent, anchors) matches Ok(edits) ==> ordered(
            edits,
            tree.text.len() as int,
        ),
{
    lemma_formatted_faithful(tree, spacing, indent, anchors);
    if let Ok(m) = formatted(tree, spacing, indent, anchors) {
        lemma_diff_ordered(m);
    }
}

/// A formatting run changes nothing but whitespace and the inside of
/// literals. Every edit replaces a whitespace run by spaces and line
/// breaks or lies inside a bare URI or the content of a string. The edits
/// turn the source text into whitespace runs and tokens in turn; every
/// run reads as in the source or is made of spaces and line breaks only;
/// and every token that is neither a bare URI nor string content reads as
/// in the source.
pub proof fn lemma_tokens_survive(
    tree: TreeView,
    spacing: Seq<SpacingRule>,
    indent: Seq<IndentRule>,
    anchors: Seq<Pattern>,
)
    requires
        tree.wf(),
    ensures
        formatted(tree, spacing, indent, anchors) matches Ok(m) ==> {
            &&& forall|k: int| 0 <= k < m.diff().len() ==> tree.harmless(#[trigger] m.diff()[k])
            &&& apply_edits(tree.text, m.diff()) == m.rendered()
            &&& m.spaces_are_blank()
            &&& forall|j: int|
                0 <= j < tree.tokens.len() && !tree.is_literal_token(j) ==> #[trigger] m.fixed_token(
                    j,
                ) == tree.token_text(j)
        },
{
    lemma_formatted_faithful(tree, spacing, indent, anchors);
    if let Ok(m) = formatted(tree, spacing, indent, anchors) {
        lemma_diff_renders(m);
        lemma_diff_harmless(m);
        assert forall|j: int|
            0 <= j < tree.tokens.len() && !tree.is_literal_token(j) implies #[trigger] m.fixed_token(
            j,
        ) == tree.token_text(j) by {
            assert(m.fixes[j].len() == 0 || m.tree.is_literal_token(j));
            lemma_unedited_token(m, j);
        }
    }
}

/// A formatting run fails exactly if, after the spacing pass, some
/// element that needs an indent is matched by more than one indentation
/// rule. Such a rule set is never resolved silently.
pub proof fn lemma_conflict_is_fatal(
    tree: TreeView,
    spacing: Seq<SpacingRule>,
    indent: Seq<IndentRule>,
    anchors: Seq<Pattern>,
)
    requires
        tree.wf(),
    ensures
        formatted(tree, spacing, indent, anchors) is Err <==> exists|w: int|
            0 <= w < tree.walk().len() && ModelView::initial(tree).spacing_pass(
                spacing,
            ).conflict_at(indent, #[trigger] tree.walk()[w] as int),
        format_spec(tree, spacing, indent, anchors) is Err <==> formatted(
            tree,
            spacing,
            indent,
            anchors,
        ) is Err,
{
    lemma_initial_faithful(tree);
    lemma_spacing_pass_faithful(ModelView::initial(tree), spacing);
    tree.lemma_walk_upto(tree.elements.len() as int);
    lemma_indent_elements(
        ModelView::initial(tree).spacing_pass(spacing),
        indent,
        anchors,
        tree.walk(),
        tree.walk().len() as int,
    );
}

impl ModelView {
    /// Nothing differs from the source: every whitespace run reads as in
    /// the source and no token has edits inside.
    pub open spec fn unchanged(self) -> bool {
        &&& forall|j: int|
            0 <= j < self.blocks.len() ==> (#[trigger] self.blocks[j]).text
                == self.tree.space_text(j)
        &&& forall|j: int| 0 <= j < self.fixes.len() ==> (#[trigger] self.fixes[j]).len() == 0
    }
}

proof fn lemma_diff_upto_empty(m: ModelView, j: int)
    requires
        m.wf(),
        0 <= j <= m.tree.tokens.len(),
    ensures
        m.diff_upto(j).len() == 0 <==> (forall|i: int|
            0 <= i < j ==> (#[trigger] m.blocks[i]).text == m.tree.space_text(i)) && (forall|
            i: int,
        | 0 <= i < j ==> (#[trigger] m.fixes[i]).len() == 0),
    decreases j,
{
    if j > 0 {
        lemma_diff_upto_empty(m, j - 1);
        if m.diff_upto(j).len() == 0 {
            assert(m.space_edit(j - 1).len() == 0);
            assert(m.fixes[j - 1].len() == 0);
        }
    }
}

/// The edit list is empty exactly if nothing differs from the source. A
/// run on text that the rules leave as it is has nothing to report.
pub proof fn lemma_empty_diff_iff_unchanged(m: ModelView)
    requires
        m.wf(),
    ensures
        m.diff().len() == 0 <==> m.unchanged(),
{
    let k = m.tree.tokens.len() as int;
    lemma_diff_upto_empty(m, k);
    if m.unchanged() {
        assert(m.blocks[k].text == m.tree.space_text(k));
    }
    if m.diff().len() == 0 {
        assert(m.space_edit(k).len() == 0);
        assert forall|j: int| 0 <= j < m.blocks.len() implies (#[trigger] m.blocks[j]).text
            == m.tree.space_text(j) by {
            if j < k {
            }
        }
    }
}

impl TreeView {
    /// The ancestor `d` levels above element `e`; `e` itself for `d` zero.
    pub open spec fn ancestor(self, e: int, d: nat) -> Option<int>
        decreases d,
    {
        if d == 0 {
            Some(e)
        } else {
            match self.elements[e].parent {
                Some(p) => self.ancestor(p as int, (d - 1) as nat),
                None => None,
            }
        }
    }
}

impl ModelView {
    /// `at` is an element that neither begins a line nor is an anchor: the
    /// search for a resolved indent goes on to its parent.
    pub open spec fn looks_past(self, anchors: Seq<Pattern>, at: Option<int>) -> bool {
        at is Some && !self.starts_line(at->0) && !self.is_anchor(anchors, at->0)
    }
}

/// The resolved indent of an element is the column of the nearest element
/// at or above it that begins a line or is an anchor.
pub proof fn lemma_resolved_indent_climbs(
    m: ModelView,
    anchors: Seq<Pattern>,
    e: int,
    d: nat,
    a: int,
)
    requires
        m.tree.wf(),
        0 <= e < m.tree.elements.len(),
        m.tree.ancestor(e, d) == Some(a),
        m.starts_line(a) || m.is_anchor(anchors, a),
        forall|i: nat|
            i < d ==> m.looks_past(anchors, #[trigger] m.tree.ancestor(e, i)),
    ensures
        m.resolved_indent(anchors, e) == m.element_column(a),
    decreases d,
{
    if d > 0 {
        assert(m.tree.ancestor(e, 0) == Some(e));
        let p = m.tree.elements[e].parent->0 as int;
        assert(m.tree.elements[e].parent is Some);
        assert forall|i: nat| i < d - 1 implies m.looks_past(
            anchors,
            #[trigger] m.tree.ancestor(p, i),
        ) by {
            assert(m.tree.ancestor(e, i + 1) == m.tree.ancestor(p, i));
        }
        lemma_resolved_indent_climbs(m, anchors, p, (d - 1) as nat, a);
    }
}

/// An element indented by the default policy inside an anchor, with no
/// element between the two that is an anchor or begins a line, stands one
/// level deeper than the column in which the anchor begins.
pub proof fn lemma_default_indent_follows_anchor(
    m: ModelView,
    anchors: Seq<Pattern>,
    e: int,
    d: nat,
    a: int,
)
    requires
        m.tree.wf(),
        0 <= e < m.tree.elements.len(),
        d >= 1,
        m.tree.ancestor(e, d) == Some(a),
        m.is_anchor(anchors, a),
        forall|i: nat|
            1 <= i < d ==> m.looks_past(anchors, #[trigger] m.tree.ancestor(e, i)),
    ensures
        m.default_target(anchors, e) == crate::text::sat_add(
            m.element_column(a),
            crate::engine::indentation::INDENT_SIZE as nat,
        ),
{
    let p = m.tree.elements[e].parent->0 as int;
    assert(m.tree.elements[e].parent is Some);
    if e == 0 {
        assert(m.tree.elements[0].parent is None);
    }
    assert forall|i: nat| i < d - 1 implies m.looks_past(
        anchors,
        #[trigger] m.tree.ancestor(p, i),
    ) by {
        assert(m.tree.ancestor(e, i + 1) == m.tree.ancestor(p, i));
    }
    lemma_resolved_indent_climbs(m, anchors, p, (d - 1) as nat, a);
}

} // verus!
